//! What the readings say about the machine.
//!
//! The laws go from the directories under `/sys/class/hwmon` and the contents of
//! their files, or from what else was observed, straight to the readings.

use crate::order;
use crate::paths;
use crate::sensors;
use crate::sensors::{HwmonView, NvmlValues, Observation, Reading, ReaderView, ScanView};
use crate::table;
use crate::text;
use crate::text::CharSet;
use vstd::prelude::*;

verus! {

// ── Ids ──────────────────────────────────────────────────────────────────────

/// What tells ids apart: their length and two of their characters.
spec fn mark(id: Seq<char>) -> (nat, char, char) {
    (id.len(), id[0], id[5])
}

proof fn lemma_marks()
    ensures
        mark("cpu_temp"@) == (8nat, 'c', 'e'),
        mark("cpu_freq"@) == (8nat, 'c', 'r'),
        mark("cpu_util"@) == (8nat, 'c', 't'),
        mark("cpu_power"@) == (9nat, 'c', 'o'),
        mark("igpu_temp"@) == (9nat, 'i', 't'),
        mark("igpu_util"@) == (9nat, 'i', 'u'),
        mark("igpu_power"@) == (10nat, 'i', 'p'),
        mark("igpu_vram_pct"@) == (13nat, 'i', 'v'),
        mark("gpu_temp"@) == (8nat, 'g', 'e'),
        mark("gpu_util"@) == (8nat, 'g', 't'),
        mark("gpu_power"@) == (9nat, 'g', 'o'),
        mark("gpu_vram_pct"@) == (12nat, 'g', 'r'),
        mark("gpu_hotspot_temp"@) == (16nat, 'g', 'o'),
        mark("ram_used_pct"@) == (12nat, 'r', 's'),
{
    reveal_strlit("cpu_temp");
    reveal_strlit("cpu_freq");
    reveal_strlit("cpu_util");
    reveal_strlit("cpu_power");
    reveal_strlit("igpu_temp");
    reveal_strlit("igpu_util");
    reveal_strlit("igpu_power");
    reveal_strlit("igpu_vram_pct");
    reveal_strlit("gpu_temp");
    reveal_strlit("gpu_util");
    reveal_strlit("gpu_power");
    reveal_strlit("gpu_vram_pct");
    reveal_strlit("gpu_hotspot_temp");
    reveal_strlit("ram_used_pct");
}

proof fn lemma_numbered_mark(n: nat)
    ensures
        sensors::numbered_id("nvme"@, n)[0] == 'n',
        sensors::numbered_id("dimm"@, n)[0] == 'd',
{
    reveal_strlit("nvme");
    reveal_strlit("dimm");
}

/// The kinds of directories have different names.
proof fn lemma_names()
    ensures
        "k10temp"@ != "amdgpu"@,
        "k10temp"@ != "nvidia"@,
        "k10temp"@ != "nvme"@,
        "k10temp"@ != "spd5118"@,
        "amdgpu"@ != "nvidia"@,
        "amdgpu"@ != "nvme"@,
        "amdgpu"@ != "spd5118"@,
        "nvidia"@ != "nvme"@,
        "nvidia"@ != "spd5118"@,
        "nvme"@ != "spd5118"@,
{
    reveal_strlit("k10temp");
    reveal_strlit("amdgpu");
    reveal_strlit("nvidia");
    reveal_strlit("nvme");
    reveal_strlit("spd5118");
    assert("k10temp"@[0] == 'k' && "amdgpu"@[0] == 'a' && "spd5118"@[0] == 's');
    assert("nvidia"@.len() == 6 && "nvme"@.len() == 4);
    assert("nvidia"@[0] == 'n' && "nvme"@[0] == 'n');
}

// ── One value among all readings ─────────────────────────────────────────────

/// Whether two maps say the same of a key.
spec fn agree<V>(a: Map<Seq<char>, V>, b: Map<Seq<char>, V>, key: Seq<char>) -> bool {
    a.contains_key(key) == b.contains_key(key) && (b.contains_key(key) ==> a[key] == b[key])
}

proof fn lemma_processor_agrees(
    m: Map<Seq<char>, Reading>,
    r: ReaderView,
    o: Observation,
    key: Seq<char>,
)
    requires
        key != "cpu_freq"@,
        key != "cpu_util"@,
        key != "cpu_power"@,
    ensures
        agree(sensors::with_processor(m, r, o), m, key),
{
}

proof fn lemma_igpu_agrees(
    m: Map<Seq<char>, Reading>,
    r: ReaderView,
    files: Map<Seq<char>, Seq<char>>,
    key: Seq<char>,
)
    requires
        key != "igpu_util"@,
        key != "igpu_power"@,
        key != "igpu_vram_pct"@,
    ensures
        agree(sensors::with_igpu(m, r, files), m, key),
{
}

proof fn lemma_nvml_agrees(m: Map<Seq<char>, Reading>, v: Option<NvmlValues>, key: Seq<char>)
    requires
        v is None || (key != "gpu_temp"@ && key != "gpu_hotspot_temp"@ && key != "gpu_util"@ && key
            != "gpu_vram_pct"@ && key != "gpu_power"@),
    ensures
        agree(sensors::with_nvml(m, v), m, key),
{
}

proof fn lemma_gpu_files_agree(
    m: Map<Seq<char>, Reading>,
    r: ReaderView,
    files: Map<Seq<char>, Seq<char>>,
    key: Seq<char>,
)
    requires
        key != "gpu_hotspot_temp"@,
        key != "gpu_util"@,
        key != "gpu_power"@,
        key != "gpu_vram_pct"@,
    ensures
        agree(sensors::with_gpu_files(m, r, files), m, key),
{
}

/// A temperature that nothing else is read under.
proof fn lemma_temperature_stays(r: ReaderView, o: Observation, key: Seq<char>)
    requires
        r.temps.contains_key(key),
        key == "cpu_temp"@ || key == "igpu_temp"@ || (key == "gpu_temp"@ && o.nvml is None) || (
        key.len() > 0 && (key[0] == 'n' || key[0] == 'd')),
    ensures
        ({
            let files = table::table_texts(o.files@);
            let n = sensors::number_at(files, r.temps[key]);
            &&& sensors::all_readings(r, o).contains_key(key) == n is Some
            &&& n matches Some(v) ==> sensors::all_readings(r, o)[key] == Reading::Degrees(
                sensors::whole_degrees(v) as i32,
            )
        }),
{
    lemma_marks();
    let files = table::table_texts(o.files@);
    let m = sensors::temperatures(r.temps, files);
    let a = sensors::with_processor(m, r, o);
    let b = sensors::with_igpu(a, r, files);
    let c = sensors::with_nvml(b, o.nvml);
    let d = sensors::with_gpu_files(c, r, files);
    lemma_processor_agrees(m, r, o, key);
    lemma_igpu_agrees(a, r, files, key);
    lemma_nvml_agrees(b, o.nvml, key);
    lemma_gpu_files_agree(c, r, files, key);
    assert(key != "ram_used_pct"@);
    assert(agree(sensors::all_readings(r, o), d, key));
}

// ── Where the values are found ───────────────────────────────────────────────

/// The kind of a directory.
pub open spec fn kind_of(e: HwmonView) -> Seq<char> {
    text::trim(e.name, CharSet::White)
}

/// Whether exactly one directory, the one at `i`, is of this kind.
pub open spec fn is_only(entries: Seq<HwmonView>, i: int, kind: Seq<char>) -> bool {
    &&& 0 <= i < entries.len()
    &&& kind_of(entries[i]) == kind
    &&& forall|k: int| 0 <= k < entries.len() && k != i ==> kind_of(#[trigger] entries[k]) != kind
}

/// Whether `r` reads the files that were chosen among these directories; its
/// counters may have moved on.
pub open spec fn reads(r: ReaderView, entries: Seq<HwmonView>, nvml: bool) -> bool {
    exists|first: ReaderView| #[trigger]
        sensors::is_reader_for(first, entries, nvml) && r == (ReaderView {
            prev_idle: r.prev_idle,
            prev_total: r.prev_total,
            prev_energy: r.prev_energy,
            ..first
        })
}

/// What the scan gives under the id of a kind of directory of which there is one.
proof fn lemma_scan_kept(s: ScanView, e: HwmonView)
    ensures
        ({
            let t = sensors::scan_step(s, e);
            &&& kind_of(e) != "k10temp"@ ==> agree(t.temps, s.temps, "cpu_temp"@)
            &&& kind_of(e) != "nvidia"@ ==> agree(t.temps, s.temps, "gpu_temp"@) && t.hotspot
                == s.hotspot && t.gpu_power == s.gpu_power
            &&& kind_of(e) != "amdgpu"@ ==> agree(t.temps, s.temps, "igpu_temp"@) && t.igpu_power
                == s.igpu_power && t.igpu_busy == s.igpu_busy && t.igpu_vram_used
                == s.igpu_vram_used && t.igpu_vram_total == s.igpu_vram_total
        }),
{
    lemma_marks();
    lemma_numbered_mark(s.nvme);
    lemma_numbered_mark(s.dimm);
    lemma_names();
}

/// What the scan keeps of the only directory of its kind.
spec fn holds(s: ScanView, e: HwmonView) -> bool {
    let kind = kind_of(e);
    &&& kind == "k10temp"@ && e.temp1 is Some ==> s.temps.contains_key("cpu_temp"@)
        && s.temps["cpu_temp"@] == e.temp1->0
    &&& kind == "nvidia"@ ==> s.hotspot == e.temp2 && s.gpu_power == e.power1 && (
    e.temp1 is Some ==> s.temps.contains_key("gpu_temp"@) && s.temps["gpu_temp"@] == e.temp1->0)
    &&& kind == "amdgpu"@ ==> {
        &&& s.igpu_power == e.power1
        &&& e.temp1 is Some ==> s.temps.contains_key("igpu_temp"@) && s.temps["igpu_temp"@]
            == e.temp1->0
        &&& e.device matches Some(d) ==> {
            &&& s.igpu_busy == d.busy
            &&& d.vram_used is Some && d.vram_total is Some ==> s.igpu_vram_used == d.vram_used
                && s.igpu_vram_total == d.vram_total
        }
    }
}

proof fn lemma_scan_of_only(entries: Seq<HwmonView>, at: int, n: int)
    requires
        0 <= n <= entries.len(),
        is_only(entries, at, kind_of(entries[at])),
    ensures
        n <= at && kind_of(entries[at]) == "nvidia"@ ==> sensors::scanned(entries, n).gpu_power is None,
        n <= at && kind_of(entries[at]) == "amdgpu"@ ==> sensors::scanned(
            entries,
            n,
        ).igpu_busy is None,
        n > at ==> holds(sensors::scanned(entries, n), entries[at]),
    decreases n,
{
    lemma_names();
    if n > 0 {
        lemma_scan_of_only(entries, at, n - 1);
        let s = sensors::scanned(entries, n - 1);
        let e = entries[n - 1];
        if n - 1 != at {
            assert(kind_of(e) != kind_of(entries[at]));
            lemma_scan_kept(s, e);
        }
    }
}

/// No directory of a kind: nothing is found under its id.
proof fn lemma_scan_without(entries: Seq<HwmonView>, n: int)
    requires
        0 <= n <= entries.len(),
        forall|k: int| 0 <= k < entries.len() ==> kind_of(#[trigger] entries[k]) != "amdgpu"@,
    ensures
        !sensors::scanned(entries, n).temps.contains_key("igpu_temp"@),
    decreases n,
{
    if n > 0 {
        lemma_scan_without(entries, n - 1);
        lemma_scan_kept(sensors::scanned(entries, n - 1), entries[n - 1]);
    }
}

/// The directories in the order in which they were looked through.
proof fn lemma_arranged(entries: Seq<HwmonView>, sorted: Seq<usize>, i: int) -> (at: int)
    requires
        order::is_stable_order(sorted, sensors::hwmon_keys(entries)),
        0 <= i < entries.len(),
    ensures
        0 <= at < entries.len(),
        sensors::arranged(entries, sorted)[at] == entries[i],
        sorted.len() == entries.len(),
        forall|k: int|
            0 <= k < entries.len() ==> 0 <= #[trigger] sorted[k] < entries.len() && (k != at
                ==> sorted[k] != i),
{
    order::law_stable_order_is_permutation(sorted, sensors::hwmon_keys(entries));
    assert(sorted.contains(i as usize));
    let at = choose|k: int| 0 <= k < sorted.len() && sorted[k] == i as usize;
    at
}

/// What was chosen of the only directory of its kind.
proof fn lemma_chosen(r: ReaderView, entries: Seq<HwmonView>, nvml: bool, i: int) -> (s: ScanView)
    requires
        reads(r, entries, nvml),
        is_only(entries, i, kind_of(entries[i])),
    ensures
        holds(s, entries[i]),
        r == (ReaderView {
            prev_idle: r.prev_idle,
            prev_total: r.prev_total,
            prev_energy: r.prev_energy,
            ..sensors::planned(s, sensors::socket_energy(entries), nvml)
        }),
        (forall|k: int| 0 <= k < entries.len() ==> kind_of(#[trigger] entries[k]) != "amdgpu"@)
            ==> !s.temps.contains_key("igpu_temp"@),
{
    let first = choose|first: ReaderView| #[trigger]
        sensors::is_reader_for(first, entries, nvml) && r == (ReaderView {
            prev_idle: r.prev_idle,
            prev_total: r.prev_total,
            prev_energy: r.prev_energy,
            ..first
        });
    let len = entries.len() as int;
    let sorted = choose|sorted: Seq<usize>|
        #[trigger] order::is_stable_order(sorted, sensors::hwmon_keys(entries)) && first
            == sensors::planned(
            sensors::scanned(sensors::arranged(entries, sorted), len),
            sensors::socket_energy(entries),
            nvml,
        );
    let looked = sensors::arranged(entries, sorted);
    let s = sensors::scanned(looked, len);
    let at = lemma_arranged(entries, sorted, i);
    assert forall|k: int| 0 <= k < looked.len() && k != at implies kind_of(#[trigger] looked[k])
        != kind_of(looked[at]) by {
        assert(sorted[k] != i);
        assert(kind_of(entries[sorted[k] as int]) != kind_of(entries[i]));
    }
    lemma_scan_of_only(looked, at, len);
    if forall|k: int| 0 <= k < entries.len() ==> kind_of(#[trigger] entries[k]) != "amdgpu"@ {
        assert forall|k: int| 0 <= k < looked.len() implies kind_of(#[trigger] looked[k])
            != "amdgpu"@ by {
            assert(sorted[k] < sensors::hwmon_keys(entries).len());
            assert(looked[k] == entries[sorted[k] as int]);
        }
        lemma_scan_without(looked, len);
    }
    s
}

/// The number of thousandths of a degree in a file, in whole degrees.
proof fn lemma_degrees(n: nat)
    requires
        n < 0x8000_0000,
    ensures
        sensors::whole_degrees(n) as i32 == n / 1000,
{
}

// ── Laws ─────────────────────────────────────────────────────────────────────

/// A number that a file holds, with the line feed that ends it, is read as that
/// number.
pub proof fn law_file_number_reads_back(n: nat)
    requires
        n <= u64::MAX,
    ensures
        sensors::number_in(text::decimal(n)) == Some(n),
        sensors::number_in(text::decimal(n).push('\n')) == Some(n),
{
    let d = text::decimal(n);
    text::lemma_decimal_reads_back(n);
    assert forall|i: int| 0 <= i < d.len() implies !CharSet::White.has(#[trigger] d[i]) by {
        assert(text::is_digit(d[i]));
    }
    assert(text::trim_start(d, CharSet::White) == d);
    assert(text::trim_end(d, CharSet::White) == d);
    let e = d.push('\n');
    assert(e.drop_last() =~= d);
    assert(e[0] == d[0]);
    assert(text::trim_start(e, CharSet::White) == e);
    assert(text::trim_end(e, CharSet::White) == d);
}

/// The processor temperature: where exactly one directory is that of the processor
/// sensor, and its first temperature file holds thousandths of a degree, these are
/// shown in whole degrees.
pub proof fn law_processor_temperature_is_read(
    r: ReaderView,
    entries: Seq<HwmonView>,
    nvml: bool,
    o: Observation,
    i: int,
    n: nat,
)
    requires
        reads(r, entries, nvml),
        is_only(entries, i, "k10temp"@),
        entries[i].temp1 is Some,
        sensors::number_at(table::table_texts(o.files@), entries[i].temp1->0) == Some(n),
        n < 0x8000_0000,
    ensures
        sensors::all_readings(r, o).contains_key("cpu_temp"@),
        sensors::all_readings(r, o)["cpu_temp"@] == Reading::Degrees((n / 1000) as i32),
{
    lemma_marks();
    let s = lemma_chosen(r, entries, nvml, i);
    assert("cpu_temp"@ != "gpu_temp"@);
    assert(r.temps.contains_key("cpu_temp"@) && r.temps["cpu_temp"@] == entries[i].temp1->0);
    lemma_temperature_stays(r, o, "cpu_temp"@);
    lemma_degrees(n);
}

/// The integrated graphics processor: where exactly one directory is its, its
/// temperature, power, load and memory are read from that directory and from its
/// device.
pub proof fn law_integrated_gpu_is_read(
    r: ReaderView,
    entries: Seq<HwmonView>,
    nvml: bool,
    o: Observation,
    i: int,
    n: nat,
    w: nat,
)
    requires
        reads(r, entries, nvml),
        is_only(entries, i, "amdgpu"@),
        n <= u64::MAX,
        w <= u64::MAX,
    ensures
        ({
            let all = sensors::all_readings(r, o);
            let files = table::table_texts(o.files@);
            let e = entries[i];
            &&& e.temp1 matches Some(p) ==> (sensors::number_at(files, p) == Some(n) && (n
                < 0x8000_0000) ==> all.contains_key("igpu_temp"@) && all["igpu_temp"@]
                == Reading::Degrees((n / 1000) as i32))
            &&& e.power1 matches Some(p) ==> (sensors::number_at(files, p) == Some(n)
                ==> all.contains_key("igpu_power"@) && all["igpu_power"@] == Reading::Micro(
                n as u64,
            ))
            &&& e.device matches Some(d) ==> {
                &&& d.busy matches Some(p) ==> (sensors::number_at(files, p) == Some(n)
                    ==> all.contains_key("igpu_util"@) && all["igpu_util"@] == Reading::Count(
                    n as u64,
                ))
                &&& d.vram_used matches Some(p) ==> (d.vram_total matches Some(q) ==> (
                sensors::number_at(files, p) == Some(n) && sensors::number_at(files, q) == Some(w)
                    && (w > 0) ==> all.contains_key("igpu_vram_pct"@) && all["igpu_vram_pct"@] == (
                Reading::Share { part: n as u64, whole: w as u64 })))
            }
        }),
{
    lemma_marks();
    lemma_names();
    let s = lemma_chosen(r, entries, nvml, i);
    let files = table::table_texts(o.files@);
    let e = entries[i];
    if e.temp1 is Some && n < 0x8000_0000 {
        assert("igpu_temp"@ != "gpu_temp"@);
        assert(r.temps.contains_key("igpu_temp"@) && r.temps["igpu_temp"@] == e.temp1->0);
        lemma_temperature_stays(r, o, "igpu_temp"@);
        lemma_degrees(n);
    }
    lemma_igpu_values_stay(r, o, "igpu_power"@);
    lemma_igpu_values_stay(r, o, "igpu_util"@);
    lemma_igpu_values_stay(r, o, "igpu_vram_pct"@);
}

/// What is read of the integrated graphics processor is not replaced.
proof fn lemma_igpu_values_stay(r: ReaderView, o: Observation, key: Seq<char>)
    requires
        key == "igpu_power"@ || key == "igpu_util"@ || key == "igpu_vram_pct"@,
    ensures
        ({
            let files = table::table_texts(o.files@);
            let all = sensors::all_readings(r, o);
            let value = if key == "igpu_power"@ {
                sensors::micro(sensors::number_at_path(files, r.igpu_power))
            } else if key == "igpu_util"@ {
                sensors::count(sensors::number_at_path(files, r.igpu_busy))
            } else {
                sensors::share(
                    sensors::number_at_path(files, r.igpu_vram_used),
                    sensors::number_at_path(files, r.igpu_vram_total),
                )
            };
            value matches Some(v) ==> all.contains_key(key) && all[key] == v
        }),
{
    lemma_marks();
    let files = table::table_texts(o.files@);
    let m = sensors::temperatures(r.temps, files);
    let a = sensors::with_processor(m, r, o);
    let b = sensors::with_igpu(a, r, files);
    let c = sensors::with_nvml(b, o.nvml);
    lemma_nvml_agrees(b, o.nvml, key);
    lemma_gpu_files_agree(c, r, files, key);
    assert(key != "ram_used_pct"@);
}

/// The discrete graphics processor without its library: where exactly one directory
/// is its, and no integrated one takes its place, its temperature and that of its
/// hottest spot are read from the two temperature files.
pub proof fn law_discrete_gpu_is_read(
    r: ReaderView,
    entries: Seq<HwmonView>,
    o: Observation,
    i: int,
    n: nat,
)
    requires
        reads(r, entries, false),
        is_only(entries, i, "nvidia"@),
        forall|k: int| 0 <= k < entries.len() ==> kind_of(#[trigger] entries[k]) != "amdgpu"@,
        o.nvml is None,
        n < 0x8000_0000,
    ensures
        ({
            let all = sensors::all_readings(r, o);
            let files = table::table_texts(o.files@);
            let e = entries[i];
            &&& e.temp1 matches Some(p) ==> (sensors::number_at(files, p) == Some(n)
                ==> all.contains_key("gpu_temp"@) && all["gpu_temp"@] == Reading::Degrees(
                (n / 1000) as i32,
            ))
            &&& e.temp2 matches Some(p) ==> (sensors::number_at(files, p) == Some(n)
                ==> all.contains_key("gpu_hotspot_temp"@) && all["gpu_hotspot_temp"@]
                == Reading::Degrees((n / 1000) as i32))
        }),
{
    lemma_marks();
    lemma_names();
    lemma_degrees(n);
    let s = lemma_chosen(r, entries, false, i);
    if entries[i].temp1 is Some {
        lemma_temperature_stays(r, o, "gpu_temp"@);
    }
    lemma_gpu_values_stay(r, o);
}

/// What the files say of the primary graphics processor is not replaced.
proof fn lemma_gpu_values_stay(r: ReaderView, o: Observation)
    ensures
        ({
            let files = table::table_texts(o.files@);
            let all = sensors::all_readings(r, o);
            &&& sensors::degrees(sensors::number_at_path(files, r.hotspot)) matches Some(v)
                ==> all.contains_key("gpu_hotspot_temp"@) && all["gpu_hotspot_temp"@] == v
            &&& sensors::count(sensors::number_at_path(files, r.gpu_busy)) matches Some(v)
                ==> all.contains_key("gpu_util"@) && all["gpu_util"@] == v
            &&& sensors::micro(sensors::number_at_path(files, r.gpu_power)) matches Some(v)
                ==> all.contains_key("gpu_power"@) && all["gpu_power"@] == v
        }),
{
    lemma_marks();
}

/// The graphics processor with its library: what the library reports is shown,
/// where no file of the processor's directory says more.
pub proof fn law_library_values_are_read(
    r: ReaderView,
    entries: Seq<HwmonView>,
    o: Observation,
    v: NvmlValues,
)
    requires
        reads(r, entries, true),
        o.nvml == Some(v),
    ensures
        ({
            let all = sensors::all_readings(r, o);
            let files = table::table_texts(o.files@);
            &&& v.temperature matches Some(t) ==> all.contains_key("gpu_temp"@) && all["gpu_temp"@]
                == Reading::Count(t as u64)
            &&& v.utilization matches Some(u) ==> all.contains_key("gpu_util"@) && all["gpu_util"@]
                == Reading::Count(u as u64)
            &&& v.memory_used matches Some(p) ==> (v.memory_total matches Some(w) ==> ((w > 0)
                ==> all.contains_key("gpu_vram_pct"@) && all["gpu_vram_pct"@] == (Reading::Share {
                part: p,
                whole: w,
            })))
            &&& v.power_mw matches Some(p) ==> (sensors::number_at_path(files, r.gpu_power) is None
                ==> all.contains_key("gpu_power"@) && all["gpu_power"@] == Reading::Milli(p))
            &&& v.hotspot matches Some(t) ==> ((t > 0) && sensors::number_at_path(
                files,
                r.hotspot,
            ) is None ==> all.contains_key("gpu_hotspot_temp"@) && all["gpu_hotspot_temp"@]
                == Reading::Degrees(t))
        }),
{
    let first = choose|first: ReaderView| #[trigger]
        sensors::is_reader_for(first, entries, true) && r == (ReaderView {
            prev_idle: r.prev_idle,
            prev_total: r.prev_total,
            prev_energy: r.prev_energy,
            ..first
        });
    assert(r.gpu_busy is None && r.vram_used is None && r.vram_total is None);
    let files = table::table_texts(o.files@);
    let m = sensors::temperatures(r.temps, files);
    let b = sensors::with_igpu(sensors::with_processor(m, r, o), r, files);
    let c = sensors::with_nvml(b, o.nvml);
    lemma_library(b, v);
    lemma_marks();
    assert("gpu_temp"@ != "ram_used_pct"@);
    lemma_gpu_files_agree(c, r, files, "gpu_temp"@);
}

proof fn lemma_library(m: Map<Seq<char>, Reading>, v: NvmlValues)
    ensures
        ({
            let all = sensors::with_nvml(m, Some(v));
            &&& v.temperature matches Some(t) ==> all.contains_key("gpu_temp"@) && all["gpu_temp"@]
                == Reading::Count(t as u64)
            &&& v.utilization matches Some(u) ==> all.contains_key("gpu_util"@) && all["gpu_util"@]
                == Reading::Count(u as u64)
            &&& v.memory_used matches Some(p) ==> (v.memory_total matches Some(w) ==> ((w > 0)
                ==> all.contains_key("gpu_vram_pct"@) && all["gpu_vram_pct"@] == (Reading::Share {
                part: p,
                whole: w,
            })))
            &&& v.power_mw matches Some(p) ==> all.contains_key("gpu_power"@) && all["gpu_power"@]
                == Reading::Milli(p)
            &&& v.hotspot matches Some(t) ==> ((t > 0) ==> all.contains_key("gpu_hotspot_temp"@)
                && all["gpu_hotspot_temp"@] == Reading::Degrees(t))
        }),
{
    lemma_marks();
}

// ── Drives and memory modules ────────────────────────────────────────────────

/// The kind of directory and the id of drives, or of memory modules.
pub open spec fn numbered_kind(modules: bool) -> (Seq<char>, Seq<char>) {
    if modules {
        ("spd5118"@, "dimm"@)
    } else {
        ("nvme"@, "nvme"@)
    }
}

spec fn found(s: ScanView, modules: bool) -> nat {
    if modules {
        s.dimm
    } else {
        s.nvme
    }
}

proof fn lemma_numbered_differ(a: nat, b: nat, kind: Seq<char>)
    ensures
        sensors::numbered_id(kind, a) == sensors::numbered_id(kind, b) ==> a == b,
{
    let x = sensors::numbered_id(kind, a);
    let y = sensors::numbered_id(kind, b);
    if x == y {
        let n = text::decimal(a).len() as int;
        assert(x.len() == kind.len() + n + "_temp"@.len());
        assert(y.len() == kind.len() + text::decimal(b).len() + "_temp"@.len());
        assert(text::decimal(a) =~= x.subrange(kind.len() as int, kind.len() + n));
        assert(text::decimal(b) =~= y.subrange(kind.len() as int, kind.len() + n));
        text::lemma_decimal_reads_back(a);
        text::lemma_decimal_reads_back(b);
    }
}

/// A directory adds at most one drive or module, behind all that were found.
proof fn lemma_numbered_step(s: ScanView, e: HwmonView, modules: bool, m: nat)
    requires
        m < found(s, modules),
    ensures
        ({
            let t = sensors::scan_step(s, e);
            let id = sensors::numbered_id(numbered_kind(modules).1, m);
            &&& found(t, modules) >= found(s, modules)
            &&& agree(t.temps, s.temps, id)
        }),
{
    let kind = numbered_kind(modules).1;
    lemma_marks();
    lemma_numbered_mark(m);
    lemma_numbered_mark(s.nvme);
    lemma_numbered_mark(s.dimm);
    lemma_numbered_differ(m, found(s, modules), kind);
}

proof fn lemma_numbered_scan(entries: Seq<HwmonView>, modules: bool, at: int, n: int)
    requires
        0 <= at < n <= entries.len(),
        kind_of(entries[at]) == numbered_kind(modules).0,
        entries[at].temp1 is Some,
    ensures
        ({
            let m = found(sensors::scanned(entries, at), modules);
            let s = sensors::scanned(entries, n);
            let id = sensors::numbered_id(numbered_kind(modules).1, m);
            &&& m < found(s, modules)
            &&& s.temps.contains_key(id)
            &&& s.temps[id] == entries[at].temp1->0
        }),
    decreases n,
{
    lemma_names();
    let m = found(sensors::scanned(entries, at), modules);
    if n - 1 > at {
        lemma_numbered_scan(entries, modules, at, n - 1);
        lemma_numbered_step(sensors::scanned(entries, n - 1), entries[n - 1], modules, m);
    }
}

/// Every drive and every memory module whose temperature file exists has a reading
/// of its own, under an id with its number. They are numbered in the order of the
/// names of their directories.
pub proof fn law_drives_are_numbered(
    r: ReaderView,
    entries: Seq<HwmonView>,
    nvml: bool,
    modules: bool,
    i: int,
    j: int,
) -> (res: (nat, nat))
    requires
        reads(r, entries, nvml),
        0 <= i < entries.len(),
        0 <= j < entries.len(),
        kind_of(entries[i]) == numbered_kind(modules).0,
        kind_of(entries[j]) == numbered_kind(modules).0,
        entries[i].temp1 is Some,
        entries[j].temp1 is Some,
        order::before(sensors::hwmon_keys(entries), i, j),
    ensures
        res.0 < res.1,
        ({
            let kind = numbered_kind(modules).1;
            let a = sensors::numbered_id(kind, res.0);
            let b = sensors::numbered_id(kind, res.1);
            &&& r.temps.contains_key(a) && r.temps[a] == entries[i].temp1->0
            &&& r.temps.contains_key(b) && r.temps[b] == entries[j].temp1->0
        }),
{
    let first = choose|first: ReaderView| #[trigger]
        sensors::is_reader_for(first, entries, nvml) && r == (ReaderView {
            prev_idle: r.prev_idle,
            prev_total: r.prev_total,
            prev_energy: r.prev_energy,
            ..first
        });
    let len = entries.len() as int;
    let keys = sensors::hwmon_keys(entries);
    let sorted = choose|sorted: Seq<usize>|
        #[trigger] order::is_stable_order(sorted, keys) && first == sensors::planned(
            sensors::scanned(sensors::arranged(entries, sorted), len),
            sensors::socket_energy(entries),
            nvml,
        );
    let looked = sensors::arranged(entries, sorted);
    let at = lemma_arranged(entries, sorted, i);
    let bt = lemma_arranged(entries, sorted, j);
    lemma_position(entries, sorted, i, at);
    lemma_position(entries, sorted, j, bt);
    if bt < at {
        assert(order::before(keys, sorted[bt] as int, sorted[at] as int));
    }
    lemma_numbered_scan(looked, modules, at, len);
    lemma_numbered_scan(looked, modules, bt, len);
    lemma_numbered_scan(looked, modules, at, bt);
    let a = found(sensors::scanned(looked, at), modules);
    let b = found(sensors::scanned(looked, bt), modules);
    lemma_marks();
    lemma_numbered_mark(a);
    lemma_numbered_mark(b);
    (a, b)
}

proof fn lemma_position(entries: Seq<HwmonView>, sorted: Seq<usize>, i: int, at: int)
    requires
        order::is_stable_order(sorted, sensors::hwmon_keys(entries)),
        0 <= at < entries.len(),
        0 <= i < entries.len(),
        forall|k: int| 0 <= k < entries.len() ==> (k != at ==> #[trigger] sorted[k] != i),
    ensures
        sorted[at] == i,
{
    order::law_stable_order_is_permutation(sorted, sensors::hwmon_keys(entries));
    assert(sorted.contains(i as usize));
    let k = choose|k: int| 0 <= k < sorted.len() && sorted[k] == i as usize;
}

/// The reading of a drive or a memory module is its temperature in whole degrees.
pub proof fn law_drive_temperature_is_read(
    r: ReaderView,
    o: Observation,
    modules: bool,
    m: nat,
    n: nat,
)
    requires
        ({
            let id = sensors::numbered_id(numbered_kind(modules).1, m);
            &&& r.temps.contains_key(id)
            &&& sensors::number_at(table::table_texts(o.files@), r.temps[id]) == Some(n)
        }),
        n < 0x8000_0000,
    ensures
        ({
            let id = sensors::numbered_id(numbered_kind(modules).1, m);
            let all = sensors::all_readings(r, o);
            all.contains_key(id) && all[id] == Reading::Degrees((n / 1000) as i32)
        }),
{
    lemma_numbered_mark(m);
    lemma_degrees(n);
    lemma_temperature_stays(r, o, sensors::numbered_id(numbered_kind(modules).1, m));
}

// ── Processor, memory and files ──────────────────────────────────────────────

/// What is read of the processor besides its temperature: the frequencies as they
/// were summed up, the share of time in which it was busy since the counters of the
/// last reading, in whole percent, and, if more than 50 milliseconds have passed,
/// the energy that brings its counter from the last reading to this one.
pub proof fn law_processor_load_is_read(
    r: ReaderView,
    o: Observation,
    idle: u64,
    total: u64,
    energy: nat,
)
    requires
        o.stat == Some((idle, total)),
        r.prev_idle <= idle,
        r.prev_total < total,
        idle - r.prev_idle <= total - r.prev_total,
        (total - r.prev_total) * 100 <= u64::MAX,
        sensors::number_at(table::table_texts(o.files@), r.zenergy) == Some(energy),
        energy <= u64::MAX,
    ensures
        ({
            let all = sensors::all_readings(r, o);
            let span = total - r.prev_total;
            let busy = span - (idle - r.prev_idle);
            &&& all.contains_key("cpu_freq"@)
            &&& all["cpu_freq"@] == (Reading::Frequency {
                total: o.frequency_total,
                count: o.frequency_count,
            })
            &&& all.contains_key("cpu_util"@)
            &&& all["cpu_util"@] matches Reading::Count(percent) && percent * span <= 100 * busy
                && 100 * busy < (percent + 1) * span
            &&& o.elapsed_ns > 50_000_000 ==> all.contains_key("cpu_power"@)
            &&& o.elapsed_ns > 50_000_000 ==> (all["cpu_power"@] matches Reading::Power {
                energy: used,
                elapsed_ns,
            } && elapsed_ns == o.elapsed_ns && (r.prev_energy + used == energy || r.prev_energy
                + used == energy + 0x1_0000_0000_0000_0000))
        }),
{
    lemma_marks();
    let files = table::table_texts(o.files@);
    let m = sensors::temperatures(r.temps, files);
    let a = sensors::with_processor(m, r, o);
    let span = total - r.prev_total;
    let busy = span - (idle - r.prev_idle);
    assert(0 <= busy * 100 / span <= 100 && (busy * 100 / span) * span <= 100 * busy < (busy * 100
        / span + 1) * span) by {
        vstd::arithmetic::div_mod::lemma_fundamental_div_mod(busy * 100, span);
        let q = busy * 100 / span;
        let rest = (busy * 100) % span;
        assert(q * span <= 100 * busy < (q + 1) * span) by (nonlinear_arith)
            requires
                busy * 100 == span * q + rest,
                0 <= rest < span,
        ;
        assert(0 <= q <= 100) by (nonlinear_arith)
            requires
                q * span <= 100 * busy < (q + 1) * span,
                0 <= busy <= span,
                0 < span,
        ;
    }
    assert(sensors::utilization(
        idle as int,
        total as int,
        r.prev_idle as int,
        r.prev_total as int,
    ) == busy * 100 / span);
    lemma_processor_stays(r, o, "cpu_freq"@);
    lemma_processor_stays(r, o, "cpu_util"@);
    lemma_processor_stays(r, o, "cpu_power"@);
}

/// What is read of the processor is not replaced.
proof fn lemma_processor_stays(r: ReaderView, o: Observation, key: Seq<char>)
    requires
        key == "cpu_freq"@ || key == "cpu_util"@ || key == "cpu_power"@,
    ensures
        agree(
            sensors::all_readings(r, o),
            sensors::with_processor(
                sensors::temperatures(r.temps, table::table_texts(o.files@)),
                r,
                o,
            ),
            key,
        ),
{
    lemma_marks();
    let files = table::table_texts(o.files@);
    let a = sensors::with_processor(sensors::temperatures(r.temps, files), r, o);
    let b = sensors::with_igpu(a, r, files);
    let c = sensors::with_nvml(b, o.nvml);
    lemma_igpu_agrees(a, r, files, key);
    lemma_nvml_agrees(b, o.nvml, key);
    lemma_gpu_files_agree(c, r, files, key);
}

/// The next reading is compared with this one: its counters are those that this one
/// observed, and the files stay the same.
pub proof fn law_counters_move_on(r: ReaderView, o: Observation, idle: u64, total: u64, energy: nat)
    requires
        o.stat == Some((idle, total)),
        sensors::number_at(table::table_texts(o.files@), r.zenergy) == Some(energy),
        energy <= u64::MAX,
    ensures
        ({
            let next = sensors::after_reading(r, o);
            &&& next.prev_idle == idle
            &&& next.prev_total == total
            &&& next.prev_energy == energy
            &&& next == (ReaderView {
                prev_idle: next.prev_idle,
                prev_total: next.prev_total,
                prev_energy: next.prev_energy,
                ..r
            })
        }),
{
}

/// Waiting for input and output is idle time, all other kinds are busy time.
pub proof fn law_idle_time(content: Seq<char>)
    requires
        sensors::stat_fields(content) is Some,
    ensures
        ({
            let f = sensors::stat_fields(content)->0;
            let (idle, total) = sensors::stat_times(content)->0;
            &&& idle == f[3] + f[4]
            &&& total - idle == f[0] + f[1] + f[2] + f[5] + f[6]
        }),
{
}

/// The socket energy: where exactly one directory is that of the energy counters
/// and exactly its label `k` names the socket, the counter with that number is
/// read.
pub proof fn law_socket_energy_is_found(entries: Seq<HwmonView>, i: int, k: int)
    requires
        is_only(entries, i, "zenergy"@),
        0 <= k < 16,
        k < entries[i].energy_labels.len(),
        text::trim(entries[i].energy_labels[k], CharSet::White) == "Esocket0"@,
        forall|m: int|
            0 <= m < entries[i].energy_labels.len() && m != k ==> text::trim(
                #[trigger] entries[i].energy_labels[m],
                CharSet::White,
            ) != "Esocket0"@,
    ensures
        sensors::socket_energy(entries) == Some(
            paths::join(
                entries[i].path,
                "energy"@ + text::decimal((k + 1) as nat) + "_input"@,
            ),
        ),
    decreases entries.len(),
{
    if i == 0 {
        lemma_socket_label(entries[0].energy_labels, k, 0);
    } else {
        let rest = entries.skip(1);
        assert(rest[i - 1] == entries[i]);
        assert forall|m: int| 0 <= m < rest.len() && m != i - 1 implies kind_of(#[trigger] rest[m])
            != "zenergy"@ by {
            assert(rest[m] == entries[m + 1]);
        }
        assert(kind_of(entries[0]) != "zenergy"@);
        law_socket_energy_is_found(rest, i - 1, k);
    }
}

proof fn lemma_socket_label(labels: Seq<Seq<char>>, k: int, from: int)
    requires
        0 <= from <= k < 16,
        k < labels.len(),
        text::trim(labels[k], CharSet::White) == "Esocket0"@,
        forall|m: int|
            0 <= m < labels.len() && m != k ==> text::trim(#[trigger] labels[m], CharSet::White)
                != "Esocket0"@,
    ensures
        sensors::socket_label(labels, from) == Some(k + 1),
    decreases k - from,
{
    if from < k {
        assert(text::trim(labels[from], CharSet::White) != "Esocket0"@);
        lemma_socket_label(labels, k, from + 1);
    }
}

/// The memory in use: where exactly one line gives the total and exactly one the
/// available memory, what is in use is the total without what is available.
pub proof fn law_memory_in_use(content: Seq<char>, i: int, j: int, total: nat, avail: nat)
    requires
        ({
            let lines = text::lines(content);
            &&& 0 <= i < lines.len()
            &&& 0 <= j < lines.len()
            &&& text::strip(lines[i], "MemTotal:"@) matches Some(rest) && sensors::first_number(
                rest,
            ) == Some(total)
            &&& text::strip(lines[j], "MemAvailable:"@) matches Some(rest) && sensors::first_number(
                rest,
            ) == Some(avail)
            &&& forall|k: int|
                0 <= k < lines.len() && k != i ==> text::strip(
                    #[trigger] lines[k],
                    "MemTotal:"@,
                ) is None
            &&& forall|k: int|
                0 <= k < lines.len() && k != j ==> text::strip(
                    #[trigger] lines[k],
                    "MemAvailable:"@,
                ) is None
        }),
        avail <= total <= u64::MAX,
        0 < total,
    ensures
        sensors::memory_share(content) == Some(
            Reading::Share { part: (total - avail) as u64, whole: total as u64 },
        ),
{
    let lines = text::lines(content);
    reveal_strlit("MemTotal:");
    reveal_strlit("MemAvailable:");
    assert("MemTotal:"@[3] != "MemAvailable:"@[3]);
    assert(i != j) by {
        if i == j {
            let line = lines[i];
            assert(line.subrange(0, 9)[3] == line[3]);
            assert(line.subrange(0, 13)[3] == line[3]);
        }
    }
    lemma_memory_lines(lines, i, j, total, avail, lines.len() as int);
}

proof fn lemma_memory_lines(
    lines: Seq<Seq<char>>,
    i: int,
    j: int,
    total: nat,
    avail: nat,
    n: int,
)
    requires
        0 <= n <= lines.len(),
        0 <= i < lines.len(),
        0 <= j < lines.len(),
        i != j,
        text::strip(lines[i], "MemTotal:"@) matches Some(rest) && sensors::first_number(rest)
            == Some(total),
        text::strip(lines[j], "MemAvailable:"@) matches Some(rest) && sensors::first_number(rest)
            == Some(avail),
        forall|k: int|
            0 <= k < lines.len() && k != i ==> text::strip(
                #[trigger] lines[k],
                "MemTotal:"@,
            ) is None,
        forall|k: int|
            0 <= k < lines.len() && k != j ==> text::strip(
                #[trigger] lines[k],
                "MemAvailable:"@,
            ) is None,
    ensures
        sensors::memory_after(lines, n) == Some(
            (
                if i < n {
                    total
                } else {
                    0
                },
                if j < n {
                    avail
                } else {
                    0
                },
            ),
        ),
    decreases n,
{
    if n > 0 {
        lemma_memory_lines(lines, i, j, total, avail, n - 1);
        let line = lines[n - 1];
        if n - 1 != i {
            assert(text::strip(line, "MemTotal:"@) is None);
        }
        if n - 1 != j {
            assert(text::strip(line, "MemAvailable:"@) is None);
        }
    }
}

/// The memory in use is among the readings.
pub proof fn law_memory_is_read(r: ReaderView, o: Observation, share: Reading)
    requires
        o.meminfo matches Some(s) && sensors::memory_share(s@) == Some(share),
    ensures
        sensors::all_readings(r, o).contains_key("ram_used_pct"@),
        sensors::all_readings(r, o)["ram_used_pct"@] == share,
{
}

/// Only wanted files matter: two observations that differ in no wanted file, and in
/// nothing that is not in files, give the same readings.
pub proof fn law_wanted_files_decide(r: ReaderView, a: Observation, b: Observation)
    requires
        b == (Observation { files: b.files, ..a }),
        forall|p: Seq<char>|
            sensors::is_wanted(r, p) ==> sensors::number_at(table::table_texts(a.files@), p)
                == #[trigger] sensors::number_at(table::table_texts(b.files@), p),
    ensures
        sensors::all_readings(r, a) == sensors::all_readings(r, b),
        sensors::after_reading(r, a) == sensors::after_reading(r, b),
{
    let f = table::table_texts(a.files@);
    let g = table::table_texts(b.files@);
    assert forall|id: Seq<char>| r.temps.contains_key(id) implies sensors::number_at(
        f,
        #[trigger] r.temps[id],
    ) == sensors::number_at(g, r.temps[id]) by {
        assert(sensors::is_temp_file(r.temps, r.temps[id]));
        assert(sensors::is_wanted(r, r.temps[id]));
    }
    assert(sensors::temperatures(r.temps, f) =~= sensors::temperatures(r.temps, g));
    assert(sensors::number_at(f, r.zenergy) == sensors::number_at(g, r.zenergy));
    lemma_same_number(r, f, g, r.igpu_busy);
    lemma_same_number(r, f, g, r.igpu_power);
    lemma_same_number(r, f, g, r.igpu_vram_used);
    lemma_same_number(r, f, g, r.igpu_vram_total);
    lemma_same_number(r, f, g, r.hotspot);
    lemma_same_number(r, f, g, r.gpu_busy);
    lemma_same_number(r, f, g, r.gpu_power);
    lemma_same_number(r, f, g, r.vram_used);
    lemma_same_number(r, f, g, r.vram_total);
}

proof fn lemma_same_number(
    r: ReaderView,
    f: Map<Seq<char>, Seq<char>>,
    g: Map<Seq<char>, Seq<char>>,
    path: Option<Seq<char>>,
)
    requires
        forall|p: Seq<char>|
            sensors::is_wanted(r, p) ==> sensors::number_at(f, p) == #[trigger] sensors::number_at(
                g,
                p,
            ),
        path matches Some(p) ==> sensors::is_wanted(r, p),
    ensures
        sensors::number_at_path(f, path) == sensors::number_at_path(g, path),
{
    if let Some(p) = path {
        assert(sensors::is_wanted(r, p));
        assert(sensors::number_at(f, p) == sensors::number_at(g, p));
    }
}

/// The sum and the number of the frequencies add up over the files, however these
/// are divided; a file that holds a number adds that number, and one that holds none
/// adds nothing.
pub proof fn law_frequencies_add_up(a: Seq<Seq<char>>, b: Seq<Seq<char>>, n: nat, other: Seq<char>)
    requires
        n <= u64::MAX,
        sensors::number_in(other) is None,
    ensures
        sensors::sum_in(a + b) == sensors::sum_in(a) + sensors::sum_in(b),
        sensors::count_in(a + b) == sensors::count_in(a) + sensors::count_in(b),
        sensors::sum_in(seq![text::decimal(n).push('\n')]) == n,
        sensors::count_in(seq![text::decimal(n).push('\n')]) == 1,
        sensors::sum_in(seq![other]) == 0,
        sensors::count_in(seq![other]) == 0,
{
    lemma_added(a, b);
    law_file_number_reads_back(n);
    let one = seq![text::decimal(n).push('\n')];
    let none = seq![other];
    assert(one.drop_last() =~= seq![] && none.drop_last() =~= seq![]);
    assert(sensors::sum_in(one.drop_last()) == 0 && sensors::count_in(one.drop_last()) == 0);
    assert(sensors::sum_in(none.drop_last()) == 0 && sensors::count_in(none.drop_last()) == 0);
}

proof fn lemma_added(a: Seq<Seq<char>>, b: Seq<Seq<char>>)
    ensures
        sensors::sum_in(a + b) == sensors::sum_in(a) + sensors::sum_in(b),
        sensors::count_in(a + b) == sensors::count_in(a) + sensors::count_in(b),
    decreases b.len(),
{
    if b.len() == 0 {
        assert(a + b =~= a);
    } else {
        assert((a + b).drop_last() =~= a + b.drop_last());
        lemma_added(a, b.drop_last());
    }
}

} // verus!
