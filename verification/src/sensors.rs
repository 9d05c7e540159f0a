//! Which files hold the sensor values, and what they say.
//!
//! `SensorReader::new` chooses the files from what is found under
//! `/sys/class/hwmon`. `SensorReader::read` turns their contents, together with
//! what the NVIDIA library reports, into readings.

use crate::arith::counted;
use crate::order;
use crate::order::{key_of_text, stable_order};
use crate::paths;
use crate::paths::join_path;
use crate::single::Single;
use crate::table;
use crate::table::Table;
use crate::text;
use crate::text::{
    chars_of, number_text, read_number, read_u64, same_text, split_lines, split_words, stripped,
    trimmed_text, CharSet,
};
use vstd::prelude::*;

verus! {

// ── Numbers in files ─────────────────────────────────────────────────────────

/// The number in the contents of a file.
pub open spec fn number_in(content: Seq<char>) -> Option<nat> {
    text::bounded_number(text::trim(content, CharSet::White), u64::MAX as nat)
}

/// A number modulo 2^32, as a signed number.
pub open spec fn wrap32(x: int) -> int {
    let m = x % 0x1_0000_0000;
    if m >= 0x8000_0000 {
        m - 0x1_0000_0000
    } else {
        m
    }
}

/// Thousandths of a degree, read as a signed 64-bit number, in whole degrees.
pub open spec fn whole_degrees(milli: nat) -> int {
    wrap32(
        if milli < 0x8000_0000_0000_0000 {
            (milli / 1000) as int
        } else {
            -((0x1_0000_0000_0000_0000 - milli) / 1000)
        },
    )
}

/// Whole degrees from thousandths of a degree.
pub fn read_millidegree(milli: u64) -> (res: i32)
    ensures
        res == whole_degrees(milli as nat),
{
    if milli < 0x8000_0000_0000_0000 {
        let m = milli / 1000 % 0x1_0000_0000;
        if m >= 0x8000_0000 {
            (m as i64 - 0x1_0000_0000) as i32
        } else {
            m as i32
        }
    } else {
        let magnitude = (u64::MAX - milli + 1) / 1000;
        let r = magnitude % 0x1_0000_0000;
        let m: u64 = if r == 0 {
            0
        } else {
            0x1_0000_0000 - r
        };
        assert(m == (-(magnitude as int)) % 0x1_0000_0000);
        if m >= 0x8000_0000 {
            (m as i64 - 0x1_0000_0000) as i32
        } else {
            m as i32
        }
    }
}

// ── Processor time ───────────────────────────────────────────────────────────

/// The number that a word stands for.
pub open spec fn word_number(w: Seq<char>) -> Option<nat> {
    text::bounded_number(w, u64::MAX as nat)
}

/// The first seven numbers of the first line of `/proc/stat`: user, nice,
/// system, idle, iowait, irq and softirq time.
pub open spec fn stat_fields(content: Seq<char>) -> Option<Seq<nat>> {
    let lines = text::lines(content);
    if lines.len() == 0 {
        None
    } else {
        match text::strip(lines[0], "cpu "@) {
            Some(rest) => {
                let words = text::words(rest);
                if words.len() >= 7 && (forall|i: int|
                    0 <= i < 7 ==> word_number(#[trigger] words[i]) is Some) {
                    Some(Seq::new(7, |i: int| word_number(words[i])->0))
                } else {
                    None
                }
            },
            None => None,
        }
    }
}

/// The sum of the first seven numbers.
pub open spec fn total_time(f: Seq<nat>) -> nat {
    f[0] + f[1] + f[2] + f[3] + f[4] + f[5] + f[6]
}

/// Idle time and total time. Waiting for input and output counts as idle.
pub open spec fn stat_times(content: Seq<char>) -> Option<(nat, nat)> {
    match stat_fields(content) {
        Some(f) => Some((f[3] + f[4], total_time(f))),
        None => None,
    }
}

/// Reads the first seven numbers of `/proc/stat`.
pub fn proc_stat_fields(content: &str) -> (res: Option<[u64; 7]>)
    ensures
        match res {
            Some(f) => stat_fields(content@) is Some && (forall|i: int|
                0 <= i < 7 ==> (stat_fields(content@)->0)[i] == #[trigger] f@[i]),
            None => stat_fields(content@) is None,
        },
{
    let chars = chars_of(content);
    let lines = split_lines(chars.as_slice());
    let ghost all = text::lines(content@);
    assert(all == text::seqs(lines@));
    if lines.len() == 0 {
        return None;
    }
    assert(all[0] == lines@[0]@);
    let rest = match stripped(lines[0].as_slice(), "cpu ") {
        Some(r) => r,
        None => {
            return None;
        },
    };
    let words = split_words(rest.as_slice());
    let ghost ws = text::words(rest@);
    assert(ws == text::seqs(words@));
    if words.len() < 7 {
        return None;
    }
    let mut res: [u64; 7] = [0, 0, 0, 0, 0, 0, 0];
    let mut i: usize = 0;
    while i < 7
        invariant
            i <= 7,
            all == text::lines(content@),
            all.len() > 0,
            text::strip(all[0], "cpu "@) == Some(rest@),
            ws == text::words(rest@),
            ws == text::seqs(words@),
            ws.len() >= 7,
            forall|k: int| 0 <= k < i ==> word_number(#[trigger] ws[k]) is Some,
            forall|k: int| 0 <= k < i ==> word_number(#[trigger] ws[k]) == Some(res@[k] as nat),
        decreases 7 - i,
    {
        assert(ws[i as int] == words@[i as int]@);
        match read_number(words[i].as_slice(), u64::MAX) {
            Some(n) => {
                res[i] = n;
            },
            None => {
                assert(word_number(ws[i as int]) is None);
                return None;
            },
        }
        i = i + 1;
    }
    assert forall|k: int| 0 <= k < 7 implies (stat_fields(content@)->0)[k] == #[trigger] res@[k] by {
        assert(word_number(ws[k]) == Some(res@[k] as nat));
    }
    Some(res)
}

/// Idle time and total time in `/proc/stat`. The total must fit into 64 bits.
pub fn parse_proc_stat(content: &str) -> (res: Option<(u64, u64)>)
    requires
        stat_fields(content@) matches Some(f) ==> total_time(f) <= u64::MAX,
    ensures
        match res {
            Some((idle, total)) => stat_times(content@) == Some((idle as nat, total as nat)),
            None => stat_times(content@) is None,
        },
{
    match proc_stat_fields(content) {
        Some(f) => {
            let ghost g = stat_fields(content@)->0;
            assert(g[0] == f@[0] && g[1] == f@[1] && g[2] == f@[2] && g[3] == f@[3] && g[4] == f@[4]
                && g[5] == f@[5] && g[6] == f@[6]);
            let total = f[0] + f[1] + f[2] + f[3] + f[4] + f[5] + f[6];
            Some((f[3] + f[4], total))
        },
        None => None,
    }
}

/// The share of time, in percent, that the processor was not idle between two
/// readings of its idle and total time.
pub open spec fn utilization(idle: int, total: int, prev_idle: int, prev_total: int) -> int {
    let d_total = if total >= prev_total {
        total - prev_total
    } else {
        0
    };
    let d_idle = if idle >= prev_idle {
        idle - prev_idle
    } else {
        0
    };
    let busy = if d_total >= d_idle {
        d_total - d_idle
    } else {
        0
    };
    let scaled = if busy * 100 <= u64::MAX {
        busy * 100
    } else {
        u64::MAX as int
    };
    if d_total == 0 {
        0
    } else if scaled / d_total <= 100 {
        scaled / d_total
    } else {
        100
    }
}

/// Utilization is a percentage, and 0 if no time has passed.
pub proof fn law_utilization_is_percentage(
    idle: int,
    total: int,
    prev_idle: int,
    prev_total: int,
)
    ensures
        0 <= utilization(idle, total, prev_idle, prev_total) <= 100,
        total <= prev_total ==> utilization(idle, total, prev_idle, prev_total) == 0,
        total > prev_total && idle <= prev_idle && (total - prev_total) * 100 <= u64::MAX
            ==> utilization(idle, total, prev_idle, prev_total) == 100,
{
    if total > prev_total {
        let d_total = total - prev_total;
        let d_idle = if idle >= prev_idle {
            idle - prev_idle
        } else {
            0
        };
        let busy = if d_total >= d_idle {
            d_total - d_idle
        } else {
            0
        };
        let scaled = if busy * 100 <= u64::MAX {
            busy * 100
        } else {
            u64::MAX as int
        };
        assert(0 <= scaled / d_total) by (nonlinear_arith)
            requires
                0 <= scaled,
                0 < d_total,
        ;
        assert(d_total * 100 / d_total == 100) by (nonlinear_arith)
            requires
                0 < d_total,
        ;
    }
}

fn cpu_utilization(idle: u64, total: u64, prev_idle: u64, prev_total: u64) -> (res: u64)
    ensures
        res == utilization(idle as int, total as int, prev_idle as int, prev_total as int),
{
    let d_total: u64 = if total >= prev_total {
        total - prev_total
    } else {
        0
    };
    let d_idle: u64 = if idle >= prev_idle {
        idle - prev_idle
    } else {
        0
    };
    let busy: u64 = if d_total >= d_idle {
        d_total - d_idle
    } else {
        0
    };
    let product: u128 = busy as u128 * 100;
    let scaled: u64 = if product <= u64::MAX as u128 {
        product as u64
    } else {
        u64::MAX
    };
    if d_total == 0 {
        0
    } else if scaled / d_total <= 100 {
        scaled / d_total
    } else {
        100
    }
}

// ── Processor frequency ──────────────────────────────────────────────────────

/// The sum of the numbers in the files that hold one.
pub open spec fn sum_in(contents: Seq<Seq<char>>) -> nat
    decreases contents.len(),
{
    if contents.len() == 0 {
        0
    } else {
        sum_in(contents.drop_last()) + match number_in(contents.last()) {
            Some(n) => n,
            None => 0,
        }
    }
}

/// How many files hold a number.
pub open spec fn count_in(contents: Seq<Seq<char>>) -> nat
    decreases contents.len(),
{
    if contents.len() == 0 {
        0
    } else {
        count_in(contents.drop_last()) + match number_in(contents.last()) {
            Some(n) => 1nat,
            None => 0nat,
        }
    }
}

proof fn lemma_sum_grows(contents: Seq<Seq<char>>, i: int)
    requires
        0 <= i <= contents.len(),
    ensures
        sum_in(contents.take(i)) <= sum_in(contents),
        count_in(contents.take(i)) <= i,
    decreases contents.len() - i, i,
{
    if i == contents.len() {
        assert(contents.take(i) =~= contents);
        if i > 0 {
            lemma_count(contents);
        }
    } else {
        lemma_sum_grows(contents, i + 1);
        assert(contents.take(i + 1).drop_last() =~= contents.take(i));
        lemma_count(contents.take(i));
    }
}

proof fn lemma_count(contents: Seq<Seq<char>>)
    ensures
        count_in(contents) <= contents.len(),
    decreases contents.len(),
{
    if contents.len() > 0 {
        lemma_count(contents.drop_last());
    }
}

/// The sum and the number of the frequencies in the files that hold one. The
/// sum must fit into 64 bits and the number of files into 32.
pub fn sum_frequencies(contents: &[String]) -> (res: (u64, u32))
    requires
        sum_in(text::texts(contents@)) <= u64::MAX,
        contents@.len() <= u32::MAX,
    ensures
        res.0 == sum_in(text::texts(contents@)),
        res.1 == count_in(text::texts(contents@)),
{
    let ghost all = text::texts(contents@);
    let mut total: u64 = 0;
    let mut count: u32 = 0;
    let mut i: usize = 0;
    while i < contents.len()
        invariant
            i <= contents@.len(),
            all == text::texts(contents@),
            sum_in(all) <= u64::MAX,
            contents@.len() <= u32::MAX,
            total == sum_in(all.take(i as int)),
            count == count_in(all.take(i as int)),
            count <= i,
        decreases contents@.len() - i,
    {
        assert(all.take(i + 1).drop_last() =~= all.take(i as int));
        assert(all.take(i + 1).last() == contents@[i as int]@);
        proof {
            lemma_sum_grows(all, i + 1);
        }
        if let Some(khz) = read_u64(contents[i].as_str()) {
            total = total + khz;
            count = count + 1;
        }
        i = i + 1;
    }
    assert(all.take(i as int) =~= all);
    (total, count)
}

// ── Memory ───────────────────────────────────────────────────────────────────

/// The number that the first word of a text stands for.
pub open spec fn first_number(s: Seq<char>) -> Option<nat> {
    let words = text::words(s);
    if words.len() == 0 {
        None
    } else {
        word_number(words[0])
    }
}

/// Total and available memory after the first `n` lines of `/proc/meminfo`, if
/// none of them was malformed. The last line of each kind counts.
pub open spec fn memory_after(lines: Seq<Seq<char>>, n: int) -> Option<(nat, nat)>
    decreases n,
{
    if n <= 0 {
        Some((0, 0))
    } else {
        match memory_after(lines, n - 1) {
            Some((total, avail)) => match text::strip(lines[n - 1], "MemTotal:"@) {
                Some(rest) => match first_number(rest) {
                    Some(v) => Some((v, avail)),
                    None => None,
                },
                None => match text::strip(lines[n - 1], "MemAvailable:"@) {
                    Some(rest) => match first_number(rest) {
                        Some(v) => Some((total, v)),
                        None => None,
                    },
                    None => Some((total, avail)),
                },
            },
            None => None,
        }
    }
}

/// The share of memory in use, in the contents of `/proc/meminfo`.
pub open spec fn memory_share(content: Seq<char>) -> Option<Reading> {
    let lines = text::lines(content);
    match memory_after(lines, lines.len() as int) {
        Some((total, avail)) => if total == 0 {
            None
        } else {
            Some(
                Reading::Share {
                    part: (if total >= avail {
                        total - avail
                    } else {
                        0
                    }) as u64,
                    whole: total as u64,
                },
            )
        },
        None => None,
    }
}

fn read_first_number(chars: &[char]) -> (res: Option<u64>)
    ensures
        match res {
            Some(n) => first_number(chars@) == Some(n as nat),
            None => first_number(chars@) is None,
        },
{
    let words = split_words(chars);
    assert(text::words(chars@) == text::seqs(words@));
    if words.len() == 0 {
        return None;
    }
    assert(text::words(chars@)[0] == words@[0]@);
    read_number(words[0].as_slice(), u64::MAX)
}

proof fn lemma_memory_malformed(lines: Seq<Seq<char>>, n: int, m: int)
    requires
        0 <= n <= m,
        memory_after(lines, n) is None,
    ensures
        memory_after(lines, m) is None,
    decreases m,
{
    if n < m {
        lemma_memory_malformed(lines, n, m - 1);
    }
}

/// The share of memory in use.
pub fn parse_ram_used_pct(content: &str) -> (res: Option<Reading>)
    ensures
        res == memory_share(content@),
{
    let chars = chars_of(content);
    let lines = split_lines(chars.as_slice());
    let ghost all = text::lines(content@);
    assert(all == text::seqs(lines@));
    let mut total: u64 = 0;
    let mut avail: u64 = 0;
    let mut i: usize = 0;
    while i < lines.len()
        invariant
            i <= lines@.len(),
            all == text::seqs(lines@),
            all == text::lines(content@),
            memory_after(all, i as int) == Some((total as nat, avail as nat)),
        decreases lines@.len() - i,
    {
        assert(all[i as int] == lines@[i as int]@);
        if let Some(rest) = stripped(lines[i].as_slice(), "MemTotal:") {
            match read_first_number(rest.as_slice()) {
                Some(v) => total = v,
                None => {
                    proof {
                        lemma_memory_malformed(all, i + 1, all.len() as int);
                    }
                    return None;
                },
            }
        } else if let Some(rest) = stripped(lines[i].as_slice(), "MemAvailable:") {
            match read_first_number(rest.as_slice()) {
                Some(v) => avail = v,
                None => {
                    proof {
                        lemma_memory_malformed(all, i + 1, all.len() as int);
                    }
                    return None;
                },
            }
        }
        i = i + 1;
    }
    if total == 0 {
        None
    } else {
        Some(
            Reading::Share {
                part: if total >= avail {
                    total - avail
                } else {
                    0
                },
                whole: total,
            },
        )
    }
}

// ── Readings ─────────────────────────────────────────────────────────────────

/// A sensor value, as the exact numbers that it is computed from.
#[derive(Clone, Copy, Debug, PartialEq, Eq, Structural)]
pub enum Reading {
    /// Whole degrees.
    Degrees(i32),
    /// A plain number.
    Count(u64),
    /// Millionths.
    Micro(u64),
    /// Thousandths.
    Milli(u32),
    /// A hundred times `part / whole`.
    Share { part: u64, whole: u64 },
    /// The average of `count` frequencies in kHz with this total, in GHz; zero
    /// if there is none.
    Frequency { total: u64, count: u32 },
    /// Microjoules in this many nanoseconds, in watts.
    Power { energy: u64, elapsed_ns: u64 },
}

impl Reading {
    /// The value, where it is computed in single precision. Power is not: its
    /// value is computed in double precision.
    pub open spec fn value(self) -> Option<Single> {
        match self {
            Reading::Degrees(d) => Some(
                if d < 0 {
                    counted((-d) as nat).negated()
                } else {
                    counted(d as nat)
                },
            ),
            Reading::Count(n) => Some(counted(n as nat)),
            Reading::Micro(n) => Some(counted(n as nat).ratio(counted(1_000_000))),
            Reading::Milli(n) => Some(counted(n as nat).ratio(counted(1000))),
            Reading::Share { part, whole } => Some(
                counted(part as nat).ratio(counted(whole as nat)).product(counted(100)),
            ),
            Reading::Frequency { total, count } => Some(
                if count == 0 {
                    counted(0)
                } else {
                    counted(total as nat).ratio(counted(count as nat)).ratio(counted(1_000_000))
                },
            ),
            Reading::Power { .. } => None,
        }
    }

    /// Computes the value of a reading other than power.
    pub fn to_single(self) -> (res: Option<Single>)
        ensures
            res == self.value(),
    {
        match self {
            Reading::Degrees(d) => {
                if d < 0 {
                    Some(Single::count((-(d as i64)) as u64).minus())
                } else {
                    Some(Single::count(d as u64))
                }
            },
            Reading::Count(n) => Some(Single::count(n)),
            Reading::Micro(n) => Some(Single::count(n).over(Single::count(1_000_000))),
            Reading::Milli(n) => Some(Single::count(n as u64).over(Single::count(1000))),
            Reading::Share { part, whole } => {
                let share: Single = Single::count(part).over(Single::count(whole));
                Some(share.times(Single::count(100)))
            },
            Reading::Frequency { total, count } => {
                if count == 0 {
                    Some(Single::count(0))
                } else {
                    let average: Single = Single::count(total).over(Single::count(count as u64));
                    Some(average.over(Single::count(1_000_000)))
                }
            },
            Reading::Power { .. } => None,
        }
    }
}

/// The values of all sensors that could be read.
#[derive(Clone, Debug)]
pub struct SensorValues {
    pub readings: Table<Reading>,
}

/// The value of a reading, of which the power is known.
pub open spec fn value_with(r: Reading, power: Single) -> Single {
    match r.value() {
        Some(v) => v,
        None => power,
    }
}

impl SensorValues {
    /// Computes the values of all readings. `power` is the value of the power of
    /// the processor, if that was read.
    pub fn values(&self, power: Single) -> (res: Table<Single>)
        requires
            self.readings.wf(),
        ensures
            res.wf(),
            res@ == self.readings@.map_values(|r: Reading| value_with(r, power)),
    {
        let ghost all = self.readings.entries@;
        let mut entries: Vec<(String, Single)> = Vec::new();
        let mut i: usize = 0;
        while i < self.readings.entries.len()
            invariant
                i <= all.len(),
                all == self.readings.entries@,
                entries@.len() == i,
                forall|k: int|
                    0 <= k < i ==> (#[trigger] entries@[k]).0@ == all[k].0@ && entries@[k].1
                        == value_with(all[k].1, power),
            decreases all.len() - i,
        {
            let entry = &self.readings.entries[i];
            let value: Single = match entry.1.to_single() {
                Some(v) => v,
                None => power,
            };
            entries.push((entry.0.clone(), value));
            i = i + 1;
        }
        let res = Table { entries };
        proof {
            let made = res.entries@;
            let len = all.len() as int;
            let f = |r: Reading| value_with(r, power);
            assert forall|a: int, b: int| 0 <= a < b < made.len() implies #[trigger] made[a].0@
                != #[trigger] made[b].0@ by {
                assert(all[a].0@ != all[b].0@);
            }
            assert forall|key: Seq<char>| #[trigger]
                table::key_position(made, key, len) == table::key_position(all, key, len) && 0
                    <= table::key_position(all, key, len) <= len by {
                table::lemma_same_keys(made, all, key, len);
            }
            assert(res@ =~= self.readings@.map_values(f));
        }
        res
    }

    /// Sets the coolant temperature, or zero if the display did not tell it.
    pub fn set_coolant(&mut self, degrees: Option<u8>)
        requires
            old(self).readings.wf(),
        ensures
            final(self).readings.wf(),
            final(self).readings@ == old(self).readings@.insert(
                "coolant"@,
                Reading::Degrees(
                    match degrees {
                        Some(d) => d as i32,
                        None => 0,
                    },
                ),
            ),
    {
        let d: i32 = match degrees {
            Some(d) => d as i32,
            None => 0,
        };
        self.readings.insert("coolant", Reading::Degrees(d));
    }
}

// ── Choosing files ───────────────────────────────────────────────────────────

/// The files of a graphics processor that exist.
#[derive(Clone, Debug)]
pub struct GpuFiles {
    pub busy: Option<String>,
    pub vram_used: Option<String>,
    pub vram_total: Option<String>,
}

/// One directory under `/sys/class/hwmon`: its own name and path, the contents
/// of its `name` file, the paths of those of its files that exist, the files
/// of the device that it belongs to, and the contents of its energy labels.
#[derive(Clone, Debug)]
pub struct HwmonEntry {
    pub file_name: String,
    pub path: String,
    pub name: String,
    pub temp1: Option<String>,
    pub temp2: Option<String>,
    pub power1: Option<String>,
    pub device: Option<GpuFiles>,
    pub energy_labels: Vec<String>,
}

/// What a `GpuFiles` holds.
pub struct GpuFilesView {
    pub busy: Option<Seq<char>>,
    pub vram_used: Option<Seq<char>>,
    pub vram_total: Option<Seq<char>>,
}

/// What an `HwmonEntry` holds.
pub struct HwmonView {
    pub file_name: Seq<char>,
    pub path: Seq<char>,
    pub name: Seq<char>,
    pub temp1: Option<Seq<char>>,
    pub temp2: Option<Seq<char>>,
    pub power1: Option<Seq<char>>,
    pub device: Option<GpuFilesView>,
    pub energy_labels: Seq<Seq<char>>,
}

impl View for GpuFiles {
    type V = GpuFilesView;

    open spec fn view(&self) -> GpuFilesView {
        GpuFilesView {
            busy: text::opt_text(self.busy),
            vram_used: text::opt_text(self.vram_used),
            vram_total: text::opt_text(self.vram_total),
        }
    }
}

impl View for HwmonEntry {
    type V = HwmonView;

    open spec fn view(&self) -> HwmonView {
        HwmonView {
            file_name: self.file_name@,
            path: self.path@,
            name: self.name@,
            temp1: text::opt_text(self.temp1),
            temp2: text::opt_text(self.temp2),
            power1: text::opt_text(self.power1),
            device: match self.device {
                Some(d) => Some(d@),
                None => None,
            },
            energy_labels: text::texts(self.energy_labels@),
        }
    }
}

/// What a list of `HwmonEntry`s holds.
pub open spec fn hwmon_views(v: Seq<HwmonEntry>) -> Seq<HwmonView> {
    Seq::new(v.len(), |i: int| v[i]@)
}

/// The files that were chosen while looking through the directories.
#[verifier::ext_equal]
pub struct ScanView {
    pub temps: Map<Seq<char>, Seq<char>>,
    pub gpu_power: Option<Seq<char>>,
    pub igpu_power: Option<Seq<char>>,
    pub igpu_busy: Option<Seq<char>>,
    pub igpu_vram_used: Option<Seq<char>>,
    pub igpu_vram_total: Option<Seq<char>>,
    pub hotspot: Option<Seq<char>>,
    pub nvme: nat,
    pub dimm: nat,
}

/// `m` with `path` under `id`, if there is such a path.
pub open spec fn with_path(
    m: Map<Seq<char>, Seq<char>>,
    id: Seq<char>,
    path: Option<Seq<char>>,
) -> Map<Seq<char>, Seq<char>> {
    match path {
        Some(p) => m.insert(id, p),
        None => m,
    }
}

/// The id of the numbered sensor of a kind.
pub open spec fn numbered_id(kind: Seq<char>, n: nat) -> Seq<char> {
    kind + text::decimal(n) + "_temp"@
}

/// What one directory adds.
pub open spec fn scan_step(s: ScanView, e: HwmonView) -> ScanView {
    let name = text::trim(e.name, CharSet::White);
    if name == "k10temp"@ {
        ScanView { temps: with_path(s.temps, "cpu_temp"@, e.temp1), ..s }
    } else if name == "amdgpu"@ {
        let t = ScanView {
            temps: with_path(s.temps, "igpu_temp"@, e.temp1),
            igpu_power: e.power1,
            ..s
        };
        match e.device {
            Some(d) => ScanView {
                igpu_busy: if d.busy is Some {
                    d.busy
                } else {
                    t.igpu_busy
                },
                igpu_vram_used: if d.vram_used is Some && d.vram_total is Some {
                    d.vram_used
                } else {
                    t.igpu_vram_used
                },
                igpu_vram_total: if d.vram_used is Some && d.vram_total is Some {
                    d.vram_total
                } else {
                    t.igpu_vram_total
                },
                ..t
            },
            None => t,
        }
    } else if name == "nvidia"@ {
        ScanView {
            temps: with_path(s.temps, "gpu_temp"@, e.temp1),
            hotspot: e.temp2,
            gpu_power: if e.power1 is Some {
                e.power1
            } else {
                s.gpu_power
            },
            ..s
        }
    } else if name == "nvme"@ {
        match e.temp1 {
            Some(p) => ScanView {
                temps: s.temps.insert(numbered_id("nvme"@, s.nvme), p),
                nvme: s.nvme + 1,
                ..s
            },
            None => s,
        }
    } else if name == "spd5118"@ {
        match e.temp1 {
            Some(p) => ScanView {
                temps: s.temps.insert(numbered_id("dimm"@, s.dimm), p),
                dimm: s.dimm + 1,
                ..s
            },
            None => s,
        }
    } else {
        s
    }
}

/// What the first `n` directories give.
pub open spec fn scanned(entries: Seq<HwmonView>, n: int) -> ScanView
    decreases n,
{
    if n <= 0 {
        ScanView {
            temps: Map::empty(),
            gpu_power: None,
            igpu_power: None,
            igpu_busy: None,
            igpu_vram_used: None,
            igpu_vram_total: None,
            hotspot: None,
            nvme: 0,
            dimm: 0,
        }
    } else {
        scan_step(scanned(entries, n - 1), entries[n - 1])
    }
}

/// The number of the label that names the socket energy, from `i` on. Labels
/// are numbered from 1 to 16.
pub open spec fn socket_label(labels: Seq<Seq<char>>, i: int) -> Option<int>
    decreases 16 - i,
{
    if i >= 16 || i >= labels.len() {
        None
    } else if text::trim(labels[i], CharSet::White) == "Esocket0"@ {
        Some(i + 1)
    } else {
        socket_label(labels, i + 1)
    }
}

/// The file of the socket energy counter.
pub open spec fn socket_energy(entries: Seq<HwmonView>) -> Option<Seq<char>>
    decreases entries.len(),
{
    if entries.len() == 0 {
        None
    } else {
        let e = entries[0];
        let label = if text::trim(e.name, CharSet::White) == "zenergy"@ {
            socket_label(e.energy_labels, 0)
        } else {
            None
        };
        match label {
            Some(i) => Some(
                paths::join(e.path, "energy"@ + text::decimal(i as nat) + "_input"@),
            ),
            None => socket_energy(entries.skip(1)),
        }
    }
}

/// The files that a reader reads, and the counters of its last reading.
#[verifier::ext_equal]
pub struct ReaderView {
    pub temps: Map<Seq<char>, Seq<char>>,
    pub gpu_power: Option<Seq<char>>,
    pub gpu_busy: Option<Seq<char>>,
    pub vram_used: Option<Seq<char>>,
    pub vram_total: Option<Seq<char>>,
    pub igpu_power: Option<Seq<char>>,
    pub igpu_busy: Option<Seq<char>>,
    pub igpu_vram_used: Option<Seq<char>>,
    pub igpu_vram_total: Option<Seq<char>>,
    pub zenergy: Seq<char>,
    pub hotspot: Option<Seq<char>>,
    pub prev_idle: u64,
    pub prev_total: u64,
    pub prev_energy: u64,
}

/// The reader for what was found. With the NVIDIA library present, that library
/// provides the values of the graphics processor; without it, the integrated
/// one takes its place.
pub open spec fn planned(s: ScanView, zenergy: Option<Seq<char>>, nvml: bool) -> ReaderView {
    ReaderView {
        temps: if nvml {
            s.temps.remove("gpu_temp"@)
        } else if s.temps.contains_key("igpu_temp"@) {
            s.temps.insert("gpu_temp"@, s.temps["igpu_temp"@])
        } else {
            s.temps
        },
        gpu_power: if nvml {
            s.gpu_power
        } else {
            s.igpu_power
        },
        gpu_busy: if nvml {
            None
        } else {
            s.igpu_busy
        },
        vram_used: if nvml {
            None
        } else {
            s.igpu_vram_used
        },
        vram_total: if nvml {
            None
        } else {
            s.igpu_vram_total
        },
        igpu_power: s.igpu_power,
        igpu_busy: s.igpu_busy,
        igpu_vram_used: s.igpu_vram_used,
        igpu_vram_total: s.igpu_vram_total,
        zenergy: match zenergy {
            Some(p) => p,
            None => "/sys/class/hwmon/hwmon8/energy9_input"@,
        },
        hotspot: s.hotspot,
        prev_idle: 0,
        prev_total: 1,
        prev_energy: 0,
    }
}

/// The sorting keys of directories: their names.
pub open spec fn hwmon_keys(entries: Seq<HwmonView>) -> Seq<Seq<i64>> {
    Seq::new(entries.len(), |i: int| order::text_key(entries[i].file_name))
}

/// The directories in the given order.
pub open spec fn arranged(entries: Seq<HwmonView>, order: Seq<usize>) -> Seq<HwmonView> {
    Seq::new(entries.len(), |i: int| entries[order[i] as int])
}

/// Whether this is the reader for these directories, looked through in the
/// order of their names.
pub open spec fn is_reader_for(r: ReaderView, entries: Seq<HwmonView>, nvml: bool) -> bool {
    exists|order: Seq<usize>|
        #[trigger] order::is_stable_order(order, hwmon_keys(entries)) && r == planned(
            scanned(arranged(entries, order), entries.len() as int),
            socket_energy(entries),
            nvml,
        )
}

/// Without the NVIDIA library, the integrated graphics processor is read under
/// the ids of both; with it, the temperature of the discrete one is not read
/// from a file.
pub proof fn law_primary_gpu(s: ScanView, zenergy: Option<Seq<char>>, nvml: bool)
    ensures
        ({
            let r = planned(s, zenergy, nvml);
            &&& nvml ==> !r.temps.contains_key("gpu_temp"@) && r.gpu_busy is None && r.vram_used is None
                && r.vram_total is None
            &&& !nvml ==> r.gpu_busy == r.igpu_busy && r.gpu_power == r.igpu_power && r.vram_used
                == r.igpu_vram_used && r.vram_total == r.igpu_vram_total
            &&& !nvml && r.temps.contains_key("igpu_temp"@) ==> r.temps.contains_key("gpu_temp"@)
                && r.temps["gpu_temp"@] == r.temps["igpu_temp"@]
        }),
{
    reveal_strlit("gpu_temp");
    reveal_strlit("igpu_temp");
    assert("gpu_temp"@.len() != "igpu_temp"@.len());
}

/// Which files hold which sensor values.
#[derive(Debug)]
pub struct SensorReader {
    prev_idle: u64,
    prev_total: u64,
    prev_energy: u64,
    temp_paths: Table<String>,
    gpu_power_path: Option<String>,
    gpu_busy_path: Option<String>,
    vram_used_path: Option<String>,
    vram_total_path: Option<String>,
    igpu_power_path: Option<String>,
    igpu_busy_path: Option<String>,
    igpu_vram_used_path: Option<String>,
    igpu_vram_total_path: Option<String>,
    zenergy_path: String,
    nvidia_hotspot_path: Option<String>,
}

impl View for SensorReader {
    type V = ReaderView;

    closed spec fn view(&self) -> ReaderView {
        ReaderView {
            temps: table::table_texts(self.temp_paths@),
            gpu_power: text::opt_text(self.gpu_power_path),
            gpu_busy: text::opt_text(self.gpu_busy_path),
            vram_used: text::opt_text(self.vram_used_path),
            vram_total: text::opt_text(self.vram_total_path),
            igpu_power: text::opt_text(self.igpu_power_path),
            igpu_busy: text::opt_text(self.igpu_busy_path),
            igpu_vram_used: text::opt_text(self.igpu_vram_used_path),
            igpu_vram_total: text::opt_text(self.igpu_vram_total_path),
            zenergy: self.zenergy_path@,
            hotspot: text::opt_text(self.nvidia_hotspot_path),
            prev_idle: self.prev_idle,
            prev_total: self.prev_total,
            prev_energy: self.prev_energy,
        }
    }
}

fn copy_path(p: &Option<String>) -> (res: Option<String>)
    ensures
        text::opt_text(res) == text::opt_text(*p),
{
    match p {
        Some(s) => Some(s.clone()),
        None => None,
    }
}

/// What has been found so far.
struct Scan {
    temps: Table<String>,
    gpu_power: Option<String>,
    igpu_power: Option<String>,
    igpu_busy: Option<String>,
    igpu_vram_used: Option<String>,
    igpu_vram_total: Option<String>,
    hotspot: Option<String>,
    nvme: u64,
    dimm: u64,
}

impl Scan {
    spec fn to_view(&self) -> ScanView {
        ScanView {
            temps: table::table_texts(self.temps@),
            gpu_power: text::opt_text(self.gpu_power),
            igpu_power: text::opt_text(self.igpu_power),
            igpu_busy: text::opt_text(self.igpu_busy),
            igpu_vram_used: text::opt_text(self.igpu_vram_used),
            igpu_vram_total: text::opt_text(self.igpu_vram_total),
            hotspot: text::opt_text(self.hotspot),
            nvme: self.nvme as nat,
            dimm: self.dimm as nat,
        }
    }

    fn maybe_insert(&mut self, id: &str, path: &Option<String>)
        requires
            old(self).temps.wf(),
        ensures
            final(self).temps.wf(),
            final(self).to_view() == (ScanView {
                temps: with_path(old(self).to_view().temps, id@, text::opt_text(*path)),
                ..old(self).to_view()
            }),
    {
        let ghost before = self.temps@;
        if let Some(p) = path {
            let value = p.clone();
            self.temps.insert(id, value);
            assert(table::table_texts(self.temps@) =~= table::table_texts(before).insert(id@, p@));
        }
        assert(self.to_view() =~= ScanView {
            temps: with_path(old(self).to_view().temps, id@, text::opt_text(*path)),
            ..old(self).to_view()
        });
    }

    fn look_at(&mut self, e: &HwmonEntry)
        requires
            old(self).temps.wf(),
            old(self).nvme < u64::MAX,
            old(self).dimm < u64::MAX,
        ensures
            final(self).temps.wf(),
            final(self).to_view() == scan_step(old(self).to_view(), e@),
            final(self).nvme <= old(self).nvme + 1,
            final(self).dimm <= old(self).dimm + 1,
    {
        let ghost start = self.to_view();
        let name = trimmed_text(e.name.as_str());
        if same_text(name.as_str(), "k10temp") {
            self.maybe_insert("cpu_temp", &e.temp1);
        } else if same_text(name.as_str(), "amdgpu") {
            self.maybe_insert("igpu_temp", &e.temp1);
            self.igpu_power = copy_path(&e.power1);
            if let Some(d) = &e.device {
                if d.busy.is_some() {
                    self.igpu_busy = copy_path(&d.busy);
                }
                if d.vram_used.is_some() && d.vram_total.is_some() {
                    self.igpu_vram_used = copy_path(&d.vram_used);
                    self.igpu_vram_total = copy_path(&d.vram_total);
                }
            }
        } else if same_text(name.as_str(), "nvidia") {
            self.maybe_insert("gpu_temp", &e.temp1);
            self.hotspot = copy_path(&e.temp2);
            if e.power1.is_some() {
                self.gpu_power = copy_path(&e.power1);
            }
        } else if same_text(name.as_str(), "nvme") {
            if e.temp1.is_some() {
                let id = make_numbered_id("nvme", self.nvme);
                self.maybe_insert(id.as_str(), &e.temp1);
                self.nvme = self.nvme + 1;
            }
        } else if same_text(name.as_str(), "spd5118") {
            if e.temp1.is_some() {
                let id = make_numbered_id("dimm", self.dimm);
                self.maybe_insert(id.as_str(), &e.temp1);
                self.dimm = self.dimm + 1;
            }
        }
        assert(self.to_view() =~= scan_step(start, e@));
    }
}

fn make_numbered_id(kind: &str, n: u64) -> (res: String)
    ensures
        res@ == numbered_id(kind@, n as nat),
{
    let mut res = kind.to_string();
    let digits = number_text(n);
    res.append(digits.as_str());
    res.append("_temp");
    res
}

fn find_socket_label(labels: &Vec<String>) -> (res: Option<u64>)
    ensures
        match res {
            Some(i) => socket_label(text::texts(labels@), 0) == Some(i as int),
            None => socket_label(text::texts(labels@), 0) is None,
        },
{
    let ghost all = text::texts(labels@);
    let mut i: usize = 0;
    while i < 16 && i < labels.len()
        invariant
            i <= 16,
            i <= labels@.len(),
            all == text::texts(labels@),
            socket_label(all, 0) == socket_label(all, i as int),
        decreases 16 - i,
    {
        assert(all[i as int] == labels@[i as int]@);
        let label = trimmed_text(labels[i].as_str());
        if same_text(label.as_str(), "Esocket0") {
            return Some(i as u64 + 1);
        }
        i = i + 1;
    }
    None
}

/// The file of the socket energy counter.
pub fn find_zenergy_socket(entries: &[HwmonEntry]) -> (res: Option<String>)
    ensures
        text::opt_text(res) == socket_energy(hwmon_views(entries@)),
{
    let ghost all = hwmon_views(entries@);
    let mut i: usize = 0;
    assert(all.skip(0) =~= all);
    while i < entries.len()
        invariant
            i <= entries@.len(),
            all == hwmon_views(entries@),
            socket_energy(all) == socket_energy(all.skip(i as int)),
        decreases entries@.len() - i,
    {
        let e = &entries[i];
        assert(all.skip(i as int)[0] == e@);
        assert(all.skip(i as int).skip(1) =~= all.skip(i + 1));
        let name = trimmed_text(e.name.as_str());
        if same_text(name.as_str(), "zenergy") {
            if let Some(n) = find_socket_label(&e.energy_labels) {
                let mut file = "energy".to_string();
                let digits = number_text(n);
                file.append(digits.as_str());
                file.append("_input");
                return Some(join_path(e.path.as_str(), file.as_str()));
            }
        }
        i = i + 1;
    }
    None
}

fn scan_in_order(entries: &[HwmonEntry], order: &Vec<usize>) -> (res: Scan)
    requires
        order::is_stable_order(order@, hwmon_keys(hwmon_views(entries@))),
    ensures
        res.temps.wf(),
        res.to_view() == scanned(
            arranged(hwmon_views(entries@), order@),
            entries@.len() as int,
        ),
{
    let ghost all = hwmon_views(entries@);
    let ghost sorted = arranged(all, order@);
    let mut scan = Scan {
        temps: Table::new(),
        gpu_power: None,
        igpu_power: None,
        igpu_busy: None,
        igpu_vram_used: None,
        igpu_vram_total: None,
        hotspot: None,
        nvme: 0,
        dimm: 0,
    };
    assert(scan.to_view() =~= scanned(sorted, 0));
    let mut i: usize = 0;
    while i < order.len()
        invariant
            i <= order@.len(),
            order@.len() == entries@.len(),
            all == hwmon_views(entries@),
            sorted == arranged(all, order@),
            order::is_stable_order(order@, hwmon_keys(all)),
            scan.temps.wf(),
            scan.nvme <= i,
            scan.dimm <= i,
            scan.to_view() == scanned(sorted, i as int),
        decreases order@.len() - i,
    {
        assert(order@[i as int] < hwmon_keys(all).len());
        assert(sorted[i as int] == entries@[order@[i as int] as int]@);
        assert(order.len() <= usize::MAX);
        scan.look_at(&entries[order[i]]);
        i = i + 1;
    }
    scan
}

fn hwmon_order(entries: &[HwmonEntry]) -> (res: Vec<usize>)
    ensures
        order::is_stable_order(res@, hwmon_keys(hwmon_views(entries@))),
{
    let ghost all = hwmon_views(entries@);
    let mut keys: Vec<Vec<i64>> = Vec::new();
    let mut i: usize = 0;
    while i < entries.len()
        invariant
            i <= entries@.len(),
            all == hwmon_views(entries@),
            keys@.len() == i,
            forall|k: int| 0 <= k < i ==> (#[trigger] keys@[k])@ == hwmon_keys(all)[k],
        decreases entries@.len() - i,
    {
        let name = chars_of(entries[i].file_name.as_str());
        keys.push(key_of_text(name.as_slice()));
        i = i + 1;
    }
    assert(order::key_seqs(keys@) =~= hwmon_keys(all));
    stable_order(&keys)
}

impl SensorReader {
    /// Chooses the files to read.
    pub fn new(entries: &[HwmonEntry], nvml: bool) -> (res: SensorReader)
        ensures
            is_reader_for(res@, hwmon_views(entries@), nvml),
            res.wf(),
    {
        let ghost all = hwmon_views(entries@);
        let order = hwmon_order(entries);
        let scan = scan_in_order(entries, &order);
        let ghost found = scan.to_view();
        let zenergy = find_zenergy_socket(entries);
        let Scan {
            temps,
            gpu_power,
            igpu_power,
            igpu_busy,
            igpu_vram_used,
            igpu_vram_total,
            hotspot,
            nvme: _,
            dimm: _,
        } = scan;
        let mut temp_paths = temps;
        let ghost before = temp_paths@;
        if nvml {
            temp_paths.remove("gpu_temp");
            assert(table::table_texts(temp_paths@) =~= table::table_texts(before).remove(
                "gpu_temp"@,
            ));
        } else {
            let copied = match temp_paths.get("igpu_temp") {
                Some(p) => Some(p.clone()),
                None => None,
            };
            if let Some(p) = copied {
                let ghost path = p@;
                temp_paths.insert("gpu_temp", p);
                assert(table::table_texts(temp_paths@) =~= table::table_texts(before).insert(
                    "gpu_temp"@,
                    path,
                ));
            }
        }
        let zenergy_path = match zenergy {
            Some(p) => p,
            None => "/sys/class/hwmon/hwmon8/energy9_input".to_string(),
        };
        let res = SensorReader {
            prev_idle: 0,
            prev_total: 1,
            prev_energy: 0,
            temp_paths,
            gpu_power_path: if nvml {
                gpu_power
            } else {
                copy_path(&igpu_power)
            },
            gpu_busy_path: if nvml {
                None
            } else {
                copy_path(&igpu_busy)
            },
            vram_used_path: if nvml {
                None
            } else {
                copy_path(&igpu_vram_used)
            },
            vram_total_path: if nvml {
                None
            } else {
                copy_path(&igpu_vram_total)
            },
            igpu_power_path: igpu_power,
            igpu_busy_path: igpu_busy,
            igpu_vram_used_path: igpu_vram_used,
            igpu_vram_total_path: igpu_vram_total,
            zenergy_path,
            nvidia_hotspot_path: hotspot,
        };
        proof {
            let want = planned(found, socket_energy(all), nvml);
            assert(res@ =~= want);
            assert(order::is_stable_order(order@, hwmon_keys(all)));
        }
        res
    }

    /// No sensor has two temperature files.
    pub closed spec fn wf(&self) -> bool {
        self.temp_paths.wf()
    }

    /// Sets the counters that the first reading is compared with.
    pub fn prime(&mut self, stat: Option<(u64, u64)>, energy: Option<u64>)
        requires
            old(self).wf(),
        ensures
            final(self).wf(),
            final(self)@ == (ReaderView {
                prev_idle: match stat {
                    Some((idle, _)) => idle,
                    None => 0,
                },
                prev_total: match stat {
                    Some((_, total)) => total,
                    None => 1,
                },
                prev_energy: match energy {
                    Some(e) => e,
                    None => 0,
                },
                ..old(self)@
            }),
    {
        match stat {
            Some((idle, total)) => {
                self.prev_idle = idle;
                self.prev_total = total;
            },
            None => {
                self.prev_idle = 0;
                self.prev_total = 1;
            },
        }
        self.prev_energy = match energy {
            Some(e) => e,
            None => 0,
        };
    }

    /// The file of the socket energy counter.
    pub fn energy_file(&self) -> (res: &str)
        ensures
            res@ == self@.zenergy,
    {
        self.zenergy_path.as_str()
    }
}

// ── Reading ──────────────────────────────────────────────────────────────────

/// What the NVIDIA library reports of the first graphics processor.
#[derive(Clone, Copy, Debug)]
pub struct NvmlValues {
    pub temperature: Option<u32>,
    /// The first thermal sensor, if there is one.
    pub hotspot: Option<i32>,
    pub utilization: Option<u32>,
    pub memory_used: Option<u64>,
    pub memory_total: Option<u64>,
    pub power_mw: Option<u32>,
}

/// What was observed for one reading: the contents of the files that could be
/// read, by path, and everything that is not in those files.
#[derive(Debug)]
pub struct Observation {
    pub files: Table<String>,
    pub stat: Option<(u64, u64)>,
    pub frequency_total: u64,
    pub frequency_count: u32,
    pub elapsed_ns: u64,
    pub nvml: Option<NvmlValues>,
    pub meminfo: Option<String>,
}

/// The number in the file at `path`.
pub open spec fn number_at(files: Map<Seq<char>, Seq<char>>, path: Seq<char>) -> Option<nat> {
    if files.contains_key(path) {
        number_in(files[path])
    } else {
        None
    }
}

/// The number in the file at an optional path.
pub open spec fn number_at_path(
    files: Map<Seq<char>, Seq<char>>,
    path: Option<Seq<char>>,
) -> Option<nat> {
    match path {
        Some(p) => number_at(files, p),
        None => None,
    }
}

/// `m` with `value` under `id`, if there is one.
pub open spec fn with_reading(
    m: Map<Seq<char>, Reading>,
    id: Seq<char>,
    value: Option<Reading>,
) -> Map<Seq<char>, Reading> {
    match value {
        Some(v) => m.insert(id, v),
        None => m,
    }
}

/// A temperature in whole degrees.
pub open spec fn degrees(n: Option<nat>) -> Option<Reading> {
    match n {
        Some(v) => Some(Reading::Degrees(whole_degrees(v) as i32)),
        None => None,
    }
}

pub open spec fn count(n: Option<nat>) -> Option<Reading> {
    match n {
        Some(v) => Some(Reading::Count(v as u64)),
        None => None,
    }
}

pub open spec fn micro(n: Option<nat>) -> Option<Reading> {
    match n {
        Some(v) => Some(Reading::Micro(v as u64)),
        None => None,
    }
}

/// A share of a whole that is not zero.
pub open spec fn share(part: Option<nat>, whole: Option<nat>) -> Option<Reading> {
    match (part, whole) {
        (Some(p), Some(w)) => if w > 0 {
            Some(Reading::Share { part: p as u64, whole: w as u64 })
        } else {
            None
        },
        _ => None,
    }
}

/// The temperatures that could be read.
pub open spec fn temperatures(
    temps: Map<Seq<char>, Seq<char>>,
    files: Map<Seq<char>, Seq<char>>,
) -> Map<Seq<char>, Reading> {
    Map::new(
        |id: Seq<char>| temps.contains_key(id) && number_at(files, temps[id]) is Some,
        |id: Seq<char>| Reading::Degrees(whole_degrees(number_at(files, temps[id])->0) as i32),
    )
}

/// The energy used since the last reading. The counter may wrap around.
pub open spec fn energy_delta(now: u64, before: u64) -> int {
    (now - before) % 0x1_0000_0000_0000_0000
}

/// Processor values: frequency, utilization, and power if enough time passed.
pub open spec fn with_processor(
    m: Map<Seq<char>, Reading>,
    r: ReaderView,
    o: Observation,
) -> Map<Seq<char>, Reading> {
    let files = table::table_texts(o.files@);
    let (idle, total) = match o.stat {
        Some(s) => s,
        None => (r.prev_idle, r.prev_total),
    };
    let energy = match number_at(files, r.zenergy) {
        Some(n) => n as u64,
        None => r.prev_energy,
    };
    let a = m.insert(
        "cpu_freq"@,
        Reading::Frequency { total: o.frequency_total, count: o.frequency_count },
    ).insert(
        "cpu_util"@,
        Reading::Count(
            utilization(idle as int, total as int, r.prev_idle as int, r.prev_total as int) as u64,
        ),
    );
    if o.elapsed_ns > 50_000_000 {
        a.insert(
            "cpu_power"@,
            Reading::Power {
                energy: energy_delta(energy, r.prev_energy) as u64,
                elapsed_ns: o.elapsed_ns,
            },
        )
    } else {
        a
    }
}

/// Values of the integrated graphics processor.
pub open spec fn with_igpu(
    m: Map<Seq<char>, Reading>,
    r: ReaderView,
    files: Map<Seq<char>, Seq<char>>,
) -> Map<Seq<char>, Reading> {
    let a = with_reading(m, "igpu_util"@, count(number_at_path(files, r.igpu_busy)));
    let b = with_reading(a, "igpu_power"@, micro(number_at_path(files, r.igpu_power)));
    with_reading(
        b,
        "igpu_vram_pct"@,
        share(number_at_path(files, r.igpu_vram_used), number_at_path(files, r.igpu_vram_total)),
    )
}

/// Values that the NVIDIA library reports.
pub open spec fn with_nvml(m: Map<Seq<char>, Reading>, v: Option<NvmlValues>) -> Map<
    Seq<char>,
    Reading,
> {
    match v {
        Some(n) => {
            let a = with_reading(
                m,
                "gpu_temp"@,
                match n.temperature {
                    Some(t) => Some(Reading::Count(t as u64)),
                    None => None,
                },
            );
            let b = with_reading(
                a,
                "gpu_hotspot_temp"@,
                match n.hotspot {
                    Some(t) => if t > 0 {
                        Some(Reading::Degrees(t))
                    } else {
                        None
                    },
                    None => None,
                },
            );
            let c = with_reading(
                b,
                "gpu_util"@,
                match n.utilization {
                    Some(u) => Some(Reading::Count(u as u64)),
                    None => None,
                },
            );
            let d = with_reading(
                c,
                "gpu_vram_pct"@,
                match (n.memory_used, n.memory_total) {
                    (Some(p), Some(w)) => if w > 0 {
                        Some(Reading::Share { part: p, whole: w })
                    } else {
                        None
                    },
                    _ => None,
                },
            );
            with_reading(
                d,
                "gpu_power"@,
                match n.power_mw {
                    Some(p) => Some(Reading::Milli(p)),
                    None => None,
                },
            )
        },
        None => m,
    }
}

/// Values of the primary graphics processor that are in files.
pub open spec fn with_gpu_files(
    m: Map<Seq<char>, Reading>,
    r: ReaderView,
    files: Map<Seq<char>, Seq<char>>,
) -> Map<Seq<char>, Reading> {
    let a = with_reading(m, "gpu_hotspot_temp"@, degrees(number_at_path(files, r.hotspot)));
    let b = with_reading(a, "gpu_util"@, count(number_at_path(files, r.gpu_busy)));
    let c = with_reading(b, "gpu_power"@, micro(number_at_path(files, r.gpu_power)));
    with_reading(
        c,
        "gpu_vram_pct"@,
        share(number_at_path(files, r.vram_used), number_at_path(files, r.vram_total)),
    )
}

/// All readings. What comes later replaces what came before under the same id.
pub open spec fn all_readings(r: ReaderView, o: Observation) -> Map<Seq<char>, Reading> {
    let files = table::table_texts(o.files@);
    let a = with_processor(temperatures(r.temps, files), r, o);
    let b = with_igpu(a, r, files);
    let c = with_nvml(b, o.nvml);
    let d = with_gpu_files(c, r, files);
    with_reading(
        d,
        "ram_used_pct"@,
        match o.meminfo {
            Some(s) => memory_share(s@),
            None => None,
        },
    )
}

/// The counters after a reading.
pub open spec fn after_reading(r: ReaderView, o: Observation) -> ReaderView {
    let files = table::table_texts(o.files@);
    ReaderView {
        prev_idle: match o.stat {
            Some(s) => s.0,
            None => r.prev_idle,
        },
        prev_total: match o.stat {
            Some(s) => s.1,
            None => r.prev_total,
        },
        prev_energy: match number_at(files, r.zenergy) {
            Some(n) => n as u64,
            None => r.prev_energy,
        },
        ..r
    }
}

/// Frequency and utilization of the processor are always among the readings.
pub proof fn law_processor_is_always_read(r: ReaderView, o: Observation)
    ensures
        all_readings(r, o).contains_key("cpu_freq"@),
        all_readings(r, o).contains_key("cpu_util"@),
{
    lemma_keeps_reading(r, o, "cpu_freq"@);
    lemma_keeps_reading(r, o, "cpu_util"@);
}

/// What is read of the processor is not taken away afterwards.
proof fn lemma_keeps_reading(r: ReaderView, o: Observation, key: Seq<char>)
    requires
        with_processor(
            temperatures(r.temps, table::table_texts(o.files@)),
            r,
            o,
        ).contains_key(key),
    ensures
        all_readings(r, o).contains_key(key),
{
    let files = table::table_texts(o.files@);
    let a = with_processor(temperatures(r.temps, files), r, o);
    let b = with_igpu(a, r, files);
    let c = with_nvml(b, o.nvml);
    lemma_igpu_keeps(a, r, files, key);
    lemma_nvml_keeps(b, o.nvml, key);
    lemma_gpu_files_keep(c, r, files, key);
}

proof fn lemma_igpu_keeps(
    m: Map<Seq<char>, Reading>,
    r: ReaderView,
    files: Map<Seq<char>, Seq<char>>,
    key: Seq<char>,
)
    requires
        m.contains_key(key),
    ensures
        with_igpu(m, r, files).contains_key(key),
{
}

proof fn lemma_nvml_keeps(m: Map<Seq<char>, Reading>, v: Option<NvmlValues>, key: Seq<char>)
    requires
        m.contains_key(key),
    ensures
        with_nvml(m, v).contains_key(key),
{
}

proof fn lemma_gpu_files_keep(
    m: Map<Seq<char>, Reading>,
    r: ReaderView,
    files: Map<Seq<char>, Seq<char>>,
    key: Seq<char>,
)
    requires
        m.contains_key(key),
    ensures
        with_gpu_files(m, r, files).contains_key(key),
{
}

proof fn lemma_gpu_ids_differ()
    ensures
        ({
            let ids = seq![
                "igpu_util"@,
                "igpu_power"@,
                "igpu_vram_pct"@,
                "gpu_util"@,
                "gpu_power"@,
                "gpu_vram_pct"@,
                "gpu_hotspot_temp"@,
                "ram_used_pct"@,
            ];
            forall|i: int, j: int| 0 <= i < j < 8 ==> #[trigger] ids[i] != #[trigger] ids[j]
        }),
{
    reveal_strlit("igpu_util");
    reveal_strlit("igpu_power");
    reveal_strlit("igpu_vram_pct");
    reveal_strlit("gpu_util");
    reveal_strlit("gpu_power");
    reveal_strlit("gpu_vram_pct");
    reveal_strlit("gpu_hotspot_temp");
    reveal_strlit("ram_used_pct");
    assert("igpu_util"@[0] != "gpu_power"@[0]);
    assert("gpu_vram_pct"@[0] != "ram_used_pct"@[0]);
    assert("igpu_util"@.len() == 9 && "igpu_power"@.len() == 10 && "igpu_vram_pct"@.len() == 13
        && "gpu_util"@.len() == 8 && "gpu_power"@.len() == 9 && "gpu_vram_pct"@.len() == 12
        && "gpu_hotspot_temp"@.len() == 16 && "ram_used_pct"@.len() == 12);
}

/// Where the integrated graphics processor has taken the place of the primary
/// one, both have the same values.
pub proof fn law_integrated_gpu_is_mirrored(r: ReaderView, o: Observation)
    requires
        r.gpu_busy == r.igpu_busy,
        r.gpu_power == r.igpu_power,
        r.vram_used == r.igpu_vram_used,
        r.vram_total == r.igpu_vram_total,
        o.nvml is None,
    ensures
        ({
            let files = table::table_texts(o.files@);
            let all = all_readings(r, o);
            &&& number_at_path(files, r.igpu_busy) is Some ==> all["gpu_util"@] == all["igpu_util"@]
            &&& number_at_path(files, r.igpu_power) is Some ==> all["gpu_power"@]
                == all["igpu_power"@]
            &&& share(
                number_at_path(files, r.igpu_vram_used),
                number_at_path(files, r.igpu_vram_total),
            ) is Some ==> all["gpu_vram_pct"@] == all["igpu_vram_pct"@]
        }),
{
    lemma_gpu_ids_differ();
    let ids = seq![
        "igpu_util"@,
        "igpu_power"@,
        "igpu_vram_pct"@,
        "gpu_util"@,
        "gpu_power"@,
        "gpu_vram_pct"@,
        "gpu_hotspot_temp"@,
        "ram_used_pct"@,
    ];
    assert(ids[0] != ids[1] && ids[0] != ids[2] && ids[0] != ids[3] && ids[0] != ids[4] && ids[0]
        != ids[5] && ids[0] != ids[6] && ids[0] != ids[7]);
    assert(ids[1] != ids[2] && ids[1] != ids[3] && ids[1] != ids[4] && ids[1] != ids[5] && ids[1]
        != ids[6] && ids[1] != ids[7]);
    assert(ids[2] != ids[3] && ids[2] != ids[4] && ids[2] != ids[5] && ids[2] != ids[6] && ids[2]
        != ids[7]);
    assert(ids[3] != ids[4] && ids[3] != ids[5] && ids[3] != ids[6] && ids[3] != ids[7]);
    assert(ids[4] != ids[5] && ids[4] != ids[6] && ids[4] != ids[7]);
    assert(ids[5] != ids[6] && ids[5] != ids[7]);
}

fn number_of(files: &Table<String>, path: &str) -> (res: Option<u64>)
    ensures
        match res {
            Some(n) => number_at(table::table_texts(files@), path@) == Some(n as nat),
            None => number_at(table::table_texts(files@), path@) is None,
        },
{
    match files.get(path) {
        Some(content) => read_u64(content.as_str()),
        None => None,
    }
}

fn number_of_path(files: &Table<String>, path: &Option<String>) -> (res: Option<u64>)
    ensures
        match res {
            Some(n) => number_at_path(table::table_texts(files@), text::opt_text(*path)) == Some(
                n as nat,
            ),
            None => number_at_path(table::table_texts(files@), text::opt_text(*path)) is None,
        },
{
    match path {
        Some(p) => number_of(files, p.as_str()),
        None => None,
    }
}

fn put(out: &mut Table<Reading>, id: &str, value: Option<Reading>)
    requires
        old(out).wf(),
    ensures
        final(out).wf(),
        final(out)@ == with_reading(old(out)@, id@, value),
{
    if let Some(v) = value {
        out.insert(id, v);
    }
}

fn degrees_of(n: Option<u64>) -> (res: Option<Reading>)
    ensures
        res == degrees(
            match n {
                Some(v) => Some(v as nat),
                None => None,
            },
        ),
{
    match n {
        Some(v) => Some(Reading::Degrees(read_millidegree(v))),
        None => None,
    }
}

fn count_of(n: Option<u64>) -> (res: Option<Reading>)
    ensures
        res == count(
            match n {
                Some(v) => Some(v as nat),
                None => None,
            },
        ),
{
    match n {
        Some(v) => Some(Reading::Count(v)),
        None => None,
    }
}

fn micro_of(n: Option<u64>) -> (res: Option<Reading>)
    ensures
        res == micro(
            match n {
                Some(v) => Some(v as nat),
                None => None,
            },
        ),
{
    match n {
        Some(v) => Some(Reading::Micro(v)),
        None => None,
    }
}

fn share_of(part: Option<u64>, whole: Option<u64>) -> (res: Option<Reading>)
    ensures
        res == share(
            match part {
                Some(v) => Some(v as nat),
                None => None,
            },
            match whole {
                Some(v) => Some(v as nat),
                None => None,
            },
        ),
{
    match (part, whole) {
        (Some(p), Some(w)) => if w > 0 {
            Some(Reading::Share { part: p, whole: w })
        } else {
            None
        },
        _ => None,
    }
}

fn read_nvml(out: &mut Table<Reading>, values: &Option<NvmlValues>)
    requires
        old(out).wf(),
    ensures
        final(out).wf(),
        final(out)@ == with_nvml(old(out)@, *values),
{
    if let Some(n) = values {
        if let Some(t) = n.temperature {
            out.insert("gpu_temp", Reading::Count(t as u64));
        }
        if let Some(t) = n.hotspot {
            if t > 0 {
                out.insert("gpu_hotspot_temp", Reading::Degrees(t));
            }
        }
        if let Some(u) = n.utilization {
            out.insert("gpu_util", Reading::Count(u as u64));
        }
        if let (Some(p), Some(w)) = (n.memory_used, n.memory_total) {
            if w > 0 {
                out.insert("gpu_vram_pct", Reading::Share { part: p, whole: w });
            }
        }
        if let Some(p) = n.power_mw {
            out.insert("gpu_power", Reading::Milli(p));
        }
    }
}

proof fn lemma_entry_text(t: Table<String>, i: int)
    requires
        t.wf(),
        0 <= i < t.entries@.len(),
    ensures
        table::table_texts(t@).contains_key(t.entries@[i].0@),
        table::table_texts(t@)[t.entries@[i].0@] == t.entries@[i].1@,
{
    table::law_table_entries(t, i);
}

/// The temperatures of the first `n` entries.
spec fn temperatures_upto(
    t: Table<String>,
    files: Map<Seq<char>, Seq<char>>,
    n: int,
) -> Map<Seq<char>, Reading>
    decreases n,
{
    if n <= 0 {
        Map::empty()
    } else {
        with_reading(
            temperatures_upto(t, files, n - 1),
            t.entries@[n - 1].0@,
            degrees(number_at(files, t.entries@[n - 1].1@)),
        )
    }
}

proof fn lemma_temperatures_upto(
    t: Table<String>,
    files: Map<Seq<char>, Seq<char>>,
    n: int,
    id: Seq<char>,
)
    requires
        t.wf(),
        0 <= n <= t.entries@.len(),
    ensures
        temperatures_upto(t, files, n).contains_key(id) == (exists|i: int|
            0 <= i < n && (#[trigger] t.entries@[i]).0@ == id && number_at(files, t.entries@[i].1@) is Some),
        temperatures_upto(t, files, n).contains_key(id) ==> temperatures_upto(t, files, n)[id]
            == temperatures(table::table_texts(t@), files)[id],
    decreases n,
{
    if n > 0 {
        lemma_temperatures_upto(t, files, n - 1, id);
        let e = t.entries@[n - 1];
        lemma_entry_text(t, n - 1);
        if e.0@ == id && number_at(files, e.1@) is Some {
            assert(temperatures_upto(t, files, n).contains_key(id));
            assert(temperatures(table::table_texts(t@), files).contains_key(id));
        }
        if temperatures_upto(t, files, n - 1).contains_key(id) {
            let i = choose|i: int|
                0 <= i < n - 1 && (#[trigger] t.entries@[i]).0@ == id && number_at(
                    files,
                    t.entries@[i].1@,
                ) is Some;
            assert(t.entries@[i].0@ == id);
        }
    }
}

proof fn lemma_temperatures(t: Table<String>, files: Map<Seq<char>, Seq<char>>)
    requires
        t.wf(),
    ensures
        temperatures_upto(t, files, t.entries@.len() as int) == temperatures(
            table::table_texts(t@),
            files,
        ),
{
    let n = t.entries@.len() as int;
    let a = temperatures_upto(t, files, n);
    let b = temperatures(table::table_texts(t@), files);
    assert forall|id: Seq<char>| #[trigger] a.dom().contains(id) == b.dom().contains(id) && (
    a.dom().contains(id) ==> a[id] == b[id]) by {
        lemma_temperatures_upto(t, files, n, id);
        if a.contains_key(id) {
            let i = choose|i: int|
                0 <= i < n && (#[trigger] t.entries@[i]).0@ == id && number_at(
                    files,
                    t.entries@[i].1@,
                ) is Some;
            lemma_entry_text(t, i);
        }
        if b.contains_key(id) {
            table::law_table_keys(t, id);
            let i = choose|i: int| 0 <= i < n && (#[trigger] t.entries@[i]).0@ == id;
            lemma_entry_text(t, i);
        }
    }
    assert(a.dom() =~= b.dom());
    assert(a =~= b);
}

impl SensorReader {
    fn read_temperatures(&self, files: &Table<String>) -> (res: Table<Reading>)
        requires
            self.wf(),
        ensures
            res.wf(),
            res@ == temperatures(self@.temps, table::table_texts(files@)),
    {
        let ghost contents = table::table_texts(files@);
        let mut out: Table<Reading> = Table::new();
        let mut i: usize = 0;
        while i < self.temp_paths.entries.len()
            invariant
                i <= self.temp_paths.entries@.len(),
                contents == table::table_texts(files@),
                out.wf(),
                out@ == temperatures_upto(self.temp_paths, contents, i as int),
            decreases self.temp_paths.entries@.len() - i,
        {
            let n = number_of(files, self.temp_paths.entries[i].1.as_str());
            put(&mut out, self.temp_paths.entries[i].0.as_str(), degrees_of(n));
            i = i + 1;
        }
        proof {
            lemma_temperatures(self.temp_paths, contents);
        }
        out
    }

    fn read_processor(&mut self, out: &mut Table<Reading>, o: &Observation)
        requires
            old(self).wf(),
            old(out).wf(),
        ensures
            final(self).wf(),
            final(out).wf(),
            final(self)@ == after_reading(old(self)@, *o),
            final(out)@ == with_processor(old(out)@, old(self)@, *o),
    {
        let ghost r = self@;
        let (idle, total) = match o.stat {
            Some(s) => s,
            None => (self.prev_idle, self.prev_total),
        };
        out.insert(
            "cpu_freq",
            Reading::Frequency { total: o.frequency_total, count: o.frequency_count },
        );
        let util = cpu_utilization(idle, total, self.prev_idle, self.prev_total);
        out.insert("cpu_util", Reading::Count(util));
        self.prev_idle = idle;
        self.prev_total = total;

        let energy = match number_of(&o.files, self.zenergy_path.as_str()) {
            Some(n) => n,
            None => self.prev_energy,
        };
        if o.elapsed_ns > 50_000_000 {
            let delta = difference(energy, self.prev_energy);
            out.insert("cpu_power", Reading::Power { energy: delta, elapsed_ns: o.elapsed_ns });
        }
        self.prev_energy = energy;
        assert(self@ =~= after_reading(r, *o));
    }

    fn read_igpu(&self, out: &mut Table<Reading>, files: &Table<String>)
        requires
            old(out).wf(),
        ensures
            final(out).wf(),
            final(out)@ == with_igpu(old(out)@, self@, table::table_texts(files@)),
    {
        put(out, "igpu_util", count_of(number_of_path(files, &self.igpu_busy_path)));
        put(out, "igpu_power", micro_of(number_of_path(files, &self.igpu_power_path)));
        let used = number_of_path(files, &self.igpu_vram_used_path);
        let whole = number_of_path(files, &self.igpu_vram_total_path);
        put(out, "igpu_vram_pct", share_of(used, whole));
    }

    fn read_gpu_files(&self, out: &mut Table<Reading>, files: &Table<String>)
        requires
            old(out).wf(),
        ensures
            final(out).wf(),
            final(out)@ == with_gpu_files(old(out)@, self@, table::table_texts(files@)),
    {
        put(out, "gpu_hotspot_temp", degrees_of(number_of_path(files, &self.nvidia_hotspot_path)));
        put(out, "gpu_util", count_of(number_of_path(files, &self.gpu_busy_path)));
        put(out, "gpu_power", micro_of(number_of_path(files, &self.gpu_power_path)));
        let used = number_of_path(files, &self.vram_used_path);
        let whole = number_of_path(files, &self.vram_total_path);
        put(out, "gpu_vram_pct", share_of(used, whole));
    }

    /// Turns an observation into readings.
    pub fn read(&mut self, o: &Observation) -> (res: SensorValues)
        requires
            old(self).wf(),
        ensures
            final(self).wf(),
            final(self)@ == after_reading(old(self)@, *o),
            res.readings.wf(),
            res.readings@ == all_readings(old(self)@, *o),
    {
        let mut out = self.read_temperatures(&o.files);
        self.read_processor(&mut out, o);
        self.read_igpu(&mut out, &o.files);
        read_nvml(&mut out, &o.nvml);
        self.read_gpu_files(&mut out, &o.files);
        if let Some(s) = &o.meminfo {
            put(&mut out, "ram_used_pct", parse_ram_used_pct(s.as_str()));
        }
        SensorValues { readings: out }
    }

    /// The files to read for the next reading.
    pub fn wanted_files(&self) -> (res: Vec<String>)
        requires
            self.wf(),
        ensures
            forall|p: Seq<char>| #[trigger] text::texts(res@).contains(p) == is_wanted(self@, p),
    {
        let mut res: Vec<String> = Vec::new();
        let mut i: usize = 0;
        while i < self.temp_paths.entries.len()
            invariant
                i <= self.temp_paths.entries@.len(),
                forall|p: Seq<char>| #[trigger]
                    text::texts(res@).contains(p) == entry_has(self.temp_paths, i as int, p),
            decreases self.temp_paths.entries@.len() - i,
        {
            let ghost before = res@;
            let path = self.temp_paths.entries[i].1.clone();
            let ghost new = path@;
            res.push(path);
            proof {
                assert(res@.drop_last() =~= before);
                lemma_texts_push(before, res@, new);
                assert forall|p: Seq<char>| #[trigger]
                    text::texts(res@).contains(p) == entry_has(self.temp_paths, i + 1, p) by {
                    if text::texts(before).contains(p) {
                        let k = choose|k: int|
                            0 <= k < i && (#[trigger] self.temp_paths.entries@[k]).1@ == p;
                        assert(self.temp_paths.entries@[k].1@ == p);
                    }
                    if p == new {
                        assert(self.temp_paths.entries@[i as int].1@ == p);
                    }
                }
            }
            i = i + 1;
        }
        let zenergy = Some(self.zenergy_path.clone());
        push_path(&mut res, &zenergy);
        push_path(&mut res, &self.igpu_busy_path);
        push_path(&mut res, &self.igpu_power_path);
        push_path(&mut res, &self.igpu_vram_used_path);
        push_path(&mut res, &self.igpu_vram_total_path);
        push_path(&mut res, &self.nvidia_hotspot_path);
        push_path(&mut res, &self.gpu_busy_path);
        push_path(&mut res, &self.gpu_power_path);
        push_path(&mut res, &self.vram_used_path);
        push_path(&mut res, &self.vram_total_path);
        proof {
            assert forall|p: Seq<char>| entry_has(
                self.temp_paths,
                self.temp_paths.entries@.len() as int,
                p,
            ) == is_temp_file(self@.temps, p) by {
                lemma_entry_has(self.temp_paths, p);
            }
        }
        res
    }
}

/// Whether `p` is a temperature file.
pub open spec fn is_temp_file(temps: Map<Seq<char>, Seq<char>>, p: Seq<char>) -> bool {
    exists|id: Seq<char>| #[trigger] temps.contains_key(id) && temps[id] == p
}

/// Whether a reader reads the file `p`.
pub open spec fn is_wanted(r: ReaderView, p: Seq<char>) -> bool {
    ||| is_temp_file(r.temps, p)
    ||| r.zenergy == p
    ||| r.igpu_busy == Some(p)
    ||| r.igpu_power == Some(p)
    ||| r.igpu_vram_used == Some(p)
    ||| r.igpu_vram_total == Some(p)
    ||| r.hotspot == Some(p)
    ||| r.gpu_busy == Some(p)
    ||| r.gpu_power == Some(p)
    ||| r.vram_used == Some(p)
    ||| r.vram_total == Some(p)
}

/// Whether one of the first `n` entries has the value `p`.
spec fn entry_has(t: Table<String>, n: int, p: Seq<char>) -> bool {
    exists|k: int| 0 <= k < n && (#[trigger] t.entries@[k]).1@ == p
}

proof fn lemma_entry_has(t: Table<String>, p: Seq<char>)
    requires
        t.wf(),
    ensures
        entry_has(t, t.entries@.len() as int, p) == is_temp_file(table::table_texts(t@), p),
{
    let temps = table::table_texts(t@);
    if entry_has(t, t.entries@.len() as int, p) {
        let k = choose|k: int| 0 <= k < t.entries@.len() && (#[trigger] t.entries@[k]).1@ == p;
        lemma_entry_text(t, k);
        assert(temps.contains_key(t.entries@[k].0@));
    }
    if is_temp_file(temps, p) {
        let id = choose|id: Seq<char>| #[trigger] temps.contains_key(id) && temps[id] == p;
        table::law_table_keys(t, id);
        let i = choose|i: int| 0 <= i < t.entries@.len() && (#[trigger] t.entries@[i]).0@ == id;
        lemma_entry_text(t, i);
        assert(t.entries@[i].1@ == p);
    }
}

proof fn lemma_texts_push(before: Seq<String>, after: Seq<String>, new: Seq<char>)
    requires
        after.len() == before.len() + 1,
        after.drop_last() == before,
        after.last()@ == new,
    ensures
        forall|p: Seq<char>| #[trigger]
            text::texts(after).contains(p) == (text::texts(before).contains(p) || p == new),
{
    let a = text::texts(before);
    let b = text::texts(after);
    assert(b =~= a.push(new));
    assert forall|p: Seq<char>| #[trigger] b.contains(p) == (a.contains(p) || p == new) by {
        if b.contains(p) {
            let i = choose|i: int| 0 <= i < b.len() && b[i] == p;
            if i < a.len() {
                assert(a[i] == p);
            }
        }
        if a.contains(p) {
            let i = choose|i: int| 0 <= i < a.len() && a[i] == p;
            assert(b[i] == p);
        }
        if p == new {
            assert(b[a.len() as int] == p);
        }
    }
}

fn push_path(out: &mut Vec<String>, path: &Option<String>)
    ensures
        forall|p: Seq<char>| #[trigger]
            text::texts(final(out)@).contains(p) == (text::texts(old(out)@).contains(p)
                || text::opt_text(*path) == Some(p)),
{
    if let Some(s) = path {
        let ghost before = out@;
        let c = s.clone();
        out.push(c);
        proof {
            assert(out@.drop_last() =~= before);
            lemma_texts_push(before, out@, s@);
        }
    }
}

/// The difference of two readings of a counter that may wrap around.
fn difference(now: u64, before: u64) -> (res: u64)
    ensures
        res == energy_delta(now, before),
{
    if now >= before {
        now - before
    } else {
        assert((now - before) % 0x1_0000_0000_0000_0000 == now - before + 0x1_0000_0000_0000_0000);
        u64::MAX - before + now + 1
    }
}

} // verus!
