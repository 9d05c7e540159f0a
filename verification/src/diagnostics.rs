//! The diagnostics report.

use crate::order;
use crate::order::{key_of_text, stable_order};
use crate::text;
use crate::text::{chars_of, number_text, push_chars, text_of};
use vstd::prelude::*;

verus! {

/// A reading as it is written in the report.
#[derive(Clone, Debug)]
pub struct ReportedValue {
    pub name: String,
    pub value: String,
}

/// What the report tells.
#[derive(Clone, Debug)]
pub struct Diagnostics {
    pub connected: bool,
    pub vid: String,
    pub pid: String,
    pub product: Option<String>,
    pub revision: Option<String>,
    pub control_hid: Option<String>,
    pub image_hid: Option<String>,
    pub manager: String,
    pub daemon_running: bool,
    pub autostart: bool,
    pub daemon_binary: String,
    pub config_path: String,
    pub profile: Option<String>,
    pub unsaved_changes: bool,
    pub coolant: Option<String>,
    pub pump_rpm: Option<u16>,
    pub readings: Vec<ReportedValue>,
    pub job: Option<String>,
    pub last_error: Option<String>,
}

/// `true` or `false`.
pub open spec fn bool_text(b: bool) -> Seq<char> {
    if b {
        "true"@
    } else {
        "false"@
    }
}

/// An optional text, or what stands for a missing one.
pub open spec fn text_or(s: Option<Seq<char>>, missing: Seq<char>) -> Seq<char> {
    match s {
        Some(t) => t,
        None => missing,
    }
}

/// One line of the report.
pub open spec fn line(key: Seq<char>, value: Seq<char>) -> Seq<char> {
    key + "="@ + value + "\n"@
}

/// A line that is left out if there is no value.
pub open spec fn opt_line(key: Seq<char>, value: Option<Seq<char>>) -> Seq<char> {
    match value {
        Some(v) => line(key, v),
        None => seq![],
    }
}

/// A text on one line.
pub open spec fn on_one_line(s: Seq<char>) -> Seq<char>
    decreases s.len(),
{
    if s.len() == 0 {
        seq![]
    } else {
        on_one_line(s.drop_last()) + if s.last() == '\n' {
            " | "@
        } else {
            seq![s.last()]
        }
    }
}

/// The lines of the readings at these positions.
pub open spec fn reading_lines(readings: Seq<ReportedValue>, order: Seq<usize>, n: int) -> Seq<char>
    decreases n,
{
    if n <= 0 {
        seq![]
    } else {
        let r = readings[order[n - 1] as int];
        reading_lines(readings, order, n - 1) + "  "@ + line(r.name@, r.value@)
    }
}

/// The sorting keys of readings: their names.
pub open spec fn reading_keys(readings: Seq<ReportedValue>) -> Seq<Seq<i64>> {
    Seq::new(readings.len(), |i: int| order::text_key(readings[i].name@))
}

impl Diagnostics {
    /// What stands before the readings.
    pub open spec fn head(self) -> Seq<char> {
        "TH420 Display diagnostics\n\n"@ + line("device.connected"@, bool_text(self.connected))
            + line("device.usb_id"@, self.vid@ + ":"@ + self.pid@) + line(
            "device.product"@,
            text_or(text::opt_text(self.product), "unknown"@),
        ) + line("device.revision"@, text_or(text::opt_text(self.revision), "unknown"@)) + line(
            "device.control_hid"@,
            text_or(text::opt_text(self.control_hid), "—"@),
        ) + line("device.image_hid"@, text_or(text::opt_text(self.image_hid), "—"@)) + line(
            "service.manager"@,
            self.manager@,
        ) + line("service.daemon_running"@, bool_text(self.daemon_running)) + line(
            "service.autostart"@,
            bool_text(self.autostart),
        ) + line("runtime.daemon_binary"@, self.daemon_binary@) + line(
            "runtime.config"@,
            self.config_path@,
        ) + line("runtime.profile"@, text_or(text::opt_text(self.profile), "none"@)) + line(
            "runtime.unsaved_changes"@,
            bool_text(self.unsaved_changes),
        ) + opt_line("device.coolant_c"@, text::opt_text(self.coolant)) + opt_line(
            "device.pump_rpm"@,
            match self.pump_rpm {
                Some(n) => Some(text::decimal(n as nat)),
                None => None,
            },
        ) + "\nsensors:\n"@
    }

    /// What stands after the readings.
    pub open spec fn tail(self) -> Seq<char> {
        opt_line("runtime.device_job"@, text::opt_text(self.job)) + opt_line(
            "runtime.last_error"@,
            match self.last_error {
                Some(e) => Some(on_one_line(e@)),
                None => None,
            },
        )
    }
}

/// Whether `report` is the report with its readings sorted by name.
pub open spec fn is_report(d: Diagnostics, report: Seq<char>) -> bool {
    exists|order: Seq<usize>|
        #[trigger] order::is_stable_order(order, reading_keys(d.readings@)) && report == d.head()
            + reading_lines(d.readings@, order, d.readings@.len() as int) + d.tail()
}

fn bool_name(b: bool) -> (res: &'static str)
    ensures
        res@ == bool_text(b),
{
    if b {
        "true"
    } else {
        "false"
    }
}

fn value_or<'a>(s: &'a Option<String>, missing: &'a str) -> (res: &'a str)
    ensures
        res@ == text_or(text::opt_text(*s), missing@),
{
    match s {
        Some(t) => t.as_str(),
        None => missing,
    }
}

/// A path, or a dash where there is none.
pub fn path_or_dash(path: &Option<String>) -> (res: String)
    ensures
        res@ == text_or(text::opt_text(*path), "—"@),
{
    value_or(path, "—").to_string()
}

fn push_line(out: &mut String, key: &str, value: &str)
    ensures
        final(out)@ == old(out)@ + line(key@, value@),
{
    let ghost before = out@;
    out.append(key);
    out.append("=");
    out.append(value);
    out.append("\n");
    assert(out@ =~= before + line(key@, value@));
}

fn push_opt_line(out: &mut String, key: &str, value: &Option<String>)
    ensures
        final(out)@ == old(out)@ + opt_line(key@, text::opt_text(*value)),
{
    let ghost before = out@;
    if let Some(v) = value {
        push_line(out, key, v.as_str());
    }
    assert(out@ =~= before + opt_line(key@, text::opt_text(*value)));
}

fn joined_lines(s: &str) -> (res: String)
    ensures
        res@ == on_one_line(s@),
{
    let chars = chars_of(s);
    let bar = chars_of(" | ");
    let mut out: Vec<char> = Vec::new();
    let mut i: usize = 0;
    while i < chars.len()
        invariant
            i <= chars@.len(),
            bar@ == " | "@,
            out@ == on_one_line(chars@.take(i as int)),
        decreases chars@.len() - i,
    {
        let ghost before = out@;
        assert(chars@.take(i + 1).drop_last() =~= chars@.take(i as int));
        if chars[i] == '\n' {
            push_chars(&mut out, bar.as_slice());
        } else {
            out.push(chars[i]);
            assert(out@ =~= before + seq![chars@[i as int]]);
        }
        i = i + 1;
    }
    assert(chars@.take(i as int) =~= chars@);
    text_of(out.as_slice())
}

fn reading_order(readings: &Vec<ReportedValue>) -> (res: Vec<usize>)
    ensures
        order::is_stable_order(res@, reading_keys(readings@)),
{
    let mut keys: Vec<Vec<i64>> = Vec::new();
    let mut i: usize = 0;
    while i < readings.len()
        invariant
            i <= readings@.len(),
            keys@.len() == i,
            forall|k: int| 0 <= k < i ==> (#[trigger] keys@[k])@ == reading_keys(readings@)[k],
        decreases readings@.len() - i,
    {
        let name = chars_of(readings[i].name.as_str());
        keys.push(key_of_text(name.as_slice()));
        i = i + 1;
    }
    assert(order::key_seqs(keys@) =~= reading_keys(readings@));
    stable_order(&keys)
}

impl Diagnostics {
    fn head_text(&self) -> (res: String)
        ensures
            res@ == self.head(),
    {
        let mut out = "TH420 Display diagnostics\n\n".to_string();
        push_line(&mut out, "device.connected", bool_name(self.connected));
        let mut usb_id = self.vid.clone();
        usb_id.append(":");
        usb_id.append(self.pid.as_str());
        push_line(&mut out, "device.usb_id", usb_id.as_str());
        push_line(&mut out, "device.product", value_or(&self.product, "unknown"));
        push_line(&mut out, "device.revision", value_or(&self.revision, "unknown"));
        push_line(&mut out, "device.control_hid", value_or(&self.control_hid, "—"));
        push_line(&mut out, "device.image_hid", value_or(&self.image_hid, "—"));
        push_line(&mut out, "service.manager", self.manager.as_str());
        push_line(&mut out, "service.daemon_running", bool_name(self.daemon_running));
        push_line(&mut out, "service.autostart", bool_name(self.autostart));
        push_line(&mut out, "runtime.daemon_binary", self.daemon_binary.as_str());
        push_line(&mut out, "runtime.config", self.config_path.as_str());
        push_line(&mut out, "runtime.profile", value_or(&self.profile, "none"));
        push_line(&mut out, "runtime.unsaved_changes", bool_name(self.unsaved_changes));
        push_opt_line(&mut out, "device.coolant_c", &self.coolant);
        let rpm = match self.pump_rpm {
            Some(n) => Some(number_text(n as u64)),
            None => None,
        };
        push_opt_line(&mut out, "device.pump_rpm", &rpm);
        out.append("\nsensors:\n");
        out
    }

    /// Writes the report.
    pub fn report(&self) -> (res: String)
        ensures
            is_report(*self, res@),
    {
        let mut out = self.head_text();
        let order = reading_order(&self.readings);
        let mut i: usize = 0;
        assert(out@ =~= self.head() + reading_lines(self.readings@, order@, 0));
        while i < order.len()
            invariant
                i <= order@.len(),
                order::is_stable_order(order@, reading_keys(self.readings@)),
                out@ == self.head() + reading_lines(self.readings@, order@, i as int),
            decreases order@.len() - i,
        {
            assert(order@[i as int] < reading_keys(self.readings@).len());
            let r = &self.readings[order[i]];
            let ghost before = out@;
            out.append("  ");
            push_line(&mut out, r.name.as_str(), r.value.as_str());
            assert(out@ =~= self.head() + reading_lines(self.readings@, order@, i + 1));
            i = i + 1;
        }
        let ghost body = out@;
        push_opt_line(&mut out, "runtime.device_job", &self.job);
        let error = match &self.last_error {
            Some(e) => Some(joined_lines(e.as_str())),
            None => None,
        };
        push_opt_line(&mut out, "runtime.last_error", &error);
        assert(out@ =~= body + self.tail());
        out
    }
}

// ── Laws ─────────────────────────────────────────────────────────────────────

/// Whether a piece of text stands somewhere in a report.
pub open spec fn tells(report: Seq<char>, piece: Seq<char>) -> bool {
    text::occurs(report, piece)
}

/// The first `n` parts, one after the other.
spec fn sums(parts: Seq<Seq<char>>, n: nat) -> Seq<char>
    decreases n,
{
    if n == 0 {
        seq![]
    } else {
        sums(parts, (n - 1) as nat) + parts[n - 1]
    }
}

proof fn lemma_tells(a: Seq<char>, piece: Seq<char>, b: Seq<char>)
    ensures
        tells(a + piece + b, piece),
{
    let s = a + piece + b;
    let at = a.len() as int;
    assert(s.subrange(at, at + piece.len()) =~= piece);
    assert(text::occurs_at(s, piece, at));
}

proof fn lemma_tells_more(a: Seq<char>, piece: Seq<char>, b: Seq<char>)
    requires
        tells(a, piece),
    ensures
        tells(a + b, piece),
        tells(b + a, piece),
{
    let at = choose|at: int| text::occurs_at(a, piece, at);
    let end = at + piece.len();
    assert((a + b).subrange(at, end) =~= a.subrange(at, end));
    assert(text::occurs_at(a + b, piece, at));
    let after = at + b.len();
    assert((b + a).subrange(after, after + piece.len()) =~= a.subrange(at, end));
    assert(text::occurs_at(b + a, piece, after));
}

proof fn lemma_part_is_told(parts: Seq<Seq<char>>, n: nat, i: int)
    requires
        0 <= i < n,
    ensures
        tells(sums(parts, n), parts[i]),
    decreases n,
{
    let before = sums(parts, (n - 1) as nat);
    if i == n - 1 {
        lemma_tells(before, parts[i], seq![]);
        assert(before + parts[i] + seq![] =~= before + parts[i]);
    } else {
        lemma_part_is_told(parts, (n - 1) as nat, i);
        lemma_tells_more(before, parts[i], parts[n - 1]);
    }
}

/// The lines before the readings.
spec fn head_parts(d: Diagnostics) -> Seq<Seq<char>> {
    seq![
        "TH420 Display diagnostics\n\n"@,
        line("device.connected"@, bool_text(d.connected)),
        line("device.usb_id"@, d.vid@ + ":"@ + d.pid@),
        line("device.product"@, text_or(text::opt_text(d.product), "unknown"@)),
        line("device.revision"@, text_or(text::opt_text(d.revision), "unknown"@)),
        line("device.control_hid"@, text_or(text::opt_text(d.control_hid), "—"@)),
        line("device.image_hid"@, text_or(text::opt_text(d.image_hid), "—"@)),
        line("service.manager"@, d.manager@),
        line("service.daemon_running"@, bool_text(d.daemon_running)),
        line("service.autostart"@, bool_text(d.autostart)),
        line("runtime.daemon_binary"@, d.daemon_binary@),
        line("runtime.config"@, d.config_path@),
        line("runtime.profile"@, text_or(text::opt_text(d.profile), "none"@)),
        line("runtime.unsaved_changes"@, bool_text(d.unsaved_changes)),
        opt_line("device.coolant_c"@, text::opt_text(d.coolant)),
        opt_line(
            "device.pump_rpm"@,
            match d.pump_rpm {
                Some(n) => Some(text::decimal(n as nat)),
                None => None,
            },
        ),
        "\nsensors:\n"@,
    ]
}

#[verifier::rlimit(60)]
proof fn lemma_head(d: Diagnostics)
    ensures
        d.head() == sums(head_parts(d), 17),
{
    let p = head_parts(d);
    reveal_with_fuel(sums, 18);
    assert(sums(p, 1) =~= p[0]);
}

proof fn lemma_head_is_told(d: Diagnostics, report: Seq<char>, i: int)
    requires
        is_report(d, report),
        0 <= i < 17,
    ensures
        tells(report, head_parts(d)[i]),
{
    lemma_head(d);
    lemma_part_is_told(head_parts(d), 17, i);
    let order = choose|order: Seq<usize>|
        #[trigger] order::is_stable_order(order, reading_keys(d.readings@)) && report == d.head()
            + reading_lines(d.readings@, order, d.readings@.len() as int) + d.tail();
    let middle = reading_lines(d.readings@, order, d.readings@.len() as int);
    lemma_tells_more(d.head(), head_parts(d)[i], middle);
    lemma_tells_more(d.head() + middle, head_parts(d)[i], d.tail());
}

/// The report tells of the display, each value in the line with its own name.
pub proof fn law_report_tells_of_the_display(d: Diagnostics, report: Seq<char>)
    requires
        is_report(d, report),
    ensures
        d.connected ==> tells(report, "device.connected"@ + "="@ + "true"@ + "\n"@),
        !d.connected ==> tells(report, "device.connected"@ + "="@ + "false"@ + "\n"@),
        tells(report, "device.usb_id"@ + "="@ + (d.vid@ + ":"@ + d.pid@) + "\n"@),
        d.product matches Some(t) ==> tells(report, "device.product"@ + "="@ + t@ + "\n"@),
        d.revision matches Some(t) ==> tells(report, "device.revision"@ + "="@ + t@ + "\n"@),
        d.control_hid matches Some(t) ==> tells(report, "device.control_hid"@ + "="@ + t@ + "\n"@),
        d.image_hid matches Some(t) ==> tells(report, "device.image_hid"@ + "="@ + t@ + "\n"@),
        d.coolant matches Some(t) ==> tells(report, "device.coolant_c"@ + "="@ + t@ + "\n"@),
        d.pump_rpm matches Some(n) ==> tells(
            report,
            "device.pump_rpm"@ + "="@ + text::decimal(n as nat) + "\n"@,
        ),
{
    lemma_head_is_told(d, report, 1);
    lemma_head_is_told(d, report, 2);
    lemma_head_is_told(d, report, 3);
    lemma_head_is_told(d, report, 4);
    lemma_head_is_told(d, report, 5);
    lemma_head_is_told(d, report, 6);
    lemma_head_is_told(d, report, 14);
    lemma_head_is_told(d, report, 15);
}

/// The report tells of the daemon and its configuration, each value in the line
/// with its own name.
pub proof fn law_report_tells_of_the_daemon(d: Diagnostics, report: Seq<char>)
    requires
        is_report(d, report),
    ensures
        tells(report, "service.manager"@ + "="@ + d.manager@ + "\n"@),
        d.daemon_running ==> tells(report, "service.daemon_running"@ + "="@ + "true"@ + "\n"@),
        !d.daemon_running ==> tells(report, "service.daemon_running"@ + "="@ + "false"@ + "\n"@),
        d.autostart ==> tells(report, "service.autostart"@ + "="@ + "true"@ + "\n"@),
        !d.autostart ==> tells(report, "service.autostart"@ + "="@ + "false"@ + "\n"@),
        tells(report, "runtime.daemon_binary"@ + "="@ + d.daemon_binary@ + "\n"@),
        tells(report, "runtime.config"@ + "="@ + d.config_path@ + "\n"@),
        d.profile matches Some(t) ==> tells(report, "runtime.profile"@ + "="@ + t@ + "\n"@),
        d.unsaved_changes ==> tells(report, "runtime.unsaved_changes"@ + "="@ + "true"@ + "\n"@),
        !d.unsaved_changes ==> tells(report, "runtime.unsaved_changes"@ + "="@ + "false"@ + "\n"@),
{
    lemma_head_is_told(d, report, 7);
    lemma_head_is_told(d, report, 8);
    lemma_head_is_told(d, report, 9);
    lemma_head_is_told(d, report, 10);
    lemma_head_is_told(d, report, 11);
    lemma_head_is_told(d, report, 12);
    lemma_head_is_told(d, report, 13);
}

proof fn lemma_reading_line(readings: Seq<ReportedValue>, order: Seq<usize>, n: int, i: int)
    requires
        0 <= i < n,
    ensures
        ({
            let r = readings[order[i] as int];
            tells(reading_lines(readings, order, n), "  "@ + line(r.name@, r.value@))
        }),
    decreases n,
{
    let r = readings[order[i] as int];
    let piece = "  "@ + line(r.name@, r.value@);
    let before = reading_lines(readings, order, n - 1);
    if i == n - 1 {
        lemma_tells(before, piece, seq![]);
        assert(before + piece + seq![] =~= before + "  "@ + line(r.name@, r.value@));
    } else {
        lemma_reading_line(readings, order, n - 1, i);
        let last = readings[order[n - 1] as int];
        let more = "  "@ + line(last.name@, last.value@);
        lemma_tells_more(before, piece, more);
        assert(before + more =~= before + "  "@ + line(last.name@, last.value@));
    }
}

/// Every reading is in the report, its name before its value.
pub proof fn law_report_tells_every_reading(d: Diagnostics, report: Seq<char>, k: int)
    requires
        is_report(d, report),
        0 <= k < d.readings@.len(),
    ensures
        tells(report, d.readings@[k].name@ + "="@ + d.readings@[k].value@ + "\n"@),
{
    let keys = reading_keys(d.readings@);
    let order = choose|order: Seq<usize>|
        #[trigger] order::is_stable_order(order, keys) && report == d.head() + reading_lines(
            d.readings@,
            order,
            d.readings@.len() as int,
        ) + d.tail();
    order::law_stable_order_is_permutation(order, keys);
    let at: usize = k as usize;
    assert(order.contains(at));
    let i = choose|i: int| 0 <= i < order.len() && order[i] == at;
    let middle = reading_lines(d.readings@, order, d.readings@.len() as int);
    let r = d.readings@[k];
    let piece = line(r.name@, r.value@);
    lemma_reading_line(d.readings@, order, d.readings@.len() as int, i);
    lemma_suffix_is_told(middle, "  "@, piece);
    lemma_tells_more(middle, piece, d.head());
    lemma_tells_more(d.head() + middle, piece, d.tail());
}

proof fn lemma_suffix_is_told(s: Seq<char>, a: Seq<char>, b: Seq<char>)
    requires
        tells(s, a + b),
    ensures
        tells(s, b),
{
    let at = choose|at: int| text::occurs_at(s, a + b, at);
    let from = at + a.len();
    let whole = s.subrange(at, at + (a + b).len());
    assert(whole.skip(a.len() as int) =~= b);
    assert(s.subrange(from, from + b.len()) =~= whole.skip(a.len() as int));
    assert(text::occurs_at(s, b, from));
}

/// The last error is in the report on one line, and so is the job that runs.
pub proof fn law_report_tells_of_errors(d: Diagnostics, report: Seq<char>)
    requires
        is_report(d, report),
    ensures
        d.job matches Some(t) ==> tells(report, "runtime.device_job"@ + "="@ + t@ + "\n"@),
        d.last_error matches Some(e) ==> tells(
            report,
            "runtime.last_error"@ + "="@ + on_one_line(e@) + "\n"@,
        ),
        d.last_error matches Some(e) ==> forall|i: int|
            0 <= i < on_one_line(e@).len() ==> #[trigger] on_one_line(e@)[i] != '\n',
{
    let order = choose|order: Seq<usize>|
        #[trigger] order::is_stable_order(order, reading_keys(d.readings@)) && report == d.head()
            + reading_lines(d.readings@, order, d.readings@.len() as int) + d.tail();
    let start = d.head() + reading_lines(d.readings@, order, d.readings@.len() as int);
    let a = opt_line("runtime.device_job"@, text::opt_text(d.job));
    let b = opt_line(
        "runtime.last_error"@,
        match d.last_error {
            Some(e) => Some(on_one_line(e@)),
            None => None,
        },
    );
    lemma_tells(start, a, b);
    assert(start + a + b =~= start + d.tail());
    lemma_tells(start + a, b, seq![]);
    assert(start + a + b + seq![] =~= start + d.tail());
    if let Some(e) = d.last_error {
        lemma_one_line(e@);
    }
}

proof fn lemma_one_line(s: Seq<char>)
    ensures
        forall|i: int| 0 <= i < on_one_line(s).len() ==> #[trigger] on_one_line(s)[i] != '\n',
    decreases s.len(),
{
    if s.len() > 0 {
        let before = on_one_line(s.drop_last());
        let bar = " | "@;
        reveal_strlit(" | ");
        assert(bar.len() == 3 && bar[0] == ' ' && bar[1] == '|' && bar[2] == ' ');
        lemma_one_line(s.drop_last());
        let last = if s.last() == '\n' {
            bar
        } else {
            seq![s.last()]
        };
        assert(on_one_line(s) == before + last);
        assert forall|i: int| 0 <= i < (before + last).len() implies (before + last)[i] != '\n' by {
            if i < before.len() {
                assert((before + last)[i] == before[i]);
            } else {
                assert((before + last)[i] == last[i - before.len()]);
            }
        }
    }
}

} // verus!
