//! Operations on the display that another process carries out.
//!
//! One job runs at a time. While it runs it needs the display for itself, so a
//! running daemon is stopped before and started again afterwards.

use crate::text;
use crate::text::{
    chars_of, read_number, same_text, split_lines, stripped, text_of, trimmed, trimmed_text,
    CharSet,
};
use vstd::prelude::*;

verus! {

/// How a job ended.
#[derive(Clone, Debug)]
pub struct JobResult {
    pub success: bool,
    pub stdout: String,
    pub stderr: String,
}

/// What is heard of a running job.
#[derive(Clone, Debug)]
pub enum JobMessage {
    /// It runs as this process.
    Started(u32),
    Finished(JobResult),
}

/// A running job.
#[derive(Clone, Debug)]
pub struct CliJob {
    pub label: String,
    pub pid: Option<u32>,
    pub restore_daemon: bool,
    pub cancel_requested: bool,
}

/// The running job and what is shown of the last one.
#[derive(Clone, Debug)]
pub struct Jobs {
    pub job: Option<CliJob>,
    pub status: String,
    pub last_error: Option<String>,
    pub daemon_running: bool,
}

/// What a `JobResult` holds.
pub struct JobResultView {
    pub success: bool,
    pub stdout: Seq<char>,
    pub stderr: Seq<char>,
}

/// What a `CliJob` holds.
pub struct CliJobView {
    pub label: Seq<char>,
    pub pid: Option<u32>,
    pub restore_daemon: bool,
    pub cancel_requested: bool,
}

/// What a `Jobs` holds.
pub struct JobsView {
    pub job: Option<CliJobView>,
    pub status: Seq<char>,
    pub last_error: Option<Seq<char>>,
    pub daemon_running: bool,
}

impl View for JobResult {
    type V = JobResultView;

    open spec fn view(&self) -> JobResultView {
        JobResultView { success: self.success, stdout: self.stdout@, stderr: self.stderr@ }
    }
}

impl View for CliJob {
    type V = CliJobView;

    open spec fn view(&self) -> CliJobView {
        CliJobView {
            label: self.label@,
            pid: self.pid,
            restore_daemon: self.restore_daemon,
            cancel_requested: self.cancel_requested,
        }
    }
}

impl View for Jobs {
    type V = JobsView;

    open spec fn view(&self) -> JobsView {
        JobsView {
            job: match self.job {
                Some(j) => Some(j@),
                None => None,
            },
            status: self.status@,
            last_error: text::opt_text(self.last_error),
            daemon_running: self.daemon_running,
        }
    }
}

/// What the caller has to do to start a job.
#[derive(Clone, Copy, Debug, PartialEq, Eq, Structural)]
pub enum Start {
    /// Nothing: another job is running.
    Busy,
    /// Start the process.
    Begin,
    /// Stop the daemon, wait a moment and start the process.
    StopDaemonFirst,
}

/// What the caller has to do once messages have been taken in.
#[derive(Clone, Debug)]
pub struct Followup {
    /// Start the daemon again.
    pub restore_daemon: bool,
    /// Take over this status report of the display.
    pub report: Option<String>,
}

/// The process number after some messages.
pub open spec fn pid_after(pid: Option<u32>, messages: Seq<JobMessage>) -> Option<u32>
    decreases messages.len(),
{
    if messages.len() == 0 {
        pid
    } else {
        match messages.last() {
            JobMessage::Started(p) => Some(p),
            JobMessage::Finished(_) => pid_after(pid, messages.drop_last()),
        }
    }
}

/// The last result among some messages.
pub open spec fn result_in(messages: Seq<JobMessage>) -> Option<JobResultView>
    decreases messages.len(),
{
    if messages.len() == 0 {
        None
    } else {
        match messages.last() {
            JobMessage::Started(_) => result_in(messages.drop_last()),
            JobMessage::Finished(r) => Some(r@),
        }
    }
}

/// What a failed job said: its errors, or its output if there are none.
pub open spec fn failure_detail(r: JobResultView) -> Seq<char> {
    let errors = text::trim(r.stderr, CharSet::White);
    if errors.len() == 0 {
        text::trim(r.stdout, CharSet::White)
    } else {
        errors
    }
}

impl JobsView {
    /// What is done first when a job is asked for.
    pub open spec fn answer(self, daemon_running: bool) -> Start {
        if self.job is Some {
            Start::Busy
        } else if daemon_running {
            Start::StopDaemonFirst
        } else {
            Start::Begin
        }
    }

    /// Whether the daemon is to be started again after these messages.
    pub open spec fn restores(self, messages: Seq<JobMessage>) -> bool {
        self.job matches Some(j) && j.restore_daemon && result_in(messages) is Some
    }

    /// After a job was asked for.
    pub open spec fn started(self, label: Seq<char>, daemon_running: bool) -> JobsView {
        if self.job is Some {
            self
        } else {
            JobsView {
                job: Some(
                    CliJobView {
                        label,
                        pid: None,
                        restore_daemon: daemon_running,
                        cancel_requested: false,
                    },
                ),
                status: label,
                daemon_running: if daemon_running {
                    false
                } else {
                    self.daemon_running
                },
                ..self
            }
        }
    }

    /// After messages of the job were taken in.
    pub open spec fn polled(self, messages: Seq<JobMessage>) -> JobsView {
        match self.job {
            None => self,
            Some(job) => match result_in(messages) {
                None => JobsView {
                    job: Some(CliJobView { pid: pid_after(job.pid, messages), ..job }),
                    ..self
                },
                Some(r) => JobsView {
                    job: None,
                    daemon_running: self.daemon_running || job.restore_daemon,
                    status: job.label + if r.success {
                        " complete"@
                    } else if job.cancel_requested {
                        " stopped"@
                    } else {
                        " failed"@
                    },
                    last_error: if r.success || job.cancel_requested {
                        self.last_error
                    } else {
                        Some(job.label + " failed: "@ + failure_detail(r))
                    },
                },
            },
        }
    }

    /// The status report that the messages brought.
    pub open spec fn report(self, messages: Seq<JobMessage>) -> Option<Seq<char>> {
        match (self.job, result_in(messages)) {
            (Some(job), Some(r)) => if r.success && job.label == "Read device status"@ {
                Some(r.stdout)
            } else {
                None
            },
            _ => None,
        }
    }

    /// After the user asked to stop the job.
    pub open spec fn stopping(self) -> JobsView {
        match self.job {
            Some(job) => JobsView { job: Some(CliJobView { cancel_requested: true, ..job }), ..self },
            None => self,
        }
    }
}

fn labelled(label: &str, tail: &str) -> (res: String)
    ensures
        res@ == label@ + tail@,
{
    let mut res = label.to_string();
    res.append(tail);
    res
}

fn detail_of(r: &JobResult) -> (res: String)
    ensures
        res@ == failure_detail(r@),
{
    let chars = chars_of(r.stderr.as_str());
    let errors = trimmed(chars.as_slice(), CharSet::White);
    if errors.len() == 0 {
        trimmed_text(r.stdout.as_str())
    } else {
        text_of(errors.as_slice())
    }
}

impl Jobs {
    /// No job is running.
    pub fn new(daemon_running: bool) -> (res: Jobs)
        ensures
            res@ == (JobsView {
                job: None,
                status: "Idle"@,
                last_error: None,
                daemon_running,
            }),
    {
        Jobs { job: None, status: "Idle".to_string(), last_error: None, daemon_running }
    }

    /// Asks for a job. One that is asked for while another runs is dropped.
    pub fn start_cli_job(&mut self, label: &str, daemon_running: bool) -> (res: Start)
        ensures
            final(self)@ == old(self)@.started(label@, daemon_running),
            res == (if old(self)@.job is Some {
                Start::Busy
            } else if daemon_running {
                Start::StopDaemonFirst
            } else {
                Start::Begin
            }),
            res == old(self)@.answer(daemon_running),
    {
        if self.job.is_some() {
            return Start::Busy;
        }
        if daemon_running {
            self.daemon_running = false;
        }
        self.status = label.to_string();
        self.job = Some(
            CliJob {
                label: label.to_string(),
                pid: None,
                restore_daemon: daemon_running,
                cancel_requested: false,
            },
        );
        if daemon_running {
            Start::StopDaemonFirst
        } else {
            Start::Begin
        }
    }

    /// Takes in what was heard of the job.
    pub fn poll_cli_job(&mut self, messages: &[JobMessage]) -> (res: Followup)
        ensures
            final(self)@ == old(self)@.polled(messages@),
            text::opt_text(res.report) == old(self)@.report(messages@),
            res.restore_daemon == (old(self)@.job matches Some(j) && j.restore_daemon && result_in(
                messages@,
            ) is Some),
            res.restore_daemon == old(self)@.restores(messages@),
    {
        let ghost start = self@;
        let mut job = match self.job.take() {
            Some(j) => j,
            None => {
                return Followup { restore_daemon: false, report: None };
            },
        };
        let ghost first = job@;
        let mut finished: Option<usize> = None;
        let mut i: usize = 0;
        while i < messages.len()
            invariant
                i <= messages@.len(),
                job@ == (CliJobView {
                    pid: pid_after(first.pid, messages@.take(i as int)),
                    ..first
                }),
                match finished {
                    Some(k) => k < i && (messages@[k as int] matches JobMessage::Finished(r)
                        && result_in(messages@.take(i as int)) == Some(r@)),
                    None => result_in(messages@.take(i as int)) is None,
                },
            decreases messages@.len() - i,
        {
            assert(messages@.take(i + 1).drop_last() =~= messages@.take(i as int));
            assert(messages@.take(i + 1).last() == messages@[i as int]);
            match &messages[i] {
                JobMessage::Started(pid) => {
                    job.pid = Some(*pid);
                },
                JobMessage::Finished(_) => {
                    finished = Some(i);
                },
            }
            i = i + 1;
        }
        assert(messages@.take(i as int) =~= messages@);
        let at = match finished {
            Some(k) => k,
            None => {
                self.job = Some(job);
                return Followup { restore_daemon: false, report: None };
            },
        };
        let result = match &messages[at] {
            JobMessage::Finished(r) => r,
            JobMessage::Started(_) => {
                return Followup { restore_daemon: false, report: None };
            },
        };
        let label = job.label.as_str();
        let mut report: Option<String> = None;
        if job.restore_daemon {
            self.daemon_running = true;
        }
        if result.success {
            self.status = labelled(label, " complete");
            if same_text(label, "Read device status") {
                report = Some(result.stdout.clone());
            }
        } else if job.cancel_requested {
            self.status = labelled(label, " stopped");
        } else {
            let detail = detail_of(result);
            let mut message = labelled(label, " failed: ");
            message.append(detail.as_str());
            self.last_error = Some(message);
            self.status = labelled(label, " failed");
        }
        Followup { restore_daemon: job.restore_daemon, report }
    }

    /// Asks the job to stop. Returns the process to end, if it is known.
    pub fn stop_cli_job(&mut self) -> (res: Option<u32>)
        ensures
            final(self)@ == old(self)@.stopping(),
            res == (match old(self)@.job {
                Some(j) => j.pid,
                None => None,
            }),
    {
        match self.job.take() {
            Some(j) => {
                let mut job = j;
                job.cancel_requested = true;
                let pid = job.pid;
                self.job = Some(job);
                pid
            },
            None => None,
        }
    }
}

// ── Status reports ───────────────────────────────────────────────────────────

/// What a status report says of the display.
#[derive(Clone, Debug)]
pub struct DeviceStatus {
    /// The coolant temperature as it is written, if the report mentions it.
    pub coolant: Option<String>,
    /// Whether the report mentions the pump.
    pub mentions_pump: bool,
    /// The speed of the pump, if the report gives a valid one.
    pub pump_rpm: Option<u16>,
}

/// The text after the last line that begins with `key`, without surrounding
/// white space.
pub open spec fn last_value(lines: Seq<Seq<char>>, key: Seq<char>) -> Option<Seq<char>>
    decreases lines.len(),
{
    if lines.len() == 0 {
        None
    } else {
        match text::strip(lines.last(), key) {
            Some(v) => Some(text::trim(v, CharSet::White)),
            None => last_value(lines.drop_last(), key),
        }
    }
}

/// The number that a value stands for, if it is a 16-bit number.
pub open spec fn rpm_of(value: Option<Seq<char>>) -> Option<nat> {
    match value {
        Some(v) => text::bounded_number(v, u16::MAX as nat),
        None => None,
    }
}

/// Reads a status report. Of several lines with the same key the last counts.
pub fn parse_device_status(report: &str) -> (res: DeviceStatus)
    ensures
        ({
            let lines = text::lines(report@);
            let rpm = rpm_of(last_value(lines, "pump_rpm="@));
            &&& text::opt_text(res.coolant) == last_value(lines, "coolant_temp_c="@)
            &&& res.mentions_pump == last_value(lines, "pump_rpm="@) is Some
            &&& match res.pump_rpm {
                Some(n) => rpm == Some(n as nat),
                None => rpm is None,
            }
        }),
{
    let chars = chars_of(report);
    let lines = split_lines(chars.as_slice());
    let ghost all = text::lines(report@);
    assert(all == text::seqs(lines@));
    let mut coolant: Option<String> = None;
    let mut mentions_pump = false;
    let mut pump_rpm: Option<u16> = None;
    let mut i: usize = 0;
    while i < lines.len()
        invariant
            i <= lines@.len(),
            all == text::seqs(lines@),
            text::opt_text(coolant) == last_value(all.take(i as int), "coolant_temp_c="@),
            mentions_pump == last_value(all.take(i as int), "pump_rpm="@) is Some,
            match pump_rpm {
                Some(n) => rpm_of(last_value(all.take(i as int), "pump_rpm="@)) == Some(n as nat),
                None => rpm_of(last_value(all.take(i as int), "pump_rpm="@)) is None,
            },
        decreases lines@.len() - i,
    {
        assert(all.take(i + 1).drop_last() =~= all.take(i as int));
        assert(all.take(i + 1).last() == lines@[i as int]@);
        if let Some(v) = stripped(lines[i].as_slice(), "coolant_temp_c=") {
            let t = trimmed(v.as_slice(), CharSet::White);
            coolant = Some(text_of(t.as_slice()));
        }
        if let Some(v) = stripped(lines[i].as_slice(), "pump_rpm=") {
            let t = trimmed(v.as_slice(), CharSet::White);
            mentions_pump = true;
            pump_rpm =
            match read_number(t.as_slice(), u16::MAX as u64) {
                Some(n) => Some(n as u16),
                None => None,
            };
        }
        i = i + 1;
    }
    assert(all.take(i as int) =~= all);
    DeviceStatus { coolant, mentions_pump, pump_rpm }
}

// ── Laws ─────────────────────────────────────────────────────────────────────

/// A daemon that was stopped for a job runs again once the job has ended,
/// however it ended.
pub proof fn law_daemon_is_restored(
    jobs: JobsView,
    label: Seq<char>,
    messages: Seq<JobMessage>,
)
    requires
        jobs.job is None,
        result_in(messages) is Some,
    ensures
        !jobs.started(label, true).daemon_running,
        jobs.started(label, true).polled(messages).daemon_running,
        jobs.started(label, true).stopping().polled(messages).daemon_running,
        jobs.started(label, true).polled(messages).job is None,
{
}

/// While a job runs no other one starts.
pub proof fn law_one_job_at_a_time(jobs: JobsView, a: Seq<char>, b: Seq<char>, running: bool)
    requires
        jobs.job is None,
    ensures
        jobs.started(a, running).started(b, false) == jobs.started(a, running),
        jobs.started(a, running).started(b, true) == jobs.started(a, running),
{
}

/// A job that fails after the user asked to stop it is not reported as an
/// error.
pub proof fn law_stopped_job_is_no_error(jobs: JobsView, messages: Seq<JobMessage>)
    requires
        jobs.job is Some,
        result_in(messages) is Some,
    ensures
        jobs.stopping().polled(messages).last_error == jobs.last_error,
{
}

/// A job that has finished is told of: its label and what became of it. A failure
/// leaves an error behind that begins with the label and ends with what the program
/// wrote; a success leaves the last error as it was.
pub proof fn law_outcome_is_told(jobs: JobsView, messages: Seq<JobMessage>)
    requires
        jobs.job is Some,
        result_in(messages) is Some,
    ensures
        ({
            let label = jobs.job->0.label;
            let after = jobs.polled(messages);
            let r = result_in(messages)->0;
            &&& after.job is None
            &&& text::starts_with(after.status, label)
            &&& r.success ==> after.status == label + " complete"@ && after.last_error
                == jobs.last_error
            &&& !r.success && jobs.job->0.cancel_requested ==> after.status == label + " stopped"@
                && after.last_error == jobs.last_error
            &&& !r.success && !jobs.job->0.cancel_requested ==> after.status == label + " failed"@
                && after.last_error is Some && text::starts_with(
                after.last_error->0,
                label + " failed: "@,
            ) && text::ends_with(after.last_error->0, failure_detail(r))
            &&& !jobs.job->0.restore_daemon ==> after.daemon_running == jobs.daemon_running
        }),
{
    let label = jobs.job->0.label;
    let after = jobs.polled(messages);
    let r = result_in(messages)->0;
    assert(after.status.take(label.len() as int) =~= label);
    if !r.success && !jobs.job->0.cancel_requested {
        let e = after.last_error->0;
        let head = label + " failed: "@;
        let tail = failure_detail(r);
        assert(e == head + tail);
        assert(e.take(head.len() as int) =~= head);
        assert(e.skip(e.len() - tail.len()) =~= tail);
    }
}

/// What a failed program wrote as its errors is told; only if that is blank, what
/// it wrote otherwise.
pub proof fn law_errors_come_first(r: JobResultView)
    ensures
        text::trim(r.stderr, CharSet::White).len() > 0 ==> failure_detail(r) == text::trim(
            r.stderr,
            CharSet::White,
        ),
        text::trim(r.stderr, CharSet::White).len() == 0 ==> failure_detail(r) == text::trim(
            r.stdout,
            CharSet::White,
        ),
{
}

/// A job is stopped by its process: the one it was last started as, from the
/// messages so far.
pub proof fn law_process_is_known(jobs: JobsView, messages: Seq<JobMessage>, p: u32)
    requires
        jobs.job is Some,
        result_in(messages) is None,
    ensures
        jobs.polled(messages).job is Some,
        jobs.polled(messages.push(JobMessage::Started(p))).job matches Some(j) && j.pid == Some(p),
        messages.len() == 0 ==> jobs.polled(messages) == jobs,
        jobs.polled(messages).status == jobs.status,
        jobs.polled(messages).daemon_running == jobs.daemon_running,
        jobs.stopping().job matches Some(j) && j.pid == jobs.job->0.pid && j.cancel_requested,
{
    let more = messages.push(JobMessage::Started(p));
    assert(more.drop_last() =~= messages);
}

proof fn lemma_last_value(lines: Seq<Seq<char>>, key: Seq<char>, i: int)
    requires
        0 <= i < lines.len(),
        text::starts_with(lines[i], key),
        forall|k: int| i < k < lines.len() ==> !text::starts_with(#[trigger] lines[k], key),
    ensures
        last_value(lines, key) == Some(
            text::trim(lines[i].skip(key.len() as int), CharSet::White),
        ),
    decreases lines.len(),
{
    if i < lines.len() - 1 {
        assert(!text::starts_with(lines[lines.len() - 1], key));
        assert forall|k: int| i < k < lines.drop_last().len() implies !text::starts_with(
            #[trigger] lines.drop_last()[k],
            key,
        ) by {
            assert(lines.drop_last()[k] == lines[k]);
        }
        lemma_last_value(lines.drop_last(), key, i);
    }
}

/// The speed of the pump is read from its line of the report, and the temperature
/// of the coolant from its own.
pub proof fn law_report_is_read(lines: Seq<Seq<char>>, i: int, rpm: u16, j: int, coolant: Seq<char>)
    requires
        0 <= i < lines.len(),
        lines[i] == "pump_rpm="@ + text::decimal(rpm as nat),
        forall|k: int|
            i < k < lines.len() ==> !text::starts_with(#[trigger] lines[k], "pump_rpm="@),
        0 <= j < lines.len(),
        lines[j] == "coolant_temp_c="@ + coolant,
        coolant.len() > 0 ==> !text::is_white(coolant[0]) && !text::is_white(coolant.last()),
        forall|k: int|
            j < k < lines.len() ==> !text::starts_with(#[trigger] lines[k], "coolant_temp_c="@),
    ensures
        rpm_of(last_value(lines, "pump_rpm="@)) == Some(rpm as nat),
        last_value(lines, "coolant_temp_c="@) == Some(coolant),
{
    let key = "pump_rpm="@;
    let other = "coolant_temp_c="@;
    let digits = text::decimal(rpm as nat);
    assert(lines[i].take(key.len() as int) =~= key);
    assert(lines[i].skip(key.len() as int) =~= digits);
    assert(lines[j].take(other.len() as int) =~= other);
    assert(lines[j].skip(other.len() as int) =~= coolant);
    lemma_last_value(lines, key, i);
    lemma_last_value(lines, other, j);
    text::lemma_decimal_reads_back(rpm as nat);
    assert(text::is_digit(digits[0]) && text::is_digit(digits.last()));
    text::law_trim_of_trimmed(digits, CharSet::White);
    text::law_trim_of_trimmed(coolant, CharSet::White);
}

} // verus!
