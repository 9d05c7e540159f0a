//! Running the daemon under the init system of the machine.
//!
//! What has to be done for a request depends on what the system answers on the
//! way. A request is therefore a `Plan`: a tree of actions in which the outcome
//! of an action selects what comes next.

use crate::paths;
use crate::paths::{file_name_of, join_path};
use crate::text;
use crate::text::{
    chars_of, ends_with_text, position_of, read_number, same_text, slice_of, stripped, text_of,
    trimmed, trimmed_start, CharSet,
};
use vstd::prelude::*;

verus! {

/// The init system responsible for managing the display daemon.
#[derive(Clone, Copy, Debug, PartialEq, Eq, Structural)]
pub enum BackendKind {
    Systemd,
    Runit,
    Unmanaged,
}

impl BackendKind {
    /// The name of the init system.
    pub open spec fn name_text(self) -> Seq<char> {
        match self {
            BackendKind::Systemd => "systemd"@,
            BackendKind::Runit => "runit"@,
            BackendKind::Unmanaged => "unmanaged"@,
        }
    }

    /// The name of the init system.
    pub fn name(self) -> (res: &'static str)
        ensures
            res@ == self.name_text(),
    {
        match self {
            BackendKind::Systemd => "systemd",
            BackendKind::Runit => "runit",
            BackendKind::Unmanaged => "unmanaged",
        }
    }

    /// Whether the daemon can be started with the system.
    pub fn supports_autostart(self) -> (res: bool)
        ensures
            res == (self != BackendKind::Unmanaged),
    {
        match self {
            BackendKind::Unmanaged => false,
            _ => true,
        }
    }
}

// ── Detection ────────────────────────────────────────────────────────────────

/// The init system of this name.
pub open spec fn backend_named(name: Seq<char>) -> Option<BackendKind> {
    if name == "systemd"@ {
        Some(BackendKind::Systemd)
    } else if name == "runit"@ {
        Some(BackendKind::Runit)
    } else {
        None
    }
}

/// The init system for the command name and the executable of process 1. The
/// command name counts if it names a supported one.
pub open spec fn backend(comm: Option<Seq<char>>, exe: Option<Seq<char>>) -> BackendKind {
    let by_comm = match comm {
        Some(c) => backend_named(text::trim(c, CharSet::Padding)),
        None => None,
    };
    let by_exe = match exe {
        Some(e) => match paths::file_name(e) {
            Some(n) => backend_named(n),
            None => None,
        },
        None => None,
    };
    match (by_comm, by_exe) {
        (Some(b), _) => b,
        (None, Some(b)) => b,
        (None, None) => BackendKind::Unmanaged,
    }
}

fn backend_from_name(name: &str) -> (res: Option<BackendKind>)
    ensures
        res == backend_named(name@),
{
    if same_text(name, "systemd") {
        Some(BackendKind::Systemd)
    } else if same_text(name, "runit") {
        Some(BackendKind::Runit)
    } else {
        None
    }
}

/// A process name without padding, if anything is left of it.
fn init_name(value: &str) -> (res: Option<String>)
    ensures
        ({
            let t = text::trim(value@, CharSet::Padding);
            text::opt_text(res) == if t.len() > 0 {
                Some(t)
            } else {
                None
            }
        }),
{
    let chars = chars_of(value);
    let t = trimmed(chars.as_slice(), CharSet::Padding);
    if t.len() > 0 {
        Some(text_of(t.as_slice()))
    } else {
        None
    }
}

/// Selects the init system from the contents of `/proc/1/comm` and the target
/// of `/proc/1/exe`.
pub fn backend_from_pid1(comm: Option<&str>, exe: Option<&str>) -> (res: BackendKind)
    ensures
        res == backend(text::opt_str(comm), text::opt_str(exe)),
{
    if let Some(c) = comm {
        if let Some(name) = init_name(c) {
            if let Some(b) = backend_from_name(name.as_str()) {
                return b;
            }
        } else {
            proof {
                reveal_strlit("systemd");
                reveal_strlit("runit");
                assert(backend_named(text::trim(c@, CharSet::Padding)) is None);
            }
        }
    }
    if let Some(e) = exe {
        if let Some(n) = file_name_of(e) {
            let name = text_of(n.as_slice());
            if let Some(b) = backend_from_name(name.as_str()) {
                return b;
            }
        }
    }
    BackendKind::Unmanaged
}

// ── Plans ────────────────────────────────────────────────────────────────────

/// What the daemon's service is asked to do or to tell.
#[derive(Clone, Copy, Debug, PartialEq, Eq, Structural)]
pub enum Verb {
    IsActive,
    IsEnabled,
    Start,
    Stop,
    Restart,
    Enable,
    Disable,
    Reload,
}

/// One action on the system. Its outcome is whether it succeeded, or the
/// answer to the question that it asks.
#[derive(Clone, Copy, Debug, PartialEq, Eq, Structural)]
pub enum Action {
    /// Run `systemctl`.
    Systemctl(Verb),
    /// Create the directory of the user's systemd units.
    MakeUnitDir,
    /// Write the unit file of the daemon.
    WriteUnit,
    /// Does `sv status` report the daemon as running?
    SvRunning,
    /// Run `sv up`, `sv down` or `sv restart`.
    Sv(Verb),
    /// Is the active service a symbolic link?
    ServiceLinked,
    /// Is the service directory installed?
    ServiceInstalled,
    /// Does the active service exist?
    ServiceExists,
    /// Is there any entry at the place of the active service?
    ServiceEntryPresent,
    /// Link the service directory as the active service.
    LinkService,
    /// Remove the active service.
    UnlinkService,
    /// Is a daemon process running?
    DaemonFound,
    /// Start a daemon process.
    SpawnDaemon,
    /// Ask a running daemon process to end.
    TerminateDaemon,
}

/// What a request consists of.
#[derive(Debug, PartialEq, Eq)]
pub enum Plan {
    /// The request is answered.
    Answer(bool),
    /// Nothing more is to be done.
    Done,
    /// Perform an action; its outcome does not matter.
    Do { action: Action, next: Box<Plan> },
    /// Perform an action; its outcome selects what comes next.
    Ask { action: Action, yes: Box<Plan>, no: Box<Plan> },
}

pub open spec fn doing(action: Action, next: Plan) -> Plan {
    Plan::Do { action, next: Box::new(next) }
}

pub open spec fn asking(action: Action, yes: Plan, no: Plan) -> Plan {
    Plan::Ask { action, yes: Box::new(yes), no: Box::new(no) }
}

pub open spec fn answering(action: Action) -> Plan {
    asking(action, Plan::Answer(true), Plan::Answer(false))
}

/// Installs the unit file; the rest follows only if that succeeds.
pub open spec fn with_unit(rest: Plan) -> Plan {
    asking(
        Action::MakeUnitDir,
        asking(Action::WriteUnit, doing(Action::Systemctl(Verb::Reload), rest), Plan::Done),
        Plan::Done,
    )
}

/// Uses `sv` on an enabled service; the fallback follows if there is none or
/// if `sv` fails.
pub open spec fn sv_or(verb: Verb, fallback: Plan) -> Plan {
    asking(
        Action::ServiceLinked,
        asking(Action::Sv(verb), Plan::Done, fallback),
        fallback,
    )
}

fn act(action: Action, next: Plan) -> (res: Plan)
    ensures
        res == doing(action, next),
{
    Plan::Do { action, next: Box::new(next) }
}

fn ask(action: Action, yes: Plan, no: Plan) -> (res: Plan)
    ensures
        res == asking(action, yes, no),
{
    Plan::Ask { action, yes: Box::new(yes), no: Box::new(no) }
}

fn answer(action: Action) -> (res: Plan)
    ensures
        res == answering(action),
{
    ask(action, Plan::Answer(true), Plan::Answer(false))
}

fn install_systemd_unit(rest: Plan) -> (res: Plan)
    ensures
        res == with_unit(rest),
{
    ask(
        Action::MakeUnitDir,
        ask(Action::WriteUnit, act(Action::Systemctl(Verb::Reload), rest), Plan::Done),
        Plan::Done,
    )
}

/// The manager of the daemon.
#[derive(Clone, Copy, Debug)]
pub struct ServiceManager {
    kind: BackendKind,
}

/// The plan of each request.
pub enum Request {
    DaemonRunning,
    AutostartEnabled,
    Start,
    Stop,
    Restart,
    EnableAutostart,
    DisableAutostart,
}

/// What a request consists of under an init system.
pub open spec fn plan(kind: BackendKind, request: Request) -> Plan {
    let spawn = doing(Action::SpawnDaemon, Plan::Done);
    let terminate = doing(Action::TerminateDaemon, Plan::Done);
    let respawn = doing(Action::TerminateDaemon, spawn);
    match (kind, request) {
        (BackendKind::Systemd, Request::DaemonRunning) => answering(
            Action::Systemctl(Verb::IsActive),
        ),
        (BackendKind::Systemd, Request::AutostartEnabled) => answering(
            Action::Systemctl(Verb::IsEnabled),
        ),
        (BackendKind::Systemd, Request::Start) => with_unit(
            doing(Action::Systemctl(Verb::Start), Plan::Done),
        ),
        (BackendKind::Systemd, Request::Stop) => doing(Action::Systemctl(Verb::Stop), Plan::Done),
        (BackendKind::Systemd, Request::Restart) => with_unit(
            doing(Action::Systemctl(Verb::Restart), Plan::Done),
        ),
        (BackendKind::Systemd, Request::EnableAutostart) => with_unit(
            doing(Action::Systemctl(Verb::Enable), Plan::Done),
        ),
        (BackendKind::Systemd, Request::DisableAutostart) => doing(
            Action::Systemctl(Verb::Disable),
            Plan::Done,
        ),
        (BackendKind::Runit, Request::DaemonRunning) => asking(
            Action::SvRunning,
            Plan::Answer(true),
            answering(Action::DaemonFound),
        ),
        (BackendKind::Runit, Request::AutostartEnabled) => answering(Action::ServiceLinked),
        (BackendKind::Runit, Request::Start) => sv_or(Verb::Start, spawn),
        (BackendKind::Runit, Request::Stop) => sv_or(Verb::Stop, terminate),
        (BackendKind::Runit, Request::Restart) => sv_or(Verb::Restart, respawn),
        (BackendKind::Runit, Request::EnableAutostart) => asking(
            Action::ServiceInstalled,
            asking(
                Action::ServiceExists,
                Plan::Done,
                asking(
                    Action::ServiceEntryPresent,
                    Plan::Done,
                    doing(Action::LinkService, Plan::Done),
                ),
            ),
            Plan::Done,
        ),
        (BackendKind::Runit, Request::DisableAutostart) => asking(
            Action::ServiceLinked,
            doing(Action::UnlinkService, Plan::Done),
            Plan::Done,
        ),
        (BackendKind::Unmanaged, Request::DaemonRunning) => answering(Action::DaemonFound),
        (BackendKind::Unmanaged, Request::AutostartEnabled) => Plan::Answer(false),
        (BackendKind::Unmanaged, Request::Start) => spawn,
        (BackendKind::Unmanaged, Request::Stop) => terminate,
        (BackendKind::Unmanaged, Request::Restart) => respawn,
        (BackendKind::Unmanaged, Request::EnableAutostart) => Plan::Done,
        (BackendKind::Unmanaged, Request::DisableAutostart) => Plan::Done,
    }
}

impl ServiceManager {
    /// The init system.
    pub closed spec fn backend(&self) -> BackendKind {
        self.kind
    }

    /// The manager for the init system that process 1 belongs to.
    pub fn detect(comm: Option<&str>, exe: Option<&str>) -> (res: ServiceManager)
        ensures
            res.backend() == backend(text::opt_str(comm), text::opt_str(exe)),
    {
        ServiceManager { kind: backend_from_pid1(comm, exe) }
    }

    /// The manager for an init system.
    pub fn for_kind(kind: BackendKind) -> (res: ServiceManager)
        ensures
            res.backend() == kind,
    {
        ServiceManager { kind }
    }

    /// The init system.
    pub fn kind(&self) -> (res: BackendKind)
        ensures
            res == self.backend(),
    {
        self.kind
    }

    /// Is the daemon running? With runit, a daemon that was started directly
    /// counts too.
    pub fn daemon_running(&self) -> (res: Plan)
        ensures
            res == plan(self.backend(), Request::DaemonRunning),
    {
        match self.kind {
            BackendKind::Systemd => answer(Action::Systemctl(Verb::IsActive)),
            BackendKind::Runit => ask(
                Action::SvRunning,
                Plan::Answer(true),
                answer(Action::DaemonFound),
            ),
            BackendKind::Unmanaged => answer(Action::DaemonFound),
        }
    }

    /// Is the daemon started with the system?
    pub fn autostart_enabled(&self) -> (res: Plan)
        ensures
            res == plan(self.backend(), Request::AutostartEnabled),
    {
        match self.kind {
            BackendKind::Systemd => answer(Action::Systemctl(Verb::IsEnabled)),
            BackendKind::Runit => answer(Action::ServiceLinked),
            BackendKind::Unmanaged => Plan::Answer(false),
        }
    }

    /// Starts the daemon.
    pub fn start(&self) -> (res: Plan)
        ensures
            res == plan(self.backend(), Request::Start),
    {
        match self.kind {
            BackendKind::Systemd => install_systemd_unit(
                act(Action::Systemctl(Verb::Start), Plan::Done),
            ),
            BackendKind::Runit => ask(
                Action::ServiceLinked,
                ask(Action::Sv(Verb::Start), Plan::Done, act(Action::SpawnDaemon, Plan::Done)),
                act(Action::SpawnDaemon, Plan::Done),
            ),
            BackendKind::Unmanaged => act(Action::SpawnDaemon, Plan::Done),
        }
    }

    /// Stops the daemon.
    pub fn stop(&self) -> (res: Plan)
        ensures
            res == plan(self.backend(), Request::Stop),
    {
        match self.kind {
            BackendKind::Systemd => act(Action::Systemctl(Verb::Stop), Plan::Done),
            BackendKind::Runit => ask(
                Action::ServiceLinked,
                ask(Action::Sv(Verb::Stop), Plan::Done, act(Action::TerminateDaemon, Plan::Done)),
                act(Action::TerminateDaemon, Plan::Done),
            ),
            BackendKind::Unmanaged => act(Action::TerminateDaemon, Plan::Done),
        }
    }

    /// Restarts the daemon.
    pub fn restart(&self) -> (res: Plan)
        ensures
            res == plan(self.backend(), Request::Restart),
    {
        match self.kind {
            BackendKind::Systemd => install_systemd_unit(
                act(Action::Systemctl(Verb::Restart), Plan::Done),
            ),
            BackendKind::Runit => ask(
                Action::ServiceLinked,
                ask(
                    Action::Sv(Verb::Restart),
                    Plan::Done,
                    act(Action::TerminateDaemon, act(Action::SpawnDaemon, Plan::Done)),
                ),
                act(Action::TerminateDaemon, act(Action::SpawnDaemon, Plan::Done)),
            ),
            BackendKind::Unmanaged => act(
                Action::TerminateDaemon,
                act(Action::SpawnDaemon, Plan::Done),
            ),
        }
    }

    /// Has the daemon started with the system.
    pub fn enable_autostart(&self) -> (res: Plan)
        ensures
            res == plan(self.backend(), Request::EnableAutostart),
    {
        match self.kind {
            BackendKind::Systemd => install_systemd_unit(
                act(Action::Systemctl(Verb::Enable), Plan::Done),
            ),
            BackendKind::Runit => ask(
                Action::ServiceInstalled,
                ask(
                    Action::ServiceExists,
                    Plan::Done,
                    ask(
                        Action::ServiceEntryPresent,
                        Plan::Done,
                        act(Action::LinkService, Plan::Done),
                    ),
                ),
                Plan::Done,
            ),
            BackendKind::Unmanaged => Plan::Done,
        }
    }

    /// Has the daemon no longer started with the system.
    pub fn disable_autostart(&self) -> (res: Plan)
        ensures
            res == plan(self.backend(), Request::DisableAutostart),
    {
        match self.kind {
            BackendKind::Systemd => act(Action::Systemctl(Verb::Disable), Plan::Done),
            BackendKind::Runit => ask(
                Action::ServiceLinked,
                act(Action::UnlinkService, Plan::Done),
                Plan::Done,
            ),
            BackendKind::Unmanaged => Plan::Done,
        }
    }
}

// ── Command lines and files ──────────────────────────────────────────────────

/// The name of the service.
pub const SERVICE_NAME: &'static str = "th420-display";

/// Where the runit service is installed.
pub const RUNIT_SERVICE_DIR: &'static str = "/etc/sv/th420-display";

/// Where the runit service is active.
pub const RUNIT_ACTIVE_SERVICE: &'static str = "/var/service/th420-display";

/// The texts of command line arguments.
pub open spec fn arg_texts(v: Seq<&'static str>) -> Seq<Seq<char>> {
    Seq::new(v.len(), |i: int| v[i]@)
}

/// The arguments of `systemctl`.
pub open spec fn systemctl_line(verb: Verb) -> Seq<Seq<char>> {
    let name = "th420-display"@;
    match verb {
        Verb::IsActive => seq!["--user"@, "is-active"@, "--quiet"@, name],
        Verb::IsEnabled => seq!["--user"@, "is-enabled"@, name],
        Verb::Start => seq!["--user"@, "start"@, name],
        Verb::Stop => seq!["--user"@, "stop"@, name],
        Verb::Restart => seq!["--user"@, "restart"@, name],
        Verb::Enable => seq!["--user"@, "enable"@, name],
        Verb::Disable => seq!["--user"@, "disable"@, name],
        Verb::Reload => seq!["--user"@, "daemon-reload"@],
    }
}

/// The arguments of `systemctl`.
pub fn systemctl_args(verb: Verb) -> (res: Vec<&'static str>)
    ensures
        arg_texts(res@) == systemctl_line(verb),
{
    let mut res: Vec<&'static str> = Vec::new();
    res.push("--user");
    match verb {
        Verb::IsActive => {
            res.push("is-active");
            res.push("--quiet");
        },
        Verb::IsEnabled => res.push("is-enabled"),
        Verb::Start => res.push("start"),
        Verb::Stop => res.push("stop"),
        Verb::Restart => res.push("restart"),
        Verb::Enable => res.push("enable"),
        Verb::Disable => res.push("disable"),
        Verb::Reload => res.push("daemon-reload"),
    }
    if verb != Verb::Reload {
        res.push("th420-display");
    }
    assert(arg_texts(res@) =~= systemctl_line(verb));
    res
}

/// The word for a verb of `sv`. Only starting, stopping and restarting have one.
pub open spec fn sv_word(verb: Verb) -> Seq<char> {
    match verb {
        Verb::Start => "up"@,
        Verb::Stop => "down"@,
        Verb::Restart => "restart"@,
        _ => "status"@,
    }
}

/// The arguments of `sv`.
pub fn sv_args(verb: Verb) -> (res: Vec<&'static str>)
    ensures
        arg_texts(res@) == seq![sv_word(verb), "/var/service/th420-display"@],
{
    let mut res: Vec<&'static str> = Vec::new();
    match verb {
        Verb::Start => res.push("up"),
        Verb::Stop => res.push("down"),
        Verb::Restart => res.push("restart"),
        _ => res.push("status"),
    }
    res.push("/var/service/th420-display");
    assert(arg_texts(res@) =~= seq![sv_word(verb), "/var/service/th420-display"@]);
    res
}

/// The directory of the user's systemd units.
pub open spec fn unit_dir(config_dir: Option<Seq<char>>) -> Seq<char> {
    paths::join(
        match config_dir {
            Some(d) => d,
            None => ".config"@,
        },
        "systemd/user"@,
    )
}

/// The directory of the user's systemd units.
pub fn systemd_unit_dir(config_dir: Option<&str>) -> (res: String)
    ensures
        res@ == unit_dir(text::opt_str(config_dir)),
{
    let base = match config_dir {
        Some(d) => d,
        None => ".config",
    };
    join_path(base, "systemd/user")
}

/// The unit file of the daemon.
pub open spec fn unit_content(daemon: Seq<char>) -> Seq<char> {
    "[Unit]\nDescription=Thermaltake TH420 V2 LCD display daemon\nAfter=graphical-session.target\n\n[Service]\nExecStart="@
        + daemon + "\nRestart=on-failure\nRestartSec=3\n\n[Install]\nWantedBy=default.target\n"@
}

/// The unit file of the daemon.
pub fn unit_text(daemon: &str) -> (res: String)
    ensures
        res@ == unit_content(daemon@),
{
    let mut res = "[Unit]\nDescription=Thermaltake TH420 V2 LCD display daemon\nAfter=graphical-session.target\n\n[Service]\nExecStart=".to_string();
    res.append(daemon);
    res.append("\nRestart=on-failure\nRestartSec=3\n\n[Install]\nWantedBy=default.target\n");
    res
}

/// Whether the output of `sv status` reports a running service.
pub fn runit_is_running(stdout: &str) -> (res: bool)
    ensures
        res == text::starts_with(text::trim_start(stdout@, CharSet::White), "run:"@),
{
    let chars = chars_of(stdout);
    let t = trimmed_start(chars.as_slice(), CharSet::White);
    stripped(t.as_slice(), "run:").is_some()
}

// ── Processes ────────────────────────────────────────────────────────────────

/// A process: its entry in `/proc` and its command line, whose arguments end
/// with NUL.
#[derive(Clone, Debug)]
pub struct Process {
    pub name: String,
    pub cmdline: String,
}

/// Whether a process is the daemon.
pub open spec fn is_daemon(name: Seq<char>, cmdline: Seq<char>) -> bool {
    text::all_digits(name) && text::ends_with(
        cmdline.take(text::find(cmdline, '\0')),
        "th420-display"@,
    )
}

/// The number of the first process that is the daemon. The search ends there,
/// even if its name is no process number.
pub open spec fn first_daemon(processes: Seq<Process>) -> Option<nat>
    decreases processes.len(),
{
    if processes.len() == 0 {
        None
    } else if is_daemon(processes[0].name@, processes[0].cmdline@) {
        text::bounded_number(processes[0].name@, u32::MAX as nat)
    } else {
        first_daemon(processes.skip(1))
    }
}

fn all_digits_test(chars: &[char]) -> (res: bool)
    ensures
        res == text::all_digits(chars@),
{
    let mut i: usize = 0;
    while i < chars.len()
        invariant
            i <= chars@.len(),
            forall|k: int| 0 <= k < i ==> text::is_digit(#[trigger] chars@[k]),
        decreases chars@.len() - i,
    {
        if !text::digit_test(chars[i]) {
            return false;
        }
        i = i + 1;
    }
    true
}

/// The number of the daemon's process.
pub fn daemon_pid(processes: &[Process]) -> (res: Option<u32>)
    ensures
        match res {
            Some(pid) => first_daemon(processes@) == Some(pid as nat),
            None => first_daemon(processes@) is None,
        },
{
    let mut i: usize = 0;
    assert(processes@.skip(0) =~= processes@);
    while i < processes.len()
        invariant
            i <= processes@.len(),
            first_daemon(processes@) == first_daemon(processes@.skip(i as int)),
        decreases processes@.len() - i,
    {
        let p = &processes[i];
        assert(processes@.skip(i as int)[0] == *p);
        let name = chars_of(p.name.as_str());
        if all_digits_test(name.as_slice()) {
            let line = chars_of(p.cmdline.as_str());
            let end = position_of(line.as_slice(), '\0');
            let first = slice_of(line.as_slice(), 0, end);
            assert(first@ =~= line@.take(end as int));
            if ends_with_text(first.as_slice(), "th420-display") {
                return match read_number(name.as_slice(), u32::MAX as u64) {
                    Some(n) => Some(n as u32),
                    None => None,
                };
            }
        }
        assert(processes@.skip(i as int).skip(1) =~= processes@.skip(i + 1));
        i = i + 1;
    }
    None
}

// ── Laws ─────────────────────────────────────────────────────────────────────

/// The actions that a plan performs if `outcome` gives the outcome of each.
pub open spec fn trace(p: Plan, outcome: spec_fn(Action) -> bool) -> Seq<Action>
    decreases p,
{
    match p {
        Plan::Answer(_) => seq![],
        Plan::Done => seq![],
        Plan::Do { action, next } => seq![action] + trace(*next, outcome),
        Plan::Ask { action, yes, no } => seq![action] + if outcome(action) {
            trace(*yes, outcome)
        } else {
            trace(*no, outcome)
        },
    }
}

/// The answer that a plan ends with.
pub open spec fn answer_of(p: Plan, outcome: spec_fn(Action) -> bool) -> Option<bool>
    decreases p,
{
    match p {
        Plan::Answer(b) => Some(b),
        Plan::Done => None,
        Plan::Do { action, next } => answer_of(*next, outcome),
        Plan::Ask { action, yes, no } => if outcome(action) {
            answer_of(*yes, outcome)
        } else {
            answer_of(*no, outcome)
        },
    }
}

/// A question about the daemon is always answered.
pub proof fn law_questions_are_answered(kind: BackendKind, outcome: spec_fn(Action) -> bool)
    ensures
        answer_of(plan(kind, Request::DaemonRunning), outcome) == Some(
            match kind {
                BackendKind::Systemd => outcome(Action::Systemctl(Verb::IsActive)),
                BackendKind::Runit => outcome(Action::SvRunning) || outcome(Action::DaemonFound),
                BackendKind::Unmanaged => outcome(Action::DaemonFound),
            },
        ),
        answer_of(plan(kind, Request::AutostartEnabled), outcome) == Some(
            match kind {
                BackendKind::Systemd => outcome(Action::Systemctl(Verb::IsEnabled)),
                BackendKind::Runit => outcome(Action::ServiceLinked),
                BackendKind::Unmanaged => false,
            },
        ),
{
    reveal_with_fuel(answer_of, 4);
}

/// An init system without autostart never has it enabled, and enabling and
/// disabling it does nothing.
pub proof fn law_no_autostart_without_support(kind: BackendKind)
    requires
        kind == BackendKind::Unmanaged,
    ensures
        plan(kind, Request::AutostartEnabled) == Plan::Answer(false),
        plan(kind, Request::EnableAutostart) == Plan::Done,
        plan(kind, Request::DisableAutostart) == Plan::Done,
{
}

/// With runit a daemon process is started directly exactly if there is no
/// enabled service or `sv` fails.
pub proof fn law_runit_start_falls_back(outcome: spec_fn(Action) -> bool)
    ensures
        trace(plan(BackendKind::Runit, Request::Start), outcome).contains(Action::SpawnDaemon) == !(
        outcome(Action::ServiceLinked) && outcome(Action::Sv(Verb::Start))),
{
    reveal_with_fuel(trace, 5);
    let t = trace(plan(BackendKind::Runit, Request::Start), outcome);
    if !outcome(Action::ServiceLinked) {
        assert(t =~= seq![Action::ServiceLinked, Action::SpawnDaemon]);
        assert(t[1] == Action::SpawnDaemon);
    } else if !outcome(Action::Sv(Verb::Start)) {
        assert(t =~= seq![Action::ServiceLinked, Action::Sv(Verb::Start), Action::SpawnDaemon]);
        assert(t[2] == Action::SpawnDaemon);
    } else {
        assert(t =~= seq![Action::ServiceLinked, Action::Sv(Verb::Start)]);
    }
}

/// With systemd the service is started only after its unit file has been
/// written.
pub proof fn law_systemd_start_needs_unit(outcome: spec_fn(Action) -> bool)
    ensures
        trace(plan(BackendKind::Systemd, Request::Start), outcome).contains(
            Action::Systemctl(Verb::Start),
        ) == (outcome(Action::MakeUnitDir) && outcome(Action::WriteUnit)),
{
    reveal_with_fuel(trace, 6);
    let t = trace(plan(BackendKind::Systemd, Request::Start), outcome);
    if !outcome(Action::MakeUnitDir) {
        assert(t =~= seq![Action::MakeUnitDir]);
    } else if !outcome(Action::WriteUnit) {
        assert(t =~= seq![Action::MakeUnitDir, Action::WriteUnit]);
    } else {
        assert(t =~= seq![
            Action::MakeUnitDir,
            Action::WriteUnit,
            Action::Systemctl(Verb::Reload),
            Action::Systemctl(Verb::Start),
        ]);
        assert(t[3] == Action::Systemctl(Verb::Start));
    }
}

/// With runit a link is made only where the service is installed and nothing
/// stands in its place.
pub proof fn law_runit_link_overwrites_nothing(outcome: spec_fn(Action) -> bool)
    ensures
        trace(plan(BackendKind::Runit, Request::EnableAutostart), outcome).contains(
            Action::LinkService,
        ) == (outcome(Action::ServiceInstalled) && !outcome(Action::ServiceExists) && !outcome(
            Action::ServiceEntryPresent,
        )),
{
    reveal_with_fuel(trace, 6);
    let t = trace(plan(BackendKind::Runit, Request::EnableAutostart), outcome);
    if !outcome(Action::ServiceInstalled) {
        assert(t =~= seq![Action::ServiceInstalled]);
    } else if outcome(Action::ServiceExists) {
        assert(t =~= seq![Action::ServiceInstalled, Action::ServiceExists]);
    } else if outcome(Action::ServiceEntryPresent) {
        assert(t =~= seq![
            Action::ServiceInstalled,
            Action::ServiceExists,
            Action::ServiceEntryPresent,
        ]);
    } else {
        assert(t =~= seq![
            Action::ServiceInstalled,
            Action::ServiceExists,
            Action::ServiceEntryPresent,
            Action::LinkService,
        ]);
        assert(t[3] == Action::LinkService);
    }
}

// ── Effects ──────────────────────────────────────────────────────────────────

/// What can be seen of the daemon from outside.
#[verifier::ext_equal]
pub struct Daemon {
    /// Whether it is running.
    pub running: bool,
    /// Whether it was started since.
    pub fresh: bool,
    /// Whether it is started with the system.
    pub enabled: bool,
    /// Whether its unit file is in place and known to systemd.
    pub unit: bool,
    pub known: bool,
}

impl Daemon {
    /// After an action that succeeds.
    pub open spec fn after_action(self, a: Action) -> Daemon {
        match a {
            Action::Systemctl(Verb::Start) | Action::Sv(Verb::Start) => Daemon {
                running: true,
                fresh: self.fresh || !self.running,
                ..self
            },
            Action::SpawnDaemon | Action::Systemctl(Verb::Restart) | Action::Sv(
                Verb::Restart,
            ) => Daemon { running: true, fresh: true, ..self },
            Action::TerminateDaemon | Action::Systemctl(Verb::Stop) | Action::Sv(
                Verb::Stop,
            ) => Daemon { running: false, fresh: false, ..self },
            Action::Systemctl(Verb::Enable) | Action::LinkService => Daemon {
                enabled: true,
                ..self
            },
            Action::Systemctl(Verb::Disable) | Action::UnlinkService => Daemon {
                enabled: false,
                ..self
            },
            Action::WriteUnit => Daemon { unit: true, known: false, ..self },
            Action::Systemctl(Verb::Reload) => Daemon { known: self.unit, ..self },
            _ => self,
        }
    }

    /// After a plan in which `outcome` gives the outcome of each action.
    pub open spec fn after(self, p: Plan, outcome: spec_fn(Action) -> bool) -> Daemon
        decreases p,
    {
        match p {
            Plan::Answer(_) => self,
            Plan::Done => self,
            Plan::Do { action, next } => if outcome(action) {
                self.after_action(action).after(*next, outcome)
            } else {
                self.after(*next, outcome)
            },
            Plan::Ask { action, yes, no } => if outcome(action) {
                self.after_action(action).after(*yes, outcome)
            } else {
                self.after(*no, outcome)
            },
        }
    }
}

/// Whether every action that changes something succeeds.
pub open spec fn all_succeed(outcome: spec_fn(Action) -> bool) -> bool {
    &&& forall|v: Verb| #[trigger] outcome(Action::Systemctl(v))
    &&& forall|v: Verb| #[trigger] outcome(Action::Sv(v))
    &&& outcome(Action::MakeUnitDir)
    &&& outcome(Action::WriteUnit)
    &&& outcome(Action::LinkService)
    &&& outcome(Action::UnlinkService)
    &&& outcome(Action::SpawnDaemon)
    &&& outcome(Action::TerminateDaemon)
}

/// Where every action succeeds, a started daemon is running, a stopped one is not,
/// and a restarted one is running anew. Whether it is started with the system
/// stays as it was.
pub proof fn law_requests_take_effect(
    kind: BackendKind,
    d: Daemon,
    outcome: spec_fn(Action) -> bool,
)
    requires
        all_succeed(outcome),
    ensures
        d.after(plan(kind, Request::Start), outcome).running,
        !d.after(plan(kind, Request::Stop), outcome).running,
        d.after(plan(kind, Request::Restart), outcome).running,
        d.after(plan(kind, Request::Restart), outcome).fresh,
        d.after(plan(kind, Request::Start), outcome).enabled == d.enabled,
        d.after(plan(kind, Request::Stop), outcome).enabled == d.enabled,
        d.after(plan(kind, Request::Restart), outcome).enabled == d.enabled,
{
    reveal_with_fuel(Daemon::after, 6);
}

/// With systemd the unit file is in place and known before the service is started,
/// restarted or enabled. Where it cannot be put there, none of that is done.
pub proof fn law_systemd_uses_current_unit(
    request: Request,
    d: Daemon,
    outcome: spec_fn(Action) -> bool,
)
    requires
        request is Start || request is Restart || request is EnableAutostart,
        outcome(Action::Systemctl(Verb::Reload)),
    ensures
        ({
            let after = d.after(plan(BackendKind::Systemd, request), outcome);
            let placed = outcome(Action::MakeUnitDir) && outcome(Action::WriteUnit);
            &&& placed ==> after.unit && after.known
            &&& !placed ==> after.running == d.running && after.fresh == d.fresh && after.enabled
                == d.enabled
        }),
{
    reveal_with_fuel(Daemon::after, 6);
}

/// Autostart: where every action succeeds, systemd has it enabled and disabled as
/// asked for. With runit it is enabled where the service is installed and nothing
/// is in its place, and disabled where there is a link. The daemon itself is left
/// alone.
pub proof fn law_autostart_takes_effect(
    kind: BackendKind,
    d: Daemon,
    outcome: spec_fn(Action) -> bool,
)
    requires
        all_succeed(outcome),
    ensures
        ({
            let on = d.after(plan(kind, Request::EnableAutostart), outcome);
            let off = d.after(plan(kind, Request::DisableAutostart), outcome);
            &&& on.running == d.running && on.fresh == d.fresh
            &&& off.running == d.running && off.fresh == d.fresh
            &&& kind is Systemd ==> on.enabled && !off.enabled
            &&& kind is Runit && outcome(Action::ServiceInstalled) && !outcome(
                Action::ServiceExists,
            ) && !outcome(Action::ServiceEntryPresent) ==> on.enabled
            &&& kind is Runit && (outcome(Action::ServiceExists) || outcome(
                Action::ServiceEntryPresent,
            ) || !outcome(Action::ServiceInstalled)) ==> on.enabled == d.enabled
            &&& kind is Runit && outcome(Action::ServiceLinked) ==> !off.enabled
            &&& kind is Runit && !outcome(Action::ServiceLinked) ==> off.enabled == d.enabled
            &&& kind is Unmanaged ==> on.enabled == d.enabled && off.enabled == d.enabled
        }),
{
    reveal_with_fuel(Daemon::after, 6);
}

/// Asking about the daemon changes nothing.
pub proof fn law_questions_change_nothing(
    kind: BackendKind,
    d: Daemon,
    outcome: spec_fn(Action) -> bool,
)
    ensures
        d.after(plan(kind, Request::DaemonRunning), outcome) == d,
        d.after(plan(kind, Request::AutostartEnabled), outcome) == d,
{
    reveal_with_fuel(Daemon::after, 6);
}

/// With runit, `sv` is used where there is a link, and the daemon process is
/// handled directly where there is none or `sv` fails: never both with success.
pub proof fn law_runit_falls_back(
    request: Request,
    outcome: spec_fn(Action) -> bool,
    verb: Verb,
)
    requires
        (request is Start && verb is Start) || (request is Stop && verb is Stop) || (
        request is Restart && verb is Restart),
    ensures
        ({
            let t = trace(plan(BackendKind::Runit, request), outcome);
            let by_sv = outcome(Action::ServiceLinked) && outcome(Action::Sv(verb));
            &&& t.contains(Action::Sv(verb)) == outcome(Action::ServiceLinked)
            &&& t.contains(Action::SpawnDaemon) == (!by_sv && !(request is Stop))
            &&& t.contains(Action::TerminateDaemon) == (!by_sv && !(request is Start))
            &&& forall|v: Verb| v != verb ==> !(#[trigger] t.contains(Action::Sv(v)))
            &&& forall|v: Verb| !(#[trigger] t.contains(Action::Systemctl(v)))
        }),
{
    reveal_with_fuel(trace, 6);
    let t = trace(plan(BackendKind::Runit, request), outcome);
    let tail = if request is Start {
        seq![Action::SpawnDaemon]
    } else if request is Stop {
        seq![Action::TerminateDaemon]
    } else {
        seq![Action::TerminateDaemon, Action::SpawnDaemon]
    };
    if !outcome(Action::ServiceLinked) {
        assert(t =~= seq![Action::ServiceLinked] + tail);
        assert(t[1] == tail[0] && t[t.len() - 1] == tail[tail.len() - 1]);
    } else if !outcome(Action::Sv(verb)) {
        assert(t =~= seq![Action::ServiceLinked, Action::Sv(verb)] + tail);
        assert(t[1] == Action::Sv(verb));
        assert(t[2] == tail[0] && t[t.len() - 1] == tail[tail.len() - 1]);
    } else {
        assert(t =~= seq![Action::ServiceLinked, Action::Sv(verb)]);
        assert(t[1] == Action::Sv(verb));
    }
}

/// The verb by which systemd is asked to start, restart or enable the service.
pub open spec fn systemd_verb(request: Request) -> Verb {
    match request {
        Request::Start => Verb::Start,
        Request::Restart => Verb::Restart,
        _ => Verb::Enable,
    }
}

/// With systemd the service is started, restarted or enabled by `systemctl`, as
/// asked for, exactly if its unit file could be written, after a reload and by
/// nothing else. It is stopped and disabled in any case.
pub proof fn law_systemd_does_what_is_asked(outcome: spec_fn(Action) -> bool, request: Request)
    requires
        request is Start || request is Restart || request is EnableAutostart,
    ensures
        ({
            let t = trace(plan(BackendKind::Systemd, request), outcome);
            let placed = outcome(Action::MakeUnitDir) && outcome(Action::WriteUnit);
            let verb = systemd_verb(request);
            &&& t.contains(Action::Systemctl(verb)) == placed
            &&& t.contains(Action::Systemctl(Verb::Reload)) == placed
            &&& forall|v: Verb|
                v != verb && v != Verb::Reload ==> !(#[trigger] t.contains(Action::Systemctl(v)))
            &&& placed ==> t.last() == Action::Systemctl(verb)
            &&& !t.contains(Action::SpawnDaemon) && !t.contains(Action::TerminateDaemon)
        }),
        trace(plan(BackendKind::Systemd, Request::Stop), outcome) == seq![
            Action::Systemctl(Verb::Stop),
        ],
        trace(plan(BackendKind::Systemd, Request::DisableAutostart), outcome) == seq![
            Action::Systemctl(Verb::Disable),
        ],
{
    reveal_with_fuel(trace, 6);
    let t = trace(plan(BackendKind::Systemd, request), outcome);
    let verb = systemd_verb(request);
    assert(trace(plan(BackendKind::Systemd, Request::Stop), outcome) =~= seq![
        Action::Systemctl(Verb::Stop),
    ]);
    assert(trace(plan(BackendKind::Systemd, Request::DisableAutostart), outcome) =~= seq![
        Action::Systemctl(Verb::Disable),
    ]);
    if !outcome(Action::MakeUnitDir) {
        assert(t =~= seq![Action::MakeUnitDir]);
    } else if !outcome(Action::WriteUnit) {
        assert(t =~= seq![Action::MakeUnitDir, Action::WriteUnit]);
    } else {
        assert(t =~= seq![
            Action::MakeUnitDir,
            Action::WriteUnit,
            Action::Systemctl(Verb::Reload),
            Action::Systemctl(verb),
        ]);
        assert(t[2] == Action::Systemctl(Verb::Reload));
        assert(t[3] == Action::Systemctl(verb));
    }
}

/// Without an init system the daemon process is handled directly.
pub proof fn law_unmanaged_daemon_is_handled_directly(outcome: spec_fn(Action) -> bool)
    ensures
        trace(plan(BackendKind::Unmanaged, Request::Start), outcome) == seq![Action::SpawnDaemon],
        trace(plan(BackendKind::Unmanaged, Request::Stop), outcome) == seq![
            Action::TerminateDaemon,
        ],
        trace(plan(BackendKind::Unmanaged, Request::Restart), outcome) == seq![
            Action::TerminateDaemon,
            Action::SpawnDaemon,
        ],
{
    reveal_with_fuel(trace, 4);
    assert(trace(plan(BackendKind::Unmanaged, Request::Start), outcome) =~= seq![
        Action::SpawnDaemon,
    ]);
    assert(trace(plan(BackendKind::Unmanaged, Request::Stop), outcome) =~= seq![
        Action::TerminateDaemon,
    ]);
    assert(trace(plan(BackendKind::Unmanaged, Request::Restart), outcome) =~= seq![
        Action::TerminateDaemon,
        Action::SpawnDaemon,
    ]);
}

/// What `systemctl` understands by a word.
pub open spec fn systemctl_verb(word: Seq<char>) -> Option<Verb> {
    if word == "start"@ {
        Some(Verb::Start)
    } else if word == "stop"@ {
        Some(Verb::Stop)
    } else if word == "restart"@ {
        Some(Verb::Restart)
    } else if word == "enable"@ {
        Some(Verb::Enable)
    } else if word == "disable"@ {
        Some(Verb::Disable)
    } else if word == "is-active"@ {
        Some(Verb::IsActive)
    } else if word == "is-enabled"@ {
        Some(Verb::IsEnabled)
    } else if word == "daemon-reload"@ {
        Some(Verb::Reload)
    } else {
        None
    }
}

/// `systemctl` understands what it is asked: its words mean the verb, it works for
/// the user, and, but for a reload, on the service of the daemon.
pub proof fn law_systemctl_understands(verb: Verb)
    ensures
        systemctl_line(verb)[0] == "--user"@,
        systemctl_verb(systemctl_line(verb)[1]) == Some(verb),
        verb != Verb::Reload ==> systemctl_line(verb).last() == "th420-display"@,
        verb == Verb::Reload ==> systemctl_line(verb).len() == 2,
{
    reveal_strlit("start");
    reveal_strlit("stop");
    reveal_strlit("restart");
    reveal_strlit("enable");
    reveal_strlit("disable");
    reveal_strlit("is-active");
    reveal_strlit("is-enabled");
    reveal_strlit("daemon-reload");
    assert("restart"@.len() == 7 && "disable"@.len() == 7 && "restart"@[0] != "disable"@[0]);
    assert("start"@.len() == 5 && "stop"@.len() == 4 && "enable"@.len() == 6);
    assert("is-active"@.len() == 9 && "is-enabled"@.len() == 10 && "daemon-reload"@.len() == 13);
}

/// What `sv` understands by a word.
pub open spec fn sv_verb(word: Seq<char>) -> Option<Verb> {
    if word == "up"@ {
        Some(Verb::Start)
    } else if word == "down"@ {
        Some(Verb::Stop)
    } else if word == "restart"@ {
        Some(Verb::Restart)
    } else {
        None
    }
}

/// `sv` understands what it is asked.
pub proof fn law_sv_understands(verb: Verb)
    ensures
        sv_verb(sv_word(verb)) == (if verb is Start || verb is Stop || verb is Restart {
            Some(verb)
        } else {
            None
        }),
{
    reveal_strlit("up");
    reveal_strlit("down");
    reveal_strlit("restart");
    reveal_strlit("status");
    assert("up"@.len() == 2 && "down"@.len() == 4 && "restart"@.len() == 7 && "status"@.len() == 6);
}

/// The unit file has the daemon in the line that systemd executes.
pub proof fn law_unit_starts_daemon(daemon: Seq<char>)
    ensures
        exists|at: int|
            {
                &&& #[trigger] text::occurs_at(unit_content(daemon), "\nExecStart="@, at)
                &&& text::occurs_at(unit_content(daemon), daemon, at + "\nExecStart="@.len())
                &&& text::occurs_at(
                    unit_content(daemon),
                    "\n"@,
                    at + "\nExecStart="@.len() + daemon.len(),
                )
            },
{
    reveal_strlit("\nExecStart=");
    reveal_strlit("\n");
    reveal_strlit(
        "[Unit]\nDescription=Thermaltake TH420 V2 LCD display daemon\nAfter=graphical-session.target\n\n[Service]\nExecStart=",
    );
    reveal_strlit("\nRestart=on-failure\nRestartSec=3\n\n[Install]\nWantedBy=default.target\n");
    let head =
        "[Unit]\nDescription=Thermaltake TH420 V2 LCD display daemon\nAfter=graphical-session.target\n\n[Service]\nExecStart="@;
    let key = "\nExecStart="@;
    let all = unit_content(daemon);
    let at = head.len() - key.len();
    assert(all.subrange(at, at + key.len()) =~= key);
    assert(all.subrange(at + key.len(), at + key.len() + daemon.len()) =~= daemon);
    assert(all.subrange(
        at + key.len() + daemon.len(),
        at + key.len() + daemon.len() + 1,
    ) =~= "\n"@);
    assert(text::occurs_at(all, key, at));
}

/// The daemon's process is found: where exactly one process is the daemon, its
/// number is given, and where none is, there is none.
pub proof fn law_daemon_is_found(processes: Seq<Process>, i: int)
    requires
        forall|k: int|
            0 <= k < processes.len() && k != i ==> !is_daemon(
                (#[trigger] processes[k]).name@,
                processes[k].cmdline@,
            ),
    ensures
        0 <= i < processes.len() && is_daemon(processes[i].name@, processes[i].cmdline@)
            ==> first_daemon(processes) == text::bounded_number(
            processes[i].name@,
            u32::MAX as nat,
        ),
        !(0 <= i < processes.len()) ==> first_daemon(processes) is None,
    decreases processes.len(),
{
    if processes.len() > 0 && i != 0 {
        let rest = processes.skip(1);
        assert forall|k: int| 0 <= k < rest.len() && k != i - 1 implies !is_daemon(
            (#[trigger] rest[k]).name@,
            rest[k].cmdline@,
        ) by {
            assert(rest[k] == processes[k + 1]);
        }
        assert(!is_daemon(processes[0].name@, processes[0].cmdline@));
        if 0 < i < processes.len() {
            assert(rest[i - 1] == processes[i]);
        }
        law_daemon_is_found(rest, i - 1);
    }
}

// ── The init system ──────────────────────────────────────────────────────────

/// The init system is told by the name of the first process: by the name that the
/// process gives itself, around which there may be padding, and if that names none
/// by the file name of its program.
pub proof fn law_init_system_is_told_by_name(
    comm: Seq<char>,
    exe: Option<Seq<char>>,
    kind: BackendKind,
)
    requires
        kind != BackendKind::Unmanaged,
    ensures
        text::trim(comm, CharSet::Padding) == kind.name_text() ==> backend(Some(comm), exe) == kind,
        exe matches Some(e) ==> (paths::file_name(e) == Some(kind.name_text()) ==> backend(None, exe)
            == kind),
        exe matches Some(e) ==> (paths::file_name(e) == Some(kind.name_text()) && text::trim(
            comm,
            CharSet::Padding,
        ) != "systemd"@ && text::trim(comm, CharSet::Padding) != "runit"@ ==> backend(
            Some(comm),
            exe,
        ) == kind),
        exe matches Some(e) ==> (paths::file_name(e) == Some("init"@) ==> backend(None, exe)
            == BackendKind::Unmanaged),
        backend(None, None) == BackendKind::Unmanaged,
{
    reveal_strlit("systemd");
    reveal_strlit("runit");
    reveal_strlit("init");
    assert("systemd"@.len() == 7 && "runit"@.len() == 5 && "init"@.len() == 4);
}

/// The name of an init system is the name of its program.
pub proof fn law_names_of_init_systems(kind: BackendKind)
    ensures
        backend(Some(kind.name_text()), None) == kind,
        backend(Some(kind.name_text().push('\n')), None) == kind,
{
    reveal_strlit("systemd");
    reveal_strlit("runit");
    reveal_strlit("unmanaged");
    let t = kind.name_text();
    assert(t.len() > 0 && !CharSet::Padding.has(t[0]) && !CharSet::Padding.has(t.last()));
    text::law_trim_of_trimmed(t, CharSet::Padding);
    let e = t.push('\n');
    assert(e.drop_last() =~= t);
    assert(e[0] == t[0]);
    assert(text::trim_start(e, CharSet::Padding) == e);
    assert(text::trim_start(t, CharSet::Padding) == t);
    assert(text::trim_end(e, CharSet::Padding) == text::trim_end(t, CharSet::Padding));
}

} // verus!
