//! The device page: what is known of the display, and the buttons of the
//! daemon.

use crate::diagnostics;
use crate::diagnostics::path_or_dash;
use crate::hidraw::DeviceInfo;
use crate::service_manager;
use crate::service_manager::{BackendKind, Plan, Request, ServiceManager};
use crate::text;
use crate::text::number_text;
use vstd::prelude::*;

verus! {

// ── The display ──────────────────────────────────────────────────────────────

/// A line of the page: what it is about, and what is known of it.
#[derive(Clone, Debug)]
pub struct Row {
    pub name: String,
    pub value: String,
}

/// What rows hold.
pub open spec fn row_texts(v: Seq<Row>) -> Seq<(Seq<char>, Seq<char>)> {
    Seq::new(v.len(), |i: int| (v[i].name@, v[i].value@))
}

/// The lines about the display.
pub open spec fn rows_of(info: DeviceInfo) -> Seq<(Seq<char>, Seq<char>)> {
    seq![
        (
            "Connection"@,
            if info.connected {
                "Connected"@
            } else {
                "Disconnected"@
            },
        ),
        (
            "USB ID"@,
            if info.connected {
                info.vid@ + ":"@ + info.pid@
            } else {
                "264a:233c"@
            },
        ),
        ("Product"@, diagnostics::text_or(text::opt_text(info.product), "Unknown"@)),
        ("Manufacturer"@, diagnostics::text_or(text::opt_text(info.manufacturer), "Unknown"@)),
        ("Revision"@, diagnostics::text_or(text::opt_text(info.revision), "Unknown"@)),
        ("Control HID"@, diagnostics::text_or(text::opt_text(info.control_hidraw), "—"@)),
        ("Image HID"@, diagnostics::text_or(text::opt_text(info.image_hidraw), "—"@)),
    ]
}

fn push_row(rows: &mut Vec<Row>, name: &str, value: String)
    ensures
        row_texts(final(rows)@) == row_texts(old(rows)@).push((name@, value@)),
{
    let ghost before = rows@;
    rows.push(Row { name: name.to_string(), value });
    assert(row_texts(rows@) =~= row_texts(before).push((name@, value@)));
}

fn known(value: &Option<String>) -> (res: String)
    ensures
        res@ == diagnostics::text_or(text::opt_text(*value), "Unknown"@),
{
    match value {
        Some(t) => t.clone(),
        None => "Unknown".to_string(),
    }
}

/// The lines about the display.
pub fn device_rows(info: &DeviceInfo) -> (res: Vec<Row>)
    ensures
        row_texts(res@) == rows_of(*info),
{
    let mut rows: Vec<Row> = Vec::new();
    assert(row_texts(rows@) =~= Seq::empty());
    if info.connected {
        push_row(&mut rows, "Connection", "Connected".to_string());
        let mut id = info.vid.clone();
        id.append(":");
        id.append(info.pid.as_str());
        push_row(&mut rows, "USB ID", id);
    } else {
        push_row(&mut rows, "Connection", "Disconnected".to_string());
        push_row(&mut rows, "USB ID", "264a:233c".to_string());
    }
    push_row(&mut rows, "Product", known(&info.product));
    push_row(&mut rows, "Manufacturer", known(&info.manufacturer));
    push_row(&mut rows, "Revision", known(&info.revision));
    push_row(&mut rows, "Control HID", path_or_dash(&info.control_hidraw));
    push_row(&mut rows, "Image HID", path_or_dash(&info.image_hidraw));
    assert(row_texts(rows@) =~= rows_of(*info));
    rows
}

/// The line about the pump.
pub fn pump_line(rpm: u16) -> (res: String)
    ensures
        res@ == "Pump: "@ + text::decimal(rpm as nat) + " RPM"@,
{
    let mut res = "Pump: ".to_string();
    res.append(number_text(rpm as u64).as_str());
    res.append(" RPM");
    res
}

// ── The daemon ───────────────────────────────────────────────────────────────

/// What is known of the daemon.
#[derive(Clone, Copy, Debug, PartialEq, Eq, Structural)]
pub struct DaemonState {
    pub running: bool,
    pub autostart: bool,
}

/// A button of the daemon.
#[derive(Clone, Copy, Debug, PartialEq, Eq, Structural)]
pub enum DaemonButton {
    Start,
    Stop,
    Restart,
    EnableAutostart,
    DisableAutostart,
}

impl DaemonButton {
    /// What the button asks for.
    pub open spec fn request(self) -> Request {
        match self {
            DaemonButton::Start => Request::Start,
            DaemonButton::Stop => Request::Stop,
            DaemonButton::Restart => Request::Restart,
            DaemonButton::EnableAutostart => Request::EnableAutostart,
            DaemonButton::DisableAutostart => Request::DisableAutostart,
        }
    }
}

/// The buttons that are shown.
pub open spec fn buttons_for(kind: BackendKind, state: DaemonState) -> Seq<DaemonButton> {
    (if state.running {
        seq![DaemonButton::Stop, DaemonButton::Restart]
    } else {
        seq![DaemonButton::Start]
    }) + (if kind == BackendKind::Unmanaged {
        seq![]
    } else if state.autostart {
        seq![DaemonButton::DisableAutostart]
    } else {
        seq![DaemonButton::EnableAutostart]
    })
}

/// What is taken for the state of the daemon once a button has been pressed.
pub open spec fn after_press(state: DaemonState, button: DaemonButton) -> DaemonState {
    match button {
        DaemonButton::Start => DaemonState { running: true, ..state },
        DaemonButton::Stop => DaemonState { running: false, ..state },
        DaemonButton::Restart => state,
        DaemonButton::EnableAutostart => state,
        DaemonButton::DisableAutostart => DaemonState { autostart: false, ..state },
    }
}

/// The buttons that are shown.
pub fn daemon_buttons(manager: &ServiceManager, state: DaemonState) -> (res: Vec<DaemonButton>)
    ensures
        res@ == buttons_for(manager.backend(), state),
{
    let mut res: Vec<DaemonButton> = Vec::new();
    if state.running {
        res.push(DaemonButton::Stop);
        res.push(DaemonButton::Restart);
    } else {
        res.push(DaemonButton::Start);
    }
    if manager.kind().supports_autostart() {
        if state.autostart {
            res.push(DaemonButton::DisableAutostart);
        } else {
            res.push(DaemonButton::EnableAutostart);
        }
    }
    assert(res@ =~= buttons_for(manager.backend(), state));
    res
}

/// What pressing a button leads to.
#[derive(Debug)]
pub struct Press {
    /// What is to be done.
    pub plan: Plan,
    /// What is taken for the state of the daemon.
    pub state: DaemonState,
    /// Whether the autostart setting is to be asked for again.
    pub ask_autostart: bool,
}

/// Presses a button.
pub fn press(manager: &ServiceManager, state: DaemonState, button: DaemonButton) -> (res: Press)
    ensures
        res.plan == service_manager::plan(manager.backend(), button.request()),
        res.state == after_press(state, button),
        res.ask_autostart == (button == DaemonButton::EnableAutostart),
{
    match button {
        DaemonButton::Start => Press {
            plan: manager.start(),
            state: DaemonState { running: true, autostart: state.autostart },
            ask_autostart: false,
        },
        DaemonButton::Stop => Press {
            plan: manager.stop(),
            state: DaemonState { running: false, autostart: state.autostart },
            ask_autostart: false,
        },
        DaemonButton::Restart => Press { plan: manager.restart(), state, ask_autostart: false },
        DaemonButton::EnableAutostart => Press {
            plan: manager.enable_autostart(),
            state,
            ask_autostart: true,
        },
        DaemonButton::DisableAutostart => Press {
            plan: manager.disable_autostart(),
            state: DaemonState { running: state.running, autostart: false },
            ask_autostart: false,
        },
    }
}

/// A daemon that was started can be stopped, and one that was stopped can be
/// started; without an init system that supports it, autostart is not offered.
pub proof fn law_buttons_follow_the_daemon(kind: BackendKind, state: DaemonState)
    ensures
        buttons_for(kind, after_press(state, DaemonButton::Start)).contains(DaemonButton::Stop),
        buttons_for(kind, after_press(state, DaemonButton::Stop)).contains(DaemonButton::Start),
        !buttons_for(kind, state).contains(DaemonButton::Start) || !buttons_for(
            kind,
            state,
        ).contains(DaemonButton::Stop),
        kind == BackendKind::Unmanaged ==> !buttons_for(kind, state).contains(
            DaemonButton::EnableAutostart,
        ) && !buttons_for(kind, state).contains(DaemonButton::DisableAutostart),
{
    let started = buttons_for(kind, after_press(state, DaemonButton::Start));
    let stopped = buttons_for(kind, after_press(state, DaemonButton::Stop));
    assert(started[0] == DaemonButton::Stop);
    assert(stopped[0] == DaemonButton::Start);
}

/// Whether a line is shown with this value.
pub open spec fn shows(rows: Seq<(Seq<char>, Seq<char>)>, name: Seq<char>, value: Seq<char>) -> bool {
    rows.contains((name, value))
}

/// Every line stands beside its own name: what is known of the display is shown,
/// and what is not known is told to be unknown.
pub proof fn law_rows_tell_of_the_display(info: DeviceInfo)
    ensures
        ({
            let rows = rows_of(info);
            &&& info.connected ==> shows(rows, "Connection"@, "Connected"@)
            &&& !info.connected ==> shows(rows, "Connection"@, "Disconnected"@)
            &&& info.connected ==> shows(rows, "USB ID"@, info.vid@ + ":"@ + info.pid@)
            &&& info.product matches Some(t) ==> shows(rows, "Product"@, t@)
            &&& info.product is None ==> shows(rows, "Product"@, "Unknown"@)
            &&& info.manufacturer matches Some(t) ==> shows(rows, "Manufacturer"@, t@)
            &&& info.manufacturer is None ==> shows(rows, "Manufacturer"@, "Unknown"@)
            &&& info.revision matches Some(t) ==> shows(rows, "Revision"@, t@)
            &&& info.revision is None ==> shows(rows, "Revision"@, "Unknown"@)
            &&& info.control_hidraw matches Some(t) ==> shows(rows, "Control HID"@, t@)
            &&& info.image_hidraw matches Some(t) ==> shows(rows, "Image HID"@, t@)
            &&& rows.len() == 7
        }),
{
    let rows = rows_of(info);
    assert(rows.contains(rows[0]));
    assert(rows.contains(rows[1]));
    assert(rows.contains(rows[2]));
    assert(rows.contains(rows[3]));
    assert(rows.contains(rows[4]));
    assert(rows.contains(rows[5]));
    assert(rows.contains(rows[6]));
}

/// A button does what its name says: what it is taken to change is what it asks
/// for, and everything else stays.
pub proof fn law_buttons_ask_for_what_they_show(state: DaemonState, button: DaemonButton)
    ensures
        button.request() == Request::Start <==> button == DaemonButton::Start,
        button.request() == Request::Stop <==> button == DaemonButton::Stop,
        button.request() == Request::Restart <==> button == DaemonButton::Restart,
        button.request() == Request::EnableAutostart <==> button == DaemonButton::EnableAutostart,
        button.request() == Request::DisableAutostart <==> button == DaemonButton::DisableAutostart,
        after_press(state, button).running == (if button == DaemonButton::Start {
            true
        } else if button == DaemonButton::Stop {
            false
        } else {
            state.running
        }),
        after_press(state, button).autostart == (state.autostart && button
            != DaemonButton::DisableAutostart),
{
}

/// Stopping and restarting are offered for a daemon that runs, starting for one
/// that does not; of the two autostart buttons the one that changes something is
/// offered, if the init system supports it.
pub proof fn law_offered_buttons_change_something(kind: BackendKind, state: DaemonState)
    ensures
        ({
            let b = buttons_for(kind, state);
            &&& b.contains(DaemonButton::Start) == !state.running
            &&& b.contains(DaemonButton::Stop) == state.running
            &&& b.contains(DaemonButton::Restart) == state.running
            &&& b.contains(DaemonButton::EnableAutostart) == (kind != BackendKind::Unmanaged
                && !state.autostart)
            &&& b.contains(DaemonButton::DisableAutostart) == (kind != BackendKind::Unmanaged
                && state.autostart)
            &&& b.no_duplicates()
        }),
{
    let b = buttons_for(kind, state);
    let n: int = if state.running {
        2
    } else {
        1
    };
    if state.running {
        assert(b[0] == DaemonButton::Stop && b[1] == DaemonButton::Restart);
    } else {
        assert(b[0] == DaemonButton::Start);
    }
    if kind == BackendKind::Unmanaged {
        assert(b.len() == n);
    } else {
        assert(b.len() == n + 1);
        assert(b[n] == if state.autostart {
            DaemonButton::DisableAutostart
        } else {
            DaemonButton::EnableAutostart
        });
    }
}

} // verus!
