use th420_display::service_manager::{
    backend_from_pid1, daemon_pid, runit_is_running, sv_args, systemctl_args, systemd_unit_dir,
    unit_text, Action, BackendKind, Plan, Process, ServiceManager, Verb, RUNIT_ACTIVE_SERVICE,
    RUNIT_SERVICE_DIR, SERVICE_NAME,
};

/// Carries a plan out with the given outcomes: the actions taken and the answer.
fn run(plan: &Plan, outcome: &dyn Fn(Action) -> bool) -> (Vec<Action>, Option<bool>) {
    let mut taken = Vec::new();
    let mut at = plan;
    loop {
        match at {
            Plan::Answer(b) => return (taken, Some(*b)),
            Plan::Done => return (taken, None),
            Plan::Do { action, next } => {
                taken.push(*action);
                at = next;
            }
            Plan::Ask { action, yes, no } => {
                taken.push(*action);
                at = if outcome(*action) { yes } else { no };
            }
        }
    }
}

fn all_fine(_: Action) -> bool {
    true
}

fn all_fails(_: Action) -> bool {
    false
}

#[test]
fn pid1_comm_selects_supported_backends() {
    assert_eq!(backend_from_pid1(Some("systemd\n"), None), BackendKind::Systemd);
    assert_eq!(backend_from_pid1(Some("runit\0"), None), BackendKind::Runit);
}

#[test]
fn pid1_exe_is_used_when_comm_is_missing_or_unknown() {
    assert_eq!(
        backend_from_pid1(None, Some("/usr/lib/systemd/systemd")),
        BackendKind::Systemd
    );
    assert_eq!(backend_from_pid1(Some("init"), Some("/sbin/runit")), BackendKind::Runit);
}

#[test]
fn unsupported_or_malformed_pid1_uses_unmanaged() {
    assert_eq!(backend_from_pid1(Some(""), None), BackendKind::Unmanaged);
    assert_eq!(
        backend_from_pid1(Some("busybox"), Some("/sbin/init")),
        BackendKind::Unmanaged
    );
}

#[test]
fn unmanaged_backend_has_no_autostart() {
    let manager = ServiceManager::for_kind(BackendKind::Unmanaged);
    assert!(!manager.kind().supports_autostart());
    let (actions, answer) = run(&manager.autostart_enabled(), &all_fine);
    assert!(actions.is_empty());
    assert!(!answer.unwrap());
}

#[test]
fn backends_have_names() {
    let manager = ServiceManager::detect(Some("runit"), Some("/lib/systemd/systemd"));
    assert_eq!(manager.kind().name(), "runit");
    assert_eq!(BackendKind::Systemd.name(), "systemd");
    assert_eq!(BackendKind::Unmanaged.name(), "unmanaged");
    assert!(BackendKind::Runit.supports_autostart());
}

#[test]
fn questions_are_answered() {
    for kind in [BackendKind::Systemd, BackendKind::Runit, BackendKind::Unmanaged] {
        let m = ServiceManager::for_kind(kind);
        assert_eq!(run(&m.daemon_running(), &all_fine).1, Some(true));
        assert_eq!(run(&m.daemon_running(), &all_fails).1, Some(false));
        assert_eq!(
            run(&m.autostart_enabled(), &all_fine).1,
            Some(kind != BackendKind::Unmanaged)
        );
        assert_eq!(run(&m.autostart_enabled(), &all_fails).1, Some(false));
        for plan in [m.start(), m.stop(), m.restart(), m.enable_autostart(), m.disable_autostart()] {
            assert_eq!(run(&plan, &all_fine).1, None);
        }
    }
}

#[test]
fn runit_falls_back_to_the_daemon_itself() {
    let m = ServiceManager::for_kind(BackendKind::Runit);
    assert_eq!(
        run(&m.start(), &all_fine).0,
        [Action::ServiceLinked, Action::Sv(Verb::Start)]
    );
    assert_eq!(
        run(&m.start(), &all_fails).0,
        [Action::ServiceLinked, Action::SpawnDaemon]
    );
    let linked = |a: Action| a == Action::ServiceLinked;
    assert_eq!(
        run(&m.restart(), &linked).0,
        [
            Action::ServiceLinked,
            Action::Sv(Verb::Restart),
            Action::TerminateDaemon,
            Action::SpawnDaemon
        ]
    );
    assert_eq!(
        run(&m.stop(), &linked).0,
        [Action::ServiceLinked, Action::Sv(Verb::Stop), Action::TerminateDaemon]
    );
    assert_eq!(
        run(&m.daemon_running(), &|a: Action| a == Action::DaemonFound).1,
        Some(true)
    );
}

#[test]
fn systemd_starts_only_with_its_unit() {
    let m = ServiceManager::for_kind(BackendKind::Systemd);
    assert_eq!(
        run(&m.start(), &all_fine).0,
        [
            Action::MakeUnitDir,
            Action::WriteUnit,
            Action::Systemctl(Verb::Reload),
            Action::Systemctl(Verb::Start)
        ]
    );
    assert_eq!(run(&m.start(), &all_fails).0, [Action::MakeUnitDir]);
    assert_eq!(
        run(&m.enable_autostart(), &|a: Action| a == Action::MakeUnitDir).0,
        [Action::MakeUnitDir, Action::WriteUnit]
    );
    assert_eq!(run(&m.stop(), &all_fails).0, [Action::Systemctl(Verb::Stop)]);
    assert_eq!(run(&m.disable_autostart(), &all_fine).0, [Action::Systemctl(Verb::Disable)]);
}

#[test]
fn runit_links_overwrite_nothing() {
    let m = ServiceManager::for_kind(BackendKind::Runit);
    let installed = |a: Action| a == Action::ServiceInstalled;
    assert!(run(&m.enable_autostart(), &installed).0.contains(&Action::LinkService));
    assert!(!run(&m.enable_autostart(), &all_fine).0.contains(&Action::LinkService));
    let dangling =
        |a: Action| a == Action::ServiceInstalled || a == Action::ServiceEntryPresent;
    assert!(!run(&m.enable_autostart(), &dangling).0.contains(&Action::LinkService));
    assert!(!run(&m.disable_autostart(), &all_fails).0.contains(&Action::UnlinkService));
    assert!(run(&m.disable_autostart(), &all_fine).0.contains(&Action::UnlinkService));
}

#[test]
fn commands_have_their_arguments() {
    assert_eq!(
        systemctl_args(Verb::IsActive),
        ["--user", "is-active", "--quiet", "th420-display"]
    );
    assert_eq!(systemctl_args(Verb::IsEnabled), ["--user", "is-enabled", "th420-display"]);
    assert_eq!(systemctl_args(Verb::Start), ["--user", "start", "th420-display"]);
    assert_eq!(systemctl_args(Verb::Stop), ["--user", "stop", "th420-display"]);
    assert_eq!(systemctl_args(Verb::Restart), ["--user", "restart", "th420-display"]);
    assert_eq!(systemctl_args(Verb::Enable), ["--user", "enable", "th420-display"]);
    assert_eq!(systemctl_args(Verb::Disable), ["--user", "disable", "th420-display"]);
    assert_eq!(systemctl_args(Verb::Reload), ["--user", "daemon-reload"]);
    assert_eq!(sv_args(Verb::Start), ["up", "/var/service/th420-display"]);
    assert_eq!(sv_args(Verb::Stop), ["down", "/var/service/th420-display"]);
    assert_eq!(sv_args(Verb::Restart), ["restart", "/var/service/th420-display"]);
    assert_eq!(sv_args(Verb::IsActive), ["status", "/var/service/th420-display"]);
    assert_eq!(SERVICE_NAME, "th420-display");
    assert_eq!(RUNIT_SERVICE_DIR, "/etc/sv/th420-display");
    assert_eq!(RUNIT_ACTIVE_SERVICE, "/var/service/th420-display");
}

#[test]
fn unit_file_starts_the_daemon() {
    assert_eq!(
        unit_text("/usr/bin/th420-display"),
        "[Unit]\nDescription=Thermaltake TH420 V2 LCD display daemon\n\
         After=graphical-session.target\n\n\
         [Service]\nExecStart=/usr/bin/th420-display\nRestart=on-failure\nRestartSec=3\n\n\
         [Install]\nWantedBy=default.target\n"
    );
    assert_eq!(systemd_unit_dir(Some("/c")), "/c/systemd/user");
    assert_eq!(systemd_unit_dir(None), ".config/systemd/user");
}

#[test]
fn daemon_is_found_by_its_command() {
    let process = |name: &str, cmdline: &str| Process {
        name: name.to_string(),
        cmdline: cmdline.to_string(),
    };
    let processes = vec![
        process("self", "/usr/bin/th420-display\0"),
        process("12", "/usr/bin/th420-display-config\0"),
        process("345", "/usr/bin/th420-display\0--interval\0800\0"),
        process("678", "th420-display\0"),
    ];
    assert_eq!(daemon_pid(&processes), Some(345));
    assert_eq!(daemon_pid(&processes[..2]), None);
    assert_eq!(daemon_pid(&[process("1", "sh\0th420-display\0")]), None);
    assert!(runit_is_running(" \nrun: /var/service/th420-display: (pid 4)"));
    assert!(!runit_is_running("down: x; run: y"));
}
