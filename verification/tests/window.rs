use th420_display::config::Config;
use th420_display::desktop::desktop_entry;
use th420_display::diagnostics::{path_or_dash, Diagnostics, ReportedValue};
use th420_display::input::{Keys, Page};
use th420_display::schedule::Watched;

fn keys() -> Keys {
    Keys {
        ctrl: false,
        shift: false,
        z: false,
        y: false,
        left: false,
        right: false,
        up: false,
        down: false,
    }
}

#[test]
fn shortcuts_undo_and_redo() {
    let undo = Keys { ctrl: true, z: true, ..keys() };
    assert!(undo.wants_undo() && !undo.wants_redo());
    let redo = Keys { ctrl: true, shift: true, z: true, ..keys() };
    assert!(!redo.wants_undo() && redo.wants_redo());
    let redo = Keys { ctrl: true, y: true, ..keys() };
    assert!(!redo.wants_undo() && redo.wants_redo());
    let plain = Keys { z: true, y: true, ..keys() };
    assert!(!plain.wants_undo() && !plain.wants_redo());
}

#[test]
fn arrow_keys_move_by_pixels() {
    assert_eq!(keys().arrow_step(), (0, 0));
    assert_eq!(Keys { left: true, down: true, ..keys() }.arrow_step(), (-1, 1));
    assert_eq!(Keys { right: true, up: true, shift: true, ..keys() }.arrow_step(), (5, -5));
    assert_eq!(Keys { left: true, right: true, ..keys() }.arrow_step(), (0, 0));
}

#[test]
fn pages_have_titles() {
    assert_eq!(Page::Device.title(), "Device");
    assert_eq!(Page::Diagnostics.title(), "Diagnostics");
    assert!(Page::Sensors.has_preview() && !Page::Device.has_preview());
    assert!(Page::Device.has_reset() && !Page::Media.has_reset());
}

#[test]
fn desktop_entry_names_program_and_icon() {
    assert_eq!(
        desktop_entry("/bin/x", "/i.png"),
        "[Desktop Entry]\nVersion=1.0\nName=TH420 Display Config\n\
         Comment=CPU/GPU monitor configurator for Thermaltake TH420 V2 LCD\n\
         Exec=/bin/x\nIcon=/i.png\nType=Application\nCategories=System;Monitor;\n\
         Terminal=false\nStartupNotify=true\nStartupWMClass=th420-config\n"
    );
}

#[test]
fn diagnostics_are_complete_and_sorted() {
    let reading = |name: &str, value: &str| ReportedValue {
        name: name.to_string(),
        value: value.to_string(),
    };
    let mut d = Diagnostics {
        connected: true,
        vid: "264a".to_string(),
        pid: "233c".to_string(),
        product: None,
        revision: Some("0100".to_string()),
        control_hid: Some("/dev/hidraw3".to_string()),
        image_hid: None,
        manager: "systemd".to_string(),
        daemon_running: false,
        autostart: true,
        daemon_binary: "/bin/th420-display".to_string(),
        config_path: "/c/config.toml".to_string(),
        profile: None,
        unsaved_changes: false,
        coolant: Some("26.0".to_string()),
        pump_rpm: Some(2320),
        readings: vec![reading("gpu_temp", "60.00"), reading("cpu_temp", "55.00")],
        job: Some("Set brightness".to_string()),
        last_error: Some("a\nb".to_string()),
    };
    assert_eq!(
        d.report(),
        "TH420 Display diagnostics\n\n\
         device.connected=true\ndevice.usb_id=264a:233c\ndevice.product=unknown\n\
         device.revision=0100\ndevice.control_hid=/dev/hidraw3\ndevice.image_hid=—\n\
         service.manager=systemd\nservice.daemon_running=false\nservice.autostart=true\n\
         runtime.daemon_binary=/bin/th420-display\nruntime.config=/c/config.toml\n\
         runtime.profile=none\nruntime.unsaved_changes=false\n\
         device.coolant_c=26.0\ndevice.pump_rpm=2320\n\
         \nsensors:\n  cpu_temp=55.00\n  gpu_temp=60.00\n\
         runtime.device_job=Set brightness\nruntime.last_error=a | b\n"
    );
    d.coolant = None;
    d.pump_rpm = None;
    d.job = None;
    d.last_error = None;
    d.readings.clear();
    assert!(d.report().ends_with("runtime.unsaved_changes=false\n\nsensors:\n"));
    assert_eq!(path_or_dash(&None), "—");
    assert_eq!(path_or_dash(&Some("/dev/x".to_string())), "/dev/x");
}

#[test]
fn configuration_is_reloaded_when_its_stamp_changes() {
    let mut w = Watched { config: Config::with_cpu_label("first"), stamp: Some(5) };
    assert!(!w.reload_due(Some(5)));
    assert!(w.reload_due(Some(6)) && w.reload_due(None));
    assert!(!w.update(Some(5), Some(Config::with_cpu_label("second"))));
    assert!(!w.update(Some(6), None));
    assert_eq!(w.stamp, Some(5));
    assert!(w.update(Some(6), Some(Config::with_cpu_label("second"))));
    assert_eq!(w.stamp, Some(6));
    assert!(w.config.equals(&Config::with_cpu_label("second")));
    assert!(!w.reload_due(Some(6)));
    assert!(w.update(None, Some(Config::with_cpu_label("third"))));
    assert!(!w.reload_due(None));
}
