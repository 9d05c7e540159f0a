use std::collections::HashMap;
use th420_display::config::Config;
use th420_display::device_page::{
    daemon_buttons, device_rows, press, pump_line, DaemonButton, DaemonState,
};
use th420_display::hidraw::DeviceInfo;
use th420_display::media::{gif_info, GifInfo, RawFrame};
use th420_display::media_page::{
    show_gif_info, shown_name, Inspection, MediaJob, MediaPage,
};
use th420_display::profile::{FileStep, ProfileStore};
use th420_display::profiles_page::{ProfileTask, ProfilesPage};
use th420_display::schedule::{due, preview_due, small_preview_due, Ages, Due};
use th420_display::service_manager::{BackendKind, ServiceManager};
use th420_display::single::Single;

const SECOND: u64 = 1_000_000_000;

#[test]
fn parts_are_refreshed_in_time() {
    let all = |ns: u64| Ages { sensors: ns, daemon: ns, autostart: ns, device: ns };
    let none = Due { sensors: false, daemon: false, autostart: false, device: false };
    assert_eq!(due(&all(SECOND)), none);
    assert_eq!(due(&all(SECOND + 1)), Due { sensors: true, ..none });
    assert_eq!(due(&all(2 * SECOND + 1)), Due { sensors: true, daemon: true, ..none });
    let most = Due { autostart: false, sensors: true, daemon: true, device: true };
    assert_eq!(due(&all(5 * SECOND)), most);
    assert!(due(&all(5 * SECOND + 1)).autostart);
}

#[test]
fn preview_is_drawn_when_needed() {
    let config = Config::with_cpu_label("CPU");
    let mut other = config.copy();
    other.rotation = Single::whole(90);
    assert!(preview_due(false, Some(&config), &config, 0));
    assert!(preview_due(true, None, &config, 0));
    assert!(preview_due(true, Some(&other), &config, 0));
    assert!(preview_due(true, Some(&config), &config, SECOND + 1));
    assert!(!preview_due(true, Some(&config), &config, SECOND));
    assert!(small_preview_due(true, false, 800_000_001));
    assert!(!small_preview_due(true, false, 800_000_000));
    assert!(small_preview_due(true, true, 0) && small_preview_due(false, false, 0));
}

#[test]
fn display_is_described() {
    let mut info = DeviceInfo {
        connected: true,
        vid: "264a".to_string(),
        pid: "233c".to_string(),
        product: Some("TH420".to_string()),
        manufacturer: None,
        serial: None,
        revision: None,
        control_hidraw: Some("/dev/hidraw3".to_string()),
        image_hidraw: None,
    };
    let rows = |info: &DeviceInfo| -> Vec<(String, String)> {
        device_rows(info).into_iter().map(|r| (r.name, r.value)).collect()
    };
    let pair = |a: &str, b: &str| (a.to_string(), b.to_string());
    assert_eq!(
        rows(&info),
        [
            pair("Connection", "Connected"),
            pair("USB ID", "264a:233c"),
            pair("Product", "TH420"),
            pair("Manufacturer", "Unknown"),
            pair("Revision", "Unknown"),
            pair("Control HID", "/dev/hidraw3"),
            pair("Image HID", "—"),
        ]
    );
    info.connected = false;
    info.vid = "x".to_string();
    assert_eq!(rows(&info)[..2], [pair("Connection", "Disconnected"), pair("USB ID", "264a:233c")]);
    assert_eq!(pump_line(2320), "Pump: 2320 RPM");
}

#[test]
fn buttons_follow_the_daemon() {
    let systemd = ServiceManager::for_kind(BackendKind::Systemd);
    let stopped = DaemonState { running: false, autostart: false };
    assert_eq!(
        daemon_buttons(&systemd, stopped),
        [DaemonButton::Start, DaemonButton::EnableAutostart]
    );
    let started = press(&systemd, stopped, DaemonButton::Start);
    assert_eq!(started.plan, systemd.start());
    assert!(started.state.running && !started.ask_autostart);
    assert_eq!(
        daemon_buttons(&systemd, DaemonState { autostart: true, ..started.state }),
        [DaemonButton::Stop, DaemonButton::Restart, DaemonButton::DisableAutostart]
    );
    let enabled = press(&systemd, started.state, DaemonButton::EnableAutostart);
    assert!(enabled.ask_autostart);
    assert_eq!(enabled.state, started.state);
    assert_eq!(enabled.plan, systemd.enable_autostart());
    let on = DaemonState { running: true, autostart: true };
    let disabled = press(&systemd, on, DaemonButton::DisableAutostart);
    assert_eq!(disabled.state, DaemonState { running: true, autostart: false });
    assert_eq!(press(&systemd, on, DaemonButton::Restart).state, on);
    assert!(!press(&systemd, on, DaemonButton::Stop).state.running);
    let unmanaged = ServiceManager::for_kind(BackendKind::Unmanaged);
    assert_eq!(daemon_buttons(&unmanaged, stopped), [DaemonButton::Start]);
}

fn info_of(delays: &[u32]) -> GifInfo {
    let frames: Vec<RawFrame> = delays
        .iter()
        .map(|&ms| RawFrame { width: 0, height: 0, rgba: vec![], numer: ms, denom: 1 })
        .collect();
    gif_info(&frames, 2048).unwrap()
}

#[test]
fn media_jobs_need_their_media() {
    let color = [255, 0, 16];
    let mut page = MediaPage::new();
    let brightness = page.start(MediaJob::Brightness, color, true, false).unwrap();
    assert_eq!(brightness.label, "Set brightness");
    assert_eq!(brightness.args, ["--standby-brightness", "80"]);
    assert!(page.start(MediaJob::Brightness, color, false, false).is_none());
    assert!(page.start(MediaJob::Brightness, color, true, true).is_none());
    for job in [MediaJob::Standby, MediaJob::Boot, MediaJob::LiveGif, MediaJob::LiveFrames] {
        assert!(page.start(job, color, true, false).is_none());
    }
    page.choose_standby(Some("/p/a.png"));
    let standby = page.start(MediaJob::Standby, color, true, false).unwrap();
    assert_eq!(standby.label, "Upload standby image");
    assert_eq!(
        standby.args,
        ["--upload-standby", "/p/a.png", "--pump-temp-color", "#ff0010"]
    );
    page.choose_standby(None);
    assert!(!page.ready(MediaJob::Standby));
    page.choose_live_gif(Some("b.gif"), Inspection::Unreadable("broken".to_string()));
    page.live_forever = true;
    let live = page.start(MediaJob::LiveGif, color, true, false).unwrap();
    assert_eq!(live.label, "Play live GIF");
    assert_eq!(live.args[3], "0");
    page.choose_frames(vec!["x.png".to_string()]);
    page.live_forever = false;
    let frames = page.start(MediaJob::LiveFrames, color, true, false).unwrap();
    assert_eq!(frames.label, "Play frame sequence");
    assert_eq!(frames.args[..4], ["--play-live-frames", "x.png", "--live-fps", "24"]);
}

#[test]
fn boot_animations_must_fit() {
    let mut page = MediaPage::new();
    for (delays, fits) in [(vec![100, 100], true), (vec![100, 90], false), (vec![70], false)] {
        page.choose_boot(Some("b.gif"), Inspection::Readable(info_of(&delays)));
        assert_eq!(page.ready(MediaJob::Boot), fits);
        let warnings = show_gif_info(&page.boot_info, true).iter().filter(|l| l.warning).count();
        assert_eq!(warnings == 0, fits);
    }
    page.choose_boot(Some("b.gif"), Inspection::Readable(info_of(&[100])));
    let boot = page.start(MediaJob::Boot, [0; 3], true, false).unwrap();
    assert_eq!(boot.label, "Upload boot animation");
    assert_eq!(boot.args, ["--upload-boot", "b.gif"]);
    page.choose_boot(None, Inspection::Readable(info_of(&[100])));
    assert!(matches!(page.boot_info, Inspection::Nothing));
}

#[test]
fn animations_are_shown_with_warnings() {
    let info = Inspection::Readable(info_of(&[70, 100]));
    let texts = |boot: bool| -> Vec<String> {
        show_gif_info(&info, boot).into_iter().map(|l| l.text).collect()
    };
    assert_eq!(texts(false), ["2 frames · 2 KiB", "Variable delays: 70–100 ms"]);
    assert_eq!(texts(true).len(), 4);
    let bad = show_gif_info(&Inspection::Unreadable("broken".to_string()), false);
    assert!(bad[0].warning && bad[0].text == "broken");
    assert!(show_gif_info(&Inspection::Nothing, true).is_empty());
    assert_eq!(shown_name("/p/a.png", "(image)"), "a.png");
    assert_eq!(shown_name("/..", "(image)"), "(image)");
}

#[test]
fn dropped_files_find_their_place() {
    let mut page = MediaPage::new();
    page.drop_file("/d/x.GIF", Inspection::Unreadable("e".to_string()), true);
    assert_eq!(page.live_gif.as_deref(), Some("/d/x.GIF"));
    assert!(matches!(page.live_info, Inspection::Unreadable(_)));
    assert_eq!(page.standby, None);
    page.drop_file("/d/notes.txt", Inspection::Nothing, false);
    assert_eq!(page.standby, None);
    page.drop_file("/d/y.png", Inspection::Nothing, true);
    assert_eq!(page.standby.as_deref(), Some("/d/y.png"));
    assert_eq!(page.live_gif.as_deref(), Some("/d/x.GIF"));
}

fn files(names: &[&str]) -> Vec<String> {
    names.iter().map(|s| s.to_string()).collect()
}

#[test]
fn active_profile_is_selected() {
    let page = ProfilesPage::new(&files(&["b.toml", "A.toml"]), Some("b"));
    assert_eq!(page.names, ["A", "b"]);
    assert_eq!(page.selected.as_deref(), Some("b"));
    let page = ProfilesPage::new(&files(&["A.toml"]), Some("b"));
    assert_eq!(page.selected, None);
    assert_eq!(page.export_name(), None);
}

#[test]
fn profiles_are_created_renamed_and_deleted() {
    let mut page = ProfilesPage::new(&[], None);
    assert!(!page.can_rename());
    page.name_edit = " Gaming / hot ".to_string();
    assert!(!page.can_rename());
    let name = page.new_name();
    assert_eq!(name, "Gaming hot");
    page.created(&name, &files(&["Gaming hot.toml"]));
    assert_eq!(page.names, ["Gaming hot"]);
    assert_eq!(page.selected.as_deref(), Some("Gaming hot"));
    assert_eq!(page.name_edit, "Gaming hot");
    assert_eq!(page.export_name().as_deref(), Some("Gaming hot.toml"));
    assert!(page.can_rename());
    page.name_edit = "  ".to_string();
    assert!(!page.can_rename());
    page.arrived("Cool", &files(&["Cool.toml", "x.txt"]));
    assert_eq!(page.names, ["Cool"]);
    assert_eq!(page.selected.as_deref(), Some("Cool"));
    page.ask_delete();
    assert_eq!(page.confirm_delete.as_deref(), Some("Cool"));
    page.end_delete();
    assert_eq!(page.confirm_delete, None);
    page.ask_delete();
    page.deleted("Other", &files(&["Cool.toml"]));
    assert_eq!(page.selected.as_deref(), Some("Cool"));
    page.deleted("Cool", &[]);
    assert_eq!(page.selected, None);
    assert!(page.names.is_empty());
    page.select("Z");
    page.refresh(&files(&["Z.toml"]));
    assert_eq!(page.names, ["Z"]);
    assert_eq!(page.selected.as_deref(), Some("Z"));
}

#[test]
fn failures_are_explained() {
    for (task, text) in [
        (ProfileTask::Load, "Failed to load profile: why"),
        (ProfileTask::Create, "Failed to create profile: why"),
        (ProfileTask::Rename, "Failed to rename profile: why"),
        (ProfileTask::Import, "Profile import failed: why"),
        (ProfileTask::Export, "Profile export failed: why"),
        (ProfileTask::Delete, "Failed to delete profile: why"),
        (ProfileTask::Apply, "Failed to save config: why"),
        (ProfileTask::Update, "Config applied, but profile update failed: why"),
    ] {
        assert_eq!(task.failure("why"), text);
    }
}

/// Files in memory: configurations and texts by path.
struct Disk {
    configs: HashMap<String, Config>,
    notes: HashMap<String, String>,
    current: Config,
}

impl Disk {
    fn run(&mut self, steps: Vec<FileStep>) -> bool {
        for step in steps {
            match step {
                FileStep::Fail(_) => return false,
                FileStep::LoadConfig(p) => match self.configs.get(&p) {
                    Some(c) => {
                        self.current = c.copy();
                        self.current.migrate_sensors("CPU");
                    }
                    None => return false,
                },
                FileStep::MakeDirs(_) => {}
                FileStep::SaveConfig(p) => {
                    self.configs.insert(p, self.current.copy());
                }
                FileStep::RemoveIfPresent(p) => {
                    self.configs.remove(&p);
                }
                FileStep::Forget(p) => {
                    self.notes.remove(&p);
                }
                FileStep::WriteText { path, content } => {
                    self.notes.insert(path, content);
                }
                FileStep::CopyFile { from, to } => match self.configs.get(&from) {
                    Some(c) => {
                        let c = c.copy();
                        self.configs.insert(to, c);
                    }
                    None => return false,
                },
            }
        }
        true
    }

    fn active(&self, store: &ProfileStore) -> Option<String> {
        ProfileStore::active_name(self.notes.get(&store.active_path()).map(|s| s.as_str()))
    }
}

fn disk(rotation: u32) -> Disk {
    let mut current = Config::with_cpu_label("CPU");
    current.rotation = Single::whole(rotation);
    Disk { configs: HashMap::new(), notes: HashMap::new(), current }
}

#[test]
fn stored_profiles_come_back() {
    let store = ProfileStore::new(Some("/c"));
    let mut d = disk(90);
    d.current.sensors.truncate(3);
    assert!(d.run(store.save("A")));
    d.current = Config::with_cpu_label("CPU");
    assert!(d.run(store.load("A")));
    assert_eq!(d.current.rotation.bits, 90.0f32.to_bits());
    assert_eq!(d.current.sensors.len(), 20);
    assert!(!d.run(store.load("B")));
    assert!(!d.run(store.save("a/b")));
    assert_eq!(d.configs.len(), 1);
}

#[test]
fn renamed_profiles_move() {
    let store = ProfileStore::new(Some("/c"));
    let mut d = disk(90);
    assert!(d.run(store.save("A")) && d.run(store.set_active("A")));
    assert_eq!(d.active(&store).as_deref(), Some("A"));
    let active = d.active(&store);
    assert!(d.run(store.rename("A", "B", active.as_deref())));
    assert!(!d.configs.contains_key(&store.profile_path("A").unwrap()));
    assert!(d.configs.contains_key(&store.profile_path("B").unwrap()));
    assert_eq!(d.active(&store).as_deref(), Some("B"));
    let active = d.active(&store);
    assert!(d.run(store.delete("B", active.as_deref())));
    assert!(d.configs.is_empty());
    assert_eq!(d.active(&store), None);
    assert!(!d.run(store.rename("A", "B", None)));
}

#[test]
fn profiles_are_imported_exported_and_applied() {
    let store = ProfileStore::new(Some("/c"));
    let mut d = disk(45);
    d.configs.insert("/tmp/My Profile!.toml".to_string(), d.current.copy());
    assert!(d.run(store.import("/tmp/My Profile!.toml")));
    assert!(d.configs.contains_key(&store.profile_path("My Profile").unwrap()));
    assert!(!d.run(store.import("/tmp/missing.toml")));
    d.configs.insert("/tmp/..".to_string(), d.current.copy());
    assert!(!d.run(store.import("/tmp/..")));
    assert!(d.run(store.export("My Profile", "/tmp/out.toml")));
    assert!(d.configs.contains_key("/tmp/out.toml"));

    let mut page = ProfilesPage::new(&files(&["My Profile.toml"]), None);
    assert!(page.apply(&store).is_empty());
    page.select("My Profile");
    d.current.rotation = Single::whole(7);
    assert!(d.run(page.apply(&store)));
    assert_eq!(d.active(&store).as_deref(), Some("My Profile"));
    let path = store.profile_path("My Profile").unwrap();
    assert_eq!(d.configs[&path].rotation.bits, 7.0f32.to_bits());
}
