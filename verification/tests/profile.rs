use th420_display::profile::{FileStep, ProfileError, ProfileStore};

fn store() -> ProfileStore {
    ProfileStore::new(Some("/home/u/.config"))
}

fn names(steps: &[FileStep]) -> Vec<String> {
    steps
        .iter()
        .map(|s| match s {
            FileStep::Fail(e) => format!("fail {}", e.message()),
            FileStep::LoadConfig(p) => format!("load {p}"),
            FileStep::MakeDirs(p) => format!("dirs {p}"),
            FileStep::SaveConfig(p) => format!("save {p}"),
            FileStep::RemoveIfPresent(p) => format!("remove {p}"),
            FileStep::Forget(p) => format!("forget {p}"),
            FileStep::WriteText { path, content } => format!("write {path} {content}"),
            FileStep::CopyFile { from, to } => format!("copy {from} {to}"),
        })
        .collect()
}

#[test]
fn profile_names_are_filesystem_safe() {
    assert_eq!(ProfileStore::sanitize_name("Gaming / hot"), "Gaming hot");
    assert_eq!(ProfileStore::sanitize_name("  Hifumi...  "), "Hifumi");
    assert_eq!(ProfileStore::sanitize_name(""), "Profile");
}

#[test]
fn sanitized_names_are_stable() {
    for name in ["a__b", "../../etc/passwd", "né", " - ", "x\u{3000}y", "v1.2_-", "_A  B_"] {
        let once = ProfileStore::sanitize_name(name);
        assert_eq!(ProfileStore::sanitize_name(&once), once);
        assert!(store().profile_path(&once).is_ok());
        assert!(!once.contains('/') && !once.starts_with('.'));
    }
    assert_eq!(ProfileStore::sanitize_name("../../etc/passwd"), "etc_passwd");
    assert_eq!(ProfileStore::sanitize_name("x\u{3000}y"), "x_y");
}

#[test]
fn profiles_are_files_of_their_directory() {
    let s = store();
    assert_eq!(s.dir(), "/home/u/.config/th420-display/profiles");
    assert_eq!(s.clone().active_path(), "/home/u/.config/th420-display/active-profile");
    assert_eq!(
        s.profile_path(" Gaming hot ").unwrap(),
        "/home/u/.config/th420-display/profiles/Gaming hot.toml"
    );
    assert_eq!(ProfileStore::new(None).dir(), "./th420-display/profiles");
    let e = s.profile_path("a/b").unwrap_err();
    assert_eq!(
        e.message(),
        "profile name contains unsupported characters; suggested name: a_b"
    );
    assert!(matches!(e, ProfileError::UnsupportedName(n) if n == "a_b"));
}

#[test]
fn profiles_are_listed_without_regard_to_case() {
    let files: Vec<String> =
        ["b.toml", "A.toml", "notes.txt", "c.TOML", "a.toml", ".toml", "x.y.toml", "toml"]
            .iter()
            .map(|s| s.to_string())
            .collect();
    assert_eq!(ProfileStore::list(&files), ["A", "a", "b", "x.y"]);
    assert!(ProfileStore::list(&[]).is_empty());
}

#[test]
fn saved_profiles_are_listed() {
    let saved = store().save("Gaming hot");
    assert_eq!(
        names(&saved),
        [
            "dirs /home/u/.config/th420-display/profiles",
            "save /home/u/.config/th420-display/profiles/Gaming hot.toml",
        ]
    );
    assert_eq!(ProfileStore::list(&["Gaming hot.toml".to_string()]), ["Gaming hot"]);
}

#[test]
fn profiles_are_loaded_deleted_and_exported() {
    let s = store();
    let file = "/home/u/.config/th420-display/profiles/A.toml";
    let active = "/home/u/.config/th420-display/active-profile";
    assert_eq!(names(&s.load("A")), [format!("load {file}")]);
    assert_eq!(names(&s.delete("A", Some("B"))), [format!("remove {file}")]);
    assert_eq!(
        names(&s.delete("A", Some("A"))),
        [format!("remove {file}"), format!("forget {active}")]
    );
    assert_eq!(names(&s.export("A", "/tmp/x")), [format!("copy {file} /tmp/x")]);
    assert_eq!(
        names(&s.export("?", "/tmp/x")),
        ["fail profile name contains unsupported characters; suggested name: Profile"]
    );
}

#[test]
fn active_profile_reads_back() {
    let s = store();
    let steps = s.set_active("  A ");
    assert_eq!(
        names(&steps),
        [
            "dirs /home/u/.config/th420-display",
            "write /home/u/.config/th420-display/active-profile A",
        ]
    );
    assert_eq!(ProfileStore::active_name(Some("A")).as_deref(), Some("A"));
    assert_eq!(ProfileStore::active_name(Some(" A\n")).as_deref(), Some("A"));
    assert_eq!(ProfileStore::active_name(Some(" \n")), None);
    assert_eq!(ProfileStore::active_name(None), None);
}

#[test]
fn renaming_moves_the_active_mark() {
    let s = store();
    let dir = "/home/u/.config/th420-display";
    assert_eq!(
        names(&s.rename("A", "B", Some("A"))),
        [
            format!("load {dir}/profiles/A.toml"),
            format!("dirs {dir}/profiles"),
            format!("save {dir}/profiles/B.toml"),
            format!("remove {dir}/profiles/A.toml"),
            format!("forget {dir}/active-profile"),
            format!("dirs {dir}"),
            format!("write {dir}/active-profile B"),
        ]
    );
    assert_eq!(s.rename("A", "B", None).len(), 4);
}

#[test]
fn imports_are_named_after_their_file() {
    assert_eq!(ProfileStore::import_name("/tmp/My Profile!.toml").unwrap(), "My Profile");
    assert_eq!(ProfileStore::import_name("plain").unwrap(), "plain");
    let e = ProfileStore::import_name("/tmp/..").unwrap_err();
    assert!(matches!(e, ProfileError::NoFileName));
    assert_eq!(e.message(), "profile has no valid file name");
}
