//! What requests do to the stored profiles.
//!
//! A request is a list of file operations. This module says what each of them
//! does to the files, and proves what the requests amount to.

use crate::config;
use crate::paths;
use crate::profile;
use crate::profile::{FileStepView, StoreView};
use crate::text;
use crate::text::CharSet;
use vstd::prelude::*;

verus! {

/// The stored configurations and texts by path, the current configuration, and
/// whether a request has failed.
#[verifier::ext_equal]
pub struct Files {
    pub configs: Map<Seq<char>, config::ConfigView>,
    pub notes: Map<Seq<char>, Seq<char>>,
    pub current: config::ConfigView,
    pub failed: bool,
}

/// A configuration as it is after loading: with all default sensors.
pub open spec fn completed(c: config::ConfigView, cpu_label: Seq<char>) -> config::ConfigView {
    let defaults = config::default_sensors(cpu_label);
    config::ConfigView {
        sensors: config::migrated(c.sensors, defaults, defaults.len() as int),
        ..c
    }
}

/// After one operation.
pub open spec fn after_step(w: Files, step: FileStepView, cpu_label: Seq<char>) -> Files {
    match step {
        FileStepView::Fail(_) => Files { failed: true, ..w },
        FileStepView::LoadConfig(p) => if w.configs.contains_key(p) {
            Files { current: completed(w.configs[p], cpu_label), ..w }
        } else {
            Files { failed: true, ..w }
        },
        FileStepView::MakeDirs(_) => w,
        FileStepView::SaveConfig(p) => Files { configs: w.configs.insert(p, w.current), ..w },
        FileStepView::RemoveIfPresent(p) => Files { configs: w.configs.remove(p), ..w },
        FileStepView::Forget(p) => Files { notes: w.notes.remove(p), ..w },
        FileStepView::WriteText { path, content } => Files {
            notes: w.notes.insert(path, content),
            ..w
        },
        FileStepView::CopyFile { from, to } => if w.configs.contains_key(from) {
            Files { configs: w.configs.insert(to, w.configs[from]), ..w }
        } else {
            Files { failed: true, ..w }
        },
    }
}

/// After a request. Nothing is done after an operation that fails.
pub open spec fn after(w: Files, steps: Seq<FileStepView>, cpu_label: Seq<char>) -> Files
    decreases steps.len(),
{
    if steps.len() == 0 {
        w
    } else {
        let before = after(w, steps.drop_last(), cpu_label);
        if before.failed {
            before
        } else {
            after_step(before, steps.last(), cpu_label)
        }
    }
}

proof fn lemma_one(w: Files, a: FileStepView, cpu_label: Seq<char>)
    requires
        !w.failed,
    ensures
        after(w, seq![a], cpu_label) == after_step(w, a, cpu_label),
{
    assert(seq![a].drop_last() =~= Seq::<FileStepView>::empty());
    assert(after(w, seq![a].drop_last(), cpu_label) == w);
}

proof fn lemma_two(w: Files, a: FileStepView, b: FileStepView, cpu_label: Seq<char>)
    requires
        !w.failed,
        !after_step(w, a, cpu_label).failed,
    ensures
        after(w, seq![a, b], cpu_label) == after_step(
            after_step(w, a, cpu_label),
            b,
            cpu_label,
        ),
{
    assert(seq![a, b].drop_last() =~= seq![a]);
    lemma_one(w, a, cpu_label);
}

proof fn lemma_joined(w: Files, a: Seq<FileStepView>, b: Seq<FileStepView>, cpu_label: Seq<char>)
    ensures
        after(w, a + b, cpu_label) == if after(w, a, cpu_label).failed {
            after(w, a, cpu_label)
        } else {
            after(after(w, a, cpu_label), b, cpu_label)
        },
    decreases b.len(),
{
    if b.len() == 0 {
        assert(a + b =~= a);
    } else {
        assert((a + b).drop_last() =~= a + b.drop_last());
        assert((a + b).last() == b.last());
        lemma_joined(w, a, b.drop_last(), cpu_label);
    }
}

// ── Laws ─────────────────────────────────────────────────────────────────────

/// Profiles of different names are different files.
pub proof fn law_profiles_have_own_files(store: StoreView, a: Seq<char>, b: Seq<char>)
    requires
        store.profile_path(a) is Ok,
        store.profile_path(b) is Ok,
        store.profile_path(a) == store.profile_path(b),
    ensures
        text::trim(a, CharSet::White) == text::trim(b, CharSet::White),
{
    let x = text::trim(a, CharSet::White);
    let y = text::trim(b, CharSet::White);
    let dir = store.dir();
    let pa = paths::join(dir, x + ".toml"@);
    let pb = paths::join(dir, y + ".toml"@);
    assert(pa == pb);
    assert(pa.len() == pb.len());
    assert(x.len() == y.len());
    let skip = pa.len() - x.len() - ".toml"@.len();
    assert forall|i: int| 0 <= i < x.len() implies x[i] == y[i] by {
        assert(pa[skip + i] == x[i]);
        assert(pb[skip + i] == y[i]);
    }
    assert(x =~= y);
}

/// What is saved can be loaded again: loading gives the configuration that was
/// saved, completed with the sensors that it lacked. No other profile changes.
pub proof fn law_saved_profile_is_loaded(
    store: StoreView,
    name: Seq<char>,
    w: Files,
    cpu_label: Seq<char>,
)
    requires
        !w.failed,
        store.profile_path(name) is Ok,
    ensures
        ({
            let saved = after(w, store.save_steps(name), cpu_label);
            let loaded = after(saved, store.load_steps(name), cpu_label);
            &&& !saved.failed
            &&& saved.configs == w.configs.insert(store.profile_path(name)->Ok_0, w.current)
            &&& saved.notes == w.notes
            &&& !loaded.failed
            &&& loaded.current == completed(w.current, cpu_label)
            &&& loaded.configs == saved.configs
        }),
{
    let p = store.profile_path(name)->Ok_0;
    lemma_two(w, FileStepView::MakeDirs(store.dir()), FileStepView::SaveConfig(p), cpu_label);
    let saved = after(w, store.save_steps(name), cpu_label);
    lemma_one(saved, FileStepView::LoadConfig(p), cpu_label);
}

/// A configuration with all default sensors is loaded exactly as it was saved.
pub proof fn law_complete_profile_is_loaded_unchanged(c: config::ConfigView, cpu_label: Seq<char>)
    ensures
        completed(completed(c, cpu_label), cpu_label) == completed(c, cpu_label),
{
    config::law_migration_twice(c.sensors, config::default_sensors(cpu_label));
}

/// A deleted profile is gone, and if it was the active one none is active. No
/// other profile changes.
pub proof fn law_deleted_profile_is_gone(
    store: StoreView,
    name: Seq<char>,
    active: Option<Seq<char>>,
    w: Files,
    cpu_label: Seq<char>,
)
    requires
        !w.failed,
        store.profile_path(name) is Ok,
    ensures
        ({
            let done = after(w, store.delete_steps(name, active), cpu_label);
            &&& !done.failed
            &&& done.configs == w.configs.remove(store.profile_path(name)->Ok_0)
            &&& active == Some(name) ==> !done.notes.contains_key(store.active_path())
            &&& active != Some(name) ==> done.notes == w.notes
        }),
{
    let p = store.profile_path(name)->Ok_0;
    let remove = FileStepView::RemoveIfPresent(p);
    if active == Some(name) {
        lemma_two(w, remove, FileStepView::Forget(store.active_path()), cpu_label);
    } else {
        lemma_one(w, remove, cpu_label);
    }
}

/// What is made active is the active profile.
pub proof fn law_active_profile_is_read_back(
    store: StoreView,
    name: Seq<char>,
    w: Files,
    cpu_label: Seq<char>,
)
    requires
        !w.failed,
        store.profile_path(name) is Ok,
    ensures
        ({
            let done = after(w, store.set_active_steps(name), cpu_label);
            &&& !done.failed
            &&& done.configs == w.configs
            &&& done.notes.contains_key(store.active_path())
            &&& profile::active_in(Some(done.notes[store.active_path()])) == Some(
                text::trim(name, CharSet::White),
            )
        }),
{
    let plain = text::trim(name, CharSet::White);
    lemma_two(
        w,
        FileStepView::MakeDirs(store.root),
        FileStepView::WriteText { path: store.active_path(), content: plain },
        cpu_label,
    );
    text::law_trim(name, CharSet::White);
    text::law_trim_of_trimmed(plain, CharSet::White);
    profile::law_active_name_reads_back(name);
}

/// A renamed profile has its configuration under the new name and is gone under
/// the old one; if it was active it stays active. No other profile changes.
pub proof fn law_renamed_profile_moves(
    store: StoreView,
    old_name: Seq<char>,
    new_name: Seq<char>,
    active: Option<Seq<char>>,
    w: Files,
    cpu_label: Seq<char>,
)
    requires
        !w.failed,
        store.profile_path(old_name) is Ok,
        store.profile_path(new_name) is Ok,
        text::trim(old_name, CharSet::White) != text::trim(new_name, CharSet::White),
        w.configs.contains_key(store.profile_path(old_name)->Ok_0),
    ensures
        ({
            let done = after(w, store.rename_steps(old_name, new_name, active), cpu_label);
            let from = store.profile_path(old_name)->Ok_0;
            let to = store.profile_path(new_name)->Ok_0;
            &&& !done.failed
            &&& from != to
            &&& done.configs == w.configs.insert(
                to,
                completed(w.configs[from], cpu_label),
            ).remove(from)
            &&& active == Some(old_name) ==> done.notes.contains_key(store.active_path())
                && profile::active_in(Some(done.notes[store.active_path()])) == Some(
                text::trim(new_name, CharSet::White),
            )
            &&& active != Some(old_name) ==> done.notes == w.notes
        }),
{
    let from = store.profile_path(old_name)->Ok_0;
    let to = store.profile_path(new_name)->Ok_0;
    if from == to {
        law_profiles_have_own_files(store, old_name, new_name);
    }
    let load = store.load_steps(old_name);
    let save = store.save_steps(new_name);
    let delete = store.delete_steps(old_name, active);
    let w1 = after(w, load, cpu_label);
    lemma_one(w, FileStepView::LoadConfig(from), cpu_label);
    let w2 = after(w1, save, cpu_label);
    law_saved_profile_is_loaded(store, new_name, w1, cpu_label);
    let w3 = after(w2, delete, cpu_label);
    law_deleted_profile_is_gone(store, old_name, active, w2, cpu_label);
    lemma_joined(w, load, save, cpu_label);
    lemma_joined(w, load + save, delete, cpu_label);
    let rest = if active == Some(old_name) {
        store.set_active_steps(new_name)
    } else {
        seq![]
    };
    lemma_joined(w, load + save + delete, rest, cpu_label);
    if active == Some(old_name) {
        law_active_profile_is_read_back(store, new_name, w3, cpu_label);
    }
}

/// An imported file becomes a profile that is named after it.
pub proof fn law_imported_file_is_a_profile(
    store: StoreView,
    source: Seq<char>,
    w: Files,
    cpu_label: Seq<char>,
)
    requires
        !w.failed,
        w.configs.contains_key(source),
        profile::import_name_of(source) is Some,
    ensures
        ({
            let done = after(w, store.import_steps(source), cpu_label);
            let path = store.profile_path(profile::import_name_of(source)->0);
            &&& !done.failed
            &&& path is Ok
            &&& done.configs == w.configs.insert(
                path->Ok_0,
                completed(w.configs[source], cpu_label),
            )
        }),
{
    let name = profile::import_name_of(source)->0;
    let load = seq![FileStepView::LoadConfig(source)];
    lemma_one(w, FileStepView::LoadConfig(source), cpu_label);
    let w1 = after(w, load, cpu_label);
    let stem = paths::stem(paths::file_name(source)->0);
    profile::law_sanitized_name_is_accepted(store, stem);
    law_saved_profile_is_loaded(store, name, w1, cpu_label);
    lemma_joined(w, load, store.save_steps(name), cpu_label);
}

/// An exported profile is copied as it is stored.
pub proof fn law_exported_profile_is_copied(
    store: StoreView,
    name: Seq<char>,
    target: Seq<char>,
    w: Files,
    cpu_label: Seq<char>,
)
    requires
        !w.failed,
        store.profile_path(name) is Ok,
        w.configs.contains_key(store.profile_path(name)->Ok_0),
    ensures
        ({
            let done = after(w, store.export_steps(name, target), cpu_label);
            &&& !done.failed
            &&& done.configs == w.configs.insert(
                target,
                w.configs[store.profile_path(name)->Ok_0],
            )
        }),
{
    let p = store.profile_path(name)->Ok_0;
    lemma_one(w, FileStepView::CopyFile { from: p, to: target }, cpu_label);
}

/// A request with a name that is not accepted fails and changes nothing.
pub proof fn law_refused_name_changes_nothing(
    store: StoreView,
    name: Seq<char>,
    other: Seq<char>,
    active: Option<Seq<char>>,
    w: Files,
    cpu_label: Seq<char>,
)
    requires
        !w.failed,
        store.profile_path(name) is Err,
    ensures
        after(w, store.load_steps(name), cpu_label) == (Files { failed: true, ..w }),
        after(w, store.save_steps(name), cpu_label) == (Files { failed: true, ..w }),
        after(w, store.delete_steps(name, active), cpu_label) == (Files { failed: true, ..w }),
        after(w, store.set_active_steps(name), cpu_label) == (Files { failed: true, ..w }),
        after(w, store.export_steps(name, other), cpu_label) == (Files { failed: true, ..w }),
        after(w, store.rename_steps(name, other, active), cpu_label) == (Files {
            failed: true,
            ..w
        }),
{
    let e = store.profile_path(name)->Err_0;
    lemma_one(w, FileStepView::Fail(e), cpu_label);
    let load = store.load_steps(name);
    let save = store.save_steps(other);
    let delete = store.delete_steps(name, active);
    let rest = if active == Some(name) {
        store.set_active_steps(other)
    } else {
        seq![]
    };
    lemma_joined(w, load, save, cpu_label);
    lemma_joined(w, load + save, delete, cpu_label);
    lemma_joined(w, load + save + delete, rest, cpu_label);
}

/// A profile is not renamed to a name that is not accepted: the request fails, and
/// all profiles and the active one stay as they are.
pub proof fn law_refused_new_name_keeps_profiles(
    store: StoreView,
    old_name: Seq<char>,
    new_name: Seq<char>,
    active: Option<Seq<char>>,
    w: Files,
    cpu_label: Seq<char>,
)
    requires
        !w.failed,
        store.profile_path(new_name) is Err,
    ensures
        ({
            let done = after(w, store.rename_steps(old_name, new_name, active), cpu_label);
            &&& done.failed
            &&& done.configs == w.configs
            &&& done.notes == w.notes
        }),
{
    let load = store.load_steps(old_name);
    let save = store.save_steps(new_name);
    let delete = store.delete_steps(old_name, active);
    let rest = if active == Some(old_name) {
        store.set_active_steps(new_name)
    } else {
        seq![]
    };
    lemma_one(w, load[0], cpu_label);
    assert(load =~= seq![load[0]]);
    let w1 = after(w, load, cpu_label);
    if !w1.failed {
        lemma_one(w1, FileStepView::Fail(store.profile_path(new_name)->Err_0), cpu_label);
    }
    lemma_joined(w, load, save, cpu_label);
    lemma_joined(w, load + save, delete, cpu_label);
    lemma_joined(w, load + save + delete, rest, cpu_label);
}

/// A profile that is not stored cannot be loaded, renamed or exported: the request
/// fails and changes nothing.
pub proof fn law_missing_profile_changes_nothing(
    store: StoreView,
    name: Seq<char>,
    other: Seq<char>,
    active: Option<Seq<char>>,
    w: Files,
    cpu_label: Seq<char>,
)
    requires
        !w.failed,
        store.profile_path(name) is Ok,
        !w.configs.contains_key(store.profile_path(name)->Ok_0),
    ensures
        after(w, store.load_steps(name), cpu_label) == (Files { failed: true, ..w }),
        after(w, store.rename_steps(name, other, active), cpu_label) == (Files {
            failed: true,
            ..w
        }),
        after(w, store.export_steps(name, other), cpu_label) == (Files { failed: true, ..w }),
{
    let p = store.profile_path(name)->Ok_0;
    lemma_one(w, FileStepView::LoadConfig(p), cpu_label);
    lemma_one(w, FileStepView::CopyFile { from: p, to: other }, cpu_label);
    let load = store.load_steps(name);
    let save = store.save_steps(other);
    let delete = store.delete_steps(name, active);
    let rest = if active == Some(name) {
        store.set_active_steps(other)
    } else {
        seq![]
    };
    lemma_joined(w, load, save, cpu_label);
    lemma_joined(w, load + save, delete, cpu_label);
    lemma_joined(w, load + save + delete, rest, cpu_label);
}

/// A file that is not there cannot be imported.
pub proof fn law_missing_file_is_not_imported(
    store: StoreView,
    source: Seq<char>,
    w: Files,
    cpu_label: Seq<char>,
)
    requires
        !w.failed,
        !w.configs.contains_key(source),
    ensures
        after(w, store.import_steps(source), cpu_label) == (Files { failed: true, ..w }),
{
    let load = seq![FileStepView::LoadConfig(source)];
    let rest = match profile::import_name_of(source) {
        Some(n) => store.save_steps(n),
        None => seq![FileStepView::Fail(profile::ProfileErrorView::NoFileName)],
    };
    lemma_one(w, FileStepView::LoadConfig(source), cpu_label);
    lemma_joined(w, load, rest, cpu_label);
}

} // verus!
