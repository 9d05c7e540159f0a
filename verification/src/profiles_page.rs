//! The profiles page: which profiles there are, and what is done with them.

use crate::profile;
use crate::profile::{FileStep, ProfileStore};
use crate::text;
use crate::text::{chars_of, has_text, same_text, trimmed, CharSet};
use vstd::prelude::*;

verus! {

/// What is shown on the profiles page.
#[derive(Clone, Debug)]
pub struct ProfilesPage {
    pub names: Vec<String>,
    pub selected: Option<String>,
    pub name_edit: String,
    pub confirm_delete: Option<String>,
}

/// What a `ProfilesPage` holds.
#[verifier::ext_equal]
pub struct ProfilesView {
    pub names: Seq<Seq<char>>,
    pub selected: Option<Seq<char>>,
    pub name_edit: Seq<char>,
    pub confirm_delete: Option<Seq<char>>,
}

impl View for ProfilesPage {
    type V = ProfilesView;

    open spec fn view(&self) -> ProfilesView {
        ProfilesView {
            names: text::texts(self.names@),
            selected: text::opt_text(self.selected),
            name_edit: self.name_edit@,
            confirm_delete: text::opt_text(self.confirm_delete),
        }
    }
}

/// Whether `names` are the profiles among these files, sorted.
pub open spec fn lists(names: Seq<Seq<char>>, files: Seq<String>) -> bool {
    profile::is_name_sort(names, profile::profiles_in(text::texts(files)))
}

impl ProfilesPage {
    /// The page for the files of the profile directory. The active profile is
    /// selected if it is there.
    pub fn new(files: &[String], active: Option<&str>) -> (res: ProfilesPage)
        ensures
            lists(res@.names, files@),
            res@.selected == (match text::opt_str(active) {
                Some(a) => if res@.names.contains(a) {
                    Some(a)
                } else {
                    None
                },
                None => None,
            }),
            res@.name_edit == ""@,
            res@.confirm_delete is None,
    {
        let names = ProfileStore::list(files);
        let selected = match active {
            Some(a) => if has_text(names.as_slice(), a) {
                Some(a.to_string())
            } else {
                None
            },
            None => None,
        };
        ProfilesPage { names, selected, name_edit: "".to_string(), confirm_delete: None }
    }

    /// The files have changed.
    pub fn refresh(&mut self, files: &[String])
        ensures
            lists(final(self)@.names, files@),
            final(self)@ == (ProfilesView { names: final(self)@.names, ..old(self)@ }),
    {
        self.names = ProfileStore::list(files);
    }

    /// A profile was selected.
    pub fn select(&mut self, name: &str)
        ensures
            final(self)@ == (ProfilesView { selected: Some(name@), ..old(self)@ }),
    {
        self.selected = Some(name.to_string());
    }

    /// The selected profile is to be deleted, once that has been confirmed.
    pub fn ask_delete(&mut self)
        ensures
            final(self)@ == (ProfilesView { confirm_delete: old(self)@.selected, ..old(self)@ }),
    {
        self.confirm_delete = match &self.selected {
            Some(n) => Some(n.clone()),
            None => None,
        };
    }

    /// Nothing is to be deleted any more.
    pub fn end_delete(&mut self)
        ensures
            final(self)@ == (ProfilesView { confirm_delete: None, ..old(self)@ }),
    {
        self.confirm_delete = None;
    }

    /// A profile was deleted. It is no longer selected.
    pub fn deleted(&mut self, name: &str, files: &[String])
        ensures
            lists(final(self)@.names, files@),
            final(self)@ == (ProfilesView {
                names: final(self)@.names,
                selected: if old(self)@.selected == Some(name@) {
                    None
                } else {
                    old(self)@.selected
                },
                confirm_delete: None,
                ..old(self)@
            }),
    {
        self.refresh(files);
        let gone = match &self.selected {
            Some(s) => same_text(s.as_str(), name),
            None => false,
        };
        if gone {
            self.selected = None;
        }
        self.confirm_delete = None;
    }

    /// The name under which a new profile is saved, and to which the selected
    /// one is renamed.
    pub fn new_name(&self) -> (res: String)
        ensures
            res@ == profile::sanitized(self@.name_edit),
    {
        ProfileStore::sanitize_name(self.name_edit.as_str())
    }

    /// A new profile was saved. It is selected.
    pub fn created(&mut self, name: &str, files: &[String])
        ensures
            lists(final(self)@.names, files@),
            final(self)@ == (ProfilesView {
                names: final(self)@.names,
                selected: Some(name@),
                name_edit: name@,
                ..old(self)@
            }),
    {
        self.refresh(files);
        self.selected = Some(name.to_string());
        self.name_edit = name.to_string();
    }

    /// Whether the selected profile can be renamed: there is one, and a name
    /// was entered.
    pub fn can_rename(&self) -> (res: bool)
        ensures
            res == (self@.selected is Some && text::trim(self@.name_edit, CharSet::White).len() > 0),
    {
        let chars = chars_of(self.name_edit.as_str());
        self.selected.is_some() && trimmed(chars.as_slice(), CharSet::White).len() > 0
    }

    /// The selected profile was renamed, or a file was imported. The profile of
    /// that name is selected.
    pub fn arrived(&mut self, name: &str, files: &[String])
        ensures
            lists(final(self)@.names, files@),
            final(self)@ == (ProfilesView {
                names: final(self)@.names,
                selected: Some(name@),
                ..old(self)@
            }),
    {
        self.refresh(files);
        self.selected = Some(name.to_string());
    }

    /// The file name that is proposed for an export.
    pub fn export_name(&self) -> (res: Option<String>)
        ensures
            text::opt_text(res) == (match self@.selected {
                Some(n) => Some(n + ".toml"@),
                None => None,
            }),
    {
        match &self.selected {
            Some(n) => {
                let mut file = n.clone();
                file.append(".toml");
                Some(file)
            },
            None => None,
        }
    }

    /// Once the configuration has been applied, the selected profile is updated
    /// and made active.
    pub fn apply(&self, store: &ProfileStore) -> (res: Vec<FileStep>)
        ensures
            profile::file_steps(res@) == (match self@.selected {
                Some(n) => store@.save_steps(n) + store@.set_active_steps(n),
                None => seq![],
            }),
    {
        match &self.selected {
            Some(n) => {
                let mut res = store.save(n.as_str());
                let mut rest = store.set_active(n.as_str());
                let ghost a = res@;
                let ghost b = rest@;
                res.append(&mut rest);
                assert(profile::file_steps(res@) =~= profile::file_steps(a)
                    + profile::file_steps(b));
                res
            },
            None => {
                let res: Vec<FileStep> = Vec::new();
                assert(profile::file_steps(res@) =~= seq![]);
                res
            },
        }
    }
}

// ── Failures ─────────────────────────────────────────────────────────────────

/// What was tried.
#[derive(Clone, Copy, Debug, PartialEq, Eq, Structural)]
pub enum ProfileTask {
    Load,
    Create,
    Rename,
    Import,
    Export,
    Delete,
    /// The configuration was to be saved.
    Apply,
    /// The selected profile was to follow the applied configuration.
    Update,
}

impl ProfileTask {
    /// What a failure is reported with.
    pub open spec fn failure_text(self) -> Seq<char> {
        match self {
            ProfileTask::Load => "Failed to load profile: "@,
            ProfileTask::Create => "Failed to create profile: "@,
            ProfileTask::Rename => "Failed to rename profile: "@,
            ProfileTask::Import => "Profile import failed: "@,
            ProfileTask::Export => "Profile export failed: "@,
            ProfileTask::Delete => "Failed to delete profile: "@,
            ProfileTask::Apply => "Failed to save config: "@,
            ProfileTask::Update => "Config applied, but profile update failed: "@,
        }
    }

    /// The report of a failure.
    pub fn failure(self, why: &str) -> (res: String)
        ensures
            res@ == self.failure_text() + why@,
    {
        let mut res = match self {
            ProfileTask::Load => "Failed to load profile: ".to_string(),
            ProfileTask::Create => "Failed to create profile: ".to_string(),
            ProfileTask::Rename => "Failed to rename profile: ".to_string(),
            ProfileTask::Import => "Profile import failed: ".to_string(),
            ProfileTask::Export => "Profile export failed: ".to_string(),
            ProfileTask::Delete => "Failed to delete profile: ".to_string(),
            ProfileTask::Apply => "Failed to save config: ".to_string(),
            ProfileTask::Update => "Config applied, but profile update failed: ".to_string(),
        };
        res.append(why);
        res
    }
}

// ── Laws ─────────────────────────────────────────────────────────────────────

/// A profile that was saved under the name that the page proposes is listed and
/// selected.
pub proof fn law_created_profile_is_shown(
    edit: Seq<char>,
    files: Seq<String>,
    names: Seq<Seq<char>>,
)
    requires
        text::texts(files).contains(profile::sanitized(edit) + ".toml"@),
        lists(names, files),
    ensures
        names.contains(profile::sanitized(edit)),
{
    profile::law_saved_profile_is_listed(edit, text::texts(files), names);
}

} // verus!
