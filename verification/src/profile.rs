//! Named configurations.
//!
//! A profile is stored as `<name>.toml` in the profile directory, and the name
//! of the active profile in a file beside it. The functions here decide which
//! file operations a request consists of; they are performed in order, and the
//! first that fails ends the request.

use crate::order;
use crate::order::{key_of_text, stable_order};
use crate::paths;
use crate::paths::{file_name_of, has_extension, join_path, stem_of};
use crate::text;
use crate::text::{
    alphanumeric_test, chars_of, same_text, text_of, to_lower, trimmed, trimmed_text, CharSet,
};
use vstd::prelude::*;

verus! {

// ── Names ────────────────────────────────────────────────────────────────────

/// Whether a character may stand in a profile name.
pub open spec fn is_allowed(c: char) -> bool {
    text::is_alphanumeric(c) || c == ' ' || c == '_' || c == '-' || c == '.'
}

/// Whether a character separates the words of a profile name.
pub open spec fn is_separator(c: char) -> bool {
    c == ' ' || c == '_'
}

/// A character that is not allowed becomes an underscore.
pub open spec fn allowed_char(c: char) -> char {
    if is_allowed(c) {
        c
    } else {
        '_'
    }
}

/// A text in allowed characters, where a separator right after another one is
/// dropped.
pub open spec fn collapse(s: Seq<char>) -> Seq<char>
    decreases s.len(),
{
    if s.len() == 0 {
        seq![]
    } else {
        let before = collapse(s.drop_last());
        let c = allowed_char(s.last());
        if is_separator(c) && before.len() > 0 && is_separator(before.last()) {
            before
        } else {
            before.push(c)
        }
    }
}

/// The profile name made from a text.
pub open spec fn sanitized(name: Seq<char>) -> Seq<char> {
    let t = text::trim(collapse(text::trim(name, CharSet::White)), CharSet::NameEdge);
    if t.len() == 0 {
        "Profile"@
    } else {
        t
    }
}

/// Whether a text consists of allowed characters and has no two separators in
/// a row.
pub open spec fn is_collapsed(s: Seq<char>) -> bool {
    &&& forall|i: int| 0 <= i < s.len() ==> is_allowed(#[trigger] s[i])
    &&& forall|i: int|
        0 < i < s.len() ==> !(is_separator(#[trigger] s[i]) && is_separator(s[i - 1]))
}

proof fn lemma_collapse(s: Seq<char>)
    ensures
        is_collapsed(collapse(s)),
    decreases s.len(),
{
    if s.len() > 0 {
        lemma_collapse(s.drop_last());
    }
}

proof fn lemma_collapse_of_collapsed(s: Seq<char>)
    requires
        is_collapsed(s),
    ensures
        collapse(s) == s,
    decreases s.len(),
{
    if s.len() > 0 {
        let t = s.drop_last();
        assert forall|i: int| 0 <= i < t.len() implies is_allowed(#[trigger] t[i]) by {
            assert(t[i] == s[i]);
        }
        assert forall|i: int| 0 < i < t.len() implies !(is_separator(#[trigger] t[i]) && is_separator(
            t[i - 1],
        )) by {
            assert(t[i] == s[i]);
        }
        lemma_collapse_of_collapsed(t);
        let n = s.len() - 1;
        assert(is_allowed(s[n]));
        if n > 0 {
            assert(!(is_separator(s[n]) && is_separator(s[n - 1])));
        }
        assert(t.push(s.last()) == s);
    } else {
        assert(collapse(s) == s);
    }
}

/// What holds of every profile name.
pub open spec fn is_safe(s: Seq<char>) -> bool {
    &&& s.len() > 0
    &&& is_collapsed(s)
    &&& !CharSet::NameEdge.has(s[0])
    &&& !CharSet::NameEdge.has(s.last())
}

proof fn lemma_default_name_is_safe()
    ensures
        is_safe("Profile"@),
{
    reveal_strlit("Profile");
}

/// A profile name is not empty, consists of ASCII letters, digits, blanks,
/// underscores, hyphens and dots, and begins and ends with a letter or digit.
pub proof fn law_names_are_safe(name: Seq<char>)
    ensures
        is_safe(sanitized(name)),
        text::is_alphanumeric(sanitized(name)[0]),
        text::is_alphanumeric(sanitized(name).last()),
{
    let c = collapse(text::trim(name, CharSet::White));
    lemma_collapse(text::trim(name, CharSet::White));
    let t = text::trim(c, CharSet::NameEdge);
    text::law_trim(c, CharSet::NameEdge);
    lemma_default_name_is_safe();
    if t.len() > 0 {
        let (a, b) = choose|a: int, b: int|
            0 <= a <= b <= c.len() && #[trigger] c.subrange(a, b) == t;
        assert forall|i: int| 0 <= i < t.len() implies is_allowed(#[trigger] t[i]) by {
            assert(t[i] == c[a + i]);
        }
        assert forall|i: int| 0 < i < t.len() implies !(is_separator(#[trigger] t[i]) && is_separator(
            t[i - 1],
        )) by {
            assert(t[i] == c[a + i]);
            assert(t[i - 1] == c[a + i - 1]);
        }
    }
    let s = sanitized(name);
    assert(is_allowed(s[0]));
    assert(is_allowed(s[s.len() - 1]));
}

proof fn lemma_sanitized_of_safe(s: Seq<char>)
    requires
        is_safe(s),
    ensures
        sanitized(s) == s,
        text::trim(s, CharSet::White) == s,
{
    assert(is_allowed(s[0]));
    assert(is_allowed(s[s.len() - 1]));
    text::law_trim_of_trimmed(s, CharSet::White);
    lemma_collapse_of_collapsed(s);
    text::law_trim_of_trimmed(s, CharSet::NameEdge);
}

/// A profile name made from a profile name is the same name.
pub proof fn law_sanitized_twice(name: Seq<char>)
    ensures
        sanitized(sanitized(name)) == sanitized(name),
{
    law_names_are_safe(name);
    lemma_sanitized_of_safe(sanitized(name));
}

// ── Errors and steps ─────────────────────────────────────────────────────────

/// Why a request is refused.
#[derive(Clone, Debug)]
pub enum ProfileError {
    /// The name holds unsupported characters; this one could be used instead.
    UnsupportedName(String),
    /// The file to import has no usable name.
    NoFileName,
}

/// What a `ProfileError` holds.
pub enum ProfileErrorView {
    UnsupportedName(Seq<char>),
    NoFileName,
}

impl View for ProfileError {
    type V = ProfileErrorView;

    open spec fn view(&self) -> ProfileErrorView {
        match *self {
            ProfileError::UnsupportedName(s) => ProfileErrorView::UnsupportedName(s@),
            ProfileError::NoFileName => ProfileErrorView::NoFileName,
        }
    }
}

impl ProfileErrorView {
    /// The text shown for an error.
    pub open spec fn text(self) -> Seq<char> {
        match self {
            ProfileErrorView::UnsupportedName(s) => {
                "profile name contains unsupported characters; suggested name: "@ + s
            },
            ProfileErrorView::NoFileName => "profile has no valid file name"@,
        }
    }
}

impl ProfileError {
    /// The text shown for this error.
    pub fn message(&self) -> (res: String)
        ensures
            res@ == self@.text(),
    {
        match self {
            ProfileError::UnsupportedName(s) => {
                let mut res = "profile name contains unsupported characters; suggested name: ".to_string();
                res.append(s.as_str());
                res
            },
            ProfileError::NoFileName => "profile has no valid file name".to_string(),
        }
    }
}

/// One file operation of a request.
#[derive(Clone, Debug)]
pub enum FileStep {
    /// The request fails.
    Fail(ProfileError),
    /// Read the current configuration from a file and migrate it.
    LoadConfig(String),
    /// Create a directory and all above it.
    MakeDirs(String),
    /// Write the current configuration to a file.
    SaveConfig(String),
    /// Remove a file if it exists.
    RemoveIfPresent(String),
    /// Try to remove a file.
    Forget(String),
    /// Write a text to a file.
    WriteText { path: String, content: String },
    /// Copy a file.
    CopyFile { from: String, to: String },
}

/// What a `FileStep` does.
pub enum FileStepView {
    Fail(ProfileErrorView),
    LoadConfig(Seq<char>),
    MakeDirs(Seq<char>),
    SaveConfig(Seq<char>),
    RemoveIfPresent(Seq<char>),
    Forget(Seq<char>),
    WriteText { path: Seq<char>, content: Seq<char> },
    CopyFile { from: Seq<char>, to: Seq<char> },
}

impl View for FileStep {
    type V = FileStepView;

    open spec fn view(&self) -> FileStepView {
        match *self {
            FileStep::Fail(e) => FileStepView::Fail(e@),
            FileStep::LoadConfig(p) => FileStepView::LoadConfig(p@),
            FileStep::MakeDirs(p) => FileStepView::MakeDirs(p@),
            FileStep::SaveConfig(p) => FileStepView::SaveConfig(p@),
            FileStep::RemoveIfPresent(p) => FileStepView::RemoveIfPresent(p@),
            FileStep::Forget(p) => FileStepView::Forget(p@),
            FileStep::WriteText { path, content } => FileStepView::WriteText {
                path: path@,
                content: content@,
            },
            FileStep::CopyFile { from, to } => FileStepView::CopyFile { from: from@, to: to@ },
        }
    }
}

/// What a list of file operations does.
pub open spec fn file_steps(v: Seq<FileStep>) -> Seq<FileStepView> {
    Seq::new(v.len(), |i: int| v[i]@)
}

// ── The store ────────────────────────────────────────────────────────────────

/// The directories that profiles are kept in.
#[derive(Debug)]
pub struct ProfileStore {
    root: String,
    dir: String,
}

impl Clone for ProfileStore {
    fn clone(&self) -> (res: Self)
        ensures
            res@ == self@,
    {
        proof {
            use_type_invariant(self);
        }
        ProfileStore { root: self.root.clone(), dir: self.dir.clone() }
    }
}

/// Where the profiles and the name of the active one are kept.
pub struct StoreView {
    pub root: Seq<char>,
}

impl View for ProfileStore {
    type V = StoreView;

    closed spec fn view(&self) -> StoreView {
        StoreView { root: self.root@ }
    }
}

impl StoreView {
    /// The directory of the profiles.
    pub open spec fn dir(self) -> Seq<char> {
        paths::join(self.root, "profiles"@)
    }

    /// The file that names the active profile.
    pub open spec fn active_path(self) -> Seq<char> {
        paths::join(self.root, "active-profile"@)
    }

    /// The file of a profile, for a name that needs no change but trimming.
    pub open spec fn profile_path(self, name: Seq<char>) -> Result<Seq<char>, ProfileErrorView> {
        let safe = sanitized(name);
        if safe != text::trim(name, CharSet::White) {
            Err(ProfileErrorView::UnsupportedName(safe))
        } else {
            Ok(paths::join(self.dir(), safe + ".toml"@))
        }
    }

    /// Reads a profile.
    pub open spec fn load_steps(self, name: Seq<char>) -> Seq<FileStepView> {
        match self.profile_path(name) {
            Ok(p) => seq![FileStepView::LoadConfig(p)],
            Err(e) => seq![FileStepView::Fail(e)],
        }
    }

    /// Writes the current configuration as a profile.
    pub open spec fn save_steps(self, name: Seq<char>) -> Seq<FileStepView> {
        match self.profile_path(name) {
            Ok(p) => seq![FileStepView::MakeDirs(self.dir()), FileStepView::SaveConfig(p)],
            Err(e) => seq![FileStepView::Fail(e)],
        }
    }

    /// Removes a profile. If it is the active one, none is active afterwards.
    pub open spec fn delete_steps(self, name: Seq<char>, active: Option<Seq<char>>) -> Seq<
        FileStepView,
    > {
        match self.profile_path(name) {
            Ok(p) => if active == Some(name) {
                seq![FileStepView::RemoveIfPresent(p), FileStepView::Forget(self.active_path())]
            } else {
                seq![FileStepView::RemoveIfPresent(p)]
            },
            Err(e) => seq![FileStepView::Fail(e)],
        }
    }

    /// Makes a profile the active one.
    pub open spec fn set_active_steps(self, name: Seq<char>) -> Seq<FileStepView> {
        match self.profile_path(name) {
            Ok(p) => seq![
                FileStepView::MakeDirs(self.root),
                FileStepView::WriteText {
                    path: self.active_path(),
                    content: text::trim(name, CharSet::White),
                },
            ],
            Err(e) => seq![FileStepView::Fail(e)],
        }
    }

    /// Renames a profile: it is read, written under its new name and removed
    /// under its old one. An active profile stays active.
    pub open spec fn rename_steps(
        self,
        old_name: Seq<char>,
        new_name: Seq<char>,
        active: Option<Seq<char>>,
    ) -> Seq<FileStepView> {
        self.load_steps(old_name) + self.save_steps(new_name) + self.delete_steps(old_name, active)
            + if active == Some(old_name) {
            self.set_active_steps(new_name)
        } else {
            seq![]
        }
    }
}

impl StoreView {
    /// Imports a file: it is read and written as a profile that is named after
    /// it.
    pub open spec fn import_steps(self, source: Seq<char>) -> Seq<FileStepView> {
        seq![FileStepView::LoadConfig(source)] + match import_name_of(source) {
            Some(n) => self.save_steps(n),
            None => seq![FileStepView::Fail(ProfileErrorView::NoFileName)],
        }
    }

    /// Copies the file of a profile.
    pub open spec fn export_steps(self, name: Seq<char>, target: Seq<char>) -> Seq<FileStepView> {
        match self.profile_path(name) {
            Ok(p) => seq![FileStepView::CopyFile { from: p, to: target }],
            Err(e) => seq![FileStepView::Fail(e)],
        }
    }
}

/// The root directory for a configuration directory.
pub open spec fn store_root(config_dir: Option<Seq<char>>) -> Seq<char> {
    let base = match config_dir {
        Some(d) => d,
        None => "."@,
    };
    paths::join(base, "th420-display"@)
}

/// The name of the active profile in the contents of its file.
pub open spec fn active_in(content: Option<Seq<char>>) -> Option<Seq<char>> {
    match content {
        Some(s) => if text::trim(s, CharSet::White).len() > 0 {
            Some(text::trim(s, CharSet::White))
        } else {
            None
        },
        None => None,
    }
}

/// The profile name that a file gets when it is imported.
pub open spec fn import_name_of(source: Seq<char>) -> Option<Seq<char>> {
    match paths::file_name(source) {
        Some(n) => Some(sanitized(paths::stem(n))),
        None => None,
    }
}

/// The profiles among the names of the files in the profile directory.
pub open spec fn profiles_in(files: Seq<Seq<char>>) -> Seq<Seq<char>>
    decreases files.len(),
{
    if files.len() == 0 {
        seq![]
    } else if paths::extension(files.last()) == Some("toml"@) {
        profiles_in(files.drop_last()).push(paths::stem(files.last()))
    } else {
        profiles_in(files.drop_last())
    }
}

/// The sorting keys of names: their characters in lower case.
pub open spec fn name_keys(names: Seq<Seq<char>>) -> Seq<Seq<i64>> {
    Seq::new(names.len(), |i: int| order::text_key(text::lower(names[i])))
}

/// Whether `sorted` is what a stable sort without regard to case makes of
/// `names`.
pub open spec fn is_name_sort(sorted: Seq<Seq<char>>, names: Seq<Seq<char>>) -> bool {
    exists|order: Seq<usize>|
        #[trigger] order::is_stable_order(order, name_keys(names)) && sorted == Seq::new(
            names.len(),
            |i: int| names[order[i] as int],
        )
}

fn is_named(active: Option<&str>, name: &str) -> (res: bool)
    ensures
        res == (text::opt_str(active) == Some(name@)),
{
    match active {
        Some(a) => same_text(a, name),
        None => false,
    }
}

fn collapsed(chars: &[char]) -> (res: Vec<char>)
    ensures
        res@ == collapse(chars@),
{
    let mut res: Vec<char> = Vec::new();
    let mut i: usize = 0;
    while i < chars.len()
        invariant
            i <= chars@.len(),
            res@ == collapse(chars@.take(i as int)),
        decreases chars@.len() - i,
    {
        let raw = chars[i];
        assert(chars@.take(i + 1).drop_last() == chars@.take(i as int));
        let allowed = alphanumeric_test(raw) || raw == ' ' || raw == '_' || raw == '-' || raw == '.';
        let c = if allowed {
            raw
        } else {
            '_'
        };
        let separator = c == ' ' || c == '_';
        let repeated = res.len() > 0 && (res[res.len() - 1] == ' ' || res[res.len() - 1] == '_');
        if !(separator && repeated) {
            res.push(c);
        }
        i = i + 1;
    }
    assert(chars@.take(i as int) == chars@);
    res
}

fn sorted_names(names: Vec<Vec<char>>) -> (res: Vec<String>)
    ensures
        is_name_sort(text::texts(res@), text::seqs(names@)),
{
    let ghost all = text::seqs(names@);
    let mut keys: Vec<Vec<i64>> = Vec::new();
    let mut i: usize = 0;
    while i < names.len()
        invariant
            i <= names@.len(),
            all == text::seqs(names@),
            keys@.len() == i,
            forall|k: int| 0 <= k < i ==> (#[trigger] keys@[k])@ == name_keys(all)[k],
        decreases names@.len() - i,
    {
        let low = to_lower(names[i].as_slice());
        let key = key_of_text(low.as_slice());
        assert(key@ == name_keys(all)[i as int]);
        keys.push(key);
        i = i + 1;
    }
    assert(order::key_seqs(keys@) =~= name_keys(all));
    let order = stable_order(&keys);
    let mut res: Vec<String> = Vec::new();
    let mut j: usize = 0;
    while j < order.len()
        invariant
            j <= order@.len(),
            all == text::seqs(names@),
            order::is_stable_order(order@, name_keys(all)),
            res@.len() == j,
            forall|k: int| 0 <= k < j ==> (#[trigger] res@[k])@ == all[order@[k] as int],
        decreases order@.len() - j,
    {
        assert(order@[j as int] < name_keys(all).len());
        res.push(text_of(names[order[j]].as_slice()));
        j = j + 1;
    }
    assert(text::texts(res@) =~= Seq::new(all.len(), |k: int| all[order@[k] as int]));
    res
}

impl ProfileStore {
    #[verifier::type_invariant]
    spec fn inv(self) -> bool {
        self.dir@ == paths::join(self.root@, "profiles"@)
    }

    /// The store inside a configuration directory.
    pub fn new(config_dir: Option<&str>) -> (res: ProfileStore)
        ensures
            res@.root == store_root(text::opt_str(config_dir)),
    {
        let base = match config_dir {
            Some(d) => d,
            None => ".",
        };
        let root = join_path(base, "th420-display");
        let dir = join_path(root.as_str(), "profiles");
        ProfileStore { root, dir }
    }

    /// The directory of the profiles.
    pub fn dir(&self) -> (res: &str)
        ensures
            res@ == self@.dir(),
    {
        proof {
            use_type_invariant(self);
        }
        self.dir.as_str()
    }

    /// The file that names the active profile.
    pub fn active_path(&self) -> (res: String)
        ensures
            res@ == self@.active_path(),
    {
        join_path(self.root.as_str(), "active-profile")
    }

    /// The profile name made from a text.
    pub fn sanitize_name(name: &str) -> (res: String)
        ensures
            res@ == sanitized(name@),
    {
        let chars = chars_of(name);
        let inner = trimmed(chars.as_slice(), CharSet::White);
        let short = collapsed(inner.as_slice());
        let t = trimmed(short.as_slice(), CharSet::NameEdge);
        if t.len() == 0 {
            "Profile".to_string()
        } else {
            text_of(t.as_slice())
        }
    }

    /// The file of a profile. A name that needs more than trimming is refused,
    /// with the name that could be used instead.
    pub fn profile_path(&self, name: &str) -> (res: Result<String, ProfileError>)
        ensures
            match res {
                Ok(p) => self@.profile_path(name@) == Ok::<Seq<char>, ProfileErrorView>(p@),
                Err(e) => self@.profile_path(name@) == Err::<Seq<char>, ProfileErrorView>(e@),
            },
    {
        proof {
            use_type_invariant(self);
        }
        let safe = ProfileStore::sanitize_name(name);
        let plain = trimmed_text(name);
        if !same_text(safe.as_str(), plain.as_str()) {
            return Err(ProfileError::UnsupportedName(safe));
        }
        let mut file = safe;
        file.append(".toml");
        Ok(join_path(self.dir.as_str(), file.as_str()))
    }

    /// The profiles among the files of the profile directory, sorted without
    /// regard to case.
    pub fn list(files: &[String]) -> (res: Vec<String>)
        ensures
            is_name_sort(text::texts(res@), profiles_in(text::texts(files@))),
    {
        let ghost all = text::texts(files@);
        let mut names: Vec<Vec<char>> = Vec::new();
        let mut i: usize = 0;
        assert(text::seqs(names@) =~= profiles_in(all.take(0)));
        while i < files.len()
            invariant
                i <= files@.len(),
                all == text::texts(files@),
                text::seqs(names@) == profiles_in(all.take(i as int)),
            decreases files@.len() - i,
        {
            let chars = chars_of(files[i].as_str());
            assert(all.take(i + 1).drop_last() =~= all.take(i as int));
            assert(all.take(i + 1).last() == chars@);
            if has_extension(chars.as_slice(), "toml") {
                let ghost before = names@;
                names.push(stem_of(chars.as_slice()));
                assert(text::seqs(names@) =~= text::seqs(before).push(paths::stem(chars@)));
            }
            i = i + 1;
        }
        assert(all.take(i as int) =~= all);
        sorted_names(names)
    }

    /// Reads a profile.
    pub fn load(&self, name: &str) -> (res: Vec<FileStep>)
        ensures
            file_steps(res@) == self@.load_steps(name@),
    {
        let mut res: Vec<FileStep> = Vec::new();
        match self.profile_path(name) {
            Ok(p) => res.push(FileStep::LoadConfig(p)),
            Err(e) => res.push(FileStep::Fail(e)),
        }
        assert(file_steps(res@) =~= self@.load_steps(name@));
        res
    }

    /// Writes the current configuration as a profile.
    pub fn save(&self, name: &str) -> (res: Vec<FileStep>)
        ensures
            file_steps(res@) == self@.save_steps(name@),
    {
        let mut res: Vec<FileStep> = Vec::new();
        match self.profile_path(name) {
            Ok(p) => {
                res.push(FileStep::MakeDirs(self.dir().to_string()));
                res.push(FileStep::SaveConfig(p));
            },
            Err(e) => res.push(FileStep::Fail(e)),
        }
        assert(file_steps(res@) =~= self@.save_steps(name@));
        res
    }

    /// Removes a profile.
    pub fn delete(&self, name: &str, active: Option<&str>) -> (res: Vec<FileStep>)
        ensures
            file_steps(res@) == self@.delete_steps(name@, text::opt_str(active)),
    {
        let mut res: Vec<FileStep> = Vec::new();
        match self.profile_path(name) {
            Ok(p) => {
                res.push(FileStep::RemoveIfPresent(p));
                if is_named(active, name) {
                    res.push(FileStep::Forget(self.active_path()));
                }
            },
            Err(e) => res.push(FileStep::Fail(e)),
        }
        assert(file_steps(res@) =~= self@.delete_steps(name@, text::opt_str(active)));
        res
    }

    /// Makes a profile the active one.
    pub fn set_active(&self, name: &str) -> (res: Vec<FileStep>)
        ensures
            file_steps(res@) == self@.set_active_steps(name@),
    {
        let mut res: Vec<FileStep> = Vec::new();
        match self.profile_path(name) {
            Ok(_) => {
                res.push(FileStep::MakeDirs(self.root.clone()));
                res.push(
                    FileStep::WriteText { path: self.active_path(), content: trimmed_text(name) },
                );
            },
            Err(e) => res.push(FileStep::Fail(e)),
        }
        assert(file_steps(res@) =~= self@.set_active_steps(name@));
        res
    }

    /// Renames a profile.
    pub fn rename(&self, old_name: &str, new_name: &str, active: Option<&str>) -> (res: Vec<
        FileStep,
    >)
        ensures
            file_steps(res@) == self@.rename_steps(old_name@, new_name@, text::opt_str(active)),
    {
        let mut res = self.load(old_name);
        push_steps(&mut res, self.save(new_name));
        push_steps(&mut res, self.delete(old_name, active));
        if is_named(active, old_name) {
            push_steps(&mut res, self.set_active(new_name));
        }
        assert(file_steps(res@) =~= self@.rename_steps(old_name@, new_name@, text::opt_str(active)));
        res
    }

    /// Copies the file of a profile.
    pub fn export(&self, name: &str, target: &str) -> (res: Vec<FileStep>)
        ensures
            file_steps(res@) == self@.export_steps(name@, target@),
    {
        let mut res: Vec<FileStep> = Vec::new();
        match self.profile_path(name) {
            Ok(p) => res.push(FileStep::CopyFile { from: p, to: target.to_string() }),
            Err(e) => res.push(FileStep::Fail(e)),
        }
        assert(file_steps(res@) =~= self@.export_steps(name@, target@));
        res
    }

    /// Imports a file as a profile.
    pub fn import(&self, source: &str) -> (res: Vec<FileStep>)
        ensures
            file_steps(res@) == self@.import_steps(source@),
    {
        let mut res: Vec<FileStep> = Vec::new();
        res.push(FileStep::LoadConfig(source.to_string()));
        assert(file_steps(res@) =~= seq![FileStepView::LoadConfig(source@)]);
        match ProfileStore::import_name(source) {
            Ok(name) => push_steps(&mut res, self.save(name.as_str())),
            Err(e) => {
                res.push(FileStep::Fail(e));
                assert(file_steps(res@) =~= self@.import_steps(source@));
            },
        }
        res
    }

    /// The name of the active profile in the contents of its file.
    pub fn active_name(content: Option<&str>) -> (res: Option<String>)
        ensures
            text::opt_text(res) == active_in(text::opt_str(content)),
    {
        match content {
            Some(s) => {
                let chars = chars_of(s);
                let t = trimmed(chars.as_slice(), CharSet::White);
                if t.len() > 0 {
                    Some(text_of(t.as_slice()))
                } else {
                    None
                }
            },
            None => None,
        }
    }

    /// The name under which a file is imported.
    pub fn import_name(source: &str) -> (res: Result<String, ProfileError>)
        ensures
            match res {
                Ok(n) => import_name_of(source@) == Some(n@),
                Err(e) => import_name_of(source@) is None && e@ == ProfileErrorView::NoFileName,
            },
    {
        match file_name_of(source) {
            Some(n) => {
                let stem = stem_of(n.as_slice());
                let name = text_of(stem.as_slice());
                Ok(ProfileStore::sanitize_name(name.as_str()))
            },
            None => Err(ProfileError::NoFileName),
        }
    }
}

fn push_steps(out: &mut Vec<FileStep>, tail: Vec<FileStep>)
    ensures
        file_steps(final(out)@) == file_steps(old(out)@) + file_steps(tail@),
{
    let ghost before = out@;
    let mut rest = tail;
    out.append(&mut rest);
    assert(file_steps(out@) =~= file_steps(before) + file_steps(tail@));
}

// ── Laws ─────────────────────────────────────────────────────────────────────

/// A sanitized name is always accepted, and its profile is a file of that name
/// directly inside the profile directory.
pub proof fn law_sanitized_name_is_accepted(store: StoreView, name: Seq<char>)
    ensures
        store.profile_path(sanitized(name)) == Ok::<Seq<char>, ProfileErrorView>(
            paths::join(store.dir(), sanitized(name) + ".toml"@),
        ),
        paths::file_name(paths::join(store.dir(), sanitized(name) + ".toml"@)) == Some(
            sanitized(name) + ".toml"@,
        ),
{
    let s = sanitized(name);
    law_names_are_safe(name);
    lemma_sanitized_of_safe(s);
    lemma_safe_file(s);
    paths::law_joined_file_name(store.dir(), s + ".toml"@);
}

proof fn lemma_safe_file(s: Seq<char>)
    requires
        is_safe(s),
    ensures
        !(s + ".toml"@).contains('/'),
        (s + ".toml"@).len() > 2,
        (s + ".toml"@) != seq!['.'],
        (s + ".toml"@) != seq!['.', '.'],
{
    reveal_strlit(".toml");
    let f = s + ".toml"@;
    assert forall|i: int| 0 <= i < f.len() implies f[i] != '/' by {
        if i < s.len() {
            assert(f[i] == s[i]);
            assert(is_allowed(s[i]));
        }
    }
    assert(f.len() > 5);
}

proof fn lemma_after_last_append(s: Seq<char>, t: Seq<char>, c: char)
    requires
        !t.contains(c),
    ensures
        paths::after_last(s + t, c) == paths::after_last(s, c),
    decreases t.len(),
{
    if t.len() == 0 {
        assert(s + t =~= s);
    } else {
        let u = t.drop_last();
        assert((s + t).drop_last() =~= s + u);
        assert((s + t).last() == t.last());
        assert(t.contains(t[t.len() - 1]));
        assert(!u.contains(c)) by {
            if u.contains(c) {
                let i = choose|i: int| 0 <= i < u.len() && u[i] == c;
                assert(t[i] == c);
            }
        }
        lemma_after_last_append(s, u, c);
    }
}

proof fn lemma_saved_file(name: Seq<char>)
    ensures
        paths::extension(sanitized(name) + ".toml"@) == Some("toml"@),
        paths::stem(sanitized(name) + ".toml"@) == sanitized(name),
{
    let s = sanitized(name);
    law_names_are_safe(name);
    reveal_strlit(".toml");
    reveal_strlit("toml");
    let f = s + ".toml"@;
    let dotted = s + seq!['.'];
    assert(f =~= dotted + "toml"@);
    assert(!"toml"@.contains('.'));
    lemma_after_last_append(dotted, "toml"@, '.');
    assert(dotted.last() == '.');
    assert(paths::after_last(f, '.') == s.len() + 1);
    assert(f.skip(s.len() as int + 1) =~= "toml"@);
    assert(f.take(s.len() as int) =~= s);
}

proof fn lemma_profile_among(files: Seq<Seq<char>>, i: int)
    requires
        0 <= i < files.len(),
        paths::extension(files[i]) == Some("toml"@),
    ensures
        profiles_in(files).contains(paths::stem(files[i])),
    decreases files.len(),
{
    let before = profiles_in(files.drop_last());
    let stem = paths::stem(files[i]);
    if i == files.len() - 1 {
        assert(profiles_in(files)[before.len() as int] == stem);
    } else {
        assert(files.drop_last()[i] == files[i]);
        lemma_profile_among(files.drop_last(), i);
        let k = choose|k: int| 0 <= k < before.len() && before[k] == stem;
        assert(profiles_in(files)[k] == stem);
    }
}

/// What is saved is listed: where the file of a profile name is in the profile
/// directory, the name is among the profiles.
pub proof fn law_saved_profile_is_listed(
    name: Seq<char>,
    files: Seq<Seq<char>>,
    listed: Seq<Seq<char>>,
)
    requires
        files.contains(sanitized(name) + ".toml"@),
        is_name_sort(listed, profiles_in(files)),
    ensures
        listed.contains(sanitized(name)),
{
    let s = sanitized(name);
    lemma_saved_file(name);
    let at = choose|i: int| 0 <= i < files.len() && files[i] == s + ".toml"@;
    lemma_profile_among(files, at);
    let names = profiles_in(files);
    let order = choose|order: Seq<usize>|
        #[trigger] order::is_stable_order(order, name_keys(names)) && listed == Seq::new(
            names.len(),
            |i: int| names[order[i] as int],
        );
    order::law_stable_order_is_permutation(order, name_keys(names));
    let k = choose|k: int| 0 <= k < names.len() && names[k] == s;
    lemma_listed(order, names, k);
}

proof fn lemma_listed(order: Seq<usize>, names: Seq<Seq<char>>, k: int)
    requires
        order::is_stable_order(order, name_keys(names)),
        0 <= k < names.len(),
    ensures
        Seq::new(names.len(), |i: int| names[order[i] as int]).contains(names[k]),
{
    order::law_stable_order_is_permutation(order, name_keys(names));
    let listed = Seq::new(names.len(), |i: int| names[order[i] as int]);
    assert(order.contains(k as usize));
    let i = choose|i: int| 0 <= i < order.len() && order[i] == k as usize;
    assert(listed[i] == names[k]);
}

/// What is made active is the active profile: its file, read back, gives the
/// name.
pub proof fn law_active_name_reads_back(name: Seq<char>)
    ensures
        active_in(Some(text::trim(sanitized(name), CharSet::White))) == Some(sanitized(name)),
{
    law_names_are_safe(name);
    lemma_sanitized_of_safe(sanitized(name));
}

// ── Which names are kept ─────────────────────────────────────────────────────

/// Whether a character is an ASCII letter or digit, told by its code.
pub open spec fn is_plain(c: char) -> bool {
    let code = c as u32;
    48 <= code <= 57 || 65 <= code <= 90 || 97 <= code <= 122
}

/// A name of letters, digits, dots, hyphens, underscores and blanks is kept as it is,
/// if it begins and ends with a letter or digit and has no blanks or underscores in
/// a row.
pub proof fn law_plain_name_is_kept(name: Seq<char>)
    requires
        name.len() > 0,
        is_plain(name[0]),
        is_plain(name.last()),
        forall|i: int|
            0 <= i < name.len() ==> is_plain(#[trigger] name[i]) || name[i] == '.' || name[i] == '-'
                || name[i] == '_' || name[i] == ' ',
        forall|i: int|
            0 < i < name.len() && (#[trigger] name[i] == '_' || name[i] == ' ') ==> name[i - 1]
                != '_' && name[i - 1] != ' ',
    ensures
        sanitized(name) == name,
        forall|store: StoreView| #[trigger] store.profile_path(name) is Ok,
{
    assert(is_safe(name));
    lemma_sanitized_of_safe(name);
}

/// Any other character between two plain parts of a name is replaced by an
/// underscore.
pub proof fn law_other_characters_are_replaced(a: Seq<char>, c: char, b: Seq<char>)
    requires
        a.len() > 0,
        b.len() > 0,
        forall|i: int| 0 <= i < a.len() ==> is_plain(#[trigger] a[i]),
        forall|i: int| 0 <= i < b.len() ==> is_plain(#[trigger] b[i]),
        !is_plain(c),
        c != '.' && c != '-' && c != '_' && c != ' ',
    ensures
        sanitized(a.push(c) + b) == a.push('_') + b,
        forall|store: StoreView|
            #[trigger] store.profile_path(a.push(c) + b) == Err::<Seq<char>, ProfileErrorView>(
                ProfileErrorView::UnsupportedName(a.push('_') + b),
            ),
{
    let name = a.push(c) + b;
    let kept = a.push('_') + b;
    assert(name[0] == a[0] && name.last() == b.last());
    text::law_trim_of_trimmed(name, CharSet::White);
    lemma_collapse_plain(a);
    assert(collapse(a.push(c)) == a.push('_')) by {
        assert(a.push(c).drop_last() =~= a);
        assert(is_plain(a[a.len() - 1]));
    }
    lemma_collapse_more(a.push(c), b);
    assert(collapse(name) == kept);
    assert(kept[0] == a[0] && kept.last() == b.last());
    text::law_trim_of_trimmed(kept, CharSet::NameEdge);
    assert(name[a.len() as int] == c && kept[a.len() as int] == '_');
}

proof fn lemma_collapse_plain(a: Seq<char>)
    requires
        forall|i: int| 0 <= i < a.len() ==> is_plain(#[trigger] a[i]),
    ensures
        collapse(a) == a,
    decreases a.len(),
{
    if a.len() > 0 {
        assert forall|i: int| 0 <= i < a.drop_last().len() implies is_plain(
            #[trigger] a.drop_last()[i],
        ) by {
            assert(a.drop_last()[i] == a[i]);
        }
        lemma_collapse_plain(a.drop_last());
        assert(is_plain(a[a.len() - 1]));
    }
}

proof fn lemma_collapse_more(s: Seq<char>, b: Seq<char>)
    requires
        forall|i: int| 0 <= i < b.len() ==> is_plain(#[trigger] b[i]),
    ensures
        collapse(s + b) == collapse(s) + b,
    decreases b.len(),
{
    if b.len() == 0 {
        assert(s + b =~= s);
        assert(collapse(s) + b =~= collapse(s));
    } else {
        let t = b.drop_last();
        assert forall|i: int| 0 <= i < t.len() implies is_plain(#[trigger] t[i]) by {
            assert(t[i] == b[i]);
        }
        lemma_collapse_more(s, t);
        assert((s + b).drop_last() =~= s + t);
        assert(is_plain(b[b.len() - 1]));
        assert(collapse(s) + b =~= (collapse(s) + t).push(b.last()));
    }
}

/// The profiles are listed by name, without regard to case.
pub proof fn law_profiles_are_sorted(listed: Seq<Seq<char>>, files: Seq<Seq<char>>, i: int, j: int)
    requires
        is_name_sort(listed, profiles_in(files)),
        0 <= i < j < listed.len(),
    ensures
        listed.len() == profiles_in(files).len(),
        order::lex_le(
            order::text_key(text::lower(listed[i])),
            order::text_key(text::lower(listed[j])),
        ),
{
    let names = profiles_in(files);
    let order = choose|order: Seq<usize>|
        #[trigger] order::is_stable_order(order, name_keys(names)) && listed == Seq::new(
            names.len(),
            |i: int| names[order[i] as int],
        );
    assert(order::before(name_keys(names), order[i] as int, order[j] as int));
}

/// Only files with the extension of a profile are listed.
pub proof fn law_listed_profile_has_file(
    listed: Seq<Seq<char>>,
    files: Seq<Seq<char>>,
    i: int,
) -> (k: int)
    requires
        is_name_sort(listed, profiles_in(files)),
        0 <= i < listed.len(),
    ensures
        0 <= k < files.len(),
        paths::extension(files[k]) == Some("toml"@),
        paths::stem(files[k]) == listed[i],
{
    let names = profiles_in(files);
    let order = choose|order: Seq<usize>|
        #[trigger] order::is_stable_order(order, name_keys(names)) && listed == Seq::new(
            names.len(),
            |i: int| names[order[i] as int],
        );
    assert(order[i] < name_keys(names).len());
    lemma_profile_file(files, order[i] as int)
}

proof fn lemma_profile_file(files: Seq<Seq<char>>, i: int) -> (k: int)
    requires
        0 <= i < profiles_in(files).len(),
    ensures
        0 <= k < files.len(),
        paths::extension(files[k]) == Some("toml"@),
        paths::stem(files[k]) == profiles_in(files)[i],
    decreases files.len(),
{
    let before = profiles_in(files.drop_last());
    if i < before.len() {
        lemma_profile_file(files.drop_last(), i)
    } else {
        files.len() - 1
    }
}

} // verus!
