//! Text as sequences of characters: trimming, splitting, searching and decimal
//! numbers.
//!
//! Every operation is defined on `Seq<char>`; the executable functions work on
//! `Vec<char>` and state that they compute exactly those definitions.

use vstd::prelude::*;

verus! {

/// `String::push` appends one character to the end of the string.
pub assume_specification[ String::push ](s: &mut String, c: char)
    ensures
        final(s)@ == old(s)@.push(c),
;

// ── Conversions ──────────────────────────────────────────────────────────────

/// The character sequences of a list of character vectors.
pub open spec fn seqs(v: Seq<Vec<char>>) -> Seq<Seq<char>> {
    Seq::new(v.len(), |i: int| v[i]@)
}

/// The character sequences of a list of strings.
pub open spec fn texts(v: Seq<String>) -> Seq<Seq<char>> {
    Seq::new(v.len(), |i: int| v[i]@)
}

/// The text of an optional string.
pub open spec fn opt_text(s: Option<String>) -> Option<Seq<char>> {
    match s {
        Some(t) => Some(t@),
        None => None,
    }
}

/// The text of an optional string slice.
pub open spec fn opt_str(s: Option<&str>) -> Option<Seq<char>> {
    match s {
        Some(t) => Some(t@),
        None => None,
    }
}

/// The characters of `s`.
pub fn chars_of(s: &str) -> (res: Vec<char>)
    ensures
        res@ == s@,
{
    let mut res: Vec<char> = Vec::new();
    for c in it: s.chars()
        invariant
            res@ == it.seq().take(it.index() as int),
            it.seq() == s@,
    {
        res.push(c);
    }
    res
}

/// The string made of `chars`.
pub fn text_of(chars: &[char]) -> (res: String)
    ensures
        res@ == chars@,
{
    let mut res = String::new();
    let mut i: usize = 0;
    while i < chars.len()
        invariant
            i <= chars@.len(),
            res@ == chars@.take(i as int),
        decreases chars@.len() - i,
    {
        res.push(chars[i]);
        i = i + 1;
    }
    assert(chars@.take(i as int) == chars@);
    res
}

/// A copy of `chars[from..to]`.
pub fn slice_of(chars: &[char], from: usize, to: usize) -> (res: Vec<char>)
    requires
        from <= to <= chars@.len(),
    ensures
        res@ == chars@.subrange(from as int, to as int),
{
    let mut res: Vec<char> = Vec::new();
    let mut i: usize = from;
    while i < to
        invariant
            from <= i <= to <= chars@.len(),
            res@ == chars@.subrange(from as int, i as int),
        decreases to - i,
    {
        res.push(chars[i]);
        i = i + 1;
    }
    res
}

/// Appends all of `tail` to `chars`.
pub fn push_chars(chars: &mut Vec<char>, tail: &[char])
    ensures
        final(chars)@ == old(chars)@ + tail@,
{
    let mut i: usize = 0;
    while i < tail.len()
        invariant
            i <= tail@.len(),
            chars@ == old(chars)@ + tail@.take(i as int),
        decreases tail@.len() - i,
    {
        chars.push(tail[i]);
        i = i + 1;
    }
    assert(tail@.take(i as int) == tail@);
}

/// Whether two strings hold the same characters.
pub fn same_text(a: &str, b: &str) -> (res: bool)
    ensures
        res == (a@ == b@),
{
    let x = chars_of(a);
    let y = chars_of(b);
    same_chars(x.as_slice(), y.as_slice())
}

/// Whether two character slices are equal.
pub fn same_chars(a: &[char], b: &[char]) -> (res: bool)
    ensures
        res == (a@ == b@),
{
    if a.len() != b.len() {
        return false;
    }
    let mut i: usize = 0;
    while i < a.len()
        invariant
            i <= a@.len(),
            a@.len() == b@.len(),
            a@.take(i as int) == b@.take(i as int),
        decreases a@.len() - i,
    {
        if a[i] != b[i] {
            return false;
        }
        assert(a@.take(i + 1) == a@.take(i as int).push(a@[i as int]));
        assert(b@.take(i + 1) == b@.take(i as int).push(b@[i as int]));
        i = i + 1;
    }
    assert(a@.take(i as int) == a@);
    assert(b@.take(i as int) == b@);
    true
}

/// Whether `names` holds the text `name`.
pub fn has_text(names: &[String], name: &str) -> (res: bool)
    ensures
        res == texts(names@).contains(name@),
{
    let mut i: usize = 0;
    while i < names.len()
        invariant
            i <= names@.len(),
            forall|j: int| 0 <= j < i ==> texts(names@)[j] != name@,
        decreases names@.len() - i,
    {
        if same_text(names[i].as_str(), name) {
            assert(texts(names@)[i as int] == name@);
            return true;
        }
        i = i + 1;
    }
    false
}

// ── Character classes ────────────────────────────────────────────────────────

/// Unicode characters with the `White_Space` property.
pub open spec fn is_white(c: char) -> bool {
    ||| 0x9 <= c as u32 <= 0xd
    ||| c as u32 == 0x20
    ||| c as u32 == 0x85
    ||| c as u32 == 0xa0
    ||| c as u32 == 0x1680
    ||| 0x2000 <= c as u32 <= 0x200a
    ||| c as u32 == 0x2028
    ||| c as u32 == 0x2029
    ||| c as u32 == 0x202f
    ||| c as u32 == 0x205f
    ||| c as u32 == 0x3000
}

/// A set of characters that can be trimmed from the ends of a text.
#[derive(Clone, Copy, Debug, PartialEq, Eq, Structural)]
pub enum CharSet {
    /// Unicode white space.
    White,
    /// ASCII white space and NUL, as found around a process name.
    Padding,
    /// Characters that may not begin or end a profile name.
    NameEdge,
    /// Blanks and colons, as found before a value in `/proc/cpuinfo`.
    Lead,
}

impl CharSet {
    /// Membership in the set.
    pub open spec fn has(self, c: char) -> bool {
        match self {
            CharSet::White => is_white(c),
            CharSet::Padding => c == ' ' || c == '\t' || c == '\n' || c == '\r' || c as u32 == 0xc
                || c as u32 == 0,
            CharSet::NameEdge => c == ' ' || c == '.' || c == '_' || c == '-',
            CharSet::Lead => c == ' ' || c == '\t' || c == ':',
        }
    }

    /// Tests membership.
    pub fn contains(self, c: char) -> (res: bool)
        ensures
            res == self.has(c),
    {
        let code = c as u32;
        match self {
            CharSet::White => (0x9 <= code && code <= 0xd) || code == 0x20 || code == 0x85 || code
                == 0xa0 || code == 0x1680 || (0x2000 <= code && code <= 0x200a) || code == 0x2028
                || code == 0x2029 || code == 0x202f || code == 0x205f || code == 0x3000,
            CharSet::Padding => c == ' ' || c == '\t' || c == '\n' || c == '\r' || code == 0xc
                || code == 0,
            CharSet::NameEdge => c == ' ' || c == '.' || c == '_' || c == '-',
            CharSet::Lead => c == ' ' || c == '\t' || c == ':',
        }
    }
}

/// ASCII decimal digits.
pub open spec fn is_digit(c: char) -> bool {
    '0' as u32 <= c as u32 <= '9' as u32
}

/// ASCII letters and decimal digits.
pub open spec fn is_alphanumeric(c: char) -> bool {
    ||| is_digit(c)
    ||| 'a' as u32 <= c as u32 <= 'z' as u32
    ||| 'A' as u32 <= c as u32 <= 'Z' as u32
}

/// The ASCII lower case of one character.
pub open spec fn lower_char(c: char) -> char {
    if 'A' as u32 <= c as u32 <= 'Z' as u32 {
        (c as u32 + 32) as char
    } else {
        c
    }
}

/// The ASCII upper case of one character.
pub open spec fn upper_char(c: char) -> char {
    if 'a' as u32 <= c as u32 <= 'z' as u32 {
        (c as u32 - 32) as char
    } else {
        c
    }
}

/// Text in ASCII lower case.
pub open spec fn lower(s: Seq<char>) -> Seq<char> {
    Seq::new(s.len(), |i: int| lower_char(s[i]))
}

/// Text in ASCII upper case.
pub open spec fn upper(s: Seq<char>) -> Seq<char> {
    Seq::new(s.len(), |i: int| upper_char(s[i]))
}

/// Tests for an ASCII decimal digit.
pub fn digit_test(c: char) -> (res: bool)
    ensures
        res == is_digit(c),
{
    '0' as u32 <= c as u32 && c as u32 <= '9' as u32
}

/// Tests for an ASCII letter or digit.
pub fn alphanumeric_test(c: char) -> (res: bool)
    ensures
        res == is_alphanumeric(c),
{
    let code = c as u32;
    digit_test(c) || ('a' as u32 <= code && code <= 'z' as u32) || ('A' as u32 <= code && code
        <= 'Z' as u32)
}

fn lower_of(c: char) -> (res: char)
    ensures
        res == lower_char(c),
{
    let code = c as u32;
    if 'A' as u32 <= code && code <= 'Z' as u32 {
        ((code + 32) as u8) as char
    } else {
        c
    }
}

fn upper_of(c: char) -> (res: char)
    ensures
        res == upper_char(c),
{
    let code = c as u32;
    if 'a' as u32 <= code && code <= 'z' as u32 {
        ((code - 32) as u8) as char
    } else {
        c
    }
}

/// Converts to ASCII lower case.
pub fn to_lower(chars: &[char]) -> (res: Vec<char>)
    ensures
        res@ == lower(chars@),
{
    let mut res: Vec<char> = Vec::new();
    let mut i: usize = 0;
    while i < chars.len()
        invariant
            i <= chars@.len(),
            res@ == lower(chars@.take(i as int)),
        decreases chars@.len() - i,
    {
        res.push(lower_of(chars[i]));
        i = i + 1;
        assert(res@ == lower(chars@.take(i as int)));
    }
    assert(chars@.take(i as int) == chars@);
    res
}

/// Converts to ASCII upper case.
pub fn to_upper(chars: &[char]) -> (res: Vec<char>)
    ensures
        res@ == upper(chars@),
{
    let mut res: Vec<char> = Vec::new();
    let mut i: usize = 0;
    while i < chars.len()
        invariant
            i <= chars@.len(),
            res@ == upper(chars@.take(i as int)),
        decreases chars@.len() - i,
    {
        res.push(upper_of(chars[i]));
        i = i + 1;
        assert(res@ == upper(chars@.take(i as int)));
    }
    assert(chars@.take(i as int) == chars@);
    res
}

// ── Trimming ─────────────────────────────────────────────────────────────────

/// `s` without its leading characters from `set`.
pub open spec fn trim_start(s: Seq<char>, set: CharSet) -> Seq<char>
    decreases s.len(),
{
    if s.len() > 0 && set.has(s[0]) {
        trim_start(s.skip(1), set)
    } else {
        s
    }
}

/// `s` without its trailing characters from `set`.
pub open spec fn trim_end(s: Seq<char>, set: CharSet) -> Seq<char>
    decreases s.len(),
{
    if s.len() > 0 && set.has(s.last()) {
        trim_end(s.drop_last(), set)
    } else {
        s
    }
}

/// `s` without leading and trailing characters from `set`.
pub open spec fn trim(s: Seq<char>, set: CharSet) -> Seq<char> {
    trim_end(trim_start(s, set), set)
}

proof fn lemma_trim_start(s: Seq<char>, set: CharSet)
    ensures
        exists|k: int| 0 <= k <= s.len() && #[trigger] s.skip(k) == trim_start(s, set),
        trim_start(s, set).len() > 0 ==> !set.has(trim_start(s, set)[0]),
    decreases s.len(),
{
    if s.len() > 0 && set.has(s[0]) {
        lemma_trim_start(s.skip(1), set);
        let k = choose|k: int|
            0 <= k <= s.skip(1).len() && #[trigger] s.skip(1).skip(k) == trim_start(s.skip(1), set);
        assert(s.skip(1).skip(k) == s.skip(k + 1));
    } else {
        assert(s.skip(0) == s);
    }
}

proof fn lemma_trim_end(s: Seq<char>, set: CharSet)
    ensures
        exists|k: int| 0 <= k <= s.len() && #[trigger] s.take(k) == trim_end(s, set),
        trim_end(s, set).len() > 0 ==> !set.has(trim_end(s, set).last()),
    decreases s.len(),
{
    if s.len() > 0 && set.has(s.last()) {
        lemma_trim_end(s.drop_last(), set);
        let k = choose|k: int|
            0 <= k <= s.drop_last().len() && #[trigger] s.drop_last().take(k) == trim_end(
                s.drop_last(),
                set,
            );
        assert(s.drop_last().take(k) == s.take(k));
    } else {
        assert(s.take(s.len() as int) == s);
    }
}

/// A trimmed text is a part of the text that neither begins nor ends with a
/// character of the set.
pub proof fn law_trim(s: Seq<char>, set: CharSet)
    ensures
        exists|a: int, b: int| 0 <= a <= b <= s.len() && #[trigger] s.subrange(a, b) == trim(s, set),
        trim(s, set).len() > 0 ==> !set.has(trim(s, set)[0]) && !set.has(trim(s, set).last()),
{
    lemma_trim_start(s, set);
    let t = trim_start(s, set);
    lemma_trim_end(t, set);
    let a = choose|k: int| 0 <= k <= s.len() && #[trigger] s.skip(k) == t;
    let n = choose|k: int| 0 <= k <= t.len() && #[trigger] t.take(k) == trim_end(t, set);
    assert(s.subrange(a, a + n) == t.take(n));
}

/// Trimming leaves a text alone that neither begins nor ends with a character
/// of the set.
pub proof fn law_trim_of_trimmed(s: Seq<char>, set: CharSet)
    requires
        s.len() > 0 ==> !set.has(s[0]) && !set.has(s.last()),
    ensures
        trim(s, set) == s,
{
}

/// The first position of `chars` that holds no character of `set`.
fn lead_of(chars: &[char], set: CharSet) -> (res: usize)
    ensures
        res <= chars@.len(),
        trim_start(chars@, set) == chars@.skip(res as int),
{
    let mut i: usize = 0;
    assert(chars@.skip(0) == chars@);
    while i < chars.len() && set.contains(chars[i])
        invariant
            i <= chars@.len(),
            trim_start(chars@, set) == trim_start(chars@.skip(i as int), set),
        decreases chars@.len() - i,
    {
        assert(chars@.skip(i as int).skip(1) == chars@.skip(i + 1));
        i = i + 1;
    }
    i
}

/// Removes leading characters of `set`.
pub fn trimmed_start(chars: &[char], set: CharSet) -> (res: Vec<char>)
    ensures
        res@ == trim_start(chars@, set),
{
    let from = lead_of(chars, set);
    slice_of(chars, from, chars.len())
}

/// Removes leading and trailing characters of `set`.
pub fn trimmed(chars: &[char], set: CharSet) -> (res: Vec<char>)
    ensures
        res@ == trim(chars@, set),
{
    let mut res = trimmed_start(chars, set);
    while res.len() > 0 && set.contains(res[res.len() - 1])
        invariant
            trim(chars@, set) == trim_end(res@, set),
        decreases res@.len(),
    {
        let ghost before = res@;
        res.pop();
        assert(res@ == before.drop_last());
    }
    res
}

/// White space removed from both ends.
pub fn trimmed_text(s: &str) -> (res: String)
    ensures
        res@ == trim(s@, CharSet::White),
{
    let chars = chars_of(s);
    let t = trimmed(chars.as_slice(), CharSet::White);
    text_of(t.as_slice())
}

// ── Searching ────────────────────────────────────────────────────────────────

/// Whether `s` begins with `prefix`.
pub open spec fn starts_with(s: Seq<char>, prefix: Seq<char>) -> bool {
    prefix.len() <= s.len() && s.take(prefix.len() as int) == prefix
}

/// Whether `s` ends with `suffix`.
pub open spec fn ends_with(s: Seq<char>, suffix: Seq<char>) -> bool {
    suffix.len() <= s.len() && s.skip(s.len() - suffix.len()) == suffix
}

/// Whether `needle` occurs in `s` at position `at`.
pub open spec fn occurs_at(s: Seq<char>, needle: Seq<char>, at: int) -> bool {
    0 <= at && at + needle.len() <= s.len() && s.subrange(at, at + needle.len()) == needle
}

/// Whether `needle` occurs in `s`.
pub open spec fn occurs(s: Seq<char>, needle: Seq<char>) -> bool {
    exists|at: int| occurs_at(s, needle, at)
}

/// `s` after `prefix`, if it begins with it.
pub open spec fn strip(s: Seq<char>, prefix: Seq<char>) -> Option<Seq<char>> {
    if starts_with(s, prefix) {
        Some(s.skip(prefix.len() as int))
    } else {
        None
    }
}

/// The first position of `c` in `s`, or the length of `s`.
pub open spec fn find(s: Seq<char>, c: char) -> int
    decreases s.len(),
{
    if s.len() == 0 || s[0] == c {
        0
    } else {
        1 + find(s.skip(1), c)
    }
}

/// `find` gives a position within the text.
pub proof fn lemma_find_bound(s: Seq<char>, c: char)
    ensures
        0 <= find(s, c) <= s.len(),
        find(s, c) < s.len() ==> s[find(s, c)] == c,
        forall|i: int| 0 <= i < find(s, c) ==> s[i] != c,
    decreases s.len(),
{
    if s.len() > 0 && s[0] != c {
        lemma_find_bound(s.skip(1), c);
        assert forall|i: int| 0 <= i < find(s, c) implies s[i] != c by {
            if i > 0 {
                assert(s.skip(1)[i - 1] == s[i]);
            }
        }
    }
}

/// Tests for `needle` at `at`.
fn occurs_here(chars: &[char], needle: &[char], at: usize) -> (res: bool)
    requires
        at + needle@.len() <= chars@.len(),
    ensures
        res == occurs_at(chars@, needle@, at as int),
{
    assert(chars.len() <= usize::MAX);
    let part = slice_of(chars, at, at + needle.len());
    same_chars(part.as_slice(), needle)
}

/// Tests whether `needle` occurs in `chars`.
pub fn contains_chars(chars: &[char], needle: &[char]) -> (res: bool)
    ensures
        res == occurs(chars@, needle@),
{
    if needle.len() > chars.len() {
        return false;
    }
    let last = chars.len() - needle.len();
    let mut at: usize = 0;
    loop
        invariant
            at <= last,
            last + needle@.len() == chars@.len(),
            forall|k: int| 0 <= k < at ==> !occurs_at(chars@, needle@, k),
        decreases last - at,
    {
        if occurs_here(chars, needle, at) {
            return true;
        }
        if at == last {
            return false;
        }
        at = at + 1;
    }
}

/// Tests whether the text `needle` occurs in `s`.
pub fn contains_text(s: &str, needle: &str) -> (res: bool)
    ensures
        res == occurs(s@, needle@),
{
    let chars = chars_of(s);
    let n = chars_of(needle);
    contains_chars(chars.as_slice(), n.as_slice())
}

/// The characters after `prefix`, if `chars` begins with it.
pub fn stripped(chars: &[char], prefix: &str) -> (res: Option<Vec<char>>)
    ensures
        res is Some == strip(chars@, prefix@) is Some,
        res matches Some(r) ==> strip(chars@, prefix@) == Some(r@),
{
    let p = chars_of(prefix);
    if p.len() > chars.len() {
        return None;
    }
    let head = slice_of(chars, 0, p.len());
    assert(head@ == chars@.take(prefix@.len() as int));
    if same_chars(head.as_slice(), p.as_slice()) {
        let r = slice_of(chars, p.len(), chars.len());
        assert(r@ == chars@.skip(prefix@.len() as int));
        Some(r)
    } else {
        None
    }
}

/// Tests whether `chars` ends with `suffix`.
pub fn ends_with_text(chars: &[char], suffix: &str) -> (res: bool)
    ensures
        res == ends_with(chars@, suffix@),
{
    let p = chars_of(suffix);
    if p.len() > chars.len() {
        return false;
    }
    let tail = slice_of(chars, chars.len() - p.len(), chars.len());
    assert(tail@ == chars@.skip(chars@.len() - suffix@.len()));
    same_chars(tail.as_slice(), p.as_slice())
}

/// The first position of `c`, or the length of `chars`.
pub fn position_of(chars: &[char], c: char) -> (res: usize)
    ensures
        res == find(chars@, c),
        res <= chars@.len(),
{
    let mut i: usize = 0;
    assert(chars@.skip(0) == chars@);
    while i < chars.len() && chars[i] != c
        invariant
            i <= chars@.len(),
            find(chars@, c) == i + find(chars@.skip(i as int), c),
        decreases chars@.len() - i,
    {
        assert(chars@.skip(i as int).skip(1) == chars@.skip(i + 1));
        i = i + 1;
    }
    i
}

// ── Lines and words ──────────────────────────────────────────────────────────

/// A line without the carriage return that its line feed followed.
pub open spec fn chomp(line: Seq<char>) -> Seq<char> {
    if line.len() > 0 && line.last() == '\r' {
        line.drop_last()
    } else {
        line
    }
}

/// The lines of a text. A line ends with a line feed or with a carriage return
/// and a line feed; the ending of the last line is optional.
pub open spec fn lines(s: Seq<char>) -> Seq<Seq<char>>
    decreases s.len(),
{
    let n = find(s, '\n');
    if s.len() == 0 {
        seq![]
    } else if 0 <= n < s.len() {
        seq![chomp(s.take(n))] + lines(s.skip(n + 1))
    } else {
        seq![s]
    }
}

/// The number of characters before the first white space.
pub open spec fn word_len(s: Seq<char>) -> nat
    decreases s.len(),
{
    if s.len() == 0 || is_white(s[0]) {
        0
    } else {
        1 + word_len(s.skip(1))
    }
}

/// The words of a text, separated by white space.
pub open spec fn words(s: Seq<char>) -> Seq<Seq<char>>
    decreases s.len(),
{
    let n = word_len(s) as int;
    if s.len() == 0 {
        seq![]
    } else if 0 < n <= s.len() {
        seq![s.take(n)] + words(s.skip(n))
    } else {
        words(s.skip(1))
    }
}

proof fn lemma_word_len_at(s: Seq<char>, n: int)
    requires
        0 <= n <= s.len(),
        forall|i: int| 0 <= i < n ==> !is_white(s[i]),
        n == s.len() || is_white(s[n]),
    ensures
        word_len(s) == n,
    decreases s.len(),
{
    if s.len() > 0 && n > 0 {
        assert(s.skip(1).len() == s.len() - 1);
        assert forall|i: int| 0 <= i < n - 1 implies !is_white(s.skip(1)[i]) by {
            assert(s.skip(1)[i] == s[i + 1]);
        }
        lemma_word_len_at(s.skip(1), n - 1);
    }
}

/// Splits a text into lines.
pub fn split_lines(chars: &[char]) -> (res: Vec<Vec<char>>)
    ensures
        seqs(res@) == lines(chars@),
{
    let mut res: Vec<Vec<char>> = Vec::new();
    let mut rest = slice_of(chars, 0, chars.len());
    assert(rest@ == chars@);
    assert(seqs(res@) + lines(rest@) == lines(chars@));
    while rest.len() > 0
        invariant
            seqs(res@) + lines(rest@) == lines(chars@),
        decreases rest@.len(),
    {
        let ghost done = seqs(res@);
        let ghost r = rest@;
        let n = position_of(rest.as_slice(), '\n');
        proof {
            lemma_find_bound(r, '\n');
        }
        if n == rest.len() {
            res.push(rest);
            rest = Vec::new();
            assert(seqs(res@) == done + seq![r]);
            assert(lines(r) == seq![r]);
            assert(lines(rest@) == Seq::<Seq<char>>::empty());
            assert(seqs(res@) + lines(rest@) == done + lines(r));
        } else {
            let mut line = slice_of(rest.as_slice(), 0, n);
            assert(line@ == r.take(n as int));
            if line.len() > 0 && line[line.len() - 1] == '\r' {
                line.pop();
                assert(line@ == r.take(n as int).drop_last());
            }
            assert(line@ == chomp(r.take(n as int)));
            res.push(line);
            rest = slice_of(rest.as_slice(), n + 1, rest.len());
            assert(rest@ == r.skip(n + 1));
            assert(seqs(res@) == done + seq![chomp(r.take(n as int))]);
            assert(lines(r) == seq![chomp(r.take(n as int))] + lines(r.skip(n + 1)));
            assert(seqs(res@) + lines(rest@) == done + lines(r));
        }
    }
    assert(lines(rest@) == Seq::<Seq<char>>::empty());
    assert(seqs(res@) == lines(chars@));
    res
}

/// Splits a text into words.
pub fn split_words(chars: &[char]) -> (res: Vec<Vec<char>>)
    ensures
        seqs(res@) == words(chars@),
{
    let mut res: Vec<Vec<char>> = Vec::new();
    let mut i: usize = 0;
    assert(chars@.skip(0) == chars@);
    assert(seqs(res@) + words(chars@) == words(chars@));
    while i < chars.len()
        invariant
            i <= chars@.len(),
            seqs(res@) + words(chars@.skip(i as int)) == words(chars@),
        decreases chars@.len() - i,
    {
        let ghost done = seqs(res@);
        let ghost r = chars@.skip(i as int);
        if CharSet::White.contains(chars[i]) {
            assert(r.skip(1) == chars@.skip(i + 1));
            assert(words(r) == words(r.skip(1)));
            i = i + 1;
        } else {
            let mut j: usize = i + 1;
            while j < chars.len() && !CharSet::White.contains(chars[j])
                invariant
                    i < j <= chars@.len(),
                    forall|k: int| i <= k < j ==> !is_white(chars@[k]),
                decreases chars@.len() - j,
            {
                j = j + 1;
            }
            proof {
                assert forall|k: int| 0 <= k < j - i implies !is_white(r[k]) by {
                    assert(r[k] == chars@[i + k]);
                }
                if j < chars@.len() {
                    assert(r[j - i] == chars@[j as int]);
                }
                lemma_word_len_at(r, j - i);
            }
            let w = slice_of(chars, i, j);
            assert(w@ == r.take(j - i));
            res.push(w);
            assert(r.skip(j - i) == chars@.skip(j as int));
            assert(seqs(res@) == done + seq![r.take(j - i)]);
            assert(words(r) == seq![r.take(j - i)] + words(r.skip(j - i)));
            assert(seqs(res@) + words(r.skip(j - i)) == done + words(r));
            i = j;
        }
    }
    assert(words(chars@.skip(i as int)) == Seq::<Seq<char>>::empty());
    assert(seqs(res@) == words(chars@));
    res
}

/// The elements of `parts` with `sep` between them.
pub open spec fn join(parts: Seq<Seq<char>>, sep: Seq<char>) -> Seq<char>
    decreases parts.len(),
{
    if parts.len() == 0 {
        seq![]
    } else if parts.len() == 1 {
        parts[0]
    } else {
        join(parts.drop_last(), sep) + sep + parts.last()
    }
}

/// Joins `parts[from..to]` with single blanks.
pub fn join_words(parts: &[Vec<char>], from: usize, to: usize) -> (res: Vec<char>)
    requires
        from <= to <= parts@.len(),
    ensures
        res@ == join(seqs(parts@).subrange(from as int, to as int), seq![' ']),
{
    let ghost all = seqs(parts@);
    let mut res: Vec<char> = Vec::new();
    let mut i: usize = from;
    while i < to
        invariant
            from <= i <= to <= parts@.len(),
            all == seqs(parts@),
            res@ == join(all.subrange(from as int, i as int), seq![' ']),
        decreases to - i,
    {
        let ghost before = all.subrange(from as int, i as int);
        let ghost after = all.subrange(from as int, i + 1);
        assert(after.drop_last() == before);
        assert(after.last() == parts@[i as int]@);
        if i > from {
            res.push(' ');
        } else {
            assert(res@ == Seq::<char>::empty());
        }
        push_chars(&mut res, parts[i].as_slice());
        assert(res@ == join(after, seq![' ']));
        i = i + 1;
    }
    res
}

// ── Decimal numbers ──────────────────────────────────────────────────────────

/// The character of a decimal digit.
pub open spec fn digit_char(d: int) -> char {
    (d + '0' as u32) as char
}

/// The value of a decimal digit.
pub open spec fn digit_value(c: char) -> int {
    c as u32 - '0' as u32
}

/// The decimal digits of a number, without leading zeros.
pub open spec fn decimal(n: nat) -> Seq<char>
    decreases n,
{
    if n < 10 {
        seq![digit_char(n as int)]
    } else {
        decimal(n / 10).push(digit_char((n % 10) as int))
    }
}

/// The number that a sequence of decimal digits stands for.
pub open spec fn digits_value(s: Seq<char>) -> nat
    decreases s.len(),
{
    if s.len() == 0 {
        0
    } else {
        (digits_value(s.drop_last()) * 10 + digit_value(s.last())) as nat
    }
}

/// Whether every character is a decimal digit.
pub open spec fn all_digits(s: Seq<char>) -> bool {
    forall|i: int| 0 <= i < s.len() ==> is_digit(#[trigger] s[i])
}

/// The number that a text stands for: one or more digits after an optional
/// plus sign.
pub open spec fn number(s: Seq<char>) -> Option<nat> {
    let t = if s.len() > 0 && s[0] == '+' {
        s.skip(1)
    } else {
        s
    };
    if t.len() > 0 && all_digits(t) {
        Some(digits_value(t))
    } else {
        None
    }
}

/// The number that a text stands for, if it is at most `max`.
pub open spec fn bounded_number(s: Seq<char>, max: nat) -> Option<nat> {
    match number(s) {
        Some(n) => if n <= max {
            Some(n)
        } else {
            None
        },
        None => None,
    }
}

/// A longer digit sequence stands for a number that is no smaller.
proof fn lemma_digits_grow(s: Seq<char>, i: int)
    requires
        0 <= i <= s.len(),
        all_digits(s),
    ensures
        digits_value(s.take(i)) <= digits_value(s),
    decreases s.len(),
{
    if i == s.len() {
        assert(s.take(i) == s);
    } else {
        assert(all_digits(s.drop_last()));
        lemma_digits_grow(s.drop_last(), i);
        assert(s.drop_last().take(i) == s.take(i));
        assert(is_digit(s[s.len() - 1]));
    }
}

/// Writing a number in decimal and reading it back gives the number.
pub proof fn lemma_decimal_reads_back(n: nat)
    ensures
        number(decimal(n)) == Some(n),
        all_digits(decimal(n)),
        digits_value(decimal(n)) == n,
        decimal(n).len() > 0,
    decreases n,
{
    if n < 10 {
        let d = decimal(n);
        assert(d.len() == 1);
        assert(is_digit(d[0]));
        assert(d.drop_last() == Seq::<char>::empty());
        assert(digits_value(d.drop_last()) == 0);
        assert(digit_value(d.last()) == n);
        assert(digits_value(d) == n);
    } else {
        lemma_decimal_reads_back(n / 10);
        let h = decimal(n / 10);
        let d = decimal(n);
        assert(d.drop_last() == h);
        assert(digit_value(d.last()) == n % 10);
        assert forall|i: int| 0 <= i < d.len() implies is_digit(#[trigger] d[i]) by {
            if i < h.len() {
                assert(d[i] == h[i]);
            }
        }
    }
    assert(is_digit(decimal(n)[0]));
    assert(decimal(n)[0] != '+');
}

/// Reads a number of at most `max`.
pub fn read_number(chars: &[char], max: u64) -> (res: Option<u64>)
    ensures
        res is Some == bounded_number(chars@, max as nat) is Some,
        res matches Some(n) ==> bounded_number(chars@, max as nat) == Some(n as nat),
{
    let from: usize = if chars.len() > 0 && chars[0] == '+' {
        1
    } else {
        0
    };
    let ghost t = chars@.skip(from as int);
    assert(chars@.skip(0) == chars@);
    if from == chars.len() {
        assert(t.len() == 0);
        return None;
    }
    let mut value: u64 = 0;
    let mut i: usize = from;
    while i < chars.len()
        invariant
            from <= i <= chars@.len(),
            t == chars@.skip(from as int),
            t.len() > 0,
            number(chars@) == (if all_digits(t) {
                Some(digits_value(t))
            } else {
                None
            }),
            forall|k: int| 0 <= k < i - from ==> is_digit(#[trigger] t[k]),
            value == digits_value(t.take(i - from)),
            value <= max,
        decreases chars@.len() - i,
    {
        let c = chars[i];
        assert(c == t[i - from]);
        if !digit_test(c) {
            assert(!all_digits(t));
            return None;
        }
        let d = c as u32 - '0' as u32;
        let ghost before = t.take(i - from);
        let ghost after = t.take(i + 1 - from);
        assert(after.drop_last() == before);
        assert(after.last() == c);
        assert(digits_value(after) == value * 10 + d);
        let next = value as u128 * 10 + d as u128;
        if next > max as u128 {
            proof {
                if all_digits(t) {
                    lemma_digits_grow(t, i + 1 - from);
                }
            }
            return None;
        }
        value = next as u64;
        i = i + 1;
    }
    assert(t.take(i - from) == t);
    Some(value)
}

/// Reads a 64-bit number after removing white space from both ends.
pub fn read_u64(s: &str) -> (res: Option<u64>)
    ensures
        res is Some == bounded_number(trim(s@, CharSet::White), u64::MAX as nat) is Some,
        res matches Some(n) ==> bounded_number(trim(s@, CharSet::White), u64::MAX as nat) == Some(
            n as nat,
        ),
{
    let chars = chars_of(s);
    let t = trimmed(chars.as_slice(), CharSet::White);
    read_number(t.as_slice(), u64::MAX)
}

/// The character of a digit.
pub fn char_of_digit(d: u8) -> (res: char)
    requires
        d < 10,
    ensures
        res == digit_char(d as int),
{
    (d + 48) as char
}

/// Writes a number in decimal.
pub fn write_number(n: u128) -> (res: Vec<char>)
    ensures
        res@ == decimal(n as nat),
    decreases n,
{
    if n < 10 {
        let mut res: Vec<char> = Vec::new();
        res.push(char_of_digit(n as u8));
        res
    } else {
        let mut res = write_number(n / 10);
        res.push(char_of_digit((n % 10) as u8));
        res
    }
}

/// A number in decimal, as a string.
pub fn number_text(n: u64) -> (res: String)
    ensures
        res@ == decimal(n as nat),
{
    let chars = write_number(n as u128);
    text_of(chars.as_slice())
}

// ── Lines and words ──────────────────────────────────────────────────────────

proof fn lemma_find_first(a: Seq<char>, c: char, b: Seq<char>)
    requires
        !a.contains(c),
    ensures
        find(a.push(c) + b, c) == a.len(),
    decreases a.len(),
{
    let s = a.push(c) + b;
    if a.len() > 0 {
        let t = a.skip(1);
        assert(s[0] == a[0]);
        assert(a.contains(a[0]));
        assert(!t.contains(c)) by {
            if t.contains(c) {
                let i = choose|i: int| 0 <= i < t.len() && t[i] == c;
                assert(a[i + 1] == c);
            }
        }
        assert(s.skip(1) =~= t.push(c) + b);
        lemma_find_first(t, c, b);
    } else {
        assert(s[0] == c);
    }
}

/// A line ends at its line feed, before which a carriage return is left out; the
/// lines of the rest follow.
pub proof fn law_lines_end_at_line_feeds(line: Seq<char>, rest: Seq<char>)
    requires
        !line.contains('\n'),
    ensures
        line.len() > 0 && line.last() == '\r' ==> lines(line.push('\n') + rest) == seq![
            line.drop_last(),
        ] + lines(rest),
        !(line.len() > 0 && line.last() == '\r') ==> lines(line.push('\n') + rest) == seq![line]
            + lines(rest),
        line.len() > 0 ==> lines(line) == seq![line],
        lines(seq![]) == Seq::<Seq<char>>::empty(),
{
    let s = line.push('\n') + rest;
    lemma_find_first(line, '\n', rest);
    assert(s.take(line.len() as int) =~= line);
    assert(s.skip((line.len() + 1) as int) =~= rest);
    lemma_find_bound(line, '\n');
    if find(line, '\n') < line.len() {
        assert(line.contains(line[find(line, '\n')]));
    }
}

proof fn lemma_word_len(w: Seq<char>, rest: Seq<char>)
    requires
        forall|i: int| 0 <= i < w.len() ==> !is_white(#[trigger] w[i]),
        rest.len() > 0 ==> is_white(rest[0]),
    ensures
        word_len(w + rest) == w.len(),
    decreases w.len(),
{
    let s = w + rest;
    if w.len() > 0 {
        assert(s[0] == w[0]);
        assert(s.skip(1) =~= w.skip(1) + rest);
        assert forall|i: int| 0 <= i < w.skip(1).len() implies !is_white(#[trigger] w.skip(1)[i]) by {
            assert(w.skip(1)[i] == w[i + 1]);
        }
        lemma_word_len(w.skip(1), rest);
    } else {
        assert(s =~= rest);
    }
}

/// A word ends at white space, and white space before a word does not matter.
pub proof fn law_words_end_at_white_space(w: Seq<char>, c: char, rest: Seq<char>)
    requires
        w.len() > 0,
        forall|i: int| 0 <= i < w.len() ==> !is_white(#[trigger] w[i]),
        is_white(c),
    ensures
        words(w + seq![c] + rest) == seq![w] + words(rest),
        words(w) == seq![w],
        words(seq![c] + rest) == words(rest),
{
    let tail = seq![c] + rest;
    let s = w + tail;
    assert(w + seq![c] + rest =~= s);
    assert(tail[0] == c);
    lemma_word_len(w, tail);
    assert(s.take(w.len() as int) =~= w);
    assert(s.skip(w.len() as int) =~= tail);
    assert(word_len(tail) == 0);
    assert(tail.skip(1) =~= rest);
    assert(words(tail) == words(rest));
    assert(words(s) == seq![w] + words(tail));
    lemma_word_len(w, seq![]);
    assert(w + seq![] =~= w);
    assert(w.take(w.len() as int) =~= w);
    assert(w.skip(w.len() as int) =~= seq![]);
    assert(words(seq![]) == Seq::<Seq<char>>::empty());
    assert(seq![w] + Seq::<Seq<char>>::empty() =~= seq![w]);
}

/// A number is read digit by digit, the first digit counting most; anything but
/// digits, or nothing, is no number.
pub proof fn law_number_is_read_in_decimal(s: Seq<char>, d: int)
    requires
        s.len() > 0,
        all_digits(s),
        0 <= d < 10,
    ensures
        number(s.push(digit_char(d))) == Some((10 * number(s)->0 + d) as nat),
        number(s) is Some,
        number(seq!['+'] + s) == number(s),
        number(s.push(' ')) is None,
        number(s.push('-')) is None,
        number(seq!['-'] + s) is None,
        number(seq![]) is None,
{
    let t = s.push(digit_char(d));
    assert(t.drop_last() =~= s);
    assert(is_digit(s[0]));
    assert(all_digits(t)) by {
        assert forall|i: int| 0 <= i < t.len() implies is_digit(#[trigger] t[i]) by {
            if i < s.len() {
                assert(t[i] == s[i]);
            }
        }
    }
    assert((seq!['+'] + s).skip(1) =~= s);
    let a = s.push(' ');
    let b = s.push('-');
    let c = seq!['-'] + s;
    assert(a[s.len() as int] == ' ' && b[s.len() as int] == '-' && c[0] == '-');
    assert(!is_digit(a[s.len() as int]) && !is_digit(b[s.len() as int]) && !is_digit(c[0]));
    assert(a[0] == s[0] && b[0] == s[0]);
}

} // verus!
