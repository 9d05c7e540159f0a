//! File paths as text, with `/` between their components.

use crate::text;
use crate::text::{chars_of, slice_of};
use vstd::prelude::*;

verus! {

/// The relative path `name` inside the directory `dir`.
pub open spec fn join(dir: Seq<char>, name: Seq<char>) -> Seq<char> {
    if dir.len() == 0 || dir.last() == '/' {
        dir + name
    } else {
        dir + seq!['/'] + name
    }
}

/// The position after the last `c`, or 0.
pub open spec fn after_last(s: Seq<char>, c: char) -> int
    decreases s.len(),
{
    if s.len() == 0 {
        0
    } else if s.last() == c {
        s.len() as int
    } else {
        after_last(s.drop_last(), c)
    }
}

/// The last component of a path. Slashes and single dots at the end do not
/// count; a path that ends in two dots has no file name.
pub open spec fn file_name(s: Seq<char>) -> Option<Seq<char>>
    decreases s.len(),
{
    let at = after_last(s, '/');
    if s.len() == 0 {
        None
    } else if at == s.len() {
        file_name(s.drop_last())
    } else if s.skip(at) == seq!['.'] {
        if at == 0 {
            None
        } else {
            file_name(s.drop_last())
        }
    } else if s.skip(at) == seq!['.', '.'] {
        None
    } else {
        Some(s.skip(at))
    }
}

/// A file name without its extension.
pub open spec fn stem(name: Seq<char>) -> Seq<char> {
    let at = after_last(name, '.');
    if at <= 1 {
        name
    } else {
        name.take(at - 1)
    }
}

/// The extension of a file name.
pub open spec fn extension(name: Seq<char>) -> Option<Seq<char>> {
    let at = after_last(name, '.');
    if at <= 1 {
        None
    } else {
        Some(name.skip(at))
    }
}

proof fn lemma_after_last(s: Seq<char>, c: char)
    ensures
        0 <= after_last(s, c) <= s.len(),
        after_last(s, c) > 0 ==> s[after_last(s, c) - 1] == c,
        forall|i: int| after_last(s, c) <= i < s.len() ==> s[i] != c,
    decreases s.len(),
{
    if s.len() > 0 && s.last() != c {
        lemma_after_last(s.drop_last(), c);
        assert forall|i: int| after_last(s, c) <= i < s.len() implies s[i] != c by {
            if i < s.len() - 1 {
                assert(s.drop_last()[i] == s[i]);
            }
        }
    }
}

/// The position after the last `c`, or 0.
fn position_after_last(chars: &[char], c: char) -> (res: usize)
    ensures
        res == after_last(chars@, c),
        res <= chars@.len(),
{
    let mut n: usize = chars.len();
    assert(chars@.take(n as int) == chars@);
    while n > 0 && chars[n - 1] != c
        invariant
            n <= chars@.len(),
            after_last(chars@, c) == after_last(chars@.take(n as int), c),
        decreases n,
    {
        assert(chars@.take(n as int).drop_last() == chars@.take(n - 1));
        n = n - 1;
    }
    n
}

/// Joins a directory and a relative path.
pub fn join_path(dir: &str, name: &str) -> (res: String)
    ensures
        res@ == join(dir@, name@),
{
    let d = chars_of(dir);
    let mut res = String::new();
    res.append(dir);
    if d.len() > 0 && d[d.len() - 1] != '/' {
        res.push('/');
    }
    res.append(name);
    assert(res@ == join(dir@, name@));
    res
}

/// The file name of a path.
pub fn file_name_of(path: &str) -> (res: Option<Vec<char>>)
    ensures
        res is Some == file_name(path@) is Some,
        res matches Some(n) ==> file_name(path@) == Some(n@),
{
    let mut rest = chars_of(path);
    while rest.len() > 0
        invariant
            file_name(path@) == file_name(rest@),
        decreases rest@.len(),
    {
        let at = position_after_last(rest.as_slice(), '/');
        let len = rest.len();
        let ghost s = rest@;
        let name = slice_of(rest.as_slice(), at, len);
        assert(name@ == s.skip(at as int));
        if at == len {
            rest.pop();
            assert(rest@ == s.drop_last());
        } else if name.len() == 1 && name[0] == '.' {
            assert(name@ == seq!['.']);
            if at == 0 {
                return None;
            }
            rest.pop();
            assert(rest@ == s.drop_last());
        } else if name.len() == 2 && name[0] == '.' && name[1] == '.' {
            assert(name@ == seq!['.', '.']);
            assert(s.skip(at as int).len() == 2);
            return None;
        } else {
            proof {
                if name@ == seq!['.'] {
                    assert(name@.len() == 1 && name@[0] == '.');
                }
                if name@ == seq!['.', '.'] {
                    assert(name@.len() == 2 && name@[0] == '.' && name@[1] == '.');
                }
            }
            return Some(name);
        }
    }
    None
}

/// A file name without its extension.
pub fn stem_of(name: &[char]) -> (res: Vec<char>)
    ensures
        res@ == stem(name@),
{
    let at = position_after_last(name, '.');
    if at <= 1 {
        let res = slice_of(name, 0, name.len());
        assert(res@ == name@);
        res
    } else {
        slice_of(name, 0, at - 1)
    }
}

/// Tests whether a file name has the given extension.
pub fn has_extension(name: &[char], ext: &str) -> (res: bool)
    ensures
        res == (extension(name@) == Some(ext@)),
{
    let at = position_after_last(name, '.');
    if at <= 1 {
        false
    } else {
        let e = slice_of(name, at, name.len());
        let want = chars_of(ext);
        text::same_chars(e.as_slice(), want.as_slice())
    }
}

/// Whether the file that a path leads to has this extension, in any case. The
/// extension is given in lower case.
pub open spec fn has_type(path: Seq<char>, ext: Seq<char>) -> bool {
    match file_name(path) {
        Some(n) => match extension(n) {
            Some(e) => text::lower(e) == ext,
            None => false,
        },
        None => false,
    }
}

/// Tests whether the file that a path leads to has this extension, in any case.
pub fn is_of_type(path: &str, ext: &str) -> (res: bool)
    ensures
        res == has_type(path@, ext@),
{
    match file_name_of(path) {
        Some(n) => {
            let at = position_after_last(n.as_slice(), '.');
            if at <= 1 {
                false
            } else {
                let e = slice_of(n.as_slice(), at, n.len());
                assert(e@ =~= n@.skip(at as int));
                let low = text::to_lower(e.as_slice());
                let want = chars_of(ext);
                text::same_chars(low.as_slice(), want.as_slice())
            }
        },
        None => false,
    }
}

/// A file name is never empty and holds no slash.
pub proof fn law_file_name_is_component(s: Seq<char>)
    ensures
        file_name(s) matches Some(n) ==> n.len() > 0 && !n.contains('/'),
    decreases s.len(),
{
    if s.len() > 0 {
        lemma_after_last(s, '/');
        law_file_name_is_component(s.drop_last());
        if let Some(n) = file_name(s) {
            if n == s.skip(after_last(s, '/')) {
                assert forall|i: int| 0 <= i < n.len() implies n[i] != '/' by {
                    assert(n[i] == s[after_last(s, '/') + i]);
                }
            }
        }
    }
}

/// A name put into a directory is the file name of the joined path.
pub proof fn law_joined_file_name(dir: Seq<char>, name: Seq<char>)
    requires
        name.len() > 0,
        !name.contains('/'),
        name != seq!['.'],
        name != seq!['.', '.'],
    ensures
        file_name(join(dir, name)) == Some(name),
{
    let p = join(dir, name);
    let at = p.len() - name.len();
    lemma_after_last(p, '/');
    assert forall|i: int| at <= i < p.len() implies p[i] != '/' by {
        assert(p[i] == name[i - at]);
        assert(name.contains(name[i - at]));
    }
    let a = after_last(p, '/');
    if a > 0 {
        assert(p[a - 1] == '/');
    }
    assert(a <= at);
    if at > 0 {
        assert(p[at - 1] == '/');
        assert(a == at);
    }
    assert(p.skip(at) == name);
}

proof fn lemma_after_last_of(a: Seq<char>, c: char, b: Seq<char>)
    requires
        !b.contains(c),
    ensures
        after_last(a.push(c) + b, c) == a.len() + 1,
    decreases b.len(),
{
    let s = a.push(c) + b;
    if b.len() == 0 {
        assert(s =~= a.push(c));
    } else {
        let t = b.drop_last();
        assert(s.drop_last() =~= a.push(c) + t);
        assert(b[b.len() - 1] == b.last());
        assert(!t.contains(c)) by {
            if t.contains(c) {
                let i = choose|i: int| 0 <= i < t.len() && t[i] == c;
                assert(b[i] == c);
            }
        }
        lemma_after_last_of(a, c, t);
    }
}

/// The extension of a file name is what follows its last dot, and the rest is its
/// stem.
pub proof fn law_extension_follows_last_dot(stem_part: Seq<char>, ext: Seq<char>)
    requires
        stem_part.len() > 0,
        !ext.contains('.'),
    ensures
        stem(stem_part.push('.') + ext) == stem_part,
        extension(stem_part.push('.') + ext) == Some(ext),
        extension(ext) is None,
        stem(ext) == ext,
{
    let name = stem_part.push('.') + ext;
    lemma_after_last_of(stem_part, '.', ext);
    assert(name.take(stem_part.len() as int) =~= stem_part);
    assert(name.skip((stem_part.len() + 1) as int) =~= ext);
    lemma_after_last_none(ext, '.');
}

proof fn lemma_after_last_none(s: Seq<char>, c: char)
    requires
        !s.contains(c),
    ensures
        after_last(s, c) == 0,
    decreases s.len(),
{
    if s.len() > 0 {
        assert(s[s.len() - 1] == s.last());
        assert(!s.drop_last().contains(c)) by {
            if s.drop_last().contains(c) {
                let i = choose|i: int| 0 <= i < s.drop_last().len() && s.drop_last()[i] == c;
                assert(s[i] == c);
            }
        }
        lemma_after_last_none(s.drop_last(), c);
    }
}

/// Joining puts exactly one separator between a directory and a name.
pub proof fn law_one_separator(dir: Seq<char>, name: Seq<char>)
    requires
        dir.len() > 0,
        dir.last() != '/',
    ensures
        join(dir, name) == dir + seq!['/'] + name,
        join(dir.push('/'), name) == dir + seq!['/'] + name,
        join(seq![], name) == name,
{
    assert(join(dir.push('/'), name) =~= dir + seq!['/'] + name);
    assert(join(seq![], name) =~= name);
}

} // verus!
