//! Stable sorting.

use vstd::prelude::*;

verus! {

/// Whether `a` comes before `b` in dictionary order or equals it.
pub open spec fn lex_le(a: Seq<i64>, b: Seq<i64>) -> bool
    decreases a.len(),
{
    if a.len() == 0 {
        true
    } else if b.len() == 0 {
        false
    } else {
        a[0] < b[0] || (a[0] == b[0] && lex_le(a.skip(1), b.skip(1)))
    }
}

/// The keys of a list of key vectors.
pub open spec fn key_seqs(v: Seq<Vec<i64>>) -> Seq<Seq<i64>> {
    Seq::new(v.len(), |i: int| v[i]@)
}

/// Whether item `i` is sorted before item `j`: by its key, and by its position
/// where the keys are equal.
pub open spec fn before(keys: Seq<Seq<i64>>, i: int, j: int) -> bool {
    lex_le(keys[i], keys[j]) && (!lex_le(keys[j], keys[i]) || i < j)
}

/// Whether `order` lists the positions of all items as a stable sort by their
/// keys arranges them.
pub open spec fn is_stable_order(order: Seq<usize>, keys: Seq<Seq<i64>>) -> bool {
    &&& order.len() == keys.len()
    &&& forall|i: int| 0 <= i < order.len() ==> #[trigger] order[i] < keys.len()
    &&& forall|i: int, j: int|
        0 <= i < j < order.len() ==> before(keys, #[trigger] order[i] as int, #[trigger] order[j] as int)
}

/// Dictionary order is total.
pub proof fn law_lex_total(a: Seq<i64>, b: Seq<i64>)
    ensures
        lex_le(a, b) || lex_le(b, a),
    decreases a.len(),
{
    if a.len() > 0 && b.len() > 0 && a[0] == b[0] {
        law_lex_total(a.skip(1), b.skip(1));
    }
}

/// Dictionary order is transitive.
pub proof fn law_lex_transitive(a: Seq<i64>, b: Seq<i64>, c: Seq<i64>)
    requires
        lex_le(a, b),
        lex_le(b, c),
    ensures
        lex_le(a, c),
    decreases a.len(),
{
    if a.len() > 0 && b.len() > 0 && c.len() > 0 && a[0] == b[0] && b[0] == c[0] {
        law_lex_transitive(a.skip(1), b.skip(1), c.skip(1));
    }
}

/// Sequences that precede each other are equal.
pub proof fn law_lex_antisymmetric(a: Seq<i64>, b: Seq<i64>)
    requires
        lex_le(a, b),
        lex_le(b, a),
    ensures
        a == b,
    decreases a.len(),
{
    if a.len() > 0 && b.len() > 0 {
        law_lex_antisymmetric(a.skip(1), b.skip(1));
        assert(a == seq![a[0]] + a.skip(1));
        assert(b == seq![b[0]] + b.skip(1));
    }
}

/// A stable order names every position exactly once.
pub proof fn law_stable_order_is_permutation(order: Seq<usize>, keys: Seq<Seq<i64>>)
    requires
        is_stable_order(order, keys),
    ensures
        order.no_duplicates(),
        forall|k: usize| k < keys.len() ==> order.contains(k),
        keys.len() <= usize::MAX + 1,
{
    assert forall|i: int, j: int| 0 <= i < j < order.len() implies order[i] != order[j] by {
        assert(before(keys, order[i] as int, order[j] as int));
    }
    assert(order.no_duplicates());
    let n = keys.len();
    assert forall|k: usize| k < n implies order.contains(k) by {
        if !order.contains(k) {
            let bigger = order.push(k);
            assert(bigger.no_duplicates());
            lemma_pigeonhole(bigger, n);
        }
    }
    lemma_pigeonhole(order, (usize::MAX + 1) as nat);
}

/// Distinct numbers below `n` are at most `n` many.
proof fn lemma_pigeonhole(s: Seq<usize>, n: nat)
    requires
        s.no_duplicates(),
        forall|i: int| 0 <= i < s.len() ==> #[trigger] s[i] < n,
    ensures
        s.len() <= n,
    decreases n,
{
    if s.len() == 0 {
    } else if n == 0 {
        assert(s[0] < 0);
    } else {
        let m = (n - 1) as usize;
        if s.contains(m) {
            let at = choose|i: int| 0 <= i < s.len() && s[i] == m;
            let t = s.remove(at);
            assert forall|i: int| 0 <= i < t.len() implies #[trigger] t[i] < n - 1 by {
                let o = if i < at {
                    i
                } else {
                    i + 1
                };
                assert(t[i] == s[o]);
                assert(s[o] < n);
                assert(s[o] != s[at]);
            }
            assert(t.no_duplicates()) by {
                assert forall|i: int, j: int| 0 <= i < t.len() && 0 <= j < t.len() && i != j implies t[i]
                    != t[j] by {
                    let a = if i < at {
                        i
                    } else {
                        i + 1
                    };
                    let b = if j < at {
                        j
                    } else {
                        j + 1
                    };
                    assert(t[i] == s[a] && t[j] == s[b]);
                }
            }
            lemma_pigeonhole(t, (n - 1) as nat);
        } else {
            assert forall|i: int| 0 <= i < s.len() implies #[trigger] s[i] < n - 1 by {
                assert(s[i] != m);
            }
            lemma_pigeonhole(s, (n - 1) as nat);
        }
    }
}

/// Tests `a <= b` in dictionary order.
pub fn lex_test(a: &[i64], b: &[i64]) -> (res: bool)
    ensures
        res == lex_le(a@, b@),
{
    let mut i: usize = 0;
    assert(a@.skip(0) == a@ && b@.skip(0) == b@);
    while i < a.len() && i < b.len() && a[i] == b[i]
        invariant
            i <= a@.len(),
            i <= b@.len(),
            lex_le(a@, b@) == lex_le(a@.skip(i as int), b@.skip(i as int)),
        decreases a@.len() - i,
    {
        assert(a@.skip(i as int).skip(1) == a@.skip(i + 1));
        assert(b@.skip(i as int).skip(1) == b@.skip(i + 1));
        i = i + 1;
    }
    if i == a.len() {
        true
    } else if i == b.len() {
        false
    } else {
        a[i] < b[i]
    }
}

/// The positions of the items with these keys, as a stable sort arranges them.
pub fn stable_order(keys: &Vec<Vec<i64>>) -> (res: Vec<usize>)
    ensures
        is_stable_order(res@, key_seqs(keys@)),
{
    let ghost ks = key_seqs(keys@);
    let mut order: Vec<usize> = Vec::new();
    let mut n: usize = 0;
    while n < keys.len()
        invariant
            n <= keys@.len(),
            ks == key_seqs(keys@),
            order@.len() == n,
            forall|i: int| 0 <= i < n ==> #[trigger] order@[i] < n,
            forall|i: int, j: int|
                0 <= i < j < n ==> before(
                    ks,
                    #[trigger] order@[i] as int,
                    #[trigger] order@[j] as int,
                ),
        decreases keys@.len() - n,
    {
        let mut pos: usize = n;
        while pos > 0 && !lex_test(keys[order[pos - 1]].as_slice(), keys[n].as_slice())
            invariant
                pos <= n < keys@.len(),
                ks == key_seqs(keys@),
                order@.len() == n,
                forall|i: int| 0 <= i < n ==> #[trigger] order@[i] < n,
                forall|i: int| pos <= i < n ==> !lex_le(ks[#[trigger] order@[i] as int], ks[n as int]),
            decreases pos,
        {
            assert(ks[order@[pos - 1] as int] == keys@[order@[pos - 1] as int]@);
            pos = pos - 1;
        }
        let ghost old_order = order@;
        order.insert(pos, n);
        proof {
            if pos > 0 {
                assert(ks[old_order[pos - 1] as int] == keys@[old_order[pos - 1] as int]@);
            }
            assert forall|i: int, j: int| 0 <= i < j < n + 1 implies before(
                ks,
                #[trigger] order@[i] as int,
                #[trigger] order@[j] as int,
            ) by {
                if j == pos {
                    // `i` stands before the new item.
                    let a = old_order[i] as int;
                    let last = old_order[pos - 1] as int;
                    if i < pos - 1 {
                        assert(before(ks, a, last));
                        law_lex_transitive(ks[a], ks[last], ks[n as int]);
                    }
                } else if i == pos {
                    // `j` stands after the new item.
                    let b = old_order[j - 1] as int;
                    law_lex_total(ks[b], ks[n as int]);
                } else {
                    let a = if i < pos {
                        old_order[i] as int
                    } else {
                        old_order[i - 1] as int
                    };
                    let b = if j < pos {
                        old_order[j] as int
                    } else {
                        old_order[j - 1] as int
                    };
                    assert(before(ks, a, b));
                }
            }
        }
        n = n + 1;
    }
    order
}

/// The key of a text: the code points of its characters.
pub open spec fn text_key(s: Seq<char>) -> Seq<i64> {
    Seq::new(s.len(), |i: int| s[i] as u32 as i64)
}

/// The key of a text.
pub fn key_of_text(chars: &[char]) -> (res: Vec<i64>)
    ensures
        res@ == text_key(chars@),
{
    let mut res: Vec<i64> = Vec::new();
    let mut i: usize = 0;
    while i < chars.len()
        invariant
            i <= chars@.len(),
            res@ == text_key(chars@.take(i as int)),
        decreases chars@.len() - i,
    {
        res.push(chars[i] as u32 as i64);
        i = i + 1;
        assert(res@ == text_key(chars@.take(i as int)));
    }
    assert(chars@.take(i as int) == chars@);
    res
}

/// Dictionary order goes by the first difference, the smaller number first, and what
/// begins another comes before it.
pub proof fn law_first_difference_decides(common: Seq<i64>, x: i64, y: i64, s: Seq<i64>, t: Seq<i64>)
    ensures
        x < y ==> lex_le(common.push(x) + s, common.push(y) + t) && !lex_le(
            common.push(y) + t,
            common.push(x) + s,
        ),
        lex_le(common, common + t),
        t.len() > 0 ==> !lex_le(common + t, common),
    decreases common.len(),
{
    let a = common.push(x) + s;
    let b = common.push(y) + t;
    let c = common + t;
    if common.len() == 0 {
        assert(a[0] == x && b[0] == y);
    } else {
        let rest = common.skip(1);
        law_first_difference_decides(rest, x, y, s, t);
        assert(a[0] == b[0] && c[0] == common[0]);
        assert(a.skip(1) =~= rest.push(x) + s);
        assert(b.skip(1) =~= rest.push(y) + t);
        assert(c.skip(1) =~= rest + t);
    }
}

} // verus!
