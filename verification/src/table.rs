//! A table of values under text keys.

use crate::text::same_text;
use vstd::prelude::*;

verus! {

/// A finite map from texts to values. Every key occurs once.
#[derive(Clone, Debug)]
pub struct Table<V> {
    pub entries: Vec<(String, V)>,
}

/// The position of `key` among the first `n` entries, or `n`.
pub open spec fn key_position<V>(entries: Seq<(String, V)>, key: Seq<char>, n: int) -> int
    decreases n,
{
    if n <= 0 {
        0
    } else if key_position(entries, key, n - 1) < n - 1 {
        key_position(entries, key, n - 1)
    } else if entries[n - 1].0@ == key {
        n - 1
    } else {
        n
    }
}

impl<V> View for Table<V> {
    type V = Map<Seq<char>, V>;

    open spec fn view(&self) -> Map<Seq<char>, V> {
        let len = self.entries@.len() as int;
        Map::new(
            |k: Seq<char>| key_position(self.entries@, k, len) < len,
            |k: Seq<char>| self.entries@[key_position(self.entries@, k, len)].1,
        )
    }
}

impl<V> Table<V> {
    /// No key occurs twice.
    pub open spec fn wf(&self) -> bool {
        forall|i: int, j: int|
            0 <= i < j < self.entries@.len() ==> #[trigger] self.entries@[i].0@
                != #[trigger] self.entries@[j].0@
    }
}

/// What `key_position` gives.
proof fn lemma_key_position<V>(entries: Seq<(String, V)>, key: Seq<char>, n: int)
    requires
        0 <= n <= entries.len(),
    ensures
        0 <= key_position(entries, key, n) <= n,
        key_position(entries, key, n) < n ==> entries[key_position(entries, key, n)].0@ == key,
        forall|i: int| 0 <= i < key_position(entries, key, n) ==> (#[trigger] entries[i]).0@ != key,
    decreases n,
{
    if n > 0 {
        lemma_key_position(entries, key, n - 1);
    }
}

/// The position of a key that occurs at `at` and nowhere else.
proof fn lemma_key_at<V>(entries: Seq<(String, V)>, key: Seq<char>, n: int, at: int)
    requires
        0 <= at < n <= entries.len(),
        entries[at].0@ == key,
        forall|i: int| 0 <= i < at ==> (#[trigger] entries[i]).0@ != key,
    ensures
        key_position(entries, key, n) == at,
{
    lemma_key_position(entries, key, n);
    let p = key_position(entries, key, n);
    if p < at {
        assert(entries[p].0@ == key);
    } else if p > at {
        assert(entries[at].0@ != key);
    }
}

/// The position of a key that does not occur.
proof fn lemma_key_missing<V>(entries: Seq<(String, V)>, key: Seq<char>, n: int)
    requires
        0 <= n <= entries.len(),
        forall|i: int| 0 <= i < n ==> (#[trigger] entries[i]).0@ != key,
    ensures
        key_position(entries, key, n) == n,
{
    lemma_key_position(entries, key, n);
}

/// Two lists of entries with the same keys.
pub proof fn lemma_same_keys<V, W>(
    a: Seq<(String, V)>,
    b: Seq<(String, W)>,
    key: Seq<char>,
    n: int,
)
    requires
        0 <= n <= a.len(),
        a.len() == b.len(),
        forall|i: int| 0 <= i < n ==> #[trigger] a[i].0@ == b[i].0@,
    ensures
        key_position(a, key, n) == key_position(b, key, n),
        0 <= key_position(a, key, n) <= n,
    decreases n,
{
    if n > 0 {
        lemma_same_keys(a, b, key, n - 1);
        assert(a[n - 1].0@ == b[n - 1].0@);
    }
}

/// Every entry of a table is in its map, and nothing else is.
pub proof fn law_table_entries<V>(t: Table<V>, i: int)
    requires
        t.wf(),
        0 <= i < t.entries@.len(),
    ensures
        t@.contains_key(t.entries@[i].0@),
        t@[t.entries@[i].0@] == t.entries@[i].1,
{
    lemma_key_at(t.entries@, t.entries@[i].0@, t.entries@.len() as int, i);
}

/// Every key of the map of a table is the key of an entry.
pub proof fn law_table_keys<V>(t: Table<V>, key: Seq<char>)
    requires
        t@.contains_key(key),
    ensures
        exists|i: int| 0 <= i < t.entries@.len() && (#[trigger] t.entries@[i]).0@ == key,
{
    let len = t.entries@.len() as int;
    lemma_key_position(t.entries@, key, len);
    let p = key_position(t.entries@, key, len);
    assert(t.entries@[p].0@ == key);
}

impl<V> Table<V> {
    /// An empty table.
    pub fn new() -> (res: Self)
        ensures
            res.wf(),
            res@ == Map::<Seq<char>, V>::empty(),
    {
        let res = Table { entries: Vec::new() };
        assert(res@ == Map::<Seq<char>, V>::empty());
        res
    }

    /// The position of `key`, or the number of entries.
    fn position(&self, key: &str) -> (res: usize)
        ensures
            res == key_position(self.entries@, key@, self.entries@.len() as int),
            res <= self.entries@.len(),
            res < self.entries@.len() ==> self.entries@[res as int].0@ == key@,
            forall|i: int| 0 <= i < res ==> (#[trigger] self.entries@[i]).0@ != key@,
    {
        let mut i: usize = 0;
        while i < self.entries.len()
            invariant
                i <= self.entries@.len(),
                forall|j: int| 0 <= j < i ==> (#[trigger] self.entries@[j]).0@ != key@,
            decreases self.entries@.len() - i,
        {
            if same_text(self.entries[i].0.as_str(), key) {
                proof {
                    lemma_key_at(self.entries@, key@, self.entries@.len() as int, i as int);
                }
                return i;
            }
            i = i + 1;
        }
        proof {
            lemma_key_missing(self.entries@, key@, self.entries@.len() as int);
        }
        i
    }

    /// The value under `key`.
    pub fn get(&self, key: &str) -> (res: Option<&V>)
        ensures
            res == (if self@.contains_key(key@) {
                Some(&self@[key@])
            } else {
                None
            }),
    {
        let at = self.position(key);
        if at < self.entries.len() {
            Some(&self.entries[at].1)
        } else {
            None
        }
    }

    /// Puts `value` under `key`.
    pub fn insert(&mut self, key: &str, value: V)
        requires
            old(self).wf(),
        ensures
            final(self).wf(),
            final(self)@ == old(self)@.insert(key@, value),
    {
        let at = self.position(key);
        let ghost before = self.entries@;
        let ghost len = before.len() as int;
        if at < self.entries.len() {
            self.entries.set(at, (key.to_string(), value));
            proof {
                let after = self.entries@;
                assert forall|i: int, j: int| 0 <= i < j < after.len() implies #[trigger] after[i].0@
                    != #[trigger] after[j].0@ by {
                    assert(after[i].0@ == before[i].0@);
                    assert(after[j].0@ == before[j].0@);
                }
                assert forall|k: Seq<char>| #[trigger]
                    key_position(after, k, len) == key_position(before, k, len) by {
                    lemma_key_position(before, k, len);
                    let p = key_position(before, k, len);
                    assert forall|i: int| 0 <= i < p implies (#[trigger] after[i]).0@ != k by {
                        assert(after[i].0@ == before[i].0@);
                    }
                    if p < len {
                        assert(after[p].0@ == before[p].0@);
                        lemma_key_at(after, k, len, p);
                    } else {
                        lemma_key_missing(after, k, len);
                    }
                }
                assert forall|k: Seq<char>| k != key@ && key_position(before, k, len) < len implies #[trigger]
                    after[key_position(before, k, len)].1 == before[key_position(before, k, len)].1 by {
                    lemma_key_position(before, k, len);
                }
                assert(self@ == old(self)@.insert(key@, value));
            }
        } else {
            self.entries.push((key.to_string(), value));
            proof {
                let after = self.entries@;
                assert forall|i: int, j: int| 0 <= i < j < after.len() implies #[trigger] after[i].0@
                    != #[trigger] after[j].0@ by {
                    assert(after[i] == before[i]);
                    if j < len {
                        assert(after[j] == before[j]);
                    }
                }
                lemma_key_at(after, key@, len + 1, len);
                assert forall|k: Seq<char>| k != key@ implies #[trigger] key_position(
                    after,
                    k,
                    len + 1,
                ) == (if key_position(before, k, len) < len {
                    key_position(before, k, len)
                } else {
                    len + 1
                }) by {
                    lemma_key_position(before, k, len);
                    let p = key_position(before, k, len);
                    assert forall|i: int| 0 <= i < p implies (#[trigger] after[i]).0@ != k by {
                        assert(after[i] == before[i]);
                    }
                    if p < len {
                        assert(after[p] == before[p]);
                        lemma_key_at(after, k, len + 1, p);
                    } else {
                        lemma_key_missing(after, k, len + 1);
                    }
                }
                assert forall|k: Seq<char>| key_position(before, k, len) < len implies #[trigger]
                    after[key_position(before, k, len)] == before[key_position(before, k, len)] by {
                    lemma_key_position(before, k, len);
                }
                assert(self@ == old(self)@.insert(key@, value));
            }
        }
    }

    /// Removes `key`.
    pub fn remove(&mut self, key: &str)
        requires
            old(self).wf(),
        ensures
            final(self).wf(),
            final(self)@ == old(self)@.remove(key@),
    {
        let at = self.position(key);
        if at < self.entries.len() {
            let ghost before = self.entries@;
            let ghost len = before.len() as int;
            self.entries.remove(at);
            proof {
                let after = self.entries@;
                assert forall|i: int, j: int| 0 <= i < j < after.len() implies #[trigger] after[i].0@
                    != #[trigger] after[j].0@ by {
                    let a = if i < at {
                        i
                    } else {
                        i + 1
                    };
                    let b = if j < at {
                        j
                    } else {
                        j + 1
                    };
                    assert(after[i] == before[a]);
                    assert(after[j] == before[b]);
                }
                assert forall|k: Seq<char>| #[trigger] key_position(after, k, len - 1) == (if k == key@
                    || key_position(before, k, len) == len {
                    len - 1
                } else if key_position(before, k, len) < at {
                    key_position(before, k, len)
                } else {
                    key_position(before, k, len) - 1
                }) by {
                    lemma_key_position(before, k, len);
                    let p = key_position(before, k, len);
                    assert forall|i: int| 0 <= i < len - 1 && k == key@ implies (#[trigger] after[i]).0@
                        != k by {
                        let a = if i < at {
                            i
                        } else {
                            i + 1
                        };
                        assert(after[i] == before[a]);
                        assert(before[a].0@ != before[at as int].0@);
                    }
                    if k == key@ {
                        lemma_key_missing(after, k, len - 1);
                    } else {
                        let q = if p <= at {
                            p
                        } else {
                            p - 1
                        };
                        assert forall|i: int| 0 <= i < q implies (#[trigger] after[i]).0@ != k by {
                            let a = if i < at {
                                i
                            } else {
                                i + 1
                            };
                            assert(after[i] == before[a]);
                        }
                        if p < len {
                            let a = if q < at {
                                q
                            } else {
                                q + 1
                            };
                            assert(after[q] == before[a]);
                            lemma_key_at(after, k, len - 1, q);
                        } else {
                            lemma_key_missing(after, k, len - 1);
                        }
                    }
                }
                assert forall|k: Seq<char>| k != key@ && key_position(before, k, len) < len implies #[trigger]
                    after[key_position(after, k, len - 1)] == before[key_position(before, k, len)] by {
                    lemma_key_position(before, k, len);
                }
                assert(self@ == old(self)@.remove(key@));
            }
        } else {
            assert(self@ == old(self)@.remove(key@));
        }
    }
}

/// The texts of a table of strings.
pub open spec fn table_texts(t: Map<Seq<char>, String>) -> Map<Seq<char>, Seq<char>> {
    t.map_values(|s: String| s@)
}

} // verus!
