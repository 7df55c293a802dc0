//! The flag values that a parse gathered, keyed by flag name.
use vstd::prelude::*;

use crate::flag::{FlagValue, ValueView};
use crate::text::{
    first_match, lemma_first_match, lemma_first_match_is, lemma_first_match_prefix,
    lemma_first_match_step, same_text,
};

verus! {

/// Flag names with their values, in the order they were first set.
pub type Entries = Seq<(Seq<char>, ValueView)>;

/// Whether an entry is for `key`.
pub open spec fn for_key(key: Seq<char>) -> spec_fn((Seq<char>, ValueView)) -> bool {
    |e: (Seq<char>, ValueView)| e.0 == key
}

/// Where `key` stands in `m`, or -1.
pub open spec fn entry_index(m: Entries, key: Seq<char>) -> int {
    first_match(m, for_key(key))
}

/// The value of `key` in `m`.
pub open spec fn lookup(m: Entries, key: Seq<char>) -> Option<ValueView> {
    let i = entry_index(m, key);
    if i >= 0 {
        Some(m[i].1)
    } else {
        None
    }
}

/// `m` with `key` set to `v`: in place when `key` is there, else at the end.
pub open spec fn put(m: Entries, key: Seq<char>, v: ValueView) -> Entries {
    let i = entry_index(m, key);
    if i >= 0 {
        m.update(i, (key, v))
    } else {
        m.push((key, v))
    }
}

/// Whether no two entries of `m` share a key.
pub open spec fn distinct_keys(m: Entries) -> bool {
    forall|i: int, j: int| 0 <= i < j < m.len() ==> m[i].0 != m[j].0
}

/// Setting a key keeps the keys distinct.
pub proof fn lemma_put_distinct(m: Entries, key: Seq<char>, v: ValueView)
    requires
        distinct_keys(m),
    ensures
        distinct_keys(put(m, key, v)),
{
    lemma_first_match(m, for_key(key));
    let i = entry_index(m, key);
    let n = put(m, key, v);
    if i >= 0 {
        assert forall|a: int, b: int| 0 <= a < b < n.len() implies n[a].0 != n[b].0 by {
            assert(n[a].0 == m[a].0);
            assert(n[b].0 == m[b].0);
        }
    } else {
        assert forall|a: int, b: int| 0 <= a < b < n.len() implies n[a].0 != n[b].0 by {
            if b < m.len() {
                assert(n[a] == m[a] && n[b] == m[b]);
            } else {
                assert(n[a] == m[a]);
                assert(!for_key(key)(m[a]));
            }
        }
    }
}

/// Merging keeps the keys of `m` distinct.
pub proof fn lemma_merged_distinct(m: Entries, other: Entries)
    requires
        distinct_keys(m),
    ensures
        distinct_keys(merged(m, other)),
    decreases other.len(),
{
    if other.len() > 0 {
        lemma_merged_distinct(m, other.drop_last());
        lemma_put_distinct(merged(m, other.drop_last()), other.last().0, other.last().1);
    }
}

/// `m` with each entry of `other` put in turn.
pub open spec fn merged(m: Entries, other: Entries) -> Entries
    decreases other.len(),
{
    if other.len() == 0 {
        m
    } else {
        let e = other.last();
        put(merged(m, other.drop_last()), e.0, e.1)
    }
}

/// Setting `key` makes it read `v` and leaves every other key as it was.
pub proof fn lemma_lookup_put(m: Entries, key: Seq<char>, v: ValueView, other: Seq<char>)
    ensures
        lookup(put(m, key, v), other) == (if other == key {
            Some(v)
        } else {
            lookup(m, other)
        }),
{
    let p = for_key(key);
    let q = for_key(other);
    let n = put(m, key, v);
    let i = entry_index(m, key);
    let j = entry_index(m, other);
    lemma_first_match(m, p);
    lemma_first_match(m, q);
    if other == key {
        if i >= 0 {
            assert forall|k: int| 0 <= k < n.len() && (k < i || i == -1) implies !p(#[trigger] n[k]) by {
                assert(n[k] == m[k]);
            }
            lemma_first_match_is(n, p, i);
        } else {
            assert forall|k: int| 0 <= k < n.len() && (k < m.len() || m.len() == -1) implies !p(
                #[trigger] n[k],
            ) by {
                assert(n[k] == m[k]);
            }
            lemma_first_match_is(n, p, m.len() as int);
        }
    } else {
        if i >= 0 {
            assert forall|k: int| 0 <= k < n.len() && (k < j || j == -1) implies !q(#[trigger] n[k]) by {
                if k != i {
                    assert(n[k] == m[k]);
                }
            }
            if j >= 0 {
                assert(j != i);
                assert(n[j] == m[j]);
            }
            lemma_first_match_is(n, q, j);
        } else {
            assert forall|k: int| 0 <= k < n.len() && (k < j || j == -1) implies !q(#[trigger] n[k]) by {
                if k < m.len() {
                    assert(n[k] == m[k]);
                }
            }
            if j >= 0 {
                assert(n[j] == m[j]);
            }
            lemma_first_match_is(n, q, j);
        }
    }
}

/// A map from flag name to value, kept as a list of entries in the order
/// their names were first set.
#[derive(Debug, Clone)]
pub struct FlagMap {
    entries: Vec<(String, FlagValue)>,
}

impl View for FlagMap {
    type V = Entries;

    closed spec fn view(&self) -> Entries {
        self.entries@.map_values(|e: (String, FlagValue)| (e.0@, e.1@))
    }
}

impl FlagMap {
    /// An empty map.
    pub fn new() -> (r: Self)
        ensures
            r@ == Seq::<(Seq<char>, ValueView)>::empty(),
    {
        let r = FlagMap { entries: Vec::new() };
        assert(r@ =~= Seq::<(Seq<char>, ValueView)>::empty());
        r
    }

    /// The number of names set.
    pub fn len(&self) -> (r: usize)
        ensures
            r == self@.len(),
    {
        self.entries.len()
    }

    /// Whether no name is set.
    pub fn is_empty(&self) -> (r: bool)
        ensures
            r == (self@.len() == 0),
    {
        self.entries.len() == 0
    }

    fn find(&self, key: &str) -> (r: Option<usize>)
        ensures
            match r {
                Some(i) => i < self@.len() && i as int == entry_index(self@, key@),
                None => entry_index(self@, key@) == -1,
            },
    {
        let ghost p = for_key(key@);
        let ghost m = self@;
        let mut i: usize = 0;
        assert(m.subrange(0, 0).len() == 0);
        while i < self.entries.len()
            invariant
                i <= m.len(),
                m == self@,
                m.len() == self.entries@.len(),
                p == for_key(key@),
                first_match(m.subrange(0, i as int), p) == -1,
            decreases m.len() - i,
        {
            proof {
                lemma_first_match_step(m, p, i as int);
            }
            if same_text(self.entries[i].0.as_str(), key) {
                proof {
                    lemma_first_match_prefix(m, p, i + 1);
                }
                return Some(i);
            }
            i = i + 1;
        }
        assert(m.subrange(0, m.len() as int) =~= m);
        None
    }

    /// The value set for `key`.
    pub fn get(&self, key: &str) -> (r: Option<&FlagValue>)
        ensures
            match lookup(self@, key@) {
                Some(v) => r matches Some(x) && x@ == v,
                None => r is None,
            },
    {
        match self.find(key) {
            Some(i) => Some(&self.entries[i].1),
            None => None,
        }
    }

    /// Whether `key` is set.
    pub fn contains_key(&self, key: &str) -> (r: bool)
        ensures
            r == lookup(self@, key@) is Some,
    {
        self.find(key).is_some()
    }

    /// Sets `key` to `value`, in place when `key` is set already.
    pub fn insert(&mut self, key: String, value: FlagValue)
        ensures
            final(self)@ == put(old(self)@, key@, value@),
    {
        let ghost m = self@;
        let ghost kv = key@;
        let ghost vv = value@;
        match self.find(key.as_str()) {
            Some(i) => {
                self.entries.set(i, (key, value));
                assert(self@ =~= m.update(i as int, (kv, vv)));
            },
            None => {
                self.entries.push((key, value));
                assert(self@ =~= m.push((kv, vv)));
            },
        }
    }

    /// Puts each entry of `other` in turn, so that `other`'s values win.
    pub fn extend(&mut self, other: &FlagMap)
        ensures
            final(self)@ == merged(old(self)@, other@),
    {
        let ghost start = self@;
        let mut j: usize = 0;
        assert(other@.subrange(0, 0) =~= Seq::<(Seq<char>, ValueView)>::empty());
        while j < other.entries.len()
            invariant
                j <= other@.len(),
                other@.len() == other.entries@.len(),
                self@ == merged(start, other@.subrange(0, j as int)),
            decreases other@.len() - j,
        {
            let key = other.entries[j].0.clone();
            let value = other.entries[j].1.clone();
            proof {
                assert(other@.subrange(0, j + 1).drop_last() =~= other@.subrange(0, j as int));
                assert(other@[j as int] == (key@, value@));
            }
            self.insert(key, value);
            j = j + 1;
        }
        assert(other@.subrange(0, other@.len() as int) =~= other@);
    }
}

} // verus!
