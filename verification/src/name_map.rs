//! A map from benchmark-case names to values, kept sorted by name.
//!
//! Run configurations, collected durations, statistics and comparison results
//! are all keyed by case name and must be iterated in a deterministic,
//! lexicographic order.  The map is a vector of pairs whose keys are strictly
//! increasing; its view is the sequence of (name view, value view) pairs.

use vstd::prelude::*;

use crate::strkey::{lex_lt, lemma_lex_asym, lemma_lex_irrefl, lemma_lex_total, lemma_lex_trans,
    str_eq, str_lt};

verus! {

/// The keys of `s` are strictly increasing.
pub open spec fn sorted_keys<W>(s: Seq<(Seq<char>, W)>) -> bool {
    forall|i: int, j: int|
        0 <= i < j < s.len() ==> lex_lt(#[trigger] s[i].0, #[trigger] s[j].0)
}

/// The value stored under key `k`, if any.
pub open spec fn map_get<W>(s: Seq<(Seq<char>, W)>, k: Seq<char>) -> Option<W>
    decreases s.len(),
{
    if s.len() == 0 {
        None
    } else if s[0].0 == k {
        Some(s[0].1)
    } else {
        map_get(s.skip(1), k)
    }
}

/// Whether key `k` is present.
pub open spec fn map_contains<W>(s: Seq<(Seq<char>, W)>, k: Seq<char>) -> bool {
    map_get(s, k) is Some
}

/// `s` with `v` stored under `k`: the entry in key order, replacing any entry
/// that already carries `k`.
pub open spec fn map_insert<W>(s: Seq<(Seq<char>, W)>, k: Seq<char>, v: W) -> Seq<
    (Seq<char>, W),
>
    decreases s.len(),
{
    if s.len() == 0 {
        seq![(k, v)]
    } else if lex_lt(k, s[0].0) {
        seq![(k, v)] + s
    } else if k == s[0].0 {
        seq![(k, v)] + s.skip(1)
    } else {
        seq![s[0]] + map_insert(s.skip(1), k, v)
    }
}

/// Keys that all differ from `k` mean `k` is absent.
pub proof fn lemma_map_get_absent<W>(s: Seq<(Seq<char>, W)>, k: Seq<char>)
    requires
        forall|j: int| 0 <= j < s.len() ==> (#[trigger] s[j].0) != k,
    ensures
        map_get(s, k) is None,
    decreases s.len(),
{
    if s.len() > 0 {
        assert(forall|j: int|
            0 <= j < s.skip(1).len() ==> (#[trigger] s.skip(1)[j].0) == s[j + 1].0);
        lemma_map_get_absent(s.skip(1), k);
    }
}

/// A present key's value is stored at some position.
pub proof fn lemma_map_get_index<W>(s: Seq<(Seq<char>, W)>, k: Seq<char>)
    requires
        map_contains(s, k),
    ensures
        exists|j: int| 0 <= j < s.len() && #[trigger] s[j] == (k, map_get(s, k).unwrap()),
    decreases s.len(),
{
    if s[0].0 == k {
        assert(s[0] == (k, map_get(s, k).unwrap()));
    } else {
        lemma_map_get_index(s.skip(1), k);
        let j = choose|j: int|
            0 <= j < s.skip(1).len() && #[trigger] s.skip(1)[j] == (
            k,
            map_get(s.skip(1), k).unwrap(),
        );
        assert(s[j + 1] == (k, map_get(s, k).unwrap()));
    }
}

/// A strictly sorted prefix, suffix or slice is itself strictly sorted.
pub proof fn lemma_sorted_subrange<W>(s: Seq<(Seq<char>, W)>, from: int, to: int)
    requires
        sorted_keys(s),
        0 <= from <= to <= s.len(),
    ensures
        sorted_keys(s.subrange(from, to)),
{
    assert forall|i: int, j: int|
        0 <= i < j < s.subrange(from, to).len() implies lex_lt(
        #[trigger] s.subrange(from, to)[i].0,
        #[trigger] s.subrange(from, to)[j].0,
    ) by {
        assert(s.subrange(from, to)[i] == s[i + from]);
        assert(s.subrange(from, to)[j] == s[j + from]);
    }
}

/// In a sorted map, the entry at position `i` is what lookup of its key finds.
pub proof fn lemma_map_get_at<W>(s: Seq<(Seq<char>, W)>, i: int)
    requires
        sorted_keys(s),
        0 <= i < s.len(),
    ensures
        map_get(s, s[i].0) == Some(s[i].1),
    decreases s.len(),
{
    if i == 0 {
    } else {
        assert(lex_lt(s[0].0, s[i].0));
        if s[0].0 == s[i].0 {
            lemma_lex_irrefl(s[i].0);
        }
        lemma_sorted_subrange(s, 1, s.len() as int);
        assert(forall|j: int|
            0 <= j < s.skip(1).len() ==> #[trigger] s.skip(1)[j] == s[j + 1]);
        lemma_map_get_at(s.skip(1), i - 1);
    }
}

/// Splicing a fresh entry at its sorted position is what `map_insert` does.
pub proof fn lemma_map_insert_fresh<W>(s: Seq<(Seq<char>, W)>, k: Seq<char>, v: W, i: int)
    requires
        sorted_keys(s),
        0 <= i <= s.len(),
        forall|j: int| 0 <= j < i ==> lex_lt(#[trigger] s[j].0, k),
        i < s.len() ==> lex_lt(k, s[i].0),
    ensures
        map_insert(s, k, v) =~= s.subrange(0, i) + seq![(k, v)] + s.skip(i),
    decreases i,
{
    if i == 0 {
        if s.len() == 0 {
            assert(map_insert(s, k, v) =~= s.subrange(0, 0) + seq![(k, v)] + s.skip(0));
        } else {
            assert(lex_lt(k, s[0].0));
            assert(map_insert(s, k, v) =~= s.subrange(0, 0) + seq![(k, v)] + s.skip(0));
        }
    } else {
        assert(lex_lt(s[0].0, k));
        lemma_lex_asym(s[0].0, k);
        if k == s[0].0 {
            lemma_lex_irrefl(k);
        }
        assert(!lex_lt(k, s[0].0) && k != s[0].0);
        let t = s.skip(1);
        assert(forall|j: int| 0 <= j < t.len() ==> #[trigger] t[j] == s[j + 1]);
        lemma_sorted_subrange(s, 1, s.len() as int);
        lemma_map_insert_fresh(t, k, v, i - 1);
        assert(map_insert(s, k, v) == seq![s[0]] + map_insert(t, k, v));
        assert(map_insert(s, k, v) =~= s.subrange(0, i) + seq![(k, v)] + s.skip(i));
    }
}

/// Replacing the entry that already carries `k` is what `map_insert` does.
pub proof fn lemma_map_insert_found<W>(s: Seq<(Seq<char>, W)>, k: Seq<char>, v: W, i: int)
    requires
        sorted_keys(s),
        0 <= i < s.len(),
        s[i].0 == k,
        forall|j: int| 0 <= j < i ==> lex_lt(#[trigger] s[j].0, k),
    ensures
        map_insert(s, k, v) =~= s.update(i, (k, v)),
    decreases i,
{
    if i == 0 {
        if lex_lt(k, s[0].0) {
            lemma_lex_irrefl(k);
        }
        assert(map_insert(s, k, v) == seq![(k, v)] + s.skip(1));
        assert(map_insert(s, k, v) =~= s.update(0, (k, v)));
    } else {
        assert(lex_lt(s[0].0, k));
        lemma_lex_asym(s[0].0, k);
        if k == s[0].0 {
            lemma_lex_irrefl(k);
        }
        let t = s.skip(1);
        assert(forall|j: int| 0 <= j < t.len() ==> #[trigger] t[j] == s[j + 1]);
        lemma_sorted_subrange(s, 1, s.len() as int);
        lemma_map_insert_found(t, k, v, i - 1);
        assert(map_insert(s, k, v) == seq![s[0]] + map_insert(t, k, v));
        assert(map_insert(s, k, v) =~= s.update(i, (k, v)));
    }
}

/// A map from case names to values, stored sorted by name.
pub struct NameMap<V> {
    entries: Vec<(String, V)>,
}

impl<V: View> View for NameMap<V> {
    type V = Seq<(Seq<char>, <V as View>::V)>;

    closed spec fn view(&self) -> Seq<(Seq<char>, <V as View>::V)> {
        self.entries@.map_values(|p: (String, V)| (p.0@, p.1@))
    }
}

impl<V: View> NameMap<V> {
    /// The map's keys are strictly increasing.
    pub open spec fn wf(&self) -> bool {
        sorted_keys(self@)
    }

    /// An empty map.
    pub fn new() -> (m: NameMap<V>)
        ensures
            m@ =~= Seq::<(Seq<char>, <V as View>::V)>::empty(),
            m.wf(),
    {
        NameMap { entries: Vec::new() }
    }

    /// Number of entries.
    pub fn len(&self) -> (n: usize)
        ensures
            n == self@.len(),
    {
        self.entries.len()
    }

    /// The name stored at position `i`.
    pub fn key_at(&self, i: usize) -> (k: &String)
        requires
            i < self@.len(),
        ensures
            k@ == self@[i as int].0,
    {
        &self.entries[i].0
    }

    /// The value stored at position `i`.
    pub fn value_at(&self, i: usize) -> (v: &V)
        requires
            i < self@.len(),
        ensures
            v@ == self@[i as int].1,
    {
        &self.entries[i].1
    }

    /// Position of `name`, or the position where it would be inserted.
    pub fn find(&self, name: &str) -> (r: Result<usize, usize>)
        requires
            self.wf(),
        ensures
            match r {
                Ok(i) => i < self@.len() && self@[i as int].0 == name@ && map_get(
                    self@,
                    name@,
                ) == Some(self@[i as int].1),
                Err(i) => i <= self@.len() && map_get(self@, name@) is None && (forall|j: int|
                    0 <= j < i ==> lex_lt(#[trigger] self@[j].0, name@)) && (i < self@.len()
                    ==> lex_lt(name@, self@[i as int].0)),
            },
    {
        let n = self.entries.len();
        let mut i: usize = 0;
        while i < n
            invariant
                self.wf(),
                n == self@.len(),
                i <= n,
                forall|j: int| 0 <= j < i ==> lex_lt(#[trigger] self@[j].0, name@),
            decreases n - i,
        {
            let key: &String = &self.entries[i].0;
            assert(key@ == self@[i as int].0);
            if str_eq(key.as_str(), name) {
                proof {
                    lemma_map_get_at(self@, i as int);
                }
                return Ok(i);
            }
            if str_lt(name, key.as_str()) {
                proof {
                    self.lemma_absent_at(name@, i as int);
                }
                return Err(i);
            }
            proof {
                lemma_lex_total(key@, name@);
            }
            i += 1;
        }
        proof {
            self.lemma_absent_at(name@, n as int);
        }
        Err(i)
    }

    /// All keys before `i` are below `name` and, if `i` is a position, the key
    /// there is above `name`: then `name` is absent.
    proof fn lemma_absent_at(&self, name: Seq<char>, i: int)
        requires
            self.wf(),
            0 <= i <= self@.len(),
            forall|j: int| 0 <= j < i ==> lex_lt(#[trigger] self@[j].0, name),
            i < self@.len() ==> lex_lt(name, self@[i].0),
        ensures
            map_get(self@, name) is None,
    {
        assert forall|j: int| 0 <= j < self@.len() implies (#[trigger] self@[j].0) != name by {
            if j < i {
                if self@[j].0 == name {
                    lemma_lex_irrefl(name);
                }
            } else {
                assert(lex_lt(name, self@[i].0));
                if j > i {
                    lemma_lex_trans(name, self@[i].0, self@[j].0);
                }
                if self@[j].0 == name {
                    lemma_lex_irrefl(name);
                }
            }
        }
        lemma_map_get_absent(self@, name);
    }

    /// Look up a value by name.
    pub fn get(&self, name: &str) -> (r: Option<&V>)
        requires
            self.wf(),
        ensures
            match r {
                Some(v) => map_get(self@, name@) == Some(v@),
                None => map_get(self@, name@) is None,
            },
    {
        match self.find(name) {
            Ok(i) => Some(&self.entries[i].1),
            Err(_) => None,
        }
    }

    /// Whether `name` is present.
    pub fn contains(&self, name: &str) -> (r: bool)
        requires
            self.wf(),
        ensures
            r == map_contains(self@, name@),
    {
        self.find(name).is_ok()
    }

    /// Store `value` under `name`, replacing any existing entry of that name.
    pub fn insert(&mut self, name: String, value: V)
        requires
            old(self).wf(),
        ensures
            final(self)@ == map_insert(old(self)@, name@, value@),
            final(self).wf(),
    {
        let r = self.find(name.as_str());
        let ghost s = self@;
        match r {
            Ok(i) => {
                let _replaced = self.entries.remove(i);
                self.entries.insert(i, (name, value));
                proof {
                    lemma_map_insert_found(s, name@, value@, i as int);
                    assert(self@ =~= s.update(i as int, (name@, value@)));
                    assert(self@ == map_insert(s, name@, value@));
                    assert forall|a: int, b: int|
                        0 <= a < b < self@.len() implies lex_lt(
                        #[trigger] self@[a].0,
                        #[trigger] self@[b].0,
                    ) by {
                        assert(self@[a].0 == s[a].0);
                        assert(self@[b].0 == s[b].0);
                    }
                }
            },
            Err(i) => {
                self.entries.insert(i, (name, value));
                proof {
                    lemma_map_insert_fresh(s, name@, value@, i as int);
                    assert(self@ =~= s.subrange(0, i as int) + seq![(name@, value@)] + s.skip(
                        i as int,
                    ));
                    assert(self@ == map_insert(s, name@, value@));
                    self.lemma_splice_sorted(s, name@, i as int);
                }
            },
        }
    }

    /// A fresh entry spliced at its sorted position keeps the keys sorted.
    proof fn lemma_splice_sorted(&self, s: Seq<(Seq<char>, <V as View>::V)>, k: Seq<char>, i: int)
        requires
            sorted_keys(s),
            0 <= i <= s.len(),
            forall|j: int| 0 <= j < i ==> lex_lt(#[trigger] s[j].0, k),
            i < s.len() ==> lex_lt(k, s[i].0),
            self@.len() == s.len() + 1,
            forall|j: int| 0 <= j < i ==> #[trigger] self@[j] == s[j],
            self@[i].0 == k,
            forall|j: int| i < j < self@.len() ==> #[trigger] self@[j] == s[j - 1],
        ensures
            self.wf(),
    {
        assert forall|a: int, b: int|
            0 <= a < b < self@.len() implies lex_lt(#[trigger] self@[a].0, #[trigger] self@[b].0) by {
            if a < i && b < i {
            } else if a < i && b == i {
            } else if a < i && b > i {
                assert(self@[a].0 == s[a].0);
                assert(self@[b].0 == s[b - 1].0);
                assert(lex_lt(s[a].0, s[b - 1].0));
            } else if a == i {
                assert(self@[b].0 == s[b - 1].0);
                assert(b - 1 >= i);
                if b - 1 == i {
                    assert(lex_lt(k, s[i].0));
                } else {
                    lemma_lex_trans(k, s[i].0, s[b - 1].0);
                }
            } else {
                assert(self@[a].0 == s[a - 1].0);
                assert(self@[b].0 == s[b - 1].0);
            }
        }
    }

    /// Append an entry whose name is above every name already present.
    pub fn push_entry(&mut self, name: String, value: V)
        requires
            old(self).wf(),
            forall|j: int| 0 <= j < old(self)@.len() ==> lex_lt(#[trigger] old(self)@[j].0, name@),
        ensures
            final(self)@ =~= old(self)@ + seq![(name@, value@)],
            final(self).wf(),
    {
        let ghost s = self@;
        self.entries.push((name, value));
        proof {
            assert(self@ =~= s + seq![(name@, value@)]);
            assert forall|a: int, b: int|
                0 <= a < b < self@.len() implies lex_lt(#[trigger] self@[a].0, #[trigger] self@[b].0) by {
                if b < s.len() {
                    assert(self@[a] == s[a]);
                    assert(self@[b] == s[b]);
                } else {
                    assert(self@[a] == s[a]);
                    assert(self@[b].0 == name@);
                }
            }
        }
    }

    /// Replace the value at position `i`, keeping its name.
    pub fn set_value_at(&mut self, i: usize, value: V)
        requires
            old(self).wf(),
            i < old(self)@.len(),
        ensures
            final(self)@ =~= old(self)@.update(i as int, (old(self)@[i as int].0, value@)),
            final(self).wf(),
    {
        let ghost s = self@;
        let entry = self.entries.remove(i);
        self.entries.insert(i, (entry.0, value));
        proof {
            assert(self@ =~= s.update(i as int, (s[i as int].0, value@)));
            assert forall|a: int, b: int|
                0 <= a < b < self@.len() implies lex_lt(#[trigger] self@[a].0, #[trigger] self@[b].0) by {
                assert(self@[a].0 == s[a].0);
                assert(self@[b].0 == s[b].0);
            }
        }
    }
}

} // verus!
