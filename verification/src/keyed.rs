//! An ordered map keyed by text, kept as a strictly sorted vector of
//! entries. Iteration follows key order, as a `BTreeMap<String, V>` does.
use vstd::prelude::*;

use crate::text::{chars_lt, compare_chars, lemma_chars_lt_irreflexive, lemma_chars_lt_total, lemma_chars_lt_transitive, Order};

verus! {

pub struct KeyedMap<V> {
    pub entries: Vec<(Vec<char>, V)>,
}

impl<V> KeyedMap<V> {
    pub open spec fn key_at(&self, i: int) -> Seq<char> {
        self.entries@[i].0@
    }

    pub open spec fn val_at(&self, i: int) -> V {
        self.entries@[i].1
    }

    /// Keys strictly increase, so no key occurs twice.
    pub open spec fn wf(&self) -> bool {
        forall|i: int, j: int|
            0 <= i < j < self.entries@.len() ==> chars_lt(#[trigger] self.key_at(i), #[trigger] self.key_at(j))
    }

    pub open spec fn has(&self, k: Seq<char>) -> bool {
        exists|i: int| 0 <= i < self.entries@.len() && #[trigger] self.key_at(i) == k
    }

    pub open spec fn index_of(&self, k: Seq<char>) -> int {
        choose|i: int| 0 <= i < self.entries@.len() && #[trigger] self.key_at(i) == k
    }

    pub open spec fn get(&self, k: Seq<char>) -> V {
        self.val_at(self.index_of(k))
    }

    /// The key set.
    pub open spec fn keys(&self) -> Set<Seq<char>> {
        Set::new(|k: Seq<char>| self.has(k))
    }

    /// The entries as a map from key to value.
    pub open spec fn as_map(&self) -> Map<Seq<char>, V> {
        Map::new(|k: Seq<char>| self.has(k), |k: Seq<char>| self.get(k))
    }

    pub proof fn lemma_index_unique(&self, i: int, k: Seq<char>)
        requires
            self.wf(),
            0 <= i < self.entries@.len(),
            self.key_at(i) == k,
        ensures
            self.has(k),
            self.index_of(k) == i,
            self.get(k) == self.val_at(i),
    {
        let j = self.index_of(k);
        assert(self.key_at(i) == k);
        if j < i {
            assert(chars_lt(self.key_at(j), self.key_at(i)));
            lemma_chars_lt_irreflexive(k);
        } else if j > i {
            assert(chars_lt(self.key_at(i), self.key_at(j)));
            lemma_chars_lt_irreflexive(k);
        }
    }

    pub fn new() -> (m: Self)
        ensures
            m.wf(),
            m.entries@.len() == 0,
    {
        KeyedMap { entries: Vec::new() }
    }

    pub fn len(&self) -> (n: usize)
        ensures
            n == self.entries@.len(),
    {
        self.entries.len()
    }

    /// The position of `k`, or `Err(p)` with `p` the position where `k`
    /// would be inserted to keep the order.
    pub fn search(&self, k: &Vec<char>) -> (r: Result<usize, usize>)
        requires
            self.wf(),
        ensures
            r matches Ok(i) ==> i < self.entries@.len() && self.key_at(i as int) == k@,
            r matches Ok(i) ==> self.has(k@) && self.index_of(k@) == i,
            r matches Err(p) ==> !self.has(k@) && p <= self.entries@.len(),
            r matches Err(p) ==> forall|i: int| 0 <= i < p ==> chars_lt(#[trigger] self.key_at(i), k@),
            r matches Err(p) ==> forall|i: int| p <= i < self.entries@.len() ==> chars_lt(k@, #[trigger] self.key_at(i)),
    {
        let mut i: usize = 0;
        while i < self.entries.len()
            invariant
                self.wf(),
                i <= self.entries@.len(),
                forall|j: int| 0 <= j < i ==> chars_lt(#[trigger] self.key_at(j), k@),
            decreases self.entries@.len() - i,
        {
            let o = compare_chars(&self.entries[i].0, k);
            if o == Order::Equal {
                proof {
                    self.lemma_index_unique(i as int, k@);
                }
                return Ok(i);
            }
            if o == Order::Greater {
                proof {
                    lemma_chars_lt_total(self.key_at(i as int), k@);
                    assert forall|j: int| i <= j < self.entries@.len() implies chars_lt(k@, #[trigger] self.key_at(j)) by {
                        if j > i {
                            assert(chars_lt(self.key_at(i as int), self.key_at(j)));
                            lemma_chars_lt_transitive(k@, self.key_at(i as int), self.key_at(j));
                        }
                    }
                    assert forall|j: int| 0 <= j < self.entries@.len() implies #[trigger] self.key_at(j) != k@ by {
                        if j < i {
                            lemma_chars_lt_irreflexive(k@);
                        } else {
                            lemma_chars_lt_irreflexive(k@);
                        }
                    }
                }
                return Err(i);
            }
            i = i + 1;
        }
        proof {
            assert forall|j: int| 0 <= j < self.entries@.len() implies #[trigger] self.key_at(j) != k@ by {
                lemma_chars_lt_irreflexive(k@);
            }
        }
        Err(i)
    }

    /// Insert or replace the value under `k`.
    pub fn insert(&mut self, k: Vec<char>, v: V)
        requires
            old(self).wf(),
        ensures
            final(self).wf(),
            final(self).as_map() == old(self).as_map().insert(k@, v),
            old(self).has(k@) ==> final(self).entries@.len() == old(self).entries@.len(),
            !old(self).has(k@) ==> final(self).entries@.len() == old(self).entries@.len() + 1,
    {
        let ghost k_view = k@;
        match self.search(&k) {
            Ok(i) => {
                let ghost before = self.entries@;
                assert(before == old(self).entries@);
                self.entries.set(i, (k, v));
                proof {
                    assert(self.entries@ == before.update(i as int, self.entries@[i as int]));
                    assert(self.key_at(i as int) == k_view);
                    assert(before[i as int].0@ == k_view);
                    assert(self.wf()) by {
                        assert forall|a: int, b: int|
                            0 <= a < b < self.entries@.len() implies chars_lt(#[trigger] self.key_at(a), #[trigger] self.key_at(b)) by {
                            assert(self.key_at(a) == before[a].0@);
                            assert(self.key_at(b) == before[b].0@);
                            assert(old(self).key_at(a) == before[a].0@);
                            assert(old(self).key_at(b) == before[b].0@);
                        }
                    }
                    self.lemma_map_after_set(old(self), i as int, k_view, v);
                }
            },
            Err(p) => {
                self.entries.insert(p, (k, v));
                proof {
                    self.lemma_map_after_insert(old(self), p as int, k_view, v);
                }
            },
        }
    }

    proof fn lemma_map_after_set(&self, prev: &Self, i: int, k: Seq<char>, v: V)
        requires
            prev.wf(),
            self.wf(),
            0 <= i < prev.entries@.len(),
            prev.key_at(i) == k,
            self.entries@ == prev.entries@.update(i, self.entries@[i]),
            self.key_at(i) == k,
            self.val_at(i) == v,
        ensures
            self.as_map() == prev.as_map().insert(k, v),
    {
        assert forall|key: Seq<char>| self.has(key) <==> prev.has(key) || key == k by {
            if self.has(key) {
                let j = self.index_of(key);
                if j != i {
                    assert(prev.key_at(j) == key);
                }
            }
            if prev.has(key) {
                let j = prev.index_of(key);
                assert(self.key_at(j) == key);
            }
            if key == k {
                assert(self.key_at(i) == k);
            }
        }
        assert forall|key: Seq<char>| self.has(key) implies self.get(key) == (if key == k { v } else { prev.get(key) }) by {
            let j = self.index_of(key);
            self.lemma_index_unique(j, key);
            if key == k {
                self.lemma_index_unique(i, k);
            } else {
                assert(j != i);
                assert(prev.key_at(j) == key);
                prev.lemma_index_unique(j, key);
            }
        }
        assert(self.as_map() =~= prev.as_map().insert(k, v));
    }

    proof fn lemma_map_after_insert(&self, prev: &Self, p: int, k: Seq<char>, v: V)
        requires
            prev.wf(),
            0 <= p <= prev.entries@.len(),
            self.entries@ == prev.entries@.insert(p, self.entries@[p]),
            self.key_at(p) == k,
            self.val_at(p) == v,
            forall|i: int| 0 <= i < p ==> chars_lt(#[trigger] prev.key_at(i), k),
            forall|i: int| p <= i < prev.entries@.len() ==> chars_lt(k, #[trigger] prev.key_at(i)),
        ensures
            self.wf(),
            self.as_map() == prev.as_map().insert(k, v),
            self.entries@.len() == prev.entries@.len() + 1,
    {
        assert forall|i: int| 0 <= i < self.entries@.len() implies #[trigger] self.key_at(i) == (if i < p {
            prev.key_at(i)
        } else if i == p {
            k
        } else {
            prev.key_at(i - 1)
        }) by {}
        assert forall|a: int, b: int| 0 <= a < b < self.entries@.len() implies chars_lt(#[trigger] self.key_at(a), #[trigger] self.key_at(b)) by {
            if b < p {
                assert(chars_lt(prev.key_at(a), prev.key_at(b)));
            } else if b == p {
            } else if a < p {
                lemma_chars_lt_transitive(prev.key_at(a), k, prev.key_at(b - 1));
            } else if a == p {
            } else {
                assert(chars_lt(prev.key_at(a - 1), prev.key_at(b - 1)));
            }
        }
        assert forall|key: Seq<char>| self.has(key) <==> prev.has(key) || key == k by {
            if self.has(key) {
                let j = self.index_of(key);
                if j < p {
                    assert(prev.key_at(j) == key);
                } else if j > p {
                    assert(prev.key_at(j - 1) == key);
                }
            }
            if prev.has(key) {
                let j = prev.index_of(key);
                if j < p {
                    assert(self.key_at(j) == key);
                } else {
                    assert(self.key_at(j + 1) == key);
                }
            }
            if key == k {
                assert(self.key_at(p) == k);
            }
        }
        assert forall|key: Seq<char>| self.has(key) implies self.get(key) == (if key == k { v } else { prev.get(key) }) by {
            let j = self.index_of(key);
            self.lemma_index_unique(j, key);
            if key == k {
                self.lemma_index_unique(p, k);
            } else if j < p {
                prev.lemma_index_unique(j, key);
            } else {
                assert(j != p);
                prev.lemma_index_unique(j - 1, key);
            }
        }
        assert(self.as_map() =~= prev.as_map().insert(k, v));
    }

    /// Remove the entry under `k`, returning its value.
    pub fn remove(&mut self, k: &Vec<char>) -> (r: Option<V>)
        requires
            old(self).wf(),
        ensures
            final(self).wf(),
            final(self).as_map() == old(self).as_map().remove(k@),
            r matches Some(v) ==> old(self).has(k@) && v == old(self).get(k@),
            r is None ==> !old(self).has(k@) && final(self).entries@ == old(self).entries@,
            old(self).has(k@) ==> final(self).entries@.len() + 1 == old(self).entries@.len(),
            old(self).has(k@) ==> final(self).entries@ == old(self).entries@.remove(old(self).index_of(k@)),
    {
        match self.search(k) {
            Ok(i) => {
                let (_key, v) = self.entries.remove(i);
                proof {
                    self.lemma_map_after_remove(old(self), i as int, k@);
                }
                Some(v)
            },
            Err(_) => {
                proof {
                    assert(self.as_map() =~= old(self).as_map().remove(k@));
                }
                None
            },
        }
    }

    proof fn lemma_map_after_remove(&self, prev: &Self, i: int, k: Seq<char>)
        requires
            prev.wf(),
            0 <= i < prev.entries@.len(),
            prev.key_at(i) == k,
            self.entries@ == prev.entries@.remove(i),
        ensures
            self.wf(),
            self.as_map() == prev.as_map().remove(k),
    {
        assert forall|j: int| 0 <= j < self.entries@.len() implies #[trigger] self.key_at(j) == (if j < i {
            prev.key_at(j)
        } else {
            prev.key_at(j + 1)
        }) by {}
        assert forall|a: int, b: int| 0 <= a < b < self.entries@.len() implies chars_lt(#[trigger] self.key_at(a), #[trigger] self.key_at(b)) by {
            if b < i {
                assert(chars_lt(prev.key_at(a), prev.key_at(b)));
            } else if a < i {
                assert(chars_lt(prev.key_at(a), prev.key_at(b + 1)));
            } else {
                assert(chars_lt(prev.key_at(a + 1), prev.key_at(b + 1)));
            }
        }
        prev.lemma_index_unique(i, k);
        assert forall|key: Seq<char>| self.has(key) <==> prev.has(key) && key != k by {
            if self.has(key) {
                let j = self.index_of(key);
                if j < i {
                    assert(prev.key_at(j) == key);
                    assert(chars_lt(prev.key_at(j), prev.key_at(i)));
                    if key == k {
                        lemma_chars_lt_irreflexive(k);
                    }
                } else {
                    assert(prev.key_at(j + 1) == key);
                    assert(chars_lt(prev.key_at(i), prev.key_at(j + 1)));
                    if key == k {
                        lemma_chars_lt_irreflexive(k);
                    }
                }
            }
            if prev.has(key) && key != k {
                let j = prev.index_of(key);
                assert(j != i);
                if j < i {
                    assert(self.key_at(j) == key);
                } else {
                    assert(self.key_at(j - 1) == key);
                }
            }
        }
        assert forall|key: Seq<char>| self.has(key) implies self.get(key) == prev.get(key) by {
            let j = self.index_of(key);
            self.lemma_index_unique(j, key);
            if j < i {
                prev.lemma_index_unique(j, key);
            } else {
                prev.lemma_index_unique(j + 1, key);
            }
        }
        assert(self.as_map() =~= prev.as_map().remove(k));
    }

    /// The value under `k`, if any.
    pub fn get_value(&self, k: &Vec<char>) -> (r: Option<&V>)
        requires
            self.wf(),
        ensures
            r matches Some(v) ==> self.has(k@) && *v == self.get(k@),
            r is None ==> !self.has(k@),
    {
        match self.search(k) {
            Ok(i) => Some(&self.entries[i].1),
            Err(_) => None,
        }
    }

    /// The values in key order.
    pub fn into_values(self) -> (r: Vec<V>)
        ensures
            r@.len() == self.entries@.len(),
            forall|i: int| 0 <= i < r@.len() ==> r@[i] == #[trigger] self.val_at(i),
    {
        let mut entries = self.entries;
        let ghost all = entries@;
        let mut out: Vec<V> = Vec::new();
        while entries.len() > 0
            invariant
                out@.len() + entries@.len() == all.len(),
                entries@ == all.subrange(out@.len() as int, all.len() as int),
                forall|i: int| 0 <= i < out@.len() ==> out@[i] == all[i].1,
            decreases entries.len(),
        {
            let (_k, v) = entries.remove(0);
            out.push(v);
        }
        out
    }

    /// Whether `k` is present.
    pub fn contains(&self, k: &Vec<char>) -> (r: bool)
        requires
            self.wf(),
        ensures
            r == self.has(k@),
    {
        match self.search(k) {
            Ok(_) => true,
            Err(_) => false,
        }
    }
}

impl<V: View> KeyedMap<V> {
    /// The entries as a map from key to the value's view.
    pub open spec fn view_map(&self) -> Map<Seq<char>, V::V> {
        self.as_map().map_values(|v: V| v@)
    }
}

/// The key sequence.
pub open spec fn keys_seq<V>(m: &KeyedMap<V>) -> Seq<Seq<char>> {
    Seq::new(m.entries@.len(), |i: int| m.key_at(i))
}

/// A well-formed map holds exactly as many keys as entries.
pub proof fn lemma_dom_len<V>(m: &KeyedMap<V>)
    requires
        m.wf(),
    ensures
        m.as_map().dom().finite(),
        m.as_map().dom().len() == m.entries@.len(),
{
    let ks = keys_seq(m);
    assert(ks.no_duplicates()) by {
        assert forall|i: int, j: int| 0 <= i < ks.len() && 0 <= j < ks.len() && i != j implies ks[i] != ks[j] by {
            if i < j {
                assert(chars_lt(m.key_at(i), m.key_at(j)));
            } else {
                assert(chars_lt(m.key_at(j), m.key_at(i)));
            }
            lemma_chars_lt_irreflexive(ks[i]);
        }
    }
    ks.unique_seq_to_set();
    assert(m.as_map().dom() =~= ks.to_set()) by {
        assert forall|k: Seq<char>| m.as_map().dom().contains(k) <==> ks.to_set().contains(k) by {
            if m.has(k) {
                let i = m.index_of(k);
                assert(ks[i] == k);
                assert(ks.contains(k));
            }
            if ks.contains(k) {
                let i = choose|i: int| 0 <= i < ks.len() && ks[i] == k;
                assert(m.key_at(i) == k);
            }
        }
    }
    vstd::seq_lib::seq_to_set_is_finite(ks);
}

pub broadcast proof fn lemma_map_values_dom<K, V, W>(m: Map<K, V>, f: spec_fn(V) -> W)
    ensures
        #[trigger] m.map_values(f).dom() == m.dom(),
{
    assert(m.map_values(f).dom() =~= m.dom());
}

pub broadcast proof fn lemma_map_values_index<K, V, W>(m: Map<K, V>, f: spec_fn(V) -> W, k: K)
    requires
        m.dom().contains(k),
    ensures
        #[trigger] m.map_values(f)[k] == f(m[k]),
{
}

pub broadcast proof fn lemma_as_map_contains<V>(m: &KeyedMap<V>, k: Seq<char>)
    ensures
        #[trigger] m.as_map().contains_key(k) == m.has(k),
{
}

pub broadcast proof fn lemma_as_map_index<V>(m: &KeyedMap<V>, k: Seq<char>)
    requires
        m.has(k),
    ensures
        #[trigger] m.as_map()[k] == m.get(k),
{
}

pub broadcast group group_map_values {
    lemma_map_values_dom,
    lemma_map_values_index,
    lemma_as_map_contains,
    lemma_as_map_index,
}

pub proof fn lemma_map_values_insert<K, V, W>(m: Map<K, V>, k: K, v: V, f: spec_fn(V) -> W)
    ensures
        m.insert(k, v).map_values(f) == m.map_values(f).insert(k, f(v)),
{
    assert(m.insert(k, v).map_values(f) =~= m.map_values(f).insert(k, f(v)));
}

pub proof fn lemma_map_values_remove<K, V, W>(m: Map<K, V>, k: K, f: spec_fn(V) -> W)
    ensures
        m.remove(k).map_values(f) == m.map_values(f).remove(k),
{
    assert(m.remove(k).map_values(f) =~= m.map_values(f).remove(k));
}

} // verus!
