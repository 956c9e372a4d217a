//! Keyed containers backed by vectors kept strictly sorted by key.
//!
//! The sorted representation is canonical: two containers holding the same
//! entries are structurally equal, which lets replicated state that converges
//! at the model level also compare equal with `==`.

use vstd::prelude::*;
use crate::keys::{Cmp, TotalOrder};

verus! {

/// A map from totally ordered keys to values, backed by a vector of entries
/// kept strictly sorted by key.
#[derive(Clone, Debug, PartialEq, Eq)]
pub struct VecMap<K, V> {
    entries: Vec<(K, V)>,
}

impl<K: TotalOrder + Copy, V> VecMap<K, V> {
    /// The underlying entry sequence, sorted by key.
    pub closed spec fn sseq(self) -> Seq<(K, V)> {
        self.entries@
    }

    /// Entries are strictly sorted by key.
    pub open spec fn wf(self) -> bool {
        forall|i: int, j: int|
            0 <= i < j < self.sseq().len() ==> (#[trigger] self.sseq()[i]).0.le(
                (#[trigger] self.sseq()[j]).0,
            ) && self.sseq()[i].0 != self.sseq()[j].0
    }

    /// Some entry carries the key `k`.
    pub open spec fn spec_contains(self, k: K) -> bool {
        exists|i: int| 0 <= i < self.sseq().len() && (#[trigger] self.sseq()[i]).0 == k
    }

    /// The index of the entry carrying `k`.
    pub open spec fn spec_index_of(self, k: K) -> int {
        choose|i: int| 0 <= i < self.sseq().len() && (#[trigger] self.sseq()[i]).0 == k
    }

    /// The contents as a mathematical map.
    pub open spec fn as_map(self) -> Map<K, V> {
        Map::new(
            |k: K| self.spec_contains(k),
            |k: K| self.sseq()[self.spec_index_of(k)].1,
        )
    }

    /// A contained key's index is in range and carries that key.
    pub proof fn lemma_index_of(self, k: K)
        requires
            self.spec_contains(k),
        ensures
            0 <= self.spec_index_of(k) < self.sseq().len(),
            self.sseq()[self.spec_index_of(k)].0 == k,
    {
    }

    /// In a well-formed map, the entry at index `i` is the one the map view
    /// associates with its key.
    pub proof fn lemma_entry(self, i: int)
        requires
            self.wf(),
            0 <= i < self.sseq().len(),
        ensures
            self.spec_contains(self.sseq()[i].0),
            self.spec_index_of(self.sseq()[i].0) == i,
            self.as_map().dom().contains(self.sseq()[i].0),
            self.as_map()[self.sseq()[i].0] == self.sseq()[i].1,
    {
        assert(self.spec_contains(self.sseq()[i].0));
        let j = self.spec_index_of(self.sseq()[i].0);
        if i < j {
            assert(self.sseq()[i].0 != self.sseq()[j].0);
        } else if j < i {
            assert(self.sseq()[j].0 != self.sseq()[i].0);
        }
    }

    /// In a well-formed map, the domain has exactly one key per entry.
    pub proof fn lemma_dom_len(self)
        requires
            self.wf(),
        ensures
            self.as_map().dom().finite(),
            self.as_map().dom().len() == self.sseq().len(),
    {
        broadcast use vstd::seq_lib::seq_to_set_is_finite;

        let keyseq = Seq::new(self.sseq().len(), |i: int| (#[trigger] self.sseq()[i]).0);
        assert(self.as_map().dom() =~= keyseq.to_set()) by {
            assert forall|k: K| self.as_map().dom().contains(k) implies keyseq.to_set().contains(
                k,
            ) by {
                self.lemma_index_of(k);
                let i = self.spec_index_of(k);
                assert(keyseq[i] == k);
            }
            assert forall|k: K| keyseq.to_set().contains(k) implies self.as_map().dom().contains(
                k,
            ) by {
                let i = choose|i: int| 0 <= i < keyseq.len() && keyseq[i] == k;
                assert(self.sseq()[i].0 == k);
            }
        }
        assert(keyseq.no_duplicates()) by {
            assert forall|p: int, q: int|
                0 <= p < keyseq.len() && 0 <= q < keyseq.len() && p != q implies keyseq[p]
                != keyseq[q] by {
                if p < q {
                    assert((self.sseq()[p]).0.le((self.sseq()[q]).0) && self.sseq()[p].0
                        != self.sseq()[q].0);
                } else {
                    assert((self.sseq()[q]).0.le((self.sseq()[p]).0) && self.sseq()[q].0
                        != self.sseq()[p].0);
                }
            }
        }
        keyseq.unique_seq_to_set();
    }

    /// Create an empty map.
    pub fn new() -> (r: Self)
        ensures
            r.wf(),
            r@ == Map::<K, V>::empty(),
            r.sseq().len() == 0,
    {
        let r = VecMap { entries: Vec::new() };
        proof {
            assert(r.as_map() =~= Map::<K, V>::empty());
        }
        r
    }

    /// The number of entries.
    pub fn len(&self) -> (n: usize)
        ensures
            n == self.sseq().len(),
    {
        self.entries.len()
    }

    /// The entry at index `i`, in ascending key order.
    pub fn get_index(&self, i: usize) -> (r: &(K, V))
        requires
            self.wf(),
            i < self.sseq().len(),
        ensures
            *r == self.sseq()[i as int],
            self@.dom().contains(r.0),
            self@[r.0] == r.1,
    {
        proof {
            self.lemma_entry(i as int);
        }
        &self.entries[i]
    }

    /// Whether `key` is present.
    pub fn contains_key(&self, key: &K) -> (r: bool)
        requires
            self.wf(),
        ensures
            r == self@.dom().contains(*key),
    {
        match self.get(key) {
            Some(_) => true,
            None => false,
        }
    }

    /// Look up the value stored under `key`.
    pub fn get(&self, key: &K) -> (r: Option<&V>)
        requires
            self.wf(),
        ensures
            match r {
                Some(v) => self@.dom().contains(*key) && *v == self@[*key],
                None => !self@.dom().contains(*key),
            },
    {
        let n = self.entries.len();
        let mut i: usize = 0;
        while i < n
            invariant
                self.wf(),
                n == self.sseq().len(),
                i <= n,
                forall|j: int| 0 <= j < i ==> (#[trigger] self.sseq()[j]).0 != *key,
            decreases n - i,
        {
            match self.entries[i].0.compare(key) {
                Cmp::Equal => {
                    proof {
                        self.lemma_entry(i as int);
                    }
                    return Some(&self.entries[i].1);
                },
                _ => {},
            }
            i += 1;
        }
        proof {
            if self.spec_contains(*key) {
                self.lemma_index_of(*key);
            }
        }
        None
    }

    /// The first index whose key is not below `key`.
    fn lower_bound(&self, key: &K) -> (r: usize)
        requires
            self.wf(),
        ensures
            r <= self.sseq().len(),
            forall|j: int|
                0 <= j < r ==> (#[trigger] self.sseq()[j]).0.le(*key) && self.sseq()[j].0 != *key,
            r < self.sseq().len() ==> key.le(self.sseq()[r as int].0),
    {
        let n = self.entries.len();
        let mut i: usize = 0;
        while i < n
            invariant
                self.wf(),
                n == self.sseq().len(),
                i <= n,
                forall|j: int|
                    0 <= j < i ==> (#[trigger] self.sseq()[j]).0.le(*key) && self.sseq()[j].0
                        != *key,
            decreases n - i,
        {
            match self.entries[i].0.compare(key) {
                Cmp::Less => {},
                Cmp::Equal => {
                    proof {
                        K::reflexive(*key);
                    }
                    return i;
                },
                Cmp::Greater => {
                    return i;
                },
            }
            i += 1;
        }
        i
    }

    /// Insert `value` under `key`, returning the value previously stored
    /// there, if any.
    pub fn insert(&mut self, key: K, value: V) -> (r: Option<V>)
        requires
            old(self).wf(),
        ensures
            final(self).wf(),
            final(self)@ == old(self)@.insert(key, value),
            match r {
                Some(v) => old(self)@.dom().contains(key) && v == old(self)@[key],
                None => !old(self)@.dom().contains(key),
            },
    {
        let ghost s_old = self.sseq();
        let n = self.entries.len();
        let i = self.lower_bound(&key);
        let mut replace = false;
        if i < n {
            match self.entries[i].0.compare(&key) {
                Cmp::Equal => {
                    replace = true;
                },
                _ => {},
            }
        }
        if replace {
            proof {
                self.lemma_entry(i as int);
            }
            let prev = self.entries.remove(i);
            self.entries.insert(i, (key, value));
            proof {
                let s_new = self.sseq();
                assert(s_new =~= s_old.update(i as int, (key, value)));
                assert(self.wf()) by {
                    assert forall|p: int, q: int|
                        0 <= p < q < s_new.len() implies (#[trigger] s_new[p]).0.le(
                        (#[trigger] s_new[q]).0,
                    ) && s_new[p].0 != s_new[q].0 by {
                        assert(s_old[p].0.le(s_old[q].0) && s_old[p].0 != s_old[q].0);
                    }
                }
                assert(self@ =~= old(self)@.insert(key, value)) by {
                    assert forall|k2: K| #![all_triggers] self.spec_contains(k2) implies (old(
                        self,
                    ).spec_contains(k2) || k2 == key) by {
                        self.lemma_index_of(k2);
                        let w = self.spec_index_of(k2);
                        if w != i {
                            assert(s_old[w].0 == k2);
                        }
                    }
                    assert forall|k2: K| #![all_triggers] old(self).spec_contains(k2) implies
                        self.spec_contains(k2) by {
                        old(self).lemma_index_of(k2);
                        let w = old(self).spec_index_of(k2);
                        if w == i {
                            assert(s_new[w].0 == key);
                            assert(s_old[w].0 == key);
                        } else {
                            assert(s_new[w].0 == k2);
                        }
                    }
                    assert forall|k2: K|
                        self.spec_contains(k2) && k2 != key implies self.as_map()[k2] == old(
                        self,
                    ).as_map()[k2] by {
                        self.lemma_index_of(k2);
                        let w = self.spec_index_of(k2);
                        assert(w != i);
                        assert(s_old[w].0 == k2);
                        self.lemma_entry(w);
                        old(self).lemma_entry(w);
                    }
                    self.lemma_entry(i as int);
                }
            }
            return Some(prev.1);
        }
        // `key` is not present: every entry before `i` is strictly below it,
        // every entry from `i` on is strictly above it.
        proof {
            assert forall|j: int| i <= j < n implies key.le((#[trigger] s_old[j]).0) && s_old[j].0
                != *&key by {
                if j == i {
                    if s_old[j].0 == key {
                        assert(false);
                    }
                } else {
                    assert(s_old[i as int].0.le(s_old[j].0) && s_old[i as int].0 != s_old[j].0);
                    K::transitive(key, s_old[i as int].0, s_old[j].0);
                    if s_old[j].0 == key {
                        K::antisymmetric(key, s_old[i as int].0);
                    }
                }
            }
            if old(self).spec_contains(key) {
                old(self).lemma_index_of(key);
            }
        }
        self.entries.insert(i, (key, value));
        proof {
            let s_new = self.sseq();
            assert(s_new =~= s_old.insert(i as int, (key, value)));
            assert(self.wf()) by {
                assert forall|p: int, q: int|
                    0 <= p < q < s_new.len() implies (#[trigger] s_new[p]).0.le(
                    (#[trigger] s_new[q]).0,
                ) && s_new[p].0 != s_new[q].0 by {
                    if p == i {
                        assert(s_new[q] == s_old[q - 1]);
                    } else if q == i {
                        assert(s_new[p] == s_old[p]);
                    } else {
                        let pp = if p < i { p } else { p - 1 };
                        let qq = if q < i { q } else { q - 1 };
                        assert(s_new[p] == s_old[pp]);
                        assert(s_new[q] == s_old[qq]);
                    }
                }
            }
            assert(self@ =~= old(self)@.insert(key, value)) by {
                assert forall|k2: K| #![all_triggers] self.spec_contains(k2) implies (old(
                    self,
                ).spec_contains(k2) || k2 == key) by {
                    self.lemma_index_of(k2);
                    let w = self.spec_index_of(k2);
                    if w < i {
                        assert(s_old[w].0 == k2);
                    } else if w > i {
                        assert(s_old[w - 1].0 == k2);
                    }
                }
                assert forall|k2: K| #![all_triggers] old(self).spec_contains(k2) implies
                    self.spec_contains(k2) by {
                    old(self).lemma_index_of(k2);
                    let w = old(self).spec_index_of(k2);
                    if w < i {
                        assert(s_new[w].0 == k2);
                    } else {
                        assert(s_new[w + 1].0 == k2);
                    }
                }
                assert forall|k2: K|
                    self.spec_contains(k2) && k2 != key implies self.as_map()[k2] == old(
                    self,
                ).as_map()[k2] by {
                    self.lemma_index_of(k2);
                    let w = self.spec_index_of(k2);
                    self.lemma_entry(w);
                    assert(w != i);
                    if w < i {
                        old(self).lemma_entry(w);
                    } else {
                        assert(s_new[w] == s_old[w - 1]);
                        old(self).lemma_entry(w - 1);
                    }
                }
                self.lemma_entry(i as int);
            }
        }
        None
    }

    /// Remove the entry stored under `key`, returning its value, if any.
    pub fn remove(&mut self, key: &K) -> (r: Option<V>)
        requires
            old(self).wf(),
        ensures
            final(self).wf(),
            final(self)@ == old(self)@.remove(*key),
            match r {
                Some(v) => old(self)@.dom().contains(*key) && v == old(self)@[*key],
                None => !old(self)@.dom().contains(*key) && *final(self) == *old(self),
            },
    {
        let ghost s_old = self.sseq();
        let n = self.entries.len();
        let mut i: usize = 0;
        while i < n
            invariant
                self.wf(),
                self.sseq() == s_old,
                s_old == old(self).sseq(),
                *self == *old(self),
                n == s_old.len(),
                i <= n,
                forall|j: int| 0 <= j < i ==> (#[trigger] s_old[j]).0 != *key,
            decreases n - i,
        {
            let eq = match self.entries[i].0.compare(key) {
                Cmp::Equal => true,
                _ => false,
            };
            if eq {
                proof {
                    assert(s_old == old(self).sseq());
                    assert(s_old[i as int].0 == *key);
                    self.lemma_entry(i as int);
                }
                let prev = self.entries.remove(i);
                proof {
                    let s_new = self.sseq();
                    assert(s_new =~= s_old.remove(i as int));
                    assert(self.wf()) by {
                        assert forall|p: int, q: int|
                            0 <= p < q < s_new.len() implies (#[trigger] s_new[p]).0.le(
                            (#[trigger] s_new[q]).0,
                        ) && s_new[p].0 != s_new[q].0 by {
                            let pp = if p < i { p } else { p + 1 };
                            let qq = if q < i { q } else { q + 1 };
                            assert(s_new[p] == s_old[pp]);
                            assert(s_new[q] == s_old[qq]);
                        }
                    }
                    assert(self@ =~= old(self)@.remove(*key)) by {
                        assert forall|k2: K| #![all_triggers] self.spec_contains(k2) implies (old(
                            self,
                        ).spec_contains(k2) && k2 != *key) by {
                            self.lemma_index_of(k2);
                            let w = self.spec_index_of(k2);
                            let ww = if w < i { w } else { w + 1 };
                            assert(s_old[ww].0 == k2);
                            if k2 == *key {
                                assert(s_old[i as int].0 == *key);
                            }
                        }
                        assert forall|k2: K| #![all_triggers] old(self).spec_contains(k2) && k2
                            != *key implies self.spec_contains(k2) by {
                            old(self).lemma_index_of(k2);
                            let w = old(self).spec_index_of(k2);
                            assert(w != i);
                            if w < i {
                                assert(s_new[w].0 == k2);
                            } else {
                                assert(s_new[w - 1].0 == k2);
                            }
                        }
                        assert forall|k2: K| self.spec_contains(k2) implies self.as_map()[k2]
                            == old(self).as_map()[k2] by {
                            self.lemma_index_of(k2);
                            let w = self.spec_index_of(k2);
                            self.lemma_entry(w);
                            let ww = if w < i { w } else { w + 1 };
                            old(self).lemma_entry(ww);
                        }
                    }
                }
                return Some(prev.1);
            }
            i += 1;
        }
        proof {
            if self.spec_contains(*key) {
                self.lemma_index_of(*key);
            }
            assert(self@ =~= old(self)@.remove(*key));
        }
        None
    }

    /// All keys, in ascending order.
    pub fn keys(&self) -> (r: Vec<K>)
        requires
            self.wf(),
        ensures
            r@.len() == self.sseq().len(),
            forall|i: int| 0 <= i < r@.len() ==> r@[i] == (#[trigger] self.sseq()[i]).0,
            r@.no_duplicates(),
            forall|k: K| r@.contains(k) <==> self@.dom().contains(k),
    {
        let n = self.entries.len();
        let mut r: Vec<K> = Vec::new();
        let mut i: usize = 0;
        while i < n
            invariant
                self.wf(),
                n == self.sseq().len(),
                i <= n,
                r@.len() == i,
                forall|j: int| 0 <= j < i ==> r@[j] == (#[trigger] self.sseq()[j]).0,
            decreases n - i,
        {
            r.push(self.entries[i].0);
            i += 1;
        }
        proof {
            assert(r@.no_duplicates()) by {
                assert forall|p: int, q: int|
                    0 <= p < r@.len() && 0 <= q < r@.len() && p != q implies r@[p] != r@[q] by {
                    if p < q {
                        assert((self.sseq()[p]).0.le((self.sseq()[q]).0) && self.sseq()[p].0
                            != self.sseq()[q].0);
                    } else {
                        assert((self.sseq()[q]).0.le((self.sseq()[p]).0) && self.sseq()[q].0
                            != self.sseq()[p].0);
                    }
                }
            }
            assert forall|k: K| r@.contains(k) implies self@.dom().contains(k) by {
                let w = choose|w: int| 0 <= w < r@.len() && r@[w] == k;
                assert(self.sseq()[w].0 == k);
            }
            assert forall|k: K| self@.dom().contains(k) implies r@.contains(k) by {
                self.lemma_index_of(k);
                let w = self.spec_index_of(k);
                assert(r@[w] == k);
            }
        }
        r
    }
}

/// A set of totally ordered keys, backed by a sorted vector.
#[derive(Clone, Debug, PartialEq, Eq)]
pub struct VecSet<K> {
    map: VecMap<K, ()>,
}

impl<K: TotalOrder + Copy> VecSet<K> {
    /// Elements are strictly sorted.
    pub closed spec fn wf(self) -> bool {
        self.map.wf()
    }

    /// The contents as a mathematical set.
    pub closed spec fn as_set(self) -> Set<K> {
        self.map.as_map().dom()
    }

    /// Create an empty set.
    pub fn new() -> (r: Self)
        ensures
            r.wf(),
            r@ == Set::<K>::empty(),
    {
        let r = VecSet { map: VecMap::new() };
        proof {
            assert(r.as_set() =~= Set::<K>::empty());
        }
        r
    }

    /// Whether `key` is an element.
    pub fn contains(&self, key: &K) -> (r: bool)
        requires
            self.wf(),
        ensures
            r == self@.contains(*key),
    {
        self.map.contains_key(key)
    }

    /// Add `key` to the set.
    pub fn insert(&mut self, key: K)
        requires
            old(self).wf(),
        ensures
            final(self).wf(),
            final(self)@ == old(self)@.insert(key),
    {
        self.map.insert(key, ());
        proof {
            assert(self@ =~= old(self)@.insert(key));
        }
    }

    /// Remove `key` from the set.
    pub fn remove(&mut self, key: &K)
        requires
            old(self).wf(),
        ensures
            final(self).wf(),
            final(self)@ == old(self)@.remove(*key),
    {
        self.map.remove(key);
        proof {
            assert(self@ =~= old(self)@.remove(*key));
        }
    }

    /// All elements, in ascending order.
    pub fn elems(&self) -> (r: Vec<K>)
        requires
            self.wf(),
        ensures
            r@.no_duplicates(),
            forall|k: K| r@.contains(k) <==> self@.contains(k),
    {
        self.map.keys()
    }
}

impl<K: TotalOrder + Copy, V> View for VecMap<K, V> {
    type V = Map<K, V>;

    open spec fn view(&self) -> Map<K, V> {
        self.as_map()
    }
}

impl<K: TotalOrder + Copy> View for VecSet<K> {
    type V = Set<K>;

    open spec fn view(&self) -> Set<K> {
        self.as_set()
    }
}

} // verus!
