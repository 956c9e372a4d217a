//! A mapping where each entry independently resolves by last-writer-wins:
//! every value is tagged with the logical clock of its last write, the
//! higher clock wins on merge, and clock ties fall back to the value's own
//! merge. The union of keys only grows.

use vstd::prelude::*;
use crate::keys::TotalOrder;
use crate::vecmap::VecMap;

verus! {

/// A last-writer-wins map: values tagged with write clocks.
#[derive(Clone, Debug, PartialEq, Eq)]
pub struct LWWMap<K, V> {
    entries: VecMap<K, (V, u64)>,
}

impl<K: TotalOrder + Copy, V> LWWMap<K, V> {
    /// The entries are kept sorted by key.
    pub closed spec fn wf(self) -> bool {
        self.entries.wf()
    }

    /// The contents as a mathematical map from key to (value, clock).
    pub closed spec fn as_map(self) -> Map<K, (V, u64)> {
        self.entries@
    }

    /// The entry sequence, in ascending key order.
    pub closed spec fn sseq(self) -> Seq<(K, (V, u64))> {
        self.entries.sseq()
    }

    /// Entries are sorted strictly ascending by key.
    pub proof fn lemma_sorted(self)
        requires
            self.wf(),
        ensures
            forall|i: int, j: int|
                0 <= i < j < self.sseq().len() ==> (#[trigger] self.sseq()[i]).0.le(
                    (#[trigger] self.sseq()[j]).0,
                ) && self.sseq()[i].0 != self.sseq()[j].0,
            forall|i: int|
                0 <= i < self.sseq().len() ==> self.as_map().dom().contains(
                    (#[trigger] self.sseq()[i]).0,
                ) && self.as_map()[self.sseq()[i].0] == self.sseq()[i].1,
            self.sseq().len() == self.as_map().dom().len(),
            self.as_map().dom().finite(),
            forall|k: K|
                self.as_map().dom().contains(k) ==> exists|i: int|
                    0 <= i < self.sseq().len() && (#[trigger] self.sseq()[i]).0 == k,
    {
        assert forall|i: int|
            0 <= i < self.sseq().len() implies self.as_map().dom().contains(
            (#[trigger] self.sseq()[i]).0,
        ) && self.as_map()[self.sseq()[i].0] == self.sseq()[i].1 by {
            self.entries.lemma_entry(i);
        }
        self.entries.lemma_dom_len();
        assert forall|k: K| self.as_map().dom().contains(k) implies exists|i: int|
            0 <= i < self.sseq().len() && (#[trigger] self.sseq()[i]).0 == k by {
            self.entries.lemma_index_of(k);
            let w = self.entries.spec_index_of(k);
            assert(self.sseq()[w].0 == k);
        }
    }

    /// Create an empty map.
    pub fn new() -> (r: Self)
        ensures
            r.wf(),
            r.as_map() == Map::<K, (V, u64)>::empty(),
            r.sseq().len() == 0,
    {
        LWWMap { entries: VecMap::new() }
    }

    /// The number of entries.
    pub fn len(&self) -> (n: usize)
        ensures
            n == self.sseq().len(),
    {
        self.entries.len()
    }

    /// Look up the value and write clock stored under `key`.
    pub fn get(&self, key: &K) -> (r: Option<&(V, u64)>)
        requires
            self.wf(),
        ensures
            match r {
                Some(v) => self.as_map().dom().contains(*key) && *v == self.as_map()[*key],
                None => !self.as_map().dom().contains(*key),
            },
    {
        self.entries.get(key)
    }

    /// The entry at index `i`, in ascending key order.
    pub fn get_index(&self, i: usize) -> (r: &(K, (V, u64)))
        requires
            self.wf(),
            i < self.sseq().len(),
        ensures
            *r == self.sseq()[i as int],
            self.as_map().dom().contains(r.0),
            self.as_map()[r.0] == r.1,
    {
        self.entries.get_index(i)
    }

    /// Store an entry, replacing and returning what was there.
    /// Instantiations expose last-writer-wins inserts built from this and
    /// `take`.
    pub(crate) fn put(&mut self, key: K, value: (V, u64)) -> (r: Option<(V, u64)>)
        requires
            old(self).wf(),
        ensures
            final(self).wf(),
            final(self).as_map() == old(self).as_map().insert(key, value),
            match r {
                Some(v) => old(self).as_map().dom().contains(key) && v == old(self).as_map()[key],
                None => !old(self).as_map().dom().contains(key),
            },
    {
        self.entries.insert(key, value)
    }

    /// Move the entry stored under `key` out of the map.
    pub(crate) fn take(&mut self, key: &K) -> (r: Option<(V, u64)>)
        requires
            old(self).wf(),
        ensures
            final(self).wf(),
            final(self).as_map() == old(self).as_map().remove(*key),
            match r {
                Some(v) => old(self).as_map().dom().contains(*key) && v == old(self).as_map()[*key],
                None => !old(self).as_map().dom().contains(*key) && *final(self) == *old(self),
            },
    {
        self.entries.remove(key)
    }
}

} // verus!
