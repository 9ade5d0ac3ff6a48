//! An immutable, point-in-time state of the byte store: one flat ordered map
//! from full byte keys to values, which collections share by key prefix.

use crate::bytes::copy_bytes;
use crate::sorted_map::{SortedMap, keys_sorted, lemma_map_of};
use vstd::prelude::*;

verus! {

pub struct Snapshot {
    data: SortedMap<Vec<u8>>,
}

impl Snapshot {
    pub closed spec fn entries(&self) -> Seq<(Seq<u8>, Vec<u8>)> {
        self.data@
    }

    pub closed spec fn raw(&self) -> Map<Seq<u8>, Vec<u8>> {
        self.data.model()
    }

    /// Full key to value.
    pub open spec fn model(&self) -> Map<Seq<u8>, Seq<u8>> {
        self.raw().map_values(|v: Vec<u8>| v@)
    }

    pub closed spec fn wf(&self) -> bool {
        self.data.wf()
    }

    pub proof fn lemma_entries(&self)
        requires
            self.wf(),
        ensures
            keys_sorted(self.entries()),
            forall|i: int| 0 <= i < self.entries().len() ==> self.model().contains_key(#[trigger] self.entries()[i].0)
                && self.model()[self.entries()[i].0] == self.entries()[i].1@,
            forall|k: Seq<u8>| #[trigger] self.model().contains_key(k) ==> exists|i: int| 0 <= i < self.entries().len() && self.entries()[i].0 == k,
    {
        lemma_map_of(self.data@);
    }

    /// The empty store.
    pub fn new() -> (r: Self)
        ensures
            r.wf(),
            r.model() == Map::<Seq<u8>, Seq<u8>>::empty(),
    {
        let r = Snapshot { data: SortedMap::new() };
        assert(r.model() =~= Map::<Seq<u8>, Seq<u8>>::empty());
        r
    }

    pub fn get(&self, key: &[u8]) -> (r: Option<Vec<u8>>)
        requires
            self.wf(),
        ensures
            r is Some <==> self.model().contains_key(key@),
            r is Some ==> r.unwrap()@ == self.model()[key@],
    {
        match self.data.get(key) {
            Some(v) => Some(copy_bytes(v.as_slice())),
            None => None,
        }
    }

    pub fn contains(&self, key: &[u8]) -> (r: bool)
        requires
            self.wf(),
        ensures
            r == self.model().contains_key(key@),
    {
        self.data.contains(key)
    }

    /// Point lookups, one result per key, in the order of `keys`.
    pub fn multi_get(&self, keys: &Vec<Vec<u8>>) -> (r: Vec<Option<Vec<u8>>>)
        requires
            self.wf(),
        ensures
            r@.len() == keys@.len(),
            forall|i: int| 0 <= i < keys@.len() ==> (#[trigger] r@[i] is Some <==> self.model().contains_key(keys@[i]@)),
            forall|i: int| 0 <= i < keys@.len() && #[trigger] r@[i] is Some ==> r@[i].unwrap()@ == self.model()[keys@[i]@],
    {
        let mut r: Vec<Option<Vec<u8>>> = Vec::new();
        let mut i: usize = 0;
        while i < keys.len()
            invariant
                self.wf(),
                i <= keys@.len(),
                r@.len() == i,
                forall|j: int| 0 <= j < i ==> (#[trigger] r@[j] is Some <==> self.model().contains_key(keys@[j]@)),
                forall|j: int| 0 <= j < i && #[trigger] r@[j] is Some ==> r@[j].unwrap()@ == self.model()[keys@[j]@],
            decreases keys.len() - i,
        {
            r.push(self.get(keys[i].as_slice()));
            i = i + 1;
        }
        r
    }

    pub fn len(&self) -> (r: usize)
        ensures
            r == self.entries().len(),
    {
        self.data.len()
    }

    /// The entry at position `i` in key order.
    pub fn entry(&self, i: usize) -> (r: (&Vec<u8>, &Vec<u8>))
        requires
            i < self.entries().len(),
        ensures
            r.0@ == self.entries()[i as int].0,
            r.1@ == self.entries()[i as int].1@,
    {
        self.data.entry(i)
    }

    /// Sets `key` to `value`.
    pub fn put(&mut self, key: Vec<u8>, value: Vec<u8>)
        requires
            old(self).wf(),
        ensures
            final(self).wf(),
            final(self).model() == old(self).model().insert(key@, value@),
    {
        let ghost k = key@;
        let ghost v = value;
        self.data.insert(key, value);
        assert(self.model() =~= old(self).model().insert(k, v@));
    }

    /// Deletes `key`.
    pub fn delete(&mut self, key: &[u8])
        requires
            old(self).wf(),
        ensures
            final(self).wf(),
            final(self).model() == old(self).model().remove(key@),
    {
        self.data.remove(key);
        assert(self.model() =~= old(self).model().remove(key@));
    }
}

} // verus!
