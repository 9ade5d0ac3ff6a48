//! The change overlay: pending puts and deletes of one collection, relative
//! to a snapshot.

use crate::bytes::{copy_bytes, lex_le, lex_lt};
use crate::sorted_map::{SortedMap, keys_sorted, lemma_map_of};
use vstd::prelude::*;

verus! {

/// A pending change to one key.
pub enum Change {
    Put(Vec<u8>),
    Delete,
}

/// What a change leaves under its key: the value put, or nothing.
pub open spec fn change_value(c: Change) -> Option<Seq<u8>> {
    match c {
        Change::Put(v) => Some(v@),
        Change::Delete => None,
    }
}

/// Pending changes of one collection. When `cleared` is set, every key that
/// has no change here counts as deleted.
pub struct ViewChanges {
    data: SortedMap<Change>,
    cleared: bool,
}

impl ViewChanges {
    pub closed spec fn entries(&self) -> Seq<(Seq<u8>, Change)> {
        self.data@
    }

    pub closed spec fn changes(&self) -> Map<Seq<u8>, Change> {
        self.data.model()
    }

    pub closed spec fn spec_cleared(&self) -> bool {
        self.cleared
    }

    pub closed spec fn wf(&self) -> bool {
        self.data.wf()
    }

    /// What the overlay decides for `k`: `Some(value or nothing)`, or `None`
    /// where the snapshot decides.
    pub open spec fn resolve(&self, k: Seq<u8>) -> Option<Option<Seq<u8>>> {
        if self.changes().contains_key(k) {
            Some(change_value(self.changes()[k]))
        } else if self.spec_cleared() {
            Some(None)
        } else {
            None
        }
    }

    pub proof fn lemma_entries(&self)
        requires
            self.wf(),
        ensures
            keys_sorted(self.entries()),
            forall|i: int| 0 <= i < self.entries().len() ==> self.changes().contains_key(#[trigger] self.entries()[i].0)
                && self.changes()[self.entries()[i].0] == self.entries()[i].1,
            forall|k: Seq<u8>| #[trigger] self.changes().contains_key(k) ==> exists|i: int| 0 <= i < self.entries().len() && self.entries()[i].0 == k,
    {
        lemma_map_of(self.data@);
    }

    pub fn new() -> (r: Self)
        ensures
            r.wf(),
            r.changes() == Map::<Seq<u8>, Change>::empty(),
            !r.spec_cleared(),
    {
        ViewChanges { data: SortedMap::new(), cleared: false }
    }

    pub fn is_cleared(&self) -> (r: bool)
        ensures
            r == self.spec_cleared(),
    {
        self.cleared
    }

    /// `Ok(value or nothing)` where the overlay decides for `key`, `Err(())`
    /// where the snapshot does.
    pub fn get(&self, key: &[u8]) -> (r: Result<Option<Vec<u8>>, ()>)
        requires
            self.wf(),
        ensures
            r is Err <==> self.resolve(key@) is None,
            r is Ok ==> r.unwrap() is Some == self.resolve(key@).unwrap() is Some,
            r is Ok && r.unwrap() is Some ==> r.unwrap().unwrap()@ == self.resolve(key@).unwrap().unwrap(),
    {
        match self.data.get(key) {
            Some(Change::Put(v)) => Ok(Some(copy_bytes(v.as_slice()))),
            Some(Change::Delete) => Ok(None),
            None => {
                if self.cleared {
                    Ok(None)
                } else {
                    Err(())
                }
            },
        }
    }

    /// `Ok(present)` where the overlay decides for `key`, `Err(())` where the
    /// snapshot does.
    pub fn contains(&self, key: &[u8]) -> (r: Result<bool, ()>)
        requires
            self.wf(),
        ensures
            r is Err <==> self.resolve(key@) is None,
            r is Ok ==> r.unwrap() == self.resolve(key@).unwrap() is Some,
    {
        match self.data.get(key) {
            Some(Change::Put(_)) => Ok(true),
            Some(Change::Delete) => Ok(false),
            None => {
                if self.cleared {
                    Ok(false)
                } else {
                    Err(())
                }
            },
        }
    }

    /// Whether the overlay holds a change (put or delete) for `key`.
    pub fn has_change(&self, key: &[u8]) -> (r: bool)
        requires
            self.wf(),
        ensures
            r == self.changes().contains_key(key@),
    {
        self.data.contains(key)
    }

    pub fn put(&mut self, key: Vec<u8>, value: Vec<u8>)
        requires
            old(self).wf(),
        ensures
            final(self).wf(),
            final(self).changes() == old(self).changes().insert(key@, Change::Put(value)),
            final(self).spec_cleared() == old(self).spec_cleared(),
    {
        self.data.insert(key, Change::Put(value));
    }

    pub fn remove(&mut self, key: Vec<u8>)
        requires
            old(self).wf(),
        ensures
            final(self).wf(),
            final(self).changes() == old(self).changes().insert(key@, Change::Delete),
            final(self).spec_cleared() == old(self).spec_cleared(),
    {
        self.data.insert(key, Change::Delete);
    }

    /// Drops every pending change and marks the snapshot's data as deleted.
    pub fn clear(&mut self)
        ensures
            final(self).wf(),
            final(self).changes() == Map::<Seq<u8>, Change>::empty(),
            final(self).spec_cleared(),
    {
        self.data.clear();
        self.cleared = true;
    }

    pub fn len(&self) -> (r: usize)
        ensures
            r == self.entries().len(),
    {
        self.data.len()
    }

    /// The change at position `i` in key order.
    pub fn entry(&self, i: usize) -> (r: (&Vec<u8>, &Change))
        requires
            i < self.entries().len(),
        ensures
            r.0@ == self.entries()[i as int].0,
            *r.1 == self.entries()[i as int].1,
    {
        self.data.entry(i)
    }

    /// Position of the first change whose key is at least `from`.
    pub fn lower_bound(&self, from: &[u8]) -> (r: usize)
        requires
            self.wf(),
        ensures
            r <= self.entries().len(),
            forall|j: int| 0 <= j < r ==> lex_lt(#[trigger] self.entries()[j].0, from@),
            forall|j: int| r <= j < self.entries().len() ==> lex_le(from@, #[trigger] self.entries()[j].0),
    {
        let (found, i) = self.data.find(from);
        proof {
            if found {
                assert forall|j: int| i <= j < self.entries().len() implies lex_le(from@, #[trigger] self.entries()[j].0) by {
                    if j > i {
                        assert(lex_lt(self.entries()[i as int].0, self.entries()[j].0));
                    }
                }
            }
        }
        i
    }
}

/// Walks the puts of an overlay in key order, passing over deletes.
pub struct ChangesIter<'a> {
    changes: &'a ViewChanges,
    pos: usize,
}

impl<'a> ChangesIter<'a> {
    pub closed spec fn source(&self) -> &'a ViewChanges {
        self.changes
    }

    pub closed spec fn position(&self) -> int {
        self.pos as int
    }

    pub open spec fn wf(&self) -> bool {
        &&& self.source().wf()
        &&& 0 <= self.position() <= self.source().entries().len()
    }

    /// Starts at the first change whose key is at least `from`.
    pub fn new(changes: &'a ViewChanges, from: &[u8]) -> (r: Self)
        requires
            changes.wf(),
        ensures
            r.wf(),
            r.source() == changes,
            forall|j: int| 0 <= j < r.position() ==> lex_lt(#[trigger] changes.entries()[j].0, from@),
            forall|j: int| r.position() <= j < changes.entries().len() ==> lex_le(from@, #[trigger] changes.entries()[j].0),
    {
        let pos = changes.lower_bound(from);
        ChangesIter { changes, pos }
    }

    /// The next put, skipping the deletes before it.
    pub fn next(&mut self) -> (r: Option<(&'a Vec<u8>, &'a Vec<u8>)>)
        requires
            old(self).wf(),
        ensures
            final(self).wf(),
            final(self).source() == old(self).source(),
            old(self).position() <= final(self).position(),
            forall|j: int| old(self).position() <= j < final(self).position() - (if r is Some { 1int } else { 0 })
                ==> #[trigger] old(self).source().entries()[j].1 is Delete,
            r is None ==> final(self).position() == old(self).source().entries().len(),
            r is Some ==> {
                let e = old(self).source().entries()[final(self).position() - 1];
                &&& final(self).position() > old(self).position()
                &&& e.1 is Put
                &&& r.unwrap().0@ == e.0
                &&& change_value(e.1) == Some(r.unwrap().1@)
            },
    {
        let ghost start = self.pos;
        loop
            invariant
                self.wf(),
                self.source() == old(self).source(),
                start == old(self).position(),
                start <= self.pos,
                forall|j: int| start <= j < self.pos ==> #[trigger] self.source().entries()[j].1 is Delete,
            decreases self.changes.entries().len() - self.pos,
        {
            if self.pos >= self.changes.len() {
                return None;
            }
            let (k, c) = self.changes.entry(self.pos);
            self.pos = self.pos + 1;
            match c {
                Change::Put(v) => {
                    return Some((k, v));
                },
                Change::Delete => {},
            }
        }
    }

    /// The next put without taking it; the deletes before it are taken.
    pub fn peek(&mut self) -> (r: Option<(&'a Vec<u8>, &'a Vec<u8>)>)
        requires
            old(self).wf(),
        ensures
            final(self).wf(),
            final(self).source() == old(self).source(),
            old(self).position() <= final(self).position(),
            forall|j: int| old(self).position() <= j < final(self).position()
                ==> #[trigger] old(self).source().entries()[j].1 is Delete,
            r is None ==> final(self).position() == old(self).source().entries().len(),
            r is Some ==> {
                let e = old(self).source().entries()[final(self).position()];
                &&& final(self).position() < old(self).source().entries().len()
                &&& e.1 is Put
                &&& r.unwrap().0@ == e.0
                &&& change_value(e.1) == Some(r.unwrap().1@)
            },
    {
        let ghost start = self.pos;
        loop
            invariant
                self.wf(),
                self.source() == old(self).source(),
                start == old(self).position(),
                start <= self.pos,
                forall|j: int| start <= j < self.pos ==> #[trigger] self.source().entries()[j].1 is Delete,
            decreases self.changes.entries().len() - self.pos,
        {
            if self.pos >= self.changes.len() {
                return None;
            }
            let (k, c) = self.changes.entry(self.pos);
            match c {
                Change::Put(v) => {
                    return Some((k, v));
                },
                Change::Delete => {},
            }
            self.pos = self.pos + 1;
        }
    }
}

} // verus!
