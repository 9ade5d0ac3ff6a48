//! A collection that holds at most one value.

use crate::codec::{BinaryKey, BinaryValue};
use crate::view::View;
use core::marker::PhantomData;
use vstd::prelude::*;

verus! {

/// The key of an entry's single value: the empty key.
pub open spec fn entry_key() -> Seq<u8> {
    Seq::empty()
}

/// A collection that may hold one value of type `V`.
pub struct Entry<'a, V> {
    base: View<'a>,
    _v: PhantomData<V>,
}

impl<'a, V: BinaryValue> Entry<'a, V> {
    pub closed spec fn view_of(&self) -> View<'a> {
        self.base
    }

    pub open spec fn wf(&self) -> bool {
        &&& self.view_of().wf()
        &&& self.view_of().decodes_at::<V>(entry_key())
    }

    /// The stored value, decoded.
    pub open spec fn value(&self) -> Option<V> {
        self.view_of().typed_get::<V>(entry_key())
    }

    pub open spec fn writable(&self) -> bool {
        self.view_of().writable()
    }

    /// The entry kept in `view`.
    pub fn new(view: View<'a>) -> (r: Self)
        ensures
            r.view_of() == view,
    {
        Entry { base: view, _v: PhantomData }
    }

    /// The view, to give back to the transaction.
    pub fn into_view(self) -> (r: View<'a>)
        ensures
            r == self.view_of(),
    {
        self.base
    }

    pub fn get(&self) -> (r: Option<V>)
        requires
            self.wf(),
        ensures
            r == self.value(),
    {
        proof {
            assert(().key_spec() =~= entry_key());
        }
        self.base.get(&())
    }

    pub fn has_value(&self) -> (r: bool)
        requires
            self.wf(),
        ensures
            r == self.value() is Some,
            r == self.view_of().model().contains_key(entry_key()),
    {
        proof {
            assert(().key_spec() =~= entry_key());
        }
        self.base.contains(&())
    }

    pub fn set(&mut self, value: V)
        requires
            old(self).wf(),
            old(self).writable(),
        ensures
            final(self).wf(),
            final(self).writable(),
            final(self).value() == Some(value),
            final(self).view_of().model() == old(self).view_of().model().insert(entry_key(), value.encode_spec()),
            final(self).view_of().address_prefix() == old(self).view_of().address_prefix(),
            final(self).view_of().base_snapshot() == old(self).view_of().base_snapshot(),
    {
        proof {
            assert(().key_spec() =~= entry_key());
            value.lemma_round_trip();
        }
        self.base.put(&(), value);
    }

    pub fn remove(&mut self)
        requires
            old(self).wf(),
            old(self).writable(),
        ensures
            final(self).wf(),
            final(self).writable(),
            final(self).value() is None,
            final(self).view_of().model() == old(self).view_of().model().remove(entry_key()),
            final(self).view_of().address_prefix() == old(self).view_of().address_prefix(),
            final(self).view_of().base_snapshot() == old(self).view_of().base_snapshot(),
    {
        proof {
            assert(().key_spec() =~= entry_key());
        }
        self.base.remove(&());
    }

    /// Takes the value out, leaving the entry empty.
    pub fn take(&mut self) -> (r: Option<V>)
        requires
            old(self).wf(),
            old(self).writable(),
        ensures
            final(self).wf(),
            final(self).writable(),
            r == old(self).value(),
            final(self).value() is None,
            final(self).view_of().model() == old(self).view_of().model().remove(entry_key()),
            final(self).view_of().address_prefix() == old(self).view_of().address_prefix(),
            final(self).view_of().base_snapshot() == old(self).view_of().base_snapshot(),
    {
        let value = self.get();
        if value.is_some() {
            self.remove();
        } else {
            assert(self.view_of().model().remove(entry_key()) =~= self.view_of().model());
        }
        value
    }

    /// Stores `value` and returns the value it replaces.
    pub fn swap(&mut self, value: V) -> (r: Option<V>)
        requires
            old(self).wf(),
            old(self).writable(),
        ensures
            final(self).wf(),
            final(self).writable(),
            r == old(self).value(),
            final(self).value() == Some(value),
            final(self).view_of().model() == old(self).view_of().model().insert(entry_key(), value.encode_spec()),
            final(self).view_of().address_prefix() == old(self).view_of().address_prefix(),
            final(self).view_of().base_snapshot() == old(self).view_of().base_snapshot(),
    {
        let previous = self.get();
        self.set(value);
        previous
    }
}

} // verus!
