//! Inspection of a store: the registered collections, and slices of lists.

use crate::address::{IndexAddress, collection_prefix, registry_prefix};
use crate::codec::{BinaryKey, BinaryValue, lemma_u32_be, lemma_u64_be, u32_be, u32_from_be, u32_read_be, u32_to_be, u64_be, u64_from_be, u64_read_be, u64_to_be};
use crate::bytes::{compare, concat};
use crate::db::{AccessError, Fork, IndexType, lemma_restrict_empty, listed, listed_view, registered, registry_record};
use crate::snapshot::Snapshot;
use crate::sorted_map::{entries_view, lemma_map_of, listing, map_of};
use crate::view::{View, merged_model};
use vstd::prelude::*;
use vstd::string::StringSliceAdditionalSpecFns;
use vstd::view::View as ModelView;

verus! {

/// Why an inspection request failed.
#[derive(Clone, Copy, Debug, PartialEq, Eq, Structural)]
pub enum Error {
    /// The collection is registered with another kind.
    WrongType,
    /// No collection of that name is registered.
    IndexNotFound,
}

impl Error {
    /// The message shown to a user.
    pub fn message(&self) -> (r: &'static str)
        ensures
            *self == Error::WrongType ==> r@ == "Wrong type of index for this operations"@,
            *self == Error::IndexNotFound ==> r@ == "Index not found"@,
    {
        match self {
            Error::WrongType => "Wrong type of index for this operations",
            Error::IndexNotFound => "Index not found",
        }
    }
}

/// A pending transaction as the mempool stores it.
#[derive(Clone, Copy, Debug, PartialEq, Eq, Structural)]
pub struct StoredTransaction {
    pub test1: i64,
    pub test2: i32,
}

impl StoredTransaction {
    pub fn new(test1: i64, test2: i32) -> (r: Self)
        ensures
            r == (StoredTransaction { test1, test2 }),
    {
        StoredTransaction { test1, test2 }
    }

    pub fn test1(&self) -> (r: i64)
        ensures
            r == self.test1,
    {
        self.test1
    }

    pub fn test2(&self) -> (r: i32)
        ensures
            r == self.test2,
    {
        self.test2
    }
}

/// Twelve bytes: the first field as eight, the second as four, each most
/// significant first.
impl BinaryValue for StoredTransaction {
    open spec fn encode_spec(&self) -> Seq<u8> {
        u64_be(self.test1 as u64) + u32_be(self.test2 as u32)
    }

    open spec fn decode_spec(bytes: Seq<u8>) -> Option<StoredTransaction> {
        if bytes.len() == 12 {
            Some(StoredTransaction {
                test1: u64_from_be(bytes.subrange(0, 8)) as i64,
                test2: u32_from_be(bytes.subrange(8, 12)) as i32,
            })
        } else {
            None
        }
    }

    fn to_bytes(&self) -> (r: Vec<u8>) {
        let a = u64_to_be(self.test1 as u64);
        let b = u32_to_be(self.test2 as u32);
        concat(a.as_slice(), b.as_slice())
    }

    fn from_bytes(bytes: &[u8]) -> (r: Option<StoredTransaction>) {
        if bytes.len() == 12 {
            let a = u64_read_be(bytes);
            let tail = crate::bytes::strip_prefix(bytes, 8);
            let b = u32_read_be(tail.as_slice());
            proof {
                assert(bytes@.subrange(0, 8)[0] == bytes@[0]);
                assert(u64_from_be(bytes@.subrange(0, 8)) == u64_from_be(bytes@));
                assert(tail@ =~= bytes@.subrange(8, 12));
            }
            Some(StoredTransaction { test1: a as i64, test2: b as i32 })
        } else {
            None
        }
    }

    proof fn lemma_round_trip(&self) {
        let e = self.encode_spec();
        lemma_u64_be(self.test1 as u64);
        lemma_u32_be(self.test2 as u32);
        assert(e.subrange(0, 8) =~= u64_be(self.test1 as u64));
        assert(e.subrange(8, 12) =~= u32_be(self.test2 as u32));
        let x = self.test1;
        let y = self.test2;
        assert((x as u64) as i64 == x) by (bit_vector);
        assert((y as u32) as i32 == y) by (bit_vector);
    }
}

/// The mempool's collections.
pub struct MempoolSchema<'a> {
    pub transactions: View<'a>,
}

impl<'a> MempoolSchema<'a> {
    /// Where the transactions map lives.
    pub open spec fn address() -> Seq<u8> {
        collection_prefix("mempool".spec_bytes(), None)
    }

    /// The name the registry lists it under.
    pub open spec fn listed_name() -> Seq<u8> {
        "mempool".spec_bytes()
    }

    /// Opens the mempool's transactions map in `fork`: its overlay goes with
    /// the schema.
    pub fn new(fork: &mut Fork<'a>) -> (r: Result<Self, AccessError>)
        requires
            old(fork).wf(),
        ensures
            final(fork).wf(),
            ({
                let key = Self::address();
                match registered(old(fork).collection(registry_prefix()), Self::listed_name()) {
                    None => r is Ok && r.unwrap().transactions.model() == old(fork).collection(key),
                    Some(Some(t)) => {
                        &&& t == IndexType::KeyMap ==> r is Ok && r.unwrap().transactions.model() == old(fork).collection(key)
                        &&& t != IndexType::KeyMap ==> r == Err::<Self, AccessError>(AccessError::TypeMismatch { expected: IndexType::KeyMap, actual: t })
                    },
                    Some(None) => r == Err::<Self, AccessError>(AccessError::DecodeFailure),
                }
            }),
            final(fork).base() == old(fork).base(),
            r is Ok ==> {
                &&& r.unwrap().transactions.wf()
                &&& r.unwrap().transactions.writable()
                &&& r.unwrap().transactions.address_prefix() == Some(Self::address())
                &&& r.unwrap().transactions.base_snapshot() == Some(old(fork).base())
            },
            r is Err ==> final(fork).collection(Self::address()) == old(fork).collection(Self::address()),
            final(fork).collection(registry_prefix()) == if registered(old(fork).collection(registry_prefix()), Self::listed_name()) is None {
                old(fork).collection(registry_prefix()).insert(Self::listed_name(), registry_record(IndexType::KeyMap, Self::listed_name()))
            } else {
                old(fork).collection(registry_prefix())
            },
            forall|p: Seq<u8>| p != registry_prefix() && p != Self::address() ==> #[trigger] final(fork).collection(p) == old(fork).collection(p),
    {
        let address = IndexAddress::from_root("mempool");
        assert(address.spec_display_name() == Self::listed_name());
        assert(Self::address()[0] == 1u8 && registry_prefix()[0] == 0u8);
        assert(Self::address() != registry_prefix());
        match fork.resolve(&address, IndexType::KeyMap) {
            Ok(resolved) => {
                let transactions = fork.view(&resolved);
                Ok(MempoolSchema { transactions })
            },
            Err(e) => Err(e),
        }
    }
}

/// The kind listed first under `name`.
pub open spec fn index_kind(s: Seq<(Seq<u8>, IndexType)>, name: Seq<u8>) -> Option<IndexType>
    decreases s.len(),
{
    if s.len() == 0 {
        None
    } else if s[0].0 == name {
        Some(s[0].1)
    } else {
        index_kind(s.drop_first(), name)
    }
}

/// Whether `name` is listed with kind `ty`, and why not.
pub open spec fn check_kind(s: Seq<(Seq<u8>, IndexType)>, name: Seq<u8>, ty: IndexType) -> Result<(), Error> {
    match index_kind(s, name) {
        None => Err(Error::IndexNotFound),
        Some(t) => if t == ty {
            Ok(())
        } else {
            Err(Error::WrongType)
        },
    }
}

/// The values of a run of entries, decoded.
pub open spec fn decode_values<V: BinaryValue>(s: Seq<(Seq<u8>, Seq<u8>)>) -> Seq<V> {
    s.map_values(|e: (Seq<u8>, Seq<u8>)| V::decode_spec(e.1).unwrap())
}

/// Entries `offset` to `offset + limit` of `s`, as far as there are any.
pub open spec fn page<T>(s: Seq<T>, offset: int, limit: int) -> Seq<T> {
    let start = if offset < s.len() { offset } else { s.len() as int };
    let end = if offset + limit < s.len() { offset + limit } else { s.len() as int };
    s.subrange(start, if end < start { start } else { end })
}

/// Inspection of the committed state of a store.
pub struct CLIInterface<'a> {
    indexes: Vec<(Vec<u8>, IndexType)>,
    snapshot: &'a Snapshot,
}

impl<'a> CLIInterface<'a> {
    pub closed spec fn spec_indexes(&self) -> Seq<(Seq<u8>, IndexType)> {
        listed_view(self.indexes@)
    }

    pub closed spec fn base(&self) -> &'a Snapshot {
        self.snapshot
    }

    pub open spec fn wf(&self) -> bool {
        self.base().wf()
    }

    /// The root collection `name`, as key to value bytes.
    pub open spec fn list_model(&self, name: Seq<u8>) -> Map<Seq<u8>, Seq<u8>> {
        merged_model(self.base().model(), collection_prefix(name, None), None)
    }

    /// Lists the registered collections of `snapshot` whose names start
    /// with `sub_prefix`.
    pub fn new(snapshot: &'a Snapshot, sub_prefix: Option<&str>) -> (r: Self)
        requires
            snapshot.wf(),
        ensures
            r.wf(),
            r.base() == snapshot,
            r.spec_indexes() == listed(
                listing(merged_model(snapshot.model(), registry_prefix(), None)),
                match sub_prefix {
                    Some(sp) => Some(sp.spec_bytes()),
                    None => None,
                },
            ),
    {
        let mut fork = Fork::new(snapshot);
        let sp: Option<&[u8]> = match sub_prefix {
            Some(s) => Some(s.as_bytes()),
            None => None,
        };
        let indexes = fork.index_list(sp);
        CLIInterface { indexes, snapshot }
    }

    /// The registered collections, as (listed name, kind).
    pub fn indexes(&self) -> (r: &Vec<(Vec<u8>, IndexType)>)
        ensures
            listed_view(r@) == self.spec_indexes(),
    {
        &self.indexes
    }

    fn verify_index(&self, index_name: &[u8], index_type: IndexType) -> (r: Result<(), Error>)
        ensures
            r == check_kind(self.spec_indexes(), index_name@, index_type),
    {
        let ghost s = self.spec_indexes();
        assert(s.skip(0) =~= s);
        let mut i: usize = 0;
        while i < self.indexes.len()
            invariant
                s == listed_view(self.indexes@),
                i <= s.len(),
                index_kind(s, index_name@) == index_kind(s.skip(i as int), index_name@),
            decreases self.indexes.len() - i,
        {
            let e = &self.indexes[i];
            assert(s[i as int] == (e.0@, e.1));
            assert(s.skip(i as int)[0] == s[i as int]);
            if compare(e.0.as_slice(), index_name) == 0 {
                if e.1 == index_type {
                    return Ok(());
                } else {
                    return Err(Error::WrongType);
                }
            }
            assert(s.skip(i as int).drop_first() =~= s.skip(i + 1));
            i = i + 1;
        }
        assert(s.skip(i as int).len() == 0);
        Err(Error::IndexNotFound)
    }

    /// Values `offset` to `offset + limit` of the list `index_name`, in
    /// order, after checking that it is registered as a list.
    pub fn list<V: BinaryValue>(&self, index_name: &str, limit: usize, offset: usize) -> (r: Result<Vec<V>, Error>)
        requires
            self.wf(),
            check_kind(self.spec_indexes(), index_name.spec_bytes(), IndexType::List) is Ok ==> forall|i: int|
                0 <= i < page(listing(self.list_model(index_name.spec_bytes())), offset as int, limit as int).len()
                    ==> V::decode_spec(
                    #[trigger] page(listing(self.list_model(index_name.spec_bytes())), offset as int, limit as int)[i].1,
                ) is Some,
        ensures
            match check_kind(self.spec_indexes(), index_name.spec_bytes(), IndexType::List) {
                Err(e) => r == Err::<Vec<V>, Error>(e),
                Ok(_) => r is Ok && r.unwrap()@ == decode_values::<V>(
                    page(listing(self.list_model(index_name.spec_bytes())), offset as int, limit as int),
                ),
            },
    {
        let name = index_name.as_bytes();
        match self.verify_index(name, IndexType::List) {
            Err(e) => {
                return Err(e);
            },
            Ok(()) => {},
        }
        let address = IndexAddress::from_root(index_name);
        let view = View::new(self.snapshot, address.resolve(), None, false);
        let empty: Vec<u8> = Vec::new();
        let entries = view.iter_bytes(empty.as_slice());
        let ghost m = self.list_model(index_name.spec_bytes());
        let ghost e = entries_view(entries@);
        proof {
            lemma_restrict_empty(m);
            assert(view.model() =~= m);
            lemma_map_of(e);
        }
        let start: usize = if offset < entries.len() {
            offset
        } else {
            entries.len()
        };
        let end: usize = if limit < entries.len() - start {
            start + limit
        } else {
            entries.len()
        };
        assert(e.subrange(start as int, end as int) =~= page(e, offset as int, limit as int));
        assert(e == listing(m));
        assert forall|j: int| start <= j < end implies V::decode_spec(#[trigger] e[j].1) is Some by {
            assert(page(e, offset as int, limit as int)[j - start] == e[j]);
        }
        let mut out: Vec<V> = Vec::new();
        let mut i: usize = start;
        while i < end
            invariant
                e == entries_view(entries@),
                forall|j: int| start <= j < end ==> V::decode_spec(#[trigger] e[j].1) is Some,
                start <= i <= end <= entries@.len(),
                out@ == decode_values::<V>(e.subrange(start as int, i as int)),
            decreases end - i,
        {
            let v = &entries[i].1;
            assert(e[i as int].1 == v@);
            match V::from_bytes(v.as_slice()) {
                Some(x) => {
                    out.push(x);
                },
                None => {},
            }
            assert(decode_values::<V>(e.subrange(start as int, i + 1)) =~= decode_values::<V>(e.subrange(start as int, i as int)).push(
                V::decode_spec(e[i as int].1).unwrap(),
            ));
            i = i + 1;
        }
        Ok(out)
    }

    /// The value at position `index` of the list `index_name`, after
    /// checking that it is registered as a list.
    pub fn get_from_list_by_index<V: BinaryValue>(&self, index_name: &str, index: u64) -> (r: Result<Option<V>, Error>)
        requires
            self.wf(),
            check_kind(self.spec_indexes(), index_name.spec_bytes(), IndexType::List) is Ok
                && self.list_model(index_name.spec_bytes()).contains_key(index.key_spec())
                ==> V::decode_spec(self.list_model(index_name.spec_bytes())[index.key_spec()]) is Some,
        ensures
            match check_kind(self.spec_indexes(), index_name.spec_bytes(), IndexType::List) {
                Err(e) => r == Err::<Option<V>, Error>(e),
                Ok(_) => r == Ok::<Option<V>, Error>(
                    if self.list_model(index_name.spec_bytes()).contains_key(index.key_spec()) {
                        V::decode_spec(self.list_model(index_name.spec_bytes())[index.key_spec()])
                    } else {
                        None
                    },
                ),
            },
    {
        match self.verify_index(index_name.as_bytes(), IndexType::List) {
            Err(e) => {
                return Err(e);
            },
            Ok(()) => {},
        }
        let address = IndexAddress::from_root(index_name);
        let view = View::new(self.snapshot, address.resolve(), None, false);
        Ok(view.get(&index))
    }
}

} // verus!
