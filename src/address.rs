//! Where a collection's entries live in the flat key space.
//!
//! Every namespace is a byte prefix whose first byte says what it holds: the
//! index registry, a collection, or a cursor scratchpad. Lengths are written
//! before names and group keys, so no prefix of one namespace begins another.

use crate::bytes::{concat, copy_bytes, has_prefix};
use crate::codec::{BinaryKey, u64_be, lemma_u64_be, u64_to_be};
use vstd::prelude::*;
use vstd::string::StringSliceAdditionalSpecFns;

verus! {

pub const REGISTRY_TAG: u8 = 0;

pub const COLLECTION_TAG: u8 = 1;

pub const SCRATCHPAD_TAG: u8 = 2;

/// A length, as eight bytes.
pub open spec fn len_bytes(n: nat) -> Seq<u8> {
    u64_be(n as u64)
}

/// A byte string preceded by its length.
pub open spec fn framed(s: Seq<u8>) -> Seq<u8> {
    len_bytes(s.len()) + s
}

/// The prefix of the collection `name`, in the group `group` if it has one.
pub open spec fn collection_prefix(name: Seq<u8>, group: Option<Seq<u8>>) -> Seq<u8> {
    seq![COLLECTION_TAG] + framed(name) + match group {
        None => seq![0u8],
        Some(g) => seq![1u8] + framed(g),
    }
}

/// The prefix of the cursor scratchpad of session `name`.
pub open spec fn scratchpad_prefix(name: Seq<u8>) -> Seq<u8> {
    seq![SCRATCHPAD_TAG] + framed(name)
}

pub open spec fn registry_prefix() -> Seq<u8> {
    seq![REGISTRY_TAG]
}

/// Of two byte strings, one begins the other.
pub open spec fn overlapping(a: Seq<u8>, b: Seq<u8>) -> bool {
    has_prefix(a, b) || has_prefix(b, a)
}

proof fn lemma_overlap_at(a: Seq<u8>, b: Seq<u8>, i: int)
    requires
        overlapping(a, b),
        0 <= i < a.len(),
        i < b.len(),
    ensures
        a[i] == b[i],
{
    if has_prefix(a, b) {
        assert(a.subrange(0, b.len() as int)[i] == a[i]);
    } else {
        assert(b.subrange(0, a.len() as int)[i] == b[i]);
    }
}

/// Framed strings that overlap are equal, and so is what follows them.
proof fn lemma_framed(s: Seq<u8>, t: Seq<u8>, x: Seq<u8>, y: Seq<u8>)
    requires
        s.len() <= u64::MAX,
        t.len() <= u64::MAX,
        overlapping(framed(s) + x, framed(t) + y),
    ensures
        s == t,
        overlapping(x, y),
{
    let a = framed(s) + x;
    let b = framed(t) + y;
    lemma_u64_be(s.len() as u64);
    lemma_u64_be(t.len() as u64);
    assert forall|i: int| 0 <= i < 8 implies len_bytes(s.len())[i] == len_bytes(t.len())[i] by {
        lemma_overlap_at(a, b, i);
        assert(a[i] == len_bytes(s.len())[i]);
        assert(b[i] == len_bytes(t.len())[i]);
    }
    assert(len_bytes(s.len()) =~= len_bytes(t.len()));
    assert(s.len() as u64 == t.len() as u64);
    assert forall|i: int| 0 <= i < s.len() implies s[i] == t[i] by {
        lemma_overlap_at(a, b, i + 8);
        assert(a[i + 8] == s[i]);
        assert(b[i + 8] == t[i]);
    }
    assert(s =~= t);
    let n = framed(s).len();
    if has_prefix(a, b) {
        assert(x.subrange(0, y.len() as int) =~= a.subrange(0, b.len() as int).subrange(n as int, b.len() as int));
        assert(y =~= b.subrange(n as int, b.len() as int));
    } else {
        assert(y.subrange(0, x.len() as int) =~= b.subrange(0, a.len() as int).subrange(n as int, a.len() as int));
        assert(x =~= a.subrange(n as int, a.len() as int));
    }
}

/// Two collections' prefixes overlap only where they are the same collection.
pub proof fn lemma_collection_prefix_free(n1: Seq<u8>, g1: Option<Seq<u8>>, n2: Seq<u8>, g2: Option<Seq<u8>>)
    requires
        n1.len() <= u64::MAX,
        n2.len() <= u64::MAX,
        g1 is Some ==> g1.unwrap().len() <= u64::MAX,
        g2 is Some ==> g2.unwrap().len() <= u64::MAX,
        overlapping(collection_prefix(n1, g1), collection_prefix(n2, g2)),
    ensures
        n1 == n2,
        g1 == g2,
{
    let t1 = match g1 {
        None => seq![0u8],
        Some(g) => seq![1u8] + framed(g),
    };
    let t2 = match g2 {
        None => seq![0u8],
        Some(g) => seq![1u8] + framed(g),
    };
    let a = collection_prefix(n1, g1);
    let b = collection_prefix(n2, g2);
    assert(a =~= seq![COLLECTION_TAG] + (framed(n1) + t1));
    assert(b =~= seq![COLLECTION_TAG] + (framed(n2) + t2));
    assert(overlapping(framed(n1) + t1, framed(n2) + t2)) by {
        if has_prefix(a, b) {
            assert((framed(n1) + t1).subrange(0, (framed(n2) + t2).len() as int) =~= a.subrange(0, b.len() as int).subrange(1, b.len() as int));
            assert(framed(n2) + t2 =~= b.subrange(1, b.len() as int));
        } else {
            assert((framed(n2) + t2).subrange(0, (framed(n1) + t1).len() as int) =~= b.subrange(0, a.len() as int).subrange(1, a.len() as int));
            assert(framed(n1) + t1 =~= a.subrange(1, a.len() as int));
        }
    }
    lemma_framed(n1, n2, t1, t2);
    lemma_overlap_at(t1, t2, 0);
    match (g1, g2) {
        (Some(x), Some(y)) => {
            assert(t1 =~= seq![1u8] + (framed(x) + Seq::<u8>::empty()));
            assert(t2 =~= seq![1u8] + (framed(y) + Seq::<u8>::empty()));
            assert(overlapping(framed(x) + Seq::<u8>::empty(), framed(y) + Seq::<u8>::empty())) by {
                let u = framed(x) + Seq::<u8>::empty();
                let v = framed(y) + Seq::<u8>::empty();
                if has_prefix(t1, t2) {
                    assert(u.subrange(0, v.len() as int) =~= t1.subrange(0, t2.len() as int).subrange(1, t2.len() as int));
                    assert(v =~= t2.subrange(1, t2.len() as int));
                } else {
                    assert(v.subrange(0, u.len() as int) =~= t2.subrange(0, t1.len() as int).subrange(1, t1.len() as int));
                    assert(u =~= t1.subrange(1, t1.len() as int));
                }
            }
            lemma_framed(x, y, Seq::<u8>::empty(), Seq::<u8>::empty());
        },
        _ => {},
    }
}

/// A collection's logical address: its name and, for a member of a group of
/// collections, the group key's bytes.
pub struct IndexAddress {
    name: Vec<u8>,
    group: Option<Vec<u8>>,
}

impl IndexAddress {
    pub closed spec fn spec_name(&self) -> Seq<u8> {
        self.name@
    }

    pub closed spec fn spec_group(&self) -> Option<Seq<u8>> {
        match self.group {
            Some(g) => Some(g@),
            None => None,
        }
    }

    /// Where the collection's entries live.
    pub open spec fn spec_prefix(&self) -> Seq<u8> {
        collection_prefix(self.spec_name(), self.spec_group())
    }

    /// The name the registry lists it under: the name, then, for a member
    /// of a group, a zero byte and the group key.
    pub open spec fn spec_display_name(&self) -> Seq<u8> {
        match self.spec_group() {
            None => self.spec_name(),
            Some(g) => self.spec_name().push(0) + g,
        }
    }

    /// A name and a group key held in memory fit the eight-byte lengths
    /// written before them.
    pub proof fn lemma_lengths(&self)
        ensures
            self.spec_name().len() <= u64::MAX,
            self.spec_group() is Some ==> self.spec_group().unwrap().len() <= u64::MAX,
    {
        assert(self.name.len() == self.name@.len());
        match &self.group {
            Some(g) => {
                assert(g.len() == g@.len());
            },
            None => {},
        }
    }

    /// The collection `name`, outside any group.
    pub fn from_root(name: &str) -> (r: Self)
        ensures
            r.spec_name() == name.spec_bytes(),
            r.spec_group() is None,
    {
        IndexAddress { name: copy_bytes(name.as_bytes()), group: None }
    }

    /// The member of the group `self` whose group key is `key`; a key given
    /// to a member already in a group extends its group key.
    pub fn append_key<K: BinaryKey>(self, key: &K) -> (r: Self)
        ensures
            r.spec_name() == self.spec_name(),
            r.spec_group() == Some(match self.spec_group() {
                None => key.key_spec(),
                Some(g) => g + key.key_spec(),
            }),
    {
        let k = key.key_bytes();
        let group = match &self.group {
            None => k,
            Some(g) => concat(g.as_slice(), k.as_slice()),
        };
        IndexAddress { name: self.name, group: Some(group) }
    }

    pub fn name(&self) -> (r: &[u8])
        ensures
            r@ == self.spec_name(),
    {
        self.name.as_slice()
    }

    pub fn resolve(&self) -> (r: ResolvedAddress)
        ensures
            r@ == self.spec_prefix(),
    {
        let mut p: Vec<u8> = vec![COLLECTION_TAG];
        let framed_name = frame(self.name.as_slice());
        p = concat(p.as_slice(), framed_name.as_slice());
        match &self.group {
            None => {
                p.push(0u8);
            },
            Some(g) => {
                p.push(1u8);
                let fg = frame(g.as_slice());
                p = concat(p.as_slice(), fg.as_slice());
            },
        }
        proof {
            assert(seq![COLLECTION_TAG] + framed(self.spec_name()) + seq![0u8] =~= (seq![COLLECTION_TAG] + framed(self.spec_name())).push(0u8));
            match self.spec_group() {
                Some(g) => {
                    assert(seq![COLLECTION_TAG] + framed(self.spec_name()) + (seq![1u8] + framed(g))
                        =~= (seq![COLLECTION_TAG] + framed(self.spec_name())).push(1u8) + framed(g));
                },
                None => {},
            }
        }
        ResolvedAddress { prefix: p }
    }

    pub fn display_name(&self) -> (r: Vec<u8>)
        ensures
            r@ == self.spec_display_name(),
    {
        match &self.group {
            None => copy_bytes(self.name.as_slice()),
            Some(g) => {
                let mut n = copy_bytes(self.name.as_slice());
                n.push(0u8);
                concat(n.as_slice(), g.as_slice())
            },
        }
    }
}

/// `s` preceded by its length.
pub fn frame(s: &[u8]) -> (r: Vec<u8>)
    ensures
        r@ == framed(s@),
{
    let n = u64_to_be(s.len() as u64);
    concat(n.as_slice(), s)
}

/// The byte prefix under which one namespace's entries are stored.
pub struct ResolvedAddress {
    prefix: Vec<u8>,
}

impl View for ResolvedAddress {
    type V = Seq<u8>;

    closed spec fn view(&self) -> Seq<u8> {
        self.prefix@
    }
}

impl ResolvedAddress {
    /// The namespace at the raw prefix `prefix`.
    pub(crate) fn from_prefix(prefix: Vec<u8>) -> (r: Self)
        ensures
            r@ == prefix@,
    {
        ResolvedAddress { prefix }
    }

    /// The registry's namespace.
    pub fn registry() -> (r: Self)
        ensures
            r@ == registry_prefix(),
    {
        let p: Vec<u8> = vec![REGISTRY_TAG];
        assert(p@ =~= registry_prefix());
        ResolvedAddress { prefix: p }
    }

    /// The namespace of the cursors of session `name`.
    pub fn scratchpad(name: &str) -> (r: Self)
        ensures
            r@ == scratchpad_prefix(name.spec_bytes()),
    {
        let framed_name = frame(name.as_bytes());
        let tag: Vec<u8> = vec![SCRATCHPAD_TAG];
        let p = concat(tag.as_slice(), framed_name.as_slice());
        assert(tag@ =~= seq![SCRATCHPAD_TAG]);
        ResolvedAddress { prefix: p }
    }

    pub fn prefix(&self) -> (r: &[u8])
        ensures
            r@ == self@,
    {
        self.prefix.as_slice()
    }

    pub fn duplicate(&self) -> (r: Self)
        ensures
            r@ == self@,
    {
        ResolvedAddress { prefix: copy_bytes(self.prefix.as_slice()) }
    }
}

} // verus!
