//! Transactions over the store: a fork lends each collection's overlay to a
//! view and takes it back; a database applies a fork's overlays on commit.

use crate::address::{IndexAddress, ResolvedAddress, registry_prefix};
use crate::bytes::{concat, copy_bytes, has_prefix, starts_with};
use crate::changes::ViewChanges;
use crate::snapshot::Snapshot;
use crate::sorted_map::{SortedMap, entries_view, map_of, lemma_map_of, listing};
use crate::view::{View, merged_model};
use vstd::prelude::*;
use vstd::view::View as ModelView;

verus! {

/// A map with the region under prefix `p` replaced by the collection `c`.
pub open spec fn with_collection(m: Map<Seq<u8>, Seq<u8>>, p: Seq<u8>, c: Map<Seq<u8>, Seq<u8>>) -> Map<Seq<u8>, Seq<u8>> {
    Map::new(
        |fk: Seq<u8>| if has_prefix(fk, p) { c.contains_key(fk.subrange(p.len() as int, fk.len() as int)) } else { m.contains_key(fk) },
        |fk: Seq<u8>| if has_prefix(fk, p) { c[fk.subrange(p.len() as int, fk.len() as int)] } else { m[fk] },
    )
}

/// The snapshot that results from applying the overlay `ch` of the
/// collection at prefix `p`.
pub open spec fn applied(m: Map<Seq<u8>, Seq<u8>>, p: Seq<u8>, ch: ViewChanges) -> Map<Seq<u8>, Seq<u8>> {
    with_collection(m, p, merged_model(m, p, Some(ch)))
}

/// A snapshot with overlays applied one after another, from the last.
pub open spec fn applied_all(m: Map<Seq<u8>, Seq<u8>>, overlays: Seq<(Seq<u8>, ViewChanges)>) -> Map<Seq<u8>, Seq<u8>>
    decreases overlays.len(),
{
    if overlays.len() == 0 {
        m
    } else {
        let last = overlays.last();
        applied_all(applied(m, last.0, last.1), overlays.drop_last())
    }
}

proof fn lemma_strip(p: Seq<u8>, k: Seq<u8>)
    ensures
        has_prefix(p + k, p),
        (p + k).subrange(p.len() as int, (p + k).len() as int) == k,
{
    assert((p + k).subrange(0, p.len() as int) =~= p);
    assert((p + k).subrange(p.len() as int, (p + k).len() as int) =~= k);
}

proof fn lemma_unstrip(p: Seq<u8>, fk: Seq<u8>)
    requires
        has_prefix(fk, p),
    ensures
        fk == p + fk.subrange(p.len() as int, fk.len() as int),
{
    assert(fk =~= p + fk.subrange(p.len() as int, fk.len() as int));
}

/// The snapshot `base` with the overlay `ch` of the collection at `address`
/// applied.
pub fn apply_changes(base: &Snapshot, address: &ResolvedAddress, ch: ViewChanges) -> (r: Snapshot)
    requires
        base.wf(),
        ch.wf(),
    ensures
        r.wf(),
        r.model() == applied(base.model(), address@, ch),
{
    let p = address.prefix();
    let ghost m0 = base.model();
    let ghost pv = address@;
    let mut out = Snapshot::new();
    let mut i: usize = 0;
    proof {
        base.lemma_entries();
    }
    while i < base.len()
        invariant
            base.wf(),
            out.wf(),
            p@ == pv,
            m0 == base.model(),
            i <= base.entries().len(),
            out.model() == Map::new(
                |fk: Seq<u8>| (exists|j: int| 0 <= j < i && #[trigger] base.entries()[j].0 == fk) && !has_prefix(fk, pv),
                |fk: Seq<u8>| m0[fk],
            ),
        decreases base.entries().len() - i,
    {
        let (fk, v) = base.entry(i);
        if !starts_with(fk.as_slice(), p) {
            let ghost old_out = out.model();
            out.put(copy_bytes(fk.as_slice()), copy_bytes(v.as_slice()));
            proof {
                base.lemma_entries();
                assert(out.model() =~= Map::new(
                    |x: Seq<u8>| (exists|j: int| 0 <= j < i + 1 && #[trigger] base.entries()[j].0 == x) && !has_prefix(x, pv),
                    |x: Seq<u8>| m0[x],
                )) by {
                    assert forall|x: Seq<u8>| (exists|j: int| 0 <= j < i + 1 && #[trigger] base.entries()[j].0 == x) && !has_prefix(x, pv)
                        implies out.model().contains_key(x) by {
                        let j = choose|j: int| 0 <= j < i + 1 && #[trigger] base.entries()[j].0 == x;
                        if j < i {
                            assert(old_out.contains_key(x));
                        }
                    }
                    assert forall|x: Seq<u8>| #[trigger] out.model().contains_key(x) && x != fk@
                        implies (exists|j: int| 0 <= j < i && #[trigger] base.entries()[j].0 == x) && !has_prefix(x, pv) by {
                        assert(old_out.contains_key(x));
                    }
                    assert(base.entries()[i as int].0 == fk@);
                }
            }
        } else {
            proof {
                assert(out.model() =~= Map::new(
                    |x: Seq<u8>| (exists|j: int| 0 <= j < i + 1 && #[trigger] base.entries()[j].0 == x) && !has_prefix(x, pv),
                    |x: Seq<u8>| m0[x],
                )) by {
                    assert forall|x: Seq<u8>| (exists|j: int| 0 <= j < i + 1 && #[trigger] base.entries()[j].0 == x) && !has_prefix(x, pv)
                        implies (exists|j: int| 0 <= j < i && #[trigger] base.entries()[j].0 == x) by {
                        let j = choose|j: int| 0 <= j < i + 1 && #[trigger] base.entries()[j].0 == x;
                        assert(j != i);
                    }
                }
            }
        }
        i = i + 1;
    }
    let view = View::new(base, address.duplicate(), Some(ch), false);
    let empty: Vec<u8> = Vec::new();
    let entries = view.iter_bytes(empty.as_slice());
    let ghost c = merged_model(m0, pv, Some(ch));
    proof {
        assert(view.model() == c);
        lemma_restrict_empty(c);
        assert(empty@ =~= Seq::<u8>::empty());
        lemma_map_of(entries_view(entries@));
    }
    let mut j: usize = 0;
    while j < entries.len()
        invariant
            out.wf(),
            p@ == pv,
            map_of(entries_view(entries@)) == c,
            crate::sorted_map::keys_sorted(entries_view(entries@)),
            j <= entries@.len(),
            out.model() == Map::new(
                |fk: Seq<u8>| if has_prefix(fk, pv) {
                    exists|u: int| 0 <= u < j && pv + #[trigger] entries_view(entries@)[u].0 == fk
                } else {
                    m0.contains_key(fk)
                },
                |fk: Seq<u8>| if has_prefix(fk, pv) { c[fk.subrange(pv.len() as int, fk.len() as int)] } else { m0[fk] },
            ),
        decreases entries.len() - j,
    {
        let e = &entries[j];
        let fk = concat(p, e.0.as_slice());
        let ghost old_out = out.model();
        let ghost ev = entries_view(entries@)[j as int];
        assert(ev == (e.0@, e.1@));
        out.put(fk, copy_bytes(e.1.as_slice()));
        proof {
            lemma_map_of(entries_view(entries@));
            lemma_strip(pv, ev.0);
            assert(c[ev.0] == ev.1);
            assert(out.model() =~= Map::new(
                |x: Seq<u8>| if has_prefix(x, pv) {
                    exists|u: int| 0 <= u < j + 1 && pv + #[trigger] entries_view(entries@)[u].0 == x
                } else {
                    m0.contains_key(x)
                },
                |x: Seq<u8>| if has_prefix(x, pv) { c[x.subrange(pv.len() as int, x.len() as int)] } else { m0[x] },
            )) by {
                assert forall|x: Seq<u8>| #[trigger] out.model().contains_key(x) && x != pv + ev.0 implies old_out.contains_key(x) by {}
                assert forall|x: Seq<u8>| has_prefix(x, pv) && (exists|u: int| 0 <= u < j + 1 && pv + #[trigger] entries_view(entries@)[u].0 == x)
                    implies out.model().contains_key(x) by {
                    let u = choose|u: int| 0 <= u < j + 1 && pv + #[trigger] entries_view(entries@)[u].0 == x;
                    if u < j {
                        assert(old_out.contains_key(x));
                    }
                }
                assert forall|x: Seq<u8>| #[trigger] out.model().contains_key(x) && has_prefix(x, pv) && x != pv + ev.0
                    implies (exists|u: int| 0 <= u < j && pv + #[trigger] entries_view(entries@)[u].0 == x) by {
                    assert(old_out.contains_key(x));
                }
            }
        }
        j = j + 1;
    }
    proof {
        lemma_map_of(entries_view(entries@));
        assert(out.model() =~= applied(m0, pv, ch)) by {
            assert forall|x: Seq<u8>| has_prefix(x, pv) && #[trigger] c.contains_key(x.subrange(pv.len() as int, x.len() as int))
                implies out.model().contains_key(x) by {
                let k = x.subrange(pv.len() as int, x.len() as int);
                let u = choose|u: int| 0 <= u < entries_view(entries@).len() && entries_view(entries@)[u].0 == k;
                lemma_unstrip(pv, x);
            }
            assert forall|x: Seq<u8>| #[trigger] out.model().contains_key(x) && has_prefix(x, pv)
                implies c.contains_key(x.subrange(pv.len() as int, x.len() as int)) by {
                let u = choose|u: int| 0 <= u < entries.len() && pv + #[trigger] entries_view(entries@)[u].0 == x;
                lemma_strip(pv, entries_view(entries@)[u].0);
            }
        }
    }
    out
}

/// The kind of a collection, as the registry records it.
#[derive(Clone, Copy, Debug, PartialEq, Eq, Structural, Hash)]
pub enum IndexType {
    Entry,
    List,
    SparseList,
    KeyMap,
    KeySet,
    ValueSet,
}

impl IndexType {
    pub open spec fn spec_tag(self) -> u8 {
        match self {
            IndexType::Entry => 1,
            IndexType::List => 2,
            IndexType::SparseList => 3,
            IndexType::KeyMap => 4,
            IndexType::KeySet => 5,
            IndexType::ValueSet => 6,
        }
    }

    pub open spec fn spec_from_tag(t: u8) -> Option<IndexType> {
        if t == 1 {
            Some(IndexType::Entry)
        } else if t == 2 {
            Some(IndexType::List)
        } else if t == 3 {
            Some(IndexType::SparseList)
        } else if t == 4 {
            Some(IndexType::KeyMap)
        } else if t == 5 {
            Some(IndexType::KeySet)
        } else if t == 6 {
            Some(IndexType::ValueSet)
        } else {
            None
        }
    }

    /// The byte the registry stores for this kind.
    pub fn tag(self) -> (r: u8)
        ensures
            r == self.spec_tag(),
            IndexType::spec_from_tag(r) == Some(self),
    {
        match self {
            IndexType::Entry => 1,
            IndexType::List => 2,
            IndexType::SparseList => 3,
            IndexType::KeyMap => 4,
            IndexType::KeySet => 5,
            IndexType::ValueSet => 6,
        }
    }

    pub fn from_tag(t: u8) -> (r: Option<IndexType>)
        ensures
            r == IndexType::spec_from_tag(t),
    {
        if t == 1 {
            Some(IndexType::Entry)
        } else if t == 2 {
            Some(IndexType::List)
        } else if t == 3 {
            Some(IndexType::SparseList)
        } else if t == 4 {
            Some(IndexType::KeyMap)
        } else if t == 5 {
            Some(IndexType::KeySet)
        } else if t == 6 {
            Some(IndexType::ValueSet)
        } else {
            None
        }
    }
}

/// Why a collection could not be opened.
#[derive(Clone, Copy, Debug, PartialEq, Eq, Structural)]
pub enum AccessError {
    /// The name is registered with another kind.
    TypeMismatch { expected: IndexType, actual: IndexType },
    /// The registry's record of the name does not decode.
    DecodeFailure,
}

/// What the registry records under `key`, as a kind: `None` where nothing
/// is recorded, `Some(None)` where the record does not decode.
pub open spec fn registered(reg: Map<Seq<u8>, Seq<u8>>, key: Seq<u8>) -> Option<Option<IndexType>> {
    if reg.contains_key(key) {
        let rec = reg[key];
        if rec.len() > 0 {
            Some(IndexType::spec_from_tag(rec[0]))
        } else {
            Some(None)
        }
    } else {
        None
    }
}

/// A registry record: the kind's byte, then the name it is listed under.
pub open spec fn registry_record(ty: IndexType, display: Seq<u8>) -> Seq<u8> {
    seq![ty.spec_tag()] + display
}

/// The overlays of one write transaction, ready to be applied.
pub struct Patch {
    changes: SortedMap<ViewChanges>,
}

impl Patch {
    pub closed spec fn overlays(&self) -> Seq<(Seq<u8>, ViewChanges)> {
        self.changes@
    }

    pub closed spec fn wf(&self) -> bool {
        &&& self.changes.wf()
        &&& forall|k: Seq<u8>| #[trigger] self.changes.model().contains_key(k) ==> self.changes.model()[k].wf()
    }
}

/// A write transaction over a snapshot: each collection's pending changes,
/// by prefix.
pub struct Fork<'a> {
    snapshot: &'a Snapshot,
    changes: SortedMap<ViewChanges>,
}

impl<'a> Fork<'a> {
    pub closed spec fn base(&self) -> &'a Snapshot {
        self.snapshot
    }

    pub closed spec fn overlays(&self) -> Map<Seq<u8>, ViewChanges> {
        self.changes.model()
    }

    pub closed spec fn wf(&self) -> bool {
        &&& self.snapshot.wf()
        &&& self.changes.wf()
        &&& forall|k: Seq<u8>| #[trigger] self.changes.model().contains_key(k) ==> self.changes.model()[k].wf()
    }

    pub open spec fn overlay_at(&self, p: Seq<u8>) -> Option<ViewChanges> {
        if self.overlays().contains_key(p) {
            Some(self.overlays()[p])
        } else {
            None
        }
    }

    /// The collection at prefix `p` as this transaction sees it.
    pub open spec fn collection(&self, p: Seq<u8>) -> Map<Seq<u8>, Seq<u8>> {
        merged_model(self.base().model(), p, self.overlay_at(p))
    }

    pub fn new(snapshot: &'a Snapshot) -> (r: Self)
        requires
            snapshot.wf(),
        ensures
            r.wf(),
            r.base() == snapshot,
            r.overlays() == Map::<Seq<u8>, ViewChanges>::empty(),
    {
        Fork { snapshot, changes: SortedMap::new() }
    }

    /// A read-only view of the snapshot alone at `address`.
    pub fn snapshot_view(&self, address: &ResolvedAddress) -> (r: View<'a>)
        requires
            self.wf(),
        ensures
            r.wf(),
            !r.writable(),
            r.model() == merged_model(self.base().model(), address@, None),
    {
        View::new(self.snapshot, address.duplicate(), None, false)
    }

    /// A writable view of the collection at `address`. The collection's
    /// overlay goes with the view until `release` gives it back.
    pub fn view(&mut self, address: &ResolvedAddress) -> (r: View<'a>)
        requires
            old(self).wf(),
        ensures
            final(self).wf(),
            r.wf(),
            r.writable(),
            r.address_prefix() == Some(address@),
            r.base_snapshot() == Some(old(self).base()),
            r.model() == old(self).collection(address@),
            final(self).base() == old(self).base(),
            final(self).overlays() == old(self).overlays().remove(address@),
            forall|p: Seq<u8>| p != address@ ==> #[trigger] final(self).collection(p) == old(self).collection(p),
    {
        let taken = self.changes.remove(address.prefix());
        let ch = match taken {
            Some(c) => c,
            None => ViewChanges::new(),
        };
        let r = View::new(self.snapshot, address.duplicate(), Some(ch), true);
        proof {
            if taken is None {
                assert(r.model() =~= old(self).collection(address@));
            }
            assert forall|p: Seq<u8>| p != address@ implies #[trigger] self.collection(p) == old(self).collection(p) by {
                assert(self.overlay_at(p) == old(self).overlay_at(p));
            }
        }
        r
    }

    /// Gives a view's overlay back to the transaction.
    pub fn release(&mut self, view: View<'a>)
        requires
            old(self).wf(),
            view.wf(),
            view.overlay() is Some,
            view.address_prefix() is Some,
            view.base_snapshot() == Some(old(self).base()),
        ensures
            final(self).wf(),
            final(self).base() == old(self).base(),
            final(self).overlays() == old(self).overlays().insert(view.address_prefix().unwrap(), view.overlay().unwrap()),
            final(self).collection(view.address_prefix().unwrap()) == view.model(),
            forall|p: Seq<u8>| p != view.address_prefix().unwrap() ==> #[trigger] final(self).collection(p) == old(self).collection(p),
    {
        let prefix = match view.address() {
            Some(a) => copy_bytes(a.prefix()),
            None => Vec::new(),
        };
        let ghost vp = view.address_prefix().unwrap();
        let ghost vm = view.model();
        match view.into_changes() {
            Some(ch) => {
                self.changes.insert(prefix, ch);
            },
            None => {},
        }
        proof {
            assert(self.overlay_at(vp) == view.overlay());
            assert forall|p: Seq<u8>| p != vp implies #[trigger] self.collection(p) == old(self).collection(p) by {
                assert(self.overlay_at(p) == old(self).overlay_at(p));
            }
        }
    }

    pub fn into_patch(self) -> (r: Patch)
        requires
            self.wf(),
        ensures
            r.wf(),
            map_of(r.overlays()) == self.overlays(),
    {
        Patch { changes: self.changes }
    }
}

impl<'a> Fork<'a> {
    /// Opens the collection at `address` as a collection of kind `ty`: binds
    /// its listed name to `ty` on first use, and refuses another kind
    /// afterwards. The registry is keyed by listed names, so it lists them in
    /// their byte order.
    pub fn resolve(&mut self, address: &IndexAddress, ty: IndexType) -> (r: Result<ResolvedAddress, AccessError>)
        requires
            old(self).wf(),
        ensures
            final(self).wf(),
            final(self).base() == old(self).base(),
            forall|p: Seq<u8>| p != registry_prefix() ==> #[trigger] final(self).collection(p) == old(self).collection(p),
            ({
                let reg = old(self).collection(registry_prefix());
                let key = address.spec_display_name();
                match registered(reg, key) {
                    None => {
                        &&& r is Ok
                        &&& r.unwrap()@ == address.spec_prefix()
                        &&& final(self).collection(registry_prefix()) == reg.insert(key, registry_record(ty, key))
                    },
                    Some(Some(t)) => {
                        &&& t == ty ==> r is Ok && r.unwrap()@ == address.spec_prefix()
                        &&& t != ty ==> r == Err::<ResolvedAddress, AccessError>(AccessError::TypeMismatch { expected: ty, actual: t })
                        &&& final(self).collection(registry_prefix()) == reg
                    },
                    Some(None) => {
                        &&& r == Err::<ResolvedAddress, AccessError>(AccessError::DecodeFailure)
                        &&& final(self).collection(registry_prefix()) == reg
                    },
                }
            }),
    {
        let reg_address = ResolvedAddress::registry();
        let mut reg = self.view(&reg_address);
        let resolved = address.resolve();
        let ghost reg0 = reg.model();
        let ghost key = address.spec_display_name();
        let display = address.display_name();
        assert(reg0 == old(self).collection(registry_prefix()));
        let result = match reg.get_bytes(display.as_slice()) {
            None => {
                let mut head: Vec<u8> = Vec::new();
                head.push(ty.tag());
                let record = concat(head.as_slice(), display.as_slice());
                assert(head@ =~= seq![ty.spec_tag()]);
                assert(record@ =~= registry_record(ty, address.spec_display_name()));
                reg.put_bytes(copy_bytes(display.as_slice()), record);
                assert(reg.model() == reg0.insert(key, registry_record(ty, address.spec_display_name())));
                assert(registered(reg0, key) is None);
                Ok(resolved)
            },
            Some(rec) => {
                assert(reg0.contains_key(key) && reg0[key] == rec@);
                if rec.len() == 0 {
                    Err(AccessError::DecodeFailure)
                } else {
                    match IndexType::from_tag(rec[0]) {
                        None => Err(AccessError::DecodeFailure),
                        Some(t) => {
                            if t == ty {
                                Ok(resolved)
                            } else {
                                Err(AccessError::TypeMismatch { expected: ty, actual: t })
                            }
                        },
                    }
                }
            },
        };
        let ghost reg_model = reg.model();
        let ghost reg_overlay = reg.overlay();
        self.release(reg);
        proof {
            assert(self.overlay_at(registry_prefix()) == reg_overlay);
            assert(self.collection(registry_prefix()) == reg_model);
            assert forall|p: Seq<u8>| p != registry_prefix() implies #[trigger] self.collection(p) == old(self).collection(p) by {
                assert(self.overlay_at(p) == old(self).overlay_at(p));
            }
        }
        result
    }

    /// The registered collections as (listed name, kind), in the byte order
    /// of the names, keeping those whose name starts with `sub_prefix`.
    pub fn index_list(&mut self, sub_prefix: Option<&[u8]>) -> (r: Vec<(Vec<u8>, IndexType)>)
        requires
            old(self).wf(),
        ensures
            final(self).wf(),
            final(self).base() == old(self).base(),
            forall|p: Seq<u8>| #[trigger] final(self).collection(p) == old(self).collection(p),
            listed_view(r@) == listed(
                listing(old(self).collection(registry_prefix())),
                match sub_prefix {
                    Some(sp) => Some(sp@),
                    None => None,
                },
            ),
    {
        let reg_address = ResolvedAddress::registry();
        let reg = self.view(&reg_address);
        let empty: Vec<u8> = Vec::new();
        let entries = reg.iter_bytes(empty.as_slice());
        let ghost sp = match sub_prefix {
            Some(sp) => Some(sp@),
            None => None,
        };
        proof {
            lemma_restrict_empty(reg.model());
        }
        let mut r: Vec<(Vec<u8>, IndexType)> = Vec::new();
        let mut j: usize = 0;
        while j < entries.len()
            invariant
                j <= entries@.len(),
                sp == match sub_prefix {
                    Some(s) => Some(s@),
                    None => None,
                },
                listed_view(r@) == listed(entries_view(entries@).take(j as int), sp),
            decreases entries.len() - j,
        {
            let e = &entries[j];
            let ghost ev = entries_view(entries@)[j as int];
            assert(ev == (e.0@, e.1@));
            assert(entries_view(entries@).take(j + 1).drop_last() =~= entries_view(entries@).take(j as int));
            assert(entries_view(entries@).take(j + 1).last() == ev);
            let rec = &e.1;
            if rec.len() > 0 {
                match IndexType::from_tag(rec[0]) {
                    Some(t) => {
                        let name = crate::bytes::strip_prefix(rec.as_slice(), 1);
                        let keep = match sub_prefix {
                            Some(s) => starts_with(name.as_slice(), s),
                            None => true,
                        };
                        if keep {
                            let ghost before = r@;
                            r.push((name, t));
                            assert(listed_view(r@) =~= listed_view(before).push((ev.1.subrange(1, ev.1.len() as int), t)));
                        }
                    },
                    None => {},
                }
            }
            j = j + 1;
        }
        self.release(reg);
        proof {
            assert(entries_view(entries@).take(entries@.len() as int) =~= entries_view(entries@));
            assert forall|p: Seq<u8>| #[trigger] self.collection(p) == old(self).collection(p) by {
                if p != registry_prefix() {
                    assert(self.overlay_at(p) == old(self).overlay_at(p));
                }
            }
        }
        r
    }
}

pub proof fn lemma_restrict_empty(c: Map<Seq<u8>, Seq<u8>>)
    ensures
        crate::view::restrict_from(c, Seq::<u8>::empty()) == c,
{
    assert forall|k: Seq<u8>| #![auto] c.contains_key(k) implies crate::bytes::lex_le(Seq::<u8>::empty(), k) by {
        if k.len() > 0 {
            crate::bytes::lemma_lex_prefix_lt(Seq::<u8>::empty(), k);
            assert(Seq::<u8>::empty() + k =~= k);
        } else {
            assert(k =~= Seq::<u8>::empty());
        }
    }
    assert(crate::view::restrict_from(c, Seq::<u8>::empty()) =~= c);
}

pub open spec fn listed_view(v: Seq<(Vec<u8>, IndexType)>) -> Seq<(Seq<u8>, IndexType)> {
    v.map_values(|e: (Vec<u8>, IndexType)| (e.0@, e.1))
}

/// The (listed name, kind) pairs of registry entries, in their order, for
/// the records that decode and whose name starts with `sub_prefix`.
pub open spec fn listed(entries: Seq<(Seq<u8>, Seq<u8>)>, sub_prefix: Option<Seq<u8>>) -> Seq<(Seq<u8>, IndexType)>
    decreases entries.len(),
{
    if entries.len() == 0 {
        Seq::empty()
    } else {
        let rest = listed(entries.drop_last(), sub_prefix);
        let rec = entries.last().1;
        if rec.len() > 0 && IndexType::spec_from_tag(rec[0]) is Some {
            let name = rec.subrange(1, rec.len() as int);
            let keep = match sub_prefix {
                Some(sp) => has_prefix(name, sp),
                None => true,
            };
            if keep {
                rest.push((name, IndexType::spec_from_tag(rec[0]).unwrap()))
            } else {
                rest
            }
        } else {
            rest
        }
    }
}

/// The committed state of the store.
pub struct Database {
    snapshot: Snapshot,
}

impl Database {
    pub closed spec fn spec_snapshot(&self) -> Snapshot {
        self.snapshot
    }

    pub open spec fn model(&self) -> Map<Seq<u8>, Seq<u8>> {
        self.spec_snapshot().model()
    }

    pub closed spec fn wf(&self) -> bool {
        self.snapshot.wf()
    }

    /// An empty store.
    pub fn new() -> (r: Self)
        ensures
            r.wf(),
            r.model() == Map::<Seq<u8>, Seq<u8>>::empty(),
    {
        Database { snapshot: Snapshot::new() }
    }

    pub fn snapshot(&self) -> (r: &Snapshot)
        requires
            self.wf(),
        ensures
            r.wf(),
            r.model() == self.model(),
    {
        &self.snapshot
    }

    /// A write transaction over the current state.
    pub fn fork(&self) -> (r: Fork<'_>)
        requires
            self.wf(),
        ensures
            r.wf(),
            r.base().model() == self.model(),
            r.overlays() == Map::<Seq<u8>, ViewChanges>::empty(),
    {
        Fork::new(&self.snapshot)
    }

    /// Commits a transaction's overlays.
    pub fn merge(&mut self, patch: Patch)
        requires
            old(self).wf(),
            patch.wf(),
        ensures
            final(self).wf(),
            final(self).model() == applied_all(old(self).model(), patch.overlays()),
    {
        let ghost ov = patch.overlays();
        proof {
            patch.lemma_entries_wf();
        }
        let mut rest = patch.changes.into_entries();
        let ghost s0 = self.model();
        assert(rest@.map_values(|e: (Vec<u8>, ViewChanges)| (e.0@, e.1)) == ov);
        assert forall|i: int| 0 <= i < rest@.len() implies (#[trigger] rest@[i]).1.wf() by {
            assert(rest@.map_values(|e: (Vec<u8>, ViewChanges)| (e.0@, e.1))[i] == ov[i]);
        }
        while rest.len() > 0
            invariant
                self.wf(),
                forall|i: int| 0 <= i < rest@.len() ==> (#[trigger] rest@[i]).1.wf(),
                applied_all(self.model(), rest@.map_values(|e: (Vec<u8>, ViewChanges)| (e.0@, e.1))) == applied_all(s0, ov),
            decreases rest.len(),
        {
            let ghost before = rest@.map_values(|e: (Vec<u8>, ViewChanges)| (e.0@, e.1));
            let (p, ch) = rest.pop().unwrap();
            assert(rest@.map_values(|e: (Vec<u8>, ViewChanges)| (e.0@, e.1)) =~= before.drop_last());
            let address = ResolvedAddress::from_prefix(p);
            let next = apply_changes(&self.snapshot, &address, ch);
            self.snapshot = next;
        }
        assert(rest@.map_values(|e: (Vec<u8>, ViewChanges)| (e.0@, e.1)) =~= Seq::<(Seq<u8>, ViewChanges)>::empty());
    }
}

impl Patch {
    proof fn lemma_entries_wf(&self)
        requires
            self.wf(),
        ensures
            forall|i: int| 0 <= i < self.overlays().len() ==> (#[trigger] self.overlays()[i]).1.wf(),
    {
        lemma_map_of(self.changes@);
        assert forall|i: int| 0 <= i < self.overlays().len() implies (#[trigger] self.overlays()[i]).1.wf() by {
            assert(self.changes.model().contains_key(self.changes@[i].0));
        }
    }
}

} // verus!
