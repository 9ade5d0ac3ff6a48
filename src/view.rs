//! A view: one collection's entries, the snapshot's merged with the pending
//! changes of the overlay.

use crate::address::ResolvedAddress;
use crate::bytes::{lemma_lex_asymmetric, lemma_lex_irreflexive, compare, concat, copy_bytes, has_prefix, lemma_lex_common_prefix, lex_le, lex_lt, starts_with, strip_prefix};
use crate::codec::{BinaryKey, BinaryValue};
use crate::changes::{ChangesIter, ViewChanges, change_value};
use crate::snapshot::Snapshot;
use crate::sorted_map::{byte_values_map, SortedMap, entries_view, keys_sorted, lemma_bytes_values, lemma_listing, listing, map_of, bytes_values};
use core::marker::PhantomData;
use vstd::prelude::*;
use vstd::view::View as ModelView;

verus! {

/// The part of a map at keys from `from` on.
pub open spec fn restrict_from(m: Map<Seq<u8>, Seq<u8>>, from: Seq<u8>) -> Map<Seq<u8>, Seq<u8>> {
    Map::new(|k: Seq<u8>| m.contains_key(k) && lex_le(from, k), |k: Seq<u8>| m[k])
}

/// The value at `k` in the collection at prefix `p`: the overlay's where it
/// decides, else the snapshot's.
pub open spec fn resolve_in(snapshot: Map<Seq<u8>, Seq<u8>>, p: Seq<u8>, overlay: Option<ViewChanges>, k: Seq<u8>) -> Option<Seq<u8>> {
    let from_snapshot = if snapshot.contains_key(p + k) {
        Some(snapshot[p + k])
    } else {
        None
    };
    match overlay {
        Some(ch) => match ch.resolve(k) {
            Some(decided) => decided,
            None => from_snapshot,
        },
        None => from_snapshot,
    }
}

/// The collection at prefix `p`, as key to value bytes.
pub open spec fn merged_model(snapshot: Map<Seq<u8>, Seq<u8>>, p: Seq<u8>, overlay: Option<ViewChanges>) -> Map<Seq<u8>, Seq<u8>> {
    Map::new(|k: Seq<u8>| resolve_in(snapshot, p, overlay, k) is Some, |k: Seq<u8>| resolve_in(snapshot, p, overlay, k).unwrap())
}

/// A bound view: a snapshot, the collection's prefix in it, and the overlay
/// of pending changes, if the access has one.
pub struct ViewInner<'a> {
    address: ResolvedAddress,
    snapshot: &'a Snapshot,
    changes: Option<ViewChanges>,
    writable: bool,
}

impl<'a> ViewInner<'a> {
    pub closed spec fn prefix(&self) -> Seq<u8> {
        self.address@
    }

    pub closed spec fn base(&self) -> &'a Snapshot {
        self.snapshot
    }

    pub closed spec fn overlay(&self) -> Option<ViewChanges> {
        self.changes
    }

    pub closed spec fn spec_writable(&self) -> bool {
        self.writable
    }

    pub open spec fn wf(&self) -> bool {
        &&& self.base().wf()
        &&& self.overlay() is Some ==> self.overlay().unwrap().wf()
        &&& self.spec_writable() ==> self.overlay() is Some
    }

    /// The value at `k`: the overlay's where it decides, else the snapshot's.
    pub open spec fn resolve(&self, k: Seq<u8>) -> Option<Seq<u8>> {
        resolve_in(self.base().model(), self.prefix(), self.overlay(), k)
    }

    pub open spec fn model(&self) -> Map<Seq<u8>, Seq<u8>> {
        merged_model(self.base().model(), self.prefix(), self.overlay())
    }

    spec fn shadowed(&self, k: Seq<u8>) -> bool {
        self.overlay() is Some && self.overlay().unwrap().changes().contains_key(k)
    }

    spec fn snap_part(&self, from: Seq<u8>, i: int) -> Map<Seq<u8>, Seq<u8>> {
        Map::new(
            |k: Seq<u8>|
                (exists|j: int| 0 <= j < i && #[trigger] self.base().entries()[j].0 == self.prefix() + k) && lex_le(from, k)
                    && !self.shadowed(k),
            |k: Seq<u8>| self.base().model()[self.prefix() + k],
        )
    }

    spec fn put_part(&self, ch: ViewChanges, start: int, pos: int) -> Map<Seq<u8>, Seq<u8>> {
        Map::new(
            |k: Seq<u8>| exists|j: int| start <= j < pos && #[trigger] ch.entries()[j].0 == k && ch.entries()[j].1 is Put,
            |k: Seq<u8>| change_value(ch.changes()[k]).unwrap(),
        )
    }

    fn get_bytes(&self, key: &[u8]) -> (r: Option<Vec<u8>>)
        requires
            self.wf(),
        ensures
            r is Some <==> self.model().contains_key(key@),
            r is Some ==> r.unwrap()@ == self.model()[key@],
    {
        let decided = match &self.changes {
            Some(ch) => ch.get(key),
            None => Err(()),
        };
        match decided {
            Ok(v) => v,
            Err(()) => {
                let full = concat(self.address.prefix(), key);
                self.snapshot.get(full.as_slice())
            },
        }
    }

    fn contains_raw_key(&self, key: &[u8]) -> (r: bool)
        requires
            self.wf(),
        ensures
            r == self.model().contains_key(key@),
    {
        let decided = match &self.changes {
            Some(ch) => ch.contains(key),
            None => Err(()),
        };
        match decided {
            Ok(v) => v,
            Err(()) => {
                let full = concat(self.address.prefix(), key);
                self.snapshot.contains(full.as_slice())
            },
        }
    }

    fn multi_get_bytes(&self, keys: &Vec<Vec<u8>>) -> (r: Vec<Option<Vec<u8>>>)
        requires
            self.wf(),
        ensures
            r@.len() == keys@.len(),
            forall|i: int| 0 <= i < keys@.len() ==> (#[trigger] r@[i] is Some <==> self.model().contains_key(keys@[i]@)),
            forall|i: int| 0 <= i < keys@.len() && #[trigger] r@[i] is Some ==> r@[i].unwrap()@ == self.model()[keys@[i]@],
    {
        // Keys that the overlay does not decide go to the snapshot in one batch.
        let mut res: Vec<Option<Vec<u8>>> = Vec::new();
        let mut db_keys: Vec<Vec<u8>> = Vec::new();
        let mut db_idx: Vec<usize> = Vec::new();
        let mut i: usize = 0;
        while i < keys.len()
            invariant
                self.wf(),
                i <= keys@.len(),
                res@.len() == i,
                db_keys@.len() == db_idx@.len(),
                forall|t: int| 0 <= t < db_idx@.len() ==> #[trigger] db_idx@[t] < i
                    && db_keys@[t]@ == self.prefix() + keys@[db_idx@[t] as int]@
                    && self.resolve(keys@[db_idx@[t] as int]@) == (if self.base().model().contains_key(db_keys@[t]@) {
                        Some(self.base().model()[db_keys@[t]@])
                    } else {
                        None
                    }),
                forall|t: int, u: int| 0 <= t < u < db_idx@.len() ==> db_idx@[t] < db_idx@[u],
                forall|j: int| 0 <= j < i && !(exists|t: int| 0 <= t < db_idx@.len() && db_idx@[t] == j)
                    ==> (#[trigger] res@[j] is Some <==> self.model().contains_key(keys@[j]@))
                        && (res@[j] is Some ==> res@[j].unwrap()@ == self.model()[keys@[j]@]),
            decreases keys.len() - i,
        {
            let key = keys[i].as_slice();
            let ghost old_idx = db_idx@;
            let ghost old_res = res@;
            let decided = match &self.changes {
                Some(ch) => ch.get(key),
                None => Err(()),
            };
            match decided {
                Ok(v) => {
                    res.push(v);
                },
                Err(()) => {
                    res.push(None);
                    db_keys.push(concat(self.address.prefix(), key));
                    db_idx.push(i);
                },
            }
            proof {
                assert forall|j: int| 0 <= j < i + 1 && !(exists|t: int| 0 <= t < db_idx@.len() && db_idx@[t] == j)
                    implies (#[trigger] res@[j] is Some <==> self.model().contains_key(keys@[j]@))
                        && (res@[j] is Some ==> res@[j].unwrap()@ == self.model()[keys@[j]@]) by {
                    if j < i {
                        assert(res@[j] == old_res[j]);
                        if exists|t: int| 0 <= t < old_idx.len() && old_idx[t] == j {
                            let t = choose|t: int| 0 <= t < old_idx.len() && old_idx[t] == j;
                            assert(db_idx@[t] == j);
                        }
                    } else if db_idx@.len() > old_idx.len() {
                        assert(db_idx@[old_idx.len() as int] == j);
                    }
                }
            }
            i = i + 1;
        }
        let found = self.snapshot.multi_get(&db_keys);
        let mut t: usize = 0;
        while t < db_idx.len()
            invariant
                self.wf(),
                res@.len() == keys@.len(),
                db_keys@.len() == db_idx@.len(),
                found@.len() == db_keys@.len(),
                t <= db_idx@.len(),
                forall|s: int| 0 <= s < db_idx@.len() ==> #[trigger] db_idx@[s] < keys@.len()
                    && db_keys@[s]@ == self.prefix() + keys@[db_idx@[s] as int]@
                    && self.resolve(keys@[db_idx@[s] as int]@) == (if self.base().model().contains_key(db_keys@[s]@) {
                        Some(self.base().model()[db_keys@[s]@])
                    } else {
                        None
                    }),
                forall|s: int, u: int| 0 <= s < u < db_idx@.len() ==> db_idx@[s] < db_idx@[u],
                forall|s: int| 0 <= s < db_keys@.len() ==> (#[trigger] found@[s] is Some <==> self.base().model().contains_key(db_keys@[s]@)),
                forall|s: int| 0 <= s < db_keys@.len() && #[trigger] found@[s] is Some ==> found@[s].unwrap()@ == self.base().model()[db_keys@[s]@],
                forall|j: int| 0 <= j < keys@.len() && !(exists|s: int| t <= s < db_idx@.len() && db_idx@[s] == j)
                    ==> (#[trigger] res@[j] is Some <==> self.model().contains_key(keys@[j]@))
                        && (res@[j] is Some ==> res@[j].unwrap()@ == self.model()[keys@[j]@]),
            decreases db_idx.len() - t,
        {
            let idx = db_idx[t];
            let item = match &found[t] {
                Some(v) => Some(copy_bytes(v.as_slice())),
                None => None,
            };
            res.set(idx, item);
            proof {
                assert forall|j: int| 0 <= j < keys@.len() && !(exists|s: int| t + 1 <= s < db_idx@.len() && db_idx@[s] == j)
                    implies (#[trigger] res@[j] is Some <==> self.model().contains_key(keys@[j]@))
                        && (res@[j] is Some ==> res@[j].unwrap()@ == self.model()[keys@[j]@]) by {
                    if j != idx {
                        if exists|s: int| t <= s < db_idx@.len() && db_idx@[s] == j {
                            let s = choose|s: int| t <= s < db_idx@.len() && db_idx@[s] == j;
                            assert(s != t);
                        }
                    }
                }
            }
            t = t + 1;
        }
        res
    }

    /// Every entry at keys from `from` on, in key order.
    #[verifier::rlimit(50)]
    fn iter_bytes(&self, from: &[u8]) -> (r: Vec<(Vec<u8>, Vec<u8>)>)
        requires
            self.wf(),
        ensures
            keys_sorted(entries_view(r@)),
            map_of(entries_view(r@)) == restrict_from(self.model(), from@),
            entries_view(r@) == listing(restrict_from(self.model(), from@)),
    {
        let mut acc: SortedMap<Vec<u8>> = SortedMap::new();
        let cleared = match &self.changes {
            Some(ch) => ch.is_cleared(),
            None => false,
        };
        let prefix = self.address.prefix();
        if !cleared {
            let start = concat(prefix, from);
            let mut i: usize = 0;
            while i < self.snapshot.len()
                invariant
                    self.wf(),
                    prefix@ == self.prefix(),
                    start@ == self.prefix() + from@,
                    i <= self.base().entries().len(),
                    acc.wf(),
                    byte_values_map(acc.model()) == self.snap_part(from@, i as int),
                decreases self.snapshot.entries().len() - i,
            {
                let (fk, v) = self.snapshot.entry(i);
                let ghost fkv = fk@;
                let ghost old_acc = acc.model();
                let sw = starts_with(fk.as_slice(), prefix);
                let c: i8 = if sw {
                    compare(fk.as_slice(), start.as_slice())
                } else {
                    0
                };
                if sw && c != -1 {
                    let k = strip_prefix(fk.as_slice(), prefix.len());
                    proof {
                        assert(fkv =~= self.prefix() + k@);
                        lemma_lex_common_prefix(self.prefix(), k@, from@);
                        lemma_lex_common_prefix(self.prefix(), from@, k@);
                        if fkv == start@ {
                            assert(k@ =~= from@) by {
                                assert(k@ =~= fkv.subrange(self.prefix().len() as int, fkv.len() as int));
                                assert(from@ =~= start@.subrange(self.prefix().len() as int, start@.len() as int));
                            }
                        }
                        self.base().lemma_entries();
                    }
                    let shadowed = match &self.changes {
                        Some(ch) => ch.has_change(k.as_slice()),
                        None => false,
                    };
                    if !shadowed {
                        let ghost kv = k@;
                        let vc = copy_bytes(v.as_slice());
                        let ghost vcv = vc@;
                        acc.insert(k, vc);
                        proof {
                            assert(byte_values_map(acc.model()) =~= self.snap_part(from@, i + 1)) by {
                                assert forall|x: Seq<u8>| #[trigger] self.snap_part(from@, i + 1).contains_key(x)
                                    implies byte_values_map(acc.model()).contains_key(x)
                                        && byte_values_map(acc.model())[x] == self.snap_part(from@, i + 1)[x] by {
                                    assert(acc.model() == old_acc.insert(kv, acc.model()[kv]));
                                    if x == kv {
                                        assert(acc.model().contains_key(kv));
                                        assert(byte_values_map(acc.model())[x] == vcv);
                                        assert(self.base().model()[fkv] == vcv);
                                    } else {
                                        let j = choose|j: int| 0 <= j < i + 1 && #[trigger] self.base().entries()[j].0 == self.prefix() + x;
                                        if j == i {
                                            assert(self.prefix() + x == self.prefix() + kv);
                                            assert(x =~= (self.prefix() + x).subrange(self.prefix().len() as int, (self.prefix() + x).len() as int));
                                            assert(kv =~= (self.prefix() + kv).subrange(self.prefix().len() as int, (self.prefix() + kv).len() as int));
                                        } else {
                                            assert(self.snap_part(from@, i as int).contains_key(x));
                                            assert(byte_values_map(old_acc).contains_key(x));
                                            assert(old_acc.contains_key(x));
                                            assert(acc.model()[x] == old_acc[x]);
                                            assert(byte_values_map(old_acc)[x] == self.snap_part(from@, i as int)[x]);
                                        }
                                    }
                                }
                                assert forall|x: Seq<u8>| #[trigger] byte_values_map(acc.model()).contains_key(x)
                                    implies self.snap_part(from@, i + 1).contains_key(x) by {
                                    if x != kv {
                                        assert(byte_values_map(old_acc).contains_key(x));
                                        let j = choose|j: int| 0 <= j < i && #[trigger] self.base().entries()[j].0 == self.prefix() + x;
                                        assert(0 <= j < i + 1);
                                    } else {
                                        assert(self.base().entries()[i as int].0 == self.prefix() + x);
                                    }
                                }
                            }
                        }
                    } else {
                        proof {
                            assert(byte_values_map(acc.model()) =~= self.snap_part(from@, i + 1)) by {
                                assert forall|x: Seq<u8>| #[trigger] self.snap_part(from@, i + 1).contains_key(x)
                                    implies self.snap_part(from@, i as int).contains_key(x) by {
                                    let j = choose|j: int| 0 <= j < i + 1 && #[trigger] self.base().entries()[j].0 == self.prefix() + x;
                                    if j == i {
                                        assert(x =~= (self.prefix() + x).subrange(self.prefix().len() as int, (self.prefix() + x).len() as int));
                                        assert(k@ =~= (self.prefix() + k@).subrange(self.prefix().len() as int, (self.prefix() + k@).len() as int));
                                    }
                                }
                                assert forall|x: Seq<u8>| #[trigger] self.snap_part(from@, i as int).contains_key(x)
                                    implies self.snap_part(from@, i + 1).contains_key(x) by {
                                    let j = choose|j: int| 0 <= j < i && #[trigger] self.base().entries()[j].0 == self.prefix() + x;
                                    assert(0 <= j < i + 1);
                                }
                            }
                        }
                    }
                } else {
                    proof {
                        assert(byte_values_map(acc.model()) =~= self.snap_part(from@, i + 1)) by {
                            assert forall|x: Seq<u8>| #[trigger] self.snap_part(from@, i + 1).contains_key(x)
                                implies self.snap_part(from@, i as int).contains_key(x) by {
                                let j = choose|j: int| 0 <= j < i + 1 && #[trigger] self.base().entries()[j].0 == self.prefix() + x;
                                if j == i {
                                    assert(has_prefix(fkv, self.prefix())) by {
                                        assert(fkv.subrange(0, self.prefix().len() as int) =~= self.prefix());
                                    }
                                    lemma_lex_common_prefix(self.prefix(), x, from@);
                                    lemma_lex_irreflexive(x);
                                    if x != from@ {
                                        lemma_lex_asymmetric(from@, x);
                                    }
                                }
                            }
                            assert forall|x: Seq<u8>| #[trigger] self.snap_part(from@, i as int).contains_key(x)
                                implies self.snap_part(from@, i + 1).contains_key(x) by {
                                let j = choose|j: int| 0 <= j < i && #[trigger] self.base().entries()[j].0 == self.prefix() + x;
                                assert(0 <= j < i + 1);
                            }
                        }
                    }
                }
                i = i + 1;
            }
        }
        let ghost base = byte_values_map(acc.model());
        assert(base == (if cleared { Map::<Seq<u8>, Seq<u8>>::empty() } else { self.snap_part(from@, self.base().entries().len() as int) })) by {
            if cleared {
                assert(byte_values_map(acc.model()) =~= Map::<Seq<u8>, Seq<u8>>::empty());
            }
        }
        match &self.changes {
            Some(ch) => {
                let mut it = ChangesIter::new(ch, from);
                let ghost start = it.position();
                proof {
                    ch.lemma_entries();
                    assert(self.put_part(*ch, start, start) =~= Map::<Seq<u8>, Seq<u8>>::empty());
                    assert(base.union_prefer_right(self.put_part(*ch, start, start)) =~= base);
                }
                loop
                    invariant
                        self.wf(),
                        self.overlay() == Some(*ch),
                        it.wf(),
                        it.source() == ch,
                        start <= it.position(),
                        acc.wf(),
                        byte_values_map(acc.model()) == base.union_prefer_right(self.put_part(*ch, start, it.position())),
                    ensures
                        it.position() == ch.entries().len(),
                        byte_values_map(acc.model()) == base.union_prefer_right(self.put_part(*ch, start, it.position())),
                    decreases ch.entries().len() - it.position(),
                {
                    let ghost p0 = it.position();
                    let ghost old_acc = acc.model();
                    match it.next() {
                        Some((k, v)) => {
                            let kc = copy_bytes(k.as_slice());
                            let vc = copy_bytes(v.as_slice());
                            let ghost kv = kc@;
                            let ghost vv = vc@;
                            acc.insert(kc, vc);
                            proof {
                                ch.lemma_entries();
                                let p1 = it.position();
                                assert(kv == ch.entries()[p1 - 1].0);
                                assert(ch.changes()[kv] == ch.entries()[p1 - 1].1);
                                assert(change_value(ch.changes()[kv]) == Some(vv));
                                let pp0 = self.put_part(*ch, start, p0);
                                let pp1 = self.put_part(*ch, start, p1);
                                let nm = byte_values_map(acc.model());
                                let om = byte_values_map(old_acc);
                                assert(om == base.union_prefer_right(pp0));
                                assert(acc.model() == old_acc.insert(kv, acc.model()[kv]));
                                assert(pp1.contains_key(kv)) by {
                                    assert(start <= p1 - 1 < p1 && ch.entries()[p1 - 1].0 == kv && ch.entries()[p1 - 1].1 is Put);
                                }
                                assert forall|x: Seq<u8>| #[trigger] pp1.contains_key(x) && x != kv implies pp0.contains_key(x) by {
                                    let j = choose|j: int| start <= j < p1 && #[trigger] ch.entries()[j].0 == x && ch.entries()[j].1 is Put;
                                    assert(j < p0 || j == p1 - 1);
                                }
                                assert forall|x: Seq<u8>| #[trigger] pp0.contains_key(x) implies pp1.contains_key(x) by {
                                    let j = choose|j: int| start <= j < p0 && #[trigger] ch.entries()[j].0 == x && ch.entries()[j].1 is Put;
                                    assert(start <= j < p1);
                                }
                                assert forall|x: Seq<u8>| nm.contains_key(x) <==> #[trigger] base.union_prefer_right(pp1).contains_key(x) by {
                                    if x != kv {
                                        assert(nm.contains_key(x) <==> om.contains_key(x));
                                    }
                                }
                                assert forall|x: Seq<u8>| #[trigger] nm.contains_key(x) implies nm[x] == base.union_prefer_right(pp1)[x] by {
                                    if x != kv {
                                        assert(acc.model().contains_key(x));
                                        assert(old_acc.contains_key(x));
                                        assert(acc.model()[x] == old_acc[x]);
                                        assert(nm[x] == om[x]);
                                        if pp1.contains_key(x) {
                                            assert(pp0.contains_key(x));
                                            assert(pp1[x] == pp0[x]);
                                            assert(base.union_prefer_right(pp1)[x] == pp1[x]);
                                            assert(om[x] == pp0[x]);
                                        } else {
                                            assert(!pp0.contains_key(x));
                                            assert(om.contains_key(x));
                                            assert(base.contains_key(x));
                                            assert(om[x] == base[x]);
                                            assert(base.union_prefer_right(pp1)[x] == base[x]);
                                        }
                                        assert(nm[x] == base.union_prefer_right(pp1)[x]);
                                    } else {
                                        assert(nm[kv] == vv);
                                        assert(pp1[kv] == change_value(ch.changes()[kv]).unwrap());
                                        assert(pp1[kv] == vv);
                                        assert(base.union_prefer_right(pp1)[kv] == pp1[kv]);
                                        assert(nm[x] == base.union_prefer_right(pp1)[x]);
                                    }
                                }
                                assert(nm =~= base.union_prefer_right(pp1));
                            }
                        },
                        None => {
                            proof {
                                let p1 = it.position();
                                assert(self.put_part(*ch, start, p1) =~= self.put_part(*ch, start, p0)) by {
                                    assert forall|x: Seq<u8>| #[trigger] self.put_part(*ch, start, p1).contains_key(x)
                                        implies self.put_part(*ch, start, p0).contains_key(x) by {
                                        let j = choose|j: int| start <= j < p1 && #[trigger] ch.entries()[j].0 == x && ch.entries()[j].1 is Put;
                                        assert(j < p0);
                                    }
                                    assert forall|x: Seq<u8>| #[trigger] self.put_part(*ch, start, p0).contains_key(x)
                                        implies self.put_part(*ch, start, p1).contains_key(x) by {
                                        let j = choose|j: int| start <= j < p0 && #[trigger] ch.entries()[j].0 == x && ch.entries()[j].1 is Put;
                                    }
                                }
                            }
                            break;
                        },
                    }
                }
                proof {
                    self.lemma_merge_complete(from@, start, base, cleared);
                    assert(it.position() == ch.entries().len());
                    assert(byte_values_map(acc.model()) == restrict_from(self.model(), from@));
                }
            },
            None => {
                proof {
                    self.lemma_snapshot_complete(from@);
                    assert(byte_values_map(acc.model()) == restrict_from(self.model(), from@));
                }
            },
        }
        let ghost accs = acc@;
        assert(acc.model() == map_of(accs));
        proof {
            assert(keys_sorted(accs));
        }
        let r = acc.into_entries();
        proof {
            assert(entries_view(r@) =~= bytes_values(accs));
            lemma_bytes_values(accs);
            lemma_listing(entries_view(r@));
        }
        r
    }

    /// Without an overlay, the snapshot scan is the whole view.
    proof fn lemma_snapshot_complete(&self, from: Seq<u8>)
        requires
            self.wf(),
            self.overlay() is None,
        ensures
            self.snap_part(from, self.base().entries().len() as int) == restrict_from(self.model(), from),
    {
        self.base().lemma_entries();
        let n = self.base().entries().len() as int;
        assert(self.snap_part(from, n) =~= restrict_from(self.model(), from)) by {
            assert forall|x: Seq<u8>| #[trigger] restrict_from(self.model(), from).contains_key(x)
                implies self.snap_part(from, n).contains_key(x) by {
                let j = choose|j: int| 0 <= j < n && self.base().entries()[j].0 == self.prefix() + x;
                assert(self.base().entries()[j].0 == self.prefix() + x);
            }
        }
    }

    /// With an overlay, the snapshot scan (unless cleared) and the overlay's
    /// puts from `from` on are the whole view.
    proof fn lemma_merge_complete(&self, from: Seq<u8>, start: int, base: Map<Seq<u8>, Seq<u8>>, cleared: bool)
        requires
            self.wf(),
            self.overlay() is Some,
            cleared == self.overlay().unwrap().spec_cleared(),
            base == (if cleared { Map::<Seq<u8>, Seq<u8>>::empty() } else { self.snap_part(from, self.base().entries().len() as int) }),
            0 <= start <= self.overlay().unwrap().entries().len(),
            forall|j: int| 0 <= j < start ==> lex_lt(#[trigger] self.overlay().unwrap().entries()[j].0, from),
            forall|j: int| start <= j < self.overlay().unwrap().entries().len() ==> lex_le(from, #[trigger] self.overlay().unwrap().entries()[j].0),
        ensures
            base.union_prefer_right(self.put_part(self.overlay().unwrap(), start, self.overlay().unwrap().entries().len() as int))
                == restrict_from(self.model(), from),
    {
        let ch = self.overlay().unwrap();
        let m = ch.entries().len() as int;
        let n = self.base().entries().len() as int;
        ch.lemma_entries();
        self.base().lemma_entries();
        let pp = self.put_part(ch, start, m);
        let target = restrict_from(self.model(), from);
        assert(base.union_prefer_right(pp) =~= target) by {
            assert forall|x: Seq<u8>| #[trigger] target.contains_key(x)
                implies base.union_prefer_right(pp).contains_key(x) && base.union_prefer_right(pp)[x] == target[x] by {
                if ch.changes().contains_key(x) {
                    let j = choose|j: int| 0 <= j < m && ch.entries()[j].0 == x;
                    assert(ch.entries()[j].0 == x);
                    if j < start {
                        lemma_lex_irreflexive(x);
                        if x != from {
                            lemma_lex_asymmetric(from, x);
                        }
                    }
                    assert(pp.contains_key(x));
                } else {
                    let j = choose|j: int| 0 <= j < n && self.base().entries()[j].0 == self.prefix() + x;
                    assert(self.base().entries()[j].0 == self.prefix() + x);
                    assert(base.contains_key(x));
                    if pp.contains_key(x) {
                        let t = choose|t: int| start <= t < m && #[trigger] ch.entries()[t].0 == x && ch.entries()[t].1 is Put;
                        assert(ch.changes().contains_key(ch.entries()[t].0));
                    }
                }
            }
            assert forall|x: Seq<u8>| #[trigger] base.union_prefer_right(pp).contains_key(x)
                implies target.contains_key(x) by {
                if pp.contains_key(x) {
                    let t = choose|t: int| start <= t < m && #[trigger] ch.entries()[t].0 == x && ch.entries()[t].1 is Put;
                    assert(ch.changes().contains_key(ch.entries()[t].0));
                } else {
                    let j = choose|j: int| 0 <= j < n && #[trigger] self.base().entries()[j].0 == self.prefix() + x;
                    assert(self.base().model().contains_key(self.prefix() + x));
                }
            }
        }
    }
}


/// A collection's view of the store, or a phantom view that has no backing
/// access: it reads as empty and cannot be written.
pub enum View<'a> {
    Real(ViewInner<'a>),
    Phantom,
}

impl<'a> View<'a> {
    pub open spec fn wf(&self) -> bool {
        match self {
            View::Real(inner) => inner.wf(),
            View::Phantom => true,
        }
    }

    /// Key (within the collection) to value bytes.
    pub open spec fn model(&self) -> Map<Seq<u8>, Seq<u8>> {
        match self {
            View::Real(inner) => merged_model(inner.base().model(), inner.prefix(), inner.overlay()),
            View::Phantom => Map::empty(),
        }
    }

    /// Whether writes through this view are kept.
    pub open spec fn writable(&self) -> bool {
        match self {
            View::Real(inner) => inner.spec_writable(),
            View::Phantom => false,
        }
    }

    pub open spec fn address_prefix(&self) -> Option<Seq<u8>> {
        match self {
            View::Real(inner) => Some(inner.prefix()),
            View::Phantom => None,
        }
    }

    pub open spec fn overlay(&self) -> Option<ViewChanges> {
        match self {
            View::Real(inner) => inner.overlay(),
            View::Phantom => None,
        }
    }

    pub open spec fn base_snapshot(&self) -> Option<&'a Snapshot> {
        match self {
            View::Real(inner) => Some(inner.base()),
            View::Phantom => None,
        }
    }

    /// The value at `k` decoded as `V`, if there is one.
    pub open spec fn typed_get<V: BinaryValue>(&self, k: Seq<u8>) -> Option<V> {
        if self.model().contains_key(k) {
            V::decode_spec(self.model()[k])
        } else {
            None
        }
    }

    /// The bytes at `k`, if any, decode as `V`.
    pub open spec fn decodes_at<V: BinaryValue>(&self, k: Seq<u8>) -> bool {
        self.model().contains_key(k) ==> V::decode_spec(self.model()[k]) is Some
    }

    /// A view of the collection at `address`: the snapshot merged with
    /// `changes`; writes are kept only where `writable`.
    pub fn new(snapshot: &'a Snapshot, address: ResolvedAddress, changes: Option<ViewChanges>, writable: bool) -> (r: Self)
        requires
            snapshot.wf(),
            changes is Some ==> changes.unwrap().wf(),
            writable ==> changes is Some,
        ensures
            r.wf(),
            r.writable() == writable,
            r.address_prefix() == Some(address@),
            r.base_snapshot() == Some(snapshot),
            r.model() == merged_model(snapshot.model(), address@, changes),
            r.overlay() == changes,
    {
        View::Real(ViewInner { address, snapshot, changes, writable })
    }

    pub fn new_phantom() -> (r: Self)
        ensures
            r.wf(),
            r.model() == Map::<Seq<u8>, Seq<u8>>::empty(),
            !r.writable(),
    {
        View::Phantom
    }

    /// The snapshot this view reads, unless it is phantom.
    pub fn access(&self) -> (r: Option<&'a Snapshot>)
        ensures
            r == self.base_snapshot(),
    {
        match self {
            View::Real(inner) => Some(inner.snapshot),
            View::Phantom => None,
        }
    }

    /// The address of the collection, unless the view is phantom.
    pub fn address(&self) -> (r: Option<&ResolvedAddress>)
        ensures
            r is Some <==> self.address_prefix() is Some,
            r is Some ==> r.unwrap()@ == self.address_prefix().unwrap(),
    {
        match self {
            View::Real(inner) => Some(&inner.address),
            View::Phantom => None,
        }
    }

    /// Gives the overlay back, for the access that lent it.
    pub fn into_changes(self) -> (r: Option<ViewChanges>)
        requires
            self.wf(),
        ensures
            r == self.overlay(),
            r is Some ==> r.unwrap().wf(),
    {
        match self {
            View::Real(inner) => inner.changes,
            View::Phantom => None,
        }
    }

    /// The bytes under the raw key `key`.
    pub fn get_bytes(&self, key: &[u8]) -> (r: Option<Vec<u8>>)
        requires
            self.wf(),
        ensures
            r is Some <==> self.model().contains_key(key@),
            r is Some ==> r.unwrap()@ == self.model()[key@],
    {
        match self {
            View::Real(inner) => inner.get_bytes(key),
            View::Phantom => None,
        }
    }

    fn multi_get_bytes(&self, keys: &Vec<Vec<u8>>) -> (r: Vec<Option<Vec<u8>>>)
        requires
            self.wf(),
        ensures
            r@.len() == keys@.len(),
            forall|i: int| 0 <= i < keys@.len() ==> (#[trigger] r@[i] is Some <==> self.model().contains_key(keys@[i]@)),
            forall|i: int| 0 <= i < keys@.len() && #[trigger] r@[i] is Some ==> r@[i].unwrap()@ == self.model()[keys@[i]@],
    {
        match self {
            View::Real(inner) => inner.multi_get_bytes(keys),
            View::Phantom => {
                let mut r: Vec<Option<Vec<u8>>> = Vec::new();
                let mut i: usize = 0;
                while i < keys.len()
                    invariant
                        i <= keys@.len(),
                        r@.len() == i,
                        forall|j: int| 0 <= j < i ==> #[trigger] r@[j] is None,
                    decreases keys.len() - i,
                {
                    r.push(None);
                    i = i + 1;
                }
                r
            },
        }
    }

    fn contains_raw_key(&self, key: &[u8]) -> (r: bool)
        requires
            self.wf(),
        ensures
            r == self.model().contains_key(key@),
    {
        match self {
            View::Real(inner) => inner.contains_raw_key(key),
            View::Phantom => false,
        }
    }

    /// Every entry at keys from `from` on, in key order.
    pub fn iter_bytes(&self, from: &[u8]) -> (r: Vec<(Vec<u8>, Vec<u8>)>)
        requires
            self.wf(),
        ensures
            keys_sorted(entries_view(r@)),
            map_of(entries_view(r@)) == restrict_from(self.model(), from@),
            entries_view(r@) == listing(restrict_from(self.model(), from@)),
    {
        match self {
            View::Real(inner) => inner.iter_bytes(from),
            View::Phantom => {
                let r: Vec<(Vec<u8>, Vec<u8>)> = Vec::new();
                proof {
                    assert(entries_view(r@) =~= Seq::<(Seq<u8>, Seq<u8>)>::empty());
                    assert(map_of(entries_view(r@)) =~= restrict_from(self.model(), from@));
                    lemma_listing(entries_view(r@));
                }
                r
            },
        }
    }

    /// The value under `key`, decoded.
    pub fn get<K: BinaryKey, V: BinaryValue>(&self, key: &K) -> (r: Option<V>)
        requires
            self.wf(),
            self.decodes_at::<V>(key.key_spec()),
        ensures
            r == self.typed_get::<V>(key.key_spec()),
    {
        let k = key.key_bytes();
        match self.get_bytes(k.as_slice()) {
            Some(v) => V::from_bytes(v.as_slice()),
            None => None,
        }
    }

    /// The values under `keys`, each looked up on its own, in the order of `keys`.
    pub fn multi_get<K: BinaryKey, V: BinaryValue>(&self, keys: &Vec<K>) -> (r: Vec<Option<V>>)
        requires
            self.wf(),
            forall|i: int| 0 <= i < keys@.len() ==> self.decodes_at::<V>(#[trigger] keys@[i].key_spec()),
        ensures
            r@.len() == keys@.len(),
            forall|i: int| 0 <= i < keys@.len() ==> #[trigger] r@[i] == self.typed_get::<V>(keys@[i].key_spec()),
    {
        let mut raw_keys: Vec<Vec<u8>> = Vec::new();
        let mut i: usize = 0;
        while i < keys.len()
            invariant
                i <= keys@.len(),
                raw_keys@.len() == i,
                forall|j: int| 0 <= j < i ==> #[trigger] raw_keys@[j]@ == keys@[j].key_spec(),
            decreases keys.len() - i,
        {
            raw_keys.push(keys[i].key_bytes());
            i = i + 1;
        }
        let raw = self.multi_get_bytes(&raw_keys);
        let mut r: Vec<Option<V>> = Vec::new();
        let mut j: usize = 0;
        while j < raw.len()
            invariant
                self.wf(),
                raw@.len() == keys@.len(),
                raw_keys@.len() == keys@.len(),
                forall|t: int| 0 <= t < keys@.len() ==> #[trigger] raw_keys@[t]@ == keys@[t].key_spec(),
                forall|t: int| 0 <= t < keys@.len() ==> (#[trigger] raw@[t] is Some <==> self.model().contains_key(raw_keys@[t]@)),
                forall|t: int| 0 <= t < keys@.len() && #[trigger] raw@[t] is Some ==> raw@[t].unwrap()@ == self.model()[raw_keys@[t]@],
                j <= raw@.len(),
                r@.len() == j,
                forall|t: int| 0 <= t < j ==> #[trigger] r@[t] == self.typed_get::<V>(keys@[t].key_spec()),
            decreases raw.len() - j,
        {
            let item = match &raw[j] {
                Some(v) => V::from_bytes(v.as_slice()),
                None => None,
            };
            r.push(item);
            j = j + 1;
        }
        r
    }

    /// Whether a value is stored under `key`.
    pub fn contains<K: BinaryKey>(&self, key: &K) -> (r: bool)
        requires
            self.wf(),
        ensures
            r == self.model().contains_key(key.key_spec()),
    {
        let k = key.key_bytes();
        self.contains_raw_key(k.as_slice())
    }

    /// The entries whose keys start with `subprefix`, in key order.
    pub fn iter<P: BinaryKey, K: BinaryKey, V: BinaryValue>(&self, subprefix: &P) -> (r: Iter<K, V>)
        requires
            self.wf(),
        ensures
            r.wf(),
            r.spec_prefix() == subprefix.key_spec(),
            r.remaining() == listing(restrict_from(self.model(), subprefix.key_spec())),
    {
        let prefix = subprefix.key_bytes();
        let entries = self.iter_bytes(prefix.as_slice());
        Iter { entries, pos: 0, prefix, ended: false, _k: PhantomData, _v: PhantomData }
    }

    /// The entries whose keys start with `subprefix`, in key order, from the
    /// key `from` on.
    pub fn iter_from<P: BinaryKey, F: BinaryKey, K: BinaryKey, V: BinaryValue>(&self, subprefix: &P, from: &F) -> (r: Iter<K, V>)
        requires
            self.wf(),
        ensures
            r.wf(),
            r.spec_prefix() == subprefix.key_spec(),
            r.remaining() == listing(restrict_from(self.model(), from.key_spec())),
    {
        let prefix = subprefix.key_bytes();
        let start = from.key_bytes();
        let entries = self.iter_bytes(start.as_slice());
        Iter { entries, pos: 0, prefix, ended: false, _k: PhantomData, _v: PhantomData }
    }

    /// Stores `value` under `key` where the view is writable; otherwise the
    /// write is dropped. Returns whether it was kept.
    pub fn put_or_forget<K: BinaryKey, V: BinaryValue>(&mut self, key: &K, value: V) -> (r: bool)
        requires
            old(self).wf(),
        ensures
            final(self).wf(),
            r == old(self).writable(),
            final(self).writable() == old(self).writable(),
            final(self).address_prefix() == old(self).address_prefix(),
            final(self).base_snapshot() == old(self).base_snapshot(),
            r ==> final(self).model() == old(self).model().insert(key.key_spec(), value.encode_spec()),
            !r ==> final(self).model() == old(self).model(),
    {
        let writable = match self {
            View::Real(inner) => inner.writable,
            View::Phantom => false,
        };
        if writable {
            self.put(key, value);
        }
        writable
    }

    /// The overlay of a writable view.
    fn changes_mut(&mut self) -> (r: &mut ViewChanges)
        requires
            old(self).wf(),
            old(self).writable(),
        ensures
            *r == old(self).overlay().unwrap(),
            r.wf(),
            final(self).overlay() == Some(*final(r)),
            final(self).writable() == old(self).writable(),
            final(self).address_prefix() == old(self).address_prefix(),
            final(self).base_snapshot() == old(self).base_snapshot(),
            final(self).wf() <== final(r).wf(),
    {
        match self {
            View::Real(inner) => match &mut inner.changes {
                Some(ch) => ch,
                None => vstd::pervasive::unreached(),
            },
            View::Phantom => vstd::pervasive::unreached(),
        }
    }

    /// Stores the bytes `value` under the raw key `key`.
    pub fn put_bytes(&mut self, key: Vec<u8>, value: Vec<u8>)
        requires
            old(self).wf(),
            old(self).writable(),
        ensures
            final(self).wf(),
            final(self).writable(),
            final(self).address_prefix() == old(self).address_prefix(),
            final(self).base_snapshot() == old(self).base_snapshot(),
            final(self).model() == old(self).model().insert(key@, value@),
    {
        let ghost k = key@;
        let ghost v = value@;
        let ch = self.changes_mut();
        ch.put(key, value);
        assert(self.model() =~= old(self).model().insert(k, v));
    }

    /// Stores `value` under `key`.
    pub fn put<K: BinaryKey, V: BinaryValue>(&mut self, key: &K, value: V)
        requires
            old(self).wf(),
            old(self).writable(),
        ensures
            final(self).wf(),
            final(self).writable(),
            final(self).address_prefix() == old(self).address_prefix(),
            final(self).base_snapshot() == old(self).base_snapshot(),
            final(self).model() == old(self).model().insert(key.key_spec(), value.encode_spec()),
    {
        let k = key.key_bytes();
        let v = value.to_bytes();
        self.put_bytes(k, v);
    }

    /// Removes the value under `key`.
    pub fn remove<K: BinaryKey>(&mut self, key: &K)
        requires
            old(self).wf(),
            old(self).writable(),
        ensures
            final(self).wf(),
            final(self).writable(),
            final(self).address_prefix() == old(self).address_prefix(),
            final(self).base_snapshot() == old(self).base_snapshot(),
            final(self).model() == old(self).model().remove(key.key_spec()),
    {
        let k = key.key_bytes();
        let ghost kv = k@;
        let ch = self.changes_mut();
        ch.remove(k);
        assert(self.model() =~= old(self).model().remove(kv));
    }

    /// Removes every value of the collection.
    pub fn clear(&mut self)
        requires
            old(self).wf(),
            old(self).writable(),
        ensures
            final(self).wf(),
            final(self).writable(),
            final(self).address_prefix() == old(self).address_prefix(),
            final(self).base_snapshot() == old(self).base_snapshot(),
            final(self).model() == Map::<Seq<u8>, Seq<u8>>::empty(),
    {
        let ch = self.changes_mut();
        ch.clear();
        assert(self.model() =~= Map::<Seq<u8>, Seq<u8>>::empty());
    }
}

/// The entries of a view from a start key on, read in key order while their
/// keys keep a prefix.
pub struct Iter<K, V> {
    entries: Vec<(Vec<u8>, Vec<u8>)>,
    pos: usize,
    prefix: Vec<u8>,
    ended: bool,
    _k: PhantomData<K>,
    _v: PhantomData<V>,
}

impl<K, V> Iter<K, V> {
    pub closed spec fn spec_prefix(&self) -> Seq<u8> {
        self.prefix@
    }

    /// The entries not yet read, before the prefix test.
    pub closed spec fn remaining(&self) -> Seq<(Seq<u8>, Seq<u8>)> {
        if self.ended {
            Seq::empty()
        } else {
            entries_view(self.entries@).skip(self.pos as int)
        }
    }

    pub closed spec fn wf(&self) -> bool {
        self.pos <= self.entries@.len()
    }

    /// Keeps the position, reading keys as `()`.
    pub fn drop_key_type(self) -> (r: Iter<(), V>)
        ensures
            r.wf() == self.wf(),
            r.spec_prefix() == self.spec_prefix(),
            r.remaining() == self.remaining(),
    {
        Iter { entries: self.entries, pos: self.pos, prefix: self.prefix, ended: self.ended, _k: PhantomData, _v: PhantomData }
    }

    /// Keeps the position, reading values as `()`.
    pub fn drop_value_type(self) -> (r: Iter<K, ()>)
        ensures
            r.wf() == self.wf(),
            r.spec_prefix() == self.spec_prefix(),
            r.remaining() == self.remaining(),
    {
        Iter { entries: self.entries, pos: self.pos, prefix: self.prefix, ended: self.ended, _k: PhantomData, _v: PhantomData }
    }

    /// Takes the next entry as raw bytes, if its key has the prefix.
    pub fn next_bytes(&mut self) -> (r: Option<(Vec<u8>, Vec<u8>)>)
        requires
            old(self).wf(),
        ensures
            final(self).wf(),
            final(self).spec_prefix() == old(self).spec_prefix(),
            ({
                let rem = old(self).remaining();
                if rem.len() > 0 && has_prefix(rem[0].0, old(self).spec_prefix()) {
                    &&& r is Some
                    &&& r.unwrap().0@ == rem[0].0
                    &&& r.unwrap().1@ == rem[0].1
                    &&& final(self).remaining() == rem.drop_first()
                } else {
                    &&& r is None
                    &&& final(self).remaining() == Seq::<(Seq<u8>, Seq<u8>)>::empty()
                }
            }),
    {
        if !self.ended && self.pos < self.entries.len() {
            let ghost rem = self.remaining();
            let e = &self.entries[self.pos];
            assert(rem[0] == (e.0@, e.1@));
            if starts_with(e.0.as_slice(), self.prefix.as_slice()) {
                let r = (copy_bytes(e.0.as_slice()), copy_bytes(e.1.as_slice()));
                self.pos = self.pos + 1;
                assert(self.remaining() =~= rem.drop_first());
                return Some(r);
            }
        }
        self.ended = true;
        None
    }
}

impl<K: BinaryKey, V: BinaryValue> Iter<K, V> {
    /// The next entry decodes, if there is one with the prefix.
    pub open spec fn next_decodes(&self) -> bool {
        let rem = self.remaining();
        rem.len() > 0 && has_prefix(rem[0].0, self.spec_prefix())
            ==> K::read_spec(rem[0].0) is Some && V::decode_spec(rem[0].1) is Some
    }

    /// Takes the next entry, decoded, if its key has the prefix.
    pub fn next(&mut self) -> (r: Option<(K, V)>)
        requires
            old(self).wf(),
            old(self).next_decodes(),
        ensures
            final(self).wf(),
            final(self).spec_prefix() == old(self).spec_prefix(),
            ({
                let rem = old(self).remaining();
                if rem.len() > 0 && has_prefix(rem[0].0, old(self).spec_prefix()) {
                    &&& r == Some((K::read_spec(rem[0].0).unwrap(), V::decode_spec(rem[0].1).unwrap()))
                    &&& final(self).remaining() == rem.drop_first()
                } else {
                    &&& r is None
                    &&& final(self).remaining() == Seq::<(Seq<u8>, Seq<u8>)>::empty()
                }
            }),
    {
        match self.next_bytes() {
            Some((k, v)) => {
                let key = K::read(k.as_slice());
                let value = V::from_bytes(v.as_slice());
                match (key, value) {
                    (Some(key), Some(value)) => Some((key, value)),
                    _ => None,
                }
            },
            None => None,
        }
    }
}

} // verus!
