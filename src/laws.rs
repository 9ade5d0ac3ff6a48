//! Properties that relate several operations of the store.

use crate::address::{IndexAddress, collection_prefix, lemma_collection_prefix_free, overlapping};
use crate::bytes::{has_prefix, lemma_lex_transitive, lemma_prefix_run, lex_le, lex_lt};
use crate::sorted_map::{keys_sorted, lemma_listing, lemma_map_of, listing, map_of};
use crate::view::restrict_from;
use crate::changes::{Change, ViewChanges, change_value};
use crate::db::{IndexType, applied, registered, registry_record, with_collection};
use crate::view::{merged_model, resolve_in};
use crate::codec::{lemma_u64_be_order, u64_be};
use crate::db::lemma_restrict_empty;
use vstd::prelude::*;

verus! {

/// Where the overlay holds a change for a key, a view reads the change,
/// whatever the snapshot holds there.
pub proof fn lemma_overlay_precedence(snapshot: Map<Seq<u8>, Seq<u8>>, p: Seq<u8>, ch: ViewChanges, k: Seq<u8>)
    requires
        ch.changes().contains_key(k),
    ensures
        resolve_in(snapshot, p, Some(ch), k) == change_value(ch.changes()[k]),
        merged_model(snapshot, p, Some(ch)).contains_key(k) == (ch.changes()[k] is Put),
        ch.changes()[k] is Put ==> merged_model(snapshot, p, Some(ch))[k] == change_value(ch.changes()[k]).unwrap(),
{
}

/// After a clear and a put of `v` at `k`, a view holds exactly `k` with `v`,
/// whatever the snapshot held.
pub proof fn lemma_clear_then_put(snapshot: Map<Seq<u8>, Seq<u8>>, p: Seq<u8>, ch: ViewChanges, k: Seq<u8>, v: Vec<u8>)
    requires
        ch.spec_cleared(),
        ch.changes() == Map::<Seq<u8>, Change>::empty().insert(k, Change::Put(v)),
    ensures
        merged_model(snapshot, p, Some(ch)) == Map::<Seq<u8>, Seq<u8>>::empty().insert(k, v@),
{
    assert(merged_model(snapshot, p, Some(ch)) =~= Map::<Seq<u8>, Seq<u8>>::empty().insert(k, v@));
}

proof fn lemma_common_key(x: Seq<u8>, a: Seq<u8>, b: Seq<u8>)
    requires
        has_prefix(x, a),
        has_prefix(x, b),
    ensures
        overlapping(a, b),
{
    if a.len() <= b.len() {
        assert(b.subrange(0, a.len() as int) =~= x.subrange(0, b.len() as int).subrange(0, a.len() as int));
        assert(x.subrange(0, a.len() as int) =~= x.subrange(0, b.len() as int).subrange(0, a.len() as int));
    } else {
        assert(a.subrange(0, b.len() as int) =~= x.subrange(0, a.len() as int).subrange(0, b.len() as int));
        assert(x.subrange(0, b.len() as int) =~= x.subrange(0, a.len() as int).subrange(0, b.len() as int));
    }
}

/// Two distinct collections share no key of the flat key space: replacing
/// everything one of them holds leaves every view of the other as it was.
pub proof fn lemma_prefix_isolation(
    snapshot: Map<Seq<u8>, Seq<u8>>,
    n1: Seq<u8>,
    g1: Option<Seq<u8>>,
    n2: Seq<u8>,
    g2: Option<Seq<u8>>,
    replacement: Map<Seq<u8>, Seq<u8>>,
    overlay: Option<ViewChanges>,
)
    requires
        n1.len() <= u64::MAX,
        n2.len() <= u64::MAX,
        g1 is Some ==> g1.unwrap().len() <= u64::MAX,
        g2 is Some ==> g2.unwrap().len() <= u64::MAX,
        n1 != n2 || g1 != g2,
    ensures
        merged_model(with_collection(snapshot, collection_prefix(n1, g1), replacement), collection_prefix(n2, g2), overlay)
            == merged_model(snapshot, collection_prefix(n2, g2), overlay),
{
    let p1 = collection_prefix(n1, g1);
    let p2 = collection_prefix(n2, g2);
    let changed = with_collection(snapshot, p1, replacement);
    assert forall|k: Seq<u8>| !#[trigger] has_prefix(p2 + k, p1) by {
        assert((p2 + k).subrange(0, p2.len() as int) =~= p2);
        if has_prefix(p2 + k, p1) {
            lemma_common_key(p2 + k, p1, p2);
            lemma_collection_prefix_free(n1, g1, n2, g2);
        }
    }
    assert forall|k: Seq<u8>| #![auto] resolve_in(changed, p2, overlay, k) == resolve_in(snapshot, p2, overlay, k) by {
        assert(!has_prefix(p2 + k, p1));
    }
    assert(merged_model(changed, p2, overlay) =~= merged_model(snapshot, p2, overlay));
}

/// Once a name is bound to a kind, the registry reports that kind for it:
/// opening it again as that kind succeeds and as any other kind fails with a
/// type mismatch, by the contract of `Fork::resolve`.
pub proof fn lemma_type_binding(reg: Map<Seq<u8>, Seq<u8>>, key: Seq<u8>, ty: IndexType, display: Seq<u8>, other: Seq<u8>)
    requires
        other != key,
    ensures
        registered(reg.insert(key, registry_record(ty, display)), key) == Some(Some(ty)),
        registered(reg.insert(key, registry_record(ty, display)), other) == registered(reg, other),
{
    assert(registry_record(ty, display)[0] == ty.spec_tag());
}

/// Committing a collection's overlay makes the snapshot read, at that
/// collection, what the view over the overlay read before the commit.
pub proof fn lemma_commit_keeps_view(snapshot: Map<Seq<u8>, Seq<u8>>, p: Seq<u8>, ch: ViewChanges)
    ensures
        merged_model(applied(snapshot, p, ch), p, None) == merged_model(snapshot, p, Some(ch)),
{
    assert forall|k: Seq<u8>| #![auto] resolve_in(applied(snapshot, p, ch), p, None, k) == resolve_in(snapshot, p, Some(ch), k) by {
        assert((p + k).subrange(0, p.len() as int) =~= p);
        assert((p + k).subrange(p.len() as int, (p + k).len() as int) =~= k);
    }
    assert(merged_model(applied(snapshot, p, ch), p, None) =~= merged_model(snapshot, p, Some(ch)));
}

/// Iterating from a sub-prefix: the entries whose keys have the sub-prefix
/// come first and are all of the collection's entries with it, so stopping
/// at the first key without it misses none and shows nothing else.
pub proof fn lemma_prefix_iteration(m: Map<Seq<u8>, Seq<u8>>, p: Seq<u8>, e: Seq<(Seq<u8>, Seq<u8>)>)
    requires
        keys_sorted(e),
        map_of(e) == restrict_from(m, p),
    ensures
        forall|i: int, j: int| 0 <= i < j < e.len() && has_prefix(#[trigger] e[j].0, p) ==> has_prefix(#[trigger] e[i].0, p),
        forall|k: Seq<u8>| #[trigger] m.contains_key(k) && has_prefix(k, p) ==> exists|i: int| 0 <= i < e.len() && e[i].0 == k,
{
    lemma_map_of(e);
    assert forall|i: int, j: int| 0 <= i < j < e.len() && has_prefix(#[trigger] e[j].0, p) implies has_prefix(#[trigger] e[i].0, p) by {
        assert(map_of(e).contains_key(e[i].0));
        assert(lex_le(p, e[i].0));
        lemma_prefix_run(p, e[i].0, e[j].0);
    }
    assert forall|k: Seq<u8>| #[trigger] m.contains_key(k) && has_prefix(k, p) implies exists|i: int| 0 <= i < e.len() && e[i].0 == k by {
        if k.len() == p.len() {
            assert(k =~= k.subrange(0, p.len() as int));
        } else {
            crate::bytes::lemma_lex_prefix_lt(p, k.subrange(p.len() as int, k.len() as int));
            assert(p + k.subrange(p.len() as int, k.len() as int) =~= k);
        }
        assert(restrict_from(m, p).contains_key(k));
    }
}

/// Prefix isolation for two distinct collection addresses: replacing all
/// that one holds leaves every view of the other as it was.
pub proof fn lemma_address_isolation(
    snapshot: Map<Seq<u8>, Seq<u8>>,
    a1: IndexAddress,
    a2: IndexAddress,
    replacement: Map<Seq<u8>, Seq<u8>>,
    overlay: Option<ViewChanges>,
)
    requires
        a1.spec_name() != a2.spec_name() || a1.spec_group() != a2.spec_group(),
    ensures
        merged_model(with_collection(snapshot, a1.spec_prefix(), replacement), a2.spec_prefix(), overlay)
            == merged_model(snapshot, a2.spec_prefix(), overlay),
{
    a1.lemma_lengths();
    a2.lemma_lengths();
    lemma_prefix_isolation(snapshot, a1.spec_name(), a1.spec_group(), a2.spec_name(), a2.spec_group(), replacement, overlay);
}

/// Resuming iteration at a key already listed goes on from that entry:
/// listing from the `i`-th key gives the listing without its first `i`
/// entries, so reads in chunks, each resumed at the first key not yet read,
/// concatenate to the whole listing with nothing skipped or repeated.
pub proof fn lemma_iter_resume(m: Map<Seq<u8>, Seq<u8>>, from: Seq<u8>, e: Seq<(Seq<u8>, Seq<u8>)>, i: int)
    requires
        keys_sorted(e),
        map_of(e) == restrict_from(m, from),
        0 <= i < e.len(),
    ensures
        listing(restrict_from(m, e[i].0)) == e.skip(i),
        e.take(i) + listing(restrict_from(m, e[i].0)) == e,
{
    let t = e.skip(i);
    let key = e[i].0;
    assert(keys_sorted(t)) by {
        assert forall|a: int, b: int| 0 <= a < b < t.len() implies lex_lt(#[trigger] t[a].0, #[trigger] t[b].0) by {
            assert(t[a] == e[a + i] && t[b] == e[b + i]);
        }
    }
    lemma_map_of(e);
    lemma_map_of(t);
    assert(map_of(e).contains_key(key));
    let r = restrict_from(m, key);
    assert(map_of(t) =~= r) by {
        assert forall|k: Seq<u8>| #[trigger] map_of(t).contains_key(k) implies r.contains_key(k) && map_of(t)[k] == r[k] by {
            let j = choose|j: int| 0 <= j < t.len() && t[j].0 == k;
            assert(e[j + i].0 == k);
            assert(map_of(e).contains_key(k));
            if j > 0 {
                assert(lex_lt(e[i].0, e[j + i].0));
            }
        }
        assert forall|k: Seq<u8>| #[trigger] r.contains_key(k) implies map_of(t).contains_key(k) by {
            assert(lex_le(from, key));
            if k != key {
                if from != key {
                    lemma_lex_transitive(from, key, k);
                }
            }
            assert(lex_le(from, k));
            assert(map_of(e).contains_key(k));
            let j = choose|j: int| 0 <= j < e.len() && e[j].0 == k;
            if j < i {
                assert(lex_lt(e[j].0, e[i].0));
                crate::bytes::lemma_lex_asymmetric(e[j].0, e[i].0);
                crate::bytes::lemma_lex_irreflexive(k);
            }
            assert(t[j - i].0 == k);
        }
    }
    lemma_listing(t);
    assert(e.take(i) + t =~= e);
}

/// A list's entries: value `xs[j]` at the big-endian key of position `j`.
pub open spec fn list_entries(xs: Seq<Seq<u8>>) -> Seq<(Seq<u8>, Seq<u8>)> {
    Seq::new(xs.len(), |j: int| (u64_be(j as u64), xs[j]))
}

/// A list is listed in position order, and listing it from position `j`
/// gives the values from `j` on: reads in chunks from successive positions
/// concatenate to the list with nothing skipped or repeated.
pub proof fn lemma_list_listing(xs: Seq<Seq<u8>>, j: int)
    requires
        xs.len() <= u64::MAX,
        0 <= j < xs.len(),
    ensures
        keys_sorted(list_entries(xs)),
        listing(map_of(list_entries(xs))) == list_entries(xs),
        listing(restrict_from(map_of(list_entries(xs)), u64_be(j as u64))) == list_entries(xs).skip(j),
{
    let e = list_entries(xs);
    assert(keys_sorted(e)) by {
        assert forall|a: int, b: int| 0 <= a < b < e.len() implies lex_lt(#[trigger] e[a].0, #[trigger] e[b].0) by {
            lemma_u64_be_order(a as u64, b as u64);
        }
    }
    lemma_listing(e);
    lemma_restrict_empty(map_of(e));
    lemma_iter_resume(map_of(e), Seq::<u8>::empty(), e, j);
}

/// A sorted listing of a collection lists each key it holds once, with its
/// value, and nothing else: what is put is what iteration reads back.
pub proof fn lemma_listing_holds(m: Map<Seq<u8>, Seq<u8>>, e: Seq<(Seq<u8>, Seq<u8>)>, k: Seq<u8>)
    requires
        keys_sorted(e),
        map_of(e) == m,
    ensures
        m.contains_key(k) ==> exists|i: int| 0 <= i < e.len() && e[i] == (k, m[k]),
        forall|i: int| 0 <= i < e.len() ==> m.contains_key(#[trigger] e[i].0) && m[e[i].0] == e[i].1,
        forall|i: int, j: int| 0 <= i < j < e.len() ==> #[trigger] e[i].0 != #[trigger] e[j].0,
{
    lemma_map_of(e);
    if m.contains_key(k) {
        let i = choose|i: int| 0 <= i < e.len() && e[i].0 == k;
        assert(e[i] == (k, m[k]));
    }
    assert forall|i: int, j: int| 0 <= i < j < e.len() implies #[trigger] e[i].0 != #[trigger] e[j].0 by {
        crate::bytes::lemma_lex_irreflexive(e[i].0);
    }
}

} // verus!
