//! Resumable cursors: each keeps, in a session's scratchpad, the last key it
//! handed out, so iteration goes on where it stopped across transactions.

use crate::address::{ResolvedAddress, scratchpad_prefix};
use crate::bytes::{concat, copy_bytes, lemma_lex_asymmetric, lemma_lex_irreflexive, lemma_lex_prefix_lt, lemma_lex_successor, lex_le, lex_lt};
use crate::db::Fork;
use crate::sorted_map::{entries_view, keys_sorted, lemma_listing, lemma_map_of, listing, map_of};
use crate::view::restrict_from;
use vstd::prelude::*;
use vstd::string::StringSliceAdditionalSpecFns;
use vstd::view::View as ModelView;

verus! {

/// The last key a cursor record says was handed out; a record that is
/// absent or does not decode means none was.
pub open spec fn cursor_last(rec: Option<Seq<u8>>) -> Option<Seq<u8>> {
    match rec {
        Some(b) => if b.len() > 0 && b[0] == 1 {
            Some(b.subrange(1, b.len() as int))
        } else {
            None
        },
        None => None,
    }
}

/// The record of a cursor whose last key is `k`.
pub open spec fn cursor_record(k: Seq<u8>) -> Seq<u8> {
    seq![1u8] + k
}

/// Where a cursor resumes: the least key above the last one handed out.
pub open spec fn resume_from(last: Option<Seq<u8>>) -> Seq<u8> {
    match last {
        Some(k) => k.push(0),
        None => Seq::empty(),
    }
}

/// What one advance by `n` hands out: the next `n` entries after `last`.
pub open spec fn step(c: Map<Seq<u8>, Seq<u8>>, last: Option<Seq<u8>>, n: nat) -> Seq<(Seq<u8>, Seq<u8>)> {
    let rest = listing(restrict_from(c, resume_from(last)));
    rest.take(if n < rest.len() { n as int } else { rest.len() as int })
}

/// The cursor's last key after handing out `out`.
pub open spec fn last_after(out: Seq<(Seq<u8>, Seq<u8>)>, last: Option<Seq<u8>>) -> Option<Seq<u8>> {
    if out.len() > 0 {
        Some(out.last().0)
    } else {
        last
    }
}

/// Everything a cursor hands out over advances by `ns`, in turn.
pub open spec fn run(c: Map<Seq<u8>, Seq<u8>>, last: Option<Seq<u8>>, ns: Seq<nat>) -> Seq<(Seq<u8>, Seq<u8>)>
    decreases ns.len(),
{
    if ns.len() == 0 {
        Seq::empty()
    } else {
        let out = step(c, last, ns[0]);
        out + run(c, last_after(out, last), ns.drop_first())
    }
}

pub open spec fn total(ns: Seq<nat>) -> nat
    decreases ns.len(),
{
    if ns.len() == 0 {
        0
    } else {
        ns[0] + total(ns.drop_first())
    }
}

/// The last key handed out after the first `p` entries of `e`.
pub open spec fn position_last(e: Seq<(Seq<u8>, Seq<u8>)>, p: int) -> Option<Seq<u8>> {
    if p == 0 {
        None
    } else {
        Some(e[p - 1].0)
    }
}

/// A cursor that has handed out the first `p` entries resumes at entry `p`.
pub proof fn lemma_resume(e: Seq<(Seq<u8>, Seq<u8>)>, p: int)
    requires
        keys_sorted(e),
        0 <= p <= e.len(),
    ensures
        listing(restrict_from(map_of(e), resume_from(position_last(e, p)))) == e.skip(p),
{
    let t = e.skip(p);
    let from = resume_from(position_last(e, p));
    assert(keys_sorted(t)) by {
        assert forall|i: int, j: int| 0 <= i < j < t.len() implies lex_lt(#[trigger] t[i].0, #[trigger] t[j].0) by {
            assert(t[i] == e[i + p] && t[j] == e[j + p]);
        }
    }
    lemma_map_of(e);
    lemma_map_of(t);
    // Which entries of `e` lie at or above `from`.
    assert forall|i: int| 0 <= i < e.len() implies (lex_le(from, #[trigger] e[i].0) <==> i >= p) by {
        if p == 0 {
            if e[i].0.len() > 0 {
                lemma_lex_prefix_lt(Seq::<u8>::empty(), e[i].0);
                assert(Seq::<u8>::empty() + e[i].0 =~= e[i].0);
            } else {
                assert(e[i].0 =~= Seq::<u8>::empty());
            }
        } else {
            let l = e[p - 1].0;
            lemma_lex_successor(l, e[i].0);
            if i < p - 1 {
                assert(lex_lt(e[i].0, l));
                lemma_lex_asymmetric(e[i].0, l);
            } else if i == p - 1 {
                lemma_lex_irreflexive(l);
            } else {
                assert(lex_lt(l, e[i].0));
            }
        }
    }
    let m = restrict_from(map_of(e), from);
    assert(map_of(t) =~= m) by {
        assert forall|k: Seq<u8>| #[trigger] map_of(t).contains_key(k) implies m.contains_key(k) && map_of(t)[k] == m[k] by {
            let i = choose|i: int| 0 <= i < t.len() && t[i].0 == k;
            assert(e[i + p].0 == k);
        }
        assert forall|k: Seq<u8>| #[trigger] m.contains_key(k) implies map_of(t).contains_key(k) by {
            let i = choose|i: int| 0 <= i < e.len() && e[i].0 == k;
            assert(t[i - p].0 == k);
        }
    }
    lemma_listing(t);
}

proof fn lemma_run_from(e: Seq<(Seq<u8>, Seq<u8>)>, p: int, ns: Seq<nat>)
    requires
        keys_sorted(e),
        0 <= p <= e.len(),
    ensures
        run(map_of(e), position_last(e, p), ns) == e.subrange(p, if p + total(ns) < e.len() { p + total(ns) } else { e.len() as int }),
    decreases ns.len(),
{
    if ns.len() == 0 {
        assert(e.subrange(p, p) =~= Seq::<(Seq<u8>, Seq<u8>)>::empty());
    } else {
        lemma_resume(e, p);
        let n = ns[0] as int;
        let m = if n < e.len() - p { n } else { e.len() - p };
        let out = step(map_of(e), position_last(e, p), ns[0]);
        assert(out =~= e.subrange(p, p + m));
        assert(last_after(out, position_last(e, p)) == position_last(e, p + m));
        lemma_run_from(e, p + m, ns.drop_first());
        let end = if p + total(ns) < e.len() { p + total(ns) } else { e.len() as int };
        let end2 = if p + m + total(ns.drop_first()) < e.len() { p + m + total(ns.drop_first()) } else { e.len() as int };
        assert(end2 == end);
        assert(e.subrange(p, p + m) + e.subrange(p + m, end2) =~= e.subrange(p, end));
    }
}

/// For a fixed collection, whatever the amounts asked for, the entries a new
/// cursor hands out, concatenated, are the collection's entries in key order
/// up to the total asked for: none is skipped, none comes twice.
pub proof fn lemma_no_skip_no_duplicate(e: Seq<(Seq<u8>, Seq<u8>)>, ns: Seq<nat>)
    requires
        keys_sorted(e),
    ensures
        run(map_of(e), None, ns) == e.take(if total(ns) < e.len() { total(ns) as int } else { e.len() as int }),
{
    lemma_run_from(e, 0, ns);
    assert(e.subrange(0, if total(ns) < e.len() { total(ns) as int } else { e.len() as int })
        =~= e.take(if total(ns) < e.len() { total(ns) as int } else { e.len() as int }));
}

/// One advance by `n` of the cursor recorded under `key` in scratchpad `s`,
/// over collection `c`: what it hands out, and the scratchpad after it.
pub open spec fn advance_spec(c: Map<Seq<u8>, Seq<u8>>, s: Map<Seq<u8>, Seq<u8>>, key: Seq<u8>, n: nat) -> (Seq<(Seq<u8>, Seq<u8>)>, Map<Seq<u8>, Seq<u8>>) {
    let out = step(c, cursor_last(record_at(s, key)), n);
    (out, if out.len() > 0 {
        s.insert(key, cursor_record(out.last().0))
    } else {
        s
    })
}

/// Advancing one cursor does not change what another hands out: after an
/// advance of `key`, an advance of `other` (over any collection) hands out
/// what it would have, and leaves the same record for `other`.
pub proof fn lemma_cursor_independence(
    c1: Map<Seq<u8>, Seq<u8>>,
    c2: Map<Seq<u8>, Seq<u8>>,
    s: Map<Seq<u8>, Seq<u8>>,
    key: Seq<u8>,
    other: Seq<u8>,
    n: nat,
    m: nat,
)
    requires
        key != other,
    ensures
        ({
            let after = advance_spec(c1, s, key, n).1;
            &&& advance_spec(c2, after, other, m).0 == advance_spec(c2, s, other, m).0
            &&& record_at(advance_spec(c2, after, other, m).1, other) == record_at(advance_spec(c2, s, other, m).1, other)
            &&& record_at(advance_spec(c2, after, other, m).1, key) == record_at(after, key)
        }),
{
    let after = advance_spec(c1, s, key, n).1;
    assert(record_at(after, other) == record_at(s, other));
}

/// The record stored under `key` in a scratchpad, if any.
pub open spec fn record_at(s: Map<Seq<u8>, Seq<u8>>, key: Seq<u8>) -> Option<Seq<u8>> {
    if s.contains_key(key) {
        Some(s[key])
    } else {
        None
    }
}

/// The cursors of one iteration session.
pub struct Scratchpad {
    address: ResolvedAddress,
}

impl Scratchpad {
    pub open spec fn spec_prefix(&self) -> Seq<u8> {
        self.spec_address()@
    }

    pub closed spec fn spec_address(&self) -> ResolvedAddress {
        self.address
    }

    /// The scratchpad of session `name`.
    pub fn new(name: &str) -> (r: Self)
        ensures
            r.spec_prefix() == scratchpad_prefix(name.spec_bytes()),
    {
        Scratchpad { address: ResolvedAddress::scratchpad(name) }
    }

    /// Hands out up to `n` further entries of the collection at `address`,
    /// for the cursor `cursor`, and records the last key handed out.
    pub fn advance<'a>(&self, fork: &mut Fork<'a>, cursor: &str, address: &ResolvedAddress, n: usize) -> (r: Vec<(Vec<u8>, Vec<u8>)>)
        requires
            old(fork).wf(),
            address@ != self.spec_prefix(),
        ensures
            final(fork).wf(),
            final(fork).base() == old(fork).base(),
            ({
                let c = old(fork).collection(address@);
                let s = old(fork).collection(self.spec_prefix());
                let key = cursor.spec_bytes();
                &&& entries_view(r@) == advance_spec(c, s, key, n as nat).0
                &&& final(fork).collection(self.spec_prefix()) == advance_spec(c, s, key, n as nat).1
            }),
            forall|p: Seq<u8>| p != self.spec_prefix() ==> #[trigger] final(fork).collection(p) == old(fork).collection(p),
    {
        let key = copy_bytes(cursor.as_bytes());
        let sv = fork.view(&self.address);
        let rec = sv.get_bytes(key.as_slice());
        fork.release(sv);
        let from: Vec<u8> = match &rec {
            Some(b) => {
                if b.len() > 0 && b[0] == 1u8 {
                    let mut k = crate::bytes::strip_prefix(b.as_slice(), 1);
                    k.push(0u8);
                    k
                } else {
                    Vec::new()
                }
            },
            None => Vec::new(),
        };
        proof {
            assert(from@ =~= resume_from(cursor_last(record_at(old(fork).collection(self.spec_prefix()), key@))));
        }
        let cv = fork.view(address);
        let mut entries = cv.iter_bytes(from.as_slice());
        fork.release(cv);
        let m: usize = if n < entries.len() {
            n
        } else {
            entries.len()
        };
        let ghost full = entries_view(entries@);
        entries.truncate(m);
        assert(entries_view(entries@) =~= full.take(m as int));
        if m > 0 {
            let last_key = &entries[m - 1].0;
            let head: Vec<u8> = vec![1u8];
            let record = concat(head.as_slice(), last_key.as_slice());
            assert(head@ =~= seq![1u8]);
            let mut sv2 = fork.view(&self.address);
            sv2.put_bytes(key, record);
            fork.release(sv2);
        }
        entries
    }

    /// Discards every cursor of the session.
    pub fn rollback<'a>(&self, fork: &mut Fork<'a>)
        requires
            old(fork).wf(),
        ensures
            final(fork).wf(),
            final(fork).base() == old(fork).base(),
            final(fork).collection(self.spec_prefix()) == Map::<Seq<u8>, Seq<u8>>::empty(),
            forall|p: Seq<u8>| p != self.spec_prefix() ==> #[trigger] final(fork).collection(p) == old(fork).collection(p),
    {
        let mut sv = fork.view(&self.address);
        sv.clear();
        fork.release(sv);
    }
}

/// What successive advances by `ns` of the cursor `key` hand out, in turn,
/// over an unchanging collection `c`.
pub open spec fn advances(c: Map<Seq<u8>, Seq<u8>>, s: Map<Seq<u8>, Seq<u8>>, key: Seq<u8>, ns: Seq<nat>) -> Seq<(Seq<u8>, Seq<u8>)>
    decreases ns.len(),
{
    if ns.len() == 0 {
        Seq::empty()
    } else {
        let (out, s2) = advance_spec(c, s, key, ns[0]);
        out + advances(c, s2, key, ns.drop_first())
    }
}

/// Successive advances of a cursor, through the records they leave in the
/// scratchpad, hand out what `run` describes; a fresh cursor, with no
/// record, therefore hands out the collection in order without skipping or
/// repeating anything (`lemma_no_skip_no_duplicate`).
pub proof fn lemma_advances_run(c: Map<Seq<u8>, Seq<u8>>, s: Map<Seq<u8>, Seq<u8>>, key: Seq<u8>, ns: Seq<nat>)
    ensures
        advances(c, s, key, ns) == run(c, cursor_last(record_at(s, key)), ns),
    decreases ns.len(),
{
    if ns.len() > 0 {
        let last = cursor_last(record_at(s, key));
        let (out, s2) = advance_spec(c, s, key, ns[0]);
        if out.len() > 0 {
            let rec = cursor_record(out.last().0);
            assert(rec.subrange(1, rec.len() as int) =~= out.last().0);
            assert(record_at(s2, key) == Some(rec));
        }
        assert(cursor_last(record_at(s2, key)) == last_after(out, last));
        lemma_advances_run(c, s2, key, ns.drop_first());
    }
}

} // verus!
