//! A finite map from byte keys to values, held as a vector sorted by key.

use crate::bytes::{compare, lemma_lex_irreflexive, lemma_lex_transitive, lemma_lex_asymmetric, lex_lt};
use vstd::prelude::*;

verus! {

/// Keys strictly ascending, hence distinct.
pub open spec fn keys_sorted<V>(s: Seq<(Seq<u8>, V)>) -> bool {
    forall|i: int, j: int| 0 <= i < j < s.len() ==> lex_lt(#[trigger] s[i].0, #[trigger] s[j].0)
}

/// The value that the last entry with key `k` holds.
pub open spec fn lookup<V>(s: Seq<(Seq<u8>, V)>, k: Seq<u8>) -> Option<V>
    decreases s.len(),
{
    if s.len() == 0 {
        None
    } else if s.last().0 == k {
        Some(s.last().1)
    } else {
        lookup(s.drop_last(), k)
    }
}

/// The map that a sequence of entries describes.
pub open spec fn map_of<V>(s: Seq<(Seq<u8>, V)>) -> Map<Seq<u8>, V> {
    Map::new(|k: Seq<u8>| lookup(s, k) is Some, |k: Seq<u8>| lookup(s, k).unwrap())
}

proof fn lemma_lookup_in<V>(s: Seq<(Seq<u8>, V)>, k: Seq<u8>)
    requires
        keys_sorted(s),
    ensures
        lookup(s, k) is Some <==> exists|i: int| 0 <= i < s.len() && s[i].0 == k,
        forall|i: int| 0 <= i < s.len() && s[i].0 == k ==> lookup(s, k) == Some(s[i].1),
    decreases s.len(),
{
    if s.len() > 0 {
        let t = s.drop_last();
        assert(keys_sorted(t)) by {
            assert forall|i: int, j: int| 0 <= i < j < t.len() implies lex_lt(#[trigger] t[i].0, #[trigger] t[j].0) by {
                assert(t[i] == s[i] && t[j] == s[j]);
            }
        }
        lemma_lookup_in(t, k);
        if s.last().0 == k {
            assert(s[s.len() - 1].0 == k);
            assert forall|i: int| 0 <= i < s.len() && s[i].0 == k implies lookup(s, k) == Some(s[i].1) by {
                if i < s.len() - 1 {
                    assert(lex_lt(s[i].0, s[s.len() - 1].0));
                    lemma_lex_irreflexive(k);
                }
            }
        } else {
            if exists|i: int| 0 <= i < s.len() && s[i].0 == k {
                let i = choose|i: int| 0 <= i < s.len() && s[i].0 == k;
                assert(t[i].0 == k);
            }
            assert forall|i: int| 0 <= i < s.len() && s[i].0 == k implies lookup(s, k) == Some(s[i].1) by {
                assert(t[i] == s[i]);
            }
        }
    }
}

/// What `map_of` holds, entry by entry.
pub proof fn lemma_map_of<V>(s: Seq<(Seq<u8>, V)>)
    requires
        keys_sorted(s),
    ensures
        forall|i: int| 0 <= i < s.len() ==> map_of(s).contains_key(#[trigger] s[i].0) && map_of(s)[s[i].0] == s[i].1,
        forall|k: Seq<u8>| #[trigger] map_of(s).contains_key(k) ==> exists|i: int| 0 <= i < s.len() && s[i].0 == k,
{
    assert forall|i: int| 0 <= i < s.len() implies map_of(s).contains_key(#[trigger] s[i].0) && map_of(s)[s[i].0] == s[i].1 by {
        lemma_lookup_in(s, s[i].0);
    }
    assert forall|k: Seq<u8>| #[trigger] map_of(s).contains_key(k) implies exists|i: int| 0 <= i < s.len() && s[i].0 == k by {
        lemma_lookup_in(s, k);
    }
}

/// Two sorted sequences that describe the same map are the same sequence.
pub proof fn lemma_sorted_unique<V>(s: Seq<(Seq<u8>, V)>, t: Seq<(Seq<u8>, V)>)
    requires
        keys_sorted(s),
        keys_sorted(t),
        map_of(s) == map_of(t),
    ensures
        s == t,
    decreases s.len() + t.len(),
{
    lemma_map_of(s);
    lemma_map_of(t);
    if s.len() == 0 || t.len() == 0 {
        if s.len() > 0 {
            assert(map_of(t).contains_key(s[0].0));
        }
        if t.len() > 0 {
            assert(map_of(s).contains_key(t[0].0));
        }
        assert(s =~= t);
    } else {
        let a = s[0].0;
        let b = t[0].0;
        assert(map_of(t).contains_key(a));
        assert(map_of(s).contains_key(b));
        let i = choose|i: int| 0 <= i < t.len() && t[i].0 == a;
        let j = choose|j: int| 0 <= j < s.len() && s[j].0 == b;
        if a != b {
            assert(i > 0 && j > 0);
            assert(lex_lt(b, a));
            assert(lex_lt(a, b));
            lemma_lex_asymmetric(a, b);
        }
        assert(i == 0) by {
            if i > 0 {
                assert(lex_lt(t[0].0, t[i].0));
                lemma_lex_irreflexive(a);
            }
        }
        let s1 = s.drop_first();
        let t1 = t.drop_first();
        assert(keys_sorted(s1)) by {
            assert forall|x: int, y: int| 0 <= x < y < s1.len() implies lex_lt(#[trigger] s1[x].0, #[trigger] s1[y].0) by {
                assert(s1[x] == s[x + 1] && s1[y] == s[y + 1]);
            }
        }
        assert(keys_sorted(t1)) by {
            assert forall|x: int, y: int| 0 <= x < y < t1.len() implies lex_lt(#[trigger] t1[x].0, #[trigger] t1[y].0) by {
                assert(t1[x] == t[x + 1] && t1[y] == t[y + 1]);
            }
        }
        lemma_map_of(s1);
        lemma_map_of(t1);
        assert(map_of(s1) =~= map_of(t1)) by {
            assert forall|k: Seq<u8>| #[trigger] map_of(s1).contains_key(k) implies map_of(t1).contains_key(k) && map_of(s1)[k] == map_of(t1)[k] by {
                let x = choose|x: int| 0 <= x < s1.len() && s1[x].0 == k;
                assert(s[x + 1].0 == k);
                assert(map_of(t).contains_key(k));
                let y = choose|y: int| 0 <= y < t.len() && t[y].0 == k;
                assert(lex_lt(s[0].0, s[x + 1].0));
                if y == 0 {
                    lemma_lex_irreflexive(k);
                }
                assert(t1[y - 1].0 == k);
            }
            assert forall|k: Seq<u8>| #[trigger] map_of(t1).contains_key(k) implies map_of(s1).contains_key(k) by {
                let y = choose|y: int| 0 <= y < t1.len() && t1[y].0 == k;
                assert(t[y + 1].0 == k);
                assert(map_of(s).contains_key(k));
                let x = choose|x: int| 0 <= x < s.len() && s[x].0 == k;
                assert(lex_lt(t[0].0, t[y + 1].0));
                if x == 0 {
                    lemma_lex_irreflexive(k);
                }
                assert(s1[x - 1].0 == k);
            }
        }
        lemma_sorted_unique(s1, t1);
        assert(s[0].1 == map_of(s)[a]);
        assert(t[0].1 == map_of(t)[a]);
        assert(s =~= seq![s[0]] + s1);
        assert(t =~= seq![t[0]] + t1);
    }
}

/// The sorted listing of a map: the one sorted sequence of entries that
/// describes it, where there is one.
pub open spec fn listing<V>(m: Map<Seq<u8>, V>) -> Seq<(Seq<u8>, V)> {
    choose|s: Seq<(Seq<u8>, V)>| keys_sorted(s) && map_of(s) == m
}

/// A sorted sequence is the listing of the map it describes.
pub proof fn lemma_listing<V>(s: Seq<(Seq<u8>, V)>)
    requires
        keys_sorted(s),
    ensures
        listing(map_of(s)) == s,
{
    let t = listing(map_of(s));
    assert(keys_sorted(t) && map_of(t) == map_of(s));
    lemma_sorted_unique(t, s);
}

/// Entries sorted by key; no two with the same key.
pub struct SortedMap<V> {
    entries: Vec<(Vec<u8>, V)>,
}

impl<V> View for SortedMap<V> {
    type V = Seq<(Seq<u8>, V)>;

    closed spec fn view(&self) -> Seq<(Seq<u8>, V)> {
        self.entries@.map_values(|e: (Vec<u8>, V)| (e.0@, e.1))
    }
}

impl<V> SortedMap<V> {
    pub open spec fn wf(&self) -> bool {
        keys_sorted(self@)
    }

    /// The map that the entries describe.
    pub open spec fn model(&self) -> Map<Seq<u8>, V> {
        map_of(self@)
    }

    pub fn new() -> (r: Self)
        ensures
            r.wf(),
            r@ == Seq::<(Seq<u8>, V)>::empty(),
            r.model() == Map::<Seq<u8>, V>::empty(),
    {
        let r = SortedMap { entries: Vec::new() };
        assert(r@ =~= Seq::<(Seq<u8>, V)>::empty());
        assert(r.model() =~= Map::<Seq<u8>, V>::empty());
        r
    }

    pub fn len(&self) -> (r: usize)
        ensures
            r == self@.len(),
    {
        self.entries.len()
    }

    /// The entry at position `i` in key order.
    pub fn entry(&self, i: usize) -> (r: (&Vec<u8>, &V))
        requires
            i < self@.len(),
        ensures
            r.0@ == self@[i as int].0,
            *r.1 == self@[i as int].1,
    {
        let e = &self.entries[i];
        (&e.0, &e.1)
    }

    /// The position of `key`, or where it would go.
    pub fn find(&self, key: &[u8]) -> (r: (bool, usize))
        requires
            self.wf(),
        ensures
            r.1 <= self@.len(),
            r.0 ==> r.1 < self@.len() && self@[r.1 as int].0 == key@,
            forall|j: int| 0 <= j < r.1 ==> lex_lt(#[trigger] self@[j].0, key@),
            !r.0 ==> forall|j: int| r.1 <= j < self@.len() ==> lex_lt(key@, #[trigger] self@[j].0),
    {
        let mut i: usize = 0;
        while i < self.entries.len()
            invariant
                i <= self@.len(),
                self.wf(),
                self@.len() == self.entries@.len(),
                forall|j: int| 0 <= j < i ==> lex_lt(#[trigger] self@[j].0, key@),
            decreases self.entries.len() - i,
        {
            let c = compare(self.entries[i].0.as_slice(), key);
            assert(self@[i as int].0 == self.entries@[i as int].0@);
            if c == 0 {
                return (true, i);
            }
            if c == 1 {
                proof {
                    assert forall|j: int| i <= j < self@.len() implies lex_lt(key@, #[trigger] self@[j].0) by {
                        if j > i {
                            lemma_lex_transitive(key@, self@[i as int].0, self@[j].0);
                        }
                    }
                }
                return (false, i);
            }
            i = i + 1;
        }
        (false, i)
    }

    pub fn get(&self, key: &[u8]) -> (r: Option<&V>)
        requires
            self.wf(),
        ensures
            r is Some <==> self.model().contains_key(key@),
            r is Some ==> *r.unwrap() == self.model()[key@],
    {
        proof {
            lemma_map_of(self@);
        }
        let (found, i) = self.find(key);
        if found {
            Some(&self.entries[i].1)
        } else {
            proof {
                if self.model().contains_key(key@) {
                    let j = choose|j: int| 0 <= j < self@.len() && self@[j].0 == key@;
                    lemma_lex_irreflexive(key@);
                }
            }
            None
        }
    }

    pub fn contains(&self, key: &[u8]) -> (r: bool)
        requires
            self.wf(),
        ensures
            r == self.model().contains_key(key@),
    {
        self.get(key).is_some()
    }

    pub fn insert(&mut self, key: Vec<u8>, value: V)
        requires
            old(self).wf(),
        ensures
            final(self).wf(),
            final(self).model() == old(self).model().insert(key@, value),
    {
        let ghost k = key@;
        let ghost s0 = self@;
        proof {
            lemma_map_of(s0);
        }
        let (found, i) = self.find(key.as_slice());
        if found {
            self.entries.set(i, (key, value));
            let ghost s1 = self@;
            assert(s1 =~= s0.update(i as int, (k, value)));
            assert(keys_sorted(s1)) by {
                assert forall|a: int, b: int| 0 <= a < b < s1.len() implies lex_lt(#[trigger] s1[a].0, #[trigger] s1[b].0) by {
                    assert(s1[a].0 == s0[a].0 && s1[b].0 == s0[b].0);
                }
            }
            proof {
                lemma_map_of(s1);
                assert(self.model() =~= model_with(s0, k, value)) by {
                    assert forall|x: Seq<u8>| #[trigger] map_of(s1).contains_key(x) implies map_of(s0).insert(k, value).contains_key(x)
                        && map_of(s1)[x] == map_of(s0).insert(k, value)[x] by {
                        let a = choose|a: int| 0 <= a < s1.len() && s1[a].0 == x;
                        if a != i {
                            assert(s0[a] == s1[a]);
                            if x == k {
                                if a < i {
                                    assert(lex_lt(s0[a].0, s0[i as int].0));
                                } else {
                                    assert(lex_lt(s0[i as int].0, s0[a].0));
                                }
                                lemma_lex_irreflexive(k);
                            }
                        }
                    }
                    assert forall|x: Seq<u8>| #[trigger] map_of(s0).insert(k, value).contains_key(x) implies map_of(s1).contains_key(x) by {
                        if x != k {
                            let a = choose|a: int| 0 <= a < s0.len() && s0[a].0 == x;
                            assert(s1[a].0 == x);
                        } else {
                            assert(s1[i as int].0 == k);
                        }
                    }
                }
            }
        } else {
            self.entries.insert(i, (key, value));
            let ghost s1 = self@;
            assert(s1 =~= s0.insert(i as int, (k, value)));
            assert(keys_sorted(s1)) by {
                assert forall|a: int, b: int| 0 <= a < b < s1.len() implies lex_lt(#[trigger] s1[a].0, #[trigger] s1[b].0) by {
                    if b < i {
                        assert(s1[a] == s0[a] && s1[b] == s0[b]);
                    } else if b == i {
                        assert(s1[a] == s0[a]);
                    } else if a == i {
                        assert(s1[b] == s0[b - 1]);
                    } else if a < i {
                        assert(s1[a] == s0[a] && s1[b] == s0[b - 1]);
                        lemma_lex_transitive(s0[a].0, k, s0[b - 1].0);
                    } else {
                        assert(s1[a] == s0[a - 1] && s1[b] == s0[b - 1]);
                    }
                }
            }
            proof {
                lemma_map_of(s1);
                assert(self.model() =~= model_with(s0, k, value)) by {
                    assert forall|x: Seq<u8>| #[trigger] map_of(s1).contains_key(x) implies map_of(s0).insert(k, value).contains_key(x)
                        && map_of(s1)[x] == map_of(s0).insert(k, value)[x] by {
                        let a = choose|a: int| 0 <= a < s1.len() && s1[a].0 == x;
                        if a < i {
                            assert(s0[a] == s1[a]);
                            if x == k {
                                lemma_lex_irreflexive(k);
                            }
                        } else if a > i {
                            assert(s0[a - 1] == s1[a]);
                            if x == k {
                                lemma_lex_irreflexive(k);
                            }
                        }
                    }
                    assert forall|x: Seq<u8>| #[trigger] map_of(s0).insert(k, value).contains_key(x) implies map_of(s1).contains_key(x) by {
                        if x != k {
                            let a = choose|a: int| 0 <= a < s0.len() && s0[a].0 == x;
                            if a < i {
                                assert(s1[a].0 == x);
                            } else {
                                assert(s1[a + 1].0 == x);
                            }
                        } else {
                            assert(s1[i as int].0 == k);
                        }
                    }
                }
            }
        }
    }

    pub fn remove(&mut self, key: &[u8]) -> (r: Option<V>)
        requires
            old(self).wf(),
        ensures
            final(self).wf(),
            final(self).model() == old(self).model().remove(key@),
            r is Some <==> old(self).model().contains_key(key@),
            r is Some ==> r.unwrap() == old(self).model()[key@],
    {
        let ghost k = key@;
        let ghost s0 = self@;
        proof {
            lemma_map_of(s0);
        }
        let (found, i) = self.find(key);
        if found {
            let (_, v) = self.entries.remove(i);
            let ghost s1 = self@;
            assert(s1 =~= s0.remove(i as int));
            assert(keys_sorted(s1)) by {
                assert forall|a: int, b: int| 0 <= a < b < s1.len() implies lex_lt(#[trigger] s1[a].0, #[trigger] s1[b].0) by {
                    if b < i {
                        assert(s1[a] == s0[a] && s1[b] == s0[b]);
                    } else if a < i {
                        assert(s1[a] == s0[a] && s1[b] == s0[b + 1]);
                    } else {
                        assert(s1[a] == s0[a + 1] && s1[b] == s0[b + 1]);
                    }
                }
            }
            proof {
                lemma_map_of(s1);
                assert(self.model() =~= map_of(s0).remove(k)) by {
                    assert forall|x: Seq<u8>| #[trigger] map_of(s1).contains_key(x) implies map_of(s0).remove(k).contains_key(x)
                        && map_of(s1)[x] == map_of(s0).remove(k)[x] by {
                        let a = choose|a: int| 0 <= a < s1.len() && s1[a].0 == x;
                        if a < i {
                            assert(s0[a] == s1[a]);
                            if x == k {
                                lemma_lex_irreflexive(k);
                            }
                        } else {
                            assert(s0[a + 1] == s1[a]);
                            if x == k {
                                lemma_lex_irreflexive(k);
                            }
                        }
                    }
                    assert forall|x: Seq<u8>| #[trigger] map_of(s0).remove(k).contains_key(x) implies map_of(s1).contains_key(x) by {
                        let a = choose|a: int| 0 <= a < s0.len() && s0[a].0 == x;
                        if a < i {
                            assert(s1[a].0 == x);
                        } else {
                            assert(a != i);
                            assert(s1[a - 1].0 == x);
                        }
                    }
                }
            }
            Some(v)
        } else {
            proof {
                if map_of(s0).contains_key(k) {
                    let j = choose|j: int| 0 <= j < s0.len() && s0[j].0 == k;
                    lemma_lex_irreflexive(k);
                }
                assert(map_of(s0).remove(k) =~= map_of(s0));
            }
            None
        }
    }

    /// The entries in key order.
    pub fn into_entries(self) -> (r: Vec<(Vec<u8>, V)>)
        ensures
            r@.map_values(|e: (Vec<u8>, V)| (e.0@, e.1)) == self@,
    {
        self.entries
    }

    /// Drops every entry.
    pub fn clear(&mut self)
        ensures
            final(self).wf(),
            final(self)@ == Seq::<(Seq<u8>, V)>::empty(),
            final(self).model() == Map::<Seq<u8>, V>::empty(),
    {
        self.entries = Vec::new();
        assert(self@ =~= Seq::<(Seq<u8>, V)>::empty());
        assert(self.model() =~= Map::<Seq<u8>, V>::empty());
    }
}

/// A map whose values are byte vectors, seen with byte-sequence values.
pub open spec fn byte_values_map(m: Map<Seq<u8>, Vec<u8>>) -> Map<Seq<u8>, Seq<u8>> {
    m.map_values(|v: Vec<u8>| v@)
}

/// A sequence of byte entries seen as keys and byte values.
pub open spec fn entries_view(v: Seq<(Vec<u8>, Vec<u8>)>) -> Seq<(Seq<u8>, Seq<u8>)> {
    v.map_values(|e: (Vec<u8>, Vec<u8>)| (e.0@, e.1@))
}

pub open spec fn bytes_values(s: Seq<(Seq<u8>, Vec<u8>)>) -> Seq<(Seq<u8>, Seq<u8>)> {
    s.map_values(|e: (Seq<u8>, Vec<u8>)| (e.0, e.1@))
}

/// Seeing the values as bytes keeps the order and maps the values.
pub proof fn lemma_bytes_values(s: Seq<(Seq<u8>, Vec<u8>)>)
    requires
        keys_sorted(s),
    ensures
        keys_sorted(bytes_values(s)),
        map_of(bytes_values(s)) == byte_values_map(map_of(s)),
{
    let t = bytes_values(s);
    assert(keys_sorted(t)) by {
        assert forall|i: int, j: int| 0 <= i < j < t.len() implies lex_lt(#[trigger] t[i].0, #[trigger] t[j].0) by {
            assert(t[i].0 == s[i].0 && t[j].0 == s[j].0);
        }
    }
    lemma_map_of(s);
    lemma_map_of(t);
    assert(map_of(t) =~= map_of(s).map_values(|v: Vec<u8>| v@)) by {
        assert forall|k: Seq<u8>| #[trigger] map_of(t).contains_key(k) implies map_of(s).contains_key(k) && map_of(t)[k] == map_of(s)[k]@ by {
            let i = choose|i: int| 0 <= i < t.len() && t[i].0 == k;
            assert(s[i].0 == k);
        }
        assert forall|k: Seq<u8>| #[trigger] map_of(s).contains_key(k) implies map_of(t).contains_key(k) by {
            let i = choose|i: int| 0 <= i < s.len() && s[i].0 == k;
            assert(t[i].0 == k);
        }
    }
}

/// The map of `s` with `k` set to `v`.
spec fn model_with<V>(s: Seq<(Seq<u8>, V)>, k: Seq<u8>, v: V) -> Map<Seq<u8>, V> {
    map_of(s).insert(k, v)
}

} // verus!
