//! Byte keys: their lexicographic order and the few operations on them.

use vstd::prelude::*;

verus! {

/// Strict lexicographic order on byte sequences.
pub open spec fn lex_lt(a: Seq<u8>, b: Seq<u8>) -> bool
    decreases a.len(),
{
    if a.len() == 0 {
        b.len() > 0
    } else if b.len() == 0 {
        false
    } else if a[0] < b[0] {
        true
    } else if a[0] > b[0] {
        false
    } else {
        lex_lt(a.drop_first(), b.drop_first())
    }
}

/// `a` is at most `b` in lexicographic order.
pub open spec fn lex_le(a: Seq<u8>, b: Seq<u8>) -> bool {
    a == b || lex_lt(a, b)
}

pub open spec fn has_prefix(key: Seq<u8>, prefix: Seq<u8>) -> bool {
    prefix.len() <= key.len() && key.subrange(0, prefix.len() as int) == prefix
}

pub proof fn lemma_lex_irreflexive(a: Seq<u8>)
    ensures
        !lex_lt(a, a),
    decreases a.len(),
{
    if a.len() > 0 {
        lemma_lex_irreflexive(a.drop_first());
    }
}

pub proof fn lemma_lex_transitive(a: Seq<u8>, b: Seq<u8>, c: Seq<u8>)
    requires
        lex_lt(a, b),
        lex_lt(b, c),
    ensures
        lex_lt(a, c),
    decreases a.len(),
{
    if a.len() > 0 && b.len() > 0 && c.len() > 0 && a[0] == b[0] && b[0] == c[0] {
        lemma_lex_transitive(a.drop_first(), b.drop_first(), c.drop_first());
    }
}

pub proof fn lemma_lex_asymmetric(a: Seq<u8>, b: Seq<u8>)
    requires
        lex_lt(a, b),
    ensures
        !lex_lt(b, a),
{
    if lex_lt(b, a) {
        lemma_lex_transitive(a, b, a);
        lemma_lex_irreflexive(a);
    }
}

/// A common prefix does not change the order.
pub proof fn lemma_lex_common_prefix(p: Seq<u8>, a: Seq<u8>, b: Seq<u8>)
    ensures
        lex_lt(p + a, p + b) == lex_lt(a, b),
    decreases p.len(),
{
    if p.len() > 0 {
        lemma_lex_common_prefix(p.drop_first(), a, b);
        assert((p + a).drop_first() =~= p.drop_first() + a);
        assert((p + b).drop_first() =~= p.drop_first() + b);
    } else {
        assert(p + a =~= a);
        assert(p + b =~= b);
    }
}

/// A key is less than every proper extension of it.
pub proof fn lemma_lex_prefix_lt(p: Seq<u8>, a: Seq<u8>)
    requires
        a.len() > 0,
    ensures
        lex_lt(p, p + a),
    decreases p.len(),
{
    if p.len() > 0 {
        lemma_lex_prefix_lt(p.drop_first(), a);
        assert((p + a).drop_first() =~= p.drop_first() + a);
    }
}

/// `k.push(0)` is the least key above `k`.
pub proof fn lemma_lex_successor(k: Seq<u8>, x: Seq<u8>)
    ensures
        lex_lt(k, x) <==> lex_le(k.push(0), x),
    decreases k.len(),
{
    let kp = k.push(0);
    if k.len() == 0 {
        assert(kp.drop_first() =~= Seq::<u8>::empty());
        if x.len() > 0 {
            if x[0] == 0 {
                if x.len() == 1 {
                    assert(x =~= kp);
                } else {
                    assert(lex_lt(kp.drop_first(), x.drop_first()));
                    assert(lex_lt(kp, x));
                }
            } else {
                assert(lex_lt(kp, x));
            }
        }
    } else if x.len() == 0 {
        assert(kp != x);
    } else if k[0] == x[0] {
        lemma_lex_successor(k.drop_first(), x.drop_first());
        assert(kp.drop_first() =~= k.drop_first().push(0));
        if x.drop_first() == k.drop_first().push(0) {
            assert(x =~= seq![x[0]] + x.drop_first());
            assert(kp =~= seq![k[0]] + k.drop_first().push(0));
        }
        if x == kp {
            assert(x.drop_first() =~= k.drop_first().push(0));
        }
    } else {
        assert(kp[0] == k[0]);
        assert(kp != x);
    }
}

/// Keys with a given prefix form one run in the order: whatever lies between
/// the prefix and a key that has it has the prefix too.
pub proof fn lemma_prefix_run(p: Seq<u8>, a: Seq<u8>, b: Seq<u8>)
    requires
        lex_le(p, a),
        lex_lt(a, b),
        has_prefix(b, p),
    ensures
        has_prefix(a, p),
    decreases p.len(),
{
    if p.len() == 0 {
        assert(a.subrange(0, 0) =~= p);
    } else if a == p {
        assert(a.subrange(0, p.len() as int) =~= a);
    } else {
        assert(b.len() > 0 && b[0] == p[0]) by {
            assert(b.subrange(0, p.len() as int)[0] == b[0]);
        }
        assert(a.len() > 0);
        if a[0] == p[0] {
            assert(b.drop_first().subrange(0, p.len() - 1) =~= b.subrange(0, p.len() as int).drop_first());
            lemma_prefix_run(p.drop_first(), a.drop_first(), b.drop_first());
            assert(a.subrange(0, p.len() as int) =~= seq![a[0]] + a.drop_first().subrange(0, p.len() - 1));
            assert(p =~= seq![p[0]] + p.drop_first());
        } else {
            // a[0] > p[0] = b[0] would contradict a < b
            assert(false);
        }
    }
}

/// Compares two byte strings: -1, 0 or 1 as `a` is below, equal to or above `b`.
pub fn compare(a: &[u8], b: &[u8]) -> (r: i8)
    ensures
        -1 <= r <= 1,
        r == -1 <==> lex_lt(a@, b@),
        r == 0 <==> a@ == b@,
        r == 1 <==> lex_lt(b@, a@),
{
    let mut i: usize = 0;
    while i < a.len() && i < b.len() && a[i] == b[i]
        invariant
            i <= a.len(),
            i <= b.len(),
            a@.subrange(0, i as int) == b@.subrange(0, i as int),
        decreases a.len() - i,
    {
        assert(a@.subrange(0, i + 1) =~= a@.subrange(0, i as int).push(a@[i as int]));
        assert(b@.subrange(0, i + 1) =~= b@.subrange(0, i as int).push(b@[i as int]));
        i = i + 1;
    }
    let ghost c = a@.subrange(0, i as int);
    let ghost ta = a@.subrange(i as int, a@.len() as int);
    let ghost tb = b@.subrange(i as int, b@.len() as int);
    proof {
        assert(a@ =~= c + ta);
        assert(b@ =~= c + tb);
        lemma_lex_common_prefix(c, ta, tb);
        lemma_lex_common_prefix(c, tb, ta);
        lemma_lex_irreflexive(a@);
        lemma_lex_irreflexive(b@);
    }
    if i < a.len() && i < b.len() {
        assert(ta[0] == a@[i as int] && tb[0] == b@[i as int]);
        assert(a@[i as int] != b@[i as int]);
        assert(a@ != b@) by {
            if a@ == b@ {
                assert(a@[i as int] == b@[i as int]);
            }
        }
        if a[i] < b[i] {
            assert(lex_lt(ta, tb));
            proof {
                lemma_lex_asymmetric(a@, b@);
            }
            -1
        } else {
            assert(lex_lt(tb, ta));
            proof {
                lemma_lex_asymmetric(b@, a@);
            }
            1
        }
    } else if i < a.len() {
        assert(tb.len() == 0 && ta.len() > 0);
        assert(lex_lt(tb, ta));
        proof {
            lemma_lex_asymmetric(b@, a@);
        }
        assert(a@.len() != b@.len());
        1
    } else if i < b.len() {
        assert(ta.len() == 0 && tb.len() > 0);
        assert(lex_lt(ta, tb));
        proof {
            lemma_lex_asymmetric(a@, b@);
        }
        assert(a@.len() != b@.len());
        -1
    } else {
        assert(a@ =~= b@);
        0
    }
}

/// Whether `key` starts with `prefix`.
pub fn starts_with(key: &[u8], prefix: &[u8]) -> (r: bool)
    ensures
        r == has_prefix(key@, prefix@),
{
    if prefix.len() > key.len() {
        return false;
    }
    let mut i: usize = 0;
    while i < prefix.len()
        invariant
            prefix.len() <= key.len(),
            i <= prefix.len(),
            key@.subrange(0, i as int) == prefix@.subrange(0, i as int),
        decreases prefix.len() - i,
    {
        if key[i] != prefix[i] {
            assert(key@.subrange(0, prefix.len() as int)[i as int] != prefix@[i as int]);
            return false;
        }
        assert(key@.subrange(0, i + 1) =~= key@.subrange(0, i as int).push(key@[i as int]));
        assert(prefix@.subrange(0, i + 1) =~= prefix@.subrange(0, i as int).push(prefix@[i as int]));
        i = i + 1;
    }
    assert(prefix@.subrange(0, i as int) =~= prefix@);
    true
}

/// A fresh copy of a byte string.
pub fn copy_bytes(b: &[u8]) -> (r: Vec<u8>)
    ensures
        r@ == b@,
{
    let mut r: Vec<u8> = Vec::new();
    let mut i: usize = 0;
    while i < b.len()
        invariant
            i <= b.len(),
            r@ == b@.subrange(0, i as int),
        decreases b.len() - i,
    {
        r.push(b[i]);
        i = i + 1;
    }
    assert(r@ =~= b@);
    r
}

/// `a` followed by `b`.
pub fn concat(a: &[u8], b: &[u8]) -> (r: Vec<u8>)
    ensures
        r@ == a@ + b@,
{
    let mut r = copy_bytes(a);
    let mut i: usize = 0;
    while i < b.len()
        invariant
            i <= b.len(),
            r@ == a@ + b@.subrange(0, i as int),
        decreases b.len() - i,
    {
        r.push(b[i]);
        i = i + 1;
    }
    assert(r@ =~= a@ + b@);
    r
}

/// The bytes of `key` after its first `n`.
pub fn strip_prefix(key: &[u8], n: usize) -> (r: Vec<u8>)
    requires
        n <= key@.len(),
    ensures
        r@ == key@.subrange(n as int, key@.len() as int),
{
    let mut r: Vec<u8> = Vec::new();
    let mut i: usize = n;
    while i < key.len()
        invariant
            n <= i <= key.len(),
            r@ == key@.subrange(n as int, i as int),
        decreases key.len() - i,
    {
        r.push(key[i]);
        i = i + 1;
    }
    r
}

} // verus!
