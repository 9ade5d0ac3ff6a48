//! How keys and values become bytes and back.

use crate::bytes::{lemma_lex_common_prefix, lex_lt};
use vstd::prelude::*;

verus! {

/// A value stored under a key: encoded to bytes on write, decoded on read.
pub trait BinaryValue: Sized {
    spec fn encode_spec(&self) -> Seq<u8>;

    spec fn decode_spec(bytes: Seq<u8>) -> Option<Self>;

    fn to_bytes(&self) -> (r: Vec<u8>)
        ensures
            r@ == self.encode_spec(),
    ;

    fn from_bytes(bytes: &[u8]) -> (r: Option<Self>)
        ensures
            r == Self::decode_spec(bytes@),
    ;

    /// Decoding an encoding gives the value back.
    proof fn lemma_round_trip(&self)
        ensures
            Self::decode_spec(self.encode_spec()) == Some(*self),
    ;
}

/// A key: encoded to bytes whose order is the order wanted for iteration.
pub trait BinaryKey: Sized {
    spec fn key_spec(&self) -> Seq<u8>;

    spec fn read_spec(bytes: Seq<u8>) -> Option<Self>;

    fn key_bytes(&self) -> (r: Vec<u8>)
        ensures
            r@ == self.key_spec(),
    ;

    fn read(bytes: &[u8]) -> (r: Option<Self>)
        ensures
            r == Self::read_spec(bytes@),
    ;

    /// Reading an encoded key gives the key back.
    proof fn lemma_key_round_trip(&self)
        ensures
            Self::read_spec(self.key_spec()) == Some(*self),
    ;
}

/// Eight bytes, most significant first.
pub open spec fn u64_be(x: u64) -> Seq<u8> {
    seq![
        (x >> 56u64) as u8,
        (x >> 48u64) as u8,
        (x >> 40u64) as u8,
        (x >> 32u64) as u8,
        (x >> 24u64) as u8,
        (x >> 16u64) as u8,
        (x >> 8u64) as u8,
        x as u8,
    ]
}

pub open spec fn u64_from_be(b: Seq<u8>) -> u64 {
    ((b[0] as u64) << 56u64) | ((b[1] as u64) << 48u64) | ((b[2] as u64) << 40u64) | ((b[3] as u64) << 32u64)
        | ((b[4] as u64) << 24u64) | ((b[5] as u64) << 16u64) | ((b[6] as u64) << 8u64) | (b[7] as u64)
}

/// Four bytes, most significant first.
pub open spec fn u32_be(x: u32) -> Seq<u8> {
    seq![(x >> 24u32) as u8, (x >> 16u32) as u8, (x >> 8u32) as u8, x as u8]
}

pub open spec fn u32_from_be(b: Seq<u8>) -> u32 {
    ((b[0] as u32) << 24u32) | ((b[1] as u32) << 16u32) | ((b[2] as u32) << 8u32) | (b[3] as u32)
}

pub proof fn lemma_u64_be(x: u64)
    ensures
        u64_be(x).len() == 8,
        u64_from_be(u64_be(x)) == x,
{
    let b = u64_be(x);
    let (b0, b1, b2, b3, b4, b5, b6, b7) = (b[0], b[1], b[2], b[3], b[4], b[5], b[6], b[7]);
    assert(((((x >> 56u64) as u8) as u64) << 56u64) | ((((x >> 48u64) as u8) as u64) << 48u64)
        | ((((x >> 40u64) as u8) as u64) << 40u64) | ((((x >> 32u64) as u8) as u64) << 32u64)
        | ((((x >> 24u64) as u8) as u64) << 24u64) | ((((x >> 16u64) as u8) as u64) << 16u64)
        | ((((x >> 8u64) as u8) as u64) << 8u64) | ((x as u8) as u64) == x) by (bit_vector);
}

pub proof fn lemma_u32_be(x: u32)
    ensures
        u32_be(x).len() == 4,
        u32_from_be(u32_be(x)) == x,
{
    assert(((((x >> 24u32) as u8) as u32) << 24u32) | ((((x >> 16u32) as u8) as u32) << 16u32)
        | ((((x >> 8u32) as u8) as u32) << 8u32) | ((x as u8) as u32) == x) by (bit_vector);
}

pub fn u64_to_be(x: u64) -> (r: Vec<u8>)
    ensures
        r@ == u64_be(x),
{
    let r: Vec<u8> = vec![
        (x >> 56u64) as u8,
        (x >> 48u64) as u8,
        (x >> 40u64) as u8,
        (x >> 32u64) as u8,
        (x >> 24u64) as u8,
        (x >> 16u64) as u8,
        (x >> 8u64) as u8,
        x as u8,
    ];
    assert(r@ =~= u64_be(x));
    r
}

pub fn u64_read_be(b: &[u8]) -> (r: u64)
    requires
        b@.len() >= 8,
    ensures
        r == u64_from_be(b@),
{
    ((b[0] as u64) << 56u64) | ((b[1] as u64) << 48u64) | ((b[2] as u64) << 40u64) | ((b[3] as u64) << 32u64)
        | ((b[4] as u64) << 24u64) | ((b[5] as u64) << 16u64) | ((b[6] as u64) << 8u64) | (b[7] as u64)
}

pub fn u32_to_be(x: u32) -> (r: Vec<u8>)
    ensures
        r@ == u32_be(x),
{
    let r: Vec<u8> = vec![(x >> 24u32) as u8, (x >> 16u32) as u8, (x >> 8u32) as u8, x as u8];
    assert(r@ =~= u32_be(x));
    r
}

pub fn u32_read_be(b: &[u8]) -> (r: u32)
    requires
        b@.len() >= 4,
    ensures
        r == u32_from_be(b@),
{
    ((b[0] as u32) << 24u32) | ((b[1] as u32) << 16u32) | ((b[2] as u32) << 8u32) | (b[3] as u32)
}

impl BinaryValue for u64 {
    open spec fn encode_spec(&self) -> Seq<u8> {
        u64_be(*self)
    }

    open spec fn decode_spec(bytes: Seq<u8>) -> Option<u64> {
        if bytes.len() == 8 {
            Some(u64_from_be(bytes))
        } else {
            None
        }
    }

    fn to_bytes(&self) -> (r: Vec<u8>) {
        u64_to_be(*self)
    }

    fn from_bytes(bytes: &[u8]) -> (r: Option<u64>) {
        if bytes.len() == 8 {
            Some(u64_read_be(bytes))
        } else {
            None
        }
    }

    proof fn lemma_round_trip(&self) {
        lemma_u64_be(*self);
    }
}

impl BinaryKey for u64 {
    open spec fn key_spec(&self) -> Seq<u8> {
        u64_be(*self)
    }

    open spec fn read_spec(bytes: Seq<u8>) -> Option<u64> {
        if bytes.len() == 8 {
            Some(u64_from_be(bytes))
        } else {
            None
        }
    }

    fn key_bytes(&self) -> (r: Vec<u8>) {
        u64_to_be(*self)
    }

    fn read(bytes: &[u8]) -> (r: Option<u64>) {
        if bytes.len() == 8 {
            Some(u64_read_be(bytes))
        } else {
            None
        }
    }

    proof fn lemma_key_round_trip(&self) {
        lemma_u64_be(*self);
    }
}

impl BinaryKey for u32 {
    open spec fn key_spec(&self) -> Seq<u8> {
        u32_be(*self)
    }

    open spec fn read_spec(bytes: Seq<u8>) -> Option<u32> {
        if bytes.len() == 4 {
            Some(u32_from_be(bytes))
        } else {
            None
        }
    }

    fn key_bytes(&self) -> (r: Vec<u8>) {
        u32_to_be(*self)
    }

    fn read(bytes: &[u8]) -> (r: Option<u32>) {
        if bytes.len() == 4 {
            Some(u32_read_be(bytes))
        } else {
            None
        }
    }

    proof fn lemma_key_round_trip(&self) {
        lemma_u32_be(*self);
    }
}

impl BinaryValue for u8 {
    open spec fn encode_spec(&self) -> Seq<u8> {
        seq![*self]
    }

    open spec fn decode_spec(bytes: Seq<u8>) -> Option<u8> {
        if bytes.len() == 1 {
            Some(bytes[0])
        } else {
            None
        }
    }

    fn to_bytes(&self) -> (r: Vec<u8>) {
        let r: Vec<u8> = vec![*self];
        assert(r@ =~= seq![*self]);
        r
    }

    fn from_bytes(bytes: &[u8]) -> (r: Option<u8>) {
        if bytes.len() == 1 {
            Some(bytes[0])
        } else {
            None
        }
    }

    proof fn lemma_round_trip(&self) {
    }
}

/// The unit key: written as the empty byte string, for collections of one
/// value; read from any bytes, to pass over keys without parsing them.
impl BinaryKey for () {
    open spec fn key_spec(&self) -> Seq<u8> {
        Seq::empty()
    }

    open spec fn read_spec(bytes: Seq<u8>) -> Option<()> {
        Some(())
    }

    fn key_bytes(&self) -> (r: Vec<u8>) {
        let r: Vec<u8> = Vec::new();
        assert(r@ =~= Seq::<u8>::empty());
        r
    }

    fn read(bytes: &[u8]) -> (r: Option<()>) {
        Some(())
    }

    proof fn lemma_key_round_trip(&self) {
    }
}

/// The unit value: written as the empty byte string, read from any bytes,
/// to pass over values without parsing them.
impl BinaryValue for () {
    open spec fn encode_spec(&self) -> Seq<u8> {
        Seq::empty()
    }

    open spec fn decode_spec(bytes: Seq<u8>) -> Option<()> {
        Some(())
    }

    fn to_bytes(&self) -> (r: Vec<u8>) {
        let r: Vec<u8> = Vec::new();
        assert(r@ =~= Seq::<u8>::empty());
        r
    }

    fn from_bytes(bytes: &[u8]) -> (r: Option<()>) {
        Some(())
    }

    proof fn lemma_round_trip(&self) {
    }
}

/// Decoding an encoded value gives it back, for every value type.
pub proof fn lemma_value_round_trip<V: BinaryValue>(v: V)
    ensures
        V::decode_spec(v.encode_spec()) == Some(v),
{
    v.lemma_round_trip();
}

/// Reading an encoded key gives it back, for every key type.
pub proof fn lemma_key_round_trip<K: BinaryKey>(k: K)
    ensures
        K::read_spec(k.key_spec()) == Some(k),
{
    k.lemma_key_round_trip();
}

/// Distinct keys have distinct encodings, for every key type.
pub proof fn lemma_key_injective<K: BinaryKey>(a: K, b: K)
    requires
        a.key_spec() == b.key_spec(),
    ensures
        a == b,
{
    a.lemma_key_round_trip();
    b.lemma_key_round_trip();
}

pub open spec fn byte_shift(j: int) -> u64 {
    (56 - 8 * j) as u64
}

proof fn lemma_u64_be_index(x: u64, j: int)
    requires
        0 <= j < 8,
    ensures
        u64_be(x)[j] == (x >> byte_shift(j)) as u8,
{
    if j == 0 {
    } else if j == 1 {
    } else if j == 2 {
    } else if j == 3 {
    } else if j == 4 {
    } else if j == 5 {
    } else if j == 6 {
    } else {
        assert(x >> 0u64 == x) by (bit_vector);
    }
}

proof fn lemma_shift_monotone(x: u64, y: u64, s: u64)
    requires
        x < y,
        s <= 56,
    ensures
        x >> s <= y >> s,
{
    assert(x < y && s <= 56 ==> x >> s <= y >> s) by (bit_vector);
}

proof fn lemma_byte_lt(x: u64, y: u64, s: u64)
    requires
        s <= 48,
        x >> s < y >> s,
        x >> (s + 8) == y >> (s + 8),
    ensures
        ((x >> s) as u8) < ((y >> s) as u8),
{
    assert(s <= 48 && x >> s < y >> s && x >> (s + 8) == y >> (s + 8) ==> ((x >> s) as u8) < ((y >> s) as u8)) by (bit_vector);
}

proof fn lemma_top_byte_lt(x: u64, y: u64)
    requires
        x >> 56u64 < y >> 56u64,
    ensures
        ((x >> 56u64) as u8) < ((y >> 56u64) as u8),
{
    assert(x >> 56u64 < y >> 56u64 ==> ((x >> 56u64) as u8) < ((y >> 56u64) as u8)) by (bit_vector);
}

proof fn lemma_byte_eq(x: u64, y: u64, s: u64, t: u64)
    requires
        s <= t <= 56,
        x >> s == y >> s,
    ensures
        ((x >> t) as u8) == ((y >> t) as u8),
{
    assert(s <= t && t <= 56 && x >> s == y >> s ==> ((x >> t) as u8) == ((y >> t) as u8)) by (bit_vector);
}

/// The first byte where two sequences differ decides their order.
pub proof fn lemma_lex_first_difference(a: Seq<u8>, b: Seq<u8>, i: int)
    requires
        0 <= i < a.len(),
        i < b.len(),
        a.subrange(0, i) == b.subrange(0, i),
        a[i] < b[i],
    ensures
        lex_lt(a, b),
{
    let c = a.subrange(0, i);
    let ta = a.subrange(i, a.len() as int);
    let tb = b.subrange(i, b.len() as int);
    assert(a =~= c + ta);
    assert(b =~= c + tb);
    assert(ta[0] == a[i] && tb[0] == b[i]);
    assert(lex_lt(ta, tb));
    lemma_lex_common_prefix(c, ta, tb);
}

proof fn lemma_u64_be_lt_at(x: u64, y: u64, i: int)
    requires
        0 <= i < 8,
        x < y,
        x >> byte_shift(i) != y >> byte_shift(i),
        i > 0 ==> x >> byte_shift(i - 1) == y >> byte_shift(i - 1),
    ensures
        lex_lt(u64_be(x), u64_be(y)),
{
    lemma_shift_monotone(x, y, byte_shift(i));
    if i == 0 {
        lemma_top_byte_lt(x, y);
    } else {
        assert(byte_shift(i) + 8 == byte_shift(i - 1));
        lemma_byte_lt(x, y, byte_shift(i));
    }
    lemma_u64_be_index(x, i);
    lemma_u64_be_index(y, i);
    assert forall|j: int| 0 <= j < i implies u64_be(x)[j] == u64_be(y)[j] by {
        lemma_u64_be_index(x, j);
        lemma_u64_be_index(y, j);
        lemma_byte_eq(x, y, byte_shift(i - 1), byte_shift(j));
    }
    assert(u64_be(x).subrange(0, i) =~= u64_be(y).subrange(0, i));
    lemma_lex_first_difference(u64_be(x), u64_be(y), i);
}

/// Big-endian encoding keeps the numeric order: list positions and other
/// integer keys are listed in ascending order.
pub proof fn lemma_u64_be_order(x: u64, y: u64)
    requires
        x < y,
    ensures
        lex_lt(u64_be(x), u64_be(y)),
{
    assert(x >> 0u64 == x) by (bit_vector);
    assert(y >> 0u64 == y) by (bit_vector);
    if x >> byte_shift(0) != y >> byte_shift(0) {
        lemma_u64_be_lt_at(x, y, 0);
    } else if x >> byte_shift(1) != y >> byte_shift(1) {
        lemma_u64_be_lt_at(x, y, 1);
    } else if x >> byte_shift(2) != y >> byte_shift(2) {
        lemma_u64_be_lt_at(x, y, 2);
    } else if x >> byte_shift(3) != y >> byte_shift(3) {
        lemma_u64_be_lt_at(x, y, 3);
    } else if x >> byte_shift(4) != y >> byte_shift(4) {
        lemma_u64_be_lt_at(x, y, 4);
    } else if x >> byte_shift(5) != y >> byte_shift(5) {
        lemma_u64_be_lt_at(x, y, 5);
    } else if x >> byte_shift(6) != y >> byte_shift(6) {
        lemma_u64_be_lt_at(x, y, 6);
    } else {
        assert(byte_shift(7) == 0);
        lemma_u64_be_lt_at(x, y, 7);
    }
}

} // verus!
