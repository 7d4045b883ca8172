//! Digests and the bytes that go into them.

use vstd::prelude::*;
use vstd::utf8::{decode_utf8, encode_utf8};
use crate::codec::{le_bytes, le_round_trip, pow256, put_le, put_utf8};
use crate::order::lex_lt;
use crate::sort::Rank;

verus! {

/// The BLAKE3 digest of a byte sequence.
pub uninterp spec fn blake3_digest(bytes: Seq<u8>) -> Seq<u8>;

/// `blake3::hash` computes the digest of its input, 32 bytes that depend on the input bytes
/// alone. Nothing is said of which inputs share a digest.
#[verifier::external_body]
fn blake3_hash(bytes: &Vec<u8>) -> (r: [u8; 32])
    ensures
        r@ == blake3_digest(bytes@),
{
    *blake3::hash(bytes).as_bytes()
}

/// The digest of `bytes`.
pub fn digest(bytes: &Vec<u8>) -> (r: [u8; 32])
    ensures
        r@ == blake3_digest(bytes@),
{
    blake3_hash(bytes)
}

/// A field of varying length: its length in 8 bytes, then the field.
pub open spec fn field_bytes(b: Seq<u8>) -> Seq<u8> {
    le_bytes(8, b.len()) + b
}

/// A text as a field.
pub open spec fn text_field(s: Seq<char>) -> Seq<u8> {
    field_bytes(encode_utf8(s))
}

/// Appends a text as a field.
pub fn put_field(out: &mut Vec<u8>, s: &str)
    ensures
        final(out)@ == old(out)@ + text_field(s@),
{
    let ghost start = out@;
    let n = s.as_bytes().len();
    put_le(out, 8, n as u128);
    put_utf8(s, out);
    assert(out@ =~= start + text_field(s@));
}

/// Two numbers of `n` bytes at the start of the same bytes are the same.
pub proof fn le_splits(n: nat, a: nat, b: nat, x: Seq<u8>, y: Seq<u8>)
    requires
        a < pow256(n),
        b < pow256(n),
        le_bytes(n, a) + x == le_bytes(n, b) + y,
    ensures
        a == b,
        x == y,
{
    le_round_trip(n, a);
    le_round_trip(n, b);
    let s = le_bytes(n, a) + x;
    let t = le_bytes(n, b) + y;
    assert(s.take(n as int) =~= le_bytes(n, a));
    assert(t.take(n as int) =~= le_bytes(n, b));
    assert(s.skip(n as int) =~= x);
    assert(t.skip(n as int) =~= y);
}

/// Where a field ends is told by its start: the same bytes hold the same text and the same
/// rest.
pub proof fn text_field_splits(a: Seq<char>, x: Seq<u8>, b: Seq<char>, y: Seq<u8>)
    requires
        encode_utf8(a).len() < pow256(8),
        encode_utf8(b).len() < pow256(8),
        text_field(a) + x == text_field(b) + y,
    ensures
        a == b,
        x == y,
{
    let ea = encode_utf8(a);
    let eb = encode_utf8(b);
    assert(text_field(a) + x =~= le_bytes(8, ea.len()) + (ea + x));
    assert(text_field(b) + y =~= le_bytes(8, eb.len()) + (eb + y));
    le_splits(8, ea.len(), eb.len(), ea + x, eb + y);
    let n = ea.len() as int;
    assert((ea + x).take(n) =~= ea);
    assert((eb + y).take(n) =~= eb);
    assert((ea + x).skip(n) =~= x);
    assert((eb + y).skip(n) =~= y);
    vstd::utf8::encode_utf8_decode_utf8(a);
    vstd::utf8::encode_utf8_decode_utf8(b);
    assert(a == decode_utf8(ea));
}

/// Bytes as integers.
pub open spec fn byte_ints(v: Seq<u8>) -> Seq<int> {
    Seq::new(v.len(), |i: int| v[i] as int)
}

impl Rank for [u8; 32] {
    open spec fn rank_of(v: Seq<u8>) -> Seq<int> {
        byte_ints(v)
    }

    fn ranks_before(&self, other: &[u8; 32]) -> (r: bool) {
        let ghost a = byte_ints(self@);
        let ghost b = byte_ints(other@);
        let mut i: usize = 0;
        assert(a.skip(0) =~= a);
        assert(b.skip(0) =~= b);
        while i < 32
            invariant
                i <= 32,
                a == byte_ints(self@),
                b == byte_ints(other@),
                self@.len() == 32,
                other@.len() == 32,
                lex_lt(a, b) == lex_lt(a.skip(i as int), b.skip(i as int)),
            decreases 32 - i,
        {
            let ghost p = a.skip(i as int);
            let ghost q = b.skip(i as int);
            assert(p[0] == self@[i as int] as int && q[0] == other@[i as int] as int);
            if self[i] != other[i] {
                return self[i] < other[i];
            }
            assert(p.drop_first() =~= a.skip(i as int + 1));
            assert(q.drop_first() =~= b.skip(i as int + 1));
            i += 1;
        }
        false
    }
}

} // verus!
