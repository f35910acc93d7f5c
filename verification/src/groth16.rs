//! The byte layout that turns an SP1 Groth16 proof into the points and public
//! inputs of a Groth16 verifier.

use vstd::prelude::*;

use crate::hash::{sha256, spec_sha256, Hash32};

verus! {

/// The coordinates of one point of the proof, from `start` to `end` in the
/// proof bytes, as the verifier reads them: each coordinate of `len` bytes
/// reversed, then a zero flag byte.
pub open spec fn point_encoding(p: Seq<u8>, start: int, len: int) -> Seq<u8> {
    p.subrange(start, start + len).reverse() + p.subrange(start + len, start + 2 * len).reverse()
        + seq![0u8]
}

/// Appends `p[start..end]` in reverse order to `out`.
fn push_reversed(out: &mut Vec<u8>, p: &[u8], start: usize, end: usize)
    requires
        start <= end <= p@.len(),
    ensures
        final(out)@ == old(out)@ + p@.subrange(start as int, end as int).reverse(),
{
    let mut i: usize = end;
    while i > start
        invariant
            start <= i <= end,
            end <= p@.len(),
            out@ == old(out)@ + p@.subrange(i as int, end as int).reverse(),
        decreases i,
    {
        i = i - 1;
        out.push(p[i]);
        assert(p@.subrange(i as int, end as int).reverse() =~= p@.subrange(i + 1, end as int).reverse().push(
            p@[i as int],
        ));
    }
}

/// The encodings of the three points of a Groth16 proof, from the proof bytes
/// that follow the four-byte verifier selector: `A` (two 32-byte
/// coordinates), `B` (two 64-byte coordinates) and `C` (two 32-byte
/// coordinates), each coordinate reversed to little-endian and followed by a
/// zero flag byte.
pub fn proof_points(p: &[u8]) -> (r: (Vec<u8>, Vec<u8>, Vec<u8>))
    requires
        p@.len() >= 256,
    ensures
        r.0@ == point_encoding(p@, 0, 32),
        r.1@ == point_encoding(p@, 64, 64),
        r.2@ == point_encoding(p@, 192, 32),
{
    let mut a: Vec<u8> = Vec::new();
    push_reversed(&mut a, p, 0, 32);
    push_reversed(&mut a, p, 32, 64);
    a.push(0u8);
    let mut b: Vec<u8> = Vec::new();
    push_reversed(&mut b, p, 64, 128);
    push_reversed(&mut b, p, 128, 192);
    b.push(0u8);
    let mut c: Vec<u8> = Vec::new();
    push_reversed(&mut c, p, 192, 224);
    push_reversed(&mut c, p, 224, 256);
    c.push(0u8);
    assert(a@ =~= point_encoding(p@, 0, 32));
    assert(b@ =~= point_encoding(p@, 64, 64));
    assert(c@ =~= point_encoding(p@, 192, 32));
    (a, b, c)
}

/// The public-values input of the verifier: the SHA-256 digest of the public
/// values with the three top bits cleared, so that it is below the field
/// modulus.
pub open spec fn public_values_input(values: Seq<u8>) -> Seq<u8> {
    spec_sha256(values).update(0, spec_sha256(values)[0] & 0x1f)
}

/// Computes the public-values input of the verifier.
pub fn public_values_digest(values: &[u8]) -> (h: Hash32)
    ensures
        h@ == public_values_input(values@),
{
    let mut h = sha256(values);
    h[0] = h[0] & 0x1f;
    h
}

} // verus!
