//! Hashing of tree nodes, leaves and keys.

use sha2::Digest;
use vstd::prelude::*;

verus! {

/// Length in bytes of a hash.
pub const HASH_LEN: usize = 32;

/// A 32-byte hash value.
pub type Hash32 = [u8; 32];

/// The SHA-256 digest of a byte string.
pub uninterp spec fn spec_sha256(data: Seq<u8>) -> Seq<u8>;

/// Calls `sha2::Sha256::digest`; the result is named by `spec_sha256` of the input bytes.
#[verifier::external_body]
pub(crate) fn sha256(data: &[u8]) -> (out: Hash32)
    ensures
        out@ == spec_sha256(data@),
{
    sha2::Sha256::digest(data).into()
}

/// Appends `src` to the end of `dst`.
pub fn append_bytes(dst: &mut Vec<u8>, src: &[u8])
    ensures
        final(dst)@ == old(dst)@ + src@,
{
    let mut i: usize = 0;
    while i < src.len()
        invariant
            i <= src@.len(),
            dst@ == old(dst)@ + src@.subrange(0, i as int),
        decreases src@.len() - i,
    {
        dst.push(src[i]);
        i = i + 1;
        assert(src@.subrange(0, i as int) =~= src@.subrange(0, i - 1) + seq![src@[i - 1]]);
    }
    assert(src@.subrange(0, src@.len() as int) =~= src@);
}

/// A hash function family used by the sparse Merkle tree.
///
/// `key` derives a tree key from a context and data, `hash` computes leaf
/// values, `merge` computes a parent from its two children and `digest`
/// hashes a list of byte strings as their concatenation.
pub trait Hasher {
    spec fn spec_key(context: Seq<char>, data: Seq<u8>) -> Seq<u8>;

    spec fn spec_hash(data: Seq<u8>) -> Seq<u8>;

    spec fn spec_merge(a: Seq<u8>, b: Seq<u8>) -> Seq<u8>;

    spec fn spec_digest(parts: Seq<Seq<u8>>) -> Seq<u8>;

    fn key(context: &str, data: &[u8]) -> (r: Hash32)
        ensures
            r@ == Self::spec_key(context@, data@),
    ;

    fn hash(data: &[u8]) -> (r: Hash32)
        ensures
            r@ == Self::spec_hash(data@),
    ;

    fn merge(a: &Hash32, b: &Hash32) -> (r: Hash32)
        ensures
            r@ == Self::spec_merge(a@, b@),
    ;

    fn digest(parts: &[&[u8]]) -> (r: Hash32)
        ensures
            r@ == Self::spec_digest(parts@.map_values(|p: &[u8]| p@)),
    ;
}

/// The SHA-256 based hasher of the SP1 runtime.
///
/// Leaves and digests are prefixed with `0x00`, node merges with `0x01`;
/// keys hash the UTF-8 context followed by the data.
pub struct Sp1Hasher;

impl Sp1Hasher {
    /// Prefix byte of data hashes.
    pub const DATA_PREFIX: u8 = 0u8;

    /// Prefix byte of node merges.
    pub const MERGE_PREFIX: u8 = 1u8;
}

impl Hasher for Sp1Hasher {
    open spec fn spec_key(context: Seq<char>, data: Seq<u8>) -> Seq<u8> {
        spec_sha256(vstd::utf8::encode_utf8(context) + data)
    }

    open spec fn spec_hash(data: Seq<u8>) -> Seq<u8> {
        spec_sha256(seq![0u8] + data)
    }

    open spec fn spec_merge(a: Seq<u8>, b: Seq<u8>) -> Seq<u8> {
        spec_sha256(seq![1u8] + a + b)
    }

    open spec fn spec_digest(parts: Seq<Seq<u8>>) -> Seq<u8> {
        spec_sha256(seq![0u8] + parts.flatten())
    }

    fn key(context: &str, data: &[u8]) -> (r: Hash32) {
        let mut buf: Vec<u8> = Vec::new();
        append_bytes(&mut buf, context.as_bytes());
        append_bytes(&mut buf, data);
        sha256(buf.as_slice())
    }

    fn hash(data: &[u8]) -> (r: Hash32) {
        let mut buf: Vec<u8> = Vec::new();
        buf.push(Self::DATA_PREFIX);
        append_bytes(&mut buf, data);
        sha256(buf.as_slice())
    }

    fn merge(a: &Hash32, b: &Hash32) -> (r: Hash32) {
        let mut buf: Vec<u8> = Vec::new();
        buf.push(Self::MERGE_PREFIX);
        append_bytes(&mut buf, a.as_slice());
        append_bytes(&mut buf, b.as_slice());
        sha256(buf.as_slice())
    }

    fn digest(parts: &[&[u8]]) -> (r: Hash32) {
        let ghost views = parts@.map_values(|p: &[u8]| p@);
        let mut buf: Vec<u8> = Vec::new();
        buf.push(Self::DATA_PREFIX);
        let mut i: usize = 0;
        while i < parts.len()
            invariant
                i <= parts@.len(),
                views == parts@.map_values(|p: &[u8]| p@),
                buf@ == seq![0u8] + views.subrange(0, i as int).flatten_alt(),
            decreases parts@.len() - i,
        {
            append_bytes(&mut buf, parts[i]);
            i = i + 1;
            assert(views.subrange(0, i as int).drop_last() =~= views.subrange(0, i - 1));
        }
        assert(views.subrange(0, parts@.len() as int) =~= views);
        proof {
            views.lemma_flatten_and_flatten_alt_are_equivalent();
        }
        sha256(buf.as_slice())
    }
}

} // verus!
