//! Merkle openings and their verification.

use vstd::prelude::*;

use crate::backend::bytes_eq;
use crate::hash::{Hash32, Hasher};

verus! {

/// Bit `depth` of `key`, most significant bit of each byte first.
pub open spec fn key_bit(key: Seq<u8>, depth: int) -> u8 {
    (key[depth / 8] >> ((7 - depth % 8) as u8)) & 1u8
}

/// Computes bit `depth` of `key`.
pub fn bit_at(key: &Hash32, depth: usize) -> (b: u8)
    requires
        depth < 256,
    ensures
        b == key_bit(key@, depth as int),
        b <= 1,
{
    let byte = key[depth / 8];
    let shift = (7 - depth % 8) as u8;
    let b = (byte >> shift) & 1u8;
    assert(b <= 1) by (bit_vector)
        requires
            b == (byte >> shift) & 1u8,
    ;
    b
}

/// The parent of `node` and `sibling`, where `bit` tells on which side `node` lies
/// (`0` left, `1` right).
pub open spec fn combine<H: Hasher>(bit: u8, node: Seq<u8>, sibling: Seq<u8>) -> Seq<u8> {
    if bit == 0 {
        H::spec_merge(node, sibling)
    } else {
        H::spec_merge(sibling, node)
    }
}

/// The node at depth `d` of the path that ends with `leaf` at depth `path.len()`.
///
/// `path` lists the siblings from the deepest one up: `path[0]` is the sibling
/// at depth `path.len() - 1` and `path.last()` the sibling at depth `0`.
pub open spec fn path_node<H: Hasher>(path: Seq<Seq<u8>>, key: Seq<u8>, leaf: Seq<u8>, d: int) -> Seq<
    u8,
>
    decreases path.len() - d,
{
    if d >= path.len() || d < 0 {
        leaf
    } else {
        combine::<H>(
            key_bit(key, d),
            path_node::<H>(path, key, leaf, d + 1),
            path[path.len() - 1 - d],
        )
    }
}

/// The root that `path` opens `leaf` to, following the bits of `key`.
pub open spec fn path_root<H: Hasher>(path: Seq<Seq<u8>>, key: Seq<u8>, leaf: Seq<u8>) -> Seq<u8> {
    path_node::<H>(path, key, leaf, 0)
}

/// The view of a list of hashes as byte strings.
pub open spec fn hashes_view(hs: Seq<Hash32>) -> Seq<Seq<u8>> {
    hs.map_values(|h: Hash32| h@)
}

/// Computes the parent of `node` and `sibling` for the side given by `bit`.
pub fn combine_exec<H: Hasher>(bit: u8, node: &Hash32, sibling: &Hash32) -> (r: Hash32)
    ensures
        r@ == combine::<H>(bit, node@, sibling@),
{
    if bit == 0 {
        H::merge(node, sibling)
    } else {
        H::merge(sibling, node)
    }
}

/// Compares two hashes.
pub fn hash_eq(a: &Hash32, b: &Hash32) -> (r: bool)
    ensures
        r == (a@ == b@),
{
    bytes_eq(a.as_slice(), b.as_slice())
}

/// A Merkle opening: the siblings from the leaf up to the root.
#[derive(Debug)]
pub struct Opening {
    /// The Merkle path to the root, deepest sibling first.
    pub path: Vec<Hash32>,
}

impl Opening {
    /// The siblings as byte strings.
    pub open spec fn path_view(&self) -> Seq<Seq<u8>> {
        hashes_view(self.path@)
    }

    /// Creates an opening from its path.
    pub fn new(path: Vec<Hash32>) -> (o: Self)
        ensures
            o.path@ == path@,
    {
        Opening { path }
    }

    /// Number of siblings in the opening.
    pub fn len(&self) -> (n: usize)
        ensures
            n == self.path@.len(),
    {
        self.path.len()
    }

    /// Returns `true` when the opening has no sibling.
    pub fn is_empty(&self) -> (b: bool)
        ensures
            b == (self.path@.len() == 0),
    {
        self.path.len() == 0
    }

    /// Computes the root that this opening leads `value` to along the bits of `key`.
    pub fn root<H: Hasher>(&self, key: &Hash32, value: &Hash32) -> (r: Hash32)
        requires
            self.path@.len() <= 256,
        ensures
            r@ == path_root::<H>(self.path_view(), key@, value@),
    {
        let n = self.path.len();
        let ghost p = self.path_view();
        let mut node: Hash32 = *value;
        let mut i: usize = 0;
        while i < n
            invariant
                n == self.path@.len(),
                n <= 256,
                i <= n,
                p == self.path_view(),
                node@ == path_node::<H>(p, key@, value@, n - i),
            decreases n - i,
        {
            let depth = n - 1 - i;
            let bit = bit_at(key, depth);
            node = combine_exec::<H>(bit, &node, &self.path[i]);
            i = i + 1;
        }
        node
    }

    /// Verifies that this opening leads `value` to `root` along the bits of `key`.
    ///
    /// An opening of more than 256 siblings is rejected: no tree position is
    /// that deep.
    pub fn verify<H: Hasher>(&self, root: &Hash32, key: &Hash32, value: &Hash32) -> (r: bool)
        ensures
            r == (self.path@.len() <= 256 && path_root::<H>(self.path_view(), key@, value@)
                == root@),
    {
        if self.path.len() > 256 {
            return false;
        }
        let computed = self.root::<H>(key, value);
        hash_eq(&computed, root)
    }
}

} // verus!
