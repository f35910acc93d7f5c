//! The sparse Merkle tree and its storage layout.

use core::marker::PhantomData;

use vstd::prelude::*;

use crate::backend::{copy_bytes, DataBackend};
use crate::hash::{append_bytes, Hash32, Hasher};
use crate::merkle::opening::hash_eq;

verus! {

/// Errors raised while reading or updating a sparse Merkle tree.
#[derive(Debug, Clone, Copy, PartialEq, Eq)]
pub enum SmtError {
    /// A stored children entry is not made of two hashes.
    InconsistentChildren,
    /// A stored leaf key is not a hash.
    InconsistentNodeKey,
    /// A node that should carry a leaf key has none.
    InconsistentTree,
    /// The key was depleted before a leaf was reached.
    KeyDepleted,
    /// Two keys collide over the maximum depth of the tree.
    MaxDepth,
}

/// The hash of the empty subtree: all zero bytes.
pub open spec fn zero_hash() -> Seq<u8> {
    Seq::new(32, |i: int| 0u8)
}

/// Returns the all-zero hash.
pub fn zero() -> (h: Hash32)
    ensures
        h@ == zero_hash(),
{
    let h = [0u8; 32];
    assert(h@ =~= zero_hash());
    h
}

/// Reads a hash from 32 bytes of `s` starting at `start`.
pub fn hash_from_slice(s: &[u8], start: usize) -> (h: Hash32)
    requires
        start + 32 <= s@.len(),
    ensures
        h@ == s@.subrange(start as int, start + 32),
{
    let mut h = [0u8; 32];
    let n = s.len();
    let mut i: usize = 0;
    while i < 32
        invariant
            i <= 32,
            n == s@.len(),
            start + 32 <= s@.len(),
            forall|j: int| 0 <= j < i ==> h@[j] == s@[start + j],
        decreases 32 - i,
    {
        h[i] = s[start + i];
        i = i + 1;
    }
    assert(h@ =~= s@.subrange(start as int, start + 32));
    h
}

/// A children tuple of a parent node in the sparse Merkle tree.
#[derive(Debug, Clone, Copy, PartialEq, Eq)]
pub struct SmtChildren {
    /// The left child associated with `0` in the key traversal.
    pub left: Hash32,
    /// The right child associated with `1` in the key traversal.
    pub right: Hash32,
}

impl SmtChildren {
    /// The stored bytes of the children: left then right.
    pub open spec fn bytes_view(&self) -> Seq<u8> {
        self.left@ + self.right@
    }

    /// Computes the parent node of these children.
    pub fn parent<H: Hasher>(&self) -> (h: Hash32)
        ensures
            h@ == H::spec_merge(self.left@, self.right@),
    {
        H::merge(&self.left, &self.right)
    }

    /// Serializes the children: left then right.
    pub fn to_bytes(&self) -> (v: Vec<u8>)
        ensures
            v@ == self.bytes_view(),
    {
        let mut v: Vec<u8> = Vec::new();
        append_bytes(&mut v, self.left.as_slice());
        append_bytes(&mut v, self.right.as_slice());
        v
    }

    /// Reads children from 64 bytes; fails on any other length.
    pub fn from_bytes(b: &[u8]) -> (r: Option<SmtChildren>)
        ensures
            r is Some <==> b@.len() == 64,
            r matches Some(c) ==> c.left@ == b@.subrange(0, 32) && c.right@ == b@.subrange(32, 64),
    {
        if b.len() != 64 {
            return None;
        }
        Some(SmtChildren { left: hash_from_slice(b, 0), right: hash_from_slice(b, 32) })
    }
}

/// The children read from stored bytes, when they are 64 bytes long.
pub open spec fn parse_children(v: Seq<u8>) -> Option<(Seq<u8>, Seq<u8>)> {
    if v.len() == 64 {
        Some((v.subrange(0, 32), v.subrange(32, 64)))
    } else {
        None
    }
}

/// Every entry of `store` under namespace `nn` that holds two hashes is keyed
/// by their merge.
pub open spec fn store_consistent<H: Hasher>(
    store: Map<(Seq<u8>, Seq<u8>), Seq<u8>>,
    nn: Seq<u8>,
) -> bool {
    forall|n: Seq<u8>|
        #[trigger] store.contains_key((nn, n)) && store[(nn, n)].len() == 64 ==> n
            == H::spec_merge(store[(nn, n)].subrange(0, 32), store[(nn, n)].subrange(32, 64))
}

/// Removing an entry keeps a store consistent.
pub proof fn lemma_remove_keeps_consistent<H: Hasher>(
    store: Map<(Seq<u8>, Seq<u8>), Seq<u8>>,
    nn: Seq<u8>,
    k: (Seq<u8>, Seq<u8>),
)
    requires
        store_consistent::<H>(store, nn),
    ensures
        store_consistent::<H>(store.remove(k), nn),
{
    let s2 = store.remove(k);
    assert forall|n: Seq<u8>|
        #[trigger] s2.contains_key((nn, n)) && s2[(nn, n)].len() == 64 implies n == H::spec_merge(
        s2[(nn, n)].subrange(0, 32),
        s2[(nn, n)].subrange(32, 64),
    ) by {
        assert(store.contains_key((nn, n)));
    }
}

/// Inserting an entry outside the namespace, or one keyed by the merge of the
/// two hashes it holds, keeps a store consistent.
pub proof fn lemma_insert_keeps_consistent<H: Hasher>(
    store: Map<(Seq<u8>, Seq<u8>), Seq<u8>>,
    nn: Seq<u8>,
    k: (Seq<u8>, Seq<u8>),
    v: Seq<u8>,
)
    requires
        store_consistent::<H>(store, nn),
        k.0 == nn && v.len() == 64 ==> k.1 == H::spec_merge(v.subrange(0, 32), v.subrange(32, 64)),
    ensures
        store_consistent::<H>(store.insert(k, v), nn),
{
    let s2 = store.insert(k, v);
    assert forall|n: Seq<u8>|
        #[trigger] s2.contains_key((nn, n)) && s2[(nn, n)].len() == 64 implies n == H::spec_merge(
        s2[(nn, n)].subrange(0, 32),
        s2[(nn, n)].subrange(32, 64),
    ) by {
        if (nn, n) != k {
            assert(store.contains_key((nn, n)));
        }
    }
}

/// Storing a children entry of two hashes (and dropping the node's leaf key)
/// keeps a well-encoded store well encoded.
pub(crate) proof fn lemma_encoded_after_children<D: DataBackend, H: Hasher>(
    before: Smt<D, H>,
    after: Smt<D, H>,
    parent: Seq<u8>,
    bytes: Seq<u8>,
)
    requires
        before.well_encoded(),
        before.distinct_namespaces(),
        after.same_namespaces(&before),
        bytes.len() == 64,
        after.store() == before.store().remove((before.namespace_key@, parent)).insert(
            (before.namespace_node@, parent),
            bytes,
        ),
    ensures
        after.well_encoded(),
{
    assert forall|n: Seq<u8>| #[trigger] after.has_children_entry(n) implies after.children_entry(n).len()
        == 64 by {
        if n != parent {
            assert(before.has_children_entry(n));
        }
    }
    assert forall|n: Seq<u8>| #[trigger] after.has_key_entry(n) implies after.key_entry(n).len() == 32 by {
        assert(before.has_key_entry(n));
    }
}

/// Storing a leaf key of 32 bytes keeps a well-encoded store well encoded.
pub(crate) proof fn lemma_encoded_after_key<D: DataBackend, H: Hasher>(
    before: Smt<D, H>,
    after: Smt<D, H>,
    node: Seq<u8>,
    key: Seq<u8>,
)
    requires
        before.well_encoded(),
        before.distinct_namespaces(),
        after.same_namespaces(&before),
        key.len() == 32,
        after.store() == before.store().insert((before.namespace_key@, node), key),
    ensures
        after.well_encoded(),
{
    assert forall|n: Seq<u8>| #[trigger] after.has_children_entry(n) implies after.children_entry(n).len()
        == 64 by {
        assert(before.has_children_entry(n));
    }
    assert forall|n: Seq<u8>| #[trigger] after.has_key_entry(n) implies after.key_entry(n).len() == 32 by {
        if n != node {
            assert(before.has_key_entry(n));
        }
    }
}

/// Storing a payload keeps a well-encoded store well encoded.
pub(crate) proof fn lemma_encoded_after_data<D: DataBackend, H: Hasher>(
    before: Smt<D, H>,
    after: Smt<D, H>,
    key: Seq<u8>,
    data: Seq<u8>,
)
    requires
        before.well_encoded(),
        before.distinct_namespaces(),
        after.same_namespaces(&before),
        after.store() == before.store().insert((before.namespace_data@, key), data),
    ensures
        after.well_encoded(),
{
    assert forall|n: Seq<u8>| #[trigger] after.has_children_entry(n) implies after.children_entry(n).len()
        == 64 by {
        assert(before.has_children_entry(n));
    }
    assert forall|n: Seq<u8>| #[trigger] after.has_key_entry(n) implies after.key_entry(n).len() == 32 by {
        assert(before.has_key_entry(n));
    }
}

/// A store that keeps part of the entries of a well-encoded store is well
/// encoded.
pub(crate) proof fn lemma_encoded_submap<D: DataBackend, H: Hasher>(before: Smt<D, H>, after: Smt<D, H>)
    requires
        before.well_encoded(),
        after.same_namespaces(&before),
        after.store().submap_of(before.store()),
    ensures
        after.well_encoded(),
{
    assert forall|n: Seq<u8>| #[trigger] after.has_children_entry(n) implies after.children_entry(n).len()
        == 64 by {
        assert(before.has_children_entry(n));
    }
    assert forall|n: Seq<u8>| #[trigger] after.has_key_entry(n) implies after.key_entry(n).len() == 32 by {
        assert(before.has_key_entry(n));
    }
}

/// Every entry of `after` outside the three namespaces of `before` is as it
/// was in `before`.
pub open spec fn same_outside<D: DataBackend, H: Hasher>(after: Smt<D, H>, before: Smt<D, H>) -> bool {
    forall|k: (Seq<u8>, Seq<u8>)|
        k.0 != before.namespace_node@ && k.0 != before.namespace_key@ && k.0 != before.namespace_data@
            ==> (#[trigger] after.store().contains_key(k) == before.store().contains_key(k) && (
        before.store().contains_key(k) ==> after.store()[k] == before.store()[k]))
}

/// Writing or removing entries of a tree's own namespaces keeps the others.
pub(crate) proof fn lemma_outside_after_write<D: DataBackend, H: Hasher>(
    before: Smt<D, H>,
    after: Smt<D, H>,
    removed: (Seq<u8>, Seq<u8>),
    written: (Seq<u8>, Seq<u8>),
    v: Seq<u8>,
)
    requires
        removed.0 == before.namespace_node@ || removed.0 == before.namespace_key@ || removed.0
            == before.namespace_data@,
        written.0 == before.namespace_node@ || written.0 == before.namespace_key@ || written.0
            == before.namespace_data@,
        after.store() == before.store().remove(removed).insert(written, v) || after.store()
            == before.store().insert(written, v) || after.store() == before.store().remove(removed),
    ensures
        same_outside(after, before),
{
}

/// A namespace that is none of a tree's own stays consistent through any change
/// that keeps what lies outside the tree's namespaces.
///
/// This is how a second tree on the same backend is made well formed after a
/// first one was written: its node namespace, checked to differ from the
/// first tree's three, is untouched.
pub proof fn lemma_consistent_elsewhere<D: DataBackend, H: Hasher>(
    before: Smt<D, H>,
    after: Smt<D, H>,
    n: Seq<u8>,
)
    requires
        same_outside(after, before),
        store_consistent::<H>(before.store(), n),
        n != before.namespace_node@,
        n != before.namespace_key@,
        n != before.namespace_data@,
    ensures
        store_consistent::<H>(after.store(), n),
{
    assert forall|m: Seq<u8>|
        #[trigger] after.store().contains_key((n, m)) && after.store()[(n, m)].len() == 64 implies m
        == H::spec_merge(after.store()[(n, m)].subrange(0, 32), after.store()[(n, m)].subrange(32, 64)) by {
        assert(before.store().contains_key((n, m)) == after.store().contains_key((n, m)));
    }
}

/// Keeping the other namespaces composes.
pub(crate) proof fn lemma_outside_trans<D: DataBackend, H: Hasher>(
    a: Smt<D, H>,
    b: Smt<D, H>,
    c: Smt<D, H>,
)
    requires
        same_outside(b, a),
        same_outside(c, b),
        b.same_namespaces(&a),
    ensures
        same_outside(c, a),
{
    assert forall|k: (Seq<u8>, Seq<u8>)|
        k.0 != a.namespace_node@ && k.0 != a.namespace_key@ && k.0 != a.namespace_data@ implies (
    #[trigger] c.store().contains_key(k) == a.store().contains_key(k) && (a.store().contains_key(k)
        ==> c.store()[k] == a.store()[k])) by {
        assert(b.store().contains_key(k) == a.store().contains_key(k));
        assert(c.store().contains_key(k) == b.store().contains_key(k));
    }
}

/// A sparse Merkle tree stored in a data backend.
///
/// Tree nodes map to their children under `namespace_node`, leaves map to
/// their keys under `namespace_key` and keys map to their payload under
/// `namespace_data`.
pub struct Smt<D: DataBackend, H: Hasher> {
    pub namespace_node: Hash32,
    pub namespace_data: Hash32,
    pub namespace_key: Hash32,
    pub d: D,
    pub h: PhantomData<H>,
}

impl<D: DataBackend, H: Hasher> Smt<D, H> {
    /// The backend contents.
    pub open spec fn store(&self) -> Map<(Seq<u8>, Seq<u8>), Seq<u8>> {
        self.d.store()
    }

    /// Whether `n` has a stored children entry.
    pub open spec fn has_children_entry(&self, n: Seq<u8>) -> bool {
        self.store().contains_key((self.namespace_node@, n))
    }

    /// The stored children entry of `n`.
    pub open spec fn children_entry(&self, n: Seq<u8>) -> Seq<u8> {
        self.store()[(self.namespace_node@, n)]
    }

    /// Whether `n` has a stored leaf key.
    pub open spec fn has_key_entry(&self, n: Seq<u8>) -> bool {
        self.store().contains_key((self.namespace_key@, n))
    }

    /// The stored leaf key of `n`.
    pub open spec fn key_entry(&self, n: Seq<u8>) -> Seq<u8> {
        self.store()[(self.namespace_key@, n)]
    }

    /// Every stored children entry of two hashes is stored under their merge.
    pub open spec fn consistent(&self) -> bool {
        store_consistent::<H>(self.store(), self.namespace_node@)
    }

    /// The three namespaces are distinct.
    pub open spec fn distinct_namespaces(&self) -> bool {
        &&& self.namespace_node@ != self.namespace_data@
        &&& self.namespace_node@ != self.namespace_key@
        &&& self.namespace_key@ != self.namespace_data@
    }

    /// The tree is well formed: distinct namespaces and consistent children.
    pub open spec fn wf(&self) -> bool {
        self.consistent() && self.distinct_namespaces()
    }

    /// The tree parts that stay when only the backend changes.
    pub open spec fn same_namespaces(&self, other: &Self) -> bool {
        &&& self.namespace_node == other.namespace_node
        &&& self.namespace_data == other.namespace_data
        &&& self.namespace_key == other.namespace_key
    }

    /// Returns the root of an empty tree: the all-zero hash.
    ///
    /// This is a stateless computation that does not touch the data backend.
    pub fn empty_tree_root() -> (h: Hash32)
        ensures
            h@ == zero_hash(),
    {
        zero()
    }

    /// Returns `true` if `node` is the empty node or carries a leaf key.
    pub fn is_leaf(&self, node: &Hash32) -> (r: bool)
        ensures
            r == (node@ == zero_hash() || self.has_key_entry(node@)),
    {
        let z = zero();
        hash_eq(node, &z) || self.has_node_key(node)
    }

    /// Reads the children stored for `parent`.
    pub fn get_children(&self, parent: &Hash32) -> (r: Result<Option<SmtChildren>, SmtError>)
        ensures
            !self.has_children_entry(parent@) ==> r == Ok::<Option<SmtChildren>, SmtError>(None),
            self.has_children_entry(parent@) ==> match parse_children(self.children_entry(parent@)) {
                Some(c) => r matches Ok(Some(x)) && x.left@ == c.0 && x.right@ == c.1,
                None => r == Err::<Option<SmtChildren>, SmtError>(SmtError::InconsistentChildren),
            },
    {
        let ns = self.namespace_node;
        match self.d.get(ns.as_slice(), parent.as_slice()) {
            None => Ok(None),
            Some(data) => match SmtChildren::from_bytes(data.as_slice()) {
                Some(c) => Ok(Some(c)),
                None => Err(SmtError::InconsistentChildren),
            },
        }
    }

    /// Stores `children` under `parent`, which then no longer carries a leaf key.
    ///
    /// Returns the children that were stored before, if any.
    pub fn insert_children(&mut self, parent: &Hash32, children: &SmtChildren) -> (r: Result<
        Option<SmtChildren>,
        SmtError,
    >)
        requires
            old(self).wf(),
            parent@ == H::spec_merge(children.left@, children.right@),
        ensures
            final(self).wf(),
            final(self).same_namespaces(old(self)),
            final(self).store() == old(self).store().remove(
                (old(self).namespace_key@, parent@),
            ).insert((old(self).namespace_node@, parent@), children.bytes_view()),
            !old(self).has_children_entry(parent@) ==> r == Ok::<Option<SmtChildren>, SmtError>(
                None,
            ),
            old(self).has_children_entry(parent@) ==> match parse_children(
                old(self).children_entry(parent@),
            ) {
                Some(c) => r matches Ok(Some(x)) && x.left@ == c.0 && x.right@ == c.1,
                None => r == Err::<Option<SmtChildren>, SmtError>(SmtError::InconsistentChildren),
            },
            old(self).well_encoded() ==> final(self).well_encoded() && r is Ok,
            same_outside(*final(self), *old(self)),
    {
        let bytes = children.to_bytes();
        let nk = self.namespace_key;
        let nn = self.namespace_node;
        self.d.remove(nk.as_slice(), parent.as_slice());
        let ghost removed = old(self).store().remove((nk@, parent@));
        let prev = self.d.set(nn.as_slice(), parent.as_slice(), bytes.as_slice());
        proof {
            assert(children.bytes_view().subrange(0, 32) =~= children.left@);
            assert(children.bytes_view().subrange(32, 64) =~= children.right@);
            lemma_remove_keeps_consistent::<H>(old(self).store(), nn@, (nk@, parent@));
            lemma_insert_keeps_consistent::<H>(removed, nn@, (nn@, parent@), bytes@);
            if old(self).well_encoded() {
                lemma_encoded_after_children(*old(self), *self, parent@, bytes@);
            }
            lemma_outside_after_write(*old(self), *self, (nk@, parent@), (nn@, parent@), bytes@);
        }
        match prev {
            None => Ok(None),
            Some(data) => match SmtChildren::from_bytes(data.as_slice()) {
                Some(c) => Ok(Some(c)),
                None => Err(SmtError::InconsistentChildren),
            },
        }
    }

    /// Removes the children stored for `parent`, returning them.
    pub fn remove_children(&mut self, parent: &Hash32) -> (r: Result<Option<SmtChildren>, SmtError>)
        requires
            old(self).wf(),
        ensures
            final(self).wf(),
            final(self).same_namespaces(old(self)),
            final(self).store() == old(self).store().remove((old(self).namespace_node@, parent@)),
            !old(self).has_children_entry(parent@) ==> r == Ok::<Option<SmtChildren>, SmtError>(
                None,
            ),
            old(self).has_children_entry(parent@) ==> match parse_children(
                old(self).children_entry(parent@),
            ) {
                Some(c) => r matches Ok(Some(x)) && x.left@ == c.0 && x.right@ == c.1,
                None => r == Err::<Option<SmtChildren>, SmtError>(SmtError::InconsistentChildren),
            },
    {
        let nn = self.namespace_node;
        proof {
            lemma_remove_keeps_consistent::<H>(old(self).store(), nn@, (nn@, parent@));
        }
        match self.d.remove(nn.as_slice(), parent.as_slice()) {
            None => Ok(None),
            Some(data) => match SmtChildren::from_bytes(data.as_slice()) {
                Some(c) => Ok(Some(c)),
                None => Err(SmtError::InconsistentChildren),
            },
        }
    }

    /// Removes the leaf key of `node`, returning it.
    pub fn remove_node_key(&mut self, node: &Hash32) -> (r: Result<Option<Hash32>, SmtError>)
        requires
            old(self).wf(),
        ensures
            final(self).wf(),
            final(self).same_namespaces(old(self)),
            final(self).store() == old(self).store().remove((old(self).namespace_key@, node@)),
            !old(self).has_key_entry(node@) ==> r == Ok::<Option<Hash32>, SmtError>(None),
            old(self).has_key_entry(node@) && old(self).key_entry(node@).len() == 32 ==> (r matches Ok(
                Some(k),
            ) && k@ == old(self).key_entry(node@)),
            old(self).has_key_entry(node@) && old(self).key_entry(node@).len() != 32 ==> r == Err::<
                Option<Hash32>,
                SmtError,
            >(SmtError::InconsistentNodeKey),
    {
        let nk = self.namespace_key;
        proof {
            lemma_remove_keeps_consistent::<H>(old(self).store(), self.namespace_node@, (nk@, node@));
        }
        match self.d.remove(nk.as_slice(), node.as_slice()) {
            None => Ok(None),
            Some(data) => {
                if data.len() == 32 {
                    let k = hash_from_slice(data.as_slice(), 0);
                    assert(data@.subrange(0, 32) =~= data@);
                    Ok(Some(k))
                } else {
                    Err(SmtError::InconsistentNodeKey)
                }
            },
        }
    }

    /// Reads the leaf key of `node`.
    pub fn get_node_key(&self, node: &Hash32) -> (r: Result<Option<Hash32>, SmtError>)
        ensures
            !self.has_key_entry(node@) ==> r == Ok::<Option<Hash32>, SmtError>(None),
            self.has_key_entry(node@) && self.key_entry(node@).len() == 32 ==> (r matches Ok(Some(k))
                && k@ == self.key_entry(node@)),
            self.has_key_entry(node@) && self.key_entry(node@).len() != 32 ==> r == Err::<
                Option<Hash32>,
                SmtError,
            >(SmtError::InconsistentNodeKey),
    {
        let nk = self.namespace_key;
        match self.d.get(nk.as_slice(), node.as_slice()) {
            None => Ok(None),
            Some(data) => {
                if data.len() == 32 {
                    let k = hash_from_slice(data.as_slice(), 0);
                    assert(data@.subrange(0, 32) =~= data@);
                    Ok(Some(k))
                } else {
                    Err(SmtError::InconsistentNodeKey)
                }
            },
        }
    }

    /// Returns `true` if `node` carries a leaf key.
    pub fn has_node_key(&self, node: &Hash32) -> (r: bool)
        ensures
            r == self.has_key_entry(node@),
    {
        let nk = self.namespace_key;
        self.d.has(nk.as_slice(), node.as_slice())
    }

    /// Links the leaf `node` to its `key`, returning the key it replaced.
    ///
    /// A replaced entry that is not a hash reads as the all-zero hash.
    pub fn insert_node_key(&mut self, node: &Hash32, key: &Hash32) -> (r: Option<Hash32>)
        requires
            old(self).wf(),
        ensures
            final(self).wf(),
            final(self).same_namespaces(old(self)),
            final(self).store() == old(self).store().insert(
                (old(self).namespace_key@, node@),
                key@,
            ),
            r is Some <==> old(self).has_key_entry(node@),
            r matches Some(k) ==> k@ == (if old(self).key_entry(node@).len() == 32 {
                old(self).key_entry(node@)
            } else {
                zero_hash()
            }),
    {
        let nk = self.namespace_key;
        proof {
            lemma_insert_keeps_consistent::<H>(old(self).store(), self.namespace_node@, (nk@, node@), key@);
        }
        match self.d.set(nk.as_slice(), node.as_slice(), key.as_slice()) {
            None => None,
            Some(data) => {
                if data.len() == 32 {
                    let k = hash_from_slice(data.as_slice(), 0);
                    assert(data@.subrange(0, 32) =~= data@);
                    Some(k)
                } else {
                    Some(zero())
                }
            },
        }
    }

    /// Removes the payload of `key`, returning it.
    pub fn remove_key_data(&mut self, key: &Hash32) -> (r: Option<Vec<u8>>)
        requires
            old(self).wf(),
        ensures
            final(self).wf(),
            final(self).same_namespaces(old(self)),
            final(self).store() == old(self).store().remove((old(self).namespace_data@, key@)),
            r is Some <==> old(self).store().contains_key((old(self).namespace_data@, key@)),
            r matches Some(v) ==> v@ == old(self).store()[(old(self).namespace_data@, key@)],
    {
        let ns = self.namespace_data;
        proof {
            lemma_remove_keeps_consistent::<H>(old(self).store(), self.namespace_node@, (ns@, key@));
        }
        self.d.remove(ns.as_slice(), key.as_slice())
    }

    /// Stores `data` as the payload of `key`, returning the replaced payload.
    pub fn insert_key_data(&mut self, key: &Hash32, data: &[u8]) -> (r: Option<Vec<u8>>)
        requires
            old(self).wf(),
        ensures
            final(self).wf(),
            final(self).same_namespaces(old(self)),
            final(self).store() == old(self).store().insert(
                (old(self).namespace_data@, key@),
                data@,
            ),
            r is Some <==> old(self).store().contains_key((old(self).namespace_data@, key@)),
            r matches Some(v) ==> v@ == old(self).store()[(old(self).namespace_data@, key@)],
    {
        let ns = self.namespace_data;
        proof {
            lemma_insert_keeps_consistent::<H>(old(self).store(), self.namespace_node@, (ns@, key@), data@);
        }
        self.d.set(ns.as_slice(), key.as_slice(), data)
    }

    /// Returns the payload stored for `key`.
    pub fn get_key_data(&self, key: &Hash32) -> (r: Option<Vec<u8>>)
        ensures
            r is Some <==> self.store().contains_key((self.namespace_data@, key@)),
            r matches Some(v) ==> v@ == self.store()[(self.namespace_data@, key@)],
    {
        let ns = self.namespace_data;
        self.d.get(ns.as_slice(), key.as_slice())
    }

    /// Creates a tree over `d` with the default namespace.
    pub fn from(d: D) -> (s: Self)
        ensures
            s.store() == d.store(),
            s.namespace_node@ == H::spec_digest(seq![PREFIX_NODE@, DEFAULT_NAMESPACE@]),
            s.namespace_data@ == H::spec_digest(seq![PREFIX_DATA@, DEFAULT_NAMESPACE@]),
            s.namespace_key@ == H::spec_digest(seq![PREFIX_KEY@, DEFAULT_NAMESPACE@]),
    {
        let s = Smt { namespace_node: [0u8; 32], namespace_data: [0u8; 32], namespace_key: [0u8; 32], d, h: PhantomData };
        let ns = DEFAULT_NAMESPACE;
        s.with_namespace(ns.as_slice())
    }

    /// Creates a tree over `d` with the namespaces derived from `namespace`,
    /// when the three of them are distinct.
    ///
    /// The tree it returns is well formed, so every operation can be called on
    /// it; `None` comes only where two derived namespaces coincide.
    pub fn checked(d: D, namespace: &[u8]) -> (r: Option<Self>)
        requires
            store_consistent::<H>(d.store(), H::spec_digest(seq![PREFIX_NODE@, namespace@])),
        ensures
            r is Some <==> ({
                let n = H::spec_digest(seq![PREFIX_NODE@, namespace@]);
                let a = H::spec_digest(seq![PREFIX_DATA@, namespace@]);
                let k = H::spec_digest(seq![PREFIX_KEY@, namespace@]);
                n != a && n != k && k != a
            }),
            r matches Some(s) ==> {
                &&& s.wf()
                &&& s.d == d
                &&& s.namespace_node@ == H::spec_digest(seq![PREFIX_NODE@, namespace@])
                &&& s.namespace_data@ == H::spec_digest(seq![PREFIX_DATA@, namespace@])
                &&& s.namespace_key@ == H::spec_digest(seq![PREFIX_KEY@, namespace@])
            },
    {
        let s = Smt { namespace_node: [0u8; 32], namespace_data: [0u8; 32], namespace_key: [0u8; 32], d, h: PhantomData };
        let s = s.with_namespace(namespace);
        if hash_eq(&s.namespace_node, &s.namespace_data) || hash_eq(&s.namespace_node, &s.namespace_key)
            || hash_eq(&s.namespace_key, &s.namespace_data) {
            None
        } else {
            Some(s)
        }
    }

    /// Derives the three namespaces of the tree from `namespace`.
    ///
    /// Compound openings rely on it: each tree of a compound has its own namespace.
    pub fn with_namespace(self, namespace: &[u8]) -> (s: Self)
        ensures
            s.d == self.d,
            s.namespace_node@ == H::spec_digest(seq![PREFIX_NODE@, namespace@]),
            s.namespace_data@ == H::spec_digest(seq![PREFIX_DATA@, namespace@]),
            s.namespace_key@ == H::spec_digest(seq![PREFIX_KEY@, namespace@]),
    {
        let prefix_node = PREFIX_NODE;
        let prefix_data = PREFIX_DATA;
        let prefix_key = PREFIX_KEY;
        let node_parts: [&[u8]; 2] = [prefix_node.as_slice(), namespace];
        let data_parts: [&[u8]; 2] = [prefix_data.as_slice(), namespace];
        let key_parts: [&[u8]; 2] = [prefix_key.as_slice(), namespace];
        let namespace_node = H::digest(node_parts.as_slice());
        let namespace_data = H::digest(data_parts.as_slice());
        let namespace_key = H::digest(key_parts.as_slice());
        assert(node_parts@.map_values(|p: &[u8]| p@) =~= seq![PREFIX_NODE@, namespace@]);
        assert(data_parts@.map_values(|p: &[u8]| p@) =~= seq![PREFIX_DATA@, namespace@]);
        assert(key_parts@.map_values(|p: &[u8]| p@) =~= seq![PREFIX_KEY@, namespace@]);
        Smt { namespace_node, namespace_data, namespace_key, d: self.d, h: PhantomData }
    }
}

impl<D: DataBackend + Default, H: Hasher> Default for Smt<D, H> {
    /// A tree over a default backend, with the default namespace.
    fn default() -> (s: Self)
        ensures
            s.namespace_node@ == H::spec_digest(seq![PREFIX_NODE@, DEFAULT_NAMESPACE@]),
            s.namespace_data@ == H::spec_digest(seq![PREFIX_DATA@, DEFAULT_NAMESPACE@]),
            s.namespace_key@ == H::spec_digest(seq![PREFIX_KEY@, DEFAULT_NAMESPACE@]),
    {
        Smt::from(D::default())
    }
}

impl<D: DataBackend + Clone, H: Hasher> Clone for Smt<D, H> {
    /// A tree over a clone of the backend, with the default namespace (the
    /// namespace of `self` is not carried over).
    fn clone(&self) -> (s: Self)
        ensures
            s.namespace_node@ == H::spec_digest(seq![PREFIX_NODE@, DEFAULT_NAMESPACE@]),
            s.namespace_data@ == H::spec_digest(seq![PREFIX_DATA@, DEFAULT_NAMESPACE@]),
            s.namespace_key@ == H::spec_digest(seq![PREFIX_KEY@, DEFAULT_NAMESPACE@]),
    {
        Smt::from(self.d.clone())
    }
}

/// Prefix of the tree-node namespace.
pub const PREFIX_NODE: [u8; 8] = [115u8, 109u8, 116u8, 45u8, 110u8, 111u8, 100u8, 101u8];

/// Prefix of the data namespace.
pub const PREFIX_DATA: [u8; 8] = [115u8, 109u8, 116u8, 45u8, 100u8, 97u8, 116u8, 97u8];

/// Prefix of the leaf-key namespace.
pub const PREFIX_KEY: [u8; 7] = [115u8, 109u8, 116u8, 45u8, 107u8, 101u8, 121u8];

/// Default namespace.
pub const DEFAULT_NAMESPACE: [u8; 3] = [115u8, 109u8, 116u8];

} // verus!
