//! Reading openings out of a sparse Merkle tree.

use vstd::prelude::*;

use crate::backend::DataBackend;
use crate::hash::{Hash32, Hasher};
use crate::merkle::opening::{bit_at, combine, hash_eq, key_bit, path_node, path_root, Opening};
use crate::merkle::smt::{parse_children, zero, zero_hash, Smt, SmtError};

verus! {

/// A Merkle opening along the path of a key, with the node it reaches.
#[derive(Debug)]
pub struct KeyedOpening {
    /// The leaf key of the reached node, when it has one.
    pub key: Option<Hash32>,
    /// The reached node.
    pub node: Hash32,
    /// The Merkle path from the reached node to the root.
    pub opening: Opening,
}

impl KeyedOpening {
    /// Verifies the opening of the reached node to `root`, along the bits of its
    /// leaf key (the all-zero key when it has none).
    pub fn verify<H: Hasher>(&self, root: &Hash32) -> (r: bool)
        ensures
            r == (self.opening.path@.len() <= 256 && path_root::<H>(
                self.opening.path_view(),
                match self.key {
                    Some(k) => k@,
                    None => zero_hash(),
                },
                self.node@,
            ) == root@),
    {
        let key = match self.key {
            Some(k) => k,
            None => zero(),
        };
        self.opening.verify::<H>(root, &key, &self.node)
    }
}

/// The preimage of the node that a non-membership opening reaches.
#[derive(Debug)]
pub enum Preimage {
    /// The empty node.
    Zero,
    /// A leaf with this payload.
    Data(Vec<u8>),
}

/// The node that a preimage hashes to.
pub open spec fn preimage_node<H: Hasher>(p: Preimage) -> Seq<u8> {
    match p {
        Preimage::Zero => zero_hash(),
        Preimage::Data(d) => H::spec_hash(d@),
    }
}

/// A proof that a value is not the leaf of a key.
#[derive(Debug)]
pub struct OpeningNonMembership {
    /// The preimage of the node on the path of the key.
    pub preimage: Preimage,
    /// The Merkle path from that node to the root.
    pub opening: Opening,
}

impl OpeningNonMembership {
    /// Verifies that the node of the preimage opens to `root` along the bits of
    /// `key`, and that this node is not `value`.
    pub fn verify<H: Hasher>(&self, root: &Hash32, key: &Hash32, value: &Hash32) -> (r: bool)
        ensures
            r == (self.opening.path@.len() <= 256 && path_root::<H>(
                self.opening.path_view(),
                key@,
                preimage_node::<H>(self.preimage),
            ) == root@ && preimage_node::<H>(self.preimage) != value@),
    {
        let node = match &self.preimage {
            Preimage::Zero => zero(),
            Preimage::Data(d) => H::hash(d.as_slice()),
        };
        self.opening.verify::<H>(root, key, &node) && !hash_eq(&node, value)
    }
}

/// Returns `v` in reverse order.
pub fn reversed(v: &Vec<Hash32>) -> (r: Vec<Hash32>)
    ensures
        r@ == v@.reverse(),
{
    let mut r: Vec<Hash32> = Vec::new();
    let mut i: usize = v.len();
    while i > 0
        invariant
            i <= v@.len(),
            r@ == v@.subrange(i as int, v@.len() as int).reverse(),
        decreases i,
    {
        i = i - 1;
        r.push(v[i]);
        assert(r@ =~= v@.subrange(i as int, v@.len() as int).reverse());
    }
    assert(v@.subrange(0, v@.len() as int) =~= v@);
    r
}

impl<D: DataBackend, H: Hasher> Smt<D, H> {
    /// Step `d` of a descent: the node at depth `d` is an inner node whose
    /// stored children are the next node and the sibling, placed by bit `d` of `key`.
    pub open spec fn inner_step(&self, path: Seq<Seq<u8>>, key: Seq<u8>, leaf: Seq<u8>, d: int) -> bool {
        let node = path_node::<H>(path, key, leaf, d);
        let child = path_node::<H>(path, key, leaf, d + 1);
        let sib = path[path.len() - 1 - d];
        &&& self.has_children_entry(node)
        &&& !self.has_key_entry(node)
        &&& parse_children(self.children_entry(node)) == Some(
            if key_bit(key, d) == 0 {
                (child, sib)
            } else {
                (sib, child)
            },
        )
    }

    /// `path` and `leaf` are what descending from `root` along the bits of `key`
    /// finds: inner nodes are followed until a node without children or with a
    /// leaf key is met.
    pub open spec fn descent(&self, root: Seq<u8>, key: Seq<u8>, path: Seq<Seq<u8>>, leaf: Seq<u8>) -> bool {
        &&& path.len() <= 256
        &&& path_root::<H>(path, key, leaf) == root
        &&& forall|d: int| 0 <= d < path.len() ==> #[trigger] self.inner_step(path, key, leaf, d)
        &&& !self.has_children_entry(leaf) || self.has_key_entry(leaf)
    }

    /// Every children entry holds two hashes and every leaf key is a hash.
    pub open spec fn well_encoded(&self) -> bool {
        &&& forall|n: Seq<u8>| #[trigger]
            self.has_children_entry(n) ==> self.children_entry(n).len() == 64
        &&& forall|n: Seq<u8>| #[trigger] self.has_key_entry(n) ==> self.key_entry(n).len() == 32
    }

    /// The error that descending along `key` from `node`, met at `depth`,
    /// runs into, if any: a children entry that is not two hashes, the key
    /// depleted below depth 256 before a node without children or with a leaf
    /// key, or a leaf key that is not a hash on the node reached.
    pub open spec fn walk_error(&self, node: Seq<u8>, key: Seq<u8>, depth: int) -> Option<SmtError>
        decreases 256 - depth,
    {
        let key_error = if self.has_key_entry(node) && self.key_entry(node).len() != 32 {
            Some(SmtError::InconsistentNodeKey)
        } else {
            None
        };
        if !self.has_children_entry(node) {
            key_error
        } else {
            match parse_children(self.children_entry(node)) {
                None => Some(SmtError::InconsistentChildren),
                Some(c) => if self.has_key_entry(node) {
                    key_error
                } else if depth >= 256 {
                    Some(SmtError::KeyDepleted)
                } else {
                    self.walk_error(
                        if key_bit(key, depth) == 0 {
                            c.0
                        } else {
                            c.1
                        },
                        key,
                        depth + 1,
                    )
                },
            }
        }
    }

    /// Computes a Merkle opening for the path of `key` from `root`.
    ///
    /// The returned node is the first node on that path that has no children or
    /// carries a leaf key; it need not be the leaf of `key`.
    #[verifier::rlimit(30)]
    pub fn get_keyed_opening(&self, root: &Hash32, key: &Hash32) -> (r: Result<KeyedOpening, SmtError>)
        requires
            self.consistent(),
        ensures
            r matches Ok(k) ==> self.descent(root@, key@, k.opening.path_view(), k.node@),
            r matches Ok(k) ==> (k.key is Some <==> self.has_key_entry(k.node@)),
            r matches Ok(k) ==> (k.key matches Some(x) ==> x@ == self.key_entry(k.node@)),
            r matches Ok(k) ==> (self.has_key_entry(k.node@) ==> self.key_entry(k.node@).len() == 32),
            r is Err && self.well_encoded() ==> r == Err::<KeyedOpening, SmtError>(SmtError::KeyDepleted),
            self.well_encoded() ==> (r is Ok <==> exists|p: Seq<Seq<u8>>, leaf: Seq<u8>|
                #[trigger] self.descent(root@, key@, p, leaf)),
            r is Err <==> self.walk_error(root@, key@, 0) is Some,
            r matches Err(e) ==> self.walk_error(root@, key@, 0) == Some(e),
    {
        let mut leaf_node: Hash32 = *root;
        let mut opening: Vec<Hash32> = Vec::new();
        let mut depth: usize = 0;
        let ghost mut nodes: Seq<Seq<u8>> = seq![root@];
        loop
            invariant
                depth == opening@.len(),
                depth <= 256,
                self.consistent(),
                nodes.len() == depth + 1,
                nodes[0] == root@,
                nodes[depth as int] == leaf_node@,
                self.walk_error(root@, key@, 0) == self.walk_error(leaf_node@, key@, depth as int),
                forall|d: int|
                    0 <= d < depth ==> {
                        let child = nodes[d + 1];
                        let sib = opening@[d]@;
                        &&& #[trigger] nodes[d] == combine::<H>(key_bit(key@, d), child, sib)
                        &&& self.has_children_entry(nodes[d])
                        &&& !self.has_key_entry(nodes[d])
                        &&& parse_children(self.children_entry(nodes[d])) == Some(
                            if key_bit(key@, d) == 0 {
                                (child, sib)
                            } else {
                                (sib, child)
                            },
                        )
                    },
            ensures
                depth == opening@.len(),
                depth <= 256,
                nodes.len() == depth + 1,
                nodes[0] == root@,
                nodes[depth as int] == leaf_node@,
                self.walk_error(root@, key@, 0) == self.walk_error(leaf_node@, key@, depth as int),
                forall|d: int|
                    0 <= d < depth ==> {
                        let child = nodes[d + 1];
                        let sib = opening@[d]@;
                        &&& #[trigger] nodes[d] == combine::<H>(key_bit(key@, d), child, sib)
                        &&& self.has_children_entry(nodes[d])
                        &&& !self.has_key_entry(nodes[d])
                        &&& parse_children(self.children_entry(nodes[d])) == Some(
                            if key_bit(key@, d) == 0 {
                                (child, sib)
                            } else {
                                (sib, child)
                            },
                        )
                    },
                !self.has_children_entry(leaf_node@) || self.has_key_entry(leaf_node@),
                self.has_children_entry(leaf_node@) ==> parse_children(self.children_entry(leaf_node@)) is Some,
            decreases 256 - depth,
        {
            let children = match self.get_children(&leaf_node) {
                Ok(Some(c)) => c,
                Ok(None) => break,
                Err(e) => return Err(e),
            };
            if self.has_node_key(&leaf_node) {
                break;
            } else if depth == 256 {
                proof {
                    let full = nodes;
                    assert forall|e: int| 0 <= e < 256 implies child_along(
                        parse_children(self.children_entry(#[trigger] full[e])),
                        key@,
                        e,
                    ) == Some(full[e + 1]) by {
                        assert(full[e] == combine::<H>(key_bit(key@, e), full[e + 1], opening@[e]@));
                    }
                    assert forall|e: int| 0 <= e <= 256 implies self.has_children_entry(
                        #[trigger] full[e],
                    ) && !self.has_key_entry(full[e]) by {
                        if e < 256 {
                            assert(full[e] == combine::<H>(key_bit(key@, e), full[e + 1], opening@[e]@));
                        }
                    }
                    assert forall|p: Seq<Seq<u8>>, leaf: Seq<u8>| !#[trigger] self.descent(root@, key@, p, leaf) by {
                        lemma_no_descent(*self, root@, key@, full, p, leaf);
                    }
                }
                return Err(SmtError::KeyDepleted);
            }
            let ghost parent = leaf_node@;
            let bit = bit_at(key, depth);
            if bit == 0 {
                leaf_node = children.left;
                opening.push(children.right);
            } else {
                leaf_node = children.right;
                opening.push(children.left);
            }
            proof {
                let v = self.children_entry(parent);
                assert(v.subrange(0, 32) + v.subrange(32, 64) =~= v);
                assert(parent == H::spec_merge(v.subrange(0, 32), v.subrange(32, 64)));
                nodes = nodes.push(leaf_node@);
            }
            depth = depth + 1;
        }
        let path = reversed(&opening);
        let node_key = match self.get_node_key(&leaf_node) {
            Ok(k) => k,
            Err(e) => return Err(e),
        };
        let result = KeyedOpening { key: node_key, node: leaf_node, opening: Opening::new(path) };
        assert(self.walk_error(leaf_node@, key@, depth as int) is None);
        proof {
            let p = result.opening.path_view();
            assert(p.len() == depth);
            assert forall|d: int| 0 <= d < depth implies p[depth - 1 - d] == opening@[d]@ by {}
            lemma_nodes_are_path_nodes::<H>(p, key@, leaf_node@, nodes, depth as int);
            assert forall|d: int| 0 <= d < p.len() implies #[trigger] self.inner_step(
                p,
                key@,
                leaf_node@,
                d,
            ) by {
                assert(path_node::<H>(p, key@, leaf_node@, d) == nodes[d]);
                assert(path_node::<H>(p, key@, leaf_node@, d + 1) == nodes[d + 1]);
            }
            assert(path_node::<H>(p, key@, leaf_node@, 0) == nodes[0]);
            assert(self.descent(root@, key@, p, leaf_node@));
        }
        Ok(result)
    }

    /// Computes a Merkle opening of the leaf of `key` to `root`.
    ///
    /// Returns `None` when the node found on the path of `key` is not the leaf of `key`.
    pub fn get_opening(&self, root: &Hash32, key: &Hash32) -> (r: Result<Option<Opening>, SmtError>)
        requires
            self.consistent(),
        ensures
            r matches Ok(Some(o)) ==> exists|leaf: Seq<u8>|
                #![trigger self.descent(root@, key@, o.path_view(), leaf)]
                self.descent(root@, key@, o.path_view(), leaf) && self.has_key_entry(leaf)
                    && self.key_entry(leaf) == key@,
            r matches Ok(None) ==> exists|p: Seq<Seq<u8>>, leaf: Seq<u8>|
                #![trigger self.descent(root@, key@, p, leaf)]
                self.descent(root@, key@, p, leaf) && !(self.has_key_entry(leaf) && self.key_entry(
                    leaf,
                ) == key@),
            r is Err && self.well_encoded() ==> r == Err::<Option<Opening>, SmtError>(
                SmtError::KeyDepleted,
            ),
            self.well_encoded() ==> (r is Ok <==> exists|p: Seq<Seq<u8>>, leaf: Seq<u8>|
                #[trigger] self.descent(root@, key@, p, leaf)),
            r is Err <==> self.walk_error(root@, key@, 0) is Some,
            r matches Err(e) ==> self.walk_error(root@, key@, 0) == Some(e),
            r matches Ok(Some(o)) ==> forall|p: Seq<Seq<u8>>, leaf: Seq<u8>|
                #[trigger] self.descent(root@, key@, p, leaf) ==> p == o.path_view() && self.has_key_entry(
                    leaf,
                ) && self.key_entry(leaf) == key@,
            r matches Ok(None) ==> forall|p: Seq<Seq<u8>>, leaf: Seq<u8>|
                #[trigger] self.descent(root@, key@, p, leaf) ==> !(self.has_key_entry(leaf)
                    && self.key_entry(leaf) == key@),
    {
        let keyed = match self.get_keyed_opening(root, key) {
            Ok(k) => k,
            Err(e) => return Err(e),
        };
        proof {
            assert forall|p2: Seq<Seq<u8>>, leaf2: Seq<u8>| #[trigger] self.descent(root@, key@, p2, leaf2) implies p2
                == keyed.opening.path_view() && leaf2 == keyed.node@ by {
                lemma_descent_unique(*self, root@, key@, p2, leaf2, keyed.opening.path_view(), keyed.node@);
            }
        }
        let ghost leaf = keyed.node@;
        let ghost p = keyed.opening.path_view();
        match keyed.key {
            Some(k) => {
                if hash_eq(&k, key) {
                    assert(keyed.key == Some(k));
                    assert(self.has_key_entry(leaf) && self.key_entry(leaf) == key@);
                    let o = keyed.opening;
                    assert(self.descent(root@, key@, o.path_view(), leaf));
                    let r: Result<Option<Opening>, SmtError> = Ok(Some(o));
                    assert(r matches Ok(Some(oo)) && oo.path_view() == o.path_view());
                    r
                } else {
                    assert(self.descent(root@, key@, p, leaf));
                    Ok(None)
                }
            },
            None => {
                assert(self.descent(root@, key@, p, leaf));
                Ok(None)
            },
        }
    }

    /// Creates a proof that `key` is not bound to a given value: the preimage of
    /// the node found on the path of `key`, with its opening.
    ///
    /// The preimage is `Zero` for the empty node, otherwise the payload stored
    /// for the node's leaf key (an empty payload when none is stored).
    pub fn get_non_membership_opening(&self, root: &Hash32, key: &Hash32) -> (r: Result<
        OpeningNonMembership,
        SmtError,
    >)
        requires
            self.consistent(),
        ensures
            r matches Ok(nm) ==> exists|leaf: Seq<u8>|
                #![trigger self.descent(root@, key@, nm.opening.path_view(), leaf)]
                self.descent(root@, key@, nm.opening.path_view(), leaf) && (leaf == zero_hash()
                    ==> nm.preimage is Zero) && (leaf != zero_hash() ==> (nm.preimage matches Preimage::Data(
                    v,
                ) && v@ == self.leaf_payload(leaf))),
            r is Err && self.well_encoded() ==> r matches Err(SmtError::KeyDepleted),
            self.well_encoded() ==> (r is Ok <==> exists|p: Seq<Seq<u8>>, leaf: Seq<u8>|
                #[trigger] self.descent(root@, key@, p, leaf)),
            r is Err <==> self.walk_error(root@, key@, 0) is Some,
            r matches Err(e) ==> self.walk_error(root@, key@, 0) == Some(e),
            r matches Ok(nm) ==> forall|p: Seq<Seq<u8>>, leaf: Seq<u8>|
                #[trigger] self.descent(root@, key@, p, leaf) ==> p == nm.opening.path_view() && (leaf
                    == zero_hash() ==> nm.preimage is Zero) && (leaf != zero_hash() ==> (
                nm.preimage matches Preimage::Data(v) && v@ == self.leaf_payload(leaf))),
    {
        let keyed = match self.get_keyed_opening(root, key) {
            Ok(k) => k,
            Err(e) => return Err(e),
        };
        proof {
            assert forall|p2: Seq<Seq<u8>>, leaf2: Seq<u8>| #[trigger] self.descent(root@, key@, p2, leaf2) implies p2
                == keyed.opening.path_view() && leaf2 == keyed.node@ by {
                lemma_descent_unique(*self, root@, key@, p2, leaf2, keyed.opening.path_view(), keyed.node@);
            }
        }
        let z = zero();
        let preimage = if hash_eq(&keyed.node, &z) {
            Preimage::Zero
        } else {
            let k = match keyed.key {
                Some(k) => k,
                None => zero(),
            };
            let data = match self.get_key_data(&k) {
                Some(d) => d,
                None => Vec::new(),
            };
            Preimage::Data(data)
        };
        let result = OpeningNonMembership { preimage, opening: keyed.opening };
        assert(self.descent(root@, key@, result.opening.path_view(), keyed.node@));
        Ok(result)
    }

    /// The payload of the leaf key of `leaf` (the all-zero key when it has
    /// none), empty when no payload is stored.
    pub open spec fn leaf_payload(&self, leaf: Seq<u8>) -> Seq<u8> {
        let k = if self.has_key_entry(leaf) {
            self.key_entry(leaf)
        } else {
            zero_hash()
        };
        if self.store().contains_key((self.namespace_data@, k)) {
            self.store()[(self.namespace_data@, k)]
        } else {
            Seq::empty()
        }
    }

    /// Verifies an opening of `data` under `key` to `root`.
    pub fn verify(opening: &Opening, root: &Hash32, key: &Hash32, data: &[u8]) -> (r: bool)
        ensures
            r == (opening.path@.len() <= 256 && path_root::<H>(
                opening.path_view(),
                key@,
                H::spec_hash(data@),
            ) == root@),
    {
        let value = H::hash(data);
        opening.verify::<H>(root, key, &value)
    }

    /// Verifies a proof that `data` is not the payload of `key` under `root`.
    pub fn verify_non_membership(
        proof: &OpeningNonMembership,
        root: &Hash32,
        key: &Hash32,
        data: &[u8],
    ) -> (r: bool)
        ensures
            r == (proof.opening.path@.len() <= 256 && path_root::<H>(
                proof.opening.path_view(),
                key@,
                preimage_node::<H>(proof.preimage),
            ) == root@ && preimage_node::<H>(proof.preimage) != H::spec_hash(data@)),
    {
        let value = H::hash(data);
        proof.verify::<H>(root, key, &value)
    }
}

/// The child that a stored children entry of `n` places on the side of bit
/// `d` of `key`.
pub open spec fn child_along(children: Option<(Seq<u8>, Seq<u8>)>, key: Seq<u8>, d: int) -> Option<Seq<u8>> {
    match children {
        Some(c) => Some(
            if key_bit(key, d) == 0 {
                c.0
            } else {
                c.1
            },
        ),
        None => None,
    }
}

/// A descent follows the inner nodes met along its key: the node it reaches
/// at each depth is the one met there.
proof fn lemma_descent_follows<D: DataBackend, H: Hasher>(
    smt: Smt<D, H>,
    root: Seq<u8>,
    key: Seq<u8>,
    nodes: Seq<Seq<u8>>,
    p: Seq<Seq<u8>>,
    leaf: Seq<u8>,
    d: int,
)
    requires
        smt.descent(root, key, p, leaf),
        nodes.len() >= 1,
        nodes[0] == root,
        forall|e: int|
            0 <= e < nodes.len() - 1 ==> child_along(
                parse_children(smt.children_entry(#[trigger] nodes[e])),
                key,
                e,
            ) == Some(nodes[e + 1]),
        0 <= d <= p.len(),
        d < nodes.len(),
    ensures
        path_node::<H>(p, key, leaf, d) == nodes[d],
    decreases d,
{
    if d > 0 {
        lemma_descent_follows(smt, root, key, nodes, p, leaf, d - 1);
        assert(smt.inner_step(p, key, leaf, d - 1));
        assert(child_along(parse_children(smt.children_entry(nodes[d - 1])), key, d - 1) == Some(
            nodes[d],
        ));
    }
}

/// No descent exists along a key whose 256 bits lead through inner nodes
/// only.
proof fn lemma_no_descent<D: DataBackend, H: Hasher>(
    smt: Smt<D, H>,
    root: Seq<u8>,
    key: Seq<u8>,
    nodes: Seq<Seq<u8>>,
    p: Seq<Seq<u8>>,
    leaf: Seq<u8>,
)
    requires
        nodes.len() == 257,
        nodes[0] == root,
        forall|e: int|
            0 <= e < 256 ==> child_along(
                parse_children(smt.children_entry(#[trigger] nodes[e])),
                key,
                e,
            ) == Some(nodes[e + 1]),
        forall|e: int|
            0 <= e <= 256 ==> smt.has_children_entry(#[trigger] nodes[e]) && !smt.has_key_entry(
                nodes[e],
            ),
    ensures
        !smt.descent(root, key, p, leaf),
{
    if smt.descent(root, key, p, leaf) {
        lemma_descent_follows(smt, root, key, nodes, p, leaf, p.len() as int);
        assert(path_node::<H>(p, key, leaf, p.len() as int) == leaf);
        assert(smt.has_children_entry(nodes[p.len() as int]));
    }
}

/// A descent is determined by the root and the key: two descents from the
/// same root along the same key have the same path and reach the same node.
pub proof fn lemma_descent_unique<D: DataBackend, H: Hasher>(
    smt: Smt<D, H>,
    root: Seq<u8>,
    key: Seq<u8>,
    p1: Seq<Seq<u8>>,
    leaf1: Seq<u8>,
    p2: Seq<Seq<u8>>,
    leaf2: Seq<u8>,
)
    requires
        smt.descent(root, key, p1, leaf1),
        smt.descent(root, key, p2, leaf2),
    ensures
        p1 == p2,
        leaf1 == leaf2,
{
    let n1 = p1.len() as int;
    let n2 = p2.len() as int;
    let m = if n1 <= n2 { n1 } else { n2 };
    lemma_descents_agree(smt, root, key, p1, leaf1, p2, leaf2, m);
    if n1 < n2 {
        assert(smt.inner_step(p2, key, leaf2, n1));
        assert(path_node::<H>(p1, key, leaf1, n1) == leaf1);
    } else if n2 < n1 {
        assert(smt.inner_step(p1, key, leaf1, n2));
        assert(path_node::<H>(p2, key, leaf2, n2) == leaf2);
    }
    assert(path_node::<H>(p1, key, leaf1, n1) == leaf1);
    assert(path_node::<H>(p2, key, leaf2, n2) == leaf2);
    assert(path_node::<H>(p1, key, leaf1, m) == path_node::<H>(p2, key, leaf2, m));
    assert forall|i: int| 0 <= i < n1 implies p1[i] == p2[i] by {
        let d = n1 - 1 - i;
        assert(smt.inner_step(p1, key, leaf1, d));
        assert(smt.inner_step(p2, key, leaf2, d));
        assert(path_node::<H>(p1, key, leaf1, d) == path_node::<H>(p2, key, leaf2, d));
        assert(path_node::<H>(p1, key, leaf1, d + 1) == path_node::<H>(p2, key, leaf2, d + 1));
    }
    assert(p1 =~= p2);
}

proof fn lemma_descents_agree<D: DataBackend, H: Hasher>(
    smt: Smt<D, H>,
    root: Seq<u8>,
    key: Seq<u8>,
    p1: Seq<Seq<u8>>,
    leaf1: Seq<u8>,
    p2: Seq<Seq<u8>>,
    leaf2: Seq<u8>,
    m: int,
)
    requires
        smt.descent(root, key, p1, leaf1),
        smt.descent(root, key, p2, leaf2),
        0 <= m <= p1.len(),
        m <= p2.len(),
    ensures
        forall|d: int|
            0 <= d <= m ==> #[trigger] path_node::<H>(p1, key, leaf1, d) == path_node::<H>(
                p2,
                key,
                leaf2,
                d,
            ),
    decreases m,
{
    if m > 0 {
        lemma_descents_agree(smt, root, key, p1, leaf1, p2, leaf2, m - 1);
        assert(smt.inner_step(p1, key, leaf1, m - 1));
        assert(smt.inner_step(p2, key, leaf2, m - 1));
        assert(path_node::<H>(p1, key, leaf1, m - 1) == path_node::<H>(p2, key, leaf2, m - 1));
    }
}

/// The nodes met going down a path are the nodes that the path climbs through.
pub(crate) proof fn lemma_nodes_are_path_nodes<H: Hasher>(
    p: Seq<Seq<u8>>,
    key: Seq<u8>,
    leaf: Seq<u8>,
    nodes: Seq<Seq<u8>>,
    n: int,
)
    requires
        p.len() == n,
        nodes.len() == n + 1,
        nodes[n] == leaf,
        forall|d: int|
            0 <= d < n ==> #[trigger] nodes[d] == combine::<H>(
                key_bit(key, d),
                nodes[d + 1],
                p[n - 1 - d],
            ),
    ensures
        forall|d: int| 0 <= d <= n ==> #[trigger] path_node::<H>(p, key, leaf, d) == nodes[d],
{
    assert forall|d: int| 0 <= d <= n implies #[trigger] path_node::<H>(p, key, leaf, d)
        == nodes[d] by {
        lemma_path_node_at::<H>(p, key, leaf, nodes, n, d);
    }
}

proof fn lemma_path_node_at<H: Hasher>(
    p: Seq<Seq<u8>>,
    key: Seq<u8>,
    leaf: Seq<u8>,
    nodes: Seq<Seq<u8>>,
    n: int,
    d: int,
)
    requires
        p.len() == n,
        nodes.len() == n + 1,
        nodes[n] == leaf,
        0 <= d <= n,
        forall|e: int|
            0 <= e < n ==> #[trigger] nodes[e] == combine::<H>(
                key_bit(key, e),
                nodes[e + 1],
                p[n - 1 - e],
            ),
    ensures
        path_node::<H>(p, key, leaf, d) == nodes[d],
    decreases n - d,
{
    if d < n {
        lemma_path_node_at::<H>(p, key, leaf, nodes, n, d + 1);
        assert(nodes[d] == combine::<H>(key_bit(key, d), nodes[d + 1], p[n - 1 - d]));
    }
}

} // verus!
