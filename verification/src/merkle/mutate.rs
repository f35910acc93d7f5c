//! Inserting leaves into a sparse Merkle tree and pruning subtrees.

use vstd::prelude::*;

use crate::backend::DataBackend;
use crate::hash::{Hash32, Hasher};
use crate::merkle::opening::{bit_at, combine, hash_eq, key_bit, path_node, path_root};
use crate::merkle::read::lemma_nodes_are_path_nodes;
use crate::merkle::smt::{
    lemma_encoded_after_data, lemma_encoded_after_key, lemma_encoded_submap, lemma_outside_after_write,
    lemma_outside_trans, parse_children, same_outside, zero, zero_hash, Smt,
    SmtChildren, SmtError,
};

verus! {

/// Two distinct 32-byte keys differ in some bit.
pub proof fn lemma_distinct_keys_differ_in_bit(a: Seq<u8>, b: Seq<u8>)
    requires
        a.len() == 32,
        b.len() == 32,
        a != b,
    ensures
        exists|d: int| 0 <= d < 256 && key_bit(a, d) != key_bit(b, d),
{
    assert(!(a =~= b));
    let i = choose|i: int| 0 <= i < 32 && a[i] != b[i];
    let x = a[i];
    let y = b[i];
    assert(((x >> 7u8) & 1u8) != ((y >> 7u8) & 1u8) || ((x >> 6u8) & 1u8) != ((y >> 6u8) & 1u8)
        || ((x >> 5u8) & 1u8) != ((y >> 5u8) & 1u8) || ((x >> 4u8) & 1u8) != ((y >> 4u8) & 1u8)
        || ((x >> 3u8) & 1u8) != ((y >> 3u8) & 1u8) || ((x >> 2u8) & 1u8) != ((y >> 2u8) & 1u8)
        || ((x >> 1u8) & 1u8) != ((y >> 1u8) & 1u8) || ((x >> 0u8) & 1u8) != ((y >> 0u8) & 1u8))
        by (bit_vector)
        requires
            x != y,
    ;
    let base = 8 * i;
    assert((base + 0) / 8 == i && (base + 0) % 8 == 0);
    assert((base + 1) / 8 == i && (base + 1) % 8 == 1);
    assert((base + 2) / 8 == i && (base + 2) % 8 == 2);
    assert((base + 3) / 8 == i && (base + 3) % 8 == 3);
    assert((base + 4) / 8 == i && (base + 4) % 8 == 4);
    assert((base + 5) / 8 == i && (base + 5) % 8 == 5);
    assert((base + 6) / 8 == i && (base + 6) % 8 == 6);
    assert((base + 7) / 8 == i && (base + 7) % 8 == 7);
    if key_bit(a, base) != key_bit(b, base) {
    } else if key_bit(a, base + 1) != key_bit(b, base + 1) {
    } else if key_bit(a, base + 2) != key_bit(b, base + 2) {
    } else if key_bit(a, base + 3) != key_bit(b, base + 3) {
    } else if key_bit(a, base + 4) != key_bit(b, base + 4) {
    } else if key_bit(a, base + 5) != key_bit(b, base + 5) {
    } else if key_bit(a, base + 6) != key_bit(b, base + 6) {
    } else {
        assert(key_bit(a, base + 7) != key_bit(b, base + 7));
    }
}

/// The nodes of the path that ends with `leaf` are pairwise distinct, the
/// leaf included.
pub open spec fn path_distinct<H: Hasher>(path: Seq<Seq<u8>>, key: Seq<u8>, leaf: Seq<u8>) -> bool {
    forall|d1: int, d2: int|
        0 <= d1 < d2 <= path.len() ==> #[trigger] path_node::<H>(path, key, leaf, d1)
            != #[trigger] path_node::<H>(path, key, leaf, d2)
}

/// `n` empty nodes.
pub open spec fn zeros(n: nat) -> Seq<Seq<u8>> {
    Seq::new(n, |i: int| zero_hash())
}

/// The first bit, from bit `from` on, where `a` and `b` differ; `256` when
/// there is none.
pub open spec fn first_diff_from(a: Seq<u8>, b: Seq<u8>, from: int) -> int
    decreases 256 - from,
{
    if from >= 256 {
        256
    } else if key_bit(a, from) != key_bit(b, from) {
        from
    } else {
        first_diff_from(a, b, from + 1)
    }
}

/// `first_diff_from` finds the first differing bit.
proof fn lemma_first_diff_from(a: Seq<u8>, b: Seq<u8>, from: int, j: int)
    requires
        0 <= from <= j < 256,
        key_bit(a, j) != key_bit(b, j),
        forall|e: int| from <= e < j ==> key_bit(a, e) == key_bit(b, e),
    ensures
        first_diff_from(a, b, from) == j,
    decreases j - from,
{
    if from < j {
        lemma_first_diff_from(a, b, from + 1, j);
    }
}

/// `first_diff_from` finds no differing bit when the keys agree from `from` on.
proof fn lemma_first_diff_none(a: Seq<u8>, b: Seq<u8>, from: int)
    requires
        0 <= from <= 256,
        forall|e: int| from <= e < 256 ==> key_bit(a, e) == key_bit(b, e),
    ensures
        first_diff_from(a, b, from) == 256,
    decreases 256 - from,
{
    if from < 256 {
        lemma_first_diff_none(a, b, from + 1);
    }
}

/// The children that place `node` on the side given by `bit` and `sibling` on the other.
pub fn place(bit: u8, node: &Hash32, sibling: &Hash32) -> (c: SmtChildren)
    ensures
        bit == 0 ==> c.left@ == node@ && c.right@ == sibling@,
        bit != 0 ==> c.left@ == sibling@ && c.right@ == node@,
{
    if bit == 0 {
        SmtChildren { left: *node, right: *sibling }
    } else {
        SmtChildren { left: *sibling, right: *node }
    }
}

impl<D: DataBackend, H: Hasher> Smt<D, H> {
    /// Node `x` has the same children and leaf-key entries in both trees.
    pub open spec fn same_node_entries(&self, other: &Self, x: Seq<u8>) -> bool {
        &&& self.has_children_entry(x) == other.has_children_entry(x)
        &&& self.has_children_entry(x) ==> self.children_entry(x) == other.children_entry(x)
        &&& self.has_key_entry(x) == other.has_key_entry(x)
        &&& self.has_key_entry(x) ==> self.key_entry(x) == other.key_entry(x)
    }

    /// Both trees hold the same leaf keys.
    pub open spec fn same_key_entries(&self, other: &Self) -> bool {
        forall|x: Seq<u8>|
            #[trigger] self.has_key_entry(x) == other.has_key_entry(x) && (self.has_key_entry(x)
                ==> self.key_entry(x) == other.key_entry(x))
    }

    /// The payload of `key` is `data`.
    pub open spec fn holds_data(&self, key: Seq<u8>, data: Seq<u8>) -> bool {
        &&& self.store().contains_key((self.namespace_data@, key))
        &&& self.store()[(self.namespace_data@, key)] == data
    }

    /// Whether `x` carries a leaf key once `leaf` carries one.
    pub open spec fn keyed_with(&self, leaf: Seq<u8>, x: Seq<u8>) -> bool {
        x == leaf || self.has_key_entry(x)
    }

    /// The leaf key of `x` once `leaf` carries `key`.
    pub open spec fn key_with(&self, leaf: Seq<u8>, key: Seq<u8>, x: Seq<u8>) -> Seq<u8> {
        if x == leaf {
            key
        } else {
            self.key_entry(x)
        }
    }

    /// `self` is `old` with the leaf key `key` stored for `leaf` (and payloads
    /// possibly changed).
    pub open spec fn keyed_from(&self, old: &Self, leaf: Seq<u8>, key: Seq<u8>) -> bool {
        &&& forall|x: Seq<u8>| x != leaf ==> #[trigger] self.same_node_entries(old, x)
        &&& forall|x: Seq<u8>| #[trigger] self.has_children_entry(x) == old.has_children_entry(x)
        &&& forall|x: Seq<u8>|
            #[trigger] self.has_children_entry(x) ==> self.children_entry(x) == old.children_entry(x)
        &&& self.has_key_entry(leaf)
        &&& self.key_entry(leaf) == key
    }

    /// `q` and `n` are what descending from `root` along the bits of `key`
    /// meets: inner nodes, whose siblings are `q` (deepest first), down to
    /// the node `n`.
    pub open spec fn walk(&self, root: Seq<u8>, key: Seq<u8>, q: Seq<Seq<u8>>, n: Seq<u8>) -> bool {
        &&& q.len() <= 256
        &&& path_root::<H>(q, key, n) == root
        &&& forall|d: int| 0 <= d < q.len() ==> #[trigger] self.inner_step(q, key, n, d)
    }

    /// Step `d` of a descent along `key` through `nodes`, with siblings
    /// `sibs` in depth order: an inner node without a leaf key whose children
    /// are the next node and the sibling.
    pub open spec fn walk_step(&self, key: Seq<u8>, nodes: Seq<Seq<u8>>, sibs: Seq<Seq<u8>>, d: int) -> bool {
        let child = nodes[d + 1];
        let sib = sibs[d];
        &&& nodes[d] == combine::<H>(key_bit(key, d), child, sib)
        &&& self.has_children_entry(nodes[d])
        &&& !self.has_key_entry(nodes[d])
        &&& parse_children(self.children_entry(nodes[d])) == Some(
            if key_bit(key, d) == 0 {
                (child, sib)
            } else {
                (sib, child)
            },
        )
    }

    /// Descending along `key` went through `nodes`, with siblings `sibs`.
    pub open spec fn walked(&self, key: Seq<u8>, nodes: Seq<Seq<u8>>, sibs: Seq<Seq<u8>>) -> bool {
        &&& nodes.len() == sibs.len() + 1
        &&& forall|d: int| 0 <= d < sibs.len() ==> #[trigger] self.walk_step(key, nodes, sibs, d)
    }

    /// `q`, `n`, `p` and `l` describe an insertion of `key` with node `leaf`
    /// from `root`: the walk down to `n` and the path that `insert_shape`
    /// builds from it, within the depth of the tree.
    pub open spec fn insert_witness(
        &self,
        root: Seq<u8>,
        key: Seq<u8>,
        leaf: Seq<u8>,
        q: Seq<Seq<u8>>,
        n: Seq<u8>,
        p: Seq<Seq<u8>>,
        l: Seq<u8>,
    ) -> bool {
        &&& self.walk(root, key, q, n)
        &&& self.insert_shape(key, leaf, q, n, p, l)
        &&& p.len() <= 256
    }

    /// Inserting `key` with node `leaf` from `root` fits in the tree: the walk
    /// along `key` stops where the new path stays within 256 levels.
    pub open spec fn insertable(&self, root: Seq<u8>, key: Seq<u8>, leaf: Seq<u8>) -> bool {
        exists|q: Seq<Seq<u8>>, n: Seq<u8>, p: Seq<Seq<u8>>, l: Seq<u8>|
            #[trigger] self.insert_witness(root, key, leaf, q, n, p, l)
    }

    /// The path `p` and node `l` that inserting `key` with node `leaf` leaves,
    /// once the walk along `key` stopped on `n` below the siblings `q`:
    /// - on the empty node (the root of an empty tree too), `leaf` hangs one
    ///   level below, next to an empty sibling, under a new inner node that
    ///   takes the empty node's place;
    /// - on a node with the leaf key `key`, `leaf` takes its place;
    /// - on a node with another leaf key, both hang below new inner nodes
    ///   down to the first bit where the keys differ, with empty siblings on
    ///   the way;
    /// - on a childless node without a leaf key, the tree is left as it was.
    pub open spec fn insert_shape(
        &self,
        key: Seq<u8>,
        leaf: Seq<u8>,
        q: Seq<Seq<u8>>,
        n: Seq<u8>,
        p: Seq<Seq<u8>>,
        l: Seq<u8>,
    ) -> bool {
        if n == zero_hash() {
            l == leaf && p == seq![zero_hash()] + q
        } else if self.keyed_with(leaf, n) {
            let other = self.key_with(leaf, key, n);
            &&& l == leaf
            &&& other == key ==> p == q
            &&& other != key ==> {
                let j = first_diff_from(key, other, q.len() as int);
                &&& q.len() <= j < 256
                &&& p == seq![n] + zeros((j - q.len()) as nat) + q
            }
        } else {
            !self.has_children_entry(n) && l == n && p == q
        }
    }

    /// What inserting `key` with node `leaf` into `old` from `root`, returning
    /// `new_root`, leaves: the walk `q` down to `n` in `old`, the path `p` to
    /// the node `l` as `insert_shape` builds them, the inner steps of that
    /// path when its nodes are distinct, the leaf key of `leaf` unless the
    /// path overwrote it, and every node off the path as it was in `old`.
    pub open spec fn inserted(
        &self,
        old: &Self,
        root: Seq<u8>,
        key: Seq<u8>,
        leaf: Seq<u8>,
        new_root: Seq<u8>,
        q: Seq<Seq<u8>>,
        n: Seq<u8>,
        p: Seq<Seq<u8>>,
        l: Seq<u8>,
    ) -> bool {
        &&& old.walk(root, key, q, n)
        &&& old.insert_shape(key, leaf, q, n, p, l)
        &&& p.len() <= 256
        &&& path_root::<H>(p, key, l) == new_root
        &&& path_distinct::<H>(p, key, l) ==> forall|d: int|
            0 <= d < p.len() ==> #[trigger] self.inner_step(p, key, l, d)
        &&& (forall|d: int| 0 <= d < p.len() ==> leaf != #[trigger] path_node::<H>(p, key, l, d))
            ==> self.has_key_entry(leaf) && self.key_entry(leaf) == key
        &&& forall|x: Seq<u8>|
            x != leaf && (forall|d: int| 0 <= d < p.len() ==> x != #[trigger] path_node::<H>(p, key, l, d))
                ==> #[trigger] self.same_node_entries(old, x)
        &&& (forall|d: int| 0 <= d < p.len() ==> leaf != #[trigger] path_node::<H>(p, key, l, d))
            ==> self.has_children_entry(leaf) == old.has_children_entry(leaf) && (self.has_children_entry(
            leaf,
        ) ==> self.children_entry(leaf) == old.children_entry(leaf))
    }

    /// Inserts the payload `data` under `key`, with `leaf` as its tree node, and
    /// returns the new root.
    ///
    /// The node is placed at the first free position on the path of `key`,
    /// below a new inner node when another leaf occupies that position. An
    /// empty position, the root of the empty tree too, takes a new inner node
    /// with the leaf one level below next to an empty sibling: a tree of one
    /// leaf opens it with a path of one sibling. On a
    /// well-encoded store it fails, with `MaxDepth`, exactly when that
    /// position lies beyond the 256 levels of the tree.
    #[verifier::rlimit(40)]
    pub fn insert_with_leaf(&mut self, root: Hash32, key: &Hash32, leaf: Hash32, data: &[u8]) -> (r: Result<Hash32, SmtError>)
        requires
            old(self).wf(),
        ensures
            final(self).wf(),
            final(self).same_namespaces(old(self)),
            final(self).holds_data(key@, data@),
            root@ == zero_hash() ==> (r matches Ok(x) ==> x@ == combine::<H>(key_bit(key@, 0), leaf@, zero_hash())),
            r matches Ok(new_root) ==> exists|q: Seq<Seq<u8>>, n: Seq<u8>, p: Seq<Seq<u8>>, l: Seq<u8>|
                #[trigger] final(self).inserted(old(self), root@, key@, leaf@, new_root@, q, n, p, l),
            old(self).well_encoded() ==> final(self).well_encoded(),
            old(self).well_encoded() && r is Err ==> r == Err::<Hash32, SmtError>(SmtError::MaxDepth),
            same_outside(*final(self), *old(self)),
            old(self).well_encoded() ==> (r is Ok <==> old(self).insertable(root@, key@, leaf@)),
    {
        self.insert_key_data(key, data);
        let ghost st_data = *self;
        self.insert_node_key(&leaf, key);
        let ghost st0 = *self;
        proof {
            if old(self).well_encoded() {
                lemma_encoded_after_data(*old(self), st_data, key@, data@);
                lemma_encoded_after_key(st_data, st0, leaf@, key@);
            }
            let dk = (old(self).namespace_data@, key@);
            lemma_outside_after_write(*old(self), st_data, dk, dk, data@);
            let kk = (old(self).namespace_key@, leaf@);
            lemma_outside_after_write(st_data, st0, kk, kk, key@);
            lemma_outside_trans(*old(self), st_data, st0);
        }
        proof {
            assert forall|x: Seq<u8>| x != leaf@ implies #[trigger] st0.same_node_entries(old(self), x) by {
                assert(st0.store().contains_key((st0.namespace_node@, x)) == old(self).store().contains_key((st0.namespace_node@, x)));
                assert(st0.store().contains_key((st0.namespace_key@, x)) == old(self).store().contains_key((st0.namespace_key@, x)));
            }
            assert forall|x: Seq<u8>| #[trigger] st0.has_children_entry(x) == old(self).has_children_entry(x) by {
                assert(st0.store().contains_key((st0.namespace_node@, x)) == old(self).store().contains_key((st0.namespace_node@, x)));
            }
            assert forall|x: Seq<u8>| #[trigger] st0.has_children_entry(x) implies st0.children_entry(x) == old(self).children_entry(x) by {
                assert(st0.store().contains_key((st0.namespace_node@, x)) == old(self).store().contains_key((st0.namespace_node@, x)));
            }
            assert(st0.keyed_from(old(self), leaf@, key@));
        }
        assert(self.holds_data(key@, data@));
        let z = zero();
        if hash_eq(&root, &z) {
            // empty tree: hang the leaf below a new root next to an empty sibling
            let ghost q = Seq::<Seq<u8>>::empty();
            let ghost path = seq![zero_hash()] + q;
            let mut opening: Vec<Hash32> = Vec::new();
            proof {
                assert(path_root::<H>(q, key@, root@) == root@);
                assert(old(self).walk(root@, key@, q, root@));
                assert(path =~= seq![zero_hash()]);
            }
            let r = self.finish_below(key, &leaf, &z, &mut opening, Ghost(path), Ghost(key@), Ghost(data@));
            proof {
                lemma_outside_trans(*old(self), st0, *self);
                assert(path_node::<H>(path, key@, leaf@, 1) == leaf@);
                assert(path_root::<H>(path, key@, leaf@) == combine::<H>(key_bit(key@, 0), leaf@, zero_hash()));
                if let Ok(nr) = r {
                    lemma_inserted_from_finish(*old(self), st0, *self, root@, key@, leaf@, nr@, q, root@, path, leaf@);
                    assert(old(self).insert_witness(root@, key@, leaf@, q, root@, path, leaf@));
                }
            }
            return r;
        }
        if self.is_leaf(&root) {
            let sibling_key = match self.get_node_key(&root) {
                Ok(Some(k)) => k,
                Ok(None) => return Err(SmtError::InconsistentTree),
                Err(e) => return Err(e),
            };
            proof {
                assert(old(self).keyed_with(leaf@, root@));
                assert(old(self).key_with(leaf@, key@, root@) == sibling_key@);
                assert(path_root::<H>(Seq::<Seq<u8>>::empty(), key@, root@) == root@);
            }
            if hash_eq(key, &sibling_key) {
                proof {
                    let q = Seq::<Seq<u8>>::empty();
                    assert(path_root::<H>(q, key@, leaf@) == leaf@);
                    lemma_inserted_from_finish(*old(self), st0, *self, root@, key@, leaf@, leaf@, q, root@, q, leaf@);
                    assert(old(self).insert_witness(root@, key@, leaf@, q, root@, q, leaf@));
                }
                let r: Result<Hash32, SmtError> = Ok(leaf);
                assert(r matches Ok(x) && x@ == leaf@);
                return r;
            }
            proof {
                lemma_distinct_keys_differ_in_bit(key@, sibling_key@);
            }
            let ghost d0 = choose|d: int| 0 <= d < 256 && key_bit(key@, d) != key_bit(sibling_key@, d);
            let mut depth: usize = 0;
            let mut node_bit = bit_at(key, 0);
            let mut sibling_bit = bit_at(&sibling_key, 0);
            let mut opening: Vec<Hash32> = Vec::new();
            while node_bit == sibling_bit
                invariant
                    0 <= d0 < 256,
                    root@ != zero_hash(),
                    key_bit(key@, d0) != key_bit(sibling_key@, d0),
                    depth <= d0,
                    node_bit == key_bit(key@, depth as int),
                    sibling_bit == key_bit(sibling_key@, depth as int),
                    forall|e: int| 0 <= e < depth ==> key_bit(key@, e) == key_bit(sibling_key@, e),
                    opening@.len() == depth,
                    z@ == zero_hash(),
                    forall|e: int| 0 <= e < depth ==> #[trigger] opening@[e]@ == zero_hash(),
                decreases d0 - depth,
            {
                opening.push(z);
                depth = depth + 1;
                node_bit = bit_at(key, depth);
                sibling_bit = bit_at(&sibling_key, depth);
            }
            let ghost path = seq![root@] + Seq::new(depth as nat, |i: int| zero_hash());
            let ghost st1 = *self;
            let r = self.finish_below(key, &leaf, &root, &mut opening, Ghost(path), Ghost(key@), Ghost(data@));
            proof {
                lemma_outside_trans(*old(self), st0, *self);
                if let Ok(nr) = r {
                    let q = Seq::<Seq<u8>>::empty();
                    lemma_first_diff_from(key@, sibling_key@, 0, depth as int);
                    assert(path =~= seq![root@] + zeros(depth as nat) + q);
                    lemma_inserted_from_finish(*old(self), st0, *self, root@, key@, leaf@, nr@, q, root@, path, leaf@);
                    assert(old(self).insert_witness(root@, key@, leaf@, q, root@, path, leaf@));
                }
            }
            return r;
        }
        // the root is an inner node: descend along the key
        let mut node = root;
        let mut depth: usize = 0;
        let mut opening: Vec<Hash32> = Vec::new();
        let ghost mut nodes: Seq<Seq<u8>> = seq![root@];
        let ghost mut sibs: Seq<Seq<u8>> = Seq::empty();
        loop
            invariant
                self.wf(),
                self.same_namespaces(old(self)),
                self.holds_data(key@, data@),
                *self == st0,
                st0.keyed_from(old(self), leaf@, key@),
                old(self).well_encoded() ==> st0.well_encoded(),
                same_outside(st0, *old(self)),
                st0.same_namespaces(old(self)),
                root@ != zero_hash(),
                depth == opening@.len(),
                depth <= 256,
                node@ != zero_hash(),
                z@ == zero_hash(),
                !self.has_key_entry(node@),
                sibs == opening@.map_values(|h: Hash32| h@),
                nodes.len() == depth + 1,
                nodes[0] == root@,
                nodes[depth as int] == node@,
                old(self).walked(key@, nodes, sibs),
                st0.has_key_entry(leaf@),
                forall|k: int| 0 <= k <= depth ==> #[trigger] nodes[k] != zero_hash() && nodes[k] != leaf@,
            decreases 256 - depth,
        {
            let children = match self.get_children(&node) {
                Ok(Some(c)) => c,
                Ok(None) => {
                    // no children: the path ends on this node
                    let ghost q = sibs.reverse();
                    proof {
                        lemma_walk_of_nodes(*old(self), root@, key@, sibs, nodes, depth as int);
                        assert(node@ != leaf@);
                        assert(st0.same_node_entries(old(self), node@));
                        assert(!old(self).keyed_with(leaf@, node@));
                    }
                    let r = self.finish_at(node, key, &mut opening, Ghost(q), Ghost(key@), Ghost(data@));
                    proof {
                        lemma_outside_trans(*old(self), st0, *self);
                        if let Ok(nr) = r {
                            lemma_inserted_from_finish(*old(self), st0, *self, root@, key@, leaf@, nr@, q, node@, q, node@);
                            assert(old(self).insert_witness(root@, key@, leaf@, q, node@, q, node@));
                        }
                    }
                    return r;
                },
                Err(e) => return Err(e),
            };
            if depth == 256 {
                proof {
                    assert(old(self).has_children_entry(node@));
                    assert(!old(self).has_key_entry(node@)) by {
                        assert(st0.same_node_entries(old(self), node@));
                    }
                    lemma_not_insertable(*old(self), root@, key@, leaf@, nodes, sibs);
                }
                return Err(SmtError::MaxDepth);
            }
            let bit = bit_at(key, depth);
            let sibling = if bit == 0 { children.right } else { children.left };
            let ghost parent = node@;
            node = if bit == 0 { children.left } else { children.right };
            opening.push(sibling);
            depth = depth + 1;
            proof {
                let v = old(self).children_entry(parent);
                assert(v.subrange(0, 32) + v.subrange(32, 64) =~= v);
                assert(self.children_entry(parent) == v);
                assert(parent == H::spec_merge(v.subrange(0, 32), v.subrange(32, 64)));
                assert(parent != leaf@);
                assert(st0.same_node_entries(old(self), parent));
                assert(children.left@ == v.subrange(0, 32));
                assert(children.right@ == v.subrange(32, 64));
                let n2 = nodes.push(node@);
                let s2 = sibs.push(sibling@);
                let d = sibs.len() as int;
                assert(n2[d] == parent && n2[d + 1] == node@ && s2[d] == sibling@);
                assert(old(self).walk_step(key@, n2, s2, d));
                lemma_walked_push(*old(self), key@, nodes, sibs, node@, sibling@);
                nodes = nodes.push(node@);
                sibs = sibs.push(sibling@);
                assert(sibs =~= opening@.map_values(|h: Hash32| h@));
            }
            if hash_eq(&node, &z) {
                // empty position: hang the leaf below a new inner node
                if depth == 256 {
                    proof {
                        lemma_not_insertable(*old(self), root@, key@, leaf@, nodes, sibs);
                    }
                    return Err(SmtError::MaxDepth);
                }
                let ghost q = sibs.reverse();
                let ghost path = seq![zero_hash()] + q;
                proof {
                    lemma_walk_of_nodes(*old(self), root@, key@, sibs, nodes, depth as int);
                }
                let r = self.finish_below(key, &leaf, &z, &mut opening, Ghost(path), Ghost(key@), Ghost(data@));
                proof {
                    lemma_outside_trans(*old(self), st0, *self);
                    if let Ok(nr) = r {
                        lemma_inserted_from_finish(*old(self), st0, *self, root@, key@, leaf@, nr@, q, node@, path, leaf@);
                        assert(old(self).insert_witness(root@, key@, leaf@, q, node@, path, leaf@));
                    }
                }
                return r;
            }
            let found = match self.get_node_key(&node) {
                Ok(k) => k,
                Err(e) => return Err(e),
            };
            if let Some(sibling_key) = found {
                let ghost q = sibs.reverse();
                proof {
                    lemma_walk_of_nodes(*old(self), root@, key@, sibs, nodes, depth as int);
                    if node@ != leaf@ {
                        assert(st0.same_node_entries(old(self), node@));
                    }
                    assert(old(self).keyed_with(leaf@, node@));
                    assert(old(self).key_with(leaf@, key@, node@) == sibling_key@);
                }
                if hash_eq(&sibling_key, key) {
                    // the key is already in the tree: its new leaf takes the place of the old one
                    let r = self.finish_at(leaf, key, &mut opening, Ghost(q), Ghost(key@), Ghost(data@));
                    proof {
                        lemma_outside_trans(*old(self), st0, *self);
                        if let Ok(nr) = r {
                            lemma_inserted_from_finish(*old(self), st0, *self, root@, key@, leaf@, nr@, q, node@, q, leaf@);
                            assert(old(self).insert_witness(root@, key@, leaf@, q, node@, q, leaf@));
                        }
                    }
                    return r;
                }
                // another leaf: push both below their first distinct bit
                proof {
                    assert(sibling_key@ != key@);
                    assert(node@ != leaf@);
                    assert(old(self).has_key_entry(node@) && old(self).key_entry(node@) == sibling_key@);
                }
                if depth == 256 {
                    proof {
                        lemma_not_insertable(*old(self), root@, key@, leaf@, nodes, sibs);
                    }
                    return Err(SmtError::MaxDepth);
                }
                let mut node_bit = bit_at(key, depth);
                let mut sibling_bit = bit_at(&sibling_key, depth);
                let ghost d_start = depth as int;
                let ghost prefix = opening@;
                while node_bit == sibling_bit
                    invariant
                        self.wf(),
                        self.same_namespaces(old(self)),
                        self.holds_data(key@, data@),
                        *self == st0,
                        old(self).well_encoded() ==> st0.well_encoded(),
                        same_outside(st0, *old(self)),
                        st0.same_namespaces(old(self)),
                        root@ != zero_hash(),
                        depth == opening@.len(),
                        0 <= d_start <= depth < 256,
                        z@ == zero_hash(),
                        node_bit == key_bit(key@, depth as int),
                        sibling_bit == key_bit(sibling_key@, depth as int),
                        opening@.subrange(0, d_start) == prefix,
                        prefix.len() == d_start,
                        forall|e: int| d_start <= e < depth ==> #[trigger] opening@[e]@ == zero_hash(),
                        forall|e: int| d_start <= e < depth ==> key_bit(key@, e) == key_bit(sibling_key@, e),
                        old(self).walked(key@, nodes, sibs),
                        nodes[0] == root@,
                        nodes.len() == d_start + 1,
                        forall|k: int| 0 <= k < d_start ==> #[trigger] nodes[k] != zero_hash() && nodes[k] != leaf@,
                        nodes[d_start] == node@,
                        node@ != zero_hash(),
                        node@ != leaf@,
                        old(self).has_key_entry(node@),
                        old(self).key_entry(node@) == sibling_key@,
                        sibling_key@ != key@,
                    decreases 256 - depth,
                {
                    depth = depth + 1;
                    if depth == 256 {
                        proof {
                            lemma_first_diff_none(key@, sibling_key@, d_start);
                            lemma_not_insertable(*old(self), root@, key@, leaf@, nodes, sibs);
                        }
                        return Err(SmtError::MaxDepth);
                    }
                    node_bit = bit_at(key, depth);
                    sibling_bit = bit_at(&sibling_key, depth);
                    let ghost before_push = opening@;
                    opening.push(z);
                    assert(opening@.subrange(0, d_start) =~= before_push.subrange(0, d_start));
                }
                let ghost path = seq![node@] + opening@.map_values(|h: Hash32| h@).reverse();
                proof {
                    lemma_first_diff_from(key@, sibling_key@, d_start, depth as int);
                    let views = opening@.map_values(|h: Hash32| h@);
                    assert(views.subrange(0, d_start) =~= sibs);
                    assert(views =~= sibs + zeros((depth - d_start) as nat));
                    assert(zeros((depth - d_start) as nat).reverse() =~= zeros((depth - d_start) as nat));
                    assert(views.reverse() =~= zeros((depth - d_start) as nat) + q);
                    assert(path =~= seq![node@] + zeros((depth - q.len()) as nat) + q);
                }
                let r = self.finish_below(key, &leaf, &node, &mut opening, Ghost(path), Ghost(key@), Ghost(data@));
                proof {
                    lemma_outside_trans(*old(self), st0, *self);
                    if let Ok(nr) = r {
                        lemma_inserted_from_finish(*old(self), st0, *self, root@, key@, leaf@, nr@, q, node@, path, leaf@);
                        assert(old(self).insert_witness(root@, key@, leaf@, q, node@, path, leaf@));
                    }
                }
                return r;
            }
        }
    }

    /// Inserts `data` under `key` and returns the new root; the leaf is the hash
    /// of `data`. On a well-encoded store it fails, with `MaxDepth`, exactly
    /// when the leaf would lie beyond the 256 levels of the tree.
    pub fn insert(&mut self, root: Hash32, key: &Hash32, data: &[u8]) -> (r: Result<Hash32, SmtError>)
        requires
            old(self).wf(),
        ensures
            final(self).wf(),
            final(self).same_namespaces(old(self)),
            final(self).holds_data(key@, data@),
            root@ == zero_hash() ==> (r matches Ok(x) ==> x@ == combine::<H>(
                key_bit(key@, 0),
                H::spec_hash(data@),
                zero_hash(),
            )),
            r matches Ok(new_root) ==> exists|q: Seq<Seq<u8>>, n: Seq<u8>, p: Seq<Seq<u8>>, l: Seq<u8>|
                #[trigger] final(self).inserted(old(self), root@, key@, H::spec_hash(data@), new_root@, q, n, p, l),
            old(self).well_encoded() ==> final(self).well_encoded(),
            old(self).well_encoded() && r is Err ==> r == Err::<Hash32, SmtError>(SmtError::MaxDepth),
            same_outside(*final(self), *old(self)),
            old(self).well_encoded() ==> (r is Ok <==> old(self).insertable(
                root@,
                key@,
                H::spec_hash(data@),
            )),
    {
        let leaf = H::hash(data);
        self.insert_with_leaf(root, key, leaf, data)
    }

    /// Hangs `leaf` and `sibling` below a new inner node at depth `opening.len()`
    /// on the path of `key`, then stores the path up to the root.
    fn finish_below(
        &mut self,
        key: &Hash32,
        leaf: &Hash32,
        sibling: &Hash32,
        opening: &mut Vec<Hash32>,
        Ghost(path): Ghost<Seq<Seq<u8>>>,
        Ghost(data_key): Ghost<Seq<u8>>,
        Ghost(data): Ghost<Seq<u8>>,
    ) -> (r: Result<Hash32, SmtError>)
        requires
            old(self).wf(),
            old(self).holds_data(data_key, data),
            old(opening)@.len() < 256,
            path.len() == old(opening)@.len() + 1,
            path[0] == sibling@,
            forall|d: int|
                0 <= d < old(opening)@.len() ==> #[trigger] old(opening)@[d]@ == path[path.len()
                    - 1 - d],
            old(self).has_key_entry(leaf@),
            old(self).key_entry(leaf@) == key@,
        ensures
            final(self).wf(),
            final(self).same_namespaces(old(self)),
            final(self).holds_data(data_key, data),
            r matches Ok(nr) ==> nr@ == path_root::<H>(path, key@, leaf@),
            r matches Ok(nr) ==> (path_distinct::<H>(path, key@, leaf@) ==> final(self).descent(
                nr@,
                key@,
                path,
                leaf@,
            ) && final(self).has_key_entry(leaf@) && final(self).key_entry(leaf@) == key@),
            r is Ok ==> forall|x: Seq<u8>|
                (forall|d: int| 0 <= d < path.len() ==> x != #[trigger] path_node::<H>(path, key@, leaf@, d))
                    ==> #[trigger] final(self).same_node_entries(old(self), x),
            old(self).well_encoded() ==> final(self).well_encoded() && r is Ok,
            same_outside(*final(self), *old(self)),
    {
        let depth = opening.len();
        let bit = bit_at(key, depth);
        let children = place(bit, leaf, sibling);
        let parent = children.parent::<H>();
        assert(path_node::<H>(path, key@, leaf@, depth + 1) == leaf@);
        assert(parent@ == path_node::<H>(path, key@, leaf@, depth as int));
        let ghost before = *self;
        let inserted = self.insert_children(&parent, &children);
        match inserted {
            Ok(_) => {},
            Err(e) => return Err(e),
        }
        proof {
            assert(children.bytes_view().subrange(0, 32) =~= children.left@);
            assert(children.bytes_view().subrange(32, 64) =~= children.right@);
            assert(self.inner_step(path, key@, leaf@, depth as int));
            if path_distinct::<H>(path, key@, leaf@) {
                assert(path_node::<H>(path, key@, leaf@, depth as int) != path_node::<H>(
                    path,
                    key@,
                    leaf@,
                    depth + 1,
                ));
                assert(self.store().contains_key((self.namespace_key@, leaf@)) == before.store().contains_key((self.namespace_key@, leaf@)));
                assert(self.has_key_entry(leaf@) && self.key_entry(leaf@) == key@);
            }
        }
        let ghost mid = *self;
        let r = self.climb(parent, key, opening, Ghost(path), Ghost(leaf@), Ghost(data_key), Ghost(data));
        proof {
            lemma_outside_trans(before, mid, *self);
            if r is Ok {
                assert forall|x: Seq<u8>|
                    (forall|d: int| 0 <= d < path.len() ==> x != #[trigger] path_node::<H>(path, key@, leaf@, d))
                    implies #[trigger] self.same_node_entries(old(self), x) by {
                    assert(x != path_node::<H>(path, key@, leaf@, depth as int));
                    assert(mid.store().contains_key((self.namespace_node@, x)) == before.store().contains_key((self.namespace_node@, x)));
                    assert(mid.store().contains_key((self.namespace_key@, x)) == before.store().contains_key((self.namespace_key@, x)));
                    assert(mid.same_node_entries(&before, x));
                    assert forall|d: int| 0 <= d < depth implies x != #[trigger] path_node::<H>(path, key@, leaf@, d) by {}
                    assert(self.same_node_entries(&mid, x));
                }
            }
            if r is Ok && path_distinct::<H>(path, key@, leaf@) {
                let nb = path_node::<H>(path, key@, leaf@, depth as int);
                assert forall|d: int| 0 <= d < depth implies nb != #[trigger] path_node::<H>(
                    path,
                    key@,
                    leaf@,
                    d,
                ) by {}
                assert(self.same_node_entries(&mid, nb));
                assert forall|d: int| 0 <= d < depth implies leaf@ != #[trigger] path_node::<H>(
                    path,
                    key@,
                    leaf@,
                    d,
                ) by {
                    assert(path_node::<H>(path, key@, leaf@, path.len() as int) == leaf@);
                }
                assert(self.same_node_entries(&mid, leaf@));
                assert forall|d: int| 0 <= d < path.len() implies #[trigger] self.inner_step(
                    path,
                    key@,
                    leaf@,
                    d,
                ) by {
                    if d == depth {
                        assert(mid.inner_step(path, key@, leaf@, d));
                    }
                }
            }
        }
        r
    }

    /// Stores the path of `key` from `node` at depth `opening.len()` up to the root.
    fn finish_at(
        &mut self,
        node: Hash32,
        key: &Hash32,
        opening: &mut Vec<Hash32>,
        Ghost(path): Ghost<Seq<Seq<u8>>>,
        Ghost(data_key): Ghost<Seq<u8>>,
        Ghost(data): Ghost<Seq<u8>>,
    ) -> (r: Result<Hash32, SmtError>)
        requires
            old(self).wf(),
            old(self).holds_data(data_key, data),
            path.len() == old(opening)@.len(),
            path.len() <= 256,
            forall|d: int|
                0 <= d < old(opening)@.len() ==> #[trigger] old(opening)@[d]@ == path[path.len()
                    - 1 - d],
        ensures
            final(self).wf(),
            final(self).same_namespaces(old(self)),
            final(self).holds_data(data_key, data),
            r matches Ok(nr) ==> nr@ == path_root::<H>(path, key@, node@),
            r matches Ok(nr) ==> (path_distinct::<H>(path, key@, node@) && old(self).has_key_entry(
                node@,
            ) && old(self).key_entry(node@) == key@ ==> final(self).descent(nr@, key@, path, node@)
                && final(self).has_key_entry(node@) && final(self).key_entry(node@) == key@),
            r is Ok && path_distinct::<H>(path, key@, node@) ==> forall|d: int|
                0 <= d < path.len() ==> #[trigger] final(self).inner_step(path, key@, node@, d),
            r is Ok ==> forall|x: Seq<u8>|
                (forall|d: int| 0 <= d < path.len() ==> x != #[trigger] path_node::<H>(path, key@, node@, d))
                    ==> #[trigger] final(self).same_node_entries(old(self), x),
            old(self).well_encoded() ==> final(self).well_encoded() && r is Ok,
            same_outside(*final(self), *old(self)),
    {
        assert(path_node::<H>(path, key@, node@, path.len() as int) == node@);
        let r = self.climb(node, key, opening, Ghost(path), Ghost(node@), Ghost(data_key), Ghost(data));
        proof {
            if r is Ok && path_distinct::<H>(path, key@, node@) {
                assert forall|d: int| 0 <= d < path.len() implies node@ != #[trigger] path_node::<H>(
                    path,
                    key@,
                    node@,
                    d,
                ) by {}
                assert(self.same_node_entries(old(self), node@));
            }
        }
        r
    }


    /// The subtree of `node`, seen at `depth`, has no inner node at depth 257
    /// or below: every node with stored children above that depth leads
    /// through its two children to such subtrees.
    pub open spec fn shallow(&self, node: Seq<u8>, depth: int) -> bool
        decreases 257 - depth,
    {
        if !self.has_children_entry(node) {
            true
        } else if depth >= 257 {
            false
        } else {
            match parse_children(self.children_entry(node)) {
                Some(c) => self.shallow(c.0, depth + 1) && self.shallow(c.1, depth + 1),
                None => true,
            }
        }
    }

    /// A store that keeps part of the entries of another keeps its shallow
    /// subtrees shallow.
    pub proof fn lemma_shallow_submap(a: &Self, b: &Self, node: Seq<u8>, depth: int)
        requires
            b.store().submap_of(a.store()),
            b.namespace_node == a.namespace_node,
            a.shallow(node, depth),
        ensures
            b.shallow(node, depth),
        decreases 257 - depth,
    {
        if b.has_children_entry(node) {
            assert(a.has_children_entry(node));
            assert(b.children_entry(node) == a.children_entry(node));
            if depth < 257 {
                if let Some(c) = parse_children(a.children_entry(node)) {
                    Self::lemma_shallow_submap(a, b, c.0, depth + 1);
                    Self::lemma_shallow_submap(a, b, c.1, depth + 1);
                }
            }
        }
    }

    /// `x` lies in the subtree of `node` seen at `depth`: it is `node`, or it
    /// lies in the subtree of one of the stored children of `node`, seen one
    /// level deeper, above depth 257.
    pub open spec fn reaches(&self, node: Seq<u8>, depth: int, x: Seq<u8>) -> bool
        decreases 257 - depth,
    {
        if x == node {
            true
        } else if depth >= 257 || !self.has_children_entry(node) {
            false
        } else {
            match parse_children(self.children_entry(node)) {
                Some(c) => self.reaches(c.0, depth + 1, x) || self.reaches(c.1, depth + 1, x),
                None => false,
            }
        }
    }

    /// The entries that pruning the subtree of `node`, seen at `depth`,
    /// removes: the children entries and leaf keys of its nodes, and the
    /// payloads of their keys.
    pub open spec fn pruned_entry(&self, node: Seq<u8>, depth: int, k: (Seq<u8>, Seq<u8>)) -> bool {
        exists|x: Seq<u8>|
            #[trigger] self.reaches(node, depth, x) && {
                ||| k == (self.namespace_node@, x)
                ||| k == (self.namespace_key@, x)
                ||| self.has_key_entry(x) && self.key_entry(x).len() == 32 && k == (
                    self.namespace_data@,
                    self.key_entry(x),
                )
            }
    }

    /// `x` lies in the subtree of `node`, at most `n` levels below it.
    pub open spec fn reaches_within(&self, node: Seq<u8>, n: nat, x: Seq<u8>) -> bool
        decreases n,
    {
        if x == node {
            true
        } else if n == 0 || !self.has_children_entry(node) {
            false
        } else {
            match parse_children(self.children_entry(node)) {
                Some(c) => self.reaches_within(c.0, (n - 1) as nat, x) || self.reaches_within(
                    c.1,
                    (n - 1) as nat,
                    x,
                ),
                None => false,
            }
        }
    }

    /// `x` lies in the subtree of `node`, at any depth.
    pub open spec fn reachable(&self, node: Seq<u8>, x: Seq<u8>) -> bool {
        exists|n: nat| #[trigger] self.reaches_within(node, n, x)
    }

    /// What a subtree seen at some depth holds is reachable from its root.
    proof fn lemma_reaches_is_reachable(&self, node: Seq<u8>, depth: int, x: Seq<u8>)
        requires
            self.reaches(node, depth, x),
        ensures
            self.reachable(node, x),
        decreases 257 - depth,
    {
        if x == node {
            assert(self.reaches_within(node, 0, x));
        } else {
            let c = parse_children(self.children_entry(node))->0;
            let next = if self.reaches(c.0, depth + 1, x) {
                c.0
            } else {
                c.1
            };
            self.lemma_reaches_is_reachable(next, depth + 1, x);
            let m = choose|m: nat| #[trigger] self.reaches_within(next, m, x);
            assert(self.reaches_within(node, m + 1, x));
        }
    }

    /// More levels reach at least as far.
    proof fn lemma_within_more(&self, node: Seq<u8>, n: nat, m: nat, x: Seq<u8>)
        requires
            self.reaches_within(node, n, x),
            n <= m,
        ensures
            self.reaches_within(node, m, x),
        decreases n,
    {
        if x != node {
            let c = parse_children(self.children_entry(node))->0;
            if self.reaches_within(c.0, (n - 1) as nat, x) {
                self.lemma_within_more(c.0, (n - 1) as nat, (m - 1) as nat, x);
            } else {
                self.lemma_within_more(c.1, (n - 1) as nat, (m - 1) as nat, x);
            }
        }
    }

    /// What lies below a node of a subtree lies in the subtree.
    proof fn lemma_reachable_trans(&self, a: Seq<u8>, y: Seq<u8>, x: Seq<u8>)
        requires
            self.reachable(a, y),
            self.reachable(y, x),
        ensures
            self.reachable(a, x),
    {
        let n = choose|n: nat| #[trigger] self.reaches_within(a, n, y);
        let m = choose|m: nat| #[trigger] self.reaches_within(y, m, x);
        self.lemma_within_trans(a, n, y, m, x);
    }

    proof fn lemma_within_trans(&self, a: Seq<u8>, n: nat, y: Seq<u8>, m: nat, x: Seq<u8>)
        requires
            self.reaches_within(a, n, y),
            self.reaches_within(y, m, x),
        ensures
            self.reaches_within(a, n + m, x),
        decreases n,
    {
        if y == a {
            self.lemma_within_more(a, m, n + m, x);
        } else {
            let c = parse_children(self.children_entry(a))->0;
            if self.reaches_within(c.0, (n - 1) as nat, y) {
                self.lemma_within_trans(c.0, (n - 1) as nat, y, m, x);
            } else {
                self.lemma_within_trans(c.1, (n - 1) as nat, y, m, x);
            }
        }
    }

    /// What a subtree reaches in a store it still reaches in a part of that
    /// store, unless the part lost the children entry of a node from which it
    /// is reachable.
    proof fn lemma_within_submap(a: &Self, b: &Self, node: Seq<u8>, n: nat, x: Seq<u8>)
        requires
            b.store().submap_of(a.store()),
            b.namespace_node == a.namespace_node,
            a.reaches_within(node, n, x),
        ensures
            b.reachable(node, x) || exists|y: Seq<u8>|
                a.has_children_entry(y) && !b.has_children_entry(y) && #[trigger] a.reachable(y, x),
        decreases n,
    {
        if x == node {
            assert(b.reaches_within(node, 0, x));
        } else if !b.has_children_entry(node) {
            assert(a.reachable(node, x));
        } else {
            assert(b.children_entry(node) == a.children_entry(node));
            let c = parse_children(a.children_entry(node))->0;
            let next = if a.reaches_within(c.0, (n - 1) as nat, x) {
                c.0
            } else {
                c.1
            };
            Self::lemma_within_submap(a, b, next, (n - 1) as nat, x);
            if b.reachable(next, x) {
                let m = choose|m: nat| #[trigger] b.reaches_within(next, m, x);
                assert(b.reaches_within(node, m + 1, x));
            }
        }
    }

    /// What a part of a store reaches, the store reaches.
    proof fn lemma_reaches_from_submap(a: &Self, b: &Self, node: Seq<u8>, depth: int, x: Seq<u8>)
        requires
            b.store().submap_of(a.store()),
            b.namespace_node == a.namespace_node,
            b.reaches(node, depth, x),
        ensures
            a.reaches(node, depth, x),
        decreases 257 - depth,
    {
        if x != node {
            assert(a.has_children_entry(node));
            assert(b.children_entry(node) == a.children_entry(node));
            let c = parse_children(b.children_entry(node))->0;
            if b.reaches(c.0, depth + 1, x) {
                Self::lemma_reaches_from_submap(a, b, c.0, depth + 1, x);
            } else {
                Self::lemma_reaches_from_submap(a, b, c.1, depth + 1, x);
            }
        }
    }

    /// Every leaf key that `before` held and `self` no longer holds left together with its data.
    pub open spec fn keys_left_with_data(&self, before: &Self) -> bool {
        forall|x: Seq<u8>|
            #[trigger] before.has_key_entry(x) && before.key_entry(x).len() == 32 && !self.has_key_entry(x)
                ==> !self.store().contains_key((self.namespace_data@, before.key_entry(x)))
    }

    proof fn lemma_keys_left_trans(a: &Self, b: &Self, c: &Self)
        requires
            b.keys_left_with_data(a),
            c.keys_left_with_data(b),
            b.store().submap_of(a.store()),
            c.store().submap_of(b.store()),
            b.same_namespaces(a),
            c.same_namespaces(b),
        ensures
            c.keys_left_with_data(a),
            c.store().submap_of(a.store()),
    {
        vstd::map_lib::lemma_submap_of_trans(c.store(), b.store(), a.store());
        assert forall|x: Seq<u8>|
            #[trigger] a.has_key_entry(x) && a.key_entry(x).len() == 32 && !c.has_key_entry(x)
            implies !c.store().contains_key((c.namespace_data@, a.key_entry(x))) by {
            if b.has_key_entry(x) {
                assert(b.key_entry(x) == a.key_entry(x));
            }
        }
    }

    /// Removes from the store everything reachable from `root`: its children
    /// entries, leaf keys and leaf data, recursively, and nothing else. When
    /// it succeeds, no node of the subtree keeps a children entry or a leaf
    /// key, and no key of its leaves keeps its data. On a well-encoded store
    /// it succeeds when no node with children lies 257 levels or more below
    /// `root`.
    pub fn prune(&mut self, root: &Hash32) -> (r: Result<(), SmtError>)
        requires
            old(self).wf(),
        ensures
            final(self).wf(),
            final(self).same_namespaces(old(self)),
            final(self).store().submap_of(old(self).store()),
            r is Ok ==> !final(self).has_children_entry(root@) && !final(self).has_key_entry(root@),
            r is Ok ==> final(self).keys_left_with_data(old(self)),
            r is Ok && old(self).has_key_entry(root@) && old(self).key_entry(root@).len() == 32
                ==> !final(self).store().contains_key(
                (old(self).namespace_data@, old(self).key_entry(root@)),
            ),
            old(self).well_encoded() ==> final(self).well_encoded(),
            old(self).well_encoded() && r is Err ==> r == Err::<(), SmtError>(SmtError::MaxDepth),
            old(self).well_encoded() && old(self).shallow(root@, 0) ==> r is Ok,
            final(self).kept_outside(old(self), root@, 0),
            r is Ok ==> final(self).cleared_below(old(self), root@),
            r is Ok ==> forall|x: Seq<u8>|
                #[trigger] old(self).reachable(root@, x) && old(self).has_key_entry(x)
                    && old(self).key_entry(x).len() == 32 ==> !final(self).store().contains_key(
                    (old(self).namespace_data@, old(self).key_entry(x)),
                ),
    {
        let r = self.prune_at(root, 0);
        proof {
            if r is Ok {
                assert forall|x: Seq<u8>|
                    #[trigger] old(self).reachable(root@, x) && old(self).has_key_entry(x)
                        && old(self).key_entry(x).len() == 32 implies !self.store().contains_key(
                        (old(self).namespace_data@, old(self).key_entry(x)),
                    ) by {
                    assert(!self.has_key_entry(x));
                }
            }
        }
        r
    }

    fn prune_at(&mut self, root: &Hash32, depth: usize) -> (r: Result<(), SmtError>)
        requires
            old(self).wf(),
            depth <= 257,
        ensures
            final(self).wf(),
            final(self).same_namespaces(old(self)),
            final(self).store().submap_of(old(self).store()),
            r is Ok ==> !final(self).has_children_entry(root@) && !final(self).has_key_entry(root@),
            r is Ok ==> final(self).keys_left_with_data(old(self)),
            r is Ok && old(self).has_key_entry(root@) && old(self).key_entry(root@).len() == 32
                ==> !final(self).store().contains_key(
                (old(self).namespace_data@, old(self).key_entry(root@)),
            ),
            old(self).well_encoded() ==> final(self).well_encoded(),
            old(self).well_encoded() && r is Err ==> r == Err::<(), SmtError>(SmtError::MaxDepth),
            old(self).well_encoded() && old(self).shallow(root@, depth as int) ==> r is Ok,
            final(self).kept_outside(old(self), root@, depth as int),
            r is Ok ==> final(self).cleared_below(old(self), root@),
        decreases 257 - depth,
    {
        let ghost s0 = *self;
        match self.get_children(root) {
            Ok(Some(c)) => {
                if depth == 257 {
                    return Err(SmtError::MaxDepth);
                }
                let r1 = self.prune_at(&c.left, depth + 1);
                let ghost s_mid = *self;
                proof {
                    Self::lemma_kept_child(&s0, &s_mid, root@, depth as int, c.left@, c.right@, c.left@);
                }
                if let Err(e) = r1 {
                    return Err(e);
                }
                proof {
                    if s0.shallow(root@, depth as int) {
                        Self::lemma_shallow_submap(&s0, &s_mid, c.right@, depth + 1);
                    }
                }
                proof {
                    if s0.well_encoded() {
                        lemma_encoded_submap(s0, s_mid);
                    }
                }
                let r2 = self.prune_at(&c.right, depth + 1);
                proof {
                    vstd::map_lib::lemma_submap_of_trans(self.store(), s_mid.store(), s0.store());
                    Self::lemma_kept_right(&s0, &s_mid, self, root@, depth as int, c.left@, c.right@);
                }
                if let Err(e) = r2 {
                    return Err(e);
                }
                proof {
                    Self::lemma_keys_left_trans(&s0, &s_mid, self);
                    Self::lemma_cleared_both(&s0, &s_mid, self, root@, depth as int, c.left@, c.right@);
                }
            },
            Ok(None) => {
                assert forall|x: Seq<u8>| #[trigger] s0.reachable(root@, x) && x != root@ implies !self.has_children_entry(x)
                    && !self.has_key_entry(x) by {
                    let n = choose|n: nat| #[trigger] s0.reaches_within(root@, n, x);
                    assert(!s0.has_children_entry(root@));
                }
            },
            Err(e) => return Err(e),
        }
        let ghost s1 = *self;
        proof {
            if s0.well_encoded() {
                lemma_encoded_submap(s0, s1);
            }
            assert(s0.reaches(root@, depth as int, root@));
        }
        let rk = self.remove_node_key(root);
        let ghost s_k = *self;
        proof {
            vstd::map_lib::lemma_submap_of_trans(self.store(), s1.store(), s0.store());
            Self::lemma_kept_removal(&s0, &s1, self, root@, depth as int, (s0.namespace_key@, root@));
        }
        match rk {
            Ok(Some(key)) => {
                self.remove_key_data(&key);
                proof {
                    vstd::map_lib::lemma_submap_of_trans(self.store(), s_k.store(), s0.store());
                    assert(s1.has_key_entry(root@) && s1.key_entry(root@) == key@);
                    assert(s1.store().contains_key((s1.namespace_key@, root@)));
                    assert(s1.store().submap_of(s0.store()));
                    assert(s0.store().contains_key((s1.namespace_key@, root@)));
                    assert(s0.store()[(s1.namespace_key@, root@)] == s1.store()[(s1.namespace_key@, root@)]);
                    assert(s0.has_key_entry(root@) && s0.key_entry(root@) == key@);
                    Self::lemma_kept_removal(&s0, &s_k, self, root@, depth as int, (s0.namespace_data@, key@));
                }
            },
            Ok(None) => {},
            Err(e) => return Err(e),
        }
        let ghost s2 = *self;
        proof {
            assert(self.keys_left_with_data(&s1)) by {
                assert forall|x: Seq<u8>|
                    #[trigger] s1.has_key_entry(x) && s1.key_entry(x).len() == 32 && !self.has_key_entry(x)
                    implies !self.store().contains_key((self.namespace_data@, s1.key_entry(x))) by {
                    assert(x == root@);
                }
            }
        }
        let res = self.remove_children(root);
        proof {
            vstd::map_lib::lemma_submap_of_trans(self.store(), s2.store(), s0.store());
            Self::lemma_kept_removal(&s0, &s2, self, root@, depth as int, (s0.namespace_node@, root@));
            assert(self.keys_left_with_data(&s2));
            Self::lemma_keys_left_trans(&s1, &s2, self);
            assert(s1.keys_left_with_data(&s0));
            Self::lemma_keys_left_trans(&s0, &s1, self);
            if s0.well_encoded() {
                lemma_encoded_submap(s0, s2);
                lemma_encoded_submap(s0, *self);
            }
            {
                assert forall|x: Seq<u8>| #[trigger] s0.reachable(root@, x) implies !self.has_children_entry(x)
                    && !self.has_key_entry(x) by {
                    if x != root@ {
                        assert(!s1.has_children_entry(x) && !s1.has_key_entry(x));
                        vstd::map_lib::lemma_submap_of_trans(s2.store(), s_k.store(), s1.store());
                        vstd::map_lib::lemma_submap_of_trans(self.store(), s2.store(), s1.store());
                    }
                }
            }
        }
        match res {
            Ok(_) => Ok(()),
            Err(e) => Err(e),
        }
    }

    /// The entries of `before` that pruning the subtree of `root` leaves are
    /// still in `self`.
    pub open spec fn kept_outside(&self, before: &Self, root: Seq<u8>, depth: int) -> bool {
        forall|k: (Seq<u8>, Seq<u8>)|
            #[trigger] before.store().contains_key(k) && !before.pruned_entry(root, depth, k)
                ==> self.store().contains_key(k)
    }

    /// No node of the subtree of `root` in `before`, at any depth, has a
    /// children entry or a leaf key in `self`.
    pub open spec fn cleared_below(&self, before: &Self, root: Seq<u8>) -> bool {
        forall|x: Seq<u8>|
            #[trigger] before.reachable(root, x) ==> !self.has_children_entry(x) && !self.has_key_entry(x)
    }

    /// What pruning a child's subtree removes, pruning the parent's removes.
    proof fn lemma_pruned_child(s: &Self, root: Seq<u8>, depth: int, left: Seq<u8>, right: Seq<u8>, child: Seq<u8>, k: (Seq<u8>, Seq<u8>))
        requires
            s.has_children_entry(root),
            parse_children(s.children_entry(root)) == Some((left, right)),
            0 <= depth < 257,
            child == left || child == right,
            s.pruned_entry(child, depth + 1, k),
        ensures
            s.pruned_entry(root, depth, k),
    {
        let x = choose|x: Seq<u8>|
            #[trigger] s.reaches(child, depth + 1, x) && {
                ||| k == (s.namespace_node@, x)
                ||| k == (s.namespace_key@, x)
                ||| s.has_key_entry(x) && s.key_entry(x).len() == 32 && k == (s.namespace_data@, s.key_entry(x))
            };
        assert(s.reaches(root, depth, x));
    }

    /// Pruning the left child keeps what pruning the parent keeps.
    proof fn lemma_kept_child(s0: &Self, s_mid: &Self, root: Seq<u8>, depth: int, left: Seq<u8>, right: Seq<u8>, child: Seq<u8>)
        requires
            s0.has_children_entry(root),
            parse_children(s0.children_entry(root)) == Some((left, right)),
            0 <= depth < 257,
            child == left || child == right,
            s_mid.kept_outside(s0, child, depth + 1),
        ensures
            s_mid.kept_outside(s0, root, depth),
    {
        assert forall|k: (Seq<u8>, Seq<u8>)|
            #[trigger] s0.store().contains_key(k) && !s0.pruned_entry(root, depth, k) implies s_mid.store().contains_key(k) by {
            if s0.pruned_entry(child, depth + 1, k) {
                Self::lemma_pruned_child(s0, root, depth, left, right, child, k);
            }
        }
    }

    /// What a part of a store prunes, the store prunes.
    proof fn lemma_pruned_from_submap(a: &Self, b: &Self, node: Seq<u8>, depth: int, k: (Seq<u8>, Seq<u8>))
        requires
            b.store().submap_of(a.store()),
            b.same_namespaces(a),
            b.pruned_entry(node, depth, k),
        ensures
            a.pruned_entry(node, depth, k),
    {
        let x = choose|x: Seq<u8>|
            #[trigger] b.reaches(node, depth, x) && {
                ||| k == (b.namespace_node@, x)
                ||| k == (b.namespace_key@, x)
                ||| b.has_key_entry(x) && b.key_entry(x).len() == 32 && k == (b.namespace_data@, b.key_entry(x))
            };
        Self::lemma_reaches_from_submap(a, b, node, depth, x);
        if b.has_key_entry(x) {
            assert(a.store().contains_key((a.namespace_key@, x)));
            assert(b.key_entry(x) == a.key_entry(x));
        }
    }

    /// Pruning both children keeps what pruning the parent keeps.
    proof fn lemma_kept_right(s0: &Self, s_mid: &Self, s_r: &Self, root: Seq<u8>, depth: int, left: Seq<u8>, right: Seq<u8>)
        requires
            s0.has_children_entry(root),
            parse_children(s0.children_entry(root)) == Some((left, right)),
            0 <= depth < 257,
            s_mid.store().submap_of(s0.store()),
            s_mid.same_namespaces(s0),
            s_mid.kept_outside(s0, root, depth),
            s_r.kept_outside(s_mid, right, depth + 1),
        ensures
            s_r.kept_outside(s0, root, depth),
    {
        assert forall|k: (Seq<u8>, Seq<u8>)|
            #[trigger] s0.store().contains_key(k) && !s0.pruned_entry(root, depth, k) implies s_r.store().contains_key(k) by {
            assert(s_mid.store().contains_key(k));
            if s_mid.pruned_entry(right, depth + 1, k) {
                Self::lemma_pruned_from_submap(s0, s_mid, right, depth + 1, k);
                Self::lemma_pruned_child(s0, root, depth, left, right, right, k);
            }
        }
    }

    /// Removing an entry that pruning removes keeps what pruning keeps.
    proof fn lemma_kept_removal(s0: &Self, before: &Self, after: &Self, root: Seq<u8>, depth: int, k0: (Seq<u8>, Seq<u8>))
        requires
            before.kept_outside(s0, root, depth),
            after.store() == before.store().remove(k0),
            s0.pruned_entry(root, depth, k0),
        ensures
            after.kept_outside(s0, root, depth),
    {
    }

    /// Pruning the two children of a node clears every node below it.
    proof fn lemma_cleared_both(s0: &Self, s_mid: &Self, s_r: &Self, root: Seq<u8>, depth: int, left: Seq<u8>, right: Seq<u8>)
        requires
            s0.wf(),
            s0.has_children_entry(root),
            parse_children(s0.children_entry(root)) == Some((left, right)),
            0 <= depth < 257,
            s_mid.store().submap_of(s0.store()),
            s_mid.same_namespaces(s0),
            s_r.store().submap_of(s_mid.store()),
            s_r.same_namespaces(s_mid),
            s_mid.kept_outside(s0, left, depth + 1),
            s_mid.cleared_below(s0, left),
            s_r.cleared_below(s_mid, right),
        ensures
            forall|x: Seq<u8>|
                #[trigger] s0.reachable(root, x) && x != root ==> !s_r.has_children_entry(x)
                    && !s_r.has_key_entry(x),
    {
        assert forall|x: Seq<u8>| #[trigger] s0.reachable(root, x) && x != root implies !s_r.has_children_entry(x)
            && !s_r.has_key_entry(x) by {
            let n = choose|n: nat| #[trigger] s0.reaches_within(root, n, x);
            if s0.reaches_within(left, (n - 1) as nat, x) {
                assert(s0.reachable(left, x));
                assert(!s_mid.has_children_entry(x) && !s_mid.has_key_entry(x));
            } else {
                assert(s0.reaches_within(right, (n - 1) as nat, x));
                Self::lemma_within_submap(s0, s_mid, right, (n - 1) as nat, x);
                if !s_mid.reachable(right, x) {
                    let y = choose|y: Seq<u8>|
                        s0.has_children_entry(y) && !s_mid.has_children_entry(y) && #[trigger] s0.reachable(y, x);
                    let k = (s0.namespace_node@, y);
                    assert(s0.store().contains_key(k));
                    assert(s0.pruned_entry(left, depth + 1, k));
                    let z = choose|z: Seq<u8>|
                        #[trigger] s0.reaches(left, depth + 1, z) && {
                            ||| k == (s0.namespace_node@, z)
                            ||| k == (s0.namespace_key@, z)
                            ||| s0.has_key_entry(z) && s0.key_entry(z).len() == 32 && k == (s0.namespace_data@, s0.key_entry(z))
                        };
                    assert(z == y);
                    s0.lemma_reaches_is_reachable(left, depth + 1, y);
                    s0.lemma_reachable_trans(left, y, x);
                    assert(!s_mid.has_children_entry(x) && !s_mid.has_key_entry(x));
                }
            }
        }
    }

    /// Stores `node` on the path of `key` from depth `depth` up to the root,
    /// taking the siblings from `opening` (the sibling at depth `d` is `opening[d]`).
    fn climb(
        &mut self,
        node: Hash32,
        key: &Hash32,
        opening: &mut Vec<Hash32>,
        Ghost(path): Ghost<Seq<Seq<u8>>>,
        Ghost(leaf): Ghost<Seq<u8>>,
        Ghost(data_key): Ghost<Seq<u8>>,
        Ghost(data): Ghost<Seq<u8>>,
    ) -> (r: Result<Hash32, SmtError>)
        requires
            old(self).wf(),
            old(self).holds_data(data_key, data),
            old(opening)@.len() <= path.len(),
            path.len() <= 256,
            node@ == path_node::<H>(path, key@, leaf, old(opening)@.len() as int),
            forall|d: int|
                0 <= d < old(opening)@.len() ==> #[trigger] old(opening)@[d]@ == path[path.len()
                    - 1 - d],
        ensures
            final(self).wf(),
            final(self).same_namespaces(old(self)),
            final(self).holds_data(data_key, data),
            r matches Ok(root) ==> root@ == path_root::<H>(path, key@, leaf),
            r is Ok && path_distinct::<H>(path, key@, leaf) ==> forall|d: int|
                0 <= d < old(opening)@.len() ==> #[trigger] final(self).inner_step(path, key@, leaf, d),
            r is Ok ==> forall|x: Seq<u8>|
                (forall|d: int| 0 <= d < old(opening)@.len() ==> x != #[trigger] path_node::<H>(path, key@, leaf, d))
                    ==> #[trigger] final(self).same_node_entries(old(self), x),
            old(self).well_encoded() ==> final(self).well_encoded() && r is Ok,
            same_outside(*final(self), *old(self)),
    {
        let mut node = node;
        let ghost d0 = opening@.len() as int;
        let mut depth: usize = opening.len();
        while depth > 0
            invariant
                self.wf(),
                self.same_namespaces(old(self)),
                self.holds_data(data_key, data),
                depth == opening@.len(),
                depth <= path.len(),
                path.len() <= 256,
                node@ == path_node::<H>(path, key@, leaf, depth as int),
                forall|d: int|
                    0 <= d < opening@.len() ==> #[trigger] opening@[d]@ == path[path.len() - 1
                        - d],
                d0 == old(opening)@.len(),
                depth <= d0 <= path.len(),
                path_distinct::<H>(path, key@, leaf) ==> forall|d: int|
                    depth <= d < d0 ==> #[trigger] self.inner_step(path, key@, leaf, d),
                forall|x: Seq<u8>|
                    (forall|d: int| depth <= d < d0 ==> x != #[trigger] path_node::<H>(path, key@, leaf, d))
                        ==> #[trigger] self.same_node_entries(old(self), x),
                old(self).well_encoded() ==> self.well_encoded(),
                same_outside(*self, *old(self)),
            decreases depth,
        {
            let ghost prev = *self;
            let sibling = opening.pop().unwrap();
            depth = depth - 1;
            let bit = bit_at(key, depth);
            let children = place(bit, &node, &sibling);
            let parent = children.parent::<H>();
            assert(parent@ == path_node::<H>(path, key@, leaf, depth as int));
            let inserted = self.insert_children(&parent, &children);
            proof {
                lemma_outside_trans(*old(self), prev, *self);
            }
            match inserted {
                Ok(_) => {},
                Err(e) => return Err(e),
            }
            proof {
                let p = parent@;
                assert(children.bytes_view().subrange(0, 32) =~= children.left@);
                assert(children.bytes_view().subrange(32, 64) =~= children.right@);
                assert forall|x: Seq<u8>| x != p implies #[trigger] self.same_node_entries(&prev, x) by {
                    assert(self.store().contains_key((self.namespace_node@, x)) == prev.store().contains_key((self.namespace_node@, x)));
                    assert(self.store().contains_key((self.namespace_key@, x)) == prev.store().contains_key((self.namespace_key@, x)));
                }
                if path_distinct::<H>(path, key@, leaf) {
                    assert forall|d: int| depth <= d < d0 implies #[trigger] self.inner_step(path, key@, leaf, d) by {
                        if d > depth {
                            assert(prev.inner_step(path, key@, leaf, d));
                            assert(path_node::<H>(path, key@, leaf, d) != p);
                            assert(self.same_node_entries(&prev, path_node::<H>(path, key@, leaf, d)));
                        } else {
                            assert(path[path.len() - 1 - d] == sibling@);
                            assert(path_node::<H>(path, key@, leaf, d + 1) == node@);
                        }
                    }
                }
                assert forall|x: Seq<u8>|
                    (forall|d: int| depth <= d < d0 ==> x != #[trigger] path_node::<H>(path, key@, leaf, d))
                    implies #[trigger] self.same_node_entries(old(self), x) by {
                    assert(x != path_node::<H>(path, key@, leaf, depth as int));
                    assert(self.same_node_entries(&prev, x));
                    assert forall|d: int| depth + 1 <= d < d0 implies x != #[trigger] path_node::<H>(path, key@, leaf, d) by {}
                    assert(prev.same_node_entries(old(self), x));
                }
            }
            node = parent;
        }
        Ok(node)
    }
}

/// The nodes met descending along `key` form a walk.
proof fn lemma_walk_of_nodes<D: DataBackend, H: Hasher>(
    smt: Smt<D, H>,
    root: Seq<u8>,
    key: Seq<u8>,
    sibs: Seq<Seq<u8>>,
    nodes: Seq<Seq<u8>>,
    depth: int,
)
    requires
        0 <= depth <= 256,
        sibs.len() == depth,
        nodes[0] == root,
        smt.walked(key, nodes, sibs),
    ensures
        smt.walk(root, key, sibs.reverse(), nodes[depth]),
{
    let q = sibs.reverse();
    let leaf = nodes[depth];
    assert forall|d: int| 0 <= d < depth implies #[trigger] nodes[d] == combine::<H>(
        key_bit(key, d),
        nodes[d + 1],
        q[depth - 1 - d],
    ) by {
        assert(smt.walk_step(key, nodes, sibs, d));
        assert(q[depth - 1 - d] == sibs[d]);
    }
    lemma_nodes_are_path_nodes::<H>(q, key, leaf, nodes, depth);
    assert forall|d: int| 0 <= d < q.len() implies #[trigger] smt.inner_step(q, key, leaf, d) by {
        assert(smt.walk_step(key, nodes, sibs, d));
        assert(path_node::<H>(q, key, leaf, d) == nodes[d]);
        assert(path_node::<H>(q, key, leaf, d + 1) == nodes[d + 1]);
        assert(q[q.len() - 1 - d] == sibs[d]);
    }
    assert(path_node::<H>(q, key, leaf, 0) == nodes[0]);
}

/// A walk along `key` follows the nodes that descending along `key` met.
proof fn lemma_walk_follows<D: DataBackend, H: Hasher>(
    smt: Smt<D, H>,
    root: Seq<u8>,
    key: Seq<u8>,
    nodes: Seq<Seq<u8>>,
    sibs: Seq<Seq<u8>>,
    q: Seq<Seq<u8>>,
    n: Seq<u8>,
    d: int,
)
    requires
        smt.walked(key, nodes, sibs),
        nodes[0] == root,
        smt.walk(root, key, q, n),
        0 <= d <= q.len(),
        d < nodes.len(),
    ensures
        path_node::<H>(q, key, n, d) == nodes[d],
    decreases d,
{
    if d > 0 {
        lemma_walk_follows(smt, root, key, nodes, sibs, q, n, d - 1);
        assert(smt.inner_step(q, key, n, d - 1));
        assert(smt.walk_step(key, nodes, sibs, d - 1));
    }
}

/// No insertion fits when the walk along `key` meets only inner nodes down to
/// a node `nodes[m]` where no path within 256 levels can end: an inner node
/// or the empty node at depth 256, or a node keyed with another key that
/// agrees with `key` on every bit from depth `m` on.
proof fn lemma_not_insertable<D: DataBackend, H: Hasher>(
    smt: Smt<D, H>,
    root: Seq<u8>,
    key: Seq<u8>,
    leaf: Seq<u8>,
    nodes: Seq<Seq<u8>>,
    sibs: Seq<Seq<u8>>,
)
    requires
        smt.walked(key, nodes, sibs),
        nodes[0] == root,
        forall|k: int| 0 <= k < nodes.len() ==> #[trigger] nodes[k] != zero_hash() || k == nodes.len() - 1,
        forall|k: int| 0 <= k < nodes.len() - 1 ==> #[trigger] nodes[k] != leaf,
        ({
            let m = nodes.len() - 1;
            let last = nodes[m];
            ||| m == 256 && last != zero_hash() && last != leaf && !smt.has_key_entry(last)
                && smt.has_children_entry(last)
            ||| m == 256 && last == zero_hash()
            ||| last != zero_hash() && last != leaf && smt.has_key_entry(last) && smt.key_entry(last)
                != key && first_diff_from(key, smt.key_entry(last), m) == 256
        }),
    ensures
        !smt.insertable(root, key, leaf),
{
    let m = nodes.len() - 1;
    assert forall|q: Seq<Seq<u8>>, n: Seq<u8>, p: Seq<Seq<u8>>, l: Seq<u8>|
        !#[trigger] smt.insert_witness(root, key, leaf, q, n, p, l) by {
        if smt.insert_witness(root, key, leaf, q, n, p, l) {
            let k = if q.len() <= m {
                q.len() as int
            } else {
                m
            };
            lemma_walk_follows(smt, root, key, nodes, sibs, q, n, k);
            if q.len() > m {
                assert(smt.inner_step(q, key, n, m));
                assert(path_node::<H>(q, key, n, m) == nodes[m]);
                if m < 256 {
                    assert(smt.has_key_entry(nodes[m]));
                }
            } else {
                assert(path_node::<H>(q, key, n, q.len() as int) == n);
                assert(n == nodes[k]);
                if k < m {
                    assert(smt.walk_step(key, nodes, sibs, k));
                    assert(nodes[k] != zero_hash());
                    assert(nodes[k] != leaf);
                }
            }
        }
    }
}

/// A walk extends by one inner node.
proof fn lemma_walked_push<D: DataBackend, H: Hasher>(
    smt: Smt<D, H>,
    key: Seq<u8>,
    nodes: Seq<Seq<u8>>,
    sibs: Seq<Seq<u8>>,
    child: Seq<u8>,
    sib: Seq<u8>,
)
    requires
        smt.walked(key, nodes, sibs),
        smt.walk_step(key, nodes.push(child), sibs.push(sib), sibs.len() as int),
    ensures
        smt.walked(key, nodes.push(child), sibs.push(sib)),
{
    let n2 = nodes.push(child);
    let s2 = sibs.push(sib);
    assert forall|d: int| 0 <= d < s2.len() implies #[trigger] smt.walk_step(key, n2, s2, d) by {
        if d < sibs.len() {
            assert(smt.walk_step(key, nodes, sibs, d));
            assert(n2[d] == nodes[d] && n2[d + 1] == nodes[d + 1] && s2[d] == sibs[d]);
        }
    }
}

/// The facts that the last steps of an insertion leave add up to `inserted`.
proof fn lemma_inserted_from_finish<D: DataBackend, H: Hasher>(
    old: Smt<D, H>,
    st0: Smt<D, H>,
    fin: Smt<D, H>,
    root: Seq<u8>,
    key: Seq<u8>,
    leaf: Seq<u8>,
    new_root: Seq<u8>,
    q: Seq<Seq<u8>>,
    n: Seq<u8>,
    p: Seq<Seq<u8>>,
    l: Seq<u8>,
)
    requires
        st0.keyed_from(&old, leaf, key),
        old.walk(root, key, q, n),
        old.insert_shape(key, leaf, q, n, p, l),
        p.len() <= 256,
        path_root::<H>(p, key, l) == new_root,
        path_distinct::<H>(p, key, l) ==> forall|d: int|
            0 <= d < p.len() ==> #[trigger] fin.inner_step(p, key, l, d),
        forall|x: Seq<u8>|
            (forall|d: int| 0 <= d < p.len() ==> x != #[trigger] path_node::<H>(p, key, l, d))
                ==> #[trigger] fin.same_node_entries(&st0, x),
    ensures
        fin.inserted(&old, root, key, leaf, new_root, q, n, p, l),
{
    assert forall|x: Seq<u8>|
        x != leaf && (forall|d: int| 0 <= d < p.len() ==> x != #[trigger] path_node::<H>(p, key, l, d))
        implies #[trigger] fin.same_node_entries(&old, x) by {
        assert(fin.same_node_entries(&st0, x));
        assert(st0.same_node_entries(&old, x));
    }
    if forall|d: int| 0 <= d < p.len() ==> leaf != #[trigger] path_node::<H>(p, key, l, d) {
        assert(fin.same_node_entries(&st0, leaf));
        assert(st0.has_children_entry(leaf) == old.has_children_entry(leaf));
    }
}

} // verus!
