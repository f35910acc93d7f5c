//! Compound openings: a chain of openings through nested trees.

use vstd::prelude::*;

use crate::backend::{copy_bytes, DataBackend};
use crate::hash::{Hash32, Hasher};
use crate::merkle::opening::{combine, hash_eq, key_bit, path_root, Opening};
use crate::merkle::read::lemma_descent_unique;
use crate::merkle::smt::{
    parse_children, same_outside, store_consistent, zero_hash, Smt, SmtError, PREFIX_KEY,
    PREFIX_NODE,
};

verus! {

/// One tree of a compound opening: the key opened in that tree and its opening.
#[derive(Debug)]
pub struct CompoundEntry {
    /// The key whose path the opening follows.
    pub key: Hash32,
    /// The opening in this tree.
    pub opening: Opening,
}

/// Openings through nested trees, the innermost tree first: each opening
/// leads to the root of the next tree, where that root is a leaf.
#[derive(Debug)]
pub struct CompoundOpening {
    /// The openings, innermost first.
    pub trees: Vec<CompoundEntry>,
}

/// The root that the openings of `trees` lead `value` to, the first entry applied first.
pub open spec fn compound_root<H: Hasher>(trees: Seq<CompoundEntry>, value: Seq<u8>) -> Seq<u8>
    decreases trees.len(),
{
    if trees.len() == 0 {
        value
    } else {
        compound_root::<H>(
            trees.drop_first(),
            path_root::<H>(trees[0].opening.path_view(), trees[0].key@, value),
        )
    }
}

/// Every opening of `trees` has at most 256 siblings.
pub open spec fn compound_bounded(trees: Seq<CompoundEntry>) -> bool {
    forall|i: int| 0 <= i < trees.len() ==> #[trigger] trees[i].opening.path@.len() <= 256
}

impl CompoundOpening {
    /// Verifies that the openings lead `value` to `root`.
    pub fn verify<H: Hasher>(&self, root: &Hash32, value: &Hash32) -> (r: bool)
        ensures
            r == (compound_bounded(self.trees@) && compound_root::<H>(self.trees@, value@)
                == root@),
    {
        let mut node: Hash32 = *value;
        let mut i: usize = 0;
        assert(self.trees@.subrange(0, self.trees@.len() as int) =~= self.trees@);
        while i < self.trees.len()
            invariant
                i <= self.trees@.len(),
                compound_bounded(self.trees@.subrange(0, i as int)),
                compound_root::<H>(self.trees@, value@) == compound_root::<H>(
                    self.trees@.subrange(i as int, self.trees@.len() as int),
                    node@,
                ),
            decreases self.trees@.len() - i,
        {
            let entry = &self.trees[i];
            if entry.opening.path.len() > 256 {
                assert(!compound_bounded(self.trees@));
                return false;
            }
            let ghost rest = self.trees@.subrange(i as int, self.trees@.len() as int);
            node = entry.opening.root::<H>(&entry.key, &node);
            assert(rest.drop_first() =~= self.trees@.subrange(i + 1, self.trees@.len() as int));
            i = i + 1;
            assert(compound_bounded(self.trees@.subrange(0, i as int))) by {
                assert forall|j: int| 0 <= j < i implies #[trigger] self.trees@.subrange(
                    0,
                    i as int,
                )[j].opening.path@.len() <= 256 by {
                    if j < i - 1 {
                        assert(self.trees@.subrange(0, i - 1)[j] == self.trees@[j]);
                    }
                }
            }
        }
        assert(self.trees@.subrange(0, self.trees@.len() as int) =~= self.trees@);
        assert(self.trees@.subrange(i as int, self.trees@.len() as int) =~= Seq::<CompoundEntry>::empty());
        hash_eq(&node, root)
    }
}

/// `s` reads the tree stored under `namespace` in the backend of `smt`.
pub open spec fn reads_namespace<D: DataBackend, H: Hasher>(
    s: Smt<D, H>,
    smt: Smt<D, H>,
    namespace: Seq<u8>,
) -> bool {
    &&& s.store() == smt.store()
    &&& s.namespace_node@ == H::spec_digest(seq![PREFIX_NODE@, namespace])
    &&& s.namespace_key@ == H::spec_digest(seq![PREFIX_KEY@, namespace])
}

/// In the tree stored under `namespace` in the backend of `smt`, descending
/// from `root` along `key` follows `path` to `leaf`.
pub open spec fn descends_in<D: DataBackend, H: Hasher>(
    smt: Smt<D, H>,
    namespace: Seq<u8>,
    root: Seq<u8>,
    key: Seq<u8>,
    path: Seq<Seq<u8>>,
    leaf: Seq<u8>,
) -> bool {
    forall|s: Smt<D, H>| #[trigger] reads_namespace(s, smt, namespace) ==> s.descent(root, key, path, leaf)
}

/// The openings `trees` (innermost first) follow, in the backend of `smt`,
/// the trees named by `openings` (outermost first) from `root`: `nodes`
/// are the nodes they reach, innermost first and `root` last, each opening
/// being the descent of its tree from the next node to its own.
pub open spec fn compound_chain<D: DataBackend, H: Hasher>(
    smt: Smt<D, H>,
    openings: Seq<(Seq<u8>, Seq<u8>)>,
    root: Seq<u8>,
    trees: Seq<CompoundEntry>,
    nodes: Seq<Seq<u8>>,
) -> bool {
    let k = trees.len();
    &&& openings.len() == k
    &&& nodes.len() == k + 1
    &&& nodes[k as int] == root
    &&& forall|i: int|
        0 <= i < k ==> {
            &&& #[trigger] trees[i].key@ == openings[k - 1 - i].1
            &&& path_root::<H>(trees[i].opening.path_view(), trees[i].key@, nodes[i]) == nodes[i + 1]
            &&& descends_in(
                smt,
                openings[k - 1 - i].0,
                nodes[i + 1],
                trees[i].key@,
                trees[i].opening.path_view(),
                nodes[i],
            )
        }
}

/// Two trees over the same backend contents and namespaces descend alike.
proof fn lemma_descent_same_tree<D: DataBackend, H: Hasher>(
    s1: Smt<D, H>,
    s2: Smt<D, H>,
    root: Seq<u8>,
    key: Seq<u8>,
    path: Seq<Seq<u8>>,
    leaf: Seq<u8>,
)
    requires
        s1.store() == s2.store(),
        s1.namespace_node@ == s2.namespace_node@,
        s1.namespace_key@ == s2.namespace_key@,
        s1.descent(root, key, path, leaf),
    ensures
        s2.descent(root, key, path, leaf),
{
    assert forall|d: int| 0 <= d < path.len() implies #[trigger] s2.inner_step(path, key, leaf, d) by {
        assert(s1.inner_step(path, key, leaf, d));
    }
}

/// Descending the tree under `namespace` in the backend of `smt` from
/// `root` along `key` runs into the error `e`.
pub open spec fn fails_in<D: DataBackend, H: Hasher>(
    smt: Smt<D, H>,
    namespace: Seq<u8>,
    root: Seq<u8>,
    key: Seq<u8>,
    e: SmtError,
) -> bool {
    forall|s: Smt<D, H>| #[trigger] reads_namespace(s, smt, namespace) ==> s.walk_error(root, key, 0) == Some(e)
}

/// Two trees over the same backend contents and namespaces run into the same
/// errors.
proof fn lemma_walk_error_same_tree<D: DataBackend, H: Hasher>(
    s1: Smt<D, H>,
    s2: Smt<D, H>,
    node: Seq<u8>,
    key: Seq<u8>,
    depth: int,
)
    requires
        s1.store() == s2.store(),
        s1.namespace_node@ == s2.namespace_node@,
        s1.namespace_key@ == s2.namespace_key@,
    ensures
        s1.walk_error(node, key, depth) == s2.walk_error(node, key, depth),
    decreases 256 - depth,
{
    if s1.has_children_entry(node) && depth < 256 {
        if let Some(c) = parse_children(s1.children_entry(node)) {
            let next = if key_bit(key, depth) == 0 {
                c.0
            } else {
                c.1
            };
            lemma_walk_error_same_tree(s1, s2, next, key, depth + 1);
        }
    }
}

/// The root that a chain of openings leads its innermost node to.
proof fn lemma_chain_root<D: DataBackend, H: Hasher>(
    smt: Smt<D, H>,
    openings: Seq<(Seq<u8>, Seq<u8>)>,
    root: Seq<u8>,
    trees: Seq<CompoundEntry>,
    nodes: Seq<Seq<u8>>,
    i: int,
)
    requires
        compound_chain(smt, openings, root, trees, nodes),
        0 <= i <= trees.len(),
    ensures
        compound_root::<H>(trees.subrange(i, trees.len() as int), nodes[i]) == root,
    decreases trees.len() - i,
{
    let rest = trees.subrange(i, trees.len() as int);
    if i < trees.len() {
        lemma_chain_root(smt, openings, root, trees, nodes, i + 1);
        assert(rest[0] == trees[i]);
        assert(rest.drop_first() =~= trees.subrange(i + 1, trees.len() as int));
    } else {
        assert(rest.len() == 0);
    }
}

/// A compound opening verifies the payload of its innermost leaf.
///
/// Take the openings that `CompoundOpeningBuilder::opening` returns, with the
/// nodes they reach. When descending the innermost tree from the node that
/// the outer trees reach (the root of the innermost tree) along its key
/// ends on the leaf `H::hash(data)`, as it does after `insert` wrote `data`
/// under that key, the compound opening verifies `data` against the outer
/// root.
pub proof fn lemma_compound_opening_verifies<D: DataBackend, H: Hasher>(
    smt: Smt<D, H>,
    openings: Seq<(Seq<u8>, Seq<u8>)>,
    root: Seq<u8>,
    trees: Seq<CompoundEntry>,
    nodes: Seq<Seq<u8>>,
    inner: Smt<D, H>,
    path: Seq<Seq<u8>>,
    data: Seq<u8>,
)
    requires
        compound_chain(smt, openings, root, trees, nodes),
        compound_bounded(trees),
        trees.len() > 0,
        reads_namespace(inner, smt, openings[trees.len() - 1].0),
        inner.descent(nodes[1], trees[0].key@, path, H::spec_hash(data)),
    ensures
        nodes[0] == H::spec_hash(data),
        compound_bounded(trees) && compound_root::<H>(trees, H::spec_hash(data)) == root,
{
    let k = trees.len() as int;
    assert(trees[0].key@ == openings[k - 1 - 0].1);
    assert(descends_in(smt, openings[k - 1].0, nodes[1], trees[0].key@, trees[0].opening.path_view(), nodes[0]));
    assert(inner.descent(nodes[1], trees[0].key@, trees[0].opening.path_view(), nodes[0]));
    lemma_descent_unique(inner, nodes[1], trees[0].key@, trees[0].opening.path_view(), nodes[0], path, H::spec_hash(data));
    lemma_chain_root(smt, openings, root, trees, nodes, 0);
    assert(trees.subrange(0, k) =~= trees);
}

/// Every tree that reads `namespace` in the backend of `smt` is well encoded.
pub open spec fn encoded_in<D: DataBackend, H: Hasher>(smt: Smt<D, H>, namespace: Seq<u8>) -> bool {
    forall|s: Smt<D, H>| #[trigger] reads_namespace(s, smt, namespace) ==> s.well_encoded()
}

/// Descending, in the backend of `smt`, the trees named by `openings`
/// (outermost first) from `root`, each along its key from the node the
/// previous one reached, follows `paths` through `nodes`.
pub open spec fn descends_through<D: DataBackend, H: Hasher>(
    smt: Smt<D, H>,
    openings: Seq<(Seq<u8>, Seq<u8>)>,
    root: Seq<u8>,
    nodes: Seq<Seq<u8>>,
    paths: Seq<Seq<Seq<u8>>>,
) -> bool {
    &&& nodes.len() == openings.len() + 1
    &&& paths.len() == openings.len()
    &&& nodes[0] == root
    &&& forall|j: int|
        0 <= j < openings.len() ==> #[trigger] descends_in(
            smt,
            openings[j].0,
            nodes[j],
            openings[j].1,
            paths[j],
            nodes[j + 1],
        )
}

/// Every descent of the tree under `namespace` from `root` along `key` ends
/// on `node`.
pub open spec fn leads_only_to<D: DataBackend, H: Hasher>(
    smt: Smt<D, H>,
    namespace: Seq<u8>,
    root: Seq<u8>,
    key: Seq<u8>,
    node: Seq<u8>,
) -> bool {
    forall|p: Seq<Seq<u8>>, leaf: Seq<u8>|
        #[trigger] descends_in(smt, namespace, root, key, p, leaf) ==> leaf == node
}

/// Descents through the trees agree with nodes that each tree leads to alone.
proof fn lemma_through_agrees<D: DataBackend, H: Hasher>(
    smt: Smt<D, H>,
    openings: Seq<(Seq<u8>, Seq<u8>)>,
    root: Seq<u8>,
    known: Seq<Seq<u8>>,
    nodes: Seq<Seq<u8>>,
    paths: Seq<Seq<Seq<u8>>>,
    i: int,
)
    requires
        descends_through(smt, openings, root, nodes, paths),
        known.len() > i,
        known[0] == root,
        0 <= i <= openings.len(),
        forall|j: int|
            0 <= j < i ==> #[trigger] leads_only_to(
                smt,
                openings[j].0,
                known[j],
                openings[j].1,
                known[j + 1],
            ),
    ensures
        nodes[i] == known[i],
    decreases i,
{
    if i > 0 {
        let j = i - 1;
        lemma_through_agrees(smt, openings, root, known, nodes, paths, j);
        assert(descends_in(smt, openings[j].0, nodes[j], openings[j].1, paths[j], nodes[j + 1]));
        assert(leads_only_to(smt, openings[j].0, known[j], openings[j].1, known[j + 1]));
    }
}

/// A builder of compound openings, starting from the outermost tree.
#[derive(Debug)]
pub struct CompoundOpeningBuilder {
    root: Hash32,
    openings: Vec<(Vec<u8>, Hash32)>,
}

impl CompoundOpeningBuilder {
    /// The root of the outermost tree.
    pub closed spec fn spec_root(&self) -> Seq<u8> {
        self.root@
    }

    /// The namespaces and keys of the trees, outermost first.
    pub closed spec fn spec_openings(&self) -> Seq<(Seq<u8>, Seq<u8>)> {
        self.openings@.map_values(|o: (Vec<u8>, Hash32)| (o.0@, o.1@))
    }

    /// Starts a compound opening from the root of the outermost tree.
    pub fn new(root: Hash32) -> (b: Self)
        ensures
            b.spec_root() == root@,
            b.spec_openings() == Seq::<(Seq<u8>, Seq<u8>)>::empty(),
    {
        let b = CompoundOpeningBuilder { root, openings: Vec::new() };
        assert(b.spec_openings() =~= Seq::<(Seq<u8>, Seq<u8>)>::empty());
        b
    }

    /// Appends the next tree: its namespace and the key that opens the next root.
    pub fn with_tree(self, namespace: &[u8], key: Hash32) -> (b: Self)
        ensures
            b.spec_root() == self.spec_root(),
            b.spec_openings() == self.spec_openings().push((namespace@, key@)),
    {
        let mut openings = self.openings;
        let ghost before = openings@;
        openings.push((copy_bytes(namespace), key));
        let b = CompoundOpeningBuilder { root: self.root, openings };
        assert(b.spec_openings() =~= self.spec_openings().push((namespace@, key@)));
        b
    }

    /// Computes the compound opening, descending each tree of `smt` under its
    /// namespace along its key, from the outermost root. When those trees are
    /// well encoded, it succeeds exactly when every such descent exists. A
    /// failure is the error that descending the first tree that fails runs
    /// into, once the trees before it were descended: `KeyDepleted` on
    /// well-encoded trees.
    pub fn opening<D: DataBackend, H: Hasher>(self, smt: Smt<D, H>) -> (r: Result<
        CompoundOpening,
        SmtError,
    >)
        requires
            forall|i: int|
                0 <= i < self.spec_openings().len() ==> store_consistent::<H>(
                    smt.store(),
                    H::spec_digest(seq![PREFIX_NODE@, #[trigger] self.spec_openings()[i].0]),
                ),
        ensures
            r matches Ok(c) ==> c.trees@.len() == self.spec_openings().len(),
            r matches Ok(c) ==> forall|i: int|
                0 <= i < c.trees@.len() ==> #[trigger] c.trees@[i].key@ == self.spec_openings()[c.trees@.len() - 1 - i].1,
            r matches Ok(c) ==> compound_bounded(c.trees@),
            r matches Ok(c) ==> exists|leaf: Seq<u8>|
                #[trigger] compound_root::<H>(c.trees@, leaf) == self.spec_root(),
            r matches Ok(c) ==> exists|nodes: Seq<Seq<u8>>|
                #[trigger] compound_chain(smt, self.spec_openings(), self.spec_root(), c.trees@, nodes),
            (forall|i: int|
                0 <= i < self.spec_openings().len() ==> #[trigger] encoded_in(
                    smt,
                    self.spec_openings()[i].0,
                )) ==> (r is Ok <==> exists|nodes: Seq<Seq<u8>>, paths: Seq<Seq<Seq<u8>>>|
                #[trigger] descends_through(smt, self.spec_openings(), self.spec_root(), nodes, paths)),
            (forall|i: int|
                0 <= i < self.spec_openings().len() ==> #[trigger] encoded_in(
                    smt,
                    self.spec_openings()[i].0,
                )) && r is Err ==> r == Err::<CompoundOpening, SmtError>(SmtError::KeyDepleted),
            r matches Err(e) ==> exists|i: int, nodes: Seq<Seq<u8>>, paths: Seq<Seq<Seq<u8>>>|
                0 <= i < self.spec_openings().len() && #[trigger] descends_through(
                    smt,
                    self.spec_openings().take(i),
                    self.spec_root(),
                    nodes,
                    paths,
                ) && fails_in(smt, self.spec_openings()[i].0, nodes[i], self.spec_openings()[i].1, e),
    {
        let ghost store0 = smt.store();
        let ghost smt0 = smt;
        let ghost mut nodes_fwd: Seq<Seq<u8>> = seq![self.root@];
        let mut tree = smt;
        let n = self.openings.len();
        let mut trees: Vec<CompoundEntry> = Vec::new();
        let mut root: Hash32 = self.root;
        let mut i: usize = 0;
        while i < n
            invariant
                n == self.openings@.len(),
                i <= n,
                trees@.len() == i,
                tree.store() == store0,
                forall|j: int|
                    0 <= j < self.spec_openings().len() ==> store_consistent::<H>(
                        tree.store(),
                        H::spec_digest(seq![PREFIX_NODE@, #[trigger] self.spec_openings()[j].0]),
                    ),
                forall|j: int| 0 <= j < i ==> #[trigger] trees@[j].key@ == self.spec_openings()[j].1,
                forall|j: int| 0 <= j < i ==> #[trigger] trees@[j].opening.path@.len() <= 256,
                compound_root::<H>(trees@.reverse(), root@) == self.root@,
                smt0.store() == store0,
                smt0 == smt,
                nodes_fwd.len() == i + 1,
                nodes_fwd[0] == self.root@,
                nodes_fwd[i as int] == root@,
                forall|j: int|
                    0 <= j < i ==> {
                        &&& path_root::<H>(
                            #[trigger] trees@[j].opening.path_view(),
                            self.spec_openings()[j].1,
                            nodes_fwd[j + 1],
                        ) == nodes_fwd[j]
                        &&& descends_in(
                            smt0,
                            self.spec_openings()[j].0,
                            nodes_fwd[j],
                            self.spec_openings()[j].1,
                            trees@[j].opening.path_view(),
                            nodes_fwd[j + 1],
                        )
                    },
                forall|j: int|
                    0 <= j < i ==> #[trigger] leads_only_to(
                        smt0,
                        self.spec_openings()[j].0,
                        nodes_fwd[j],
                        self.spec_openings()[j].1,
                        nodes_fwd[j + 1],
                    ),
            decreases n - i,
        {
            let entry = &self.openings[i];
            tree = tree.with_namespace(entry.0.as_slice());
            assert(self.spec_openings()[i as int].0 == entry.0@);
            proof {
                assert(reads_namespace(tree, smt0, self.spec_openings()[i as int].0));
            }
            let got = tree.get_keyed_opening(&root, &entry.1);
            let keyed = match got {
                Ok(k) => k,
                Err(e) => {
                    proof {
                        let ops = self.spec_openings();
                        let paths = Seq::new(i as nat, |j: int| trees@[j].opening.path_view());
                        assert forall|j: int| 0 <= j < ops.take(i as int).len() implies #[trigger] descends_in(
                            smt0,
                            ops.take(i as int)[j].0,
                            nodes_fwd[j],
                            ops.take(i as int)[j].1,
                            paths[j],
                            nodes_fwd[j + 1],
                        ) by {
                            assert(ops.take(i as int)[j] == ops[j]);
                        }
                        assert(descends_through(smt0, ops.take(i as int), self.root@, nodes_fwd, paths));
                        assert forall|s2: Smt<D, H>| #[trigger] reads_namespace(s2, smt0, ops[i as int].0) implies s2.walk_error(
                            root@,
                            entry.1@,
                            0,
                        ) == Some(e) by {
                            lemma_walk_error_same_tree(tree, s2, root@, entry.1@, 0);
                        }
                        assert(fails_in(smt0, ops[i as int].0, nodes_fwd[i as int], ops[i as int].1, e));
                        assert(smt0 == smt);
                        assert(self.spec_root() == self.root@);
                        assert(0 <= i < self.spec_openings().len() && descends_through(
                            smt,
                            self.spec_openings().take(i as int),
                            self.spec_root(),
                            nodes_fwd,
                            paths,
                        ) && fails_in(smt, self.spec_openings()[i as int].0, nodes_fwd[i as int], self.spec_openings()[i as int].1, e));
                        if forall|k: int| 0 <= k < ops.len() ==> #[trigger] encoded_in(smt0, ops[k].0) {
                            assert(encoded_in(smt0, ops[i as int].0));
                            assert(tree.well_encoded());
                            assert forall|nodes2: Seq<Seq<u8>>, paths2: Seq<Seq<Seq<u8>>>|
                                !#[trigger] descends_through(smt0, ops, self.root@, nodes2, paths2) by {
                                if descends_through(smt0, ops, self.root@, nodes2, paths2) {
                                    lemma_through_agrees(smt0, ops, self.root@, nodes_fwd, nodes2, paths2, i as int);
                                    assert(descends_in(
                                        smt0,
                                        ops[i as int].0,
                                        nodes2[i as int],
                                        ops[i as int].1,
                                        paths2[i as int],
                                        nodes2[i + 1],
                                    ));
                                    assert(tree.descent(root@, entry.1@, paths2[i as int], nodes2[i + 1]));
                                }
                            }
                        }
                    }
                    return Err(e);
                },
            };
            let ghost prev = trees@;
            let ghost prev_root = root@;
            assert(keyed.opening.path@.len() == keyed.opening.path_view().len());
            root = keyed.node;
            trees.push(CompoundEntry { key: entry.1, opening: keyed.opening });
            proof {
                assert(tree.descent(prev_root, entry.1@, trees@[i as int].opening.path_view(), root@));
                let ns = self.spec_openings()[i as int].0;
                let path = trees@[i as int].opening.path_view();
                assert forall|s2: Smt<D, H>| #[trigger] reads_namespace(s2, smt0, ns) implies s2.descent(
                    prev_root,
                    entry.1@,
                    path,
                    root@,
                ) by {
                    lemma_descent_same_tree(tree, s2, prev_root, entry.1@, path, root@);
                }
                assert forall|p: Seq<Seq<u8>>, leaf: Seq<u8>|
                    #[trigger] descends_in(smt0, ns, prev_root, entry.1@, p, leaf) implies leaf == root@ by {
                    assert(tree.descent(prev_root, entry.1@, p, leaf));
                    lemma_descent_unique(tree, prev_root, entry.1@, p, leaf, path, root@);
                }
                assert(leads_only_to(smt0, ns, prev_root, entry.1@, root@));
                let old_nodes = nodes_fwd;
                nodes_fwd = nodes_fwd.push(root@);
                assert forall|j: int| 0 <= j <= i implies #[trigger] leads_only_to(
                    smt0,
                    self.spec_openings()[j].0,
                    nodes_fwd[j],
                    self.spec_openings()[j].1,
                    nodes_fwd[j + 1],
                ) by {
                    if j < i {
                        assert(nodes_fwd[j] == old_nodes[j]);
                        assert(nodes_fwd[j + 1] == old_nodes[j + 1]);
                    } else {
                        assert(nodes_fwd[j] == prev_root);
                        assert(self.spec_openings()[j].1 == entry.1@);
                        assert(self.spec_openings()[j].0 == ns);
                    }
                }
                assert forall|j: int| 0 <= j <= i implies {
                    &&& path_root::<H>(
                        #[trigger] trees@[j].opening.path_view(),
                        self.spec_openings()[j].1,
                        nodes_fwd[j + 1],
                    ) == nodes_fwd[j]
                    &&& descends_in(
                        smt0,
                        self.spec_openings()[j].0,
                        nodes_fwd[j],
                        self.spec_openings()[j].1,
                        trees@[j].opening.path_view(),
                        nodes_fwd[j + 1],
                    )
                } by {
                    if j < i {
                        assert(trees@[j] == prev[j]);
                        assert(nodes_fwd[j] == old_nodes[j]);
                        assert(nodes_fwd[j + 1] == old_nodes[j + 1]);
                    } else {
                        assert(nodes_fwd[j] == prev_root);
                        assert(self.spec_openings()[j].1 == entry.1@);
                    }
                }
                assert(trees@[i as int].opening.path@.len() <= 256);
                assert(forall|j: int| 0 <= j < i ==> trees@[j] == prev[j]);
                assert forall|j: int| 0 <= j <= i implies #[trigger] trees@[j].opening.path@.len() <= 256 by {
                    if j < i {
                        assert(trees@[j] == prev[j]);
                        assert(prev[j].opening.path@.len() <= 256);
                    }
                }
                assert(trees@.reverse() =~= seq![trees@[i as int]] + prev.reverse());
                assert(seq![trees@[i as int]].add(prev.reverse()).drop_first() =~= prev.reverse());
            }
            i = i + 1;
        }
        let ghost fwd = trees@;
        let trees = reverse_entries(trees);
        proof {
            assert forall|j: int| 0 <= j < trees@.len() implies #[trigger] trees@[j].opening.path@.len() <= 256 by {
                assert(trees@[j] == fwd[fwd.len() - 1 - j]);
            }
            assert forall|j: int| 0 <= j < trees@.len() implies #[trigger] trees@[j].key@ == self.spec_openings()[trees@.len() - 1 - j].1 by {
                assert(trees@[j] == fwd[fwd.len() - 1 - j]);
            }
            assert(compound_root::<H>(trees@, root@) == self.spec_root());
            let k = trees@.len() as int;
            let nodes = nodes_fwd.reverse();
            assert forall|i: int| 0 <= i < k implies {
                &&& #[trigger] trees@[i].key@ == self.spec_openings()[k - 1 - i].1
                &&& path_root::<H>(trees@[i].opening.path_view(), trees@[i].key@, nodes[i]) == nodes[i + 1]
                &&& descends_in(
                    smt0,
                    self.spec_openings()[k - 1 - i].0,
                    nodes[i + 1],
                    trees@[i].key@,
                    trees@[i].opening.path_view(),
                    nodes[i],
                )
            } by {
                let j = k - 1 - i;
                assert(trees@[i] == fwd[j]);
                assert(nodes[i] == nodes_fwd[j + 1]);
                assert(nodes[i + 1] == nodes_fwd[j]);
                assert(fwd[j].opening.path_view() == fwd[j].opening.path_view());
            }
            assert(compound_chain(smt0, self.spec_openings(), self.spec_root(), trees@, nodes));
            let paths = fwd.map_values(|e: CompoundEntry| e.opening.path_view());
            assert forall|j: int| 0 <= j < self.spec_openings().len() implies #[trigger] descends_in(
                smt0,
                self.spec_openings()[j].0,
                nodes_fwd[j],
                self.spec_openings()[j].1,
                paths[j],
                nodes_fwd[j + 1],
            ) by {
                assert(paths[j] == fwd[j].opening.path_view());
            }
            assert(descends_through(smt0, self.spec_openings(), self.spec_root(), nodes_fwd, paths));
        }
        let c = CompoundOpening { trees };
        let r: Result<CompoundOpening, SmtError> = Ok(c);
        assert(r matches Ok(cc) && cc.trees@ == c.trees@);
        r
    }
}

/// Reverses a list of compound entries.
fn reverse_entries(v: Vec<CompoundEntry>) -> (r: Vec<CompoundEntry>)
    ensures
        r@ == v@.reverse(),
{
    let mut v = v;
    let ghost orig = v@;
    let mut r: Vec<CompoundEntry> = Vec::new();
    while v.len() > 0
        invariant
            orig.len() == v@.len() + r@.len(),
            v@ == orig.subrange(0, v@.len() as int),
            r@ == orig.subrange(v@.len() as int, orig.len() as int).reverse(),
        decreases v@.len(),
    {
        let e = v.pop().unwrap();
        r.push(e);
        assert(r@ =~= orig.subrange(v@.len() as int, orig.len() as int).reverse());
    }
    assert(orig.subrange(0, orig.len() as int) =~= orig);
    r
}

impl<D: DataBackend, H: Hasher> Smt<D, H> {
    /// Inserts the root `compound` of another tree as the leaf of `key` in the
    /// tree of root `tree`, with an empty payload, and returns the new root.
    pub fn insert_compound(&mut self, tree: Hash32, key: &Hash32, compound: Hash32) -> (r: Result<Hash32, SmtError>)
        requires
            old(self).wf(),
        ensures
            final(self).wf(),
            final(self).same_namespaces(old(self)),
            final(self).holds_data(key@, Seq::<u8>::empty()),
            tree@ == zero_hash() ==> (r matches Ok(x) ==> x@ == combine::<H>(
                key_bit(key@, 0),
                compound@,
                zero_hash(),
            )),
            r matches Ok(new_root) ==> exists|q: Seq<Seq<u8>>, n: Seq<u8>, p: Seq<Seq<u8>>, l: Seq<u8>|
                #[trigger] final(self).inserted(old(self), tree@, key@, compound@, new_root@, q, n, p, l),
            old(self).well_encoded() ==> final(self).well_encoded(),
            old(self).well_encoded() && r is Err ==> r == Err::<Hash32, SmtError>(SmtError::MaxDepth),
            same_outside(*final(self), *old(self)),
            old(self).well_encoded() ==> (r is Ok <==> old(self).insertable(tree@, key@, compound@)),
    {
        let empty: [u8; 0] = [];
        assert(empty@ =~= Seq::<u8>::empty());
        self.insert_with_leaf(tree, key, compound, empty.as_slice())
    }

    /// Verifies a compound opening of `data` to `root`.
    pub fn verify_compound(opening: &CompoundOpening, root: &Hash32, data: &[u8]) -> (r: bool)
        ensures
            r == (compound_bounded(opening.trees@) && compound_root::<H>(
                opening.trees@,
                H::spec_hash(data@),
            ) == root@),
    {
        let value = H::hash(data);
        opening.verify::<H>(root, &value)
    }
}

} // verus!
