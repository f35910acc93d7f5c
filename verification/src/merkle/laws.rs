//! What a read of the tree gives back of a write.

use vstd::prelude::*;

use crate::backend::DataBackend;
use crate::hash::Hasher;
use crate::merkle::compound::{
    compound_bounded, compound_chain, compound_root, lemma_compound_opening_verifies,
    reads_namespace, CompoundEntry,
};
use crate::merkle::mutate::path_distinct;
use crate::merkle::opening::{path_node, path_root};
use crate::merkle::read::{lemma_descent_unique, preimage_node, Preimage};
use crate::merkle::smt::{same_outside, zero_hash, Smt, PREFIX_KEY, PREFIX_NODE};

verus! {

/// A payload written by `insert` opens from the returned root.
///
/// When the insertion hung the hash of `data` on the path of `key` (it does
/// unless its walk stopped on a childless node without a leaf key) and the
/// nodes of that path are pairwise distinct, the descent of `key` from the
/// new root is that path: it ends on the new leaf, which carries `key`. So an
/// opening that `get_opening` returns for `key` from the new root verifies
/// `data`, `get_opening` cannot answer that `key` has no leaf there, and the
/// payload read back for the reached leaf is `data` (which `insert` stores for
/// `key`).
pub proof fn lemma_inserted_payload_opens<D: DataBackend, H: Hasher>(
    before: Smt<D, H>,
    after: Smt<D, H>,
    root: Seq<u8>,
    key: Seq<u8>,
    data: Seq<u8>,
    new_root: Seq<u8>,
    q: Seq<Seq<u8>>,
    n: Seq<u8>,
    path: Seq<Seq<u8>>,
)
    requires
        after.inserted(&before, root, key, H::spec_hash(data), new_root, q, n, path, H::spec_hash(data)),
        path_distinct::<H>(path, key, H::spec_hash(data)),
        after.holds_data(key, data),
    ensures
        after.leaf_payload(H::spec_hash(data)) == data,
        after.descent(new_root, key, path, H::spec_hash(data)),
        after.has_key_entry(H::spec_hash(data)),
        after.key_entry(H::spec_hash(data)) == key,
        path_root::<H>(path, key, H::spec_hash(data)) == new_root,
        forall|p: Seq<Seq<u8>>, leaf: Seq<u8>|
            #[trigger] after.descent(new_root, key, p, leaf) ==> p == path && leaf == H::spec_hash(
                data,
            ) && after.has_key_entry(leaf) && after.key_entry(leaf) == key,
{
    let l = H::spec_hash(data);
    lemma_inserted_leaf_reached(before, after, root, key, l, new_root, q, n, path);
    assert forall|p: Seq<Seq<u8>>, leaf: Seq<u8>|
        #[trigger] after.descent(new_root, key, p, leaf) implies p == path && leaf == l
        && after.has_key_entry(leaf) && after.key_entry(leaf) == key by {
        lemma_descent_unique(after, new_root, key, p, leaf, path, l);
    }
}

/// A node written by an insertion is where the descent of its key from the
/// new root ends, when the nodes of the written path are pairwise distinct.
pub proof fn lemma_inserted_leaf_reached<D: DataBackend, H: Hasher>(
    before: Smt<D, H>,
    after: Smt<D, H>,
    root: Seq<u8>,
    key: Seq<u8>,
    leaf: Seq<u8>,
    new_root: Seq<u8>,
    q: Seq<Seq<u8>>,
    n: Seq<u8>,
    path: Seq<Seq<u8>>,
)
    requires
        after.inserted(&before, root, key, leaf, new_root, q, n, path, leaf),
        path_distinct::<H>(path, key, leaf),
    ensures
        after.descent(new_root, key, path, leaf),
        after.has_key_entry(leaf),
        after.key_entry(leaf) == key,
{
    assert forall|d: int| 0 <= d < path.len() implies leaf != #[trigger] path_node::<H>(path, key, leaf, d) by {
        assert(path_node::<H>(path, key, leaf, path.len() as int) == leaf);
    }
    assert(after.descent(new_root, key, path, leaf));
}

/// A non-membership proof verifies exactly the values that are not the leaf
/// of the key.
///
/// Take the proof that `get_non_membership_opening` returns: the path of the
/// descent of `key` from `root`, with the zero preimage when that descent ends
/// on the empty node and otherwise the payload of the reached leaf's key.
/// When that leaf is the hash of that payload (as `insert` leaves it), the
/// proof opens its preimage to `root` along `key`, and it accepts a `value`
/// exactly when the hash of `value` is not the reached leaf.
pub proof fn lemma_non_membership_verifies<D: DataBackend, H: Hasher>(
    smt: Smt<D, H>,
    root: Seq<u8>,
    key: Seq<u8>,
    path: Seq<Seq<u8>>,
    leaf: Seq<u8>,
    preimage: Preimage,
    value: Seq<u8>,
)
    requires
        smt.descent(root, key, path, leaf),
        leaf == zero_hash() ==> preimage is Zero,
        leaf != zero_hash() ==> (preimage matches Preimage::Data(v) && v@ == smt.leaf_payload(leaf)),
        leaf != zero_hash() ==> leaf == H::spec_hash(smt.leaf_payload(leaf)),
    ensures
        preimage_node::<H>(preimage) == leaf,
        path_root::<H>(path, key, preimage_node::<H>(preimage)) == root,
        (preimage_node::<H>(preimage) != H::spec_hash(value)) <==> (H::spec_hash(value) != leaf),
{
}

/// A descent in one tree stays when a tree in other namespaces of the same
/// backend is written.
pub proof fn lemma_descent_outside<D: DataBackend, H: Hasher>(
    reader: Smt<D, H>,
    reader_after: Smt<D, H>,
    writer: Smt<D, H>,
    writer_after: Smt<D, H>,
    root: Seq<u8>,
    key: Seq<u8>,
    path: Seq<Seq<u8>>,
    leaf: Seq<u8>,
)
    requires
        reader.descent(root, key, path, leaf),
        reader.store() == writer.store(),
        reader_after.store() == writer_after.store(),
        reader_after.namespace_node@ == reader.namespace_node@,
        reader_after.namespace_key@ == reader.namespace_key@,
        same_outside(writer_after, writer),
        reader.namespace_node@ != writer.namespace_node@,
        reader.namespace_node@ != writer.namespace_key@,
        reader.namespace_node@ != writer.namespace_data@,
        reader.namespace_key@ != writer.namespace_node@,
        reader.namespace_key@ != writer.namespace_key@,
        reader.namespace_key@ != writer.namespace_data@,
    ensures
        reader_after.descent(root, key, path, leaf),
{
    assert forall|d: int| 0 <= d < path.len() implies #[trigger] reader_after.inner_step(path, key, leaf, d) by {
        assert(reader.inner_step(path, key, leaf, d));
        let node = path_node::<H>(path, key, leaf, d);
        assert(writer_after.store().contains_key((reader.namespace_node@, node)) == writer.store().contains_key(
            (reader.namespace_node@, node),
        ));
        assert(writer_after.store().contains_key((reader.namespace_key@, node)) == writer.store().contains_key(
            (reader.namespace_key@, node),
        ));
    }
    assert(writer_after.store().contains_key((reader.namespace_node@, leaf)) == writer.store().contains_key(
        (reader.namespace_node@, leaf),
    ));
    assert(writer_after.store().contains_key((reader.namespace_key@, leaf)) == writer.store().contains_key(
        (reader.namespace_key@, leaf),
    ));
}

/// A payload written in an inner tree opens, through a compound opening, from
/// the root of an outer tree in which the inner root was then inserted.
///
/// `data` is inserted under `inner_key` in the inner tree, giving
/// `inner_root`; `inner_root` is then inserted with `insert_compound` under
/// `outer_key` in the outer tree, which lives in other namespaces of the same
/// backend, giving `outer_root`. When the paths that both insertions wrote
/// have pairwise distinct nodes, the compound opening that
/// `CompoundOpeningBuilder::opening` computes from `outer_root` for the outer
/// tree and then the inner tree (its `trees` with their `nodes`) verifies
/// `data` against `outer_root`.
pub proof fn lemma_nested_payload_opens<D: DataBackend, H: Hasher>(
    inner_before: Smt<D, H>,
    inner_after: Smt<D, H>,
    inner_start: Seq<u8>,
    inner_key: Seq<u8>,
    data: Seq<u8>,
    inner_root: Seq<u8>,
    inner_walk: Seq<Seq<u8>>,
    inner_end: Seq<u8>,
    inner_path: Seq<Seq<u8>>,
    outer_before: Smt<D, H>,
    outer_after: Smt<D, H>,
    outer_start: Seq<u8>,
    outer_key: Seq<u8>,
    outer_root: Seq<u8>,
    outer_walk: Seq<Seq<u8>>,
    outer_end: Seq<u8>,
    outer_path: Seq<Seq<u8>>,
    outer_namespace: Seq<u8>,
    inner_namespace: Seq<u8>,
    trees: Seq<CompoundEntry>,
    nodes: Seq<Seq<u8>>,
)
    requires
        inner_after.inserted(
            &inner_before,
            inner_start,
            inner_key,
            H::spec_hash(data),
            inner_root,
            inner_walk,
            inner_end,
            inner_path,
            H::spec_hash(data),
        ),
        path_distinct::<H>(inner_path, inner_key, H::spec_hash(data)),
        outer_before.store() == inner_after.store(),
        outer_after.inserted(
            &outer_before,
            outer_start,
            outer_key,
            inner_root,
            outer_root,
            outer_walk,
            outer_end,
            outer_path,
            inner_root,
        ),
        path_distinct::<H>(outer_path, outer_key, inner_root),
        same_outside(outer_after, outer_before),
        outer_after.same_namespaces(&outer_before),
        reads_namespace(outer_after, outer_after, outer_namespace),
        reads_namespace(inner_after, inner_after, inner_namespace),
        inner_after.namespace_node@ != outer_before.namespace_node@,
        inner_after.namespace_node@ != outer_before.namespace_key@,
        inner_after.namespace_node@ != outer_before.namespace_data@,
        inner_after.namespace_key@ != outer_before.namespace_node@,
        inner_after.namespace_key@ != outer_before.namespace_key@,
        inner_after.namespace_key@ != outer_before.namespace_data@,
        compound_chain(
            outer_after,
            seq![(outer_namespace, outer_key), (inner_namespace, inner_key)],
            outer_root,
            trees,
            nodes,
        ),
        compound_bounded(trees),
    ensures
        compound_root::<H>(trees, H::spec_hash(data)) == outer_root,
{
    let openings = seq![(outer_namespace, outer_key), (inner_namespace, inner_key)];
    // the outer tree leads to the inner root
    lemma_inserted_leaf_reached(
        outer_before,
        outer_after,
        outer_start,
        outer_key,
        inner_root,
        outer_root,
        outer_walk,
        outer_end,
        outer_path,
    );
    assert(trees[1].key@ == openings[0].1);
    assert(reads_namespace(outer_after, outer_after, openings[0].0));
    assert(outer_after.descent(nodes[2], trees[1].key@, trees[1].opening.path_view(), nodes[1]));
    lemma_descent_unique(
        outer_after,
        outer_root,
        outer_key,
        trees[1].opening.path_view(),
        nodes[1],
        outer_path,
        inner_root,
    );
    // the inner tree still leads to the payload in the final backend
    lemma_inserted_leaf_reached(
        inner_before,
        inner_after,
        inner_start,
        inner_key,
        H::spec_hash(data),
        inner_root,
        inner_walk,
        inner_end,
        inner_path,
    );
    let inner = Smt::<D, H> {
        namespace_node: inner_after.namespace_node,
        namespace_data: inner_after.namespace_data,
        namespace_key: inner_after.namespace_key,
        d: outer_after.d,
        h: outer_after.h,
    };
    lemma_descent_outside(
        inner_after,
        inner,
        outer_before,
        outer_after,
        inner_root,
        inner_key,
        inner_path,
        H::spec_hash(data),
    );
    assert(trees[0].key@ == openings[1].1);
    assert(reads_namespace(inner, outer_after, openings[1].0));
    lemma_compound_opening_verifies(
        outer_after,
        openings,
        outer_root,
        trees,
        nodes,
        inner,
        inner_path,
        data,
    );
}

/// A payload that `insert` wrote cannot be shown absent.
///
/// Take the non-membership proof that `get_non_membership_opening` returns
/// for `key` from the new root (its path and preimage, with the node its
/// descent reaches). When the written path has pairwise distinct nodes, that
/// node is the leaf of `data` and the preimage hashes to it, so the proof
/// rejects `data`.
pub proof fn lemma_inserted_payload_not_absent<D: DataBackend, H: Hasher>(
    before: Smt<D, H>,
    after: Smt<D, H>,
    root: Seq<u8>,
    key: Seq<u8>,
    data: Seq<u8>,
    new_root: Seq<u8>,
    q: Seq<Seq<u8>>,
    n: Seq<u8>,
    path: Seq<Seq<u8>>,
    proof_path: Seq<Seq<u8>>,
    leaf: Seq<u8>,
    preimage: Preimage,
)
    requires
        after.inserted(&before, root, key, H::spec_hash(data), new_root, q, n, path, H::spec_hash(data)),
        path_distinct::<H>(path, key, H::spec_hash(data)),
        after.holds_data(key, data),
        after.descent(new_root, key, proof_path, leaf),
        leaf == zero_hash() ==> preimage is Zero,
        leaf != zero_hash() ==> (preimage matches Preimage::Data(v) && v@ == after.leaf_payload(leaf)),
    ensures
        leaf == H::spec_hash(data),
        preimage_node::<H>(preimage) == H::spec_hash(data),
{
    lemma_inserted_payload_opens(before, after, root, key, data, new_root, q, n, path);
    lemma_descent_unique(after, new_root, key, proof_path, leaf, path, H::spec_hash(data));
}

/// The opening of a key is its keyed opening, kept only when the node it
/// reaches carries the key.
///
/// `get_keyed_opening` gives a descent of `key` from `root`; `get_opening`
/// gives `Some` path that every descent follows, ending on a leaf carrying
/// `key`, or `None` when no descent ends on such a leaf. So the opening is
/// the keyed opening's path exactly when its node carries `key`.
pub proof fn lemma_opening_from_keyed_opening<D: DataBackend, H: Hasher>(
    smt: Smt<D, H>,
    root: Seq<u8>,
    key: Seq<u8>,
    keyed_path: Seq<Seq<u8>>,
    keyed_node: Seq<u8>,
    opening: Option<Seq<Seq<u8>>>,
)
    requires
        smt.descent(root, key, keyed_path, keyed_node),
        opening matches Some(o) ==> forall|p: Seq<Seq<u8>>, leaf: Seq<u8>|
            #[trigger] smt.descent(root, key, p, leaf) ==> p == o && smt.has_key_entry(leaf)
                && smt.key_entry(leaf) == key,
        opening is None ==> forall|p: Seq<Seq<u8>>, leaf: Seq<u8>|
            #[trigger] smt.descent(root, key, p, leaf) ==> !(smt.has_key_entry(leaf) && smt.key_entry(leaf)
                == key),
    ensures
        opening == (if smt.has_key_entry(keyed_node) && smt.key_entry(keyed_node) == key {
            Some(keyed_path)
        } else {
            None::<Seq<Seq<u8>>>
        }),
{
}

/// The non-membership opening of a key is its keyed opening with the
/// preimage of the node it reaches: zero for the empty node, else the
/// payload of that leaf's key.
pub proof fn lemma_non_membership_from_keyed_opening<D: DataBackend, H: Hasher>(
    smt: Smt<D, H>,
    root: Seq<u8>,
    key: Seq<u8>,
    keyed_path: Seq<Seq<u8>>,
    keyed_node: Seq<u8>,
    path: Seq<Seq<u8>>,
    preimage: Preimage,
)
    requires
        smt.descent(root, key, keyed_path, keyed_node),
        forall|p: Seq<Seq<u8>>, leaf: Seq<u8>|
            #[trigger] smt.descent(root, key, p, leaf) ==> p == path && (leaf == zero_hash()
                ==> preimage is Zero) && (leaf != zero_hash() ==> (preimage matches Preimage::Data(v)
                && v@ == smt.leaf_payload(leaf))),
    ensures
        path == keyed_path,
        keyed_node == zero_hash() ==> preimage is Zero,
        keyed_node != zero_hash() ==> (preimage matches Preimage::Data(v) && v@ == smt.leaf_payload(
            keyed_node,
        )),
{
}

/// A key inserted into the empty tree opens with a path of one sibling.
///
/// The leaf hangs one level below the new root, next to the empty node, so
/// the descent of `key` from the new root, which `get_opening` returns, has
/// length 1 and ends on the leaf of `data`. This holds when the store holds
/// no children for the empty node and the new root is not the leaf itself
/// (the hashes do not collide there).
pub proof fn lemma_single_leaf_opening<D: DataBackend, H: Hasher>(
    before: Smt<D, H>,
    after: Smt<D, H>,
    key: Seq<u8>,
    data: Seq<u8>,
    new_root: Seq<u8>,
    q: Seq<Seq<u8>>,
    n: Seq<u8>,
    path: Seq<Seq<u8>>,
    l: Seq<u8>,
)
    requires
        after.inserted(&before, zero_hash(), key, H::spec_hash(data), new_root, q, n, path, l),
        !before.has_children_entry(zero_hash()),
        new_root != H::spec_hash(data),
        after.holds_data(key, data),
    ensures
        path == seq![zero_hash()],
        after.descent(new_root, key, path, H::spec_hash(data)),
        forall|p: Seq<Seq<u8>>, leaf: Seq<u8>|
            #[trigger] after.descent(new_root, key, p, leaf) ==> p.len() == 1 && leaf == H::spec_hash(
                data,
            ) && after.has_key_entry(leaf) && after.key_entry(leaf) == key,
{
    if q.len() > 0 {
        assert(before.inner_step(q, key, n, 0));
        assert(false);
    }
    assert(path_root::<H>(q, key, n) == n);
    assert(path =~= seq![zero_hash()]);
    let leaf = H::spec_hash(data);
    assert(path_node::<H>(path, key, leaf, 1) == leaf);
    assert(path_node::<H>(path, key, leaf, 0) == new_root);
    assert forall|d1: int, d2: int| 0 <= d1 < d2 <= path.len() implies #[trigger] path_node::<H>(
        path,
        key,
        leaf,
        d1,
    ) != #[trigger] path_node::<H>(path, key, leaf, d2) by {
        assert(d1 == 0 && d2 == 1);
    }
    lemma_inserted_payload_opens(before, after, zero_hash(), key, data, new_root, q, n, path);
}

} // verus!
