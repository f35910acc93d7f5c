//! What inserting a key keeps: the leaves of the other keys open, and a
//! shallow tree shallow.

use vstd::prelude::*;

use crate::backend::DataBackend;
use crate::hash::Hasher;
use crate::merkle::mutate::{first_diff_from, lemma_distinct_keys_differ_in_bit, path_distinct, zeros};
use crate::merkle::opening::{combine, key_bit, path_node, path_root};
use crate::merkle::smt::{parse_children, zero_hash, Smt};

verus! {

/// The sibling at depth `d` of a path (siblings are stored deepest first).
pub open spec fn sibling_at(path: Seq<Seq<u8>>, d: int) -> Seq<u8> {
    path[path.len() - 1 - d]
}

/// A bit of a key is `0` or `1`.
proof fn lemma_key_bit_is_bit(key: Seq<u8>, d: int)
    ensures
        key_bit(key, d) == 0 || key_bit(key, d) == 1,
{
    let x = key[d / 8];
    let s = (7 - d % 8) as u8;
    assert((x >> s) & 1u8 == 0 || (x >> s) & 1u8 == 1) by (bit_vector);
}

/// `first_diff_from` is at least `from`, the bits agree before it and differ
/// at it, and it is not past any differing bit.
proof fn lemma_first_diff_props(a: Seq<u8>, b: Seq<u8>, from: int)
    requires
        0 <= from <= 256,
    ensures
        from <= first_diff_from(a, b, from) <= 256,
        forall|e: int| from <= e < first_diff_from(a, b, from) ==> key_bit(a, e) == key_bit(b, e),
        first_diff_from(a, b, from) < 256 ==> key_bit(a, first_diff_from(a, b, from)) != key_bit(
            b,
            first_diff_from(a, b, from),
        ),
        forall|e: int|
            from <= e < 256 && key_bit(a, e) != key_bit(b, e) ==> first_diff_from(a, b, from) <= e,
    decreases 256 - from,
{
    if from < 256 && key_bit(a, from) == key_bit(b, from) {
        lemma_first_diff_props(a, b, from + 1);
    }
}

/// When the bits agree from `from` up to `m`, the first difference from `from`
/// is the first difference from `m`.
proof fn lemma_first_diff_skip(a: Seq<u8>, b: Seq<u8>, from: int, m: int)
    requires
        0 <= from <= m <= 256,
        forall|e: int| from <= e < m ==> key_bit(a, e) == key_bit(b, e),
    ensures
        first_diff_from(a, b, from) == first_diff_from(a, b, m),
    decreases m - from,
{
    if from < m {
        lemma_first_diff_skip(a, b, from + 1, m);
    }
}

/// The node at depth `d` only depends on the siblings at depth `d` and below.
proof fn lemma_path_node_below<H: Hasher>(
    p1: Seq<Seq<u8>>,
    p2: Seq<Seq<u8>>,
    key: Seq<u8>,
    leaf: Seq<u8>,
    d: int,
)
    requires
        p1.len() == p2.len(),
        0 <= d <= p1.len(),
        forall|e: int| d <= e < p1.len() ==> #[trigger] sibling_at(p1, e) == sibling_at(p2, e),
    ensures
        path_node::<H>(p1, key, leaf, d) == path_node::<H>(p2, key, leaf, d),
    decreases p1.len() - d,
{
    if d < p1.len() {
        lemma_path_node_below::<H>(p1, p2, key, leaf, d + 1);
        assert(sibling_at(p1, d) == sibling_at(p2, d));
    }
}

/// Two walks from the same root along keys that agree on their first `m`
/// bits meet the same nodes down to depth `m`.
proof fn lemma_walks_agree<D: DataBackend, H: Hasher>(
    smt: Smt<D, H>,
    k1: Seq<u8>,
    p1: Seq<Seq<u8>>,
    l1: Seq<u8>,
    k2: Seq<u8>,
    p2: Seq<Seq<u8>>,
    l2: Seq<u8>,
    m: int,
)
    requires
        path_node::<H>(p1, k1, l1, 0) == path_node::<H>(p2, k2, l2, 0),
        0 <= m <= p1.len(),
        m <= p2.len(),
        forall|d: int| 0 <= d < m ==> key_bit(k1, d) == key_bit(k2, d),
        forall|d: int| 0 <= d < m ==> #[trigger] smt.inner_step(p1, k1, l1, d),
        forall|d: int| 0 <= d < m ==> #[trigger] smt.inner_step(p2, k2, l2, d),
    ensures
        path_node::<H>(p1, k1, l1, m) == path_node::<H>(p2, k2, l2, m),
    decreases m,
{
    if m > 0 {
        lemma_walks_agree(smt, k1, p1, l1, k2, p2, l2, m - 1);
        assert(smt.inner_step(p1, k1, l1, m - 1));
        assert(smt.inner_step(p2, k2, l2, m - 1));
    }
}

/// Above the depth `j`, a path whose siblings and bits agree with those of
/// another path meets the same nodes, once it meets the same node at `j`.
proof fn lemma_path_nodes_follow<H: Hasher>(
    pa: Seq<Seq<u8>>,
    ka: Seq<u8>,
    la: Seq<u8>,
    pb: Seq<Seq<u8>>,
    kb: Seq<u8>,
    lb: Seq<u8>,
    j: int,
    d: int,
)
    requires
        0 <= d <= j,
        j <= pa.len(),
        j <= pb.len(),
        path_node::<H>(pa, ka, la, j) == path_node::<H>(pb, kb, lb, j),
        forall|e: int| 0 <= e < j ==> key_bit(ka, e) == key_bit(kb, e),
        forall|e: int| 0 <= e < j ==> #[trigger] sibling_at(pa, e) == sibling_at(pb, e),
    ensures
        path_node::<H>(pa, ka, la, d) == path_node::<H>(pb, kb, lb, d),
    decreases j - d,
{
    if d < j {
        lemma_path_nodes_follow::<H>(pa, ka, la, pb, kb, lb, j, d + 1);
        assert(sibling_at(pa, d) == sibling_at(pb, d));
        assert(key_bit(ka, d) == key_bit(kb, d));
    }
}

/// A node off the new path and other than the new leaf is as it was.
proof fn lemma_off_path<D: DataBackend, H: Hasher>(
    before: Smt<D, H>,
    after: Smt<D, H>,
    root: Seq<u8>,
    key: Seq<u8>,
    leaf: Seq<u8>,
    new_root: Seq<u8>,
    q: Seq<Seq<u8>>,
    n: Seq<u8>,
    p: Seq<Seq<u8>>,
    l: Seq<u8>,
    x: Seq<u8>,
)
    requires
        after.inserted(&before, root, key, leaf, new_root, q, n, p, l),
        x != leaf,
        forall|e: int| 0 <= e < p.len() ==> x != #[trigger] path_node::<H>(p, key, l, e),
    ensures
        after.same_node_entries(&before, x),
{
}

/// The siblings of the walk are the top siblings of the new path.
proof fn lemma_shape_suffix<D: DataBackend, H: Hasher>(
    before: Smt<D, H>,
    key: Seq<u8>,
    leaf: Seq<u8>,
    q: Seq<Seq<u8>>,
    n: Seq<u8>,
    p: Seq<Seq<u8>>,
    l: Seq<u8>,
)
    requires
        before.insert_shape(key, leaf, q, n, p, l),
        q.len() > 0,
    ensures
        p.len() >= q.len(),
        forall|d: int| 0 <= d < q.len() ==> #[trigger] sibling_at(p, d) == sibling_at(q, d),
{
    let m = q.len() as int;
    if n == zero_hash() {
        assert(p == seq![zero_hash()] + q);
    } else if before.keyed_with(leaf, n) && before.key_with(leaf, key, n) != key {
        let j = first_diff_from(key, before.key_with(leaf, key, n), m);
        assert(p == seq![n] + zeros((j - m) as nat) + q);
    }
    assert forall|d: int| 0 <= d < q.len() implies #[trigger] sibling_at(p, d) == sibling_at(q, d) by {
        assert(p[p.len() - 1 - d] == q[q.len() - 1 - d]);
    }
}

/// When the keys part inside the walk of the insertion (`j0 < q.len()`), the
/// leaf of `k` opens along the new inner nodes down to the parting bit, then
/// along its old path.
proof fn lemma_keep_below<D: DataBackend, H: Hasher>(
    before: Smt<D, H>,
    after: Smt<D, H>,
    root: Seq<u8>,
    key: Seq<u8>,
    leaf: Seq<u8>,
    new_root: Seq<u8>,
    q: Seq<Seq<u8>>,
    n: Seq<u8>,
    p: Seq<Seq<u8>>,
    l: Seq<u8>,
    k: Seq<u8>,
    pk: Seq<Seq<u8>>,
    lk: Seq<u8>,
    j0: int,
) -> (pk2: Seq<Seq<u8>>)
    requires
        after.inserted(&before, root, key, leaf, new_root, q, n, p, l),
        0 <= j0 < q.len(),
        key_bit(key, j0) != key_bit(k, j0),
        forall|e: int| 0 <= e < j0 ==> key_bit(key, e) == key_bit(k, e),
        before.descent(root, k, pk, lk),
        before.has_key_entry(lk),
        path_distinct::<H>(p, key, l),
        forall|d: int| 0 <= d <= pk.len() ==> #[trigger] path_node::<H>(pk, k, lk, d) != leaf,
        forall|d: int, e: int|
            j0 < d <= pk.len() && 0 <= e < p.len() ==> #[trigger] path_node::<H>(pk, k, lk, d)
                != #[trigger] path_node::<H>(p, key, l, e),
    ensures
        after.descent(new_root, k, pk2, lk),
{
    let m = q.len() as int;
    let len = pk.len() as int;
    let pl = p.len() as int;
    lemma_key_bit_is_bit(key, j0);
    lemma_key_bit_is_bit(k, j0);
    // the leaf of `k` lies below the parting bit
    if len <= j0 {
        lemma_walks_agree(before, k, pk, lk, key, q, n, len);
        assert(before.inner_step(q, key, n, len));
        assert(false);
    }
    lemma_walks_agree(before, k, pk, lk, key, q, n, j0);
    assert(before.inner_step(pk, k, lk, j0));
    assert(before.inner_step(q, key, n, j0));
    let below = path_node::<H>(pk, k, lk, j0 + 1);
    assert(sibling_at(q, j0) == below);
    lemma_shape_suffix(before, key, leaf, q, n, p, l);
    assert(sibling_at(p, j0) == below);
    let top = path_node::<H>(p, key, l, j0 + 1);
    let pk2 = Seq::new(
        len as nat,
        |i: int|
            if i < len - 1 - j0 {
                pk[i]
            } else if i == len - 1 - j0 {
                top
            } else {
                p[pl - len + i]
            },
    );
    assert forall|e: int| j0 < e < len implies #[trigger] sibling_at(pk2, e) == sibling_at(pk, e) by {}
    assert(sibling_at(pk2, j0) == top);
    assert forall|e: int| 0 <= e < j0 implies #[trigger] sibling_at(pk2, e) == sibling_at(p, e) by {}
    assert forall|d: int| j0 < d <= len implies #[trigger] path_node::<H>(pk2, k, lk, d) == path_node::<H>(
        pk,
        k,
        lk,
        d,
    ) by {
        assert forall|e: int| d <= e < len implies #[trigger] sibling_at(pk2, e) == sibling_at(pk, e) by {}
        lemma_path_node_below::<H>(pk2, pk, k, lk, d);
    }
    assert(path_node::<H>(pk2, k, lk, j0 + 1) == below);
    assert(pk2[len - 1 - j0] == top);
    assert(path_node::<H>(pk2, k, lk, j0) == combine::<H>(key_bit(k, j0), below, top));
    assert(p[pl - 1 - j0] == below);
    assert(path_node::<H>(p, key, l, j0) == combine::<H>(key_bit(key, j0), top, below));
    assert(path_node::<H>(pk2, k, lk, j0) == path_node::<H>(p, key, l, j0));
    assert forall|d: int| 0 <= d <= j0 implies #[trigger] path_node::<H>(pk2, k, lk, d) == path_node::<H>(
        p,
        key,
        l,
        d,
    ) by {
        lemma_path_nodes_follow::<H>(pk2, k, lk, p, key, l, j0, d);
    }
    assert(path_root::<H>(pk2, k, lk) == new_root);
    assert forall|d: int| 0 <= d < len implies #[trigger] after.inner_step(pk2, k, lk, d) by {
        if d < j0 {
            assert(after.inner_step(p, key, l, d));
            assert(path_node::<H>(pk2, k, lk, d + 1) == path_node::<H>(p, key, l, d + 1));
        } else if d == j0 {
            assert(after.inner_step(p, key, l, d));
        } else {
            let x = path_node::<H>(pk, k, lk, d);
            assert forall|e: int| 0 <= e < p.len() implies x != #[trigger] path_node::<H>(p, key, l, e) by {
                assert(path_node::<H>(pk, k, lk, d) != path_node::<H>(p, key, l, e));
            }
            lemma_off_path(before, after, root, key, leaf, new_root, q, n, p, l, x);
            assert(before.inner_step(pk, k, lk, d));
            assert(path_node::<H>(pk2, k, lk, d + 1) == path_node::<H>(pk, k, lk, d + 1));
        }
    }
    assert(path_node::<H>(pk, k, lk, len) == lk);
    assert forall|e: int| 0 <= e < p.len() implies lk != #[trigger] path_node::<H>(p, key, l, e) by {
        assert(path_node::<H>(pk, k, lk, len) != path_node::<H>(p, key, l, e));
    }
    lemma_off_path(before, after, root, key, leaf, new_root, q, n, p, l, lk);
    pk2
}

/// When the keys agree along the whole walk of the insertion
/// (`j0 >= q.len()`), the walk stopped on the leaf of `k`; it now hangs next
/// to the new leaf below the parting bit, and opens there.
proof fn lemma_keep_at<D: DataBackend, H: Hasher>(
    before: Smt<D, H>,
    after: Smt<D, H>,
    root: Seq<u8>,
    key: Seq<u8>,
    leaf: Seq<u8>,
    new_root: Seq<u8>,
    q: Seq<Seq<u8>>,
    n: Seq<u8>,
    p: Seq<Seq<u8>>,
    l: Seq<u8>,
    k: Seq<u8>,
    pk: Seq<Seq<u8>>,
    lk: Seq<u8>,
    j0: int,
) -> (pk2: Seq<Seq<u8>>)
    requires
        after.inserted(&before, root, key, leaf, new_root, q, n, p, l),
        q.len() <= j0 < 256,
        j0 == first_diff_from(key, k, 0),
        key_bit(key, j0) != key_bit(k, j0),
        forall|e: int| 0 <= e < j0 ==> key_bit(key, e) == key_bit(k, e),
        before.descent(root, k, pk, lk),
        before.has_key_entry(lk),
        before.key_entry(lk) == k,
        k != key,
        path_distinct::<H>(p, key, l),
        !before.has_children_entry(zero_hash()),
        !before.has_key_entry(zero_hash()),
        forall|d: int| 0 <= d <= pk.len() ==> #[trigger] path_node::<H>(pk, k, lk, d) != leaf,
        forall|e: int| 0 <= e < p.len() ==> lk != #[trigger] path_node::<H>(p, key, l, e),
    ensures
        after.descent(new_root, k, pk2, lk),
{
    let m = q.len() as int;
    let len = pk.len() as int;
    lemma_key_bit_is_bit(key, j0);
    lemma_key_bit_is_bit(k, j0);
    if len < m {
        lemma_walks_agree(before, k, pk, lk, key, q, n, len);
        assert(before.inner_step(q, key, n, len));
        assert(false);
    }
    lemma_walks_agree(before, k, pk, lk, key, q, n, m);
    assert(path_node::<H>(pk, k, lk, m) == n);
    if n == zero_hash() {
        if len > m {
            assert(before.inner_step(pk, k, lk, m));
        }
        assert(false);
    }
    if !before.keyed_with(leaf, n) {
        if len > m {
            assert(before.inner_step(pk, k, lk, m));
        }
        assert(false);
    }
    if n == leaf {
        assert(path_node::<H>(pk, k, lk, m) != leaf);
        assert(false);
    }
    if len > m {
        assert(before.inner_step(pk, k, lk, m));
        assert(false);
    }
    assert(lk == n);
    assert(before.key_with(leaf, key, n) == k);
    lemma_first_diff_skip(key, k, 0, m);
    assert(p == seq![lk] + zeros((j0 - m) as nat) + q);
    let pl = p.len() as int;
    assert(pl == j0 + 1);
    assert(l == leaf);
    let pk2 = p.update(0, l);
    assert(path_node::<H>(pk2, k, lk, j0 + 1) == lk);
    assert(path_node::<H>(p, key, l, j0 + 1) == l);
    assert(path_node::<H>(pk2, k, lk, j0) == combine::<H>(key_bit(k, j0), lk, l));
    assert(path_node::<H>(p, key, l, j0) == combine::<H>(key_bit(key, j0), l, lk));
    assert(path_node::<H>(pk2, k, lk, j0) == path_node::<H>(p, key, l, j0));
    assert forall|e: int| 0 <= e < j0 implies #[trigger] sibling_at(pk2, e) == sibling_at(p, e) by {}
    assert forall|d: int| 0 <= d <= j0 implies #[trigger] path_node::<H>(pk2, k, lk, d) == path_node::<H>(
        p,
        key,
        l,
        d,
    ) by {
        lemma_path_nodes_follow::<H>(pk2, k, lk, p, key, l, j0, d);
    }
    assert(path_root::<H>(pk2, k, lk) == new_root);
    assert forall|d: int| 0 <= d < pk2.len() implies #[trigger] after.inner_step(pk2, k, lk, d) by {
        assert(after.inner_step(p, key, l, d));
        if d < j0 {
            assert(path_node::<H>(pk2, k, lk, d + 1) == path_node::<H>(p, key, l, d + 1));
        }
    }
    lemma_off_path(before, after, root, key, leaf, new_root, q, n, p, l, lk);
    pk2
}

/// Inserting a key keeps the leaves of the other keys open.
///
/// Let `insert` put `key` into the tree of root `root`, with new node `leaf`,
/// and return `new_root`, as `inserted` describes it. Let another key `k`
/// open in the old tree: its descent from `root` ends on the leaf `lk`, which
/// carries `k`. Then `k` still opens from `new_root` on the same leaf, which
/// still carries `k`; so `get_opening` keeps finding it, and its opening
/// verifies the payload of `k`.
///
/// This holds when the hashes do not collide where the insertion writes: the
/// nodes of the new path are distinct, the empty node is neither an inner
/// node nor a leaf, the new leaf is no node of the old descent of `k`, and
/// the new inner nodes are none of the nodes of that descent below the bit
/// where `k` and `key` part, nor its leaf.
pub proof fn lemma_insert_keeps_other_leaves<D: DataBackend, H: Hasher>(
    before: Smt<D, H>,
    after: Smt<D, H>,
    root: Seq<u8>,
    key: Seq<u8>,
    leaf: Seq<u8>,
    new_root: Seq<u8>,
    q: Seq<Seq<u8>>,
    n: Seq<u8>,
    p: Seq<Seq<u8>>,
    l: Seq<u8>,
    k: Seq<u8>,
    pk: Seq<Seq<u8>>,
    lk: Seq<u8>,
)
    requires
        after.inserted(&before, root, key, leaf, new_root, q, n, p, l),
        key.len() == 32,
        k.len() == 32,
        k != key,
        before.descent(root, k, pk, lk),
        before.has_key_entry(lk),
        before.key_entry(lk) == k,
        path_distinct::<H>(p, key, l),
        !before.has_children_entry(zero_hash()),
        !before.has_key_entry(zero_hash()),
        forall|d: int| 0 <= d <= pk.len() ==> #[trigger] path_node::<H>(pk, k, lk, d) != leaf,
        forall|d: int, e: int|
            first_diff_from(key, k, 0) < d <= pk.len() && 0 <= e < p.len() ==> #[trigger] path_node::<H>(
                pk,
                k,
                lk,
                d,
            ) != #[trigger] path_node::<H>(p, key, l, e),
        forall|e: int| 0 <= e < p.len() ==> lk != #[trigger] path_node::<H>(p, key, l, e),
    ensures
        exists|pk2: Seq<Seq<u8>>| #[trigger] after.descent(new_root, k, pk2, lk),
        after.has_key_entry(lk),
        after.key_entry(lk) == k,
{
    lemma_distinct_keys_differ_in_bit(key, k);
    lemma_first_diff_props(key, k, 0);
    let j0 = first_diff_from(key, k, 0);
    let witness = choose|d: int| 0 <= d < 256 && key_bit(key, d) != key_bit(k, d);
    assert(j0 <= witness);
    assert(j0 < 256);
    if j0 < q.len() {
        let pk2 = lemma_keep_below(before, after, root, key, leaf, new_root, q, n, p, l, k, pk, lk, j0);
        assert(after.descent(new_root, k, pk2, lk));
    } else {
        let pk2 = lemma_keep_at(before, after, root, key, leaf, new_root, q, n, p, l, k, pk, lk, j0);
        assert(after.descent(new_root, k, pk2, lk));
    }
    assert(path_node::<H>(pk, k, lk, pk.len() as int) == lk);
    lemma_off_path(before, after, root, key, leaf, new_root, q, n, p, l, lk);
}

/// A node that the tree holds nothing for: no children entry and no leaf key.
pub open spec fn fresh_node<D: DataBackend, H: Hasher>(smt: Smt<D, H>, x: Seq<u8>) -> bool {
    !smt.has_children_entry(x) && !smt.has_key_entry(x)
}

/// An insertion, as `inserted` describes it, that writes only nodes the tree
/// held nothing for: its new leaf and the inner nodes of its new path; the
/// nodes of that path are distinct and the empty node is no node of the tree.
pub open spec fn fresh_insertion<D: DataBackend, H: Hasher>(
    before: Smt<D, H>,
    after: Smt<D, H>,
    root: Seq<u8>,
    key: Seq<u8>,
    leaf: Seq<u8>,
    new_root: Seq<u8>,
    q: Seq<Seq<u8>>,
    n: Seq<u8>,
    p: Seq<Seq<u8>>,
    l: Seq<u8>,
) -> bool {
    &&& after.inserted(&before, root, key, leaf, new_root, q, n, p, l)
    &&& key.len() == 32
    &&& path_distinct::<H>(p, key, l)
    &&& fresh_node(before, zero_hash())
    &&& fresh_node(before, leaf)
    &&& forall|e: int| 0 <= e < p.len() ==> fresh_node(before, #[trigger] path_node::<H>(p, key, l, e))
}

/// An insertion that writes fresh nodes keeps the leaf of every other key
/// open: the case of `lemma_insert_keeps_other_leaves` where nothing that the
/// insertion writes was in the tree.
pub proof fn lemma_fresh_insertion_keeps_leaf<D: DataBackend, H: Hasher>(
    before: Smt<D, H>,
    after: Smt<D, H>,
    root: Seq<u8>,
    key: Seq<u8>,
    leaf: Seq<u8>,
    new_root: Seq<u8>,
    q: Seq<Seq<u8>>,
    n: Seq<u8>,
    p: Seq<Seq<u8>>,
    l: Seq<u8>,
    k: Seq<u8>,
    pk: Seq<Seq<u8>>,
    lk: Seq<u8>,
)
    requires
        fresh_insertion(before, after, root, key, leaf, new_root, q, n, p, l),
        k.len() == 32,
        k != key,
        before.descent(root, k, pk, lk),
        before.has_key_entry(lk),
        before.key_entry(lk) == k,
    ensures
        exists|pk2: Seq<Seq<u8>>| #[trigger] after.descent(new_root, k, pk2, lk),
        after.has_key_entry(lk),
        after.key_entry(lk) == k,
{
    assert forall|d: int| 0 <= d <= pk.len() implies !fresh_node(before, #[trigger] path_node::<H>(pk, k, lk, d)) by {
        if d < pk.len() {
            assert(before.inner_step(pk, k, lk, d));
        } else {
            assert(path_node::<H>(pk, k, lk, d) == lk);
        }
    }
    assert forall|d: int| 0 <= d <= pk.len() implies #[trigger] path_node::<H>(pk, k, lk, d) != leaf by {
        assert(!fresh_node(before, path_node::<H>(pk, k, lk, d)));
    }
    assert forall|d: int, e: int|
        first_diff_from(key, k, 0) < d <= pk.len() && 0 <= e < p.len() implies #[trigger] path_node::<H>(
            pk,
            k,
            lk,
            d,
        ) != #[trigger] path_node::<H>(p, key, l, e) by {
        assert(!fresh_node(before, path_node::<H>(pk, k, lk, d)));
        assert(fresh_node(before, path_node::<H>(p, key, l, e)));
    }
    assert forall|e: int| 0 <= e < p.len() implies lk != #[trigger] path_node::<H>(p, key, l, e) by {
        assert(fresh_node(before, path_node::<H>(p, key, l, e)));
    }
    lemma_insert_keeps_other_leaves(before, after, root, key, leaf, new_root, q, n, p, l, k, pk, lk);
}

/// Each of the insertions is fresh: the `i`-th puts `keys[i]` into
/// `trees[i]` from `roots[i]` and gives `trees[i + 1]` and `roots[i + 1]`.
pub open spec fn fresh_insertions<D: DataBackend, H: Hasher>(
    trees: Seq<Smt<D, H>>,
    roots: Seq<Seq<u8>>,
    keys: Seq<Seq<u8>>,
    leaves: Seq<Seq<u8>>,
    qs: Seq<Seq<Seq<u8>>>,
    ns: Seq<Seq<u8>>,
    ps: Seq<Seq<Seq<u8>>>,
    ls: Seq<Seq<u8>>,
) -> bool {
    &&& trees.len() == keys.len() + 1
    &&& roots.len() == keys.len() + 1
    &&& leaves.len() == keys.len()
    &&& qs.len() == keys.len()
    &&& ns.len() == keys.len()
    &&& ps.len() == keys.len()
    &&& ls.len() == keys.len()
    &&& forall|i: int|
        0 <= i < keys.len() ==> #[trigger] fresh_insertion(
            trees[i],
            trees[i + 1],
            roots[i],
            keys[i],
            leaves[i],
            roots[i + 1],
            qs[i],
            ns[i],
            ps[i],
            ls[i],
        )
}

/// Inserting keys one after another keeps every earlier key open.
///
/// Let a key `k` open in the first tree: its descent from the first root
/// ends on the leaf `lk`, which carries `k`. Through insertions of other keys
/// that each write only fresh nodes (without hash collisions, and without a
/// payload equal to that of a key already in the tree, whose leaf would be
/// shared), `k` still opens from the last root on the same leaf, which still
/// carries `k`.
pub proof fn lemma_insertions_keep_leaf<D: DataBackend, H: Hasher>(
    trees: Seq<Smt<D, H>>,
    roots: Seq<Seq<u8>>,
    keys: Seq<Seq<u8>>,
    leaves: Seq<Seq<u8>>,
    qs: Seq<Seq<Seq<u8>>>,
    ns: Seq<Seq<u8>>,
    ps: Seq<Seq<Seq<u8>>>,
    ls: Seq<Seq<u8>>,
    k: Seq<u8>,
    pk: Seq<Seq<u8>>,
    lk: Seq<u8>,
)
    requires
        fresh_insertions(trees, roots, keys, leaves, qs, ns, ps, ls),
        k.len() == 32,
        forall|i: int| 0 <= i < keys.len() ==> #[trigger] keys[i] != k,
        trees[0].descent(roots[0], k, pk, lk),
        trees[0].has_key_entry(lk),
        trees[0].key_entry(lk) == k,
    ensures
        exists|pk2: Seq<Seq<u8>>| #[trigger] trees.last().descent(roots.last(), k, pk2, lk),
        trees.last().has_key_entry(lk),
        trees.last().key_entry(lk) == k,
    decreases keys.len(),
{
    if keys.len() == 0 {
        assert(trees.last() == trees[0]);
        assert(roots.last() == roots[0]);
    } else {
        assert(fresh_insertion(trees[0], trees[1], roots[0], keys[0], leaves[0], roots[1], qs[0], ns[0], ps[0], ls[0]));
        assert(keys[0] != k);
        lemma_fresh_insertion_keeps_leaf(
            trees[0],
            trees[1],
            roots[0],
            keys[0],
            leaves[0],
            roots[1],
            qs[0],
            ns[0],
            ps[0],
            ls[0],
            k,
            pk,
            lk,
        );
        let pk1 = choose|pk2: Seq<Seq<u8>>| #[trigger] trees[1].descent(roots[1], k, pk2, lk);
        let t2 = trees.drop_first();
        let r2 = roots.drop_first();
        let k2 = keys.drop_first();
        assert forall|i: int| 0 <= i < k2.len() implies #[trigger] fresh_insertion(
            t2[i],
            t2[i + 1],
            r2[i],
            k2[i],
            leaves.drop_first()[i],
            r2[i + 1],
            qs.drop_first()[i],
            ns.drop_first()[i],
            ps.drop_first()[i],
            ls.drop_first()[i],
        ) by {
            let j = i + 1;
            assert(fresh_insertion(
                trees[j],
                trees[j + 1],
                roots[j],
                keys[j],
                leaves[j],
                roots[j + 1],
                qs[j],
                ns[j],
                ps[j],
                ls[j],
            ));
            assert(t2[i + 1] == trees[j + 1]);
            assert(r2[i + 1] == roots[j + 1]);
        }
        assert forall|i: int| 0 <= i < k2.len() implies #[trigger] k2[i] != k by {
            assert(keys[i + 1] != k);
        }
        lemma_insertions_keep_leaf(
            t2,
            r2,
            k2,
            leaves.drop_first(),
            qs.drop_first(),
            ns.drop_first(),
            ps.drop_first(),
            ls.drop_first(),
            k,
            pk1,
            lk,
        );
        assert(t2.last() == trees.last());
        assert(r2.last() == roots.last());
    }
}

/// The nodes that a walk meets lie in the shallow tree at their depth, and
/// so do the siblings it passes.
proof fn lemma_walk_shallow<D: DataBackend, H: Hasher>(
    before: Smt<D, H>,
    root: Seq<u8>,
    key: Seq<u8>,
    q: Seq<Seq<u8>>,
    n: Seq<u8>,
    d: int,
)
    requires
        before.shallow(root, 0),
        before.walk(root, key, q, n),
        0 <= d <= q.len(),
    ensures
        before.shallow(path_node::<H>(q, key, n, d), d),
    decreases d,
{
    if d > 0 {
        lemma_walk_shallow(before, root, key, q, n, d - 1);
        assert(before.inner_step(q, key, n, d - 1));
    }
}

/// What a node met by a walk reaches, the root of the walk reaches.
proof fn lemma_walk_reaches<D: DataBackend, H: Hasher>(
    before: Smt<D, H>,
    root: Seq<u8>,
    key: Seq<u8>,
    q: Seq<Seq<u8>>,
    n: Seq<u8>,
    e: int,
    k: nat,
    x: Seq<u8>,
)
    requires
        before.walk(root, key, q, n),
        0 <= e <= q.len(),
        before.reaches_within(path_node::<H>(q, key, n, e), k, x),
    ensures
        before.reaches_within(root, (k + e) as nat, x),
    decreases e,
{
    if e > 0 {
        assert(before.inner_step(q, key, n, e - 1));
        assert(before.reaches_within(path_node::<H>(q, key, n, e - 1), k + 1, x));
        lemma_walk_reaches(before, root, key, q, n, e - 1, k + 1, x);
    }
}

/// A shallow subtree stays shallow when no node of it changes its children.
proof fn lemma_shallow_kept<D: DataBackend, H: Hasher>(
    before: Smt<D, H>,
    after: Smt<D, H>,
    x: Seq<u8>,
    e: int,
)
    requires
        before.shallow(x, e),
        forall|y: Seq<u8>|
            #[trigger] before.reachable(x, y) ==> after.has_children_entry(y) == before.has_children_entry(y)
                && (after.has_children_entry(y) ==> after.children_entry(y) == before.children_entry(y)),
    ensures
        after.shallow(x, e),
    decreases 257 - e,
{
    assert(before.reaches_within(x, 0, x));
    assert(before.reachable(x, x));
    if after.has_children_entry(x) && e < 257 {
        if let Some(c) = parse_children(before.children_entry(x)) {
            assert forall|y: Seq<u8>| #[trigger] before.reachable(c.0, y) implies after.has_children_entry(y)
                == before.has_children_entry(y) && (after.has_children_entry(y) ==> after.children_entry(y)
                == before.children_entry(y)) by {
                let k = choose|k: nat| #[trigger] before.reaches_within(c.0, k, y);
                assert(before.reaches_within(x, k + 1, y));
                assert(before.reachable(x, y));
            }
            assert forall|y: Seq<u8>| #[trigger] before.reachable(c.1, y) implies after.has_children_entry(y)
                == before.has_children_entry(y) && (after.has_children_entry(y) ==> after.children_entry(y)
                == before.children_entry(y)) by {
                let k = choose|k: nat| #[trigger] before.reaches_within(c.1, k, y);
                assert(before.reaches_within(x, k + 1, y));
                assert(before.reachable(x, y));
            }
            lemma_shallow_kept(before, after, c.0, e + 1);
            lemma_shallow_kept(before, after, c.1, e + 1);
        }
    }
}

/// The conditions, on one insertion, under which it keeps a tree shallow:
/// the nodes of its new path are distinct, none of them is the empty node or
/// a node of the old tree, the new leaf and the empty node have no children,
/// and the leaves of the old tree have no children either.
pub open spec fn clean_insertion<D: DataBackend, H: Hasher>(
    before: Smt<D, H>,
    after: Smt<D, H>,
    root: Seq<u8>,
    key: Seq<u8>,
    leaf: Seq<u8>,
    new_root: Seq<u8>,
    q: Seq<Seq<u8>>,
    n: Seq<u8>,
    p: Seq<Seq<u8>>,
    l: Seq<u8>,
) -> bool {
    &&& after.inserted(&before, root, key, leaf, new_root, q, n, p, l)
    &&& path_distinct::<H>(p, key, l)
    &&& !before.has_children_entry(leaf)
    &&& !before.has_children_entry(zero_hash())
    &&& forall|e: int| 0 <= e < p.len() ==> #[trigger] path_node::<H>(p, key, l, e) != zero_hash()
    &&& forall|y: Seq<u8>, e: int|
        #[trigger] before.reachable(root, y) && 0 <= e < p.len() ==> y != #[trigger] path_node::<H>(
            p,
            key,
            l,
            e,
        )
    &&& forall|y: Seq<u8>|
        #[trigger] before.reachable(root, y) && before.has_key_entry(y) ==> !before.has_children_entry(y)
}

/// After a clean insertion, the nodes of the new path lie in a shallow tree
/// at their depth.
proof fn lemma_new_path_shallow<D: DataBackend, H: Hasher>(
    before: Smt<D, H>,
    after: Smt<D, H>,
    root: Seq<u8>,
    key: Seq<u8>,
    leaf: Seq<u8>,
    new_root: Seq<u8>,
    q: Seq<Seq<u8>>,
    n: Seq<u8>,
    p: Seq<Seq<u8>>,
    l: Seq<u8>,
    d: int,
)
    requires
        clean_insertion(before, after, root, key, leaf, new_root, q, n, p, l),
        before.shallow(root, 0),
        0 <= d <= p.len(),
    ensures
        after.shallow(path_node::<H>(p, key, l, d), d),
    decreases p.len() - d,
{
    let m = q.len() as int;
    let len = p.len() as int;
    assert(path_node::<H>(p, key, l, len) == l);
    assert forall|e: int| 0 <= e < len implies l != #[trigger] path_node::<H>(p, key, l, e) by {
        assert(path_node::<H>(p, key, l, e) != path_node::<H>(p, key, l, len));
    }
    // the nodes whose children stay: every node that is not on the new path
    assert forall|y: Seq<u8>|
        (forall|e: int| 0 <= e < len ==> y != #[trigger] path_node::<H>(p, key, l, e)) implies after.has_children_entry(y)
        == before.has_children_entry(y) && (after.has_children_entry(y) ==> after.children_entry(y)
        == before.children_entry(y)) by {
        if y != leaf {
            assert(after.same_node_entries(&before, y));
        }
    }
    if d == len {
        if l != leaf {
            assert(after.same_node_entries(&before, l));
            assert(!before.has_children_entry(l));
        }
        assert(!after.has_children_entry(l));
    } else {
        lemma_new_path_shallow(before, after, root, key, leaf, new_root, q, n, p, l, d + 1);
        assert(after.inner_step(p, key, l, d));
        let s = p[len - 1 - d];
        if d < m {
            lemma_shape_suffix(before, key, leaf, q, n, p, l);
            assert(sibling_at(p, d) == sibling_at(q, d));
            lemma_walk_shallow(before, root, key, q, n, d);
            assert(before.inner_step(q, key, n, d));
            assert(before.shallow(s, d + 1));
            assert forall|y: Seq<u8>| #[trigger] before.reachable(s, y) implies after.has_children_entry(y)
                == before.has_children_entry(y) && (after.has_children_entry(y) ==> after.children_entry(y)
                == before.children_entry(y)) by {
                let k = choose|k: nat| #[trigger] before.reaches_within(s, k, y);
                assert(before.reaches_within(path_node::<H>(q, key, n, d), k + 1, y));
                lemma_walk_reaches(before, root, key, q, n, d, k + 1, y);
                assert(before.reachable(root, y));
                assert forall|e: int| 0 <= e < len implies y != #[trigger] path_node::<H>(p, key, l, e) by {
                    assert(before.reachable(root, y));
                }
            }
            lemma_shallow_kept(before, after, s, d + 1);
        } else {
            if n == zero_hash() {
                assert(p == seq![zero_hash()] + q);
                assert(s == zero_hash());
            } else if before.keyed_with(leaf, n) {
                let other = before.key_with(leaf, key, n);
                if other == key {
                    assert(p == q);
                    assert(false);
                }
                let j = first_diff_from(key, other, m);
                assert(p == seq![n] + zeros((j - m) as nat) + q);
                if d == j {
                    assert(s == n);
                    assert(n != leaf);
                    assert(before.has_key_entry(n));
                    assert(path_node::<H>(q, key, n, m) == n);
                    assert(before.reaches_within(n, 0, n));
                    lemma_walk_reaches(before, root, key, q, n, m, 0, n);
                    assert(before.reachable(root, n));
                    assert(!before.has_children_entry(n));
                    assert forall|e: int| 0 <= e < len implies n != #[trigger] path_node::<H>(p, key, l, e) by {
                        assert(before.reachable(root, n));
                    }
                } else {
                    assert(s == zeros((j - m) as nat)[j - 1 - d]);
                    assert(s == zero_hash());
                }
            } else {
                assert(p == q);
                assert(false);
            }
            assert(!after.has_children_entry(s));
        }
        assert(after.shallow(s, d + 1));
        assert(after.shallow(path_node::<H>(p, key, l, d + 1), d + 1));
        assert(d < 257);
    }
}

/// A clean insertion into a shallow tree leaves a shallow tree: no node with
/// children lies 257 levels or more below the new root, so pruning it
/// succeeds on a well-encoded store.
pub proof fn lemma_insert_keeps_shallow<D: DataBackend, H: Hasher>(
    before: Smt<D, H>,
    after: Smt<D, H>,
    root: Seq<u8>,
    key: Seq<u8>,
    leaf: Seq<u8>,
    new_root: Seq<u8>,
    q: Seq<Seq<u8>>,
    n: Seq<u8>,
    p: Seq<Seq<u8>>,
    l: Seq<u8>,
)
    requires
        clean_insertion(before, after, root, key, leaf, new_root, q, n, p, l),
        before.shallow(root, 0),
    ensures
        after.shallow(new_root, 0),
{
    lemma_new_path_shallow(before, after, root, key, leaf, new_root, q, n, p, l, 0);
}

/// Each of the insertions is clean: the `i`-th puts `keys[i]` into
/// `trees[i]` from `roots[i]` and gives `trees[i + 1]` and `roots[i + 1]`.
pub open spec fn clean_insertions<D: DataBackend, H: Hasher>(
    trees: Seq<Smt<D, H>>,
    roots: Seq<Seq<u8>>,
    keys: Seq<Seq<u8>>,
    leaves: Seq<Seq<u8>>,
    qs: Seq<Seq<Seq<u8>>>,
    ns: Seq<Seq<u8>>,
    ps: Seq<Seq<Seq<u8>>>,
    ls: Seq<Seq<u8>>,
) -> bool {
    &&& trees.len() == keys.len() + 1
    &&& roots.len() == keys.len() + 1
    &&& leaves.len() == keys.len()
    &&& qs.len() == keys.len()
    &&& ns.len() == keys.len()
    &&& ps.len() == keys.len()
    &&& ls.len() == keys.len()
    &&& forall|i: int|
        0 <= i < keys.len() ==> #[trigger] clean_insertion(
            trees[i],
            trees[i + 1],
            roots[i],
            keys[i],
            leaves[i],
            roots[i + 1],
            qs[i],
            ns[i],
            ps[i],
            ls[i],
        )
}

/// A tree built by inserting keys one after another into the empty tree is
/// shallow: no node with children lies 257 levels or more below its root, so
/// `prune` succeeds on it when the store is well encoded. This holds when
/// every insertion is clean (no hash of a written node collides with a node
/// of the tree, with the empty node or with another written node).
pub proof fn lemma_inserted_tree_shallow<D: DataBackend, H: Hasher>(
    trees: Seq<Smt<D, H>>,
    roots: Seq<Seq<u8>>,
    keys: Seq<Seq<u8>>,
    leaves: Seq<Seq<u8>>,
    qs: Seq<Seq<Seq<u8>>>,
    ns: Seq<Seq<u8>>,
    ps: Seq<Seq<Seq<u8>>>,
    ls: Seq<Seq<u8>>,
    i: int,
)
    requires
        clean_insertions(trees, roots, keys, leaves, qs, ns, ps, ls),
        roots[0] == zero_hash(),
        !trees[0].has_children_entry(zero_hash()),
        0 <= i <= keys.len(),
    ensures
        trees[i].shallow(roots[i], 0),
    decreases i,
{
    if i > 0 {
        lemma_inserted_tree_shallow(trees, roots, keys, leaves, qs, ns, ps, ls, i - 1);
        let j = i - 1;
        assert(clean_insertion(trees[j], trees[j + 1], roots[j], keys[j], leaves[j], roots[j + 1], qs[j], ns[j], ps[j], ls[j]));
        lemma_insert_keeps_shallow(trees[j], trees[j + 1], roots[j], keys[j], leaves[j], roots[j + 1], qs[j], ns[j], ps[j], ls[j]);
    }
}

} // verus!
