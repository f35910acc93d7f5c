use sha2::Digest;
use valence::backend::{DataBackend, MemoryBackend};
use valence::hash::{Hasher, Sp1Hasher};
use valence::merkle::compound::CompoundOpeningBuilder;
use valence::merkle::read::Preimage;
use valence::merkle::smt::{Smt, SmtChildren, SmtError};

type Tree = Smt<MemoryBackend, Sp1Hasher>;

fn tree() -> Tree {
    Smt::from(MemoryBackend::new())
}

fn sha(bytes: &[u8]) -> [u8; 32] {
    sha2::Sha256::digest(bytes).into()
}

/// A key whose leading bytes are `head` and whose last byte is `tail`.
fn key(head: &[u8], tail: u8) -> [u8; 32] {
    let mut k = [0u8; 32];
    k[..head.len()].copy_from_slice(head);
    k[31] = tail;
    k
}

#[test]
fn sp1_hasher_prefixes_data_and_merges() {
    let data = b"Two roads diverged in a wood";
    let mut expected = vec![0u8];
    expected.extend_from_slice(data);
    assert_eq!(Sp1Hasher::hash(data), sha(&expected));

    let a = [1u8; 32];
    let b = [2u8; 32];
    let mut expected = vec![1u8];
    expected.extend_from_slice(&a);
    expected.extend_from_slice(&b);
    assert_eq!(Sp1Hasher::merge(&a, &b), sha(&expected));

    let mut expected = b"poem".to_vec();
    expected.extend_from_slice(b"x");
    assert_eq!(Sp1Hasher::key("poem", b"x"), sha(&expected));

    let mut expected = vec![0u8];
    expected.extend_from_slice(b"ab");
    expected.extend_from_slice(b"cd");
    assert_eq!(Sp1Hasher::digest(&[b"ab", b"cd"]), sha(&expected));
}

#[test]
fn memory_backend_reads_back_writes() {
    let mut d = MemoryBackend::new();
    assert_eq!(d.get(b"p", b"k"), None);
    assert!(!d.has(b"p", b"k"));
    assert_eq!(d.set(b"p", b"k", b"v1"), None);
    assert_eq!(d.get(b"p", b"k"), Some(b"v1".to_vec()));
    assert_eq!(d.get(b"q", b"k"), None);
    assert_eq!(d.set(b"p", b"k", b"v2"), Some(b"v1".to_vec()));
    assert_eq!(d.get(b"p", b"k"), Some(b"v2".to_vec()));
    assert!(d.has(b"p", b"k"));
    assert_eq!(d.remove(b"p", b"k"), Some(b"v2".to_vec()));
    assert_eq!(d.remove(b"p", b"k"), None);
    assert!(!d.has(b"p", b"k"));
}

#[test]
fn children_round_trip_through_bytes() {
    let c = SmtChildren { left: [3u8; 32], right: [4u8; 32] };
    let bytes = c.to_bytes();
    assert_eq!(bytes.len(), 64);
    let back = SmtChildren::from_bytes(&bytes).unwrap();
    assert_eq!(back.left, c.left);
    assert_eq!(back.right, c.right);
    assert!(SmtChildren::from_bytes(&bytes[..63]).is_none());
    assert_eq!(c.parent::<Sp1Hasher>(), Sp1Hasher::merge(&c.left, &c.right));
}

#[test]
fn single_leaf_opens_with_one_sibling() {
    let mut t = tree();
    let data = b"Two roads diverged in a wood, and I took the one less traveled by";
    let k = Sp1Hasher::key("poem", &[]);
    let root = t.insert(Tree::empty_tree_root(), &k, data).unwrap();
    let zero = Tree::empty_tree_root();
    let expected = if k[0] >> 7 == 0 {
        Sp1Hasher::merge(&Sp1Hasher::hash(data), &zero)
    } else {
        Sp1Hasher::merge(&zero, &Sp1Hasher::hash(data))
    };
    assert_eq!(root, expected);
    let proof = t.get_opening(&root, &k).unwrap().unwrap();
    assert_eq!(proof.len(), 1);
    assert_eq!(proof.path, vec![zero]);
    assert!(Tree::verify(&proof, &root, &k, data));
    assert!(!Tree::verify(&proof, &root, &k, b"another payload"));
    assert_eq!(t.get_key_data(&k), Some(data.to_vec()));
}

#[test]
fn two_leaves_split_on_first_bit() {
    let mut t = tree();
    let k0 = key(&[0b0000_0000], 1);
    let k1 = key(&[0b1000_0000], 2);
    let d0 = b"Hope is the thing with feathers";
    let d1 = b"Shall I compare thee to a summer's day?";
    let root = t.insert(Tree::empty_tree_root(), &k0, d0).unwrap();
    let root = t.insert(root, &k1, d1).unwrap();
    // `k1` meets the empty right child of the root and hangs one level below it
    let zero = Tree::empty_tree_root();
    let right = Sp1Hasher::merge(&Sp1Hasher::hash(d1), &zero);
    assert_eq!(root, Sp1Hasher::merge(&Sp1Hasher::hash(d0), &right));
    let p0 = t.get_opening(&root, &k0).unwrap().unwrap();
    let p1 = t.get_opening(&root, &k1).unwrap().unwrap();
    assert_eq!(p0.len(), 1);
    assert_eq!(p1.len(), 2);
    assert!(Tree::verify(&p0, &root, &k0, d0));
    assert!(Tree::verify(&p1, &root, &k1, d1));
    assert!(!Tree::verify(&p0, &root, &k1, d0));
}

fn collision_lengths(k0: [u8; 32], k1: [u8; 32], expected: usize) {
    let mut t = tree();
    let d0 = b"And miles to go before I sleep.";
    let d1 = [0x00u8, 0x00, 0x00];
    let root = t.insert(Tree::empty_tree_root(), &k0, d0).unwrap();
    let root = t.insert(root, &k1, &d1).unwrap();
    let p0 = t.get_opening(&root, &k0).unwrap().unwrap();
    let p1 = t.get_opening(&root, &k1).unwrap().unwrap();
    assert_eq!(p0.len(), expected);
    assert_eq!(p1.len(), expected);
    assert!(Tree::verify(&p0, &root, &k0, d0));
    assert!(Tree::verify(&p1, &root, &k1, &d1));
}

#[test]
fn one_bit_collision_opens_at_depth_two() {
    collision_lengths(key(&[0b1000_0000], 1), key(&[0b1100_0000], 2), 2);
}

#[test]
fn two_bit_collision_opens_at_depth_three() {
    collision_lengths(key(&[0b1010_0000], 1), key(&[0b1000_0000], 2), 3);
}

#[test]
fn long_collision_opens_at_depth_twelve() {
    collision_lengths(key(&[0x25, 0b1010_0000], 1), key(&[0x25, 0b1011_0000], 2), 12);
}

#[test]
fn growing_tree_keeps_every_leaf_open() {
    let mut t = tree();
    let data: [&[u8]; 4] = [&[0x00, 0x00, 0x09], &[0x00, 0x00, 0x19], &[0x00, 0x00, 0x03], &[0x00, 0x00, 0x05]];
    let keys = [
        key(&[0b1000_0000], 1),
        key(&[0b1100_0000], 2),
        key(&[0b1010_0000], 3),
        key(&[0b0100_0000], 4),
    ];
    let mut root = Tree::empty_tree_root();
    let lengths: [&[usize]; 4] = [&[1], &[2, 2], &[3, 2, 3], &[3, 2, 3, 2]];
    for i in 0..4 {
        root = t.insert(root, &keys[i], data[i]).unwrap();
        for j in 0..=i {
            let p = t.get_opening(&root, &keys[j]).unwrap().unwrap();
            assert_eq!(p.len(), lengths[i][j]);
            assert!(Tree::verify(&p, &root, &keys[j], data[j]));
        }
    }
}

#[test]
fn reinserting_a_single_leaf_replaces_its_payload() {
    let mut t = tree();
    let k = key(&[0x42], 7);
    let root = t.insert(Tree::empty_tree_root(), &k, b"first").unwrap();
    let root = t.insert(root, &k, b"second").unwrap();
    let zero = Tree::empty_tree_root();
    assert_eq!(root, Sp1Hasher::merge(&Sp1Hasher::hash(b"second"), &zero));
    let p = t.get_opening(&root, &k).unwrap().unwrap();
    assert!(Tree::verify(&p, &root, &k, b"second"));
    assert_eq!(t.get_key_data(&k), Some(b"second".to_vec()));
}

#[test]
fn missing_key_has_no_opening_but_a_non_membership_proof() {
    let mut t = tree();
    let k0 = key(&[0b0000_0000], 1);
    let k1 = key(&[0b1000_0000], 2);
    let absent_zero = key(&[0b0100_0000], 3);
    let root = t.insert(Tree::empty_tree_root(), &k0, b"zero").unwrap();
    let root = t.insert(root, &k1, b"one").unwrap();

    // the path of `absent_zero` ends on the leaf of `k0`
    assert!(t.get_opening(&root, &absent_zero).unwrap().is_none());
    let nm = t.get_non_membership_opening(&root, &absent_zero).unwrap();
    match &nm.preimage {
        Preimage::Data(d) => assert_eq!(d, b"zero"),
        Preimage::Zero => panic!("expected the payload of the leaf on the path"),
    }
    assert!(Tree::verify_non_membership(&nm, &root, &absent_zero, b"anything else"));
    assert!(!Tree::verify_non_membership(&nm, &root, &absent_zero, b"zero"));

    // an empty tree proves non-membership with the zero preimage
    let empty = Tree::empty_tree_root();
    let nm = t.get_non_membership_opening(&empty, &k0).unwrap();
    assert!(matches!(nm.preimage, Preimage::Zero));
    assert_eq!(nm.opening.len(), 0);
    assert!(Tree::verify_non_membership(&nm, &empty, &k0, b"zero"));
}

#[test]
fn keyed_opening_reports_the_leaf_it_reaches() {
    let mut t = tree();
    let k0 = key(&[0b0000_0000], 1);
    let k1 = key(&[0b1000_0000], 2);
    let root = t.insert(Tree::empty_tree_root(), &k0, b"zero").unwrap();
    let root = t.insert(root, &k1, b"one").unwrap();
    let other = key(&[0b0111_0000], 9);
    let keyed = t.get_keyed_opening(&root, &other).unwrap();
    assert_eq!(keyed.key, Some(k0));
    assert_eq!(keyed.node, Sp1Hasher::hash(b"zero"));
    assert!(keyed.verify::<Sp1Hasher>(&root));
}

#[test]
fn prune_removes_the_subtree() {
    let mut t = tree();
    let k0 = key(&[0b0000_0000], 1);
    let k1 = key(&[0b1000_0000], 2);
    let root = t.insert(Tree::empty_tree_root(), &k0, b"zero").unwrap();
    let root = t.insert(root, &k1, b"one").unwrap();
    assert!(t.get_children(&root).unwrap().is_some());
    t.prune(&root).unwrap();
    assert!(t.get_children(&root).unwrap().is_none());
    assert_eq!(t.get_key_data(&k0), None);
    assert_eq!(t.get_key_data(&k1), None);
    assert!(!t.has_node_key(&Sp1Hasher::hash(b"zero")));
    assert!(t.get_opening(&root, &k0).unwrap().is_none());
}

#[test]
fn namespaces_separate_trees_over_one_backend() {
    let t = tree().with_namespace(b"sm1");
    let mut t = t;
    let k = key(&[0x10], 1);
    t.insert(Tree::empty_tree_root(), &k, b"payload").unwrap();
    let mut t = t.with_namespace(b"sm2");
    assert_eq!(t.get_key_data(&k), None);
    t.insert_key_data(&k, b"other");
    let t = t.with_namespace(b"sm1");
    assert_eq!(t.get_key_data(&k), Some(b"payload".to_vec()));
}

#[test]
fn compound_opening_reaches_the_inner_payload() {
    let ns = [b"sm1".as_slice(), b"sm2".as_slice()];
    let data: [&[u8]; 4] = [&[0x00, 0x00, 0x09], &[0x00, 0x00, 0x19], &[0x00, 0x00, 0x03], &[0x00, 0x00, 0x05]];
    let keys = [
        key(&[0b1000_0000], 1),
        key(&[0b1100_0000], 2),
        key(&[0b1010_0000], 3),
        key(&[0b0100_0000], 4),
    ];
    let mut roots = [Tree::empty_tree_root(); 2];

    let mut t = tree().with_namespace(ns[0]);
    roots[0] = t.insert(roots[0], &keys[0], data[0]).unwrap();
    roots[0] = t.insert(roots[0], &keys[1], data[1]).unwrap();
    let p = t.get_opening(&roots[0], &keys[1]).unwrap().unwrap();
    assert!(Tree::verify(&p, &roots[0], &keys[1], data[1]));

    let mut t = t.with_namespace(ns[1]);
    roots[1] = t.insert(roots[1], &keys[2], data[2]).unwrap();
    roots[1] = t.insert(roots[1], &keys[3], data[3]).unwrap();
    let p = t.get_opening(&roots[1], &keys[3]).unwrap().unwrap();
    assert!(Tree::verify(&p, &roots[1], &keys[3], data[3]));

    let mut t = t.with_namespace(ns[0]);
    roots[0] = t.insert_compound(roots[0], &keys[0], roots[1]).unwrap();

    let compound = CompoundOpeningBuilder::new(roots[0])
        .with_tree(ns[0], keys[0])
        .with_tree(ns[1], keys[3])
        .opening(t)
        .unwrap();
    assert_eq!(compound.trees.len(), 2);
    assert_eq!(compound.trees[0].key, keys[3]);
    assert_eq!(compound.trees[1].key, keys[0]);
    assert!(Tree::verify_compound(&compound, &roots[0], data[3]));
    assert!(!Tree::verify_compound(&compound, &roots[0], data[2]));
}

#[test]
fn malformed_children_entry_is_reported() {
    let mut t = tree();
    let node = [9u8; 32];
    let ns = t.namespace_node;
    t.d.set(&ns, &node, &[1, 2, 3]);
    assert_eq!(t.get_children(&node).unwrap_err(), SmtError::InconsistentChildren);
}

#[test]
fn malformed_leaf_key_is_reported() {
    let mut t = tree();
    let node = [7u8; 32];
    let ns = t.namespace_key;
    t.d.set(&ns, &node, &[1, 2, 3]);
    assert_eq!(t.get_node_key(&node).unwrap_err(), SmtError::InconsistentNodeKey);
}

/// Stores a chain of `levels` inner nodes above the leaf `leaf`, each with its
/// child on the left and an empty sibling on the right; returns the top node.
fn left_chain(t: &mut Tree, leaf: [u8; 32], levels: usize) -> [u8; 32] {
    let mut node = leaf;
    for _ in 0..levels {
        let children = SmtChildren {
            left: node,
            right: [0u8; 32],
        };
        let parent = children.parent::<Sp1Hasher>();
        t.insert_children(&parent, &children).unwrap();
        node = parent;
    }
    node
}

#[test]
fn descent_past_the_last_key_bit_is_refused() {
    let mut t = tree();
    let root = left_chain(&mut t, sha(b"deep leaf"), 257);
    let zero_key = [0u8; 32];
    assert_eq!(t.get_keyed_opening(&root, &zero_key).unwrap_err(), SmtError::KeyDepleted);
    assert_eq!(t.get_opening(&root, &zero_key).unwrap_err(), SmtError::KeyDepleted);
}

#[test]
fn insertion_past_the_last_key_bit_is_refused() {
    let mut t = tree();
    let root = left_chain(&mut t, sha(b"deep leaf"), 257);
    let zero_key = [0u8; 32];
    assert_eq!(t.insert(root, &zero_key, b"payload").unwrap_err(), SmtError::MaxDepth);

    let mut t = tree();
    let shallow = left_chain(&mut t, sha(b"leaf"), 3);
    assert!(t.insert(shallow, &zero_key, b"payload").is_ok());
}

#[test]
fn inserted_payload_cannot_be_shown_absent() {
    let mut t = tree();
    let k0 = key(&[0b0000_0000], 1);
    let k1 = key(&[0b1000_0000], 2);
    let root = t.insert(Tree::empty_tree_root(), &k0, b"zero").unwrap();
    let root = t.insert(root, &k1, b"one").unwrap();
    let cases: [([u8; 32], &[u8], &[u8]); 2] = [(k0, b"zero", b"one"), (k1, b"one", b"zero")];
    for (k, data, other) in cases {
        let nm = t.get_non_membership_opening(&root, &k).unwrap();
        assert!(!Tree::verify_non_membership(&nm, &root, &k, data));
        assert!(Tree::verify_non_membership(&nm, &root, &k, other));
    }
}

#[test]
fn compound_opening_fails_without_a_descent() {
    let mut t = tree().with_namespace(b"deep");
    let root = left_chain(&mut t, sha(b"deep leaf"), 257);
    let r = CompoundOpeningBuilder::new(root).with_tree(b"deep", [0u8; 32]).opening(t);
    assert_eq!(r.unwrap_err(), SmtError::KeyDepleted);
    let empty = CompoundOpeningBuilder::new([5u8; 32]).opening(tree());
    assert!(empty.unwrap().trees.is_empty());
}

#[test]
fn pruning_stops_below_the_last_level() {
    let mut t = tree();
    let root = left_chain(&mut t, sha(b"deep leaf"), 258);
    assert_eq!(t.prune(&root).unwrap_err(), SmtError::MaxDepth);

    let mut t = tree();
    let root = left_chain(&mut t, sha(b"deep leaf"), 257);
    assert!(t.prune(&root).is_ok());
    assert!(t.get_children(&root).unwrap().is_none());
}

#[test]
fn checked_tree_matches_the_default_namespaces() {
    let ns = valence::merkle::smt::DEFAULT_NAMESPACE;
    let checked = Tree::checked(MemoryBackend::new(), &ns).expect("distinct namespaces");
    let plain = tree();
    assert_eq!(checked.namespace_node, plain.namespace_node);
    assert_eq!(checked.namespace_data, plain.namespace_data);
    assert_eq!(checked.namespace_key, plain.namespace_key);
    assert_ne!(checked.namespace_node, checked.namespace_data);

    let mut t = checked;
    let k = [1u8; 32];
    let root = t.insert(Tree::empty_tree_root(), &k, b"abc").unwrap();
    assert_eq!(root, Sp1Hasher::merge(&Sp1Hasher::hash(b"abc"), &Tree::empty_tree_root()));
}

#[test]
fn pruning_a_subtree_keeps_its_sibling() {
    let mut t = tree();
    let k0 = key(&[0b0000_0000], 1);
    let k1 = key(&[0b0100_0000], 2);
    let k2 = key(&[0b1000_0000], 3);
    let root = t.insert(Tree::empty_tree_root(), &k0, b"a").unwrap();
    let root = t.insert(root, &k1, b"b").unwrap();
    let root = t.insert(root, &k2, b"c").unwrap();
    let top = t.get_children(&root).unwrap().unwrap();
    let left = top.left;
    let inner = t.get_children(&left).unwrap().unwrap();
    t.prune(&left).unwrap();
    assert!(t.get_children(&left).unwrap().is_none());
    assert!(!t.has_node_key(&inner.left));
    assert!(!t.has_node_key(&inner.right));
    assert_eq!(t.get_key_data(&k0), None);
    assert_eq!(t.get_key_data(&k1), None);
    assert_eq!(t.get_key_data(&k2), Some(b"c".to_vec()));
    assert!(t.get_children(&top.right).unwrap().is_some());
    assert!(t.has_node_key(&Sp1Hasher::hash(b"c")));
    assert!(t.get_children(&root).unwrap().is_some());
}

#[test]
fn openings_agree_with_the_keyed_opening() {
    let mut t = tree();
    let k0 = key(&[0b0000_0000], 1);
    let k1 = key(&[0b1000_0000], 2);
    let root = t.insert(Tree::empty_tree_root(), &k0, b"zero").unwrap();
    let root = t.insert(root, &k1, b"one").unwrap();

    let keyed = t.get_keyed_opening(&root, &k1).unwrap();
    let opening = t.get_opening(&root, &k1).unwrap().unwrap();
    assert_eq!(opening.path, keyed.opening.path);

    let absent = key(&[0b0111_0000], 9);
    let keyed = t.get_keyed_opening(&root, &absent).unwrap();
    assert!(t.get_opening(&root, &absent).unwrap().is_none());
    let nm = t.get_non_membership_opening(&root, &absent).unwrap();
    assert_eq!(nm.opening.path, keyed.opening.path);
    match &nm.preimage {
        Preimage::Data(d) => assert_eq!(Sp1Hasher::hash(d), keyed.node),
        Preimage::Zero => panic!("expected the payload of the reached leaf"),
    }
}

#[test]
fn deep_opening_grows_with_the_shared_prefix() {
    let mut t = tree();
    let k0 = key(&[0b1000_0000], 1);
    let k1 = key(&[0b0000_0000], 2);
    let k2 = key(&[0b1001_0000], 3);
    let d: [&[u8]; 3] = [b"zero", b"one", b"two"];

    let root = t.insert(Tree::empty_tree_root(), &k0, d[0]).unwrap();
    assert_eq!(t.get_opening(&root, &k0).unwrap().unwrap().len(), 1);

    // `k1` meets the empty left child and hangs one level below it
    let root = t.insert(root, &k1, d[1]).unwrap();
    assert_eq!(t.get_opening(&root, &k0).unwrap().unwrap().len(), 1);
    assert_eq!(t.get_opening(&root, &k1).unwrap().unwrap().len(), 2);

    // `k2` shares the first three bits of `k0`: both move down to depth four
    let root = t.insert(root, &k2, d[2]).unwrap();
    let lengths = [4, 2, 4];
    for (k, (data, len)) in [k0, k1, k2].iter().zip(d.iter().zip(lengths)) {
        let p = t.get_opening(&root, k).unwrap().unwrap();
        assert_eq!(p.len(), len);
        assert!(Tree::verify(&p, &root, k, data));
    }
}
