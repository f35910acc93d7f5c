use valence::historical::{
    oldest_first, walk_fetches, walk_next, BulkWalk, UpdateLink, WalkFailure, WalkStep,
};

fn link(uuid: u64, root: u8, previous: u8) -> UpdateLink {
    UpdateLink { uuid, root: [root; 32], previous: [previous; 32] }
}

#[test]
fn walk_goes_back_to_the_first_update() {
    let from = link(2, 2, 1);
    let to = link(4, 4, 3);
    assert!(walk_fetches(&from, &to));
    assert!(!walk_fetches(&to, &from));
    match walk_next(&from, &to, Some(link(3, 3, 2))) {
        WalkStep::Continue(u) => assert_eq!(u.root, [3u8; 32]),
        other => panic!("unexpected step {other:?}"),
    }
    assert!(matches!(walk_next(&from, &from, None), WalkStep::Stop));
    assert!(matches!(walk_next(&from, &to, None), WalkStep::Fail));
}

#[test]
fn proofs_come_oldest_first() {
    assert_eq!(oldest_first(vec![3, 2, 1]), vec![1, 2, 3]);
    assert_eq!(oldest_first(Vec::<u8>::new()), Vec::<u8>::new());
}

#[test]
fn bulk_walk_collects_the_interval_oldest_first() {
    // the history: 1 <- 2 <- 3 <- 4 (each update names the root before it)
    let history = [link(1, 1, 0), link(2, 2, 1), link(3, 3, 2), link(4, 4, 3)];
    let lookup = |root: [u8; 32]| history.iter().copied().find(|u| u.root == root);
    let from = history[1];
    let mut walk: BulkWalk<u8> = BulkWalk::new(from, history[3]);
    while let Some(root) = walk.next_root() {
        let current = lookup(root).unwrap();
        walk.record(root[0], lookup(current.previous)).unwrap();
    }
    assert_eq!(walk.finish(), vec![2, 3, 4]);
}

#[test]
fn bulk_walk_stops_at_the_first_update_and_fails_on_a_gap() {
    let from = link(2, 2, 1);
    let mut walk: BulkWalk<u8> = BulkWalk::new(from, from);
    assert_eq!(walk.next_root(), Some([2u8; 32]));
    assert_eq!(walk.record(2, None), Ok(()));
    assert_eq!(walk.next_root(), None);
    assert_eq!(walk.finish(), vec![2]);

    let mut walk: BulkWalk<u8> = BulkWalk::new(from, link(4, 4, 3));
    assert_eq!(walk.record(4, None), Err(WalkFailure::Broken));
    assert_eq!(walk.next_root(), None);

    let walk: BulkWalk<u8> = BulkWalk::new(link(5, 5, 4), link(4, 4, 3));
    assert_eq!(walk.next_root(), None);
}
