use hashring::RingError;
use hashring::chash::MyChash;
use hashring::chash::add_disks;
use hashring::chash::add_disks_missing;
use hashring::hash::HashKind;
use hashring::sorted_ring::SortedTokenRing;

fn token_set(ring: &SortedTokenRing) -> Vec<(u32, u8)> {
    let mut v: Vec<(u32, u8)> = Vec::new();
    for i in 0..ring.num_tokens() {
        let t = ring.token_at(i);
        v.push((t.hash, t.node));
    }
    v.sort();
    v.dedup();
    v
}

#[test]
fn build_empty_fails() {
    let nodes: Vec<(u8, u8)> = Vec::new();
    assert_eq!(
        SortedTokenRing::build(HashKind::Sip13, &nodes).err(),
        Some(RingError::EmptyNodeSet)
    );
}

#[test]
fn build_places_weight_tokens_per_node() {
    let nodes = vec![(0u8, 5u8), (1, 5), (2, 1)];
    let ring = SortedTokenRing::build(HashKind::Sip13, &nodes).unwrap();
    assert_eq!(ring.num_tokens(), 11);
    assert_eq!(ring.num_members(), 3);
    assert_eq!(ring.member_at(2), (2, 1));
    // tokens come out sorted by hash
    for i in 1..ring.num_tokens() {
        assert!(ring.token_at(i - 1).hash <= ring.token_at(i).hash);
    }
}

#[test]
fn lookup_is_deterministic() {
    let nodes = vec![(0u8, 8u8), (1, 8), (2, 8)];
    let ring = SortedTokenRing::build(HashKind::Murmur32 { seed: 0 }, &nodes).unwrap();
    for i in 0..100u32 {
        let key = format!("key-{}", i);
        let first = ring.lookup(key.as_bytes());
        let second = ring.lookup(key.as_bytes());
        assert!(first.is_ok());
        assert_eq!(first, second);
    }
}

#[test]
fn lookup_never_returns_failed_node() {
    let nodes = vec![(0u8, 16u8), (1, 16), (2, 16), (3, 16)];
    let mut ring = SortedTokenRing::build(HashKind::Sip13, &nodes).unwrap();
    ring.fail(2);
    ring.fail(0);
    for i in 0..500u32 {
        let key = format!("key-{}", i);
        let got = ring.lookup(key.as_bytes()).unwrap();
        assert!(got == 1 || got == 3);
    }
}

#[test]
fn lookup_all_failed_is_not_found() {
    let nodes = vec![(0u8, 4u8), (1, 4)];
    let mut ring = SortedTokenRing::build(HashKind::Sip13, &nodes).unwrap();
    ring.fail(0);
    ring.fail(1);
    assert_eq!(ring.lookup(b"anything").err(), Some(RingError::NotFound));
}

#[test]
fn fail_is_idempotent_and_recover_restores() {
    let nodes = vec![(0u8, 4u8), (1, 4)];
    let mut ring = SortedTokenRing::build(HashKind::Sip13, &nodes).unwrap();
    let before = ring.lookup(b"some file").unwrap();
    ring.fail(0);
    ring.fail(0);
    let during = ring.lookup(b"some file").unwrap();
    assert_eq!(during, 1);
    ring.recover(0);
    ring.recover(0);
    let after = ring.lookup(b"some file").unwrap();
    assert_eq!(before, after);
}

#[test]
fn fail_keeps_tokens_in_place() {
    let nodes = vec![(0u8, 4u8), (1, 4)];
    let mut ring = SortedTokenRing::build(HashKind::Sip13, &nodes).unwrap();
    let tokens_before = token_set(&ring);
    ring.fail(0);
    assert_eq!(token_set(&ring), tokens_before);
    assert_eq!(ring.num_tokens(), 8);
}

#[test]
fn remove_then_add_restores_token_set() {
    // Round trip: remove a node, re-add it with the same weight; the
    // token set is set-equal to the state before the removal.
    let nodes = vec![(0u8, 7u8), (1, 7), (2, 7), (3, 7)];
    let mut ring = SortedTokenRing::build(HashKind::Sip13, &nodes).unwrap();
    let before = token_set(&ring);
    ring.remove_node(2);
    assert!(token_set(&ring).len() < before.len());
    ring.add_node(2, 7);
    assert_eq!(token_set(&ring), before);
}

#[test]
fn remove_node_drops_only_that_node() {
    let nodes = vec![(0u8, 6u8), (1, 6), (2, 6)];
    let mut ring = SortedTokenRing::build(HashKind::Murmur32 { seed: 9 }, &nodes).unwrap();
    ring.remove_node(1);
    assert_eq!(ring.num_members(), 2);
    assert_eq!(ring.num_tokens(), 12);
    for i in 0..ring.num_tokens() {
        assert_ne!(ring.token_at(i).node, 1);
    }
    for i in 0..200u32 {
        let key = format!("key-{}", i);
        assert_ne!(ring.lookup(key.as_bytes()).unwrap(), 1);
    }
}

#[test]
fn strategies_are_interchangeable() {
    let nodes = vec![(0u8, 8u8), (1, 8), (2, 8)];
    let a = SortedTokenRing::build(HashKind::Murmur32 { seed: 0 }, &nodes).unwrap();
    let b = SortedTokenRing::build(HashKind::Sip13, &nodes).unwrap();
    assert_eq!(a.num_tokens(), b.num_tokens());
    for i in 0..50u32 {
        let key = format!("key-{}", i);
        assert!(a.lookup(key.as_bytes()).is_ok());
        assert!(b.lookup(key.as_bytes()).is_ok());
    }
}

#[test]
fn add_disks_builds_full_list() {
    let mut nodes: Vec<(u8, u8)> = Vec::new();
    add_disks(&mut nodes, 4, 9);
    assert_eq!(nodes, vec![(0, 9), (1, 9), (2, 9), (3, 9)]);
}

#[test]
fn add_disks_missing_skips_one() {
    let mut nodes: Vec<(u8, u8)> = Vec::new();
    add_disks_missing(&mut nodes, 5, 3, Some(2));
    assert_eq!(nodes, vec![(0, 3), (1, 3), (3, 3), (4, 3)]);
    let mut more: Vec<(u8, u8)> = Vec::new();
    add_disks_missing(&mut more, 3, 3, None);
    assert_eq!(more, vec![(0, 3), (1, 3), (2, 3)]);
}

#[test]
fn my_chash_empty_fails() {
    let nodes: Vec<(u8, u8)> = Vec::new();
    assert_eq!(MyChash::new(nodes).err(), Some(RingError::EmptyNodeSet));
}

#[test]
fn rebuilding_gives_an_identical_ring() {
    let nodes = vec![(0u8, 12u8), (1, 12), (2, 12), (3, 12)];
    let a = SortedTokenRing::build(HashKind::Sip13, &nodes).unwrap();
    let b = SortedTokenRing::build(HashKind::Sip13, &nodes).unwrap();
    assert_eq!(a.num_tokens(), b.num_tokens());
    assert_eq!(a.num_tokens(), 48);
    for i in 0..a.num_tokens() {
        assert_eq!(a.token_at(i), b.token_at(i));
    }
}

#[test]
fn my_chash_matches_sorted_ring() {
    let mut nodes: Vec<(u8, u8)> = Vec::new();
    add_disks(&mut nodes, 6, 10);
    let chash = MyChash::new(nodes.clone()).unwrap();
    let ring = SortedTokenRing::build(HashKind::Sip13, &nodes).unwrap();
    for i in 0..100u32 {
        let file = format!("file-{}", i);
        let d = chash.get_disk(&file);
        assert_eq!(Ok(d), ring.lookup(file.as_bytes()));
        assert_eq!(d, chash.get_disk(&file));
        assert!(d < 6);
    }
}
