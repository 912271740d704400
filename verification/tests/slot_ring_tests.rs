use hashring::RingError;
use hashring::hash::HashKind;
use hashring::slot_ring::SlotArrayRing;

const MUR: HashKind = HashKind::Murmur32 { seed: 0 };

#[test]
fn slot_build_empty_fails() {
    let nodes: Vec<(u8, u8)> = Vec::new();
    assert_eq!(
        SlotArrayRing::build(MUR, &nodes, 2).err(),
        Some(RingError::EmptyNodeSet)
    );
}

#[test]
fn build_sizes_and_fills_the_array() {
    let nodes = vec![(0u8, 4u8), (1, 4), (2, 4)];
    let ring = SlotArrayRing::build(MUR, &nodes, 3).unwrap();
    assert_eq!(ring.num_slots(), 12 * 3);
    assert_eq!(ring.occupied_slots(), 12);
    assert!(!ring.finalized_in_force());
    let mut seen = 0;
    for i in 0..ring.num_slots() {
        if ring.slot_at(i).is_some() {
            seen += 1;
        }
    }
    assert_eq!(seen, 12);
}

#[test]
fn slot_lookup_is_deterministic_and_probes() {
    let nodes = vec![(0u8, 8u8), (1, 8), (2, 8)];
    let ring = SlotArrayRing::build(MUR, &nodes, 2).unwrap();
    for i in 0..100u32 {
        let key = format!("key-{}", i);
        let first = ring.lookup(key.as_bytes());
        assert!(first.is_ok());
        assert_eq!(first, ring.lookup(key.as_bytes()));
        assert!(first.unwrap() < 3);
    }
}

#[test]
fn finalize_matches_brute_force_search() {
    // After finalize, the value at index i must equal the value at the
    // first occupied index at or after i, found by plain linear search
    // with wraparound.
    let nodes = vec![(0u8, 3u8), (1, 3), (2, 2)];
    let mut ring = SlotArrayRing::build(MUR, &nodes, 2).unwrap();
    ring.remove(1);
    assert!(ring.finalize().is_ok());
    let len = ring.num_slots();
    for i in 0..len {
        let mut expect = None;
        for step in 0..len {
            if let Some(o) = ring.slot_at((i + step) % len) {
                expect = Some(o.node);
                break;
            }
        }
        assert_eq!(Some(ring.fill_at(i)), expect);
    }
}

#[test]
fn finalize_does_not_change_lookups() {
    let nodes = vec![(0u8, 5u8), (1, 5), (2, 5), (3, 5)];
    let mut ring = SlotArrayRing::build(MUR, &nodes, 2).unwrap();
    let mut before: Vec<Result<u8, RingError>> = Vec::new();
    for i in 0..200u32 {
        let key = format!("key-{}", i);
        before.push(ring.lookup(key.as_bytes()));
    }
    assert!(ring.finalize().is_ok());
    assert!(ring.finalized_in_force());
    for i in 0..200u32 {
        let key = format!("key-{}", i);
        assert_eq!(ring.lookup(key.as_bytes()), before[i as usize]);
    }
}

#[test]
fn finalize_with_no_occupied_slot_fails() {
    let nodes = vec![(0u8, 4u8), (1, 4)];
    let mut ring = SlotArrayRing::build(MUR, &nodes, 2).unwrap();
    ring.remove(0);
    ring.remove(1);
    assert_eq!(ring.finalize().err(), Some(RingError::EmptyNodeSet));
}

#[test]
fn remove_clears_only_that_node_and_invalidates_finalize() {
    let nodes = vec![(0u8, 6u8), (1, 6)];
    let mut ring = SlotArrayRing::build(MUR, &nodes, 2).unwrap();
    assert!(ring.finalize().is_ok());
    ring.remove(0);
    assert!(!ring.finalized_in_force());
    assert_eq!(ring.occupied_slots(), 6);
    for i in 0..ring.num_slots() {
        if let Some(o) = ring.slot_at(i) {
            assert_eq!(o.node, 1);
        }
    }
    for i in 0..100u32 {
        let key = format!("key-{}", i);
        assert_eq!(ring.lookup(key.as_bytes()), Ok(1));
    }
}

#[test]
fn add_node_beyond_capacity_fails() {
    let nodes = vec![(0u8, 2u8)];
    let mut ring = SlotArrayRing::build(MUR, &nodes, 1).unwrap();
    assert_eq!(ring.num_slots(), 2);
    assert_eq!(ring.occupied_slots(), 2);
    let before: Vec<Option<hashring::slot_ring::Owner>> =
        (0..ring.num_slots()).map(|i| ring.slot_at(i)).collect();
    assert_eq!(ring.add_node(9, 1).err(), Some(RingError::CapacityExceeded));
    let after: Vec<Option<hashring::slot_ring::Owner>> =
        (0..ring.num_slots()).map(|i| ring.slot_at(i)).collect();
    assert_eq!(before, after);
}

#[test]
fn add_node_within_capacity_places_tokens() {
    let nodes = vec![(0u8, 3u8)];
    let mut ring = SlotArrayRing::build(MUR, &nodes, 3).unwrap();
    assert!(ring.finalize().is_ok());
    assert!(ring.add_node(7, 3).is_ok());
    assert!(!ring.finalized_in_force());
    assert_eq!(ring.occupied_slots(), 6);
    let mut owners = 0;
    for i in 0..ring.num_slots() {
        if let Some(o) = ring.slot_at(i) {
            if o.node == 7 {
                owners += 1;
            }
        }
    }
    assert_eq!(owners, 3);
}

#[test]
fn lookup_on_cleared_ring_is_not_found() {
    let nodes = vec![(0u8, 4u8), (1, 4)];
    let mut ring = SlotArrayRing::build(MUR, &nodes, 2).unwrap();
    ring.clear();
    assert_eq!(ring.occupied_slots(), 0);
    assert_eq!(ring.num_slots(), 16);
    assert_eq!(ring.lookup(b"anything").err(), Some(RingError::NotFound));
}

#[test]
fn insertion_never_overwrites() {
    // every placed token keeps its own slot: as many occupied slots as
    // tokens, even when hashes collide on the same start index
    let nodes = vec![(0u8, 20u8), (1, 20), (2, 20)];
    let ring = SlotArrayRing::build(MUR, &nodes, 1).unwrap();
    assert_eq!(ring.num_slots(), 60);
    assert_eq!(ring.occupied_slots(), 60);
}
