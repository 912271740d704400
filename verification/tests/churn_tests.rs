use hashring::chash::add_disks;
use hashring::chash::add_disks_missing;
use hashring::hash::HashKind;
use hashring::hash::modulo_hash;
use hashring::sorted_ring::SortedTokenRing;

/// A small fixed-seed generator of alphanumeric keys, so every run sees
/// the same key sample.
struct KeyGen {
    state: u64,
}

impl KeyGen {
    fn new(seed: u64) -> KeyGen {
        KeyGen { state: seed }
    }

    fn next_key(&mut self, len: usize) -> String {
        const ALNUM: &[u8] =
            b"ABCDEFGHIJKLMNOPQRSTUVWXYZabcdefghijklmnopqrstuvwxyz0123456789";
        let mut s = String::new();
        for _ in 0..len {
            self.state = self
                .state
                .wrapping_mul(6364136223846793005)
                .wrapping_add(1442695040888963407);
            let idx = ((self.state >> 33) % 62) as usize;
            s.push(ALNUM[idx] as char);
        }
        s
    }
}

#[test]
fn removing_one_node_remaps_about_one_nth() {
    // Consistent hashing moves roughly 1/N of the keys when one node of
    // N leaves; the modulo baseline remaps far more on the same change.
    const N: u8 = 10;
    const KEYS: u32 = 10_000;
    let kind = HashKind::Murmur32 { seed: 0 };
    let mut nodes: Vec<(u8, u8)> = Vec::new();
    add_disks(&mut nodes, N, 40);
    let full = SortedTokenRing::build(kind, &nodes).unwrap();
    let mut less = SortedTokenRing::build(kind, &nodes).unwrap();
    less.remove_node(3);

    let mut gen = KeyGen::new(42);
    let mut ring_moved = 0u32;
    let mut modulo_moved = 0u32;
    for _ in 0..KEYS {
        let key = gen.next_key(15);
        let a = full.lookup(key.as_bytes()).unwrap();
        let b = less.lookup(key.as_bytes()).unwrap();
        if a != b {
            ring_moved += 1;
        }
        if modulo_hash(&key, N) != modulo_hash(&key, N - 1) {
            modulo_moved += 1;
        }
    }
    let ideal = KEYS / N as u32;
    assert!(ring_moved >= ideal / 2, "moved {} of {}", ring_moved, KEYS);
    assert!(ring_moved <= ideal * 2, "moved {} of {}", ring_moved, KEYS);
    // far below the modulo baseline
    assert!(modulo_moved > 4 * ring_moved);
}

#[test]
fn adding_one_node_moves_about_one_n_plus_first() {
    // Adding one node to N moves roughly 1/(N+1) of the keys, and every
    // moved key lands on the new node.
    const N: u8 = 10;
    const KEYS: u32 = 10_000;
    let kind = HashKind::Murmur32 { seed: 0 };
    let mut nodes: Vec<(u8, u8)> = Vec::new();
    add_disks(&mut nodes, N, 40);
    let full = SortedTokenRing::build(kind, &nodes).unwrap();
    let mut more = SortedTokenRing::build(kind, &nodes).unwrap();
    more.add_node(N, 40);

    let mut gen = KeyGen::new(42);
    let mut moved = 0u32;
    let mut landed_on_new = 0u32;
    for _ in 0..KEYS {
        let key = gen.next_key(15);
        let a = full.lookup(key.as_bytes()).unwrap();
        let b = more.lookup(key.as_bytes()).unwrap();
        if a != b {
            moved += 1;
            assert_eq!(b, N);
        }
        if b == N {
            landed_on_new += 1;
        }
    }
    assert_eq!(moved, landed_on_new);
    let ideal = KEYS / (N as u32 + 1);
    assert!(moved >= ideal / 2, "moved {} of {}", moved, KEYS);
    assert!(moved <= ideal * 2, "moved {} of {}", moved, KEYS);
}

#[test]
fn twelve_disks_lose_one_sanity_band() {
    // 12 nodes at weight 160; 100,000 random 15-character alphanumeric
    // keys from a fixed seed; node 5 removed.  The churn count must sit
    // within [keys/12 * 0.5, keys/12 * 2].
    const DISKS: u8 = 12;
    const WEIGHT: u8 = 160;
    const KEYS: u32 = 100_000;
    let mut nodes: Vec<(u8, u8)> = Vec::new();
    add_disks(&mut nodes, DISKS, WEIGHT);
    let full = SortedTokenRing::build(HashKind::Sip13, &nodes).unwrap();
    let mut less_nodes: Vec<(u8, u8)> = Vec::new();
    add_disks_missing(&mut less_nodes, DISKS, WEIGHT, Some(5));
    let less = SortedTokenRing::build(HashKind::Sip13, &less_nodes).unwrap();

    let mut gen = KeyGen::new(7);
    let mut moved = 0u32;
    for _ in 0..KEYS {
        let key = gen.next_key(15);
        let a = full.lookup(key.as_bytes()).unwrap();
        let b = less.lookup(key.as_bytes()).unwrap();
        if a != b {
            moved += 1;
            assert_eq!(a, 5);
        }
    }
    let ideal = KEYS / DISKS as u32;
    assert!(moved >= ideal / 2, "churn {} of {}", moved, KEYS);
    assert!(moved <= ideal * 2, "churn {} of {}", moved, KEYS);
}
