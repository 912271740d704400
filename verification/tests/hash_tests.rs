use hashring::hash::HashKind;
use hashring::hash::hash32;
use hashring::hash::hash_mur32;
use hashring::hash::modulo_hash;

#[test]
fn murmur_matches_reference() {
    // The library's murmur path must agree with the murmur3 crate called
    // directly; a wrapper that handed something else back would differ.
    for (s, seed) in [("hello world", 0u32), ("", 0), ("a", 7), ("0123456789abcde", 160)] {
        let direct = murmur3::murmur3_32(&mut std::io::Cursor::new(s), seed).unwrap();
        let ours = hash_mur32(&s.to_string(), seed);
        assert_eq!(ours, direct);
        assert_eq!(hash32(HashKind::Murmur32 { seed }, s.as_bytes()), direct);
    }
}

#[test]
fn sip_matches_reference() {
    // The SipHash strategy must agree with a zero-keyed SipHasher13 fed
    // the same bytes, truncated to the low 32 bits.
    for s in ["hello world", "", "a", "0123456789abcde"] {
        let mut hasher = siphasher::sip::SipHasher13::new();
        std::hash::Hasher::write(&mut hasher, s.as_bytes());
        let direct = std::hash::Hasher::finish(&hasher) as u32;
        assert_eq!(hash32(HashKind::Sip13, s.as_bytes()), direct);
    }
}

#[test]
fn hash_is_deterministic() {
    let key = b"some key";
    assert_eq!(
        hash32(HashKind::Murmur32 { seed: 5 }, key),
        hash32(HashKind::Murmur32 { seed: 5 }, key)
    );
    assert_eq!(hash32(HashKind::Sip13, key), hash32(HashKind::Sip13, key));
}

#[test]
fn seed_changes_murmur() {
    let key = b"some key";
    assert_ne!(
        hash32(HashKind::Murmur32 { seed: 0 }, key),
        hash32(HashKind::Murmur32 { seed: 1 }, key)
    );
}

#[test]
fn modulo_hash_in_range_and_formula() {
    for i in 0..50u32 {
        let file = format!("file-{}", i);
        for disks in [1u8, 2, 7, 12, 255] {
            let d = modulo_hash(&file, disks);
            assert!(d < disks);
            let h = hash_mur32(&file, 0);
            assert_eq!(d as u32, h % disks as u32);
        }
    }
}

#[test]
fn modulo_hash_is_deterministic() {
    let file = "stable".to_string();
    assert_eq!(modulo_hash(&file, 12), modulo_hash(&file, 12));
}

#[test]
fn modulo_hash_divisor_change_remaps_most_keys() {
    // The baseline has no token structure: changing the divisor remaps
    // nearly everything.
    let mut moved = 0u32;
    let total = 1000u32;
    for i in 0..total {
        let file = format!("file-{}", i);
        if modulo_hash(&file, 12) != modulo_hash(&file, 11) {
            moved += 1;
        }
    }
    assert!(moved > total / 2);
}
