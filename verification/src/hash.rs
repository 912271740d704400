//! Hash strategies.
//!
//! Every component of the crate hashes byte strings through [`hash32`],
//! which dispatches between two interchangeable strategies: a fast,
//! seedable, non-cryptographic 32-bit hash (MurmurHash3), and a keyed
//! cryptographic hash (SipHash-1-3 with a fixed all-zero key) whose 64-bit
//! output is truncated to its low 4 bytes.  Hashing is deterministic and
//! never fails for well-formed input.

use vstd::prelude::*;

verus! {

/// Selects which hash strategy a ring uses to place tokens and keys.
#[derive(Clone, Copy, Debug, PartialEq, Eq, Structural)]
pub enum HashKind {
    /// MurmurHash3, 32-bit variant, with the given seed.
    Murmur32 { seed: u32 },
    /// SipHash-1-3 with the all-zero key, truncated to the low 32 bits.
    Sip13,
}

/// The 32-bit MurmurHash3 value of a byte string under a seed.
pub uninterp spec fn murmur3_32_of(bytes: Seq<u8>, seed: u32) -> u32;

/// The 64-bit SipHash-1-3 value of a byte string under the all-zero key.
pub uninterp spec fn sip13_of(bytes: Seq<u8>) -> u64;

/// Relies on `murmur3::murmur3_32`: the result depends on the hashed bytes
/// and the seed alone.  Reading from an in-memory cursor cannot fail, so
/// the call always returns a value.  The function counts the processed
/// bytes in a `u32`, so inputs of 2^32 bytes or more are kept out: on
/// them that counter would overflow.
#[verifier::external_body]
fn murmur3_32_raw(bytes: &[u8], seed: u32) -> (r: u32)
    requires
        bytes@.len() < 0x1_0000_0000,
    ensures
        r == murmur3_32_of(bytes@, seed),
{
    murmur3::murmur3_32(&mut std::io::Cursor::new(bytes), seed).unwrap()
}

/// Relies on `siphasher::sip::SipHasher13`: `new` fixes the two keys to 0,
/// and `write` followed by `finish` computes SipHash-1-3 of exactly the
/// written bytes, so the result depends on the hashed bytes alone.
#[verifier::external_body]
fn sip13_raw(bytes: &[u8]) -> (r: u64)
    ensures
        r == sip13_of(bytes@),
{
    let mut hasher = siphasher::sip::SipHasher13::new();
    std::hash::Hasher::write(&mut hasher, bytes);
    std::hash::Hasher::finish(&hasher)
}

/// The 32-bit hash of a byte string under the chosen strategy.  The SipHash
/// strategy keeps the low 4 bytes of the 64-bit value.
pub open spec fn hash32_of(kind: HashKind, bytes: Seq<u8>) -> u32 {
    match kind {
        HashKind::Murmur32 { seed } => murmur3_32_of(bytes, seed),
        HashKind::Sip13 => sip13_of(bytes) as u32,
    }
}

/// Hashes a byte string to a 32-bit value under the chosen strategy.
/// Inputs must stay below 2^32 bytes, the murmur strategy's limit.
pub fn hash32(kind: HashKind, bytes: &[u8]) -> (r: u32)
    requires
        bytes@.len() < 0x1_0000_0000,
    ensures
        r == hash32_of(kind, bytes@),
{
    match kind {
        HashKind::Murmur32 { seed } => murmur3_32_raw(bytes, seed),
        HashKind::Sip13 => {
            let h = sip13_raw(bytes);
            #[verifier::truncate]
            (h as u32)
        },
    }
}

/// Murmur hash of a string key shorter than 2^32 bytes.  The second
/// parameter seeds the hash.
pub fn hash_mur32(item: &String, weight: u32) -> (r: u32)
    requires
        vstd::utf8::encode_utf8(item@).len() < 0x1_0000_0000,
    ensures
        r == murmur3_32_of(vstd::utf8::encode_utf8(item@), weight),
{
    murmur3_32_raw(item.as_str().as_bytes(), weight)
}

/// Baseline placement: the key's murmur hash (seed 0) reduced modulo the
/// node count.  It has no token structure, so any change of `num_disks`
/// remaps nearly every key.
pub fn modulo_hash(file: &String, num_disks: u8) -> (r: u8)
    requires
        num_disks > 0,
        vstd::utf8::encode_utf8(file@).len() < 0x1_0000_0000,
    ensures
        r < num_disks,
        r as u32 == murmur3_32_of(vstd::utf8::encode_utf8(file@), 0) % (num_disks as u32),
{
    let h = hash_mur32(file, 0);
    (h % (num_disks as u32)) as u8
}

} // verus!
