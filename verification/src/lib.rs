//! Consistent-hashing rings with virtual nodes.
//!
//! The crate maps an unbounded space of byte-string keys onto a small,
//! changing set of nodes and bounds how many keys move when the node set
//! changes.  Two realizations of the ring are provided: a sorted sequence
//! of virtual-node tokens with nearest-successor lookup and a soft-fail
//! overlay ([`sorted_ring`]), and a fixed-size slot array with linear
//! probing and a gap-filling compaction pass ([`slot_ring`]).  A plain
//! modulo placement ([`hash::modulo_hash`]) serves as the baseline that
//! rings are compared against.

use vstd::prelude::*;

pub mod chash;
pub mod hash;
pub mod slot_ring;
pub mod sorted_ring;

verus! {

/// The explicit outcomes a ring operation can surface.  Rings never log or
/// retry; every failure is returned to the caller.
#[derive(Clone, Copy, Debug, PartialEq, Eq, Structural)]
pub enum RingError {
    /// Build or Finalize was asked to work with no nodes at all.
    EmptyNodeSet,
    /// Lookup could not find an eligible node (every node failed or removed).
    NotFound,
    /// The slot array has no room for the tokens it was asked to place.
    CapacityExceeded,
}

} // verus!
