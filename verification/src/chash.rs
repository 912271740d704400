//! A ready-made disk ring.
//!
//! `MyChash` wraps a [`SortedTokenRing`] under the SipHash strategy and
//! resolves file names (strings) to disk identifiers, the way a placement
//! comparator drives it.  `add_disks` and `add_disks_missing` assemble the
//! `(disk, weight)` lists such a ring is built from.

use vstd::prelude::*;

use crate::RingError;
use crate::hash::HashKind;
use crate::sorted_ring::SortedTokenRing;
use crate::sorted_ring::build_tokens_spec;
use crate::sorted_ring::total_weight;
use crate::sorted_ring::distinct_nodes;
use crate::sorted_ring::lookup_node;
use vstd::pervasive::unreached;
use vstd::utf8::encode_utf8;

verus! {

/// The `(disk, weight)` entries appended for every disk identifier below
/// `disks`, in ascending order, skipping `missing` when it is given.
pub open spec fn disk_list(disks: u8, weight: u8, missing: Option<u8>) -> Seq<(u8, u8)>
    decreases disks,
{
    if disks == 0 {
        Seq::empty()
    } else {
        let d = (disks - 1) as u8;
        let rest = disk_list(d, weight, missing);
        if missing == Some(d) {
            rest
        } else {
            rest.push((d, weight))
        }
    }
}

/// Appends one `(disk, weight)` entry per disk identifier in `[0, disks)`.
pub fn add_disks(nodes: &mut Vec<(u8, u8)>, disks: u8, weight: u8)
    ensures
        final(nodes)@ == old(nodes)@ + disk_list(disks, weight, None),
{
    add_disks_missing(nodes, disks, weight, None);
}

/// Appends one `(disk, weight)` entry per disk identifier in `[0, disks)`,
/// leaving out the missing disk when one is given.
pub fn add_disks_missing(nodes: &mut Vec<(u8, u8)>, disks: u8, weight: u8, missing: Option<u8>)
    ensures
        final(nodes)@ == old(nodes)@ + disk_list(disks, weight, missing),
{
    let mut d: u8 = 0;
    while d < disks
        invariant
            d <= disks,
            nodes@ == old(nodes)@ + disk_list(d, weight, missing),
        decreases disks - d,
    {
        let skip = match missing {
            None => false,
            Some(mis) => mis == d,
        };
        if !skip {
            nodes.push((d, weight));
        }
        d = d + 1;
    }
}

/// A consistent-hash ring of disks: virtual-node tokens placed with the
/// SipHash strategy, queried with file names.
pub struct MyChash {
    ring: SortedTokenRing,
}

impl MyChash {
    /// The sorted-token ring inside.
    pub closed spec fn ring(&self) -> SortedTokenRing {
        self.ring
    }

    /// The ring is well-formed, hashes with the SipHash strategy, and has
    /// no failed disks.
    pub open spec fn wf(&self) -> bool {
        &&& self.ring().wf()
        &&& self.ring().kind() == (HashKind::Sip13)
        &&& self.ring().failed() == Seq::<u8>::empty()
    }

    /// Builds the ring over `(disk, weight)` pairs with distinct disk
    /// identifiers.  Fails with `EmptyNodeSet` exactly when the list is
    /// empty: no usable ring exists then.
    pub fn new(disks: Vec<(u8, u8)>) -> (r: Result<MyChash, RingError>)
        requires
            distinct_nodes(disks@),
        ensures
            r is Err <==> disks@.len() == 0,
            r is Err ==> r == Err::<MyChash, RingError>(RingError::EmptyNodeSet),
            r matches Ok(c) ==> {
                &&& c.wf()
                &&& c.ring().members() == disks@
                &&& c.ring().tokens() == build_tokens_spec(HashKind::Sip13, disks@)
                &&& c.ring().tokens().len() == total_weight(disks@)
            },
    {
        match SortedTokenRing::build(HashKind::Sip13, &disks) {
            Ok(ring) => Ok(MyChash { ring }),
            Err(e) => Err(e),
        }
    }

    /// Resolves a file name (shorter than 2^32 bytes) to the disk its
    /// hash lands on.  The ring must still hold at least one token; on a
    /// ring whose members all have weight 0 there is no disk to name.
    pub fn get_disk(&self, file: &String) -> (d: u8)
        requires
            self.wf(),
            self.ring().tokens().len() > 0,
            encode_utf8(file@).len() < 0x1_0000_0000,
        ensures
            Some(d) == lookup_node(
                self.ring().kind(),
                self.ring().tokens(),
                self.ring().failed(),
                encode_utf8(file@),
            ),
    {
        let key = file.as_str().as_bytes();
        match self.ring.lookup(key) {
            Ok(d) => d,
            Err(_) => {
                proof {
                    assert(!self.ring().failed().contains(self.ring().tokens()[0].node));
                }
                unreached()
            },
        }
    }
}

} // verus!
