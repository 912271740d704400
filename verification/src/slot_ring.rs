//! The slot-array ring.
//!
//! Tokens are placed into a fixed-size array at their hash modulo the
//! array length; an occupied slot sends the newcomer forward (wrapping)
//! to the next free slot.  A node can be removed outright, which clears
//! its slots and leaves gaps.  A finalize pass fills a shadow array so
//! that every index names the owner of the nearest occupied slot at or
//! after it (wrapping), making lookups a single array read; any later
//! membership change invalidates that pass.  Lookups on an unfinalized
//! ring probe forward from the key's index to the first occupied slot,
//! which resolves to the same owner the finalized array names.
//!
//! Unlike the sorted-token ring, removing a node and adding it back with
//! the same weight need not reproduce the earlier array: where a probed
//! token lands depends on which slots were occupied when it was placed,
//! so the round trip is explicitly not a property of this variant.

use vstd::prelude::*;

use crate::RingError;
use crate::hash::HashKind;
use crate::hash::hash32;
use crate::hash::hash32_of;
use crate::sorted_ring::token_key;
use crate::sorted_ring::total_weight;

verus! {

/// What an occupied slot stores: the owning node and the replica index
/// the token was derived from.
#[derive(Clone, Copy, Debug, PartialEq, Eq, Structural)]
pub struct Owner {
    /// The node that owns the slot.
    pub node: u8,
    /// The replica index of the token placed here.
    pub replica: u8,
}

/// How many slots of the array are occupied.
pub open spec fn count_occ(slots: Seq<Option<Owner>>) -> int
    decreases slots.len(),
{
    if slots.len() == 0 {
        0
    } else {
        count_occ(slots.drop_last()) + if slots.last() is Some {
            1int
        } else {
            0int
        }
    }
}

/// The least occupied index at or after `i`, or the array length when
/// every slot from `i` on is empty.
pub open spec fn first_occ_from(slots: Seq<Option<Owner>>, i: int) -> int
    decreases slots.len() - i,
{
    if i < 0 || i >= slots.len() {
        slots.len() as int
    } else if slots[i] is Some {
        i
    } else {
        first_occ_from(slots, i + 1)
    }
}

/// The least free index at or after `i`, or the array length when every
/// slot from `i` on is occupied.
pub open spec fn first_free_from(slots: Seq<Option<Owner>>, i: int) -> int
    decreases slots.len() - i,
{
    if i < 0 || i >= slots.len() {
        slots.len() as int
    } else if slots[i] is None {
        i
    } else {
        first_free_from(slots, i + 1)
    }
}

/// The occupied index a forward scan from `i` reaches, wrapping past the
/// end of the array; the array length when no slot is occupied at all.
pub open spec fn next_occ(slots: Seq<Option<Owner>>, i: int) -> int {
    if first_occ_from(slots, i) < slots.len() {
        first_occ_from(slots, i)
    } else {
        first_occ_from(slots, 0)
    }
}

/// The owner of the nearest occupied slot at or after `i` (wrapping), or
/// `None` when the whole array is empty.
pub open spec fn successor_owner(slots: Seq<Option<Owner>>, i: int) -> Option<Owner> {
    let j = next_occ(slots, i);
    if j < slots.len() {
        slots[j]
    } else {
        None
    }
}

/// The free index a placement probe starting at `i` lands on, wrapping
/// past the end of the array; the array length when the array is full.
pub open spec fn probe_index(slots: Seq<Option<Owner>>, i: int) -> int {
    if first_free_from(slots, i) < slots.len() {
        first_free_from(slots, i)
    } else {
        first_free_from(slots, 0)
    }
}

/// The array after one token of `o` is placed, probing from the hash of
/// its token key.
pub open spec fn place_spec(slots: Seq<Option<Owner>>, kind: HashKind, o: Owner) -> Seq<
    Option<Owner>,
> {
    let start = hash32_of(kind, token_key(o.node, o.replica)) as int % slots.len() as int;
    slots.update(probe_index(slots, start), Some(o))
}

/// The array after the first `upto` replicas of a node are placed, in
/// replica order.
pub open spec fn place_node_spec(
    slots: Seq<Option<Owner>>,
    kind: HashKind,
    node: u8,
    upto: u8,
) -> Seq<Option<Owner>>
    decreases upto,
{
    if upto == 0 {
        slots
    } else {
        let r = (upto - 1) as u8;
        place_spec(place_node_spec(slots, kind, node, r), kind, Owner { node, replica: r })
    }
}

/// The array after every node of the list has placed all of its tokens,
/// in list order.
pub open spec fn place_all_spec(
    slots: Seq<Option<Owner>>,
    kind: HashKind,
    nodes: Seq<(u8, u8)>,
) -> Seq<Option<Owner>>
    decreases nodes.len(),
{
    if nodes.len() == 0 {
        slots
    } else {
        place_node_spec(
            place_all_spec(slots, kind, nodes.drop_last()),
            kind,
            nodes.last().0,
            nodes.last().1,
        )
    }
}

/// An all-empty array of the given length.
pub open spec fn empty_slots(n: int) -> Seq<Option<Owner>> {
    Seq::new(n as nat, |i: int| None::<Owner>)
}

/// The array after every slot of the given node is cleared.
pub open spec fn clear_node(slots: Seq<Option<Owner>>, node: u8) -> Seq<Option<Owner>> {
    slots.map_values(
        |s: Option<Owner>|
            match s {
                Some(o) => if o.node == node {
                    None::<Owner>
                } else {
                    Some(o)
                },
                None => None::<Owner>,
            },
    )
}

/// The node a lookup resolves the key to: the owner of the nearest
/// occupied slot at or after the key's index, or `None` on an array with
/// no occupied slot.
pub open spec fn slot_lookup_node(
    kind: HashKind,
    slots: Seq<Option<Owner>>,
    key: Seq<u8>,
) -> Option<u8> {
    if slots.len() == 0 {
        None
    } else {
        match successor_owner(slots, hash32_of(kind, key) as int % slots.len() as int) {
            Some(o) => Some(o.node),
            None => None,
        }
    }
}

/// The occupied count stays between 0 and the length, reaches 0 exactly
/// on an all-empty array, and leaves a free slot whenever it is below the
/// length.
proof fn lemma_count_occ_props(slots: Seq<Option<Owner>>)
    ensures
        0 <= count_occ(slots) <= slots.len(),
        count_occ(slots) < slots.len() ==> exists|i: int|
            0 <= i < slots.len() && #[trigger] slots[i] is None,
        count_occ(slots) == 0 <==> (forall|i: int|
            0 <= i < slots.len() ==> #[trigger] slots[i] is None),
        count_occ(slots) > 0 ==> exists|i: int|
            0 <= i < slots.len() && #[trigger] slots[i] is Some,
    decreases slots.len(),
{
    if slots.len() > 0 {
        let ds = slots.drop_last();
        lemma_count_occ_props(ds);
        if slots.last() is None {
            assert(slots[slots.len() - 1] is None);
            if count_occ(slots) > 0 {
                let i = choose|i: int| 0 <= i < ds.len() && #[trigger] ds[i] is Some;
                assert(slots[i] is Some);
            }
        } else {
            assert(slots[slots.len() - 1] is Some);
            if count_occ(slots) < slots.len() {
                let i = choose|i: int| 0 <= i < ds.len() && #[trigger] ds[i] is None;
                assert(slots[i] is None);
            }
        }
        if count_occ(slots) == 0 {
            assert forall|i: int| 0 <= i < slots.len() implies #[trigger] slots[i] is None by {
                if i < slots.len() - 1 {
                    assert(ds[i] is None);
                }
            }
        }
        if forall|i: int| 0 <= i < slots.len() ==> #[trigger] slots[i] is None {
            assert forall|i: int| 0 <= i < ds.len() implies #[trigger] ds[i] is None by {
                assert(slots[i] is None);
            }
        }
    }
}

/// How one slot update moves the occupied count.
proof fn lemma_count_occ_update(slots: Seq<Option<Owner>>, i: int, v: Option<Owner>)
    requires
        0 <= i < slots.len(),
    ensures
        count_occ(slots.update(i, v)) == count_occ(slots) - (if slots[i] is Some {
            1int
        } else {
            0int
        }) + (if v is Some {
            1int
        } else {
            0int
        }),
    decreases slots.len(),
{
    let s2 = slots.update(i, v);
    if i == slots.len() - 1 {
        assert(s2.drop_last() =~= slots.drop_last());
    } else {
        assert(s2.drop_last() =~= slots.drop_last().update(i, v));
        lemma_count_occ_update(slots.drop_last(), i, v);
    }
}

/// `first_occ_from` finds the least occupied index at or after `i`.
proof fn lemma_first_occ_char(slots: Seq<Option<Owner>>, p: int, i: int)
    requires
        0 <= i <= p <= slots.len(),
        forall|j: int| i <= j < p ==> slots[j] is None,
        p < slots.len() ==> slots[p] is Some,
    ensures
        first_occ_from(slots, i) == p,
    decreases p - i,
{
    if i < p {
        assert(slots[i] is None);
        lemma_first_occ_char(slots, p, i + 1);
    }
}

/// `first_free_from` finds the least free index at or after `i`.
proof fn lemma_first_free_char(slots: Seq<Option<Owner>>, p: int, i: int)
    requires
        0 <= i <= p <= slots.len(),
        forall|j: int| i <= j < p ==> slots[j] is Some,
        p < slots.len() ==> slots[p] is None,
    ensures
        first_free_from(slots, i) == p,
    decreases p - i,
{
    if i < p {
        assert(slots[i] is Some);
        lemma_first_free_char(slots, p, i + 1);
    }
}

/// A ring realized as a fixed-size slot array with linear probing and a
/// finalize/compaction pass.
pub struct SlotArrayRing {
    kind: HashKind,
    slots: Vec<Option<Owner>>,
    occupied: usize,
    fill: Vec<u8>,
    finalized: bool,
}

impl SlotArrayRing {
    /// The hash strategy every token and key of this ring is hashed with.
    pub closed spec fn kind(&self) -> HashKind {
        self.kind
    }

    /// The slot array: `None` is a gap, `Some` an owned slot.
    pub closed spec fn slots_view(&self) -> Seq<Option<Owner>> {
        self.slots@
    }

    /// The compacted owner array computed by the last finalize pass.
    pub closed spec fn fill_view(&self) -> Seq<u8> {
        self.fill@
    }

    /// Whether a finalize pass is in force (no membership change since).
    pub closed spec fn is_finalized(&self) -> bool {
        self.finalized
    }

    /// The occupied-slot count the ring tracks.
    pub closed spec fn occupied_count(&self) -> int {
        self.occupied as int
    }

    /// Well-formedness: the tracked count is the real one, and while a
    /// finalize pass is in force the array has at least one occupied slot
    /// and the compacted array names, at every index, the owner of the
    /// nearest occupied slot at or after it.
    pub open spec fn wf(&self) -> bool {
        &&& self.occupied_count() == count_occ(self.slots_view())
        &&& self.is_finalized() ==> {
            &&& count_occ(self.slots_view()) > 0
            &&& self.fill_view().len() == self.slots_view().len()
            &&& forall|i: int|
                0 <= i < self.slots_view().len() ==> #[trigger] self.fill_view()[i]
                    == successor_owner(self.slots_view(), i)->Some_0.node
        }
    }

    /// The index a token of `node` and `replica` starts probing from.
    fn token_start(kind: HashKind, node: u8, replica: u8, len: usize) -> (s: usize)
        requires
            len > 0,
        ensures
            s == hash32_of(kind, token_key(node, replica)) as int % len as int,
            s < len,
    {
        let mut key: Vec<u8> = Vec::new();
        key.push(node);
        key.push(replica);
        proof {
            assert(key@ =~= token_key(node, replica));
        }
        let h = hash32(kind, key.as_slice());
        (h as usize) % len
    }

    /// Places one owner into the first free slot at or after `start`,
    /// probing forward with wraparound.  Never overwrites an occupied
    /// slot.
    fn place_token(slots: &mut Vec<Option<Owner>>, start: usize, owner: Owner)
        requires
            start < old(slots)@.len(),
            count_occ(old(slots)@) < old(slots)@.len(),
        ensures
            final(slots)@ == old(slots)@.update(
                probe_index(old(slots)@, start as int),
                Some(owner),
            ),
            0 <= probe_index(old(slots)@, start as int) < old(slots)@.len(),
            old(slots)@[probe_index(old(slots)@, start as int)] is None,
            count_occ(final(slots)@) == count_occ(old(slots)@) + 1,
    {
        let len = slots.len();
        let mut i = start;
        while i < len
            invariant
                start <= i <= len,
                len == slots@.len(),
                slots@ == old(slots)@,
                start < len,
                count_occ(slots@) < len,
                forall|j: int| start <= j < i ==> slots@[j] is Some,
            decreases len - i,
        {
            if slots[i].is_none() {
                proof {
                    lemma_first_free_char(slots@, i as int, start as int);
                    lemma_count_occ_update(slots@, i as int, Some(owner));
                }
                slots[i] = Some(owner);
                return ;
            }
            i = i + 1;
        }
        proof {
            lemma_first_free_char(slots@, len as int, start as int);
        }
        let mut k: usize = 0;
        while k < start
            invariant
                k <= start,
                start < len,
                len == slots@.len(),
                slots@ == old(slots)@,
                count_occ(slots@) < len,
                first_free_from(slots@, start as int) == len,
                forall|j: int| 0 <= j < k ==> slots@[j] is Some,
            decreases start - k,
        {
            if slots[k].is_none() {
                proof {
                    lemma_first_free_char(slots@, k as int, 0);
                    lemma_count_occ_update(slots@, k as int, Some(owner));
                }
                slots[k] = Some(owner);
                return ;
            }
            k = k + 1;
        }
        proof {
            lemma_count_occ_props(slots@);
            let w = choose|j: int| 0 <= j < slots@.len() && #[trigger] slots@[j] is None;
            if w >= start {
                lemma_first_free_le(slots@, start as int, w);
            }
            assert(false);
        }
    }

    /// Places all `weight` tokens of a node, in replica order.
    fn place_node(slots: &mut Vec<Option<Owner>>, kind: HashKind, node: u8, weight: u8)
        requires
            count_occ(old(slots)@) >= 0,
            count_occ(old(slots)@) + weight <= old(slots)@.len(),
        ensures
            final(slots)@ == place_node_spec(old(slots)@, kind, node, weight),
            final(slots)@.len() == old(slots)@.len(),
            count_occ(final(slots)@) == count_occ(old(slots)@) + weight,
    {
        let mut r: u8 = 0;
        while r < weight
            invariant
                r <= weight,
                slots@.len() == old(slots)@.len(),
                count_occ(old(slots)@) >= 0,
                count_occ(old(slots)@) + weight <= old(slots)@.len(),
                slots@ == place_node_spec(old(slots)@, kind, node, r),
                count_occ(slots@) == count_occ(old(slots)@) + r,
            decreases weight - r,
        {
            let start = Self::token_start(kind, node, r, slots.len());
            Self::place_token(slots, start, Owner { node, replica: r });
            r = r + 1;
        }
    }

    /// Builds a ring: an array of `total tokens * slots_per_token` empty
    /// slots, then every node places its tokens by hash-modulo index with
    /// forward probing.  With at least one slot per token the array can
    /// never run out of room, so the build fails only on an empty node
    /// list.
    pub fn build(kind: HashKind, nodes: &Vec<(u8, u8)>, slots_per_token: u16) -> (r: Result<
        SlotArrayRing,
        RingError,
    >)
        requires
            slots_per_token >= 1,
            total_weight(nodes@) * slots_per_token <= u32::MAX,
        ensures
            r is Err <==> nodes@.len() == 0,
            r is Err ==> r == Err::<SlotArrayRing, RingError>(RingError::EmptyNodeSet),
            r matches Ok(ring) ==> {
                &&& ring.wf()
                &&& !ring.is_finalized()
                &&& ring.kind() == kind
                &&& ring.slots_view().len() == total_weight(nodes@) * slots_per_token
                &&& ring.slots_view() == place_all_spec(
                    empty_slots(total_weight(nodes@) * slots_per_token),
                    kind,
                    nodes@,
                )
                &&& ring.occupied_count() == total_weight(nodes@)
            },
    {
        if nodes.len() == 0 {
            return Err(RingError::EmptyNodeSet);
        }
        proof {
            lemma_total_weight_nonneg(nodes@);
            assert(total_weight(nodes@) * slots_per_token >= total_weight(nodes@) * 1)
                by (nonlinear_arith)
                requires
                    slots_per_token >= 1,
                    total_weight(nodes@) >= 0,
            ;
        }
        let n_nodes = nodes.len();
        let mut total: usize = 0;
        let mut i: usize = 0;
        while i < n_nodes
            invariant
                i <= n_nodes,
                n_nodes == nodes@.len(),
                total == total_weight(nodes@.take(i as int)),
                total_weight(nodes@) <= u32::MAX,
            decreases n_nodes - i,
        {
            proof {
                assert(nodes@.take(i + 1).drop_last() =~= nodes@.take(i as int));
                assert(nodes@.take(i + 1).last() == nodes@[i as int]);
                lemma_total_weight_take(nodes@, i + 1);
            }
            total = total + nodes[i].1 as usize;
            i = i + 1;
        }
        proof {
            assert(nodes@.take(n_nodes as int) =~= nodes@);
        }
        let len = total * (slots_per_token as usize);
        if total > len {
            // pigeonhole guard: unreachable, since every token has at
            // least one slot of its own
            return Err(RingError::CapacityExceeded);
        }
        let mut slots: Vec<Option<Owner>> = Vec::new();
        let mut j: usize = 0;
        while j < len
            invariant
                j <= len,
                slots@ =~= empty_slots(j as int),
            decreases len - j,
        {
            slots.push(None);
            proof {
                assert(slots@ =~= empty_slots(j + 1));
            }
            j = j + 1;
        }
        proof {
            lemma_count_occ_props(slots@);
            assert(count_occ(slots@) == 0);
        }
        let ghost base = slots@;
        let mut k: usize = 0;
        while k < n_nodes
            invariant
                k <= n_nodes,
                n_nodes == nodes@.len(),
                slots@.len() == len,
                len == total_weight(nodes@) * slots_per_token,
                total_weight(nodes@) <= len,
                base == empty_slots(len as int),
                count_occ(base) == 0,
                slots@ == place_all_spec(base, kind, nodes@.take(k as int)),
                count_occ(slots@) == total_weight(nodes@.take(k as int)),
            decreases n_nodes - k,
        {
            let m = nodes[k];
            proof {
                assert(nodes@.take(k + 1).drop_last() =~= nodes@.take(k as int));
                assert(nodes@.take(k + 1).last() == nodes@[k as int]);
                lemma_total_weight_take(nodes@, k + 1);
                lemma_total_weight_nonneg(nodes@.take(k as int));
            }
            Self::place_node(&mut slots, kind, m.0, m.1);
            k = k + 1;
        }
        proof {
            assert(nodes@.take(n_nodes as int) =~= nodes@);
        }
        let ring = SlotArrayRing {
            kind,
            slots,
            occupied: total,
            fill: Vec::new(),
            finalized: false,
        };
        Ok(ring)
    }

    /// Adds a node of the given weight to the array.  Fails with
    /// `CapacityExceeded`, changing nothing, exactly when the free slots
    /// cannot take all of its tokens.  Success invalidates any finalize
    /// pass.
    pub fn add_node(&mut self, node: u8, weight: u8) -> (r: Result<(), RingError>)
        requires
            old(self).wf(),
        ensures
            final(self).wf(),
            final(self).kind() == old(self).kind(),
            r is Ok <==> count_occ(old(self).slots_view()) + weight
                <= old(self).slots_view().len(),
            r is Err ==> r == Err::<(), RingError>(RingError::CapacityExceeded) && *final(self)
                == *old(self),
            r is Ok ==> {
                &&& final(self).slots_view() == place_node_spec(
                    old(self).slots_view(),
                    old(self).kind(),
                    node,
                    weight,
                )
                &&& !final(self).is_finalized()
                &&& final(self).occupied_count() == old(self).occupied_count() + weight
            },
    {
        proof {
            lemma_count_occ_props(self.slots@);
        }
        if weight as usize > self.slots.len() - self.occupied {
            return Err(RingError::CapacityExceeded);
        }
        Self::place_node(&mut self.slots, self.kind, node, weight);
        self.occupied = self.occupied + weight as usize;
        self.finalized = false;
        Ok(())
    }

    /// Removes a node outright: every slot it owns is cleared to a gap.
    /// Invalidates any finalize pass.  Idempotent.
    pub fn remove(&mut self, node: u8)
        requires
            old(self).wf(),
        ensures
            final(self).wf(),
            final(self).kind() == old(self).kind(),
            !final(self).is_finalized(),
            final(self).slots_view() == clear_node(old(self).slots_view(), node),
    {
        let len = self.slots.len();
        let mut i: usize = 0;
        while i < len
            invariant
                i <= len,
                len == self.slots@.len(),
                len == old(self).slots_view().len(),
                self.kind == old(self).kind(),
                self.occupied as int == count_occ(self.slots@),
                forall|j: int|
                    0 <= j < i ==> self.slots@[j] == clear_node(old(self).slots_view(), node)[j],
                forall|j: int| i <= j < len ==> self.slots@[j] == old(self).slots_view()[j],
            decreases len - i,
        {
            let s = self.slots[i];
            let clears = match s {
                Some(o) => o.node == node,
                None => false,
            };
            if clears {
                proof {
                    lemma_count_occ_update(self.slots@, i as int, None);
                    lemma_count_occ_props(self.slots@);
                }
                self.slots[i] = None;
                self.occupied = self.occupied - 1;
            }
            i = i + 1;
        }
        self.finalized = false;
        proof {
            assert(self.slots@ =~= clear_node(old(self).slots_view(), node));
        }
    }

    /// The first occupied index of the array.
    fn find_first_occ(slots: &Vec<Option<Owner>>) -> (res: usize)
        requires
            count_occ(slots@) > 0,
        ensures
            res < slots@.len(),
            first_occ_from(slots@, 0) == res as int,
            slots@[res as int] is Some,
    {
        let len = slots.len();
        let mut i: usize = 0;
        while i < len
            invariant
                i <= len,
                len == slots@.len(),
                forall|j: int| 0 <= j < i ==> slots@[j] is None,
            decreases len - i,
        {
            if slots[i].is_some() {
                proof {
                    lemma_first_occ_char(slots@, i as int, 0);
                }
                return i;
            }
            i = i + 1;
        }
        proof {
            lemma_count_occ_props(slots@);
            assert(false);
        }
        0
    }

    /// Recomputes the compacted owner array: starting from the wrap
    /// anchor (the owner that index 0 would wrap to), one backward walk
    /// propagates the owner of each occupied slot into the gaps before
    /// it, so that afterwards every index names the owner of the nearest
    /// occupied slot at or after it.  Fails with `EmptyNodeSet`, changing
    /// nothing, exactly when no slot is occupied.
    pub fn finalize(&mut self) -> (r: Result<(), RingError>)
        requires
            old(self).wf(),
        ensures
            final(self).wf(),
            final(self).kind() == old(self).kind(),
            final(self).slots_view() == old(self).slots_view(),
            final(self).occupied_count() == old(self).occupied_count(),
            r is Ok <==> count_occ(old(self).slots_view()) > 0,
            r is Err ==> r == Err::<(), RingError>(RingError::EmptyNodeSet) && *final(self)
                == *old(self),
            r is Ok ==> final(self).is_finalized(),
    {
        if self.occupied == 0 {
            return Err(RingError::EmptyNodeSet);
        }
        let len = self.slots.len();
        let f0 = Self::find_first_occ(&self.slots);
        let w0 = match self.slots[f0] {
            Some(o) => o.node,
            None => 0,
        };
        proof {
            assert(first_occ_from(self.slots@, len as int) == len as int);
            assert(successor_owner(self.slots@, len as int)->Some_0.node == w0);
        }
        let mut rfill: Vec<u8> = Vec::new();
        let mut cur: u8 = w0;
        let mut i: usize = len;
        while i > 0
            invariant
                i <= len,
                len == self.slots@.len(),
                cur == successor_owner(self.slots@, i as int)->Some_0.node,
                rfill@.len() == len - i,
                forall|k: int|
                    0 <= k < rfill@.len() ==> rfill@[k] == successor_owner(
                        self.slots@,
                        len - 1 - k,
                    )->Some_0.node,
            decreases i,
        {
            i = i - 1;
            let s = self.slots[i];
            match s {
                Some(o) => {
                    cur = o.node;
                },
                None => {},
            }
            rfill.push(cur);
        }
        let mut fl: Vec<u8> = Vec::new();
        let mut k: usize = 0;
        while k < len
            invariant
                k <= len,
                len == self.slots@.len(),
                rfill@.len() == len,
                fl@.len() == k,
                forall|j: int|
                    0 <= j < len ==> rfill@[j] == successor_owner(
                        self.slots@,
                        len - 1 - j,
                    )->Some_0.node,
                forall|j: int|
                    0 <= j < k ==> fl@[j] == successor_owner(self.slots@, j)->Some_0.node,
            decreases len - k,
        {
            fl.push(rfill[len - 1 - k]);
            k = k + 1;
        }
        self.fill = fl;
        self.finalized = true;
        Ok(())
    }

    /// Resolves a key to a node.  On a finalized ring the answer is one
    /// array read; otherwise the scan probes forward (wrapping) from the
    /// key's index to the first occupied slot.  Both paths return the
    /// owner of the nearest occupied slot at or after the key's index,
    /// so finalizing never changes what a key resolves to.  `NotFound`
    /// comes exactly when no slot is occupied.
    pub fn lookup(&self, key: &[u8]) -> (r: Result<u8, RingError>)
        requires
            self.wf(),
            key@.len() < 0x1_0000_0000,
        ensures
            r == match slot_lookup_node(self.kind(), self.slots_view(), key@) {
                Some(n) => Ok::<u8, RingError>(n),
                None => Err::<u8, RingError>(RingError::NotFound),
            },
            (r is Ok) <==> count_occ(self.slots_view()) > 0,
    {
        let len = self.slots.len();
        if len == 0 {
            proof {
                lemma_count_occ_props(self.slots@);
            }
            return Err(RingError::NotFound);
        }
        let h = hash32(self.kind, key);
        let idx = (h as usize) % len;
        if self.finalized {
            proof {
                lemma_count_occ_props(self.slots@);
                let w = choose|j: int|
                    0 <= j < self.slots@.len() && #[trigger] self.slots@[j] is Some;
                if w >= idx {
                    lemma_first_occ_le(self.slots@, idx as int, w);
                } else {
                    lemma_first_occ_le(self.slots@, 0, w);
                }
                lemma_first_occ_sound(self.slots@, idx as int);
                lemma_first_occ_sound(self.slots@, 0);
            }
            return Ok(self.fill[idx]);
        }
        let mut i = idx;
        while i < len
            invariant
                idx <= i <= len,
                len == self.slots@.len(),
                idx < len,
                idx as int == hash32_of(self.kind(), key@) as int % len as int,
                forall|j: int| idx <= j < i ==> self.slots@[j] is None,
            decreases len - i,
        {
            let s = self.slots[i];
            match s {
                Some(o) => {
                    proof {
                        lemma_first_occ_char(self.slots@, i as int, idx as int);
                        lemma_count_occ_props(self.slots@);
                    }
                    return Ok(o.node);
                },
                None => {},
            }
            i = i + 1;
        }
        proof {
            lemma_first_occ_char(self.slots@, len as int, idx as int);
        }
        let mut k: usize = 0;
        while k < idx
            invariant
                k <= idx,
                idx < len,
                len == self.slots@.len(),
                idx as int == hash32_of(self.kind(), key@) as int % len as int,
                first_occ_from(self.slots@, idx as int) == len,
                forall|j: int| 0 <= j < k ==> self.slots@[j] is None,
            decreases idx - k,
        {
            let s = self.slots[k];
            match s {
                Some(o) => {
                    proof {
                        lemma_first_occ_char(self.slots@, k as int, 0);
                        lemma_count_occ_props(self.slots@);
                    }
                    return Ok(o.node);
                },
                None => {},
            }
            k = k + 1;
        }
        proof {
            assert forall|j: int| 0 <= j < len implies #[trigger] self.slots@[j] is None by {
                if j >= idx && self.slots@[j] is Some {
                    lemma_first_occ_le(self.slots@, idx as int, j);
                }
            }
            lemma_count_occ_props(self.slots@);
            lemma_first_occ_char(self.slots@, len as int, 0);
        }
        Err(RingError::NotFound)
    }

    /// Resets every slot to a gap without changing the array length,
    /// ready for a fresh population.
    pub fn clear(&mut self)
        requires
            old(self).wf(),
        ensures
            final(self).wf(),
            final(self).kind() == old(self).kind(),
            !final(self).is_finalized(),
            final(self).slots_view() == empty_slots(old(self).slots_view().len() as int),
            final(self).occupied_count() == 0,
    {
        let len = self.slots.len();
        let mut i: usize = 0;
        while i < len
            invariant
                i <= len,
                len == self.slots@.len(),
                self.kind == old(self).kind(),
                forall|j: int| 0 <= j < i ==> self.slots@[j] is None,
            decreases len - i,
        {
            self.slots[i] = None;
            i = i + 1;
        }
        self.occupied = 0;
        self.finalized = false;
        proof {
            assert(self.slots@ =~= empty_slots(len as int));
            lemma_count_occ_props(self.slots@);
        }
    }

    /// The number of slots in the array.
    pub fn num_slots(&self) -> (n: usize)
        ensures
            n == self.slots_view().len(),
    {
        self.slots.len()
    }

    /// The content of one slot: `None` is a gap.
    pub fn slot_at(&self, i: usize) -> (s: Option<Owner>)
        requires
            i < self.slots_view().len(),
        ensures
            s == self.slots_view()[i as int],
    {
        self.slots[i]
    }

    /// The owner the last finalize pass recorded for one index.
    pub fn fill_at(&self, i: usize) -> (n: u8)
        requires
            self.wf(),
            self.is_finalized(),
            i < self.slots_view().len(),
        ensures
            n == self.fill_view()[i as int],
    {
        self.fill[i]
    }

    /// Whether a finalize pass is in force.
    pub fn finalized_in_force(&self) -> (b: bool)
        ensures
            b == self.is_finalized(),
    {
        self.finalized
    }

    /// How many slots are occupied.
    pub fn occupied_slots(&self) -> (n: usize)
        ensures
            n as int == self.occupied_count(),
    {
        self.occupied
    }

    /// The hash strategy the ring places tokens and keys with.
    pub fn strategy(&self) -> (k: HashKind)
        ensures
            k == self.kind(),
    {
        self.kind
    }
}

/// Law: lookup is deterministic and stable.  Its contract pins every
/// result to `slot_lookup_node`, a function of the ring state and the
/// key alone, so two results of looking up one key on one unchanged
/// state are equal, whatever happened in between — and whether or not a
/// finalize pass was in force for either call.
pub proof fn lemma_slot_lookup_deterministic(
    ring: &SlotArrayRing,
    key: Seq<u8>,
    r1: Result<u8, RingError>,
    r2: Result<u8, RingError>,
)
    requires
        r1 == match slot_lookup_node(ring.kind(), ring.slots_view(), key) {
            Some(n) => Ok::<u8, RingError>(n),
            None => Err::<u8, RingError>(RingError::NotFound),
        },
        r2 == match slot_lookup_node(ring.kind(), ring.slots_view(), key) {
            Some(n) => Ok::<u8, RingError>(n),
            None => Err::<u8, RingError>(RingError::NotFound),
        },
    ensures
        r1 == r2,
{
}

/// Law: on a finalized ring, the value recorded at every index equals
/// the owner of the first occupied slot at or after that index, found by
/// a plain linear search with wraparound — so a brute-force check of the
/// compacted array against the slot array must succeed at every index.
pub proof fn lemma_finalize_brute_force(ring: &SlotArrayRing, i: int)
    requires
        ring.wf(),
        ring.is_finalized(),
        0 <= i < ring.slots_view().len(),
    ensures
        successor_owner(ring.slots_view(), i) is Some,
        ring.fill_view()[i] == successor_owner(ring.slots_view(), i)->Some_0.node,
{
    lemma_count_occ_props(ring.slots_view());
    let slots = ring.slots_view();
    let w = choose|j: int| 0 <= j < slots.len() && #[trigger] slots[j] is Some;
    if w >= i {
        lemma_first_occ_le(slots, i, w);
    } else {
        lemma_first_occ_le(slots, 0, w);
    }
    lemma_first_occ_sound(slots, i);
    lemma_first_occ_sound(slots, 0);
}

/// The total weight of a node list is never negative.
proof fn lemma_total_weight_nonneg(nodes: Seq<(u8, u8)>)
    ensures
        0 <= total_weight(nodes),
    decreases nodes.len(),
{
    if nodes.len() > 0 {
        lemma_total_weight_nonneg(nodes.drop_last());
    }
}

/// A prefix of a node list weighs no more than the whole list.
proof fn lemma_total_weight_take(nodes: Seq<(u8, u8)>, i: int)
    requires
        0 <= i <= nodes.len(),
    ensures
        total_weight(nodes.take(i)) <= total_weight(nodes),
    decreases nodes.len(),
{
    if i == nodes.len() {
        assert(nodes.take(i) =~= nodes);
    } else {
        assert(nodes.take(i) =~= nodes.drop_last().take(i));
        lemma_total_weight_take(nodes.drop_last(), i);
    }
}

/// Whatever `first_occ_from` returns below the array length is an
/// occupied index.
proof fn lemma_first_occ_sound(slots: Seq<Option<Owner>>, i: int)
    ensures
        first_occ_from(slots, i) < slots.len() ==> slots[first_occ_from(slots, i)] is Some,
    decreases slots.len() - i,
{
    if 0 <= i < slots.len() && slots[i] is None {
        lemma_first_occ_sound(slots, i + 1);
    }
}

/// An occupied slot at `w` bounds `first_occ_from` scanning from at or
/// before `w`.
proof fn lemma_first_occ_le(slots: Seq<Option<Owner>>, i: int, w: int)
    requires
        0 <= i <= w < slots.len(),
        slots[w] is Some,
    ensures
        first_occ_from(slots, i) <= w,
    decreases w - i,
{
    if i < w && slots[i] is None {
        lemma_first_occ_le(slots, i + 1, w);
    }
}

/// A free slot at `w` bounds `first_free_from` scanning from at or before
/// `w`.
proof fn lemma_first_free_le(slots: Seq<Option<Owner>>, i: int, w: int)
    requires
        0 <= i <= w < slots.len(),
        slots[w] is None,
    ensures
        first_free_from(slots, i) <= w,
    decreases w - i,
{
    if i < w && slots[i] is Some {
        lemma_first_free_le(slots, i + 1, w);
    }
}

} // verus!
