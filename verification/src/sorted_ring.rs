//! The sorted-token ring.
//!
//! Each node of weight `w` owns `w` virtual tokens, each placed at the hash
//! of a two-byte token key (the node identifier followed by the replica
//! index).  The ring keeps every token in a sequence sorted ascending by
//! hash value, together with an overlay set of failed node identifiers.  A
//! key resolves to the first token at or after the key's hash (wrapping to
//! the start of the sequence) whose node is not failed.  Failing a node
//! never removes tokens: it is a soft, instantly reversible exclusion.

use vstd::prelude::*;

use crate::RingError;
use crate::hash::HashKind;
use crate::hash::hash32;
use crate::hash::hash32_of;

verus! {

/// One virtual replica of a node, placed at a hash-derived ring position.
#[derive(Clone, Copy, Debug, PartialEq, Eq, Structural)]
pub struct Token {
    /// The ring position of this replica.
    pub hash: u32,
    /// The node that owns this replica.
    pub node: u8,
}

/// The two-byte key from which a token's ring position is derived: the
/// node identifier followed by the replica index.
pub open spec fn token_key(node: u8, replica: u8) -> Seq<u8> {
    seq![node, replica]
}

/// The ring position of replica `replica` of node `node`.
pub open spec fn token_hash_of(kind: HashKind, node: u8, replica: u8) -> u32 {
    hash32_of(kind, token_key(node, replica))
}

/// The set of tokens owned by a node of the given weight: one token per
/// replica index in `[0, weight)`.
pub open spec fn tokens_of_node(kind: HashKind, node: u8, weight: u8) -> Set<Token>
    decreases weight,
{
    if weight == 0 {
        Set::empty()
    } else {
        let r = (weight - 1) as u8;
        tokens_of_node(kind, node, r).insert(Token { hash: token_hash_of(kind, node, r), node })
    }
}

/// The tokens owned by all members of the list together, where a member is
/// a `(node identifier, weight)` pair.
pub open spec fn members_token_set(kind: HashKind, members: Seq<(u8, u8)>) -> Set<Token>
    decreases members.len(),
{
    if members.len() == 0 {
        Set::empty()
    } else {
        members_token_set(kind, members.drop_last()).union(
            tokens_of_node(kind, members.last().0, members.last().1),
        )
    }
}

/// Ascending (non-strict) order by hash value.
pub open spec fn sorted_by_hash(tokens: Seq<Token>) -> bool {
    forall|i: int, j: int| 0 <= i <= j < tokens.len() ==> tokens[i].hash <= tokens[j].hash
}

/// Strictly ascending order; such a sequence holds no duplicates, so it
/// can serve as a set with binary-search membership tests.
pub open spec fn sorted_strict(s: Seq<u8>) -> bool {
    forall|i: int, j: int| 0 <= i < j < s.len() ==> s[i] < s[j]
}

/// No two members share a node identifier.
pub open spec fn distinct_nodes(members: Seq<(u8, u8)>) -> bool {
    forall|i: int, j: int| 0 <= i < j < members.len() ==> members[i].0 != members[j].0
}

/// The node of the first candidate token whose node is not failed, if any.
pub open spec fn first_eligible(cands: Seq<Token>, failed: Seq<u8>) -> Option<u8>
    decreases cands.len(),
{
    if cands.len() == 0 {
        None
    } else if !failed.contains(cands[0].node) {
        Some(cands[0].node)
    } else {
        first_eligible(cands.drop_first(), failed)
    }
}

/// The least index at or after `i` whose token hash is at or after `h`,
/// wrapping to index 0 when no such index exists.
pub open spec fn start_index_from(tokens: Seq<Token>, h: u32, i: int) -> int
    decreases tokens.len() - i,
{
    if i < 0 || i >= tokens.len() {
        0
    } else if tokens[i].hash >= h {
        i
    } else {
        start_index_from(tokens, h, i + 1)
    }
}

/// Where a lookup for a key hashing to `h` starts scanning: the least
/// index whose token hash is at or after `h`, or 0 when every token hash
/// is below `h` (the ring wraps).
pub open spec fn start_index(tokens: Seq<Token>, h: u32) -> int {
    start_index_from(tokens, h, 0)
}

/// The candidate order of a lookup that starts at `start`: the tokens from
/// `start` to the end, then the tokens before `start`.
pub open spec fn rotation(tokens: Seq<Token>, start: int) -> Seq<Token> {
    tokens.subrange(start, tokens.len() as int) + tokens.subrange(0, start)
}

/// The node a lookup resolves the key to on a ring in the given state, or
/// `None` when every candidate token belongs to a failed node.
pub open spec fn lookup_node(
    kind: HashKind,
    tokens: Seq<Token>,
    failed: Seq<u8>,
    key: Seq<u8>,
) -> Option<u8> {
    first_eligible(rotation(tokens, start_index(tokens, hash32_of(kind, key))), failed)
}

/// The least index at or after `i` whose token hash is strictly above
/// `h`, or the sequence length when there is none: the position where a
/// new token hashing to `h` is inserted, after every token at or below
/// it.
pub open spec fn upper_index_from(tokens: Seq<Token>, h: u32, i: int) -> int
    decreases tokens.len() - i,
{
    if i < 0 || i >= tokens.len() {
        tokens.len() as int
    } else if tokens[i].hash > h {
        i
    } else {
        upper_index_from(tokens, h, i + 1)
    }
}

/// A token sequence with one more token, inserted at its sorted
/// position: after every token whose hash is at or below its own.
pub open spec fn sorted_insert(tokens: Seq<Token>, t: Token) -> Seq<Token> {
    tokens.insert(upper_index_from(tokens, t.hash, 0), t)
}

/// The token sequence after the first `upto` replicas of a node are
/// inserted, in replica order.
pub open spec fn place_tokens_spec(
    tokens: Seq<Token>,
    kind: HashKind,
    node: u8,
    upto: u8,
) -> Seq<Token>
    decreases upto,
{
    if upto == 0 {
        tokens
    } else {
        let r = (upto - 1) as u8;
        sorted_insert(
            place_tokens_spec(tokens, kind, node, r),
            Token { hash: token_hash_of(kind, node, r), node },
        )
    }
}

/// The token sequence a build produces: every member's tokens inserted
/// in list order.  Two rings built over the same list with the same
/// strategy hold identical token sequences.
pub open spec fn build_tokens_spec(kind: HashKind, members: Seq<(u8, u8)>) -> Seq<Token>
    decreases members.len(),
{
    if members.len() == 0 {
        Seq::empty()
    } else {
        place_tokens_spec(
            build_tokens_spec(kind, members.drop_last()),
            kind,
            members.last().0,
            members.last().1,
        )
    }
}

/// The sum of the weights of a member list: how many tokens it owns,
/// replicas counted separately.
pub open spec fn total_weight(nodes: Seq<(u8, u8)>) -> int
    decreases nodes.len(),
{
    if nodes.len() == 0 {
        0
    } else {
        total_weight(nodes.drop_last()) + nodes.last().1
    }
}

/// `upper_index_from` stays within `[i, len]`.
proof fn lemma_upper_index_bounds(tokens: Seq<Token>, h: u32, i: int)
    requires
        0 <= i <= tokens.len(),
    ensures
        i <= upper_index_from(tokens, h, i) <= tokens.len(),
    decreases tokens.len() - i,
{
    if i < tokens.len() && tokens[i].hash <= h {
        lemma_upper_index_bounds(tokens, h, i + 1);
    }
}

/// `upper_index_from` finds the least index at or after `i` whose token
/// hash is strictly above `h`.
proof fn lemma_upper_index_char(tokens: Seq<Token>, h: u32, p: int, i: int)
    requires
        0 <= i <= p <= tokens.len(),
        forall|j: int| i <= j < p ==> tokens[j].hash <= h,
        p < tokens.len() ==> tokens[p].hash > h,
    ensures
        upper_index_from(tokens, h, i) == p,
    decreases p - i,
{
    if i < p {
        assert(tokens[i].hash <= h);
        lemma_upper_index_char(tokens, h, p, i + 1);
    }
}

/// Inserting `upto` replicas grows the sequence by exactly `upto`.
proof fn lemma_place_tokens_len(tokens: Seq<Token>, kind: HashKind, node: u8, upto: u8)
    ensures
        place_tokens_spec(tokens, kind, node, upto).len() == tokens.len() + upto,
    decreases upto,
{
    if upto > 0 {
        let r = (upto - 1) as u8;
        lemma_place_tokens_len(tokens, kind, node, r);
        let prev = place_tokens_spec(tokens, kind, node, r);
        let t = Token { hash: token_hash_of(kind, node, r), node };
        lemma_upper_index_bounds(prev, t.hash, 0);
        prev.insert_ensures(upper_index_from(prev, t.hash, 0), t);
    }
}

/// A build's token sequence holds exactly the total weight of tokens.
proof fn lemma_build_tokens_len(kind: HashKind, members: Seq<(u8, u8)>)
    ensures
        build_tokens_spec(kind, members).len() == total_weight(members),
    decreases members.len(),
{
    if members.len() > 0 {
        let ds = members.drop_last();
        lemma_build_tokens_len(kind, ds);
        lemma_place_tokens_len(build_tokens_spec(kind, ds), kind, members.last().0, members.last().1);
    }
}

/// The member list without every entry of the given node.
pub open spec fn drop_member(members: Seq<(u8, u8)>, node: u8) -> Seq<(u8, u8)>
    decreases members.len(),
{
    if members.len() == 0 {
        members
    } else {
        let rest = drop_member(members.drop_last(), node);
        if members.last().0 == node {
            rest
        } else {
            rest.push(members.last())
        }
    }
}

/// The token sequence without every token of the given node, order kept.
pub open spec fn drop_node_tokens(tokens: Seq<Token>, node: u8) -> Seq<Token>
    decreases tokens.len(),
{
    if tokens.len() == 0 {
        tokens
    } else {
        let rest = drop_node_tokens(tokens.drop_last(), node);
        if tokens.last().node == node {
            rest
        } else {
            rest.push(tokens.last())
        }
    }
}

/// The set of all tokens owned by the given node, whatever their position.
pub open spec fn node_token_set(node: u8) -> Set<Token> {
    Set::new(|t: Token| t.node == node)
}

/// What `drop_node_tokens` keeps: exactly the tokens of other nodes, still
/// sorted if the input was.
proof fn lemma_drop_node_tokens_props(tokens: Seq<Token>, node: u8)
    ensures
        forall|t: Token|
            #![trigger drop_node_tokens(tokens, node).contains(t)]
            #![trigger tokens.contains(t)]
            drop_node_tokens(tokens, node).contains(t) <==> tokens.contains(t) && t.node != node,
        sorted_by_hash(tokens) ==> sorted_by_hash(drop_node_tokens(tokens, node)),
    decreases tokens.len(),
{
    if tokens.len() > 0 {
        let ds = tokens.drop_last();
        let l = tokens.last();
        lemma_drop_node_tokens_props(ds, node);
        let d = drop_node_tokens(tokens, node);
        let dd = drop_node_tokens(ds, node);
        assert forall|t: Token| d.contains(t) implies tokens.contains(t) && t.node != node by {
            let i = choose|i: int| 0 <= i < d.len() && d[i] == t;
            if l.node == node || i < d.len() - 1 {
                assert(dd[i] == t);
                assert(ds.contains(t));
                let j = choose|j: int| 0 <= j < ds.len() && ds[j] == t;
                assert(tokens[j] == t);
            } else {
                assert(t == l);
                assert(tokens[tokens.len() - 1] == t);
            }
        }
        assert forall|t: Token| tokens.contains(t) && t.node != node implies d.contains(t) by {
            let i = choose|i: int| 0 <= i < tokens.len() && tokens[i] == t;
            if i < tokens.len() - 1 {
                assert(ds[i] == t);
                assert(ds.contains(t));
                assert(dd.contains(t));
                let j = choose|j: int| 0 <= j < dd.len() && dd[j] == t;
                assert(d[j] == t);
            } else {
                assert(t == l);
                assert(d[d.len() - 1] == t);
            }
        }
        if sorted_by_hash(tokens) {
            assert(sorted_by_hash(ds));
            if l.node != node {
                assert forall|i: int, j: int| 0 <= i <= j < d.len() implies d[i].hash
                    <= d[j].hash by {
                    if j < d.len() - 1 {
                        assert(d[i] == dd[i] && d[j] == dd[j]);
                    } else if i < d.len() - 1 {
                        assert(d[i] == dd[i]);
                        assert(dd[i] == dd[i as int]);
                        assert(dd.contains(dd[i]));
                        assert(ds.contains(dd[i]));
                        let k = choose|k: int| 0 <= k < ds.len() && ds[k] == dd[i];
                        assert(tokens[k] == ds[k]);
                        assert(tokens[k].hash <= l.hash);
                    }
                }
            }
        }
    }
}

/// What `drop_member` keeps: exactly the members of other nodes, their
/// identifiers still pairwise distinct if they were.
proof fn lemma_drop_member_props(members: Seq<(u8, u8)>, node: u8)
    ensures
        forall|m: (u8, u8)|
            #![trigger drop_member(members, node).contains(m)]
            #![trigger members.contains(m)]
            drop_member(members, node).contains(m) <==> members.contains(m) && m.0 != node,
        distinct_nodes(members) ==> distinct_nodes(drop_member(members, node)),
    decreases members.len(),
{
    if members.len() > 0 {
        let ds = members.drop_last();
        let l = members.last();
        lemma_drop_member_props(ds, node);
        let d = drop_member(members, node);
        let dd = drop_member(ds, node);
        assert forall|m: (u8, u8)| d.contains(m) implies members.contains(m) && m.0 != node by {
            let i = choose|i: int| 0 <= i < d.len() && d[i] == m;
            if l.0 == node || i < d.len() - 1 {
                assert(dd[i] == m);
                assert(ds.contains(m));
                let j = choose|j: int| 0 <= j < ds.len() && ds[j] == m;
                assert(members[j] == m);
            } else {
                assert(m == l);
                assert(members[members.len() - 1] == m);
            }
        }
        assert forall|m: (u8, u8)| members.contains(m) && m.0 != node implies d.contains(m) by {
            let i = choose|i: int| 0 <= i < members.len() && members[i] == m;
            if i < members.len() - 1 {
                assert(ds[i] == m);
                assert(dd.contains(m));
                let j = choose|j: int| 0 <= j < dd.len() && dd[j] == m;
                assert(d[j] == m);
            } else {
                assert(m == l);
                assert(d[d.len() - 1] == m);
            }
        }
        if distinct_nodes(members) {
            assert(distinct_nodes(ds));
            if l.0 != node {
                assert forall|i: int, j: int| 0 <= i < j < d.len() implies d[i].0 != d[j].0 by {
                    if j < d.len() - 1 {
                        assert(d[i] == dd[i] && d[j] == dd[j]);
                    } else {
                        assert(d[i] == dd[i]);
                        assert(dd.contains(dd[i]));
                        assert(ds.contains(dd[i]));
                        let k = choose|k: int| 0 <= k < ds.len() && ds[k] == dd[i];
                        assert(members[k].0 != l.0);
                    }
                }
            }
        }
    }
}

/// Every token a node list owns carries the identifier of one of its
/// members.
proof fn lemma_tokens_of_node_owner(kind: HashKind, node: u8, weight: u8)
    ensures
        forall|t: Token| #[trigger] tokens_of_node(kind, node, weight).contains(t) ==> t.node
            == node,
    decreases weight,
{
    if weight > 0 {
        let r = (weight - 1) as u8;
        lemma_tokens_of_node_owner(kind, node, r);
        assert forall|t: Token|
            #[trigger] tokens_of_node(kind, node, weight).contains(t) implies t.node == node by {
            if tokens_of_node(kind, node, r).contains(t) {
            } else {
                assert(t == Token { hash: token_hash_of(kind, node, r), node });
            }
        }
    }
}

/// Dropping a member's entries from the list drops exactly that node's
/// tokens from the owned set.
proof fn lemma_mts_drop_member(kind: HashKind, members: Seq<(u8, u8)>, node: u8)
    ensures
        members_token_set(kind, drop_member(members, node)) =~= members_token_set(
            kind,
            members,
        ).difference(node_token_set(node)),
    decreases members.len(),
{
    if members.len() > 0 {
        let ds = members.drop_last();
        let l = members.last();
        lemma_mts_drop_member(kind, ds, node);
        lemma_tokens_of_node_owner(kind, l.0, l.1);
        if l.0 != node {
            let rest = drop_member(ds, node);
            assert(drop_member(members, node) == rest.push(l));
            assert(rest.push(l).drop_last() =~= rest);
            assert(members_token_set(kind, rest.push(l)) == members_token_set(kind, rest).union(
                tokens_of_node(kind, l.0, l.1),
            ));
        }
    }
}

/// A member's own tokens are among the tokens its list owns.
proof fn lemma_mts_member_tokens(kind: HashKind, members: Seq<(u8, u8)>, k: int)
    requires
        0 <= k < members.len(),
    ensures
        tokens_of_node(kind, members[k].0, members[k].1).subset_of(
            members_token_set(kind, members),
        ),
    decreases members.len(),
{
    if k < members.len() - 1 {
        lemma_mts_member_tokens(kind, members.drop_last(), k);
    }
}

/// In a list of distinct members, the tokens owned that carry a given
/// member's identifier are exactly that member's own tokens.
proof fn lemma_mts_node_part(kind: HashKind, members: Seq<(u8, u8)>, node: u8, weight: u8)
    requires
        distinct_nodes(members),
        members.contains((node, weight)),
    ensures
        members_token_set(kind, members).intersect(node_token_set(node)) =~= tokens_of_node(
            kind,
            node,
            weight,
        ),
    decreases members.len(),
{
    let ds = members.drop_last();
    let l = members.last();
    let i = choose|i: int| 0 <= i < members.len() && members[i] == (node, weight);
    lemma_tokens_of_node_owner(kind, l.0, l.1);
    let whole = members_token_set(kind, members).intersect(node_token_set(node));
    let own = tokens_of_node(kind, node, weight);
    if l.0 == node {
        assert(i == members.len() - 1);
        assert(l == (node, weight));
        lemma_mts_owner_free(kind, ds, node);
        assert forall|t: Token| whole.contains(t) implies own.contains(t) by {
            if members_token_set(kind, ds).contains(t) {
                assert(members_token_set(kind, ds).intersect(node_token_set(node)).contains(t));
            }
        }
        assert forall|t: Token| own.contains(t) implies whole.contains(t) by {
            assert(t.node == node);
        }
    } else {
        assert(members[i] == ds[i]);
        assert(ds.contains((node, weight)));
        assert(distinct_nodes(ds));
        lemma_mts_node_part(kind, ds, node, weight);
        let part = members_token_set(kind, ds).intersect(node_token_set(node));
        assert forall|t: Token| whole.contains(t) implies own.contains(t) by {
            if tokens_of_node(kind, l.0, l.1).contains(t) {
                assert(t.node == l.0);
            } else {
                assert(part.contains(t));
            }
        }
        assert forall|t: Token| own.contains(t) implies whole.contains(t) by {
            assert(part.contains(t));
        }
    }
}

/// A list with no member of the given node owns no token of that node.
proof fn lemma_mts_owner_free(kind: HashKind, members: Seq<(u8, u8)>, node: u8)
    requires
        forall|i: int| 0 <= i < members.len() ==> members[i].0 != node,
    ensures
        members_token_set(kind, members).intersect(node_token_set(node)) =~= Set::<Token>::empty(),
    decreases members.len(),
{
    if members.len() > 0 {
        let l = members.last();
        lemma_mts_owner_free(kind, members.drop_last(), node);
        lemma_tokens_of_node_owner(kind, l.0, l.1);
    }
}

/// `start_index_from` stays inside the token sequence whenever the
/// sequence is not empty.
proof fn lemma_start_index_bounds(tokens: Seq<Token>, h: u32, i: int)
    requires
        0 <= i,
    ensures
        0 <= start_index_from(tokens, h, i),
        tokens.len() > 0 ==> start_index_from(tokens, h, i) < tokens.len(),
    decreases tokens.len() - i,
{
    if 0 <= i < tokens.len() && tokens[i].hash < h {
        lemma_start_index_bounds(tokens, h, i + 1);
    }
}

/// `start_index_from` finds the least index at or after `i` whose token
/// hash is at or after `h`, and wraps to 0 when there is none.
proof fn lemma_start_index_char(tokens: Seq<Token>, h: u32, p: int, i: int)
    requires
        0 <= i <= p <= tokens.len(),
        forall|j: int| i <= j < p ==> tokens[j].hash < h,
        p < tokens.len() ==> tokens[p].hash >= h,
    ensures
        start_index_from(tokens, h, i) == if p < tokens.len() {
            p
        } else {
            0
        },
    decreases p - i,
{
    if i < p {
        assert(tokens[i].hash < h);
        lemma_start_index_char(tokens, h, p, i + 1);
    }
}

/// Skipping a prefix of candidates that are all failed does not change
/// which node is the first eligible one.
proof fn lemma_first_eligible_skip(cands: Seq<Token>, failed: Seq<u8>, k: int)
    requires
        0 <= k <= cands.len(),
        forall|j: int| 0 <= j < k ==> failed.contains(cands[j].node),
    ensures
        first_eligible(cands, failed) == first_eligible(cands.skip(k), failed),
    decreases k,
{
    if k == 0 {
        assert(cands.skip(0) =~= cands);
    } else {
        assert(failed.contains(cands[0].node));
        let rest = cands.drop_first();
        assert(forall|j: int| 0 <= j < k - 1 ==> failed.contains(rest[j].node));
        lemma_first_eligible_skip(rest, failed, k - 1);
        assert(rest.skip(k - 1) =~= cands.skip(k));
    }
}

/// The first eligible candidate is `None` exactly when every candidate's
/// node is failed, and a `Some` result names an unfailed node that stands
/// somewhere in the candidate sequence.
proof fn lemma_first_eligible_props(cands: Seq<Token>, failed: Seq<u8>)
    ensures
        first_eligible(cands, failed) is None <==> (forall|j: int|
            0 <= j < cands.len() ==> failed.contains(#[trigger] cands[j].node)),
        first_eligible(cands, failed) matches Some(n) ==> !failed.contains(n) && exists|j: int|
            0 <= j < cands.len() && (#[trigger] cands[j]).node == n,
    decreases cands.len(),
{
    if cands.len() == 0 {
    } else if !failed.contains(cands[0].node) {
        assert(cands[0].node == first_eligible(cands, failed)->Some_0);
    } else {
        let rest = cands.drop_first();
        lemma_first_eligible_props(rest, failed);
        if first_eligible(cands, failed) is None {
            assert forall|j: int| 0 <= j < cands.len() implies failed.contains(
                #[trigger] cands[j].node,
            ) by {
                if j > 0 {
                    assert(rest[j - 1] == cands[j]);
                }
            }
        } else {
            let n = first_eligible(cands, failed)->Some_0;
            let j = choose|j: int| 0 <= j < rest.len() && (#[trigger] rest[j]).node == n;
            assert(cands[j + 1].node == n);
        }
    }
}

/// How the candidate rotation indexes back into the token sequence.
proof fn lemma_rotation_index(tokens: Seq<Token>, s: int)
    requires
        0 <= s <= tokens.len(),
    ensures
        rotation(tokens, s).len() == tokens.len(),
        forall|k: int|
            0 <= k < tokens.len() - s ==> rotation(tokens, s)[k] == tokens[s + k],
        forall|k: int|
            tokens.len() - s <= k < tokens.len() ==> rotation(tokens, s)[k] == tokens[k - (
            tokens.len() - s)],
{
}

/// Inserting into a sequence adds exactly one element to the set of its
/// elements.
proof fn lemma_insert_to_set<A>(s: Seq<A>, pos: int, a: A)
    requires
        0 <= pos <= s.len(),
    ensures
        s.insert(pos, a).to_set() =~= s.to_set().insert(a),
{
    let s2 = s.insert(pos, a);
    s.insert_ensures(pos, a);
    assert forall|x: A| s2.contains(x) implies s.contains(x) || x == a by {
        let i = choose|i: int| 0 <= i < s2.len() && s2[i] == x;
        if i < pos {
            assert(s[i] == x);
        } else if i > pos {
            assert(s[i - 1] == x);
        }
    }
    assert forall|x: A| s.contains(x) implies s2.contains(x) by {
        let i = choose|i: int| 0 <= i < s.len() && s[i] == x;
        if i < pos {
            assert(s2[i] == x);
        } else {
            assert(s2[i + 1] == x);
        }
    }
    assert(s2.contains(a)) by {
        assert(s2[pos] == a);
    }
}

/// Removing one position of a duplicate-free sequence removes exactly that
/// element from the set of its elements.
proof fn lemma_remove_to_set<A>(s: Seq<A>, pos: int)
    requires
        0 <= pos < s.len(),
        s.no_duplicates(),
    ensures
        s.remove(pos).to_set() =~= s.to_set().remove(s[pos]),
{
    let s2 = s.remove(pos);
    s.remove_ensures(pos);
    assert forall|x: A| s2.contains(x) implies s.contains(x) && x != s[pos] by {
        let i = choose|i: int| 0 <= i < s2.len() && s2[i] == x;
        if i < pos {
            assert(s[i] == x);
        } else {
            assert(s[i + 1] == x);
        }
    }
    assert forall|x: A| s.contains(x) && x != s[pos] implies s2.contains(x) by {
        let i = choose|i: int| 0 <= i < s.len() && s[i] == x;
        if i < pos {
            assert(s2[i] == x);
        } else {
            assert(s2[i - 1] == x);
        }
    }
}

/// A ring of virtual-node tokens kept sorted by hash value, with a soft
/// overlay of failed nodes.
pub struct SortedTokenRing {
    kind: HashKind,
    members: Vec<(u8, u8)>,
    tokens: Vec<Token>,
    failed: Vec<u8>,
}

impl SortedTokenRing {
    /// The hash strategy every token and key of this ring is hashed with.
    pub closed spec fn kind(&self) -> HashKind {
        self.kind
    }

    /// The `(node identifier, weight)` pairs the ring was populated with,
    /// in insertion order.
    pub closed spec fn members(&self) -> Seq<(u8, u8)> {
        self.members@
    }

    /// The token sequence, sorted ascending by hash value.
    pub closed spec fn tokens(&self) -> Seq<Token> {
        self.tokens@
    }

    /// The overlay of failed node identifiers, sorted ascending.
    pub closed spec fn failed(&self) -> Seq<u8> {
        self.failed@
    }

    /// Well-formedness: tokens sorted by hash, the failed overlay a sorted
    /// set, member node identifiers unique, and the token sequence holding
    /// exactly the tokens that the member list owns.
    pub open spec fn wf(&self) -> bool {
        &&& sorted_by_hash(self.tokens())
        &&& sorted_strict(self.failed())
        &&& distinct_nodes(self.members())
        &&& self.tokens().to_set() == members_token_set(self.kind(), self.members())
    }

    /// A ring with no members and no failed nodes; populate it with
    /// [`Self::add_node`].
    pub fn empty(kind: HashKind) -> (r: SortedTokenRing)
        ensures
            r.wf(),
            r.kind() == kind,
            r.members() == Seq::<(u8, u8)>::empty(),
            r.tokens() == Seq::<Token>::empty(),
            r.failed() == Seq::<u8>::empty(),
    {
        let r = SortedTokenRing { kind, members: Vec::new(), tokens: Vec::new(), failed: Vec::new() };
        proof {
            assert(r.tokens().to_set() =~= members_token_set(kind, r.members()));
        }
        r
    }

    /// The position where a token hashing to `h` is inserted to keep the
    /// sequence sorted: after every token at or below `h`.
    fn insert_pos(&self, h: u32) -> (pos: usize)
        requires
            sorted_by_hash(self.tokens()),
        ensures
            pos <= self.tokens().len(),
            forall|i: int| 0 <= i < pos ==> self.tokens()[i].hash <= h,
            forall|i: int| pos <= i < self.tokens().len() ==> self.tokens()[i].hash > h,
    {
        let mut lo: usize = 0;
        let mut hi: usize = self.tokens.len();
        while lo < hi
            invariant
                lo <= hi <= self.tokens().len(),
                sorted_by_hash(self.tokens()),
                forall|i: int| 0 <= i < lo ==> self.tokens()[i].hash <= h,
                forall|i: int| hi <= i < self.tokens().len() ==> self.tokens()[i].hash > h,
            decreases hi - lo,
        {
            let mid = lo + (hi - lo) / 2;
            if self.tokens[mid].hash <= h {
                lo = mid + 1;
            } else {
                hi = mid;
            }
        }
        lo
    }

    /// Adds a node with the given weight: one token per replica index,
    /// each inserted at its sorted position.  The failed overlay is not
    /// consulted or changed.
    pub fn add_node(&mut self, node: u8, weight: u8)
        requires
            old(self).wf(),
            forall|i: int| 0 <= i < old(self).members().len() ==> old(self).members()[i].0 != node,
        ensures
            final(self).wf(),
            final(self).kind() == old(self).kind(),
            final(self).failed() == old(self).failed(),
            final(self).members() == old(self).members().push((node, weight)),
            final(self).tokens() == place_tokens_spec(
                old(self).tokens(),
                old(self).kind(),
                node,
                weight,
            ),
            final(self).tokens().len() == old(self).tokens().len() + weight,
            final(self).tokens().to_set() == old(self).tokens().to_set().union(
                tokens_of_node(old(self).kind(), node, weight),
            ),
    {
        let ghost old_set = self.tokens@.to_set();
        let mut r: u8 = 0;
        while r < weight
            invariant
                r <= weight,
                sorted_by_hash(self.tokens@),
                self.tokens@ == place_tokens_spec(old(self).tokens(), self.kind, node, r),
                self.tokens@.len() == old(self).tokens().len() + r,
                self.tokens@.to_set() == old_set.union(tokens_of_node(self.kind, node, r)),
                self.kind == old(self).kind(),
                self.members@ == old(self).members(),
                self.failed@ == old(self).failed(),
            decreases weight - r,
        {
            let mut key: Vec<u8> = Vec::new();
            key.push(node);
            key.push(r);
            assert(key@ =~= token_key(node, r));
            let h = hash32(self.kind, key.as_slice());
            let t = Token { hash: h, node };
            let pos = self.insert_pos(h);
            let ghost pre = self.tokens@;
            self.tokens.insert(pos, t);
            proof {
                pre.insert_ensures(pos as int, t);
                lemma_upper_index_char(pre, h, pos as int, 0);
                assert(self.tokens@ == sorted_insert(pre, t));
                assert(t == Token { hash: token_hash_of(self.kind, node, r), node });
                assert(sorted_by_hash(self.tokens@)) by {
                    assert forall|i: int, j: int|
                        0 <= i <= j < self.tokens@.len() implies self.tokens@[i].hash
                        <= self.tokens@[j].hash by {
                        if i < pos && j > pos {
                            assert(self.tokens@[i] == pre[i]);
                            assert(self.tokens@[j] == pre[j - 1]);
                        }
                    }
                }
                assert(self.tokens@.to_set() =~= pre.to_set().insert(t)) by {
                    assert forall|x: Token| self.tokens@.contains(x) implies pre.contains(x) || x
                        == t by {
                        let i = choose|i: int|
                            0 <= i < self.tokens@.len() && self.tokens@[i] == x;
                        if i < pos {
                            assert(pre[i] == x);
                        } else if i > pos {
                            assert(pre[i - 1] == x);
                        }
                    }
                    assert forall|x: Token| pre.contains(x) implies self.tokens@.contains(x) by {
                        let i = choose|i: int| 0 <= i < pre.len() && pre[i] == x;
                        if i < pos {
                            assert(self.tokens@[i] == x);
                        } else {
                            assert(self.tokens@[i + 1] == x);
                        }
                    }
                    assert(self.tokens@.contains(t)) by {
                        assert(self.tokens@[pos as int] == t);
                    }
                }
                assert(old_set.union(tokens_of_node(self.kind, node, r)).insert(t) =~= old_set
                    .union(tokens_of_node(self.kind, node, (r + 1) as u8)));
            }
            r = r + 1;
        }
        self.members.push((node, weight));
        proof {
            assert(self.members@.drop_last() =~= old(self).members());
            assert(self.tokens@.to_set() == members_token_set(self.kind, self.members@));
        }
    }

    /// The position of `node` in the sorted failed overlay, or where it
    /// would be inserted.
    fn failed_pos(&self, node: u8) -> (pos: usize)
        requires
            sorted_strict(self.failed()),
        ensures
            pos <= self.failed().len(),
            forall|i: int| 0 <= i < pos ==> self.failed()[i] < node,
            forall|i: int| pos <= i < self.failed().len() ==> self.failed()[i] >= node,
    {
        let mut lo: usize = 0;
        let mut hi: usize = self.failed.len();
        while lo < hi
            invariant
                lo <= hi <= self.failed@.len(),
                sorted_strict(self.failed@),
                forall|i: int| 0 <= i < lo ==> self.failed@[i] < node,
                forall|i: int| hi <= i < self.failed@.len() ==> self.failed@[i] >= node,
            decreases hi - lo,
        {
            let mid = lo + (hi - lo) / 2;
            if self.failed[mid] < node {
                lo = mid + 1;
            } else {
                hi = mid;
            }
        }
        lo
    }

    /// Whether `node` is currently marked failed, by binary search over
    /// the sorted overlay.
    pub fn is_failed(&self, node: u8) -> (b: bool)
        requires
            sorted_strict(self.failed()),
        ensures
            b == self.failed().contains(node),
    {
        let pos = self.failed_pos(node);
        if pos < self.failed.len() && self.failed[pos] == node {
            proof {
                assert(self.failed@[pos as int] == node);
            }
            true
        } else {
            proof {
                if self.failed@.contains(node) {
                    let i = choose|i: int| 0 <= i < self.failed@.len() && self.failed@[i] == node;
                    assert(i >= pos);
                }
            }
            false
        }
    }

    /// Marks a node failed, so lookups skip its tokens.  No token is
    /// removed.  Idempotent.
    pub fn fail(&mut self, node: u8)
        requires
            old(self).wf(),
        ensures
            final(self).wf(),
            final(self).kind() == old(self).kind(),
            final(self).members() == old(self).members(),
            final(self).tokens() == old(self).tokens(),
            final(self).failed().to_set() == old(self).failed().to_set().insert(node),
    {
        let pos = self.failed_pos(node);
        if pos < self.failed.len() && self.failed[pos] == node {
            proof {
                assert(self.failed@[pos as int] == node);
                assert(self.failed@.to_set() =~= self.failed@.to_set().insert(node));
            }
            return ;
        }
        let ghost pre = self.failed@;
        self.failed.insert(pos, node);
        proof {
            pre.insert_ensures(pos as int, node);
            if pos < pre.len() {
                assert(pre[pos as int] >= node);
                assert(pre[pos as int] != node);
            }
            assert(sorted_strict(self.failed@)) by {
                assert forall|i: int, j: int|
                    0 <= i < j < self.failed@.len() implies self.failed@[i] < self.failed@[j] by {
                    if i < pos && j > pos {
                        assert(self.failed@[i] == pre[i]);
                        assert(self.failed@[j] == pre[j - 1]);
                    }
                }
            }
            lemma_insert_to_set(pre, pos as int, node);
        }
    }

    /// Clears a node from the failed overlay, restoring its tokens to
    /// service instantly.  Idempotent.
    pub fn recover(&mut self, node: u8)
        requires
            old(self).wf(),
        ensures
            final(self).wf(),
            final(self).kind() == old(self).kind(),
            final(self).members() == old(self).members(),
            final(self).tokens() == old(self).tokens(),
            final(self).failed().to_set() == old(self).failed().to_set().remove(node),
    {
        let pos = self.failed_pos(node);
        if pos < self.failed.len() && self.failed[pos] == node {
            let ghost pre = self.failed@;
            proof {
                assert(pre[pos as int] == node);
                assert(pre.no_duplicates());
            }
            self.failed.remove(pos);
            proof {
                pre.remove_ensures(pos as int);
                assert(sorted_strict(self.failed@)) by {
                    assert forall|i: int, j: int|
                        0 <= i < j < self.failed@.len() implies self.failed@[i]
                        < self.failed@[j] by {
                        if i < pos && j >= pos {
                            assert(self.failed@[i] == pre[i]);
                            assert(self.failed@[j] == pre[j + 1]);
                        }
                    }
                }
                lemma_remove_to_set(pre, pos as int);
            }
        } else {
            proof {
                if self.failed@.contains(node) {
                    let i = choose|i: int| 0 <= i < self.failed@.len() && self.failed@[i] == node;
                    assert(i >= pos);
                }
                assert(self.failed@.to_set() =~= self.failed@.to_set().remove(node));
            }
        }
    }

    /// Resolves a key to a node: the key is hashed, the first token at or
    /// after that hash is found by binary search, and the scan proceeds
    /// forward (wrapping past the end of the sequence) until it meets a
    /// token of an unfailed node.  The same key on the same ring state
    /// always resolves to the same node, and the answer is never a failed
    /// node.  `NotFound` comes exactly when no token of an unfailed node
    /// exists.
    pub fn lookup(&self, key: &[u8]) -> (r: Result<u8, RingError>)
        requires
            self.wf(),
            key@.len() < 0x1_0000_0000,
        ensures
            r == match lookup_node(self.kind(), self.tokens(), self.failed(), key@) {
                Some(n) => Ok::<u8, RingError>(n),
                None => Err::<u8, RingError>(RingError::NotFound),
            },
            r matches Ok(n) ==> !self.failed().contains(n),
            (r is Ok) <==> exists|i: int|
                0 <= i < self.tokens().len() && !self.failed().contains(
                    (#[trigger] self.tokens()[i]).node,
                ),
    {
        let n_tok = self.tokens.len();
        if n_tok == 0 {
            proof {
                assert(rotation(self.tokens@, start_index(self.tokens@, hash32_of(
                    self.kind,
                    key@,
                ))) =~= Seq::<Token>::empty());
            }
            return Err(RingError::NotFound);
        }
        let h = hash32(self.kind, key);
        let mut lo: usize = 0;
        let mut hi: usize = n_tok;
        while lo < hi
            invariant
                lo <= hi <= self.tokens@.len(),
                sorted_by_hash(self.tokens@),
                forall|i: int| 0 <= i < lo ==> self.tokens@[i].hash < h,
                forall|i: int| hi <= i < self.tokens@.len() ==> self.tokens@[i].hash >= h,
            decreases hi - lo,
        {
            let mid = lo + (hi - lo) / 2;
            if self.tokens[mid].hash < h {
                lo = mid + 1;
            } else {
                hi = mid;
            }
        }
        let start = if lo < n_tok {
            lo
        } else {
            0
        };
        proof {
            lemma_start_index_char(self.tokens@, h, lo as int, 0);
        }
        let ghost rot = rotation(self.tokens@, start as int);
        proof {
            lemma_rotation_index(self.tokens@, start as int);
            assert(first_eligible(rot, self.failed@) == lookup_node(
                self.kind(),
                self.tokens(),
                self.failed(),
                key@,
            ));
        }
        let mut idx = start;
        while idx < n_tok
            invariant
                self.wf(),
                start <= idx,
                idx <= n_tok,
                n_tok == self.tokens@.len(),
                start < n_tok,
                rot == rotation(self.tokens@, start as int),
                rot.len() == n_tok,
                first_eligible(rot, self.failed@) == lookup_node(
                    self.kind(),
                    self.tokens(),
                    self.failed(),
                    key@,
                ),
                forall|k: int| 0 <= k < n_tok - start ==> rot[k] == self.tokens@[start + k],
                forall|k: int|
                    n_tok - start <= k < n_tok ==> rot[k] == self.tokens@[k - (n_tok - start)],
                forall|j: int|
                    start <= j < idx ==> self.failed@.contains((#[trigger] self.tokens@[j]).node),
            decreases n_tok - idx,
        {
            let t_node = self.tokens[idx].node;
            if !self.is_failed(t_node) {
                proof {
                    let m = idx - start;
                    assert(forall|j: int| 0 <= j < m ==> self.failed@.contains(
                        (#[trigger] rot[j]).node,
                    ));
                    lemma_first_eligible_skip(rot, self.failed@, m);
                    assert(rot.skip(m)[0] == rot[m]);
                    assert(rot[m] == self.tokens@[idx as int]);
                }
                return Ok(t_node);
            }
            idx = idx + 1;
        }
        let mut idx2: usize = 0;
        while idx2 < start
            invariant
                self.wf(),
                idx2 <= start,
                n_tok == self.tokens@.len(),
                start < n_tok,
                rot == rotation(self.tokens@, start as int),
                rot.len() == n_tok,
                first_eligible(rot, self.failed@) == lookup_node(
                    self.kind(),
                    self.tokens(),
                    self.failed(),
                    key@,
                ),
                forall|k: int| 0 <= k < n_tok - start ==> rot[k] == self.tokens@[start + k],
                forall|k: int|
                    n_tok - start <= k < n_tok ==> rot[k] == self.tokens@[k - (n_tok - start)],
                forall|j: int|
                    start <= j < n_tok ==> self.failed@.contains((#[trigger] self.tokens@[j]).node),
                forall|j: int|
                    0 <= j < idx2 ==> self.failed@.contains((#[trigger] self.tokens@[j]).node),
            decreases start - idx2,
        {
            let t_node = self.tokens[idx2].node;
            if !self.is_failed(t_node) {
                proof {
                    let m = (n_tok - start) + idx2;
                    assert forall|j: int| 0 <= j < m implies self.failed@.contains(
                        (#[trigger] rot[j]).node,
                    ) by {
                        if j < n_tok - start {
                            assert(rot[j] == self.tokens@[start + j]);
                        } else {
                            assert(rot[j] == self.tokens@[j - (n_tok - start)]);
                        }
                    }
                    lemma_first_eligible_skip(rot, self.failed@, m as int);
                    assert(rot.skip(m as int)[0] == rot[m as int]);
                    assert(rot[m as int] == self.tokens@[idx2 as int]);
                }
                return Ok(t_node);
            }
            idx2 = idx2 + 1;
        }
        proof {
            assert forall|k: int| 0 <= k < rot.len() implies self.failed@.contains(
                (#[trigger] rot[k]).node,
            ) by {
                if k < n_tok - start {
                    assert(rot[k] == self.tokens@[start + k]);
                } else {
                    assert(rot[k] == self.tokens@[k - (n_tok - start)]);
                }
            }
            lemma_first_eligible_props(rot, self.failed@);
        }
        Err(RingError::NotFound)
    }

    /// Removes a node outright: its membership entry and every one of its
    /// tokens leave the ring.  The failed overlay is not consulted or
    /// changed.  Idempotent.
    pub fn remove_node(&mut self, node: u8)
        requires
            old(self).wf(),
        ensures
            final(self).wf(),
            final(self).kind() == old(self).kind(),
            final(self).failed() == old(self).failed(),
            final(self).members() == drop_member(old(self).members(), node),
            final(self).tokens() == drop_node_tokens(old(self).tokens(), node),
    {
        let n_tok = self.tokens.len();
        let mut kept: Vec<Token> = Vec::new();
        let mut i: usize = 0;
        while i < n_tok
            invariant
                i <= n_tok,
                n_tok == self.tokens@.len(),
                self.tokens@ == old(self).tokens(),
                kept@ == drop_node_tokens(self.tokens@.take(i as int), node),
            decreases n_tok - i,
        {
            let t = self.tokens[i];
            proof {
                assert(self.tokens@.take(i + 1).drop_last() =~= self.tokens@.take(i as int));
                assert(self.tokens@.take(i + 1).last() == t);
            }
            if t.node != node {
                kept.push(t);
            }
            i = i + 1;
        }
        proof {
            assert(self.tokens@.take(n_tok as int) =~= self.tokens@);
        }
        self.tokens = kept;
        let n_mem = self.members.len();
        let mut mkept: Vec<(u8, u8)> = Vec::new();
        let mut j: usize = 0;
        while j < n_mem
            invariant
                j <= n_mem,
                n_mem == self.members@.len(),
                self.members@ == old(self).members(),
                mkept@ == drop_member(self.members@.take(j as int), node),
            decreases n_mem - j,
        {
            let m = self.members[j];
            proof {
                assert(self.members@.take(j + 1).drop_last() =~= self.members@.take(j as int));
                assert(self.members@.take(j + 1).last() == m);
            }
            if m.0 != node {
                mkept.push(m);
            }
            j = j + 1;
        }
        proof {
            assert(self.members@.take(n_mem as int) =~= self.members@);
        }
        self.members = mkept;
        proof {
            lemma_drop_node_tokens_props(old(self).tokens(), node);
            lemma_drop_member_props(old(self).members(), node);
            lemma_mts_drop_member(self.kind, old(self).members(), node);
            assert forall|t: Token|
                self.tokens@.to_set().contains(t) == members_token_set(
                    self.kind,
                    self.members@,
                ).contains(t) by {
                assert(self.tokens@.contains(t) <==> old(self).tokens().contains(t) && t.node
                    != node);
                assert(old(self).tokens().contains(t) <==> old(self).tokens().to_set().contains(
                    t,
                ));
                assert(old(self).tokens().to_set() == members_token_set(
                    self.kind,
                    old(self).members(),
                ));
            }
            assert(self.tokens@.to_set() =~= members_token_set(self.kind, self.members@));
        }
    }

    /// Builds a ring over the given `(node, weight)` pairs.  Fails only if
    /// the list is empty.
    pub fn build(kind: HashKind, nodes: &Vec<(u8, u8)>) -> (r: Result<SortedTokenRing, RingError>)
        requires
            distinct_nodes(nodes@),
        ensures
            r is Err <==> nodes@.len() == 0,
            r is Err ==> r == Err::<SortedTokenRing, RingError>(RingError::EmptyNodeSet),
            r matches Ok(ring) ==> {
                &&& ring.wf()
                &&& ring.kind() == kind
                &&& ring.members() == nodes@
                &&& ring.failed() == Seq::<u8>::empty()
                &&& ring.tokens() == build_tokens_spec(kind, nodes@)
                &&& ring.tokens().len() == total_weight(nodes@)
            },
    {
        if nodes.len() == 0 {
            return Err(RingError::EmptyNodeSet);
        }
        let mut ring = Self::empty(kind);
        let mut i: usize = 0;
        while i < nodes.len()
            invariant
                i <= nodes@.len(),
                distinct_nodes(nodes@),
                ring.wf(),
                ring.kind() == kind,
                ring.members() == nodes@.take(i as int),
                ring.failed() == Seq::<u8>::empty(),
                ring.tokens() == build_tokens_spec(kind, nodes@.take(i as int)),
            decreases nodes@.len() - i,
        {
            let m = nodes[i];
            ring.add_node(m.0, m.1);
            proof {
                assert(nodes@.take(i + 1) =~= nodes@.take(i as int).push(nodes@[i as int]));
                assert(nodes@.take(i + 1).drop_last() =~= nodes@.take(i as int));
                assert(nodes@.take(i + 1).last() == nodes@[i as int]);
            }
            i = i + 1;
        }
        proof {
            assert(nodes@.take(nodes@.len() as int) =~= nodes@);
            lemma_build_tokens_len(kind, nodes@);
        }
        Ok(ring)
    }

    /// The number of tokens on the ring.
    pub fn num_tokens(&self) -> (n: usize)
        ensures
            n == self.tokens().len(),
    {
        self.tokens.len()
    }

    /// The token at a position of the sorted sequence.
    pub fn token_at(&self, i: usize) -> (t: Token)
        requires
            i < self.tokens().len(),
        ensures
            t == self.tokens()[i as int],
    {
        self.tokens[i]
    }

    /// The number of members.
    pub fn num_members(&self) -> (n: usize)
        ensures
            n == self.members().len(),
    {
        self.members.len()
    }

    /// The `(node, weight)` pair at a position of the member list.
    pub fn member_at(&self, i: usize) -> (m: (u8, u8))
        requires
            i < self.members().len(),
        ensures
            m == self.members()[i as int],
    {
        self.members[i]
    }

    /// The hash strategy the ring places tokens and keys with.
    pub fn strategy(&self) -> (k: HashKind)
        ensures
            k == self.kind(),
    {
        self.kind
    }
}

/// Law: lookup is deterministic and stable.  Its contract pins every
/// result to `lookup_node`, a function of the ring state and the key
/// alone, so two results of looking up one key on one unchanged state are
/// equal, whatever happened in between.
pub proof fn lemma_lookup_deterministic(
    ring: &SortedTokenRing,
    key: Seq<u8>,
    r1: Result<u8, RingError>,
    r2: Result<u8, RingError>,
)
    requires
        r1 == match lookup_node(ring.kind(), ring.tokens(), ring.failed(), key) {
            Some(n) => Ok::<u8, RingError>(n),
            None => Err::<u8, RingError>(RingError::NotFound),
        },
        r2 == match lookup_node(ring.kind(), ring.tokens(), ring.failed(), key) {
            Some(n) => Ok::<u8, RingError>(n),
            None => Err::<u8, RingError>(RingError::NotFound),
        },
    ensures
        r1 == r2,
{
}

/// Law: whenever some member of positive weight stands outside the failed
/// set, a lookup of any key succeeds, and the node it resolves to is never
/// a failed one.
pub proof fn lemma_lookup_avoids_failed(
    ring: &SortedTokenRing,
    key: Seq<u8>,
    node: u8,
    weight: u8,
)
    requires
        ring.wf(),
        ring.members().contains((node, weight)),
        weight > 0,
        !ring.failed().contains(node),
    ensures
        lookup_node(ring.kind(), ring.tokens(), ring.failed(), key) is Some,
        !ring.failed().contains(
            lookup_node(ring.kind(), ring.tokens(), ring.failed(), key)->Some_0,
        ),
{
    let tokens = ring.tokens();
    let failed = ring.failed();
    let h = hash32_of(ring.kind(), key);
    let r = (weight - 1) as u8;
    let t = Token { hash: token_hash_of(ring.kind(), node, r), node };
    assert(tokens_of_node(ring.kind(), node, weight).contains(t));
    let k = choose|k: int| 0 <= k < ring.members().len() && ring.members()[k] == (node, weight);
    lemma_mts_member_tokens(ring.kind(), ring.members(), k);
    assert(members_token_set(ring.kind(), ring.members()).contains(t));
    assert(tokens.contains(t));
    let j = choose|j: int| 0 <= j < tokens.len() && tokens[j] == t;
    lemma_start_index_bounds(tokens, h, 0);
    let s = start_index(tokens, h);
    lemma_rotation_index(tokens, s);
    let rot = rotation(tokens, s);
    let m = if j >= s {
        j - s
    } else {
        tokens.len() - s + j
    };
    assert(rot[m] == tokens[j]);
    lemma_first_eligible_props(rot, failed);
    if first_eligible(rot, failed) is None {
        assert(failed.contains(rot[m].node));
        assert(false);
    }
}

/// Law: on a ring whose members all have positive weight, any failed set
/// smaller than the member count leaves some node eligible, so a lookup
/// of any key succeeds — and never resolves to a failed node.
pub proof fn lemma_lookup_succeeds_under_partial_failure(ring: &SortedTokenRing, key: Seq<u8>)
    requires
        ring.wf(),
        ring.members().len() > 0,
        forall|i: int| 0 <= i < ring.members().len() ==> (#[trigger] ring.members()[i]).1 > 0,
        ring.failed().len() < ring.members().len(),
    ensures
        lookup_node(ring.kind(), ring.tokens(), ring.failed(), key) is Some,
        !ring.failed().contains(
            lookup_node(ring.kind(), ring.tokens(), ring.failed(), key)->Some_0,
        ),
{
    broadcast use vstd::seq_lib::seq_to_set_is_finite;

    let ms = ring.members();
    let ids = ms.map_values(|m: (u8, u8)| m.0);
    if forall|i: int| 0 <= i < ms.len() ==> ring.failed().contains((#[trigger] ms[i]).0) {
        assert(ids.no_duplicates()) by {
            assert forall|i: int, j: int| 0 <= i < j < ids.len() implies ids[i] != ids[j] by {
                assert(ids[i] == ms[i].0 && ids[j] == ms[j].0);
            }
        }
        assert(ring.failed().no_duplicates());
        ids.unique_seq_to_set();
        ring.failed().unique_seq_to_set();
        assert(ids.to_set().subset_of(ring.failed().to_set())) by {
            assert forall|x: u8| ids.to_set().contains(x) implies ring.failed().to_set().contains(
                x,
            ) by {
                let i = choose|i: int| 0 <= i < ids.len() && ids[i] == x;
                assert(ms[i].0 == x);
                assert(ring.failed().contains(x));
            }
        }
        vstd::set_lib::lemma_len_subset(ids.to_set(), ring.failed().to_set());
        assert(false);
    }
    let k = choose|k: int| 0 <= k < ms.len() && !ring.failed().contains((#[trigger] ms[k]).0);
    assert(ms[k] == (ms[k].0, ms[k].1));
    lemma_lookup_avoids_failed(ring, key, ms[k].0, ms[k].1);
}

/// Law: round trip.  Removing a node and re-adding it with the same
/// weight leaves the ring's token set exactly as it was: `remove_node`
/// shrinks the token set to that of the shortened member list, `add_node`
/// unions the node's own tokens back in, and that union is the original
/// set.
pub proof fn lemma_remove_add_round_trip(
    kind: HashKind,
    members: Seq<(u8, u8)>,
    node: u8,
    weight: u8,
)
    requires
        distinct_nodes(members),
        members.contains((node, weight)),
    ensures
        members_token_set(kind, drop_member(members, node)).union(
            tokens_of_node(kind, node, weight),
        ) == members_token_set(kind, members),
{
    lemma_mts_drop_member(kind, members, node);
    lemma_mts_node_part(kind, members, node, weight);
    lemma_tokens_of_node_owner(kind, node, weight);
    let whole = members_token_set(kind, members);
    let dropped = members_token_set(kind, drop_member(members, node));
    let own = tokens_of_node(kind, node, weight);
    assert forall|t: Token| dropped.union(own).contains(t) == whole.contains(t) by {
        if own.contains(t) {
            assert(whole.intersect(node_token_set(node)).contains(t));
        }
        if whole.contains(t) && t.node == node {
            assert(whole.intersect(node_token_set(node)).contains(t));
        }
    }
    assert(dropped.union(own) =~= whole);
}

} // verus!
