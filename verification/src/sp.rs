//! The store of symbolic packets: sets of packets as complete binary decision
//! diagrams, one level per packet field and two children per node, hash-consed
//! so that a handle identifies the set it denotes.
//! Every operator keeps what it has computed in a memo table of its own and
//! leaves the result of each call there.

use crate::relation::{cons, lemma_cons, quad, Packet, Rel};
use crate::spp::{depth_in, lemma_leaf, lemma_node, rel_in, valid_in, SPPnode, SPPstore, SPP};
use std::collections::HashMap;
use vstd::prelude::*;

verus! {

broadcast use vstd::std_specs::hash::group_hash_axioms;

/// A handle into the store. `0` and `1` are the two leaves; the node at index
/// `i` of the store has the handle `i + 2`.
pub type SP = u32;

/// A set of packets.
pub type Packets = Set<Seq<bool>>;

/// The largest number of nodes a store can hold: every node needs a handle.
pub const MAX_SP_NODES: usize = 0xFFFF_FFFE;

/// The largest number of packet fields a store can be made for.
pub const MAX_SP_VARS: u32 = 0x7FFF_FFFE;

/// A node of the store: the child for the bit unset and the child for the bit set.
#[derive(Debug, Eq, Hash, PartialEq, Structural, Clone, Copy)]
pub struct SPnode {
    pub x0: SP,
    pub x1: SP,
}

/// The store: the nodes in order of creation, the table that finds a node
/// again, the two constants at full depth, and one memo table per operator.
///
/// The fields are open to proofs. The operations of the store keep them
/// consistent with one another (`wf`) and ask for that consistency in turn, so
/// a caller reads them and leaves writing to the store.
#[derive(Debug)]
pub struct SPstore {
    /// The number of packet fields.
    pub num_vars: u32,
    /// The nodes, in order of creation.
    pub nodes: Vec<SPnode>,
    /// The hash-consing table: from the key of a node to its handle.
    pub hc: HashMap<u64, SP>,
    /// The empty set at full depth.
    pub zero: SP,
    /// The set of all packets at full depth.
    pub one: SP,
    /// Memo table of `union`, by the key of the two arguments.
    pub union_memo: HashMap<u64, SP>,
    /// Memo table of `intersect`.
    pub intersect_memo: HashMap<u64, SP>,
    /// Memo table of `complement`.
    pub complement_memo: HashMap<SP, SP>,
}

/// Every packet of `s` has exactly `d` fields.
pub open spec fn sized(s: Packets, d: nat) -> bool {
    forall|p: Packet| #[trigger] s.contains(p) ==> p.len() == d
}

/// The set of all packets of `d` fields.
pub open spec fn every(d: nat) -> Packets {
    Set::new(|p: Packet| p.len() == d)
}

/// The packets of `d` fields that are not in `s`.
pub open spec fn rest(s: Packets, d: nat) -> Packets {
    every(d).difference(s)
}

/// The set that holds a packet when, its first bit taken off, `s0` holds it
/// for a bit unset and `s1` for a bit set.
pub open spec fn fork(s0: Packets, s1: Packets) -> Packets {
    Set::new(
        |p: Packet|
            p.len() > 0 && (if p[0] {
                s1
            } else {
                s0
            }).contains(p.drop_first()),
    )
}

/// The packets of `d` fields whose field `var` is `value`.
pub open spec fn having(var: nat, value: bool, d: nat) -> Packets {
    Set::new(|p: Packet| p.len() == d && var < d && p[var as int] == value)
}

/// A fork holds a packet with a bit in front when the side of that bit holds the packet.
pub proof fn lemma_fork_contains(s0: Packets, s1: Packets, v: bool, p: Packet)
    ensures
        fork(s0, s1).contains(cons(v, p)) == (if v {
            s1
        } else {
            s0
        }).contains(p),
{
    lemma_cons(v, p);
}

/// A fork determines its two sides.
pub proof fn lemma_fork_injective(a0: Packets, a1: Packets, b0: Packets, b1: Packets)
    requires
        fork(a0, a1) == fork(b0, b1),
    ensures
        a0 == b0,
        a1 == b1,
{
    assert forall|p: Packet| a0.contains(p) == b0.contains(p) by {
        lemma_fork_contains(a0, a1, false, p);
        lemma_fork_contains(b0, b1, false, p);
    }
    assert forall|p: Packet| a1.contains(p) == b1.contains(p) by {
        lemma_fork_contains(a0, a1, true, p);
        lemma_fork_contains(b0, b1, true, p);
    }
    assert(a0 =~= b0);
    assert(a1 =~= b1);
}

/// A fork of sets of `d`-field packets is a set of `d + 1`-field packets.
pub proof fn lemma_fork_sized(s0: Packets, s1: Packets, d: nat)
    requires
        sized(s0, d),
        sized(s1, d),
    ensures
        sized(fork(s0, s1), d + 1),
{
    assert forall|p: Packet| #[trigger] fork(s0, s1).contains(p) implies p.len() == d + 1 by {
        assert((if p[0] {
            s1
        } else {
            s0
        }).contains(p.drop_first()));
    }
}

/// Union, intersection and complement of forks go side by side, and the
/// empty set and the set of all packets are forks of their like.
pub proof fn lemma_fork_algebra(a0: Packets, a1: Packets, b0: Packets, b1: Packets, d: nat)
    ensures
        fork(a0, a1).union(fork(b0, b1)) == fork(a0.union(b0), a1.union(b1)),
        fork(a0, a1).intersect(fork(b0, b1)) == fork(a0.intersect(b0), a1.intersect(b1)),
        rest(fork(a0, a1), d + 1) == fork(rest(a0, d), rest(a1, d)),
        fork(Set::empty(), Set::empty()) == Set::<Seq<bool>>::empty(),
        fork(every(d), every(d)) == every(d + 1),
{
    assert(fork(a0, a1).union(fork(b0, b1)) =~= fork(a0.union(b0), a1.union(b1)));
    assert(fork(a0, a1).intersect(fork(b0, b1)) =~= fork(a0.intersect(b0), a1.intersect(b1)));
    assert(rest(fork(a0, a1), d + 1) =~= fork(rest(a0, d), rest(a1, d)));
    assert(fork(Set::empty(), Set::empty()) =~= Set::<Seq<bool>>::empty());
    assert(fork(every(d), every(d)) =~= every(d + 1));
}

/// The test of the first field is a fork of nothing and everything, and the
/// test of a later field is the fork of the test one field earlier with itself.
pub proof fn lemma_fork_having(var: nat, value: bool, d: nat)
    requires
        var < d,
    ensures
        fork(Set::empty(), every(d)) == having(0, true, d + 1),
        fork(every(d), Set::empty()) == having(0, false, d + 1),
        fork(having(var, value, d), having(var, value, d)) == having(var + 1, value, d + 1),
{
    assert(fork(Set::empty(), every(d)) =~= having(0, true, d + 1));
    assert(fork(every(d), Set::empty()) =~= having(0, false, d + 1));
    let l = fork(having(var, value, d), having(var, value, d));
    let r = having(var + 1, value, d + 1);
    assert forall|p: Packet| l.contains(p) == r.contains(p) by {
        if p.len() > 0 {
            let pr = p.drop_first();
            if p.len() == d + 1 {
                assert(pr[var as int] == p[var as int + 1]);
            }
        }
    }
    assert(l =~= r);
}

/// The key under which a node is hash-consed, and under which a pair of
/// handles is memoized: the two side by side.
pub open spec fn sp_key(a: SP, b: SP) -> u64 {
    (a as int * 0x1_0000_0000 + b as int) as u64
}

/// Distinct pairs have distinct keys.
pub proof fn lemma_sp_key_injective(a: SP, b: SP, c: SP, d: SP)
    requires
        sp_key(a, b) == sp_key(c, d),
    ensures
        a == c,
        b == d,
{
}

/// The key of a pair of handles, computed.
fn sp_key_of(a: SP, b: SP) -> (k: u64)
    ensures
        k == sp_key(a, b),
{
    (a as u64) * 0x1_0000_0000 + (b as u64)
}

/// `h` is a leaf or the handle of one of `nodes`.
pub open spec fn sp_valid(nodes: Seq<SPnode>, h: SP) -> bool {
    h < nodes.len() + 2
}

/// The number of decision levels below `h`.
#[verifier::opaque]
pub open spec fn sp_depth(nodes: Seq<SPnode>, h: SP) -> nat
    decreases h,
{
    if 2 <= h < nodes.len() + 2 && nodes[h - 2].x0 < h {
        1 + sp_depth(nodes, nodes[h - 2].x0)
    } else {
        0
    }
}

/// The set that `h` denotes: leaf `0` holds nothing, leaf `1` holds the empty
/// packet, and a node is the fork of its children.
#[verifier::opaque]
pub open spec fn sp_set(nodes: Seq<SPnode>, h: SP) -> Packets
    decreases h,
{
    if h == 1 {
        every(0)
    } else if 2 <= h < nodes.len() + 2 {
        let n = nodes[h - 2];
        if n.x0 < h && n.x1 < h {
            fork(sp_set(nodes, n.x0), sp_set(nodes, n.x1))
        } else {
            Set::empty()
        }
    } else {
        Set::empty()
    }
}

/// The node at index `i` was built from earlier handles of one common depth.
pub open spec fn sp_node_ok(nodes: Seq<SPnode>, i: int) -> bool {
    let n = nodes[i];
    &&& n.x0 < i + 2
    &&& n.x1 < i + 2
    &&& sp_depth(nodes, n.x1) == sp_depth(nodes, n.x0)
}

/// Every node has a handle and was built from earlier handles of one depth.
pub open spec fn sp_nodes_wf(nodes: Seq<SPnode>) -> bool {
    &&& nodes.len() <= MAX_SP_NODES
    &&& forall|i: int| 0 <= i < nodes.len() ==> #[trigger] sp_node_ok(nodes, i)
}

/// The table maps the key of each node to its handle and holds nothing else.
pub open spec fn sp_table_wf(nodes: Seq<SPnode>, hc: Map<u64, SP>) -> bool {
    &&& forall|i: int|
        0 <= i < nodes.len() ==> hc.contains_key(#[trigger] sp_key(nodes[i].x0, nodes[i].x1)) && hc[sp_key(
            nodes[i].x0,
            nodes[i].x1,
        )] == i + 2
    &&& forall|k: u64| #[trigger]
        hc.contains_key(k) ==> 2 <= hc[k] < nodes.len() + 2 && sp_key(
            nodes[hc[k] - 2].x0,
            nodes[hc[k] - 2].x1,
        ) == k
}

/// `old` is an initial segment of `new`.
pub open spec fn sp_grown(old: Seq<SPnode>, new: Seq<SPnode>) -> bool {
    &&& old.len() <= new.len()
    &&& forall|i: int| 0 <= i < old.len() ==> new[i] == old[i]
}

/// A handle of a well-formed store keeps its depth and its set when the store grows.
pub proof fn lemma_sp_frame(old: Seq<SPnode>, new: Seq<SPnode>, h: SP)
    requires
        sp_nodes_wf(old),
        sp_grown(old, new),
        sp_valid(old, h),
    ensures
        sp_valid(new, h),
        sp_depth(new, h) == sp_depth(old, h),
        sp_set(new, h) == sp_set(old, h),
    decreases h,
{
    reveal(sp_set);
    reveal(sp_depth);
    if h >= 2 {
        let n = old[h - 2];
        assert(sp_node_ok(old, h - 2));
        lemma_sp_frame(old, new, n.x0);
        lemma_sp_frame(old, new, n.x1);
    }
}

/// The set of a node is the fork of its children's sets, and its depth is one
/// more than theirs.
pub proof fn lemma_sp_node(nodes: Seq<SPnode>, h: SP)
    requires
        sp_nodes_wf(nodes),
        sp_valid(nodes, h),
        h >= 2,
    ensures
        ({
            let n = nodes[h - 2];
            &&& n.x0 < h && n.x1 < h
            &&& sp_depth(nodes, h) == sp_depth(nodes, n.x0) + 1
            &&& sp_depth(nodes, h) == sp_depth(nodes, n.x1) + 1
            &&& sp_set(nodes, h) == fork(sp_set(nodes, n.x0), sp_set(nodes, n.x1))
        }),
{
    reveal(sp_set);
    reveal(sp_depth);
    assert(sp_node_ok(nodes, h - 2));
}

/// The two leaves: `0` denotes the empty set and `1` the set of the empty
/// packet; both have depth 0, and no node has.
pub proof fn lemma_sp_leaf(nodes: Seq<SPnode>, h: SP)
    requires
        sp_nodes_wf(nodes),
        sp_valid(nodes, h),
    ensures
        h == 0 ==> sp_set(nodes, h) == Set::<Seq<bool>>::empty(),
        h == 1 ==> sp_set(nodes, h) == every(0),
        h < 2 <==> sp_depth(nodes, h) == 0,
{
    reveal(sp_set);
    reveal(sp_depth);
    if h >= 2 {
        assert(sp_node_ok(nodes, h - 2));
    }
}

/// The set of a handle holds packets with as many fields as the handle is deep.
pub proof fn lemma_sp_sized(nodes: Seq<SPnode>, h: SP)
    requires
        sp_nodes_wf(nodes),
        sp_valid(nodes, h),
    ensures
        sized(sp_set(nodes, h), sp_depth(nodes, h)),
    decreases h,
{
    if h >= 2 {
        let n = nodes[h - 2];
        lemma_sp_node(nodes, h);
        lemma_sp_sized(nodes, n.x0);
        lemma_sp_sized(nodes, n.x1);
        lemma_fork_sized(sp_set(nodes, n.x0), sp_set(nodes, n.x1), sp_depth(nodes, n.x0));
    } else {
        lemma_sp_leaf(nodes, h);
    }
}

/// Hash-consing: two handles of one depth that denote the same set are the same handle.
pub proof fn lemma_sp_canonical_in(nodes: Seq<SPnode>, hc: Map<u64, SP>, a: SP, b: SP)
    requires
        sp_nodes_wf(nodes),
        sp_table_wf(nodes, hc),
        sp_valid(nodes, a),
        sp_valid(nodes, b),
        sp_depth(nodes, a) == sp_depth(nodes, b),
        sp_set(nodes, a) == sp_set(nodes, b),
    ensures
        a == b,
    decreases a,
{
    lemma_sp_leaf(nodes, a);
    lemma_sp_leaf(nodes, b);
    if a >= 2 {
        let m = nodes[a - 2];
        let n = nodes[b - 2];
        lemma_sp_node(nodes, a);
        lemma_sp_node(nodes, b);
        lemma_fork_injective(sp_set(nodes, m.x0), sp_set(nodes, m.x1), sp_set(nodes, n.x0), sp_set(nodes, n.x1));
        lemma_sp_canonical_in(nodes, hc, m.x0, n.x0);
        lemma_sp_canonical_in(nodes, hc, m.x1, n.x1);
        assert(hc[sp_key(nodes[a - 2].x0, nodes[a - 2].x1)] == a);
        assert(hc[sp_key(nodes[b - 2].x0, nodes[b - 2].x1)] == b);
    } else {
        assert(every(0).contains(Seq::<bool>::empty()));
    }
}

/// A memo entry of union (`both` unset) or intersection (`both` set) is
/// sound: handles of one depth, and the result denotes what the operator
/// makes of the arguments' sets.
pub open spec fn sp_entry2_ok(nodes: Seq<SPnode>, both: bool, a: SP, b: SP, r: SP) -> bool {
    &&& sp_valid(nodes, a)
    &&& sp_valid(nodes, b)
    &&& sp_valid(nodes, r)
    &&& sp_depth(nodes, b) == sp_depth(nodes, a)
    &&& sp_depth(nodes, r) == sp_depth(nodes, a)
    &&& sp_set(nodes, r) == (if both {
        sp_set(nodes, a).intersect(sp_set(nodes, b))
    } else {
        sp_set(nodes, a).union(sp_set(nodes, b))
    })
}

/// A binary memo table holds the four leaf cases and only sound entries.
pub open spec fn sp_memo2_wf(nodes: Seq<SPnode>, memo: Map<u64, SP>, both: bool) -> bool {
    &&& memo.contains_key(sp_key(0, 0))
    &&& memo.contains_key(sp_key(0, 1))
    &&& memo.contains_key(sp_key(1, 0))
    &&& memo.contains_key(sp_key(1, 1))
    &&& forall|a: SP, b: SP| #[trigger]
        memo.contains_key(sp_key(a, b)) ==> sp_entry2_ok(nodes, both, a, b, memo[sp_key(a, b)])
}

/// A memo entry of complement is sound.
pub open spec fn sp_entry1_ok(nodes: Seq<SPnode>, a: SP, r: SP) -> bool {
    &&& sp_valid(nodes, a)
    &&& sp_valid(nodes, r)
    &&& sp_depth(nodes, r) == sp_depth(nodes, a)
    &&& sp_set(nodes, r) == rest(sp_set(nodes, a), sp_depth(nodes, a))
}

/// The memo table of complement holds the two leaf cases and only sound entries.
pub open spec fn sp_memo1_wf(nodes: Seq<SPnode>, memo: Map<SP, SP>) -> bool {
    &&& memo.contains_key(0)
    &&& memo.contains_key(1)
    &&& forall|a: SP| #[trigger] memo.contains_key(a) ==> sp_entry1_ok(nodes, a, memo[a])
}

/// Sound binary memo entries stay sound when the store grows.
pub proof fn lemma_sp_memo2_grown(old: Seq<SPnode>, new: Seq<SPnode>, memo: Map<u64, SP>, both: bool)
    requires
        sp_nodes_wf(old),
        sp_grown(old, new),
        sp_memo2_wf(old, memo, both),
    ensures
        sp_memo2_wf(new, memo, both),
{
    assert forall|a: SP, b: SP| #[trigger] memo.contains_key(sp_key(a, b)) implies sp_entry2_ok(
        new,
        both,
        a,
        b,
        memo[sp_key(a, b)],
    ) by {
        let r = memo[sp_key(a, b)];
        assert(sp_entry2_ok(old, both, a, b, r));
        lemma_sp_frame(old, new, a);
        lemma_sp_frame(old, new, b);
        lemma_sp_frame(old, new, r);
    }
}

/// Sound memo entries of complement stay sound when the store grows.
pub proof fn lemma_sp_memo1_grown(old: Seq<SPnode>, new: Seq<SPnode>, memo: Map<SP, SP>)
    requires
        sp_nodes_wf(old),
        sp_grown(old, new),
        sp_memo1_wf(old, memo),
    ensures
        sp_memo1_wf(new, memo),
{
    assert forall|a: SP| #[trigger] memo.contains_key(a) implies sp_entry1_ok(new, a, memo[a]) by {
        let r = memo[a];
        assert(sp_entry1_ok(old, a, r));
        lemma_sp_frame(old, new, a);
        lemma_sp_frame(old, new, r);
    }
}

/// The memo table that holds just the four pairs of leaves, with these values.
pub open spec fn sp_seeded2(v00: SP, v01: SP, v10: SP, v11: SP) -> Map<u64, SP> {
    Map::empty().insert(sp_key(0, 0), v00).insert(sp_key(0, 1), v01).insert(sp_key(1, 0), v10).insert(
        sp_key(1, 1),
        v11,
    )
}

/// A memo table of a binary operator, filled with its value on each pair of leaves.
fn sp_seed2(v00: SP, v01: SP, v10: SP, v11: SP) -> (m: HashMap<u64, SP>)
    ensures
        m@ == sp_seeded2(v00, v01, v10, v11),
{
    let mut m = HashMap::new();
    m.insert(sp_key_of(0, 0), v00);
    m.insert(sp_key_of(0, 1), v01);
    m.insert(sp_key_of(1, 0), v10);
    m.insert(sp_key_of(1, 1), v11);
    m
}

/// The tables of the operators' values on the leaves are sound memo tables of an empty store.
pub proof fn lemma_sp_seeded()
    ensures
        sp_memo2_wf(Seq::empty(), sp_seeded2(0, 1, 1, 1), false),
        sp_memo2_wf(Seq::empty(), sp_seeded2(0, 0, 0, 1), true),
        sp_memo1_wf(Seq::empty(), Map::empty().insert(0, 1).insert(1, 0)),
{
    let nodes = Seq::<SPnode>::empty();
    let e = Set::<Seq<bool>>::empty();
    let i = every(0);
    lemma_sp_leaf(nodes, 0);
    lemma_sp_leaf(nodes, 1);
    assert(e.union(e) =~= e);
    assert(e.union(i) =~= i);
    assert(i.union(e) =~= i);
    assert(i.union(i) =~= i);
    assert(e.intersect(e) =~= e);
    assert(e.intersect(i) =~= e);
    assert(i.intersect(e) =~= e);
    assert(i.intersect(i) =~= i);
    assert(rest(e, 0) =~= i);
    assert(rest(i, 0) =~= e);
    let u = sp_seeded2(0, 1, 1, 1);
    assert forall|a: SP, b: SP| #[trigger] u.contains_key(sp_key(a, b)) implies sp_entry2_ok(
        nodes,
        false,
        a,
        b,
        u[sp_key(a, b)],
    ) by {
        if sp_key(a, b) == sp_key(0, 0) {
            lemma_sp_key_injective(a, b, 0, 0);
        } else if sp_key(a, b) == sp_key(0, 1) {
            lemma_sp_key_injective(a, b, 0, 1);
        } else if sp_key(a, b) == sp_key(1, 0) {
            lemma_sp_key_injective(a, b, 1, 0);
        } else {
            lemma_sp_key_injective(a, b, 1, 1);
        }
    }
    let n = sp_seeded2(0, 0, 0, 1);
    assert forall|a: SP, b: SP| #[trigger] n.contains_key(sp_key(a, b)) implies sp_entry2_ok(
        nodes,
        true,
        a,
        b,
        n[sp_key(a, b)],
    ) by {
        if sp_key(a, b) == sp_key(0, 0) {
            lemma_sp_key_injective(a, b, 0, 0);
        } else if sp_key(a, b) == sp_key(0, 1) {
            lemma_sp_key_injective(a, b, 0, 1);
        } else if sp_key(a, b) == sp_key(1, 0) {
            lemma_sp_key_injective(a, b, 1, 0);
        } else {
            lemma_sp_key_injective(a, b, 1, 1);
        }
    }
}

impl View for SPstore {
    type V = Seq<SPnode>;

    /// The nodes of the store, in order of creation.
    open spec fn view(&self) -> Seq<SPnode> {
        self.nodes@
    }
}

/// The domain of a relation: the packets that it relates to some packet.
pub open spec fn domain(r: Rel) -> Packets {
    Set::new(|p: Packet| exists|q: Packet| #[trigger] r.contains((p, q)))
}

/// The domain of a block matrix: a packet with its first bit unset is in the
/// domain of one of the two upper blocks, and one with it set in the domain
/// of one of the two lower blocks.
pub proof fn lemma_domain_quad(r00: Rel, r01: Rel, r10: Rel, r11: Rel)
    ensures
        domain(quad(r00, r01, r10, r11)) == fork(domain(r00).union(domain(r01)), domain(r10).union(domain(r11))),
{
    let whole = quad(r00, r01, r10, r11);
    let sides = fork(domain(r00).union(domain(r01)), domain(r10).union(domain(r11)));
    assert forall|p: Packet| domain(whole).contains(p) implies sides.contains(p) by {
        let q = choose|q: Packet| #[trigger] whole.contains((p, q));
        let below = (p.drop_first(), q.drop_first());
        if p[0] {
            if q[0] {
                assert(r11.contains(below));
            } else {
                assert(r10.contains(below));
            }
        } else {
            if q[0] {
                assert(r01.contains(below));
            } else {
                assert(r00.contains(below));
            }
        }
    }
    assert forall|p: Packet| sides.contains(p) implies domain(whole).contains(p) by {
        let rest = p.drop_first();
        let upper = if p[0] {
            r10
        } else {
            r00
        };
        let lower = if p[0] {
            r11
        } else {
            r01
        };
        if domain(upper).contains(rest) {
            let q = choose|q: Packet| #[trigger] upper.contains((rest, q));
            lemma_cons(false, q);
            assert(whole.contains((p, cons(false, q))));
        } else {
            assert(domain(lower).contains(rest));
            let q = choose|q: Packet| #[trigger] lower.contains((rest, q));
            lemma_cons(true, q);
            assert(whole.contains((p, cons(true, q))));
        }
    }
    assert(domain(whole) =~= sides);
}

/// The domains of the two relations on packets without fields.
pub proof fn lemma_domain_leaf()
    ensures
        domain(crate::relation::empty()) == Set::<Seq<bool>>::empty(),
        domain(crate::relation::identity(0)) == every(0),
{
    assert(domain(crate::relation::empty()) =~= Set::<Seq<bool>>::empty());
    assert forall|p: Packet| every(0).contains(p) implies domain(crate::relation::identity(0)).contains(p) by {
        assert(crate::relation::identity(0).contains((p, p)));
    }
    assert(domain(crate::relation::identity(0)) =~= every(0));
}

/// `memo` maps handles of symbolic packet programs to the handles of their
/// domains.
pub open spec fn domains_ok(from: Seq<SPPnode>, nodes: Seq<SPnode>, memo: Map<SPP, SP>) -> bool {
    forall|h: SPP| #[trigger]
        memo.contains_key(h) ==> {
            &&& valid_in(from, h)
            &&& sp_valid(nodes, memo[h])
            &&& sp_depth(nodes, memo[h]) == depth_in(from, h)
            &&& sp_set(nodes, memo[h]) == domain(rel_in(from, h))
        }
}

/// A memo of domains stays one when the store of symbolic packets grows.
pub proof fn lemma_domains_grown(from: Seq<SPPnode>, old: Seq<SPnode>, new: Seq<SPnode>, memo: Map<SPP, SP>)
    requires
        sp_nodes_wf(old),
        sp_nodes_wf(new),
        sp_grown(old, new),
        domains_ok(from, old, memo),
    ensures
        domains_ok(from, new, memo),
{
    assert forall|h: SPP| #[trigger] memo.contains_key(h) implies {
        &&& valid_in(from, h)
        &&& sp_valid(new, memo[h])
        &&& sp_depth(new, memo[h]) == depth_in(from, h)
        &&& sp_set(new, memo[h]) == domain(rel_in(from, h))
    } by {
        lemma_sp_frame(old, new, memo[h]);
    }
}

/// The handle of a constant of depth `j` in a fresh store: the leaf at depth
/// 0, and at a greater depth the handle of the `j`-th node after the first
/// `base` nodes.
pub open spec fn sp_rung(leaf: SP, base: nat, j: nat) -> SP {
    if j == 0 {
        leaf
    } else {
        (base + j + 1) as SP
    }
}

/// The node at index `j` of a fresh store for packets of `k` fields.
pub open spec fn fresh_sp_node(k: nat, j: int) -> SPnode {
    if j < k {
        let z = sp_rung(0, 0, j as nat);
        SPnode { x0: z, x1: z }
    } else {
        let o = sp_rung(1, k, (j - k) as nat);
        SPnode { x0: o, x1: o }
    }
}

/// The nodes of a fresh store for packets of `k` fields, in the order of
/// their handles: the empty set at the depths from 1 to `k`, then the set of
/// all packets at these depths.
pub open spec fn fresh_sp_nodes(k: nat) -> Seq<SPnode> {
    Seq::new(2 * k, |j: int| fresh_sp_node(k, j))
}

/// How many nodes a fresh store holds before the constant with this leaf is made.
pub open spec fn sp_base(leaf: SP, k: nat) -> nat {
    if leaf == 1 {
        k
    } else {
        0
    }
}

impl SPstore {
    /// The number of packet fields the store was made for.
    pub open spec fn num_fields(&self) -> nat {
        self.num_vars as nat
    }

    /// `h` is a handle of this store.
    pub open spec fn valid(&self, h: SP) -> bool {
        sp_valid(self@, h)
    }

    /// The number of packet fields that `h` decides.
    pub open spec fn depth(&self, h: SP) -> nat {
        sp_depth(self@, h)
    }

    /// The set of packets that `h` denotes.
    pub open spec fn set(&self, h: SP) -> Packets {
        sp_set(self@, h)
    }

    /// No handle is left for a new node.
    pub open spec fn is_full(&self) -> bool {
        self@.len() == MAX_SP_NODES
    }

    /// The structural invariant: nodes, hash-consing table and memo tables
    /// agree with one another.
    #[verifier::opaque]
    pub open spec fn inv(&self) -> bool {
        &&& sp_nodes_wf(self.nodes@)
        &&& sp_table_wf(self.nodes@, self.hc@)
        &&& sp_memo2_wf(self.nodes@, self.union_memo@, false)
        &&& sp_memo2_wf(self.nodes@, self.intersect_memo@, true)
        &&& sp_memo1_wf(self.nodes@, self.complement_memo@)
    }

    /// The two constants are what their names say, at the store's full depth.
    pub open spec fn constants_ok(&self) -> bool {
        &&& self.valid(self.zero)
        &&& self.valid(self.one)
        &&& self.depth(self.zero) == self.num_fields()
        &&& self.depth(self.one) == self.num_fields()
        &&& self.set(self.zero) == Set::<Seq<bool>>::empty()
        &&& self.set(self.one) == every(self.num_fields())
    }

    /// The store is well formed.
    pub open spec fn wf(&self) -> bool {
        self.inv() && self.constants_ok()
    }

    /// This store has grown out of `old`: every node of `old` is still in
    /// place, so every handle of `old` is a handle of this store, with the same
    /// depth and the same set.
    pub open spec fn extends(&self, old: &SPstore) -> bool {
        &&& self.num_fields() == old.num_fields()
        &&& self.zero == old.zero
        &&& self.one == old.one
        &&& sp_grown(old@, self@)
        &&& forall|h: SP|
            #![trigger sp_set(old@, h)]
            #![trigger sp_depth(old@, h)]
            sp_valid(old@, h) ==> sp_valid(self@, h) && sp_depth(self@, h) == sp_depth(old@, h) && sp_set(
                self@,
                h,
            ) == sp_set(old@, h)
    }

    /// What the invariant says of the nodes.
    pub proof fn lemma_inv_nodes(&self)
        requires
            self.inv(),
        ensures
            sp_nodes_wf(self@),
            sp_table_wf(self@, self.hc@),
            sp_memo2_wf(self@, self.union_memo@, false),
            sp_memo2_wf(self@, self.intersect_memo@, true),
            sp_memo1_wf(self@, self.complement_memo@),
    {
        reveal(SPstore::inv);
    }

    /// Hash-consing: in a well-formed store, two handles of one depth that
    /// denote the same set are the same handle.
    pub proof fn lemma_canonical(&self, a: SP, b: SP)
        requires
            self.wf(),
            self.valid(a),
            self.valid(b),
            self.depth(a) == self.depth(b),
            self.set(a) == self.set(b),
        ensures
            a == b,
    {
        self.lemma_inv_nodes();
        lemma_sp_canonical_in(self@, self.hc@, a, b);
    }

    /// The set of a handle holds packets with as many fields as the handle is deep.
    pub proof fn lemma_sized(&self, h: SP)
        requires
            self.wf(),
            self.valid(h),
        ensures
            sized(self.set(h), self.depth(h)),
    {
        self.lemma_inv_nodes();
        lemma_sp_sized(self@, h);
    }

    /// A store extends itself.
    pub proof fn lemma_extends_self(&self)
        ensures
            self.extends(self),
    {
    }

    /// The invariant survives a sound new entry in a binary memo table.
    proof fn lemma_inv_put2(&self, pre: &SPstore, both: bool, a: SP, b: SP, r: SP)
        requires
            pre.inv(),
            sp_entry2_ok(pre@, both, a, b, r),
            if both {
                *self == (SPstore { intersect_memo: self.intersect_memo, ..*pre }) && self.intersect_memo@
                    == pre.intersect_memo@.insert(sp_key(a, b), r)
            } else {
                *self == (SPstore { union_memo: self.union_memo, ..*pre }) && self.union_memo@
                    == pre.union_memo@.insert(sp_key(a, b), r)
            },
        ensures
            self.inv(),
            self.extends(pre),
    {
        reveal(SPstore::inv);
        let after = if both {
            self.intersect_memo@
        } else {
            self.union_memo@
        };
        let before = if both {
            pre.intersect_memo@
        } else {
            pre.union_memo@
        };
        assert forall|c: SP, d: SP| #[trigger] after.contains_key(sp_key(c, d)) implies sp_entry2_ok(
            self@,
            both,
            c,
            d,
            after[sp_key(c, d)],
        ) by {
            if sp_key(c, d) == sp_key(a, b) {
                lemma_sp_key_injective(c, d, a, b);
            } else {
                assert(before.contains_key(sp_key(c, d)));
            }
        }
    }

    /// The invariant survives a sound new entry in the memo table of complement.
    proof fn lemma_inv_put1(&self, pre: &SPstore, a: SP, r: SP)
        requires
            pre.inv(),
            sp_entry1_ok(pre@, a, r),
            *self == (SPstore { complement_memo: self.complement_memo, ..*pre }),
            self.complement_memo@ == pre.complement_memo@.insert(a, r),
        ensures
            self.inv(),
            self.extends(pre),
    {
        reveal(SPstore::inv);
        assert forall|c: SP| #[trigger] self.complement_memo@.contains_key(c) implies sp_entry1_ok(
            self@,
            c,
            self.complement_memo@[c],
        ) by {
            if c != a {
                assert(pre.complement_memo@.contains_key(c));
            }
        }
    }

    /// A store for packets of `num_vars` fields, holding the two constants
    /// `zero` (the empty set) and `one` (the set of all packets) and nothing else.
    pub fn new(num_vars: u32) -> (store: Self)
        requires
            num_vars <= MAX_SP_VARS,
        ensures
            store.wf(),
            store.num_fields() == num_vars,
            store@ == fresh_sp_nodes(num_vars as nat),
            store.zero == sp_rung(0, 0, num_vars as nat),
            store.one == sp_rung(1, num_vars as nat, num_vars as nat),
    {
        let mut complement_memo = HashMap::new();
        complement_memo.insert(0, 1);
        complement_memo.insert(1, 0);
        let mut store = Self {
            num_vars,
            nodes: Vec::new(),
            hc: HashMap::new(),
            zero: 0,
            one: 0,
            union_memo: sp_seed2(0, 1, 1, 1),
            intersect_memo: sp_seed2(0, 0, 0, 1),
            complement_memo,
        };
        proof {
            reveal(SPstore::inv);
            lemma_sp_seeded();
            assert(store.inv());
        }
        proof {
            assert(store@ =~= fresh_sp_nodes(num_vars as nat).take(0));
        }
        let zero = store.constant(0).unwrap();
        store.zero = zero;
        let one = store.constant(1).unwrap();
        store.one = one;
        proof {
            assert(store@ =~= fresh_sp_nodes(num_vars as nat));
        }
        store
    }

    /// Retrieves the node behind the handle of an internal node.
    pub fn get(&self, sp: SP) -> (node: SPnode)
        requires
            2 <= sp,
            self.valid(sp),
        ensures
            node == self@[sp - 2],
    {
        self.nodes[(sp - 2) as usize]
    }

    /// Finds the node with these two children, or adds it to the store when
    /// it is new and a handle is left.
    #[verifier::rlimit(40)]
    fn mk(&mut self, x0: SP, x1: SP) -> (r: Option<SP>)
        requires
            old(self).inv(),
            old(self).valid(x0),
            old(self).valid(x1),
            old(self).depth(x0) == old(self).depth(x1),
        ensures
            final(self).inv(),
            final(self).extends(old(self)),
            final(self)@.len() <= old(self)@.len() + 1,
            match r {
                Some(h) => {
                    &&& 2 <= h
                    &&& final(self).valid(h)
                    &&& final(self)@[h - 2] == SPnode { x0, x1 }
                    &&& final(self).depth(h) == old(self).depth(x0) + 1
                    &&& final(self).set(h) == fork(old(self).set(x0), old(self).set(x1))
                    &&& !old(self)@.contains(SPnode { x0, x1 }) ==> final(self)@ == old(self)@.push(SPnode { x0, x1 })
                        && h == old(self)@.len() + 2
                },
                None => final(self)@ == old(self)@ && final(self).is_full(),
            },
    {
        proof {
            reveal(SPstore::inv);
        }
        let node = SPnode { x0, x1 };
        let key = sp_key_of(x0, x1);
        if let Some(sp) = self.hc.get(&key) {
            let h = *sp;
            proof {
                lemma_sp_key_injective(self.nodes@[h - 2].x0, self.nodes@[h - 2].x1, x0, x1);
                lemma_sp_node(self.nodes@, h);
                self.lemma_extends_self();
                assert(self.nodes@[h - 2] == node);
                assert(self.nodes@.contains(node));
            }
            return Some(h);
        }
        if self.nodes.len() >= MAX_SP_NODES {
            proof {
                self.lemma_extends_self();
            }
            return None;
        }
        let sp = self.nodes.len() as SP + 2;
        let ghost before = self.nodes@;
        self.nodes.push(node);
        self.hc.insert(key, sp);
        proof {
            let after = self.nodes@;
            assert(sp_grown(before, after));
            assert forall|i: int| 0 <= i < after.len() implies #[trigger] sp_node_ok(after, i) by {
                if i < before.len() {
                    assert(sp_node_ok(before, i));
                }
                lemma_sp_frame(before, after, after[i].x0);
                lemma_sp_frame(before, after, after[i].x1);
            }
            assert forall|i: int| 0 <= i < after.len() implies self.hc@.contains_key(
                #[trigger] sp_key(after[i].x0, after[i].x1),
            ) && self.hc@[sp_key(after[i].x0, after[i].x1)] == i + 2 by {
                if i < before.len() {
                    assert(old(self).hc@.contains_key(sp_key(before[i].x0, before[i].x1)));
                }
            }
            assert forall|k: u64| #[trigger] self.hc@.contains_key(k) implies 2 <= self.hc@[k] < after.len() + 2
                && sp_key(after[self.hc@[k] - 2].x0, after[self.hc@[k] - 2].x1) == k by {
                if k != key {
                    assert(old(self).hc@.contains_key(k));
                }
            }
            lemma_sp_memo2_grown(before, after, self.union_memo@, false);
            lemma_sp_memo2_grown(before, after, self.intersect_memo@, true);
            lemma_sp_memo1_grown(before, after, self.complement_memo@);
            lemma_sp_node(after, sp);
            lemma_sp_frame(before, after, x0);
            lemma_sp_frame(before, after, x1);
            assert forall|h: SP| sp_valid(before, h) implies sp_valid(after, h) && sp_depth(after, h)
                == sp_depth(before, h) && sp_set(after, h) == sp_set(before, h) by {
                lemma_sp_frame(before, after, h);
            }
        }
        Some(sp)
    }

    /// The set at full depth that holds every packet when `leaf` is 1 and
    /// none when it is 0, in a store that is fresh but for this constant.
    fn constant(&mut self, leaf: SP) -> (r: Option<SP>)
        requires
            old(self).inv(),
            leaf < 2,
            old(self).num_fields() <= MAX_SP_VARS,
            old(self)@ == fresh_sp_nodes(old(self).num_fields()).take(
                sp_base(leaf, old(self).num_fields()) as int,
            ),
        ensures
            final(self).inv(),
            final(self).extends(old(self)),
            final(self)@.len() <= 2 * old(self).num_fields(),
            match r {
                Some(h) => {
                    &&& final(self).valid(h)
                    &&& final(self).depth(h) == old(self).num_fields()
                    &&& final(self).set(h) == (if leaf == 1 {
                        every(old(self).num_fields())
                    } else {
                        Set::empty()
                    })
                    &&& h == sp_rung(leaf, sp_base(leaf, old(self).num_fields()), old(self).num_fields())
                    &&& final(self)@ == fresh_sp_nodes(old(self).num_fields()).take(
                        sp_base(leaf, old(self).num_fields()) + old(self).num_fields() as int,
                    )
                },
                None => final(self).is_full(),
            },
    {
        let mut sp: SP = leaf;
        let n = self.num_vars;
        let ghost k = self.num_fields();
        let ghost base = sp_base(leaf, k);
        proof {
            self.lemma_inv_nodes();
            lemma_sp_leaf(self.nodes@, leaf);
            self.lemma_extends_self();
        }
        for i in 0..n
            invariant
                n == self.num_vars,
                k == n,
                k <= MAX_SP_VARS,
                base == sp_base(leaf, k),
                leaf < 2,
                self.inv(),
                self.extends(old(self)),
                self.valid(sp),
                self.depth(sp) == i,
                self.set(sp) == (if leaf == 1 {
                    every(i as nat)
                } else {
                    Set::empty()
                }),
                sp == sp_rung(leaf, base, i as nat),
                self@ == fresh_sp_nodes(k).take(base + i),
        {
            let ghost before = self@;
            let ghost node = SPnode { x0: sp, x1: sp };
            proof {
                lemma_fork_algebra(Set::empty(), Set::empty(), Set::empty(), Set::empty(), i as nat);
                assert(node == fresh_sp_node(k, base + i));
                assert(!before.contains(node)) by {
                    if before.contains(node) {
                        let j = choose|j: int| 0 <= j < before.len() && before[j] == node;
                        assert(before[j] == fresh_sp_node(k, j));
                    }
                }
            }
            sp = self.mk(sp, sp)?;
            proof {
                assert(self@ =~= fresh_sp_nodes(k).take(base + i + 1));
            }
        }
        Some(sp)
    }

    /// The union of two symbolic packets of one depth: the packets that are
    /// in either. `None` when the store ran out of handles.
    pub fn union(&mut self, a: SP, b: SP) -> (r: Option<SP>)
        requires
            old(self).wf(),
            old(self).valid(a),
            old(self).valid(b),
            old(self).depth(a) == old(self).depth(b),
        ensures
            final(self).wf(),
            final(self).extends(old(self)),
            match r {
                Some(h) => {
                    &&& final(self).valid(h)
                    &&& final(self).depth(h) == old(self).depth(a)
                    &&& final(self).set(h) == old(self).set(a).union(old(self).set(b))
                    &&& final(self).union_memo@.contains_key(sp_key(a, b))
                    &&& final(self).union_memo@[sp_key(a, b)] == h
                },
                None => final(self).is_full(),
            },
        decreases old(self).depth(a),
    {
        let key = sp_key_of(a, b);
        proof {
            self.lemma_inv_nodes();
            lemma_sp_leaf(self.nodes@, a);
            lemma_sp_leaf(self.nodes@, b);
        }
        if let Some(result) = self.union_memo.get(&key) {
            let h = *result;
            proof {
                self.lemma_extends_self();
            }
            return Some(h);
        }
        proof {
            lemma_sp_node(self.nodes@, a);
            lemma_sp_node(self.nodes@, b);
        }
        let a_node = self.get(a);
        let b_node = self.get(b);
        let x0 = self.union(a_node.x0, b_node.x0)?;
        let x1 = self.union(a_node.x1, b_node.x1)?;
        let res = self.mk(x0, x1)?;
        let ghost pre = *self;
        self.union_memo.insert(key, res);
        proof {
            lemma_fork_algebra(
                old(self).set(a_node.x0),
                old(self).set(a_node.x1),
                old(self).set(b_node.x0),
                old(self).set(b_node.x1),
                0,
            );
            self.lemma_inv_put2(&pre, false, a, b, res);
        }
        Some(res)
    }

    /// The intersection of two symbolic packets of one depth: the packets
    /// that are in both. `None` when the store ran out of handles.
    pub fn intersect(&mut self, a: SP, b: SP) -> (r: Option<SP>)
        requires
            old(self).wf(),
            old(self).valid(a),
            old(self).valid(b),
            old(self).depth(a) == old(self).depth(b),
        ensures
            final(self).wf(),
            final(self).extends(old(self)),
            match r {
                Some(h) => {
                    &&& final(self).valid(h)
                    &&& final(self).depth(h) == old(self).depth(a)
                    &&& final(self).set(h) == old(self).set(a).intersect(old(self).set(b))
                    &&& final(self).intersect_memo@.contains_key(sp_key(a, b))
                    &&& final(self).intersect_memo@[sp_key(a, b)] == h
                },
                None => final(self).is_full(),
            },
        decreases old(self).depth(a),
    {
        let key = sp_key_of(a, b);
        proof {
            self.lemma_inv_nodes();
            lemma_sp_leaf(self.nodes@, a);
            lemma_sp_leaf(self.nodes@, b);
        }
        if let Some(result) = self.intersect_memo.get(&key) {
            let h = *result;
            proof {
                self.lemma_extends_self();
            }
            return Some(h);
        }
        proof {
            lemma_sp_node(self.nodes@, a);
            lemma_sp_node(self.nodes@, b);
        }
        let a_node = self.get(a);
        let b_node = self.get(b);
        let x0 = self.intersect(a_node.x0, b_node.x0)?;
        let x1 = self.intersect(a_node.x1, b_node.x1)?;
        let res = self.mk(x0, x1)?;
        let ghost pre = *self;
        self.intersect_memo.insert(key, res);
        proof {
            lemma_fork_algebra(
                old(self).set(a_node.x0),
                old(self).set(a_node.x1),
                old(self).set(b_node.x0),
                old(self).set(b_node.x1),
                0,
            );
            self.lemma_inv_put2(&pre, true, a, b, res);
        }
        Some(res)
    }

    /// The complement of a symbolic packet: the packets of its depth that are
    /// not in it. `None` when the store ran out of handles.
    pub fn complement(&mut self, a: SP) -> (r: Option<SP>)
        requires
            old(self).wf(),
            old(self).valid(a),
        ensures
            final(self).wf(),
            final(self).extends(old(self)),
            match r {
                Some(h) => {
                    &&& final(self).valid(h)
                    &&& final(self).depth(h) == old(self).depth(a)
                    &&& final(self).set(h) == rest(old(self).set(a), old(self).depth(a))
                    &&& final(self).complement_memo@.contains_key(a)
                    &&& final(self).complement_memo@[a] == h
                },
                None => final(self).is_full(),
            },
        decreases old(self).depth(a),
    {
        proof {
            self.lemma_inv_nodes();
        }
        if let Some(result) = self.complement_memo.get(&a) {
            let h = *result;
            proof {
                self.lemma_extends_self();
            }
            return Some(h);
        }
        proof {
            lemma_sp_node(self.nodes@, a);
        }
        let node = self.get(a);
        let x0 = self.complement(node.x0)?;
        let x1 = self.complement(node.x1)?;
        let res = self.mk(x0, x1)?;
        let ghost pre = *self;
        self.complement_memo.insert(a, res);
        proof {
            lemma_fork_algebra(
                old(self).set(node.x0),
                old(self).set(node.x1),
                Set::empty(),
                Set::empty(),
                old(self).depth(node.x0),
            );
            self.lemma_inv_put1(&pre, a, res);
        }
        Some(res)
    }

    /// The test of field `var`: the packets whose field `var` is `value`.
    /// `None` when the store ran out of handles.
    pub fn test(&mut self, var: u32, value: bool) -> (r: Option<SP>)
        requires
            old(self).wf(),
            var < old(self).num_fields(),
        ensures
            final(self).wf(),
            final(self).extends(old(self)),
            match r {
                Some(h) => {
                    &&& final(self).valid(h)
                    &&& final(self).depth(h) == old(self).num_fields()
                    &&& final(self).set(h) == having(var as nat, value, old(self).num_fields())
                },
                None => final(self).is_full(),
            },
    {
        self.test_below(var, value, self.zero, self.one)
    }

    /// The test of field `var` on packets as wide as `zero` and `one` are
    /// deep: above the field both bits lead on, at the field only the bit
    /// `value` does, and below it every packet passes.
    fn test_below(&mut self, var: u32, value: bool, zero: SP, one: SP) -> (r: Option<SP>)
        requires
            old(self).wf(),
            old(self).valid(zero),
            old(self).valid(one),
            old(self).depth(zero) == old(self).depth(one),
            old(self).set(zero) == Set::<Seq<bool>>::empty(),
            old(self).set(one) == every(old(self).depth(one)),
            var < old(self).depth(one),
        ensures
            final(self).wf(),
            final(self).extends(old(self)),
            match r {
                Some(h) => {
                    &&& final(self).valid(h)
                    &&& final(self).depth(h) == old(self).depth(one)
                    &&& final(self).set(h) == having(var as nat, value, old(self).depth(one))
                },
                None => final(self).is_full(),
            },
        decreases var,
    {
        let ghost d = (self.depth(one) - 1) as nat;
        proof {
            self.lemma_inv_nodes();
            lemma_sp_leaf(self.nodes@, one);
            lemma_sp_leaf(self.nodes@, zero);
            lemma_sp_node(self.nodes@, one);
            lemma_sp_node(self.nodes@, zero);
            lemma_fork_algebra(Set::empty(), Set::empty(), Set::empty(), Set::empty(), d);
            let n = self.nodes@[one - 2];
            let z = self.nodes@[zero - 2];
            lemma_fork_injective(self.set(n.x0), self.set(n.x1), every(d), every(d));
            lemma_fork_injective(self.set(z.x0), self.set(z.x1), Set::empty(), Set::empty());
            lemma_fork_having(0, value, (d + 1) as nat);
        }
        let all = self.get(one).x0;
        let none = self.get(zero).x0;
        if var == 0 {
            if value {
                self.mk(none, all)
            } else {
                self.mk(all, none)
            }
        } else {
            let below = self.test_below(var - 1, value, none, all)?;
            proof {
                lemma_fork_having((var - 1) as nat, value, d);
            }
            self.mk(below, below)
        }
    }
}

impl SPstore {
    /// The domain of a symbolic packet program of the store `from`: the
    /// symbolic packet of the packets that the program relates to some
    /// packet. `None` when this store ran out of handles.
    pub fn domain(&mut self, from: &SPPstore, h: SPP) -> (r: Option<SP>)
        requires
            old(self).wf(),
            from.wf(),
            from.valid(h),
        ensures
            final(self).wf(),
            final(self).extends(old(self)),
            match r {
                Some(s) => {
                    &&& final(self).valid(s)
                    &&& final(self).depth(s) == from.depth(h)
                    &&& final(self).set(s) == domain(from.rel(h))
                },
                None => final(self).is_full(),
            },
    {
        let mut memo: HashMap<SPP, SP> = HashMap::new();
        self.domain_of(from, &mut memo, h)
    }

    /// The domain of a symbolic packet program, with a memo of the domains
    /// found so far: the domain of a leaf is the leaf, and the domain of a
    /// node forks into the union of the domains of its two upper children and
    /// the union of the domains of its two lower children.
    fn domain_of(&mut self, from: &SPPstore, memo: &mut HashMap<SPP, SP>, h: SPP) -> (r: Option<SP>)
        requires
            old(self).wf(),
            from.wf(),
            from.valid(h),
            domains_ok(from@, old(self)@, old(memo)@),
        ensures
            final(self).wf(),
            final(self).extends(old(self)),
            domains_ok(from@, final(self)@, final(memo)@),
            match r {
                Some(s) => {
                    &&& final(self).valid(s)
                    &&& final(self).depth(s) == from.depth(h)
                    &&& final(self).set(s) == domain(from.rel(h))
                },
                None => final(self).is_full(),
            },
        decreases h,
    {
        proof {
            self.lemma_inv_nodes();
            from.lemma_inv_nodes();
            self.lemma_extends_self();
            lemma_domain_leaf();
        }
        if h < 2 {
            proof {
                lemma_leaf(from@, h);
                lemma_sp_leaf(self@, h);
            }
            return Some(h);
        }
        if let Some(found) = memo.get(&h) {
            return Some(*found);
        }
        let n = from.get(h);
        proof {
            lemma_node(from@, h);
            lemma_domain_quad(from.rel(n.x00), from.rel(n.x01), from.rel(n.x10), from.rel(n.x11));
        }
        let d00 = self.domain_of(from, memo, n.x00)?;
        let ghost s1 = *self;
        let d01 = self.domain_of(from, memo, n.x01)?;
        let ghost s2 = *self;
        proof {
            assert(s2.set(d00) == s1.set(d00) && s2.depth(d00) == s1.depth(d00));
        }
        let upper = self.union(d00, d01)?;
        let ghost s3 = *self;
        let d10 = self.domain_of(from, memo, n.x10)?;
        let ghost s4 = *self;
        proof {
            assert(s4.set(upper) == s3.set(upper) && s4.depth(upper) == s3.depth(upper));
        }
        let d11 = self.domain_of(from, memo, n.x11)?;
        let ghost s5 = *self;
        proof {
            assert(s5.set(upper) == s4.set(upper) && s5.depth(upper) == s4.depth(upper));
            assert(s5.set(d10) == s4.set(d10) && s5.depth(d10) == s4.depth(d10));
        }
        let lower = self.union(d10, d11)?;
        let ghost s6 = *self;
        proof {
            assert(s6.set(upper) == s5.set(upper) && s6.depth(upper) == s5.depth(upper));
            s5.lemma_inv_nodes();
            s6.lemma_inv_nodes();
            lemma_domains_grown(from@, s5@, s6@, memo@);
        }
        let res = self.mk(upper, lower)?;
        proof {
            self.lemma_inv_nodes();
            lemma_domains_grown(from@, s6@, self@, memo@);
            assert(self.set(res) == domain(from.rel(h)));
        }
        memo.insert(h, res);
        Some(res)
    }
}

} // verus!
