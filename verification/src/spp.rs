//! The store of symbolic packet programs.
//!
//! A symbolic packet program is a complete quaternary decision diagram: one
//! level per packet field, four children per node (one for each combination of
//! the field's input and output bit), and every path from the root to a leaf
//! as long as the number of fields at that root. Nodes are hash-consed, so a
//! handle identifies the relation it denotes.
//!
//! Every operator keeps what it has computed in a memo table of its own,
//! under the handles of its arguments, and leaves the result of each call
//! there.

use crate::random::Source;
use crate::relation::{
    all_rels, lemma_all_rels_at, position, lemma_compose_empty, lemma_compose_identity, lemma_star_empty,
    lemma_star_identity, lemma_quad_injective, lemma_branch_test, lemma_quad_assign_below,
    lemma_quad_assign_here, lemma_quad_branch_below, lemma_quad_branch_here, lemma_quad_empty, lemma_quad_full,
    lemma_quad_identity, lemma_quad_compose, lemma_quad_complement, lemma_quad_star, lemma_quad_difference,
    lemma_quad_intersect, lemma_quad_union, lemma_quad_xor, assign, branch, complement, compose, empty, full,
    identity, quad, star, typed, xor, Rel,
};
use std::collections::HashMap;
use vstd::prelude::*;

verus! {

broadcast use vstd::std_specs::hash::group_hash_axioms;

/// A handle into the store. `0` and `1` are the two leaves; the node at index
/// `i` of the store has the handle `i + 2`.
pub type SPP = u32;

/// The index of a packet field.
pub type Var = u32;

/// The largest number of nodes a store can hold: every node needs a handle.
pub const MAX_NODES: usize = 0xFFFF_FFFE;

/// The largest number of packet fields a store can be made for.
pub const MAX_VARS: Var = 0x3FFF_FFFF;

/// A node of the store: its four children, `xvw` for the input bit `v` and
/// the output bit `w`.
#[derive(Debug, Eq, Hash, PartialEq, Structural, Clone, Copy)]
pub struct SPPnode {
    pub x00: SPP,
    pub x01: SPP,
    pub x10: SPP,
    pub x11: SPP,
}

/// The store: the nodes in order of creation, the table that finds a node
/// again, the three constants at full depth, and one memo table per operator.
///
/// The fields are open to proofs. The operations of the store keep them
/// consistent with one another (`wf`) and ask for that consistency in turn, so
/// a caller reads them and leaves writing to the store.
#[derive(Debug)]
pub struct SPPstore {
    /// The number of packet fields.
    pub num_vars: Var,
    /// The nodes, in order of creation.
    pub nodes: Vec<SPPnode>,
    /// The hash-consing table: from the key of a node to its handle.
    pub hc: HashMap<u128, SPP>,
    /// The empty relation at full depth.
    pub zero: SPP,
    /// The diagonal at full depth.
    pub one: SPP,
    /// The full relation at full depth.
    pub top: SPP,
    /// Memo table of `union`, by the key of the two arguments.
    pub union_memo: HashMap<u64, SPP>,
    /// Memo table of `intersect`.
    pub intersect_memo: HashMap<u64, SPP>,
    /// Memo table of `xor`.
    pub xor_memo: HashMap<u64, SPP>,
    /// Memo table of `difference`.
    pub difference_memo: HashMap<u64, SPP>,
    /// Memo table of `sequence`.
    pub sequence_memo: HashMap<u64, SPP>,
    /// Memo table of `star`.
    pub star_memo: HashMap<SPP, SPP>,
    /// Memo table of `complement`.
    pub complement_memo: HashMap<SPP, SPP>,
    /// Memo table of `branch`: by field, then by the key of the four arguments.
    pub branch_memo: HashMap<Var, HashMap<u128, SPP>>,
}

/// The binary operators that the store memoizes.
pub enum BinOp {
    Union,
    Intersect,
    Xor,
    Difference,
    Sequence,
}

/// The unary operators that the store memoizes.
pub enum UnOp {
    Complement,
    Star,
}

/// What a binary operator does to two relations.
pub open spec fn apply2(op: BinOp, a: Rel, b: Rel) -> Rel {
    match op {
        BinOp::Union => a.union(b),
        BinOp::Intersect => a.intersect(b),
        BinOp::Xor => xor(a, b),
        BinOp::Difference => a.difference(b),
        BinOp::Sequence => compose(a, b),
    }
}

/// What a unary operator does to a relation on `d`-field packets.
pub open spec fn apply1(op: UnOp, a: Rel, d: nat) -> Rel {
    match op {
        UnOp::Complement => complement(a, d),
        UnOp::Star => star(a, d),
    }
}

/// The key under which a node is hash-consed: its four children side by side.
pub open spec fn node_key(n: SPPnode) -> u128 {
    (((n.x00 as int * 0x1_0000_0000 + n.x01 as int) * 0x1_0000_0000 + n.x10 as int) * 0x1_0000_0000
        + n.x11 as int) as u128
}

/// The key under which a pair of handles is memoized.
pub open spec fn pair_key(a: SPP, b: SPP) -> u64 {
    (a as int * 0x1_0000_0000 + b as int) as u64
}

/// Distinct nodes have distinct keys.
pub proof fn lemma_node_key_injective(m: SPPnode, n: SPPnode)
    requires
        node_key(m) == node_key(n),
    ensures
        m == n,
{
}

/// Distinct pairs have distinct keys.
pub proof fn lemma_pair_key_injective(a: SPP, b: SPP, c: SPP, d: SPP)
    requires
        pair_key(a, b) == pair_key(c, d),
    ensures
        a == c,
        b == d,
{
}

/// `h` is a leaf or the handle of one of `nodes`.
pub open spec fn valid_in(nodes: Seq<SPPnode>, h: SPP) -> bool {
    h < nodes.len() + 2
}

/// The number of decision levels below `h`.
#[verifier::opaque]
pub open spec fn depth_in(nodes: Seq<SPPnode>, h: SPP) -> nat
    decreases h,
{
    if 2 <= h < nodes.len() + 2 && nodes[h - 2].x00 < h {
        1 + depth_in(nodes, nodes[h - 2].x00)
    } else {
        0
    }
}

/// The relation that `h` denotes: leaf `0` relates nothing, leaf `1` relates
/// the empty packet to itself, and a node is the block matrix of its children.
#[verifier::opaque]
pub open spec fn rel_in(nodes: Seq<SPPnode>, h: SPP) -> Rel
    decreases h,
{
    if h == 1 {
        identity(0)
    } else if 2 <= h < nodes.len() + 2 {
        let n = nodes[h - 2];
        if n.x00 < h && n.x01 < h && n.x10 < h && n.x11 < h {
            quad(rel_in(nodes, n.x00), rel_in(nodes, n.x01), rel_in(nodes, n.x10), rel_in(nodes, n.x11))
        } else {
            empty()
        }
    } else {
        empty()
    }
}

/// The node at index `i` was built from earlier handles of one common depth.
pub open spec fn node_ok(nodes: Seq<SPPnode>, i: int) -> bool {
    let n = nodes[i];
    &&& n.x00 < i + 2
    &&& n.x01 < i + 2
    &&& n.x10 < i + 2
    &&& n.x11 < i + 2
    &&& depth_in(nodes, n.x01) == depth_in(nodes, n.x00)
    &&& depth_in(nodes, n.x10) == depth_in(nodes, n.x00)
    &&& depth_in(nodes, n.x11) == depth_in(nodes, n.x00)
}

/// Every node has a handle and was built from earlier handles of one depth.
pub open spec fn nodes_wf(nodes: Seq<SPPnode>) -> bool {
    &&& nodes.len() <= MAX_NODES
    &&& forall|i: int| 0 <= i < nodes.len() ==> #[trigger] node_ok(nodes, i)
}

/// The table maps the key of each node to its handle and holds nothing else.
pub open spec fn table_wf(nodes: Seq<SPPnode>, hc: Map<u128, SPP>) -> bool {
    &&& forall|i: int|
        0 <= i < nodes.len() ==> hc.contains_key(#[trigger] node_key(nodes[i])) && hc[node_key(nodes[i])] == i
            + 2
    &&& forall|k: u128| #[trigger]
        hc.contains_key(k) ==> 2 <= hc[k] < nodes.len() + 2 && node_key(nodes[hc[k] - 2]) == k
}

/// `old` is an initial segment of `new`: nodes are only ever added at the end.
pub open spec fn grown(old: Seq<SPPnode>, new: Seq<SPPnode>) -> bool {
    &&& old.len() <= new.len()
    &&& forall|i: int| 0 <= i < old.len() ==> new[i] == old[i]
}

/// A handle of a well-formed store keeps its depth and its relation when the store grows.
pub proof fn lemma_frame(old: Seq<SPPnode>, new: Seq<SPPnode>, h: SPP)
    requires
        nodes_wf(old),
        grown(old, new),
        valid_in(old, h),
    ensures
        valid_in(new, h),
        depth_in(new, h) == depth_in(old, h),
        rel_in(new, h) == rel_in(old, h),
    decreases h,
{
    reveal(rel_in);
    reveal(depth_in);
    if h >= 2 {
        let n = old[h - 2];
        assert(node_ok(old, h - 2));
        lemma_frame(old, new, n.x00);
        lemma_frame(old, new, n.x01);
        lemma_frame(old, new, n.x10);
        lemma_frame(old, new, n.x11);
    }
}

/// The relation of a node is the block matrix of its children's relations,
/// and its depth is one more than theirs.
pub proof fn lemma_node(nodes: Seq<SPPnode>, h: SPP)
    requires
        nodes_wf(nodes),
        valid_in(nodes, h),
        h >= 2,
    ensures
        ({
            let n = nodes[h - 2];
            &&& n.x00 < h && n.x01 < h && n.x10 < h && n.x11 < h
            &&& depth_in(nodes, h) == depth_in(nodes, n.x00) + 1
            &&& depth_in(nodes, h) == depth_in(nodes, n.x01) + 1
            &&& depth_in(nodes, h) == depth_in(nodes, n.x10) + 1
            &&& depth_in(nodes, h) == depth_in(nodes, n.x11) + 1
            &&& rel_in(nodes, h) == quad(
                rel_in(nodes, n.x00),
                rel_in(nodes, n.x01),
                rel_in(nodes, n.x10),
                rel_in(nodes, n.x11),
            )
        }),
{
    reveal(rel_in);
    reveal(depth_in);
    assert(node_ok(nodes, h - 2));
}

/// The two leaves: `0` denotes the empty relation and `1` the relation on the
/// empty packet; both have depth 0, and no node has.
pub proof fn lemma_leaf(nodes: Seq<SPPnode>, h: SPP)
    requires
        nodes_wf(nodes),
        valid_in(nodes, h),
    ensures
        h == 0 ==> rel_in(nodes, h) == empty(),
        h == 1 ==> rel_in(nodes, h) == identity(0),
        h < 2 <==> depth_in(nodes, h) == 0,
{
    reveal(rel_in);
    reveal(depth_in);
    if h >= 2 {
        assert(node_ok(nodes, h - 2));
    }
}

/// The relation of a handle relates packets with as many fields as the handle is deep.
pub proof fn lemma_rel_typed(nodes: Seq<SPPnode>, h: SPP)
    requires
        nodes_wf(nodes),
        valid_in(nodes, h),
    ensures
        typed(rel_in(nodes, h), depth_in(nodes, h)),
    decreases h,
{
    if h >= 2 {
        let n = nodes[h - 2];
        lemma_node(nodes, h);
        lemma_rel_typed(nodes, n.x00);
        lemma_rel_typed(nodes, n.x01);
        lemma_rel_typed(nodes, n.x10);
        lemma_rel_typed(nodes, n.x11);
        crate::relation::lemma_quad_typed(
            rel_in(nodes, n.x00),
            rel_in(nodes, n.x01),
            rel_in(nodes, n.x10),
            rel_in(nodes, n.x11),
            depth_in(nodes, n.x00),
        );
    } else {
        lemma_leaf(nodes, h);
    }
}

/// Hash-consing: two handles of one depth that denote the same relation are the same handle.
pub proof fn lemma_canonical_in(nodes: Seq<SPPnode>, hc: Map<u128, SPP>, a: SPP, b: SPP)
    requires
        nodes_wf(nodes),
        table_wf(nodes, hc),
        valid_in(nodes, a),
        valid_in(nodes, b),
        depth_in(nodes, a) == depth_in(nodes, b),
        rel_in(nodes, a) == rel_in(nodes, b),
    ensures
        a == b,
    decreases a,
{
    lemma_leaf(nodes, a);
    lemma_leaf(nodes, b);
    if a >= 2 {
        let m = nodes[a - 2];
        let n = nodes[b - 2];
        lemma_node(nodes, a);
        lemma_node(nodes, b);
        crate::relation::lemma_quad_injective(
            rel_in(nodes, m.x00),
            rel_in(nodes, m.x01),
            rel_in(nodes, m.x10),
            rel_in(nodes, m.x11),
            rel_in(nodes, n.x00),
            rel_in(nodes, n.x01),
            rel_in(nodes, n.x10),
            rel_in(nodes, n.x11),
        );
        lemma_canonical_in(nodes, hc, m.x00, n.x00);
        lemma_canonical_in(nodes, hc, m.x01, n.x01);
        lemma_canonical_in(nodes, hc, m.x10, n.x10);
        lemma_canonical_in(nodes, hc, m.x11, n.x11);
        assert(m == n);
        assert(hc[node_key(nodes[a - 2])] == a);
        assert(hc[node_key(nodes[b - 2])] == b);
    } else {
        assert(identity(0).contains((Seq::<bool>::empty(), Seq::<bool>::empty())));
    }
}

/// A memo entry is sound: handles of one depth, and the result denotes what
/// the operator makes of the arguments' relations.
pub open spec fn entry2_ok(nodes: Seq<SPPnode>, op: BinOp, a: SPP, b: SPP, r: SPP) -> bool {
    &&& valid_in(nodes, a)
    &&& valid_in(nodes, b)
    &&& valid_in(nodes, r)
    &&& depth_in(nodes, b) == depth_in(nodes, a)
    &&& depth_in(nodes, r) == depth_in(nodes, a)
    &&& rel_in(nodes, r) == apply2(op, rel_in(nodes, a), rel_in(nodes, b))
}

/// A binary memo table holds the four leaf cases and only sound entries.
pub open spec fn memo2_wf(nodes: Seq<SPPnode>, memo: Map<u64, SPP>, op: BinOp) -> bool {
    &&& memo.contains_key(pair_key(0, 0))
    &&& memo.contains_key(pair_key(0, 1))
    &&& memo.contains_key(pair_key(1, 0))
    &&& memo.contains_key(pair_key(1, 1))
    &&& forall|a: SPP, b: SPP| #[trigger]
        memo.contains_key(pair_key(a, b)) ==> entry2_ok(nodes, op, a, b, memo[pair_key(a, b)])
}

/// A memo entry of a unary operator is sound.
pub open spec fn entry1_ok(nodes: Seq<SPPnode>, op: UnOp, a: SPP, r: SPP) -> bool {
    &&& valid_in(nodes, a)
    &&& valid_in(nodes, r)
    &&& depth_in(nodes, r) == depth_in(nodes, a)
    &&& rel_in(nodes, r) == apply1(op, rel_in(nodes, a), depth_in(nodes, a))
}

/// A unary memo table holds the two leaf cases and only sound entries.
pub open spec fn memo1_wf(nodes: Seq<SPPnode>, memo: Map<SPP, SPP>, op: UnOp) -> bool {
    &&& memo.contains_key(0)
    &&& memo.contains_key(1)
    &&& forall|a: SPP| #[trigger] memo.contains_key(a) ==> entry1_ok(nodes, op, a, memo[a])
}

/// Four handles of one depth.
pub open spec fn same_depth(nodes: Seq<SPPnode>, n: SPPnode) -> bool {
    &&& valid_in(nodes, n.x00)
    &&& valid_in(nodes, n.x01)
    &&& valid_in(nodes, n.x10)
    &&& valid_in(nodes, n.x11)
    &&& depth_in(nodes, n.x01) == depth_in(nodes, n.x00)
    &&& depth_in(nodes, n.x10) == depth_in(nodes, n.x00)
    &&& depth_in(nodes, n.x11) == depth_in(nodes, n.x00)
}

/// Four handles of one depth, deeper than `var`.
pub open spec fn branch_args_ok(nodes: Seq<SPPnode>, var: Var, n: SPPnode) -> bool {
    same_depth(nodes, n) && var < depth_in(nodes, n.x00)
}

/// `r` denotes the branch on `var` between the four handles of `n`.
pub open spec fn branch_result_ok(nodes: Seq<SPPnode>, var: Var, n: SPPnode, r: SPP) -> bool {
    &&& valid_in(nodes, r)
    &&& depth_in(nodes, r) == depth_in(nodes, n.x00)
    &&& rel_in(nodes, r) == branch(
        var as nat,
        rel_in(nodes, n.x00),
        rel_in(nodes, n.x01),
        rel_in(nodes, n.x10),
        rel_in(nodes, n.x11),
    )
}

/// The memo table of `branch` holds only sound entries.
pub open spec fn branch_memo_wf(nodes: Seq<SPPnode>, memo: Map<Var, HashMap<u128, SPP>>) -> bool {
    forall|var: Var, n: SPPnode|
        memo.contains_key(var) && #[trigger] memo[var]@.contains_key(node_key(n)) ==> branch_args_ok(
            nodes,
            var,
            n,
        ) && branch_result_ok(nodes, var, n, memo[var]@[node_key(n)])
}

/// Sound binary memo entries stay sound when the store grows.
pub proof fn lemma_memo2_grown(old: Seq<SPPnode>, new: Seq<SPPnode>, memo: Map<u64, SPP>, op: BinOp)
    requires
        nodes_wf(old),
        grown(old, new),
        memo2_wf(old, memo, op),
    ensures
        memo2_wf(new, memo, op),
{
    assert forall|a: SPP, b: SPP| #[trigger] memo.contains_key(pair_key(a, b)) implies entry2_ok(
        new,
        op,
        a,
        b,
        memo[pair_key(a, b)],
    ) by {
        let r = memo[pair_key(a, b)];
        assert(entry2_ok(old, op, a, b, r));
        lemma_frame(old, new, a);
        lemma_frame(old, new, b);
        lemma_frame(old, new, r);
    }
}

/// Sound unary memo entries stay sound when the store grows.
pub proof fn lemma_memo1_grown(old: Seq<SPPnode>, new: Seq<SPPnode>, memo: Map<SPP, SPP>, op: UnOp)
    requires
        nodes_wf(old),
        grown(old, new),
        memo1_wf(old, memo, op),
    ensures
        memo1_wf(new, memo, op),
{
    assert forall|a: SPP| #[trigger] memo.contains_key(a) implies entry1_ok(new, op, a, memo[a]) by {
        let r = memo[a];
        assert(entry1_ok(old, op, a, r));
        lemma_frame(old, new, a);
        lemma_frame(old, new, r);
    }
}

/// Sound `branch` memo entries stay sound when the store grows.
pub proof fn lemma_branch_memo_grown(old: Seq<SPPnode>, new: Seq<SPPnode>, memo: Map<Var, HashMap<u128, SPP>>)
    requires
        nodes_wf(old),
        grown(old, new),
        branch_memo_wf(old, memo),
    ensures
        branch_memo_wf(new, memo),
{
    assert forall|var: Var, n: SPPnode|
        memo.contains_key(var) && #[trigger] memo[var]@.contains_key(node_key(n)) implies branch_args_ok(
        new,
        var,
        n,
    ) && branch_result_ok(new, var, n, memo[var]@[node_key(n)]) by {
        let r = memo[var]@[node_key(n)];
        assert(branch_args_ok(old, var, n) && branch_result_ok(old, var, n, r));
        lemma_frame(old, new, n.x00);
        lemma_frame(old, new, n.x01);
        lemma_frame(old, new, n.x10);
        lemma_frame(old, new, n.x11);
        lemma_frame(old, new, r);
    }
}

/// The key of a node, computed.
fn node_key_of(n: &SPPnode) -> (k: u128)
    ensures
        k == node_key(*n),
{
    (((n.x00 as u128) * 0x1_0000_0000 + (n.x01 as u128)) * 0x1_0000_0000 + (n.x10 as u128))
        * 0x1_0000_0000 + (n.x11 as u128)
}

/// The key of a pair of handles, computed.
fn pair_key_of(a: SPP, b: SPP) -> (k: u64)
    ensures
        k == pair_key(a, b),
{
    (a as u64) * 0x1_0000_0000 + (b as u64)
}

/// The memo table that holds just the four pairs of leaves, with these values.
pub open spec fn seeded2(v00: SPP, v01: SPP, v10: SPP, v11: SPP) -> Map<u64, SPP> {
    Map::empty().insert(pair_key(0, 0), v00).insert(pair_key(0, 1), v01).insert(pair_key(1, 0), v10).insert(
        pair_key(1, 1),
        v11,
    )
}

/// The memo table that holds just the two leaves, with these values.
pub open spec fn seeded1(v0: SPP, v1: SPP) -> Map<SPP, SPP> {
    Map::empty().insert(0, v0).insert(1, v1)
}

/// A memo table of a binary operator, filled with its value on each pair of leaves.
fn seed2(v00: SPP, v01: SPP, v10: SPP, v11: SPP) -> (m: HashMap<u64, SPP>)
    ensures
        m@ == seeded2(v00, v01, v10, v11),
{
    let mut m = HashMap::new();
    m.insert(pair_key_of(0, 0), v00);
    m.insert(pair_key_of(0, 1), v01);
    m.insert(pair_key_of(1, 0), v10);
    m.insert(pair_key_of(1, 1), v11);
    m
}

/// A memo table of a unary operator, filled with its value on each leaf.
fn seed1(v0: SPP, v1: SPP) -> (m: HashMap<SPP, SPP>)
    ensures
        m@ == seeded1(v0, v1),
{
    let mut m = HashMap::new();
    m.insert(0, v0);
    m.insert(1, v1);
    m
}

/// On packets without fields there are two relations, and the operators act
/// on them as the Boolean connectives do.
pub proof fn lemma_leaf_algebra()
    ensures
        full(0) == identity(0),
        complement(empty(), 0) == identity(0),
        complement(identity(0), 0) == empty(),
        star(empty(), 0) == identity(0),
        star(identity(0), 0) == identity(0),
        compose(empty(), empty()) == empty(),
        compose(empty(), identity(0)) == empty(),
        compose(identity(0), empty()) == empty(),
        compose(identity(0), identity(0)) == identity(0),
        empty().union(empty()) == empty(),
        empty().union(identity(0)) == identity(0),
        identity(0).union(empty()) == identity(0),
        identity(0).union(identity(0)) == identity(0),
        empty().intersect(empty()) == empty(),
        empty().intersect(identity(0)) == empty(),
        identity(0).intersect(empty()) == empty(),
        identity(0).intersect(identity(0)) == identity(0),
        empty().difference(empty()) == empty(),
        empty().difference(identity(0)) == empty(),
        identity(0).difference(empty()) == identity(0),
        identity(0).difference(identity(0)) == empty(),
        xor(empty(), empty()) == empty(),
        xor(empty(), identity(0)) == identity(0),
        xor(identity(0), empty()) == identity(0),
        xor(identity(0), identity(0)) == empty(),
{
    let e = empty();
    let i = identity(0);
    assert forall|pq: (Seq<bool>, Seq<bool>)| full(0).contains(pq) implies i.contains(pq) by {
        assert(pq.0 =~= pq.1);
    }
    assert(full(0) =~= i);
    assert(complement(e, 0) =~= i);
    assert(complement(i, 0) =~= e);
    lemma_star_empty(0);
    lemma_star_identity(0);
    lemma_compose_empty(e);
    lemma_compose_empty(i);
    lemma_compose_identity(i, 0);
    assert(e.union(e) =~= e);
    assert(e.union(i) =~= i);
    assert(i.union(e) =~= i);
    assert(i.union(i) =~= i);
    assert(e.intersect(e) =~= e);
    assert(e.intersect(i) =~= e);
    assert(i.intersect(e) =~= e);
    assert(i.intersect(i) =~= i);
    assert(e.difference(e) =~= e);
    assert(e.difference(i) =~= e);
    assert(i.difference(e) =~= i);
    assert(i.difference(i) =~= e);
    assert(xor(e, e) =~= e);
    assert(xor(e, i) =~= i);
    assert(xor(i, e) =~= i);
    assert(xor(i, i) =~= e);
}

/// The value of a binary operator on a pair of leaves.
pub open spec fn leaf2(op: BinOp, a: SPP, b: SPP) -> SPP {
    match op {
        BinOp::Union => if a == 1 || b == 1 { 1 } else { 0 },
        BinOp::Intersect => if a == 1 && b == 1 { 1 } else { 0 },
        BinOp::Xor => if a != b { 1 } else { 0 },
        BinOp::Difference => if a == 1 && b == 0 { 1 } else { 0 },
        BinOp::Sequence => if a == 1 && b == 1 { 1 } else { 0 },
    }
}

/// The value of a unary operator on a leaf.
pub open spec fn leaf1(op: UnOp, a: SPP) -> SPP {
    match op {
        UnOp::Complement => if a == 1 { 0 } else { 1 },
        UnOp::Star => 1,
    }
}

/// The table of an operator's values on the leaves is a sound memo table of an empty store.
pub proof fn lemma_seeded2(op: BinOp)
    ensures
        memo2_wf(
            Seq::empty(),
            seeded2(leaf2(op, 0, 0), leaf2(op, 0, 1), leaf2(op, 1, 0), leaf2(op, 1, 1)),
            op,
        ),
{
    let nodes = Seq::<SPPnode>::empty();
    let memo = seeded2(leaf2(op, 0, 0), leaf2(op, 0, 1), leaf2(op, 1, 0), leaf2(op, 1, 1));
    lemma_leaf_algebra();
    lemma_leaf(nodes, 0);
    lemma_leaf(nodes, 1);
    assert forall|a: SPP, b: SPP| #[trigger] memo.contains_key(pair_key(a, b)) implies entry2_ok(
        nodes,
        op,
        a,
        b,
        memo[pair_key(a, b)],
    ) by {
        if pair_key(a, b) == pair_key(0, 0) {
            lemma_pair_key_injective(a, b, 0, 0);
        } else if pair_key(a, b) == pair_key(0, 1) {
            lemma_pair_key_injective(a, b, 0, 1);
        } else if pair_key(a, b) == pair_key(1, 0) {
            lemma_pair_key_injective(a, b, 1, 0);
        } else {
            lemma_pair_key_injective(a, b, 1, 1);
        }
    }
}

/// The table of an operator's values on the leaves is a sound memo table of an empty store.
pub proof fn lemma_seeded1(op: UnOp)
    ensures
        memo1_wf(Seq::empty(), seeded1(leaf1(op, 0), leaf1(op, 1)), op),
{
    let nodes = Seq::<SPPnode>::empty();
    lemma_leaf_algebra();
    lemma_leaf(nodes, 0);
    lemma_leaf(nodes, 1);
}

/// The handles of `v` are handles of depth `d`, and the handle at each
/// position denotes the relation at that position of `all_rels(d)`.
pub open spec fn lists_some(nodes: Seq<SPPnode>, v: Seq<SPP>, d: nat) -> bool {
    &&& v.len() <= all_rels(d).len()
    &&& forall|i: int|
        0 <= i < v.len() ==> valid_in(nodes, #[trigger] v[i]) && depth_in(nodes, v[i]) == d && rel_in(
            nodes,
            v[i],
        ) == all_rels(d)[i]
}

/// `v` lists the handles of the relations of `all_rels(d)`, in that order.
pub open spec fn lists_all(nodes: Seq<SPPnode>, v: Seq<SPP>, d: nat) -> bool {
    v.len() == all_rels(d).len() && lists_some(nodes, v, d)
}

/// A list of handles stays what it is when the store grows.
pub proof fn lemma_lists_some_grown(old: Seq<SPPnode>, new: Seq<SPPnode>, v: Seq<SPP>, d: nat)
    requires
        nodes_wf(old),
        grown(old, new),
        lists_some(old, v, d),
    ensures
        lists_some(new, v, d),
{
    assert forall|i: int| 0 <= i < v.len() implies valid_in(new, #[trigger] v[i]) && depth_in(new, v[i]) == d
        && rel_in(new, v[i]) == all_rels(d)[i] by {
        lemma_frame(old, new, v[i]);
    }
}

/// A complete list of handles stays what it is when the store grows.
pub proof fn lemma_lists_grown(old: Seq<SPPnode>, new: Seq<SPPnode>, v: Seq<SPP>, d: nat)
    requires
        nodes_wf(old),
        grown(old, new),
        lists_all(old, v, d),
    ensures
        lists_all(new, v, d),
{
    lemma_lists_some_grown(old, new, v, d);
}

impl View for SPPstore {
    type V = Seq<SPPnode>;

    /// The nodes of the store, in order of creation.
    open spec fn view(&self) -> Seq<SPPnode> {
        self.nodes@
    }
}

/// The handle of a constant of depth `j` in a fresh store: the leaf at depth
/// 0, and at a greater depth the handle of the `j`-th node after the first
/// `base` nodes.
pub open spec fn rung(leaf: SPP, base: nat, j: nat) -> SPP {
    if j == 0 {
        leaf
    } else {
        (base + j + 1) as SPP
    }
}

/// The node at index `j` of a fresh store for packets of `k` fields.
pub open spec fn fresh_node(k: nat, j: int) -> SPPnode {
    if j < k {
        let z = rung(0, 0, j as nat);
        SPPnode { x00: z, x01: z, x10: z, x11: z }
    } else if j < 2 * k {
        let z = rung(0, 0, (j - k) as nat);
        let o = rung(1, k, (j - k) as nat);
        SPPnode { x00: o, x01: z, x10: z, x11: o }
    } else {
        let t = rung(1, 2 * k, (j - 2 * k) as nat);
        SPPnode { x00: t, x01: t, x10: t, x11: t }
    }
}

/// The nodes of a fresh store for packets of `k` fields, in the order of
/// their handles: the empty relation at the depths from 1 to `k`, then the
/// diagonal at these depths, then the full relation at these depths.
pub open spec fn fresh_nodes(k: nat) -> Seq<SPPnode> {
    Seq::new(3 * k, |j: int| fresh_node(k, j))
}

/// No two nodes of a well-formed store are the same.
pub proof fn lemma_nodes_distinct(nodes: Seq<SPPnode>, hc: Map<u128, SPP>, i: int, j: int)
    requires
        table_wf(nodes, hc),
        0 <= i < nodes.len(),
        0 <= j < nodes.len(),
        nodes[i] == nodes[j],
    ensures
        i == j,
{
    assert(hc[node_key(nodes[i])] == i + 2);
    assert(hc[node_key(nodes[j])] == j + 2);
}

impl SPPstore {
    /// The number of packet fields the store was made for.
    pub open spec fn num_fields(&self) -> nat {
        self.num_vars as nat
    }

    /// `h` is a handle of this store.
    pub open spec fn valid(&self, h: SPP) -> bool {
        valid_in(self@, h)
    }

    /// The number of packet fields that `h` decides.
    pub open spec fn depth(&self, h: SPP) -> nat {
        depth_in(self@, h)
    }

    /// The relation on packets that `h` denotes.
    pub open spec fn rel(&self, h: SPP) -> Rel {
        rel_in(self@, h)
    }

    /// No handle is left for a new node.
    pub open spec fn is_full(&self) -> bool {
        self@.len() == MAX_NODES
    }

    /// The structural invariant: nodes, hash-consing table and memo tables
    /// agree with one another.
    #[verifier::opaque]
    pub open spec fn inv(&self) -> bool {
        &&& nodes_wf(self.nodes@)
        &&& table_wf(self.nodes@, self.hc@)
        &&& memo2_wf(self.nodes@, self.union_memo@, BinOp::Union)
        &&& memo2_wf(self.nodes@, self.intersect_memo@, BinOp::Intersect)
        &&& memo2_wf(self.nodes@, self.xor_memo@, BinOp::Xor)
        &&& memo2_wf(self.nodes@, self.difference_memo@, BinOp::Difference)
        &&& memo2_wf(self.nodes@, self.sequence_memo@, BinOp::Sequence)
        &&& memo1_wf(self.nodes@, self.star_memo@, UnOp::Star)
        &&& memo1_wf(self.nodes@, self.complement_memo@, UnOp::Complement)
        &&& branch_memo_wf(self.nodes@, self.branch_memo@)
    }

    /// The three constants are what their names say, at the store's full depth.
    pub open spec fn constants_ok(&self) -> bool {
        &&& self.valid(self.zero)
        &&& self.valid(self.one)
        &&& self.valid(self.top)
        &&& self.depth(self.zero) == self.num_fields()
        &&& self.depth(self.one) == self.num_fields()
        &&& self.depth(self.top) == self.num_fields()
        &&& self.rel(self.zero) == empty()
        &&& self.rel(self.one) == identity(self.num_fields())
        &&& self.rel(self.top) == full(self.num_fields())
    }

    /// The store is well formed.
    pub open spec fn wf(&self) -> bool {
        self.inv() && self.constants_ok()
    }

    /// This store has grown out of `old`: every node of `old` is still in
    /// place, so every handle of `old` is a handle of this store, with the same
    /// depth and the same relation.
    pub open spec fn extends(&self, old: &SPPstore) -> bool {
        &&& self.num_fields() == old.num_fields()
        &&& self.zero == old.zero
        &&& self.one == old.one
        &&& self.top == old.top
        &&& grown(old@, self@)
        &&& forall|h: SPP|
            #![trigger rel_in(old@, h)]
            #![trigger depth_in(old@, h)]
            valid_in(old@, h) ==> valid_in(self@, h) && depth_in(self@, h) == depth_in(old@, h) && rel_in(
                self@,
                h,
            ) == rel_in(old@, h)
    }

    /// A store for packets of `num_vars` fields, holding the three constants
    /// `zero` (the empty relation), `one` (the diagonal) and `top` (the full
    /// relation) and nothing else.
    pub fn new(num_vars: Var) -> (store: Self)
        requires
            num_vars <= MAX_VARS,
        ensures
            store.wf(),
            store.num_fields() == num_vars,
            store@ == fresh_nodes(num_vars as nat),
            store.zero == rung(0, 0, num_vars as nat),
            store.one == rung(1, num_vars as nat, num_vars as nat),
            store.top == rung(1, 2 * num_vars as nat, num_vars as nat),
    {
        let mut store = Self {
            num_vars,
            nodes: Vec::new(),
            hc: HashMap::new(),
            zero: 0,
            one: 0,
            top: 0,
            union_memo: seed2(0, 1, 1, 1),
            intersect_memo: seed2(0, 0, 0, 1),
            xor_memo: seed2(0, 1, 1, 0),
            difference_memo: seed2(0, 0, 1, 0),
            sequence_memo: seed2(0, 0, 0, 1),
            star_memo: seed1(1, 1),
            complement_memo: seed1(1, 0),
            branch_memo: HashMap::new(),
        };
        proof {
            reveal(SPPstore::inv);
            lemma_seeded2(BinOp::Union);
            lemma_seeded2(BinOp::Intersect);
            lemma_seeded2(BinOp::Xor);
            lemma_seeded2(BinOp::Difference);
            lemma_seeded2(BinOp::Sequence);
            lemma_seeded1(UnOp::Star);
            lemma_seeded1(UnOp::Complement);
            assert(store.inv());
        }
        proof {
            assert(store@ =~= fresh_nodes(num_vars as nat).take(0));
        }
        let zero = store.zero().unwrap();
        store.zero = zero;
        let one = store.one().unwrap();
        store.one = one;
        let top = store.top().unwrap();
        store.top = top;
        proof {
            assert(store@ =~= fresh_nodes(num_vars as nat));
        }
        store
    }

    /// Retrieves the node behind the handle of an internal node.
    pub fn get(&self, spp: SPP) -> (node: SPPnode)
        requires
            2 <= spp,
            self.valid(spp),
        ensures
            node == self@[spp - 2],
    {
        self.nodes[(spp - 2) as usize]
    }

    /// Finds the node with these four children, or adds it to the store when
    /// it is new and a handle is left.
    #[verifier::rlimit(40)]
    fn mk(&mut self, x00: SPP, x01: SPP, x10: SPP, x11: SPP) -> (r: Option<SPP>)
        requires
            old(self).inv(),
            same_depth(old(self)@, SPPnode { x00, x01, x10, x11 }),
        ensures
            final(self).inv(),
            final(self).extends(old(self)),
            final(self)@.len() <= old(self)@.len() + 1,
            match r {
                Some(h) => {
                    &&& 2 <= h
                    &&& final(self).valid(h)
                    &&& final(self)@[h - 2] == SPPnode { x00, x01, x10, x11 }
                    &&& final(self).depth(h) == old(self).depth(x00) + 1
                    &&& final(self).rel(h) == quad(
                        old(self).rel(x00),
                        old(self).rel(x01),
                        old(self).rel(x10),
                        old(self).rel(x11),
                    )
                    &&& old(self)@.contains(SPPnode { x00, x01, x10, x11 }) ==> final(self)@ == old(self)@
                    &&& !old(self)@.contains(SPPnode { x00, x01, x10, x11 }) ==> final(self)@ == old(self)@.push(
                        SPPnode { x00, x01, x10, x11 },
                    ) && h == old(self)@.len() + 2
                },
                None => final(self)@ == old(self)@ && final(self).is_full(),
            },
    {
        proof {
            reveal(SPPstore::inv);
        }
        let node = SPPnode { x00, x01, x10, x11 };
        let key = node_key_of(&node);
        if let Some(spp) = self.hc.get(&key) {
            let h = *spp;
            proof {
                lemma_node_key_injective(self.nodes@[h - 2], node);
                lemma_node(self.nodes@, h);
                self.lemma_extends_self();
                assert(self.nodes@[h - 2] == node);
                assert(self.nodes@.contains(node));
            }
            return Some(h);
        }
        if self.nodes.len() >= MAX_NODES {
            proof {
                self.lemma_extends_self();
            }
            return None;
        }
        let spp = self.nodes.len() as SPP + 2;
        let ghost before = self.nodes@;
        self.nodes.push(node);
        self.hc.insert(key, spp);
        proof {
            let after = self.nodes@;
            assert(grown(before, after));
            assert forall|i: int| 0 <= i < after.len() implies #[trigger] node_ok(after, i) by {
                if i < before.len() {
                    assert(node_ok(before, i));
                }
                lemma_frame(before, after, after[i].x00);
                lemma_frame(before, after, after[i].x01);
                lemma_frame(before, after, after[i].x10);
                lemma_frame(before, after, after[i].x11);
            }
            assert forall|i: int| 0 <= i < after.len() implies self.hc@.contains_key(
                #[trigger] node_key(after[i]),
            ) && self.hc@[node_key(after[i])] == i + 2 by {
                if i < before.len() {
                    assert(old(self).hc@.contains_key(node_key(before[i])));
                }
            }
            assert forall|k: u128| #[trigger] self.hc@.contains_key(k) implies 2 <= self.hc@[k] < after.len() + 2
                && node_key(after[self.hc@[k] - 2]) == k by {
                if k != key {
                    assert(old(self).hc@.contains_key(k));
                }
            }
            lemma_memo2_grown(before, after, self.union_memo@, BinOp::Union);
            lemma_memo2_grown(before, after, self.intersect_memo@, BinOp::Intersect);
            lemma_memo2_grown(before, after, self.xor_memo@, BinOp::Xor);
            lemma_memo2_grown(before, after, self.difference_memo@, BinOp::Difference);
            lemma_memo2_grown(before, after, self.sequence_memo@, BinOp::Sequence);
            lemma_memo1_grown(before, after, self.star_memo@, UnOp::Star);
            lemma_memo1_grown(before, after, self.complement_memo@, UnOp::Complement);
            lemma_branch_memo_grown(before, after, self.branch_memo@);
            lemma_node(after, spp);
            lemma_frame(before, after, x00);
            lemma_frame(before, after, x01);
            lemma_frame(before, after, x10);
            lemma_frame(before, after, x11);
            assert forall|h: SPP| valid_in(before, h) implies valid_in(after, h) && depth_in(after, h)
                == depth_in(before, h) && rel_in(after, h) == rel_in(before, h) by {
                lemma_frame(before, after, h);
            }
            assert(!before.contains(node)) by {
                if before.contains(node) {
                    let i = choose|i: int| 0 <= i < before.len() && before[i] == node;
                    assert(old(self).hc@.contains_key(node_key(before[i])));
                }
            }
        }
        Some(spp)
    }

    /// What the invariant says of the nodes.
    pub proof fn lemma_inv_nodes(&self)
        requires
            self.inv(),
        ensures
            nodes_wf(self@),
            table_wf(self@, self.hc@),
    {
        reveal(SPPstore::inv);
    }

    /// The memo table of a binary operator.
    pub open spec fn memo2(&self, op: BinOp) -> Map<u64, SPP> {
        match op {
            BinOp::Union => self.union_memo@,
            BinOp::Intersect => self.intersect_memo@,
            BinOp::Xor => self.xor_memo@,
            BinOp::Difference => self.difference_memo@,
            BinOp::Sequence => self.sequence_memo@,
        }
    }

    /// The memo table of a unary operator.
    pub open spec fn memo1(&self, op: UnOp) -> Map<SPP, SPP> {
        match op {
            UnOp::Complement => self.complement_memo@,
            UnOp::Star => self.star_memo@,
        }
    }

    /// What the invariant says of the memo table of a binary operator.
    proof fn lemma_inv_memo2(&self, op: BinOp)
        requires
            self.inv(),
        ensures
            nodes_wf(self@),
            memo2_wf(self@, self.memo2(op), op),
    {
        reveal(SPPstore::inv);
    }

    /// What the invariant says of the memo table of a unary operator.
    proof fn lemma_inv_memo1(&self, op: UnOp)
        requires
            self.inv(),
        ensures
            nodes_wf(self@),
            memo1_wf(self@, self.memo1(op), op),
    {
        reveal(SPPstore::inv);
    }

    /// The invariant survives a sound new entry in the memo table of a binary operator.
    proof fn lemma_inv_put2(&self, pre: &SPPstore, op: BinOp, a: SPP, b: SPP, r: SPP)
        requires
            pre.inv(),
            entry2_ok(pre@, op, a, b, r),
            self.memo2(op) == pre.memo2(op).insert(pair_key(a, b), r),
            match op {
                BinOp::Union => *self == (SPPstore { union_memo: self.union_memo, ..*pre }),
                BinOp::Intersect => *self == (SPPstore { intersect_memo: self.intersect_memo, ..*pre }),
                BinOp::Xor => *self == (SPPstore { xor_memo: self.xor_memo, ..*pre }),
                BinOp::Difference => *self == (SPPstore { difference_memo: self.difference_memo, ..*pre }),
                BinOp::Sequence => *self == (SPPstore { sequence_memo: self.sequence_memo, ..*pre }),
            },
        ensures
            self.inv(),
            self.extends(pre),
    {
        reveal(SPPstore::inv);
        lemma_memo2_insert(pre@, pre.memo2(op), op, a, b, r);
    }

    /// The invariant survives a sound new entry in the memo table of a unary operator.
    proof fn lemma_inv_put1(&self, pre: &SPPstore, op: UnOp, a: SPP, r: SPP)
        requires
            pre.inv(),
            entry1_ok(pre@, op, a, r),
            self.memo1(op) == pre.memo1(op).insert(a, r),
            match op {
                UnOp::Complement => *self == (SPPstore { complement_memo: self.complement_memo, ..*pre }),
                UnOp::Star => *self == (SPPstore { star_memo: self.star_memo, ..*pre }),
            },
        ensures
            self.inv(),
            self.extends(pre),
    {
        reveal(SPPstore::inv);
        assert forall|c: SPP| #[trigger] self.memo1(op).contains_key(c) implies entry1_ok(
            self@,
            op,
            c,
            self.memo1(op)[c],
        ) by {
            if c != a {
                assert(pre.memo1(op).contains_key(c));
            }
        }
    }

    /// Hash-consing: in a well-formed store, two handles of one depth that
    /// denote the same relation are the same handle.
    pub proof fn lemma_canonical(&self, a: SPP, b: SPP)
        requires
            self.wf(),
            self.valid(a),
            self.valid(b),
            self.depth(a) == self.depth(b),
            self.rel(a) == self.rel(b),
        ensures
            a == b,
    {
        self.lemma_inv_nodes();
        lemma_canonical_in(self@, self.hc@, a, b);
    }

    /// The relation of a handle relates packets with as many fields as the
    /// handle is deep.
    pub proof fn lemma_typed(&self, h: SPP)
        requires
            self.wf(),
            self.valid(h),
        ensures
            typed(self.rel(h), self.depth(h)),
    {
        self.lemma_inv_nodes();
        lemma_rel_typed(self@, h);
    }

    /// A store extends itself.
    pub proof fn lemma_extends_self(&self)
        ensures
            self.extends(self),
    {
    }

    /// The union of two symbolic packet programs of one depth: the pairs that
    /// either of them relates. `None` when the store ran out of handles.
    pub fn union(&mut self, a: SPP, b: SPP) -> (r: Option<SPP>)
        requires
            old(self).wf(),
            old(self).valid(a),
            old(self).valid(b),
            old(self).depth(a) == old(self).depth(b),
        ensures
            final(self).wf(),
            final(self).extends(old(self)),
            match r {
                Some(h) => {
                    &&& final(self).valid(h)
                    &&& final(self).depth(h) == old(self).depth(a)
                    &&& final(self).rel(h) == old(self).rel(a).union(old(self).rel(b))
                    &&& final(self).union_memo@.contains_key(pair_key(a, b))
                    &&& final(self).union_memo@[pair_key(a, b)] == h
                },
                None => final(self).is_full(),
            },
        decreases old(self).depth(a),
    {
        let key = pair_key_of(a, b);
        proof {
            self.lemma_inv_memo2(BinOp::Union);
        }
        if let Some(result) = self.union_memo.get(&key) {
            let h = *result;
            proof {
                self.lemma_extends_self();
            }
            return Some(h);
        }
        proof {
            lemma_memo2_miss(self.nodes@, self.union_memo@, BinOp::Union, a, b);
            lemma_node(self.nodes@, a);
            lemma_node(self.nodes@, b);
        }
        let a_node = self.get(a);
        let b_node = self.get(b);
        let x00 = self.union(a_node.x00, b_node.x00)?;
        let x01 = self.union(a_node.x01, b_node.x01)?;
        let x10 = self.union(a_node.x10, b_node.x10)?;
        let x11 = self.union(a_node.x11, b_node.x11)?;
        let res = self.mk(x00, x01, x10, x11)?;
        let ghost pre = *self;
        self.union_memo.insert(key, res);
        proof {
            lemma_quad_union(
                old(self).rel(a_node.x00),
                old(self).rel(a_node.x01),
                old(self).rel(a_node.x10),
                old(self).rel(a_node.x11),
                old(self).rel(b_node.x00),
                old(self).rel(b_node.x01),
                old(self).rel(b_node.x10),
                old(self).rel(b_node.x11),
            );
            self.lemma_inv_put2(&pre, BinOp::Union, a, b, res);
        }
        Some(res)
    }

    /// The intersection of two symbolic packet programs of one depth: the pairs
    /// that both of them relate.
    /// `None` when the store ran out of handles.
    pub fn intersect(&mut self, a: SPP, b: SPP) -> (r: Option<SPP>)
        requires
            old(self).wf(),
            old(self).valid(a),
            old(self).valid(b),
            old(self).depth(a) == old(self).depth(b),
        ensures
            final(self).wf(),
            final(self).extends(old(self)),
            match r {
                Some(h) => {
                    &&& final(self).valid(h)
                    &&& final(self).depth(h) == old(self).depth(a)
                    &&& final(self).rel(h) == old(self).rel(a).intersect(old(self).rel(b))
                    &&& final(self).intersect_memo@.contains_key(pair_key(a, b))
                    &&& final(self).intersect_memo@[pair_key(a, b)] == h
                },
                None => final(self).is_full(),
            },
        decreases old(self).depth(a),
    {
        let key = pair_key_of(a, b);
        proof {
            self.lemma_inv_memo2(BinOp::Intersect);
        }
        if let Some(result) = self.intersect_memo.get(&key) {
            let h = *result;
            proof {
                self.lemma_extends_self();
            }
            return Some(h);
        }
        proof {
            lemma_memo2_miss(self.nodes@, self.intersect_memo@, BinOp::Intersect, a, b);
            lemma_node(self.nodes@, a);
            lemma_node(self.nodes@, b);
        }
        let a_node = self.get(a);
        let b_node = self.get(b);
        let x00 = self.intersect(a_node.x00, b_node.x00)?;
        let x01 = self.intersect(a_node.x01, b_node.x01)?;
        let x10 = self.intersect(a_node.x10, b_node.x10)?;
        let x11 = self.intersect(a_node.x11, b_node.x11)?;
        let res = self.mk(x00, x01, x10, x11)?;
        let ghost pre = *self;
        self.intersect_memo.insert(key, res);
        proof {
            lemma_quad_intersect(
                old(self).rel(a_node.x00),
                old(self).rel(a_node.x01),
                old(self).rel(a_node.x10),
                old(self).rel(a_node.x11),
                old(self).rel(b_node.x00),
                old(self).rel(b_node.x01),
                old(self).rel(b_node.x10),
                old(self).rel(b_node.x11),
            );
            self.lemma_inv_put2(&pre, BinOp::Intersect, a, b, res);
        }
        Some(res)
    }

    /// The symmetric difference of two symbolic packet programs of one depth:
    /// the pairs that exactly one of them relates.
    /// `None` when the store ran out of handles.
    pub fn xor(&mut self, a: SPP, b: SPP) -> (r: Option<SPP>)
        requires
            old(self).wf(),
            old(self).valid(a),
            old(self).valid(b),
            old(self).depth(a) == old(self).depth(b),
        ensures
            final(self).wf(),
            final(self).extends(old(self)),
            match r {
                Some(h) => {
                    &&& final(self).valid(h)
                    &&& final(self).depth(h) == old(self).depth(a)
                    &&& final(self).rel(h) == xor(old(self).rel(a), old(self).rel(b))
                    &&& final(self).xor_memo@.contains_key(pair_key(a, b))
                    &&& final(self).xor_memo@[pair_key(a, b)] == h
                },
                None => final(self).is_full(),
            },
        decreases old(self).depth(a),
    {
        let key = pair_key_of(a, b);
        proof {
            self.lemma_inv_memo2(BinOp::Xor);
        }
        if let Some(result) = self.xor_memo.get(&key) {
            let h = *result;
            proof {
                self.lemma_extends_self();
            }
            return Some(h);
        }
        proof {
            lemma_memo2_miss(self.nodes@, self.xor_memo@, BinOp::Xor, a, b);
            lemma_node(self.nodes@, a);
            lemma_node(self.nodes@, b);
        }
        let a_node = self.get(a);
        let b_node = self.get(b);
        let x00 = self.xor(a_node.x00, b_node.x00)?;
        let x01 = self.xor(a_node.x01, b_node.x01)?;
        let x10 = self.xor(a_node.x10, b_node.x10)?;
        let x11 = self.xor(a_node.x11, b_node.x11)?;
        let res = self.mk(x00, x01, x10, x11)?;
        let ghost pre = *self;
        self.xor_memo.insert(key, res);
        proof {
            lemma_quad_xor(
                old(self).rel(a_node.x00),
                old(self).rel(a_node.x01),
                old(self).rel(a_node.x10),
                old(self).rel(a_node.x11),
                old(self).rel(b_node.x00),
                old(self).rel(b_node.x01),
                old(self).rel(b_node.x10),
                old(self).rel(b_node.x11),
            );
            self.lemma_inv_put2(&pre, BinOp::Xor, a, b, res);
        }
        Some(res)
    }

    /// The difference of two symbolic packet programs of one depth: the pairs
    /// that `a` relates and `b` does not.
    /// `None` when the store ran out of handles.
    pub fn difference(&mut self, a: SPP, b: SPP) -> (r: Option<SPP>)
        requires
            old(self).wf(),
            old(self).valid(a),
            old(self).valid(b),
            old(self).depth(a) == old(self).depth(b),
        ensures
            final(self).wf(),
            final(self).extends(old(self)),
            match r {
                Some(h) => {
                    &&& final(self).valid(h)
                    &&& final(self).depth(h) == old(self).depth(a)
                    &&& final(self).rel(h) == old(self).rel(a).difference(old(self).rel(b))
                    &&& final(self).difference_memo@.contains_key(pair_key(a, b))
                    &&& final(self).difference_memo@[pair_key(a, b)] == h
                },
                None => final(self).is_full(),
            },
        decreases old(self).depth(a),
    {
        let key = pair_key_of(a, b);
        proof {
            self.lemma_inv_memo2(BinOp::Difference);
        }
        if let Some(result) = self.difference_memo.get(&key) {
            let h = *result;
            proof {
                self.lemma_extends_self();
            }
            return Some(h);
        }
        proof {
            lemma_memo2_miss(self.nodes@, self.difference_memo@, BinOp::Difference, a, b);
            lemma_node(self.nodes@, a);
            lemma_node(self.nodes@, b);
        }
        let a_node = self.get(a);
        let b_node = self.get(b);
        let x00 = self.difference(a_node.x00, b_node.x00)?;
        let x01 = self.difference(a_node.x01, b_node.x01)?;
        let x10 = self.difference(a_node.x10, b_node.x10)?;
        let x11 = self.difference(a_node.x11, b_node.x11)?;
        let res = self.mk(x00, x01, x10, x11)?;
        let ghost pre = *self;
        self.difference_memo.insert(key, res);
        proof {
            lemma_quad_difference(
                old(self).rel(a_node.x00),
                old(self).rel(a_node.x01),
                old(self).rel(a_node.x10),
                old(self).rel(a_node.x11),
                old(self).rel(b_node.x00),
                old(self).rel(b_node.x01),
                old(self).rel(b_node.x10),
                old(self).rel(b_node.x11),
            );
            self.lemma_inv_put2(&pre, BinOp::Difference, a, b, res);
        }
        Some(res)
    }

    /// The complement of a symbolic packet program: the pairs of packets of
    /// its depth that it does not relate. `None` when the store ran out of handles.
    pub fn complement(&mut self, a: SPP) -> (r: Option<SPP>)
        requires
            old(self).wf(),
            old(self).valid(a),
        ensures
            final(self).wf(),
            final(self).extends(old(self)),
            match r {
                Some(h) => {
                    &&& final(self).valid(h)
                    &&& final(self).depth(h) == old(self).depth(a)
                    &&& final(self).rel(h) == complement(old(self).rel(a), old(self).depth(a))
                    &&& final(self).complement_memo@.contains_key(a)
                    &&& final(self).complement_memo@[a] == h
                },
                None => final(self).is_full(),
            },
        decreases old(self).depth(a),
    {
        proof {
            self.lemma_inv_memo1(UnOp::Complement);
        }
        if let Some(result) = self.complement_memo.get(&a) {
            let h = *result;
            proof {
                self.lemma_extends_self();
            }
            return Some(h);
        }
        proof {
            lemma_node(self.nodes@, a);
        }
        let node = self.get(a);
        let x00 = self.complement(node.x00)?;
        let x01 = self.complement(node.x01)?;
        let x10 = self.complement(node.x10)?;
        let x11 = self.complement(node.x11)?;
        let res = self.mk(x00, x01, x10, x11)?;
        let ghost pre = *self;
        self.complement_memo.insert(a, res);
        proof {
            lemma_quad_complement(
                old(self).rel(node.x00),
                old(self).rel(node.x01),
                old(self).rel(node.x10),
                old(self).rel(node.x11),
                old(self).depth(node.x00),
            );
            self.lemma_inv_put1(&pre, UnOp::Complement, a, res);
        }
        Some(res)
    }

    /// The sequential composition of two symbolic packet programs of one
    /// depth: `a` first, then `b`. `None` when the store ran out of handles.
    #[verifier::rlimit(40)]
    pub fn sequence(&mut self, a: SPP, b: SPP) -> (r: Option<SPP>)
        requires
            old(self).wf(),
            old(self).valid(a),
            old(self).valid(b),
            old(self).depth(a) == old(self).depth(b),
        ensures
            final(self).wf(),
            final(self).extends(old(self)),
            match r {
                Some(h) => {
                    &&& final(self).valid(h)
                    &&& final(self).depth(h) == old(self).depth(a)
                    &&& final(self).rel(h) == compose(old(self).rel(a), old(self).rel(b))
                    &&& final(self).sequence_memo@.contains_key(pair_key(a, b))
                    &&& final(self).sequence_memo@[pair_key(a, b)] == h
                },
                None => final(self).is_full(),
            },
        decreases old(self).depth(a),
    {
        let key = pair_key_of(a, b);
        proof {
            self.lemma_inv_memo2(BinOp::Sequence);
        }
        if let Some(result) = self.sequence_memo.get(&key) {
            let h = *result;
            proof {
                self.lemma_extends_self();
            }
            return Some(h);
        }
        proof {
            lemma_memo2_miss(self.nodes@, self.sequence_memo@, BinOp::Sequence, a, b);
            lemma_node(self.nodes@, a);
            lemma_node(self.nodes@, b);
        }
        let a_node = self.get(a);
        let b_node = self.get(b);
        // The product of two 2x2 matrices:
        //                      b00 b01
        //                      b10 b11
        //
        // a00 a01      a00b00 + a01b10  a00b01 + a01b11
        // a10 a11      a10b00 + a11b10  a10b01 + a11b11
        let a00b00 = self.sequence(a_node.x00, b_node.x00)?;
        let a01b10 = self.sequence(a_node.x01, b_node.x10)?;
        let a00b01 = self.sequence(a_node.x00, b_node.x01)?;
        let a01b11 = self.sequence(a_node.x01, b_node.x11)?;
        let a10b00 = self.sequence(a_node.x10, b_node.x00)?;
        let a11b10 = self.sequence(a_node.x11, b_node.x10)?;
        let a10b01 = self.sequence(a_node.x10, b_node.x01)?;
        let a11b11 = self.sequence(a_node.x11, b_node.x11)?;
        let x00 = self.union(a00b00, a01b10)?;
        let x01 = self.union(a00b01, a01b11)?;
        let x10 = self.union(a10b00, a11b10)?;
        let x11 = self.union(a10b01, a11b11)?;
        let res = self.mk(x00, x01, x10, x11)?;
        let ghost pre = *self;
        self.sequence_memo.insert(key, res);
        proof {
            lemma_quad_compose(
                old(self).rel(a_node.x00),
                old(self).rel(a_node.x01),
                old(self).rel(a_node.x10),
                old(self).rel(a_node.x11),
                old(self).rel(b_node.x00),
                old(self).rel(b_node.x01),
                old(self).rel(b_node.x10),
                old(self).rel(b_node.x11),
            );
            self.lemma_inv_put2(&pre, BinOp::Sequence, a, b, res);
        }
        Some(res)
    }

    /// The Kleene star of a symbolic packet program: its reflexive-transitive
    /// closure on the packets of its depth. `None` when the store ran out of
    /// handles.
    #[verifier::rlimit(40)]
    pub fn star(&mut self, x: SPP) -> (r: Option<SPP>)
        requires
            old(self).wf(),
            old(self).valid(x),
        ensures
            final(self).wf(),
            final(self).extends(old(self)),
            match r {
                Some(h) => {
                    &&& final(self).valid(h)
                    &&& final(self).depth(h) == old(self).depth(x)
                    &&& final(self).rel(h) == star(old(self).rel(x), old(self).depth(x))
                    &&& final(self).star_memo@.contains_key(x)
                    &&& final(self).star_memo@[x] == h
                },
                None => final(self).is_full(),
            },
        decreases old(self).depth(x),
    {
        proof {
            self.lemma_inv_memo1(UnOp::Star);
        }
        if let Some(result) = self.star_memo.get(&x) {
            let h = *result;
            proof {
                self.lemma_extends_self();
            }
            return Some(h);
        }
        proof {
            lemma_node(self.nodes@, x);
        }
        let x_node = self.get(x);
        // The star of the matrix (a, b; c, d), block by block.
        let a = x_node.x00;
        let b = x_node.x01;
        let c = x_node.x10;
        let d = x_node.x11;
        let d_star = self.star(d)?;
        let bd_star = self.sequence(b, d_star)?;
        let bd_star_c = self.sequence(bd_star, c)?;
        let a_plus_bdc = self.union(a, bd_star_c)?;
        let res_a = self.star(a_plus_bdc)?;
        let res_b = self.sequence(res_a, bd_star)?;
        let c_res_a = self.sequence(c, res_a)?;
        let res_c = self.sequence(d_star, c_res_a)?;
        let res_c_bd_star = self.sequence(res_c, bd_star)?;
        let res_d = self.union(d_star, res_c_bd_star)?;
        let res = self.mk(res_a, res_b, res_c, res_d)?;
        let ghost pre = *self;
        self.star_memo.insert(x, res);
        proof {
            lemma_rel_typed(old(self)@, a);
            lemma_rel_typed(old(self)@, b);
            lemma_rel_typed(old(self)@, c);
            lemma_rel_typed(old(self)@, d);
            lemma_quad_star(
                old(self).rel(a),
                old(self).rel(b),
                old(self).rel(c),
                old(self).rel(d),
                old(self).depth(a),
            );
            self.lemma_inv_put1(&pre, UnOp::Star, x, res);
        }
        Some(res)
    }

    /// What the invariant says of the memo table of `branch`.
    proof fn lemma_inv_branch(&self)
        requires
            self.inv(),
        ensures
            nodes_wf(self@),
            branch_memo_wf(self@, self.branch_memo@),
    {
        reveal(SPPstore::inv);
    }

    /// The invariant survives a sound new entry in the memo table of `branch`.
    proof fn lemma_inv_put_branch(&self, pre: &SPPstore, var: Var, n: SPPnode, r: SPP, inner: HashMap<u128, SPP>)
        requires
            pre.inv(),
            branch_args_ok(pre@, var, n),
            branch_result_ok(pre@, var, n, r),
            inner@ == (if pre.branch_memo@.contains_key(var) {
                pre.branch_memo@[var]@
            } else {
                Map::empty()
            }).insert(node_key(n), r),
            self.branch_memo@ == pre.branch_memo@.insert(var, inner),
            *self == (SPPstore { branch_memo: self.branch_memo, ..*pre }),
        ensures
            self.inv(),
            self.extends(pre),
    {
        reveal(SPPstore::inv);
        let memo = self.branch_memo@;
        assert forall|v: Var, m: SPPnode|
            memo.contains_key(v) && #[trigger] memo[v]@.contains_key(node_key(m)) implies branch_args_ok(
            self@,
            v,
            m,
        ) && branch_result_ok(self@, v, m, memo[v]@[node_key(m)]) by {
            if v == var {
                if node_key(m) == node_key(n) {
                    lemma_node_key_injective(m, n);
                } else {
                    assert(pre.branch_memo@[v]@.contains_key(node_key(m)));
                }
            } else {
                assert(pre.branch_memo@[v]@.contains_key(node_key(m)));
            }
        }
    }

    /// The branch on field `var` between four symbolic packet programs of one
    /// depth: a pair of packets is related as `xvw` relates it, where `v` is
    /// the value of the field in the input packet and `w` its value in the
    /// output packet. `None` when the store ran out of handles.
    pub fn branch(&mut self, var: Var, x00: SPP, x01: SPP, x10: SPP, x11: SPP) -> (r: Option<SPP>)
        requires
            old(self).wf(),
            var < old(self).num_fields(),
            branch_args_ok(old(self)@, var, SPPnode { x00, x01, x10, x11 }),
        ensures
            final(self).wf(),
            final(self).extends(old(self)),
            match r {
                Some(h) => {
                    &&& final(self).valid(h)
                    &&& final(self).depth(h) == old(self).depth(x00)
                    &&& final(self).rel(h) == branch(
                        var as nat,
                        old(self).rel(x00),
                        old(self).rel(x01),
                        old(self).rel(x10),
                        old(self).rel(x11),
                    )
                    &&& final(self).branch_memo@.contains_key(var)
                    &&& final(self).branch_memo@[var]@.contains_key(node_key(SPPnode { x00, x01, x10, x11 }))
                    &&& final(self).branch_memo@[var]@[node_key(SPPnode { x00, x01, x10, x11 })] == h
                },
                None => final(self).is_full(),
            },
        decreases var, 1nat,
    {
        self.branch_helper(var, x00, x01, x10, x11)
    }

    /// The recursion behind `branch`: at field 0 it takes from each argument
    /// the block the argument is chosen for, at a later field it branches one
    /// field earlier between the arguments' corresponding blocks.
    #[verifier::rlimit(40)]
    fn branch_helper(&mut self, var: Var, x00: SPP, x01: SPP, x10: SPP, x11: SPP) -> (r: Option<SPP>)
        requires
            old(self).wf(),
            var < old(self).num_fields(),
            branch_args_ok(old(self)@, var, SPPnode { x00, x01, x10, x11 }),
        ensures
            final(self).wf(),
            final(self).extends(old(self)),
            match r {
                Some(h) => {
                    &&& final(self).valid(h)
                    &&& final(self).depth(h) == old(self).depth(x00)
                    &&& final(self).rel(h) == branch(
                        var as nat,
                        old(self).rel(x00),
                        old(self).rel(x01),
                        old(self).rel(x10),
                        old(self).rel(x11),
                    )
                    &&& final(self).branch_memo@.contains_key(var)
                    &&& final(self).branch_memo@[var]@.contains_key(node_key(SPPnode { x00, x01, x10, x11 }))
                    &&& final(self).branch_memo@[var]@[node_key(SPPnode { x00, x01, x10, x11 })] == h
                },
                None => final(self).is_full(),
            },
        decreases var, 0nat,
    {
        let ghost args = SPPnode { x00, x01, x10, x11 };
        let key = node_key_of(&SPPnode { x00, x01, x10, x11 });
        proof {
            self.lemma_inv_branch();
        }
        if let Some(inner) = self.branch_memo.get(&var) {
            if let Some(result) = inner.get(&key) {
                let h = *result;
                proof {
                    assert(self.branch_memo@[var]@.contains_key(node_key(args)));
                    self.lemma_extends_self();
                }
                return Some(h);
            }
        }
        proof {
            lemma_leaf(self.nodes@, x00);
            lemma_leaf(self.nodes@, x01);
            lemma_leaf(self.nodes@, x10);
            lemma_leaf(self.nodes@, x11);
            lemma_node(self.nodes@, x00);
            lemma_node(self.nodes@, x01);
            lemma_node(self.nodes@, x10);
            lemma_node(self.nodes@, x11);
        }
        let x00_node = self.get(x00);
        let x01_node = self.get(x01);
        let x10_node = self.get(x10);
        let x11_node = self.get(x11);
        let ghost a = (
            self.rel(x00_node.x00),
            self.rel(x00_node.x01),
            self.rel(x00_node.x10),
            self.rel(x00_node.x11),
        );
        let ghost b = (
            self.rel(x01_node.x00),
            self.rel(x01_node.x01),
            self.rel(x01_node.x10),
            self.rel(x01_node.x11),
        );
        let ghost c = (
            self.rel(x10_node.x00),
            self.rel(x10_node.x01),
            self.rel(x10_node.x10),
            self.rel(x10_node.x11),
        );
        let ghost e = (
            self.rel(x11_node.x00),
            self.rel(x11_node.x01),
            self.rel(x11_node.x10),
            self.rel(x11_node.x11),
        );
        let y00;
        let y01;
        let y10;
        let y11;
        if var == 0 {
            y00 = x00_node.x00;
            y01 = x01_node.x01;
            y10 = x10_node.x10;
            y11 = x11_node.x11;
            proof {
                lemma_quad_branch_here(a, b, c, e);
            }
        } else {
            y00 = self.branch(var - 1, x00_node.x00, x01_node.x00, x10_node.x00, x11_node.x00)?;
            y01 = self.branch(var - 1, x00_node.x01, x01_node.x01, x10_node.x01, x11_node.x01)?;
            y10 = self.branch(var - 1, x00_node.x10, x01_node.x10, x10_node.x10, x11_node.x10)?;
            y11 = self.branch(var - 1, x00_node.x11, x01_node.x11, x10_node.x11, x11_node.x11)?;
            proof {
                lemma_quad_branch_below((var - 1) as nat, a, b, c, e);
            }
        }
        let res = self.mk(y00, y01, y10, y11)?;
        let ghost pre = *self;
        let mut inner = match self.branch_memo.remove(&var) {
            Some(m) => m,
            None => HashMap::new(),
        };
        inner.insert(key, res);
        let ghost filled = inner;
        self.branch_memo.insert(var, inner);
        proof {
            assert(self.branch_memo@ =~= pre.branch_memo@.insert(var, filled));
            self.lemma_inv_put_branch(&pre, var, args, res, filled);
        }
        Some(res)
    }

    /// The choice on the input value of field `var`: a pair of packets whose
    /// input has the field unset is related as `then_branch` relates it, and a
    /// pair whose input has it set as `else_branch` does. `None` when the
    /// store ran out of handles.
    pub fn ifelse(&mut self, var: Var, then_branch: SPP, else_branch: SPP) -> (r: Option<SPP>)
        requires
            old(self).wf(),
            var < old(self).num_fields(),
            old(self).valid(then_branch),
            old(self).valid(else_branch),
            old(self).depth(then_branch) == old(self).depth(else_branch),
            var < old(self).depth(then_branch),
        ensures
            final(self).wf(),
            final(self).extends(old(self)),
            match r {
                Some(h) => {
                    &&& final(self).valid(h)
                    &&& final(self).depth(h) == old(self).depth(then_branch)
                    &&& final(self).rel(h) == branch(
                        var as nat,
                        old(self).rel(then_branch),
                        old(self).rel(then_branch),
                        old(self).rel(else_branch),
                        old(self).rel(else_branch),
                    )
                },
                None => final(self).is_full(),
            },
    {
        self.branch(var, then_branch, then_branch, else_branch, else_branch)
    }

    /// The filter on field `var`: a packet passes unchanged when the field is
    /// `value`, and no packet passes otherwise. `None` when the store ran out
    /// of handles.
    pub fn test(&mut self, var: Var, value: bool) -> (r: Option<SPP>)
        requires
            old(self).wf(),
            var < old(self).num_fields(),
        ensures
            final(self).wf(),
            final(self).extends(old(self)),
            match r {
                Some(h) => {
                    &&& final(self).valid(h)
                    &&& final(self).depth(h) == old(self).num_fields()
                    &&& final(self).rel(h) == crate::relation::test(var as nat, value, old(self).num_fields())
                },
                None => final(self).is_full(),
            },
    {
        proof {
            lemma_branch_test(var as nat, self.num_fields());
        }
        if value {
            self.ifelse(var, self.zero, self.one)
        } else {
            self.ifelse(var, self.one, self.zero)
        }
    }

    /// The modification of field `var`: every packet is related to the packet
    /// that has `value` in that field and is otherwise the same. `None` when
    /// the store ran out of handles.
    pub fn assign(&mut self, var: Var, value: bool) -> (r: Option<SPP>)
        requires
            old(self).wf(),
            var < old(self).num_fields(),
        ensures
            final(self).wf(),
            final(self).extends(old(self)),
            match r {
                Some(h) => {
                    &&& final(self).valid(h)
                    &&& final(self).depth(h) == old(self).num_fields()
                    &&& final(self).rel(h) == assign(var as nat, value, old(self).num_fields())
                },
                None => final(self).is_full(),
            },
    {
        self.assign_below(var, value, self.one)
    }

    /// The modification of field `var` on packets as wide as the diagonal
    /// `one` is deep. The levels above the field keep their bit, the level of
    /// the field sends both input bits to `value`, and the levels below are
    /// the diagonal.
    fn assign_below(&mut self, var: Var, value: bool, one: SPP) -> (r: Option<SPP>)
        requires
            old(self).wf(),
            old(self).valid(one),
            old(self).rel(one) == identity(old(self).depth(one)),
            var < old(self).depth(one),
        ensures
            final(self).wf(),
            final(self).extends(old(self)),
            match r {
                Some(h) => {
                    &&& final(self).valid(h)
                    &&& final(self).depth(h) == old(self).depth(one)
                    &&& final(self).rel(h) == assign(var as nat, value, old(self).depth(one))
                },
                None => final(self).is_full(),
            },
        decreases var,
    {
        let ghost d = (self.depth(one) - 1) as nat;
        proof {
            self.lemma_inv_nodes();
            lemma_leaf(self.nodes@, one);
            lemma_node(self.nodes@, one);
            lemma_quad_identity(d);
            let n = self.nodes@[one - 2];
            lemma_quad_injective(
                self.rel(n.x00),
                self.rel(n.x01),
                self.rel(n.x10),
                self.rel(n.x11),
                identity(d),
                empty(),
                empty(),
                identity(d),
            );
        }
        let node = self.get(one);
        let same = node.x00;
        let none = node.x01;
        if var == 0 {
            proof {
                lemma_quad_assign_here(d);
            }
            if value {
                self.mk(none, same, none, same)
            } else {
                self.mk(same, none, same, none)
            }
        } else {
            let below = self.assign_below(var - 1, value, same)?;
            proof {
                lemma_quad_assign_below((var - 1) as nat, value, d);
            }
            self.mk(below, none, none, below)
        }
    }

    /// The empty relation at the full depth of a store that is empty yet.
    fn zero(&mut self) -> (r: Option<SPP>)
        requires
            old(self).inv(),
            old(self).num_fields() <= MAX_VARS,
            old(self)@ == fresh_nodes(old(self).num_fields()).take(0),
        ensures
            final(self).inv(),
            final(self).extends(old(self)),
            final(self)@.len() <= 3 * old(self).num_fields(),
            match r {
                Some(h) => {
                    &&& final(self).valid(h)
                    &&& final(self).depth(h) == old(self).num_fields()
                    &&& final(self).rel(h) == empty()
                    &&& h == rung(0, 0, old(self).num_fields())
                    &&& final(self)@ == fresh_nodes(old(self).num_fields()).take(old(self).num_fields() as int)
                },
                None => final(self).is_full(),
            },
    {
        let mut spp: SPP = 0;
        let n = self.num_vars;
        let ghost k = self.num_fields();
        proof {
            self.lemma_inv_nodes();
            lemma_leaf(self.nodes@, 0);
            self.lemma_extends_self();
        }
        for i in 0..n
            invariant
                n == self.num_vars,
                k == n,
                k <= MAX_VARS,
                self.inv(),
                self.extends(old(self)),
                self.valid(spp),
                self.depth(spp) == i,
                self.rel(spp) == empty(),
                spp == rung(0, 0, i as nat),
                self@ == fresh_nodes(k).take(i as int),
        {
            let ghost before = self@;
            let ghost node = SPPnode { x00: spp, x01: spp, x10: spp, x11: spp };
            proof {
                lemma_quad_empty();
                assert(node == fresh_node(k, i as int));
                assert(!before.contains(node)) by {
                    if before.contains(node) {
                        let j = choose|j: int| 0 <= j < before.len() && before[j] == node;
                        assert(before[j] == fresh_node(k, j));
                    }
                }
            }
            spp = self.mk(spp, spp, spp, spp)?;
            proof {
                assert(self@ =~= fresh_nodes(k).take(i + 1));
            }
        }
        Some(spp)
    }

    /// The full relation at the full depth of a store that holds the empty
    /// relation and the diagonal and nothing else.
    fn top(&mut self) -> (r: Option<SPP>)
        requires
            old(self).inv(),
            old(self).num_fields() <= MAX_VARS,
            old(self)@ == fresh_nodes(old(self).num_fields()).take(2 * old(self).num_fields() as int),
        ensures
            final(self).inv(),
            final(self).extends(old(self)),
            final(self)@.len() <= 3 * old(self).num_fields(),
            match r {
                Some(h) => {
                    &&& final(self).valid(h)
                    &&& final(self).depth(h) == old(self).num_fields()
                    &&& final(self).rel(h) == full(old(self).num_fields())
                    &&& h == rung(1, 2 * old(self).num_fields(), old(self).num_fields())
                    &&& final(self)@ == fresh_nodes(old(self).num_fields()).take(3 * old(self).num_fields() as int)
                },
                None => final(self).is_full(),
            },
    {
        let mut spp: SPP = 1;
        let n = self.num_vars;
        let ghost k = self.num_fields();
        proof {
            self.lemma_inv_nodes();
            lemma_leaf(self.nodes@, 1);
            self.lemma_extends_self();
            assert(identity(0) =~= full(0)) by {
                assert forall|pq: (Seq<bool>, Seq<bool>)| full(0).contains(pq) implies identity(0).contains(pq) by {
                    assert(pq.0 =~= pq.1);
                }
            }
        }
        for i in 0..n
            invariant
                n == self.num_vars,
                k == n,
                k <= MAX_VARS,
                self.inv(),
                self.extends(old(self)),
                self.valid(spp),
                self.depth(spp) == i,
                self.rel(spp) == full(i as nat),
                spp == rung(1, 2 * k, i as nat),
                self@ == fresh_nodes(k).take(2 * k + i),
        {
            let ghost before = self@;
            let ghost node = SPPnode { x00: spp, x01: spp, x10: spp, x11: spp };
            proof {
                lemma_quad_full(i as nat);
                assert(node == fresh_node(k, 2 * k + i));
                assert(!before.contains(node)) by {
                    if before.contains(node) {
                        let j = choose|j: int| 0 <= j < before.len() && before[j] == node;
                        assert(before[j] == fresh_node(k, j));
                    }
                }
            }
            spp = self.mk(spp, spp, spp, spp)?;
            proof {
                assert(self@ =~= fresh_nodes(k).take(2 * k + i + 1));
            }
        }
        Some(spp)
    }

    /// The diagonal at the full depth of a store that holds the empty
    /// relation and nothing else.
    fn one(&mut self) -> (r: Option<SPP>)
        requires
            old(self).inv(),
            old(self).num_fields() <= MAX_VARS,
            old(self)@ == fresh_nodes(old(self).num_fields()).take(old(self).num_fields() as int),
        ensures
            final(self).inv(),
            final(self).extends(old(self)),
            final(self)@.len() <= 3 * old(self).num_fields(),
            match r {
                Some(h) => {
                    &&& final(self).valid(h)
                    &&& final(self).depth(h) == old(self).num_fields()
                    &&& final(self).rel(h) == identity(old(self).num_fields())
                    &&& h == rung(1, old(self).num_fields(), old(self).num_fields())
                    &&& final(self)@ == fresh_nodes(old(self).num_fields()).take(2 * old(self).num_fields() as int)
                },
                None => final(self).is_full(),
            },
    {
        let mut spp_one: SPP = 1;
        let mut spp_zero: SPP = 0;
        let n = self.num_vars;
        let ghost k = self.num_fields();
        proof {
            self.lemma_inv_nodes();
            lemma_leaf(self.nodes@, 0);
            lemma_leaf(self.nodes@, 1);
            self.lemma_extends_self();
        }
        for i in 0..n
            invariant
                n == self.num_vars,
                k == n,
                k <= MAX_VARS,
                self.inv(),
                self.extends(old(self)),
                self.valid(spp_one),
                self.valid(spp_zero),
                self.depth(spp_one) == i,
                self.depth(spp_zero) == i,
                self.rel(spp_one) == identity(i as nat),
                self.rel(spp_zero) == empty(),
                spp_one == rung(1, k, i as nat),
                spp_zero == rung(0, 0, i as nat),
                self@ == fresh_nodes(k).take(k + i),
        {
            let ghost before = self@;
            let ghost diagonal = SPPnode { x00: spp_one, x01: spp_zero, x10: spp_zero, x11: spp_one };
            let ghost nothing = SPPnode { x00: spp_zero, x01: spp_zero, x10: spp_zero, x11: spp_zero };
            proof {
                lemma_quad_identity(i as nat);
                lemma_quad_empty();
                assert(diagonal == fresh_node(k, k + i));
                assert(!before.contains(diagonal)) by {
                    if before.contains(diagonal) {
                        let j = choose|j: int| 0 <= j < before.len() && before[j] == diagonal;
                        assert(before[j] == fresh_node(k, j));
                    }
                }
            }
            spp_one = self.mk(spp_one, spp_zero, spp_zero, spp_one)?;
            let ghost between = self@;
            proof {
                assert(between =~= fresh_nodes(k).take(k + i + 1));
                assert(between[i as int] == fresh_node(k, i as int));
                assert(between[i as int] == nothing);
                assert(between.contains(nothing));
            }
            spp_zero = self.mk(spp_zero, spp_zero, spp_zero, spp_zero)?;
            proof {
                self.lemma_inv_nodes();
                lemma_nodes_distinct(self@, self.hc@, spp_zero - 2, i as int);
            }
        }
        Some(spp_one)
    }

    /// The leaf that a draw decides on: the empty relation when the draw came
    /// out `true`, the relation on the empty packet when it did not.
    pub fn leaf(draw: bool) -> (r: SPP)
        ensures
            r == (if draw {
                0u32
            } else {
                1u32
            }),
    {
        if draw {
            0
        } else {
            1
        }
    }

    /// A random symbolic packet program at the store's full depth, drawn from
    /// a source of its own: each leaf is drawn on its own and is empty three
    /// times out of four. `None` when the store ran out of handles.
    pub fn rand(&mut self) -> (r: Option<SPP>)
        requires
            old(self).wf(),
        ensures
            final(self).wf(),
            final(self).extends(old(self)),
            match r {
                Some(h) => final(self).valid(h) && final(self).depth(h) == old(self).num_fields(),
                None => final(self).is_full(),
            },
    {
        let mut source = Source::fresh();
        self.rand_from(&mut source)
    }

    /// A random symbolic packet program at the store's full depth, drawn from
    /// `source`: each leaf is drawn on its own, in the order of the packets,
    /// and is empty three times out of four. `None` when the store ran out of
    /// handles.
    pub fn rand_from(&mut self, source: &mut Source) -> (r: Option<SPP>)
        requires
            old(self).wf(),
        ensures
            final(self).wf(),
            final(self).extends(old(self)),
            match r {
                Some(h) => final(self).valid(h) && final(self).depth(h) == old(self).num_fields(),
                None => final(self).is_full(),
            },
    {
        self.rand_helper(source, self.num_vars)
    }

    /// A random symbolic packet program of the given depth.
    fn rand_helper(&mut self, source: &mut Source, depth: Var) -> (r: Option<SPP>)
        requires
            old(self).wf(),
        ensures
            final(self).wf(),
            final(self).extends(old(self)),
            match r {
                Some(h) => final(self).valid(h) && final(self).depth(h) == depth,
                None => final(self).is_full(),
            },
        decreases depth,
    {
        if depth == 0 {
            let h = Self::leaf(source.ratio(3, 4));
            proof {
                self.lemma_inv_nodes();
                lemma_leaf(self.nodes@, h);
                self.lemma_extends_self();
            }
            return Some(h);
        }
        let x00 = self.rand_helper(source, depth - 1)?;
        let x01 = self.rand_helper(source, depth - 1)?;
        let x10 = self.rand_helper(source, depth - 1)?;
        let x11 = self.rand_helper(source, depth - 1)?;
        self.mk(x00, x01, x10, x11)
    }

    /// Every symbolic packet program at the store's full depth, each once, in
    /// the order of `all_rels`. `None` when the store ran out of handles.
    pub fn all(&mut self) -> (r: Option<Vec<SPP>>)
        requires
            old(self).wf(),
        ensures
            final(self).wf(),
            final(self).extends(old(self)),
            match r {
                Some(v) => lists_all(final(self)@, v@, old(self).num_fields()),
                None => final(self).is_full(),
            },
    {
        return self.all_helper(self.num_vars);
    }

    /// Every symbolic packet program of the given depth, each once, in the
    /// order of `all_rels`: the two leaves at depth 0, and at a greater depth
    /// every node over four programs of the depth before. `None` when the
    /// store ran out of handles.
    #[verifier::rlimit(40)]
    pub fn all_helper(&mut self, depth: Var) -> (r: Option<Vec<SPP>>)
        requires
            old(self).wf(),
        ensures
            final(self).wf(),
            final(self).extends(old(self)),
            match r {
                Some(v) => lists_all(final(self)@, v@, depth as nat),
                None => final(self).is_full(),
            },
        decreases depth,
    {
        if depth == 0 {
            let mut leaves = Vec::new();
            leaves.push(0);
            leaves.push(1);
            proof {
                self.lemma_inv_nodes();
                lemma_leaf(self.nodes@, 0);
                lemma_leaf(self.nodes@, 1);
                self.lemma_extends_self();
            }
            return Some(leaves);
        }
        let all_rec = self.all_helper(depth - 1)?;
        let n = all_rec.len();
        let ghost d = (depth - 1) as nat;
        let ghost m = n as int;
        let mut result: Vec<SPP> = Vec::new();
        let mut i: usize = 0;
        while i < n
            invariant
                n == all_rec.len(),
                m == n,
                d == depth - 1,
                i <= n,
                self.wf(),
                self.extends(old(self)),
                lists_all(self@, all_rec@, d),
                result@.len() == position(m, i as int, 0, 0, 0),
                lists_some(self@, result@, d + 1),
            decreases n - i,
        {
            let mut j: usize = 0;
            while j < n
                invariant
                    n == all_rec.len(),
                    m == n,
                    d == depth - 1,
                    i < n,
                    j <= n,
                    self.wf(),
                    self.extends(old(self)),
                    lists_all(self@, all_rec@, d),
                    result@.len() == position(m, i as int, j as int, 0, 0),
                    lists_some(self@, result@, d + 1),
                decreases n - j,
            {
                let mut k: usize = 0;
                while k < n
                    invariant
                        n == all_rec.len(),
                        m == n,
                        d == depth - 1,
                        i < n,
                        j < n,
                        k <= n,
                        self.wf(),
                        self.extends(old(self)),
                        lists_all(self@, all_rec@, d),
                        result@.len() == position(m, i as int, j as int, k as int, 0),
                        lists_some(self@, result@, d + 1),
                    decreases n - k,
                {
                    let mut l: usize = 0;
                    while l < n
                        invariant
                            n == all_rec.len(),
                            m == n,
                            d == depth - 1,
                            i < n,
                            j < n,
                            k < n,
                            l <= n,
                            self.wf(),
                            self.extends(old(self)),
                            lists_all(self@, all_rec@, d),
                            result@.len() == position(m, i as int, j as int, k as int, l as int),
                            lists_some(self@, result@, d + 1),
                        decreases n - l,
                    {
                        let ghost before = *self;
                        let ghost listed = result@;
                        let node = self.mk(all_rec[i], all_rec[j], all_rec[k], all_rec[l])?;
                        result.push(node);
                        proof {
                            before.lemma_inv_nodes();
                            lemma_lists_grown(before@, self@, all_rec@, d);
                            lemma_lists_some_grown(before@, self@, listed, d + 1);
                            lemma_all_rels_at(d, i as int, j as int, k as int, l as int);
                        }
                        l += 1;
                    }
                    assert(position(m, i as int, j as int, k as int, n as int) == position(
                        m,
                        i as int,
                        j as int,
                        k + 1,
                        0,
                    )) by (nonlinear_arith)
                        requires
                            m == n,
                    ;
                    k += 1;
                }
                assert(position(m, i as int, j as int, n as int, 0) == position(m, i as int, j + 1, 0, 0))
                    by (nonlinear_arith)
                    requires
                        m == n,
                ;
                j += 1;
            }
            assert(position(m, i as int, n as int, 0, 0) == position(m, i + 1, 0, 0, 0)) by (nonlinear_arith)
                requires
                    m == n,
            ;
            i += 1;
        }
        proof {
            assert(position(m, m, 0, 0, 0) == m * m * m * m) by (nonlinear_arith);
            if m > 0 {
                lemma_all_rels_at(d, 0, 0, 0, 0);
            } else {
                assert(m * m * m * m == 0) by (nonlinear_arith)
                    requires
                        m == 0,
                ;
            }
        }
        Some(result)
    }
}

/// A lookup of two handles of one depth can only miss when both are nodes.
pub proof fn lemma_memo2_miss(nodes: Seq<SPPnode>, memo: Map<u64, SPP>, op: BinOp, a: SPP, b: SPP)
    requires
        nodes_wf(nodes),
        memo2_wf(nodes, memo, op),
        valid_in(nodes, a),
        valid_in(nodes, b),
        depth_in(nodes, a) == depth_in(nodes, b),
        !memo.contains_key(pair_key(a, b)),
    ensures
        a >= 2,
        b >= 2,
{
    lemma_leaf(nodes, a);
    lemma_leaf(nodes, b);
}

/// A sound entry can be added to a binary memo table.
pub proof fn lemma_memo2_insert(nodes: Seq<SPPnode>, memo: Map<u64, SPP>, op: BinOp, a: SPP, b: SPP, r: SPP)
    requires
        memo2_wf(nodes, memo, op),
        entry2_ok(nodes, op, a, b, r),
    ensures
        memo2_wf(nodes, memo.insert(pair_key(a, b), r), op),
{
    let after = memo.insert(pair_key(a, b), r);
    assert forall|c: SPP, d: SPP| #[trigger] after.contains_key(pair_key(c, d)) implies entry2_ok(
        nodes,
        op,
        c,
        d,
        after[pair_key(c, d)],
    ) by {
        if pair_key(c, d) == pair_key(a, b) {
            lemma_pair_key_injective(c, d, a, b);
        } else {
            assert(memo.contains_key(pair_key(c, d)));
        }
    }
}

} // verus!
