//! Counting packets. There are `2^k` packets of `k` fields and `4^k` pairs
//! of them, and so many distinct pairs, each at one of `n` states, as `n`
//! times `4^k` and no more: that is what bounds the work of an exploration.

use crate::relation::Packet;
use vstd::prelude::*;

verus! {

/// Two to the power of `k`: the number of packets of `k` fields.
pub open spec fn pow2(k: nat) -> nat
    decreases k,
{
    if k == 0 {
        1
    } else {
        2 * pow2((k - 1) as nat)
    }
}

/// Four to the power of `k`: the number of pairs of packets of `k` fields.
pub open spec fn pairs_of(k: nat) -> nat {
    pow2(k) * pow2(k)
}

/// The number that a packet is in binary, field 0 first.
pub open spec fn number(p: Packet) -> nat
    decreases p.len(),
{
    if p.len() == 0 {
        0
    } else {
        2 * number(p.drop_last()) + (if p.last() {
            1nat
        } else {
            0nat
        })
    }
}

/// The number of a packet is below the number of packets of its length.
pub proof fn lemma_number_below(p: Packet)
    ensures
        number(p) < pow2(p.len()),
    decreases p.len(),
{
    if p.len() > 0 {
        lemma_number_below(p.drop_last());
    }
}

/// Packets of one length with one number are one packet.
pub proof fn lemma_number_injective(p: Packet, q: Packet)
    requires
        p.len() == q.len(),
        number(p) == number(q),
    ensures
        p == q,
    decreases p.len(),
{
    if p.len() > 0 {
        lemma_number_injective(p.drop_last(), q.drop_last());
        assert(p =~= p.drop_last().push(p.last()));
        assert(q =~= q.drop_last().push(q.last()));
    } else {
        assert(p =~= q);
    }
}

/// The number of a pair of packets of `k` fields at state `j`.
pub open spec fn code(j: int, g: Packet, b: Packet, k: nat) -> int {
    (j * pow2(k) + number(g)) * pow2(k) + number(b)
}

/// The number of a pair at one of `n` states is below `n` times the number
/// of pairs.
pub proof fn lemma_code_below(j: int, g: Packet, b: Packet, k: nat, n: int)
    requires
        0 <= j < n,
        g.len() == k,
        b.len() == k,
    ensures
        0 <= code(j, g, b, k) < n * pairs_of(k),
{
    lemma_number_below(g);
    lemma_number_below(b);
    let m = pow2(k) as int;
    let x = number(g) as int;
    let y = number(b) as int;
    assert(0 <= (j * m + x) * m + y < n * (m * m)) by (nonlinear_arith)
        requires
            0 <= j < n,
            0 <= x < m,
            0 <= y < m,
    ;
}

/// Pairs with one number, at their states, are one pair at one state.
pub proof fn lemma_code_injective(j: int, g: Packet, b: Packet, i: int, f: Packet, a: Packet, k: nat)
    requires
        0 <= j,
        0 <= i,
        g.len() == k,
        b.len() == k,
        f.len() == k,
        a.len() == k,
        code(j, g, b, k) == code(i, f, a, k),
    ensures
        j == i,
        g == f,
        b == a,
{
    lemma_number_below(g);
    lemma_number_below(b);
    lemma_number_below(f);
    lemma_number_below(a);
    let m = pow2(k) as int;
    let (x, y, u, v) = (number(g) as int, number(b) as int, number(f) as int, number(a) as int);
    assert(j * m + x == i * m + u && y == v) by (nonlinear_arith)
        requires
            (j * m + x) * m + y == (i * m + u) * m + v,
            0 <= y < m,
            0 <= v < m,
            0 <= j * m + x,
            0 <= i * m + u,
    ;
    assert(j == i && x == u) by (nonlinear_arith)
        requires
            j * m + x == i * m + u,
            0 <= x < m,
            0 <= u < m,
            0 <= j,
            0 <= i,
    ;
    lemma_number_injective(g, f);
    lemma_number_injective(b, a);
}

/// Distinct numbers below `n` are at most `n`.
pub proof fn lemma_pigeonhole(codes: Seq<int>, n: int)
    requires
        0 <= n,
        codes.no_duplicates(),
        forall|i: int| 0 <= i < codes.len() ==> 0 <= #[trigger] codes[i] < n,
    ensures
        codes.len() <= n,
{
    if codes.len() > 0 {
        assert(0 <= codes[0] < n);
        vstd::set_lib::lemma_int_range(0, n);
        codes.unique_seq_to_set();
        assert(codes.to_set().subset_of(vstd::set_lib::set_int_range(0, n))) by {
            assert forall|c: int| codes.to_set().contains(c) implies vstd::set_lib::set_int_range(0, n).contains(
                c,
            ) by {
                let i = choose|i: int| 0 <= i < codes.len() && codes[i] == c;
                assert(0 <= codes[i] < n);
            }
        }
        vstd::set_lib::lemma_len_subset(codes.to_set(), vstd::set_lib::set_int_range(0, n));
    }
}

} // verus!
