//! The equations and containments between expressions, stated of the
//! expressions themselves: the laws of Kleene algebra and of Boolean algebra,
//! the packet axioms, and the expansion laws of temporal logic. Equivalence
//! and containment are what emptiness of a symmetric difference decides.

use crate::axioms::{
    lemma_finally_globally, lemma_finally_unfold, lemma_globally_unfold, lemma_next, lemma_seq_assoc,
    lemma_seq_monotone, lemma_seq_one, lemma_seq_union, lemma_seq_zero, lemma_star_unroll_left,
    lemma_star_unroll_right, lemma_until_unfold,
};
use crate::expr::{
    assign_exp, complement_exp, dup_exp, end_exp, finally_exp, globally_exp, intersect_exp, next_exp, one_exp,
    release_exp, sequence_exp, star_exp, strong_release_exp, test_exp, top_exp, union_exp, until_exp,
    weak_next_exp, weak_until_exp, xor_exp, zero_exp, Exp, Field, Value,
};
use crate::semantics::{contained, equivalent, l_globally, l_until, lang, Trace};
use crate::soundness::{lemma_lang_within, lemma_packet_sound, lemma_release_unfold};
use vstd::prelude::*;

verus! {

/// Two expressions are equivalent exactly when their symmetric difference
/// has no trace, and the first is contained in the second exactly when the
/// symmetric difference of their union and the second has none.
pub proof fn lemma_decided_by_emptiness(a: Exp, b: Exp, k: nat)
    ensures
        equivalent(a, b, k) <==> lang(xor_exp(a, b), k) == Set::<Trace>::empty(),
        contained(a, b, k) <==> lang(xor_exp(union_exp(a, b), b), k) == Set::<Trace>::empty(),
{
    reveal_with_fuel(lang, 3);
    let la = lang(a, k);
    let lb = lang(b, k);
    if lang(xor_exp(a, b), k) == Set::<Trace>::empty() {
        assert forall|t: Trace| la.contains(t) == lb.contains(t) by {
            assert(!lang(xor_exp(a, b), k).contains(t));
        }
        assert(la =~= lb);
    }
    if equivalent(a, b, k) {
        assert(lang(xor_exp(a, b), k) =~= Set::<Trace>::empty());
    }
    if lang(xor_exp(union_exp(a, b), b), k) == Set::<Trace>::empty() {
        assert forall|t: Trace| la.contains(t) implies lb.contains(t) by {
            assert(!lang(xor_exp(union_exp(a, b), b), k).contains(t));
        }
    }
    if contained(a, b, k) {
        assert(lang(xor_exp(union_exp(a, b), b), k) =~= Set::<Trace>::empty());
    }
}

/// The laws of Kleene algebra: union is associative, commutative and
/// idempotent with unit `0`; sequence is associative with unit `1` and zero
/// `0` and distributes over union on both sides; iteration unrolls on both
/// sides.
pub proof fn lemma_kleene_algebra(p: Exp, q: Exp, r: Exp, k: nat)
    ensures
        equivalent(union_exp(p, union_exp(q, r)), union_exp(union_exp(p, q), r), k),
        equivalent(union_exp(p, q), union_exp(q, p), k),
        equivalent(union_exp(p, zero_exp()), p, k),
        equivalent(union_exp(p, p), p, k),
        equivalent(sequence_exp(p, sequence_exp(q, r)), sequence_exp(sequence_exp(p, q), r), k),
        equivalent(sequence_exp(one_exp(), p), p, k),
        equivalent(sequence_exp(p, one_exp()), p, k),
        equivalent(sequence_exp(zero_exp(), p), zero_exp(), k),
        equivalent(sequence_exp(p, zero_exp()), zero_exp(), k),
        equivalent(sequence_exp(p, union_exp(q, r)), union_exp(sequence_exp(p, q), sequence_exp(p, r)), k),
        equivalent(sequence_exp(union_exp(p, q), r), union_exp(sequence_exp(p, r), sequence_exp(q, r)), k),
        equivalent(union_exp(one_exp(), sequence_exp(p, star_exp(p))), star_exp(p), k),
        equivalent(union_exp(one_exp(), sequence_exp(star_exp(p), p)), star_exp(p), k),
{
    reveal_with_fuel(lang, 4);
    let a = lang(p, k);
    let b = lang(q, k);
    let c = lang(r, k);
    lemma_lang_within(p, k);
    assert(a.union(b.union(c)) =~= a.union(b).union(c));
    assert(a.union(b) =~= b.union(a));
    assert(a.union(Set::empty()) =~= a);
    assert(a.union(a) =~= a);
    lemma_seq_assoc(a, b, c);
    lemma_seq_one(a, k);
    lemma_seq_zero(a);
    lemma_seq_union(a, b, c);
    lemma_seq_union(a, b, c);
    lemma_star_unroll_left(a, k);
    lemma_star_unroll_right(a, k);
}

/// The laws of Boolean algebra: union distributes over intersection,
/// everything absorbs, an expression and its complement make up everything
/// and have nothing in common, and intersection is commutative and idempotent.
pub proof fn lemma_boolean_algebra(a: Exp, b: Exp, c: Exp, k: nat)
    ensures
        equivalent(
            union_exp(a, intersect_exp(b, c)),
            intersect_exp(union_exp(a, b), union_exp(a, c)),
            k,
        ),
        equivalent(union_exp(a, top_exp()), top_exp(), k),
        equivalent(union_exp(a, complement_exp(a)), top_exp(), k),
        equivalent(intersect_exp(a, b), intersect_exp(b, a), k),
        equivalent(intersect_exp(a, complement_exp(a)), zero_exp(), k),
        equivalent(intersect_exp(a, a), a, k),
{
    reveal_with_fuel(lang, 4);
    let x = lang(a, k);
    let y = lang(b, k);
    let z = lang(c, k);
    lemma_lang_within(a, k);
    assert(lang(union_exp(a, intersect_exp(b, c)), k) =~= lang(
        intersect_exp(union_exp(a, b), union_exp(a, c)),
        k,
    ));
    assert(lang(union_exp(a, top_exp()), k) =~= lang(top_exp(), k));
    assert(lang(union_exp(a, complement_exp(a)), k) =~= lang(top_exp(), k));
    assert(x.intersect(y) =~= y.intersect(x));
    assert(lang(intersect_exp(a, complement_exp(a)), k) =~= lang(zero_exp(), k));
    assert(x.intersect(x) =~= x);
}

/// The packet axioms: modifications of different fields commute, and so do
/// a modification and a test of different fields; `dup` commutes with a
/// test; a test of the value just assigned passes, an assignment of the
/// value just tested is idle, and of two modifications of one field the last
/// prevails; a field is not both unset and set, and it is one of the two.
pub proof fn lemma_packet_axioms(xi: Field, xj: Field, v: Value, w: Value, k: nat)
    requires
        xi < k,
        xj < k,
        xi != xj,
    ensures
        equivalent(
            sequence_exp(assign_exp(xi, v), assign_exp(xj, w)),
            sequence_exp(assign_exp(xj, w), assign_exp(xi, v)),
            k,
        ),
        equivalent(
            sequence_exp(assign_exp(xi, v), test_exp(xj, w)),
            sequence_exp(test_exp(xj, w), assign_exp(xi, v)),
            k,
        ),
        equivalent(sequence_exp(dup_exp(), test_exp(xi, v)), sequence_exp(test_exp(xi, v), dup_exp()), k),
        equivalent(sequence_exp(assign_exp(xi, v), test_exp(xi, v)), assign_exp(xi, v), k),
        equivalent(sequence_exp(test_exp(xi, v), assign_exp(xi, v)), test_exp(xi, v), k),
        equivalent(sequence_exp(assign_exp(xi, v), assign_exp(xi, w)), assign_exp(xi, w), k),
        equivalent(sequence_exp(test_exp(xi, false), test_exp(xi, true)), zero_exp(), k),
        equivalent(union_exp(test_exp(xi, false), test_exp(xi, true)), one_exp(), k),
{
    lemma_packet_sound(0, xi, xj, v, w, k);
    lemma_packet_sound(1, xi, xj, v, w, k);
    lemma_packet_sound(2, xi, xj, v, w, k);
    lemma_packet_sound(3, xi, xj, v, w, k);
    lemma_packet_sound(4, xi, xj, v, w, k);
    lemma_packet_sound(5, xi, xj, v, w, k);
    lemma_packet_sound(6, xi, xj, v, w, k);
    lemma_packet_sound(7, xi, xj, v, w, k);
}

/// The expansion laws of next, finally and globally.
pub proof fn lemma_temporal_unary(e: Exp, a: Exp, b: Exp, k: nat)
    ensures
        equivalent(complement_exp(finally_exp(e)), globally_exp(complement_exp(e)), k),
        equivalent(complement_exp(globally_exp(e)), finally_exp(complement_exp(e)), k),
        equivalent(complement_exp(next_exp(e)), union_exp(end_exp(), next_exp(complement_exp(e))), k),
        equivalent(finally_exp(e), union_exp(e, next_exp(finally_exp(e))), k),
        equivalent(globally_exp(e), intersect_exp(e, union_exp(end_exp(), next_exp(globally_exp(e)))), k),
        equivalent(next_exp(intersect_exp(a, b)), intersect_exp(next_exp(a), next_exp(b)), k),
        equivalent(next_exp(union_exp(a, b)), union_exp(next_exp(a), next_exp(b)), k),
{
    reveal_with_fuel(lang, 5);
    let l = lang(e, k);
    lemma_lang_within(e, k);
    lemma_finally_globally(l, k);
    lemma_next(l, l, k);
    lemma_finally_unfold(l, k);
    lemma_globally_unfold(l, k);
    lemma_next(lang(a, k), lang(b, k), k);
}

/// The expansion laws of until, weak until, release and strong release.
pub proof fn lemma_temporal_binary(a: Exp, b: Exp, k: nat)
    ensures
        equivalent(until_exp(a, b), union_exp(b, intersect_exp(a, next_exp(until_exp(a, b)))), k),
        equivalent(
            weak_until_exp(a, b),
            union_exp(b, intersect_exp(a, weak_next_exp(weak_until_exp(a, b)))),
            k,
        ),
        equivalent(release_exp(a, b), complement_exp(until_exp(complement_exp(a), complement_exp(b))), k),
        equivalent(release_exp(a, b), intersect_exp(b, union_exp(a, weak_next_exp(release_exp(a, b)))), k),
        equivalent(complement_exp(release_exp(a, b)), until_exp(complement_exp(a), complement_exp(b)), k),
        equivalent(strong_release_exp(a, b), intersect_exp(release_exp(a, b), finally_exp(b)), k),
{
    reveal_with_fuel(lang, 6);
    let x = lang(a, k);
    let y = lang(b, k);
    lemma_lang_within(a, k);
    lemma_lang_within(b, k);
    lemma_until_unfold(x, y, k);
    let u = l_until(x, y, k);
    let g = l_globally(x, k);
    lemma_globally_unfold(x, k);
    lemma_next(u, g, k);
    assert(lang(weak_until_exp(a, b), k) =~= lang(
        union_exp(b, intersect_exp(a, weak_next_exp(weak_until_exp(a, b)))),
        k,
    ));
    lemma_release_unfold(x, y, k);
    assert(lang(complement_exp(release_exp(a, b)), k) =~= lang(
        until_exp(complement_exp(a), complement_exp(b)),
        k,
    ));
}

/// The containments: strong until lies within weak until and strong next
/// within weak next, an expression within its union with any other, and
/// union, intersection and sequence keep containment.
pub proof fn lemma_containments(a: Exp, b: Exp, c: Exp, d: Exp, k: nat)
    ensures
        contained(until_exp(a, b), weak_until_exp(a, b), k),
        contained(next_exp(a), weak_next_exp(a), k),
        contained(a, union_exp(a, b), k),
        contained(a, b, k) && contained(c, d, k) ==> contained(union_exp(a, c), union_exp(b, d), k),
        contained(a, b, k) && contained(c, d, k) ==> contained(intersect_exp(a, c), intersect_exp(b, d), k),
        contained(a, b, k) && contained(c, d, k) ==> contained(sequence_exp(a, c), sequence_exp(b, d), k),
{
    reveal_with_fuel(lang, 3);
    if contained(a, b, k) && contained(c, d, k) {
        lemma_seq_monotone(lang(a, k), lang(c, k), lang(b, k), lang(d, k));
    }
}

} // verus!
