//! The fuzzer keeps its word: a pair that `genax` can return is a pair of
//! equivalent expressions, and a pair that `gen_leq` can return is a pair of
//! which the first is contained in the second.

use crate::axioms::{
    lemma_atoms_typed, lemma_dup_test, lemma_finally_globally, lemma_finally_unfold, lemma_globally_unfold,
    lemma_next, lemma_rel_seq, lemma_rel_union, lemma_rel_within, lemma_seq_assoc, lemma_seq_monotone,
    lemma_seq_one, lemma_seq_union, lemma_seq_within, lemma_seq_zero, lemma_star_unroll_left,
    lemma_star_unroll_right, lemma_star_within, lemma_until_unfold,
};
use crate::expr::{Exp, Expr, Field, Value};
use crate::fuzz::{
    binary_pair, can_generate, derivable, flip, monotone_pair, ordered, packet_pair, strong_weak_pair,
    ternary_pair, unary_pair, widened,
};
use crate::laws::{
    lemma_assign_assign, lemma_assign_commute, lemma_assign_test, lemma_assign_test_commute, lemma_test_test,
};
use crate::relation::{assign};
use crate::semantics::{contained, equivalent, l_end, l_globally, l_next, l_not, l_until, lang, within, Lang};
use vstd::prelude::*;

verus! {

/// The traces of an expression are traces over packets of `k` fields.
pub proof fn lemma_lang_within(e: Exp, k: nat)
    ensures
        within(lang(e, k), k),
    decreases e,
{
    match *e {
        Expr::Zero | Expr::One | Expr::Top | Expr::Dup | Expr::End => {},
        Expr::Assign(_, _) | Expr::Test(_, _) => {},
        Expr::Union(a, b) | Expr::Intersect(a, b) | Expr::Xor(a, b) | Expr::Difference(a, b) => {
            lemma_lang_within(a, k);
            lemma_lang_within(b, k);
        },
        Expr::Sequence(a, b) => {
            lemma_lang_within(a, k);
            lemma_lang_within(b, k);
            lemma_seq_within(lang(a, k), lang(b, k), k);
        },
        Expr::Star(a) => {
            lemma_lang_within(a, k);
            lemma_star_within(lang(a, k), k);
        },
        Expr::Complement(a)
        | Expr::LtlNext(a)
        | Expr::LtlWeakNext(a)
        | Expr::LtlFinally(a)
        | Expr::LtlGlobally(a) => {},
        Expr::LtlUntil(a, b)
        | Expr::LtlWeakUntil(a, b)
        | Expr::LtlRelease(a, b)
        | Expr::LtlStrongRelease(a, b) => {},
    }
}

/// Every packet axiom is sound: its two sides are equivalent.
pub proof fn lemma_packet_sound(choice: u32, xi: Field, xj: Field, v: Value, vp: Value, k: nat)
    requires
        xi < k,
        xj < k,
        choice < 2 ==> xi != xj,
    ensures
        equivalent(packet_pair(choice, xi, xj, v, vp).0, packet_pair(choice, xi, xj, v, vp).1, k),
{
    reveal_with_fuel(lang, 4);
    let i = xi as nat;
    let j = xj as nat;
    lemma_atoms_typed(i, v, k);
    lemma_atoms_typed(i, vp, k);
    lemma_atoms_typed(j, vp, k);
    lemma_atoms_typed(i, false, k);
    if choice == 0 {
        lemma_rel_seq(assign(i, v, k), assign(j, vp, k), k);
        lemma_rel_seq(assign(j, vp, k), assign(i, v, k), k);
        lemma_assign_commute(i, j, v, vp, k);
    } else if choice == 1 {
        lemma_rel_seq(assign(i, v, k), crate::relation::test(j, vp, k), k);
        lemma_rel_seq(crate::relation::test(j, vp, k), assign(i, v, k), k);
        lemma_assign_test_commute(i, j, v, vp, k);
    } else if choice == 2 {
        lemma_dup_test(i, v, k);
    } else if choice == 3 {
        lemma_rel_seq(assign(i, v, k), crate::relation::test(i, v, k), k);
        lemma_assign_test(i, v, k);
    } else if choice == 4 {
        lemma_rel_seq(crate::relation::test(i, v, k), assign(i, v, k), k);
        lemma_assign_test(i, v, k);
    } else if choice == 5 {
        lemma_rel_seq(assign(i, v, k), assign(i, vp, k), k);
        lemma_assign_assign(i, v, vp, k);
    } else if choice == 6 {
        lemma_rel_seq(crate::relation::test(i, false, k), crate::relation::test(i, true, k), k);
        lemma_test_test(i, k);
        lemma_rel_within(Set::empty(), k);
    } else {
        lemma_rel_union(crate::relation::test(i, false, k), crate::relation::test(i, true, k), k);
        lemma_test_test(i, k);
    }
}

/// Every axiom over one pair is sound: over an equivalent pair its two sides
/// are equivalent.
pub proof fn lemma_unary_sound(choice: u32, p: (Exp, Exp), k: nat)
    requires
        equivalent(p.0, p.1, k),
    ensures
        equivalent(unary_pair(choice, p).0, unary_pair(choice, p).1, k),
{
    reveal_with_fuel(lang, 6);
    let a = lang(p.0, k);
    lemma_lang_within(p.0, k);
    let l = lang(unary_pair(choice, p).0, k);
    let r = lang(unary_pair(choice, p).1, k);
    if choice == 0 {
        assert(l =~= r);
    } else if choice == 1 {
        assert(l =~= r);
    } else if choice == 2 {
        lemma_seq_one(a, k);
    } else if choice == 3 {
        lemma_seq_one(a, k);
    } else if choice == 4 {
        lemma_seq_zero(a);
    } else if choice == 5 {
        lemma_seq_zero(a);
    } else if choice == 6 {
        lemma_star_unroll_left(a, k);
    } else if choice == 7 {
        lemma_star_unroll_right(a, k);
    } else if choice == 8 {
        assert(l =~= r);
    } else if choice == 9 {
        assert(l =~= r);
    } else if choice == 10 {
        assert(l =~= r);
    } else if choice == 11 {
        assert(l =~= r);
    } else if choice == 12 {
        lemma_finally_globally(a, k);
    } else if choice == 13 {
        lemma_finally_globally(a, k);
    } else if choice == 14 {
        lemma_next(a, a, k);
    } else if choice == 15 {
        lemma_finally_unfold(a, k);
    } else {
        lemma_globally_unfold(a, k);
    }
}

/// Release holds when the second holds now and either the first holds now,
/// or this is the end, or release holds next.
pub proof fn lemma_release_unfold(a: Lang, b: Lang, k: nat)
    requires
        within(a, k),
        within(b, k),
    ensures
        ({
            let r = l_not(l_until(l_not(a, k), l_not(b, k), k), k);
            r == b.intersect(a.union(l_end(k).union(l_next(r, k))))
        }),
{
    let u = l_until(l_not(a, k), l_not(b, k), k);
    let r = l_not(u, k);
    lemma_until_unfold(l_not(a, k), l_not(b, k), k);
    lemma_next(u, u, k);
    assert(r =~= b.intersect(a.union(l_end(k).union(l_next(r, k)))));
}

/// Every axiom over two pairs is sound: over equivalent pairs its two sides
/// are equivalent.
pub proof fn lemma_binary_sound(choice: u32, p: (Exp, Exp), q: (Exp, Exp), k: nat)
    requires
        equivalent(p.0, p.1, k),
        equivalent(q.0, q.1, k),
    ensures
        equivalent(binary_pair(choice, p, q).0, binary_pair(choice, p, q).1, k),
{
    reveal_with_fuel(lang, 6);
    let a = lang(p.0, k);
    let b = lang(q.0, k);
    lemma_lang_within(p.0, k);
    lemma_lang_within(q.0, k);
    let l = lang(binary_pair(choice, p, q).0, k);
    let r = lang(binary_pair(choice, p, q).1, k);
    if choice == 0 {
        assert(l =~= r);
    } else if choice == 1 {
        assert(l =~= r);
    } else if choice == 2 {
        lemma_next(a, b, k);
    } else if choice == 3 {
        lemma_next(a, b, k);
    } else if choice == 4 {
        lemma_until_unfold(a, b, k);
        assert(l =~= r);
    } else if choice == 5 {
        let u = l_until(a, b, k);
        let g = l_globally(a, k);
        lemma_until_unfold(a, b, k);
        lemma_globally_unfold(a, k);
        lemma_next(u, g, k);
        assert(l =~= r);
    } else if choice == 6 {
    } else if choice == 7 {
        lemma_release_unfold(a, b, k);
    } else if choice == 8 {
        assert(l =~= r);
    } else {
    }
}

/// Every axiom over three pairs is sound: over equivalent pairs its two
/// sides are equivalent.
pub proof fn lemma_ternary_sound(choice: u32, p: (Exp, Exp), q: (Exp, Exp), s: (Exp, Exp), k: nat)
    requires
        equivalent(p.0, p.1, k),
        equivalent(q.0, q.1, k),
        equivalent(s.0, s.1, k),
    ensures
        equivalent(ternary_pair(choice, p, q, s).0, ternary_pair(choice, p, q, s).1, k),
{
    reveal_with_fuel(lang, 4);
    let a = lang(p.0, k);
    let b = lang(q.0, k);
    let c = lang(s.0, k);
    let l = lang(ternary_pair(choice, p, q, s).0, k);
    let r = lang(ternary_pair(choice, p, q, s).1, k);
    if choice == 0 {
        assert(l =~= r);
    } else if choice == 1 {
        lemma_seq_assoc(a, b, c);
    } else if choice == 2 {
        lemma_seq_union(a, b, c);
    } else if choice == 3 {
        lemma_seq_union(a, b, c);
    } else {
        assert(l =~= r);
    }
}

/// Equivalence does not depend on the order of the two sides.
pub proof fn lemma_flip_sound(swap: bool, pair: (Exp, Exp), k: nat)
    requires
        equivalent(pair.0, pair.1, k),
    ensures
        equivalent(flip(swap, pair).0, flip(swap, pair).1, k),
{
}

/// What `genax` can return is a pair of equivalent expressions.
pub proof fn lemma_derivable_sound(pair: (Exp, Exp), n: nat, d: nat, k: u32)
    requires
        derivable(pair, n, d, k),
    ensures
        equivalent(pair.0, pair.1, k as nat),
    decreases n,
{
    let m = (n - 1) as nat;
    if n == 0 {
    } else if exists|choice: u32, xi: Field, xj: Field, v: Value, vp: Value|
        choice < 8 && xi < k && xj < k && (choice < 2 ==> xi != xj) && pair == #[trigger] packet_pair(
            choice,
            xi,
            xj,
            v,
            vp,
        ) {
        let (choice, xi, xj, v, vp) = choose|choice: u32, xi: Field, xj: Field, v: Value, vp: Value|
            choice < 8 && xi < k && xj < k && (choice < 2 ==> xi != xj) && pair == #[trigger] packet_pair(
                choice,
                xi,
                xj,
                v,
                vp,
            );
        lemma_packet_sound(choice, xi, xj, v, vp, k as nat);
    } else if exists|choice: u32, swap: bool, p: (Exp, Exp)|
        choice < 17 && derivable(p, m, d, k) && pair == #[trigger] flip(swap, unary_pair(choice, p)) {
        let (choice, swap, p) = choose|choice: u32, swap: bool, p: (Exp, Exp)|
            choice < 17 && derivable(p, m, d, k) && pair == #[trigger] flip(swap, unary_pair(choice, p));
        lemma_derivable_sound(p, m, d, k);
        lemma_unary_sound(choice, p, k as nat);
        lemma_flip_sound(swap, unary_pair(choice, p), k as nat);
    } else if exists|choice: u32, swap: bool, p: (Exp, Exp), q: (Exp, Exp)|
        choice < 10 && derivable(p, m, d, k) && derivable(q, m, d, k) && pair == #[trigger] flip(
            swap,
            binary_pair(choice, p, q),
        ) {
        let (choice, swap, p, q) = choose|choice: u32, swap: bool, p: (Exp, Exp), q: (Exp, Exp)|
            choice < 10 && derivable(p, m, d, k) && derivable(q, m, d, k) && pair == #[trigger] flip(
                swap,
                binary_pair(choice, p, q),
            );
        lemma_derivable_sound(p, m, d, k);
        lemma_derivable_sound(q, m, d, k);
        lemma_binary_sound(choice, p, q, k as nat);
        lemma_flip_sound(swap, binary_pair(choice, p, q), k as nat);
    } else {
        let (choice, swap, p, q, s) = choose|choice: u32, swap: bool, p: (Exp, Exp), q: (Exp, Exp), s: (Exp, Exp)|
            choice < 5 && derivable(p, m, d, k) && derivable(q, m, d, k) && derivable(s, m, d, k) && pair
                == #[trigger] flip(swap, ternary_pair(choice, p, q, s));
        lemma_derivable_sound(p, m, d, k);
        lemma_derivable_sound(q, m, d, k);
        lemma_derivable_sound(s, m, d, k);
        lemma_ternary_sound(choice, p, q, s, k as nat);
        lemma_flip_sound(swap, ternary_pair(choice, p, q, s), k as nat);
    }
}

/// A contained pair stays contained when its right side is widened.
pub proof fn lemma_widened_sound(pair: (Exp, Exp), extra: Exp, k: nat)
    requires
        contained(pair.0, pair.1, k),
    ensures
        contained(widened(pair, extra).0, widened(pair, extra).1, k),
{
    reveal_with_fuel(lang, 2);
}

/// A strong operator is contained in its weak counterpart.
pub proof fn lemma_strong_weak_sound(choice: u32, a: Exp, b: Exp, extra: Exp, k: nat)
    ensures
        contained(strong_weak_pair(choice, a, b, extra).0, strong_weak_pair(choice, a, b, extra).1, k),
{
    reveal_with_fuel(lang, 3);
}

/// Union, intersection and sequence are monotone: they keep containment.
pub proof fn lemma_monotone_sound(choice: u32, p: (Exp, Exp), q: (Exp, Exp), k: nat)
    requires
        contained(p.0, p.1, k),
        contained(q.0, q.1, k),
    ensures
        contained(monotone_pair(choice, p, q).0, monotone_pair(choice, p, q).1, k),
{
    reveal_with_fuel(lang, 2);
    lemma_seq_monotone(lang(p.0, k), lang(q.0, k), lang(p.1, k), lang(q.1, k));
}

/// What `gen_leq` can return is a pair of which the first expression is
/// contained in the second.
pub proof fn lemma_ordered_sound(pair: (Exp, Exp), n: nat, d: nat, k: u32)
    requires
        ordered(pair, n, d, k),
    ensures
        contained(pair.0, pair.1, k as nat),
    decreases n,
{
    let m = (n - 1) as nat;
    if n == 0 {
        let (e, extra) = choose|e: Exp, extra: Exp|
            can_generate(e, k, d) && can_generate(extra, k, d / 2) && pair == #[trigger] widened((e, e), extra);
        lemma_widened_sound((e, e), extra, k as nat);
    } else if exists|p: (Exp, Exp), extra: Exp|
        derivable(p, m, d, k) && can_generate(extra, k, d / 2) && pair == #[trigger] widened(p, extra) {
        let (p, extra) = choose|p: (Exp, Exp), extra: Exp|
            derivable(p, m, d, k) && can_generate(extra, k, d / 2) && pair == #[trigger] widened(p, extra);
        lemma_derivable_sound(p, m, d, k);
        lemma_widened_sound(p, extra, k as nat);
    } else if exists|p: (Exp, Exp), extra: Exp|
        ordered(p, m, d, k) && can_generate(extra, k, d / 2) && pair == #[trigger] widened(p, extra) {
        let (p, extra) = choose|p: (Exp, Exp), extra: Exp|
            ordered(p, m, d, k) && can_generate(extra, k, d / 2) && pair == #[trigger] widened(p, extra);
        lemma_ordered_sound(p, m, d, k);
        lemma_widened_sound(p, extra, k as nat);
    } else if exists|choice: u32, a: Exp, b: Exp, extra: Exp|
        choice < 3 && can_generate(a, k, d) && can_generate(b, k, d) && can_generate(extra, k, d / 2) && pair
            == #[trigger] strong_weak_pair(choice, a, b, extra) {
        let (choice, a, b, extra) = choose|choice: u32, a: Exp, b: Exp, extra: Exp|
            choice < 3 && can_generate(a, k, d) && can_generate(b, k, d) && can_generate(extra, k, d / 2) && pair
                == #[trigger] strong_weak_pair(choice, a, b, extra);
        lemma_strong_weak_sound(choice, a, b, extra, k as nat);
    } else {
        let (choice, p, q) = choose|choice: u32, p: (Exp, Exp), q: (Exp, Exp)|
            choice < 3 && ordered(p, m, d, k) && ordered(q, m, d, k) && pair == #[trigger] monotone_pair(
                choice,
                p,
                q,
            );
        lemma_ordered_sound(p, m, d, k);
        lemma_ordered_sound(q, m, d, k);
        lemma_monotone_sound(choice, p, q, k as nat);
    }
}

} // verus!
