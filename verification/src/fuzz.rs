//! The fuzzer: random pairs of expressions that are equal, or ordered by
//! containment, by construction. A pair is built by applying axioms of NetKAT,
//! of Kleene algebra, of Boolean algebra and of linear temporal logic to
//! pairs built before; which axiom is applied and to what is drawn at random,
//! and what is built from a draw is a function of the draw.

use crate::expr::{
    assign_exp, complement_exp, dup_exp, end_exp, finally_exp, globally_exp, intersect_exp, next_exp, one_exp,
    release_exp, sequence_exp, share, star_exp, strong_release_exp, test_exp, top_exp, union_exp, until_exp,
    weak_next_exp, weak_until_exp, zero_exp, Exp, Expr, Field, Value,
};
use crate::random::Source;
use crate::semantics::{contained, equivalent};
use crate::soundness::{lemma_derivable_sound, lemma_ordered_sound};
use vstd::prelude::*;

verus! {

/// The leaf that `choice` picks: a constant, or an assignment or a test of
/// `field` and `value`.
pub open spec fn leaf_of(choice: u32, field: Field, value: Value) -> Exp {
    if choice == 0 {
        zero_exp()
    } else if choice == 1 {
        one_exp()
    } else if choice == 2 {
        top_exp()
    } else if choice == 3 {
        dup_exp()
    } else if choice == 4 {
        assign_exp(field, value)
    } else {
        test_exp(field, value)
    }
}

/// The expression that `choice` builds over `a` and `b`: `a` itself, its
/// iteration or its complement, or the union, the sequence or the
/// intersection of the two.
pub open spec fn node_of(choice: u32, a: Exp, b: Exp) -> Exp {
    if choice == 0 {
        a
    } else if choice == 1 {
        star_exp(a)
    } else if choice == 2 {
        complement_exp(a)
    } else if choice == 3 {
        union_exp(a, b)
    } else if choice == 4 {
        sequence_exp(a, b)
    } else {
        intersect_exp(a, b)
    }
}

/// `e` is an expression that `gen_random_expr` can return for `k` fields and
/// the depth `d`: at depth 0 one of the first five leaves over a field below
/// `k`, at a greater depth one of the six expressions over what it can return
/// one level down.
pub open spec fn can_generate(e: Exp, k: u32, d: nat) -> bool
    decreases d,
{
    if d == 0 {
        exists|choice: u32, field: Field, value: Value|
            choice < 5 && field < k && e == #[trigger] leaf_of(choice, field, value)
    } else {
        exists|choice: u32, a: Exp, b: Exp|
            choice < 6 && can_generate(a, k, (d - 1) as nat) && can_generate(b, k, (d - 1) as nat) && e
                == #[trigger] node_of(choice, a, b)
    }
}

/// The pair, turned round when `swap` says so.
pub open spec fn flip(swap: bool, pair: (Exp, Exp)) -> (Exp, Exp) {
    if swap {
        (pair.1, pair.0)
    } else {
        pair
    }
}

/// The two sides of a packet axiom: `choice` picks the axiom, `xi` and `xj` are
/// its fields and `v` and `vp` its values.
pub open spec fn packet_pair(choice: u32, xi: Field, xj: Field, v: Value, vp: Value) -> (Exp, Exp) {
    if choice == 0 {
        // a modification commutes with a modification of another field
        (sequence_exp(assign_exp(xi, v), assign_exp(xj, vp)), sequence_exp(assign_exp(xj, vp), assign_exp(xi, v)))
    } else if choice == 1 {
        // a modification commutes with a test of another field
        (sequence_exp(assign_exp(xi, v), test_exp(xj, vp)), sequence_exp(test_exp(xj, vp), assign_exp(xi, v)))
    } else if choice == 2 {
        // dup commutes with a test
        (sequence_exp(dup_exp(), test_exp(xi, v)), sequence_exp(test_exp(xi, v), dup_exp()))
    } else if choice == 3 {
        // a test of the value just assigned passes
        (sequence_exp(assign_exp(xi, v), test_exp(xi, v)), assign_exp(xi, v))
    } else if choice == 4 {
        // an assignment of the value just tested is idle
        (sequence_exp(test_exp(xi, v), assign_exp(xi, v)), test_exp(xi, v))
    } else if choice == 5 {
        // of two modifications of one field the last prevails
        (sequence_exp(assign_exp(xi, v), assign_exp(xi, vp)), assign_exp(xi, vp))
    } else if choice == 6 {
        // a field cannot be both unset and set
        (sequence_exp(test_exp(xi, false), test_exp(xi, true)), zero_exp())
    } else {
        // a field is unset or set
        (union_exp(test_exp(xi, false), test_exp(xi, true)), one_exp())
    }
}

/// Builds the two sides of the packet axiom that `choice` picks.
pub fn packet_axiom(choice: u32, xi: Field, xj: Field, v: Value, vp: Value) -> (pair: (Exp, Exp))
    ensures
        pair == packet_pair(choice, xi, xj, v, vp),
{
    if choice == 0 {
        // a modification commutes with a modification of another field
        let lhs = Expr::sequence(Expr::assign(xi, v), Expr::assign(xj, vp));
        let rhs = Expr::sequence(Expr::assign(xj, vp), Expr::assign(xi, v));
        (lhs, rhs)
    } else if choice == 1 {
        // a modification commutes with a test of another field
        let lhs = Expr::sequence(Expr::assign(xi, v), Expr::test(xj, vp));
        let rhs = Expr::sequence(Expr::test(xj, vp), Expr::assign(xi, v));
        (lhs, rhs)
    } else if choice == 2 {
        // dup commutes with a test
        let lhs = Expr::sequence(Expr::dup(), Expr::test(xi, v));
        let rhs = Expr::sequence(Expr::test(xi, v), Expr::dup());
        (lhs, rhs)
    } else if choice == 3 {
        // a test of the value just assigned passes
        let lhs = Expr::sequence(Expr::assign(xi, v), Expr::test(xi, v));
        let rhs = Expr::assign(xi, v);
        (lhs, rhs)
    } else if choice == 4 {
        // an assignment of the value just tested is idle
        let lhs = Expr::sequence(Expr::test(xi, v), Expr::assign(xi, v));
        let rhs = Expr::test(xi, v);
        (lhs, rhs)
    } else if choice == 5 {
        // of two modifications of one field the last prevails
        let lhs = Expr::sequence(Expr::assign(xi, v), Expr::assign(xi, vp));
        let rhs = Expr::assign(xi, vp);
        (lhs, rhs)
    } else if choice == 6 {
        // a field cannot be both unset and set
        let lhs = Expr::sequence(Expr::test(xi, false), Expr::test(xi, true));
        let rhs = Expr::zero();
        (lhs, rhs)
    } else {
        // a field is unset or set
        let lhs = Expr::union(Expr::test(xi, false), Expr::test(xi, true));
        let rhs = Expr::one();
        (lhs, rhs)
    }
}

/// The two sides of an axiom over one equal pair `(p.0, p.1)`: the left side
/// is built from `p.0` and the right side from `p.1`.
pub open spec fn unary_pair(choice: u32, p: (Exp, Exp)) -> (Exp, Exp) {
    if choice == 0 {
        // p + 0 = p
        (union_exp(p.0, zero_exp()), p.1)
    } else if choice == 1 {
        // p + p = p
        (union_exp(p.0, p.0), p.1)
    } else if choice == 2 {
        // 1 . p = p
        (sequence_exp(one_exp(), p.0), p.1)
    } else if choice == 3 {
        // p . 1 = p
        (sequence_exp(p.0, one_exp()), p.1)
    } else if choice == 4 {
        // 0 . p = 0
        (sequence_exp(zero_exp(), p.0), zero_exp())
    } else if choice == 5 {
        // p . 0 = 0
        (sequence_exp(p.0, zero_exp()), zero_exp())
    } else if choice == 6 {
        // 1 + p . p* = p*
        (union_exp(one_exp(), sequence_exp(p.0, star_exp(p.0))), star_exp(p.1))
    } else if choice == 7 {
        // 1 + p* . p = p*
        (union_exp(one_exp(), sequence_exp(star_exp(p.0), p.0)), star_exp(p.1))
    } else if choice == 8 {
        // a + T = T
        (union_exp(p.0, top_exp()), top_exp())
    } else if choice == 9 {
        // a + !a = T
        (union_exp(p.0, complement_exp(p.1)), top_exp())
    } else if choice == 10 {
        // a & !a = 0
        (intersect_exp(p.0, complement_exp(p.1)), zero_exp())
    } else if choice == 11 {
        // a & a = a
        (intersect_exp(p.0, p.0), p.1)
    } else if choice == 12 {
        // !(F e) = G (!e)
        (complement_exp(finally_exp(p.0)), globally_exp(complement_exp(p.1)))
    } else if choice == 13 {
        // !(G e) = F (!e)
        (complement_exp(globally_exp(p.0)), finally_exp(complement_exp(p.1)))
    } else if choice == 14 {
        // !(X e) = End + X (!e)
        (complement_exp(next_exp(p.0)), union_exp(end_exp(), next_exp(complement_exp(p.1))))
    } else if choice == 15 {
        // F e = e + X (F e)
        (finally_exp(p.0), union_exp(p.1, next_exp(finally_exp(p.1))))
    } else {
        // G e = e & (End + X (G e))
        (globally_exp(p.0), intersect_exp(p.1, union_exp(end_exp(), next_exp(globally_exp(p.1)))))
    }
}

/// Builds the two sides of the axiom over one equal pair that `choice` picks.
pub fn unary_axiom(choice: u32, p: (Exp, Exp)) -> (pair: (Exp, Exp))
    ensures
        pair == unary_pair(choice, p),
{
    let (l, r) = p;
    if choice == 0 {
        // p + 0 = p
        let lhs = Expr::union(l, Expr::zero());
        let rhs = r;
        (lhs, rhs)
    } else if choice == 1 {
        // p + p = p
        let lhs = Expr::union(share(&l), l);
        let rhs = r;
        (lhs, rhs)
    } else if choice == 2 {
        // 1 . p = p
        let lhs = Expr::sequence(Expr::one(), l);
        let rhs = r;
        (lhs, rhs)
    } else if choice == 3 {
        // p . 1 = p
        let lhs = Expr::sequence(l, Expr::one());
        let rhs = r;
        (lhs, rhs)
    } else if choice == 4 {
        // 0 . p = 0
        let lhs = Expr::sequence(Expr::zero(), l);
        let rhs = Expr::zero();
        (lhs, rhs)
    } else if choice == 5 {
        // p . 0 = 0
        let lhs = Expr::sequence(l, Expr::zero());
        let rhs = Expr::zero();
        (lhs, rhs)
    } else if choice == 6 {
        // 1 + p . p* = p*
        let lhs = Expr::union(Expr::one(), Expr::sequence(share(&l), Expr::star(l)));
        let rhs = Expr::star(r);
        (lhs, rhs)
    } else if choice == 7 {
        // 1 + p* . p = p*
        let lhs = Expr::union(Expr::one(), Expr::sequence(Expr::star(share(&l)), l));
        let rhs = Expr::star(r);
        (lhs, rhs)
    } else if choice == 8 {
        // a + T = T
        let lhs = Expr::union(l, Expr::top());
        let rhs = Expr::top();
        (lhs, rhs)
    } else if choice == 9 {
        // a + !a = T
        let lhs = Expr::union(l, Expr::complement(r));
        let rhs = Expr::top();
        (lhs, rhs)
    } else if choice == 10 {
        // a & !a = 0
        let lhs = Expr::intersect(l, Expr::complement(r));
        let rhs = Expr::zero();
        (lhs, rhs)
    } else if choice == 11 {
        // a & a = a
        let lhs = Expr::intersect(share(&l), l);
        let rhs = r;
        (lhs, rhs)
    } else if choice == 12 {
        // !(F e) = G (!e)
        let lhs = Expr::complement(Expr::ltl_finally(l));
        let rhs = Expr::ltl_globally(Expr::complement(r));
        (lhs, rhs)
    } else if choice == 13 {
        // !(G e) = F (!e)
        let lhs = Expr::complement(Expr::ltl_globally(l));
        let rhs = Expr::ltl_finally(Expr::complement(r));
        (lhs, rhs)
    } else if choice == 14 {
        // !(X e) = End + X (!e)
        let lhs = Expr::complement(Expr::ltl_next(l));
        let rhs = Expr::union(Expr::end(), Expr::ltl_next(Expr::complement(r)));
        (lhs, rhs)
    } else if choice == 15 {
        // F e = e + X (F e)
        let lhs = Expr::ltl_finally(l);
        let rhs = Expr::union(share(&r), Expr::ltl_next(Expr::ltl_finally(r)));
        (lhs, rhs)
    } else {
        // G e = e & (End + X (G e))
        let lhs = Expr::ltl_globally(l);
        let rhs = Expr::intersect(share(&r), Expr::union(Expr::end(), Expr::ltl_next(Expr::ltl_globally(r))));
        (lhs, rhs)
    }
}

/// The two sides of an axiom over two equal pairs `p` and `q`.
pub open spec fn binary_pair(choice: u32, p: (Exp, Exp), q: (Exp, Exp)) -> (Exp, Exp) {
    if choice == 0 {
        // p + q = q + p
        (union_exp(p.0, q.0), union_exp(q.1, p.1))
    } else if choice == 1 {
        // a & b = b & a
        (intersect_exp(p.0, q.0), intersect_exp(q.1, p.1))
    } else if choice == 2 {
        // X (a & b) = X a & X b
        (next_exp(intersect_exp(p.0, q.0)), intersect_exp(next_exp(p.1), next_exp(q.1)))
    } else if choice == 3 {
        // X (a + b) = X a + X b
        (next_exp(union_exp(p.0, q.0)), union_exp(next_exp(p.1), next_exp(q.1)))
    } else if choice == 4 {
        // a U b = b + (a & X (a U b))
        (until_exp(p.0, q.0), union_exp(q.1, intersect_exp(p.1, next_exp(until_exp(p.1, q.1)))))
    } else if choice == 5 {
        // a W b = b + (a & X' (a W b))
        (weak_until_exp(p.0, q.0), union_exp(q.1, intersect_exp(p.1, weak_next_exp(weak_until_exp(p.1, q.1)))))
    } else if choice == 6 {
        // a R b = !(!a U !b)
        (release_exp(p.0, q.0), complement_exp(until_exp(complement_exp(p.1), complement_exp(q.1))))
    } else if choice == 7 {
        // a R b = b & (a + X' (a R b))
        (release_exp(p.0, q.0), intersect_exp(q.1, union_exp(p.1, weak_next_exp(release_exp(p.1, q.1)))))
    } else if choice == 8 {
        // !(a R b) = !a U !b
        (complement_exp(release_exp(p.0, q.0)), until_exp(complement_exp(p.1), complement_exp(q.1)))
    } else {
        // a S b = (a R b) & F b
        (strong_release_exp(p.0, q.0), intersect_exp(release_exp(p.1, q.1), finally_exp(q.1)))
    }
}

/// Builds the two sides of the axiom over two equal pairs that `choice` picks.
pub fn binary_axiom(choice: u32, p: (Exp, Exp), q: (Exp, Exp)) -> (pair: (Exp, Exp))
    ensures
        pair == binary_pair(choice, p, q),
{
    let (l1, r1) = p;
    let (l2, r2) = q;
    if choice == 0 {
        // p + q = q + p
        let lhs = Expr::union(l1, l2);
        let rhs = Expr::union(r2, r1);
        (lhs, rhs)
    } else if choice == 1 {
        // a & b = b & a
        let lhs = Expr::intersect(l1, l2);
        let rhs = Expr::intersect(r2, r1);
        (lhs, rhs)
    } else if choice == 2 {
        // X (a & b) = X a & X b
        let lhs = Expr::ltl_next(Expr::intersect(l1, l2));
        let rhs = Expr::intersect(Expr::ltl_next(r1), Expr::ltl_next(r2));
        (lhs, rhs)
    } else if choice == 3 {
        // X (a + b) = X a + X b
        let lhs = Expr::ltl_next(Expr::union(l1, l2));
        let rhs = Expr::union(Expr::ltl_next(r1), Expr::ltl_next(r2));
        (lhs, rhs)
    } else if choice == 4 {
        // a U b = b + (a & X (a U b))
        let lhs = Expr::ltl_until(l1, l2);
        let rhs = Expr::union(share(&r2), Expr::intersect(share(&r1), Expr::ltl_next(Expr::ltl_until(r1, r2))));
        (lhs, rhs)
    } else if choice == 5 {
        // a W b = b + (a & X' (a W b))
        let lhs = Expr::ltl_weak_until(l1, l2);
        let rhs = Expr::union(share(&r2), Expr::intersect(share(&r1), Expr::ltl_weak_next(Expr::ltl_weak_until(r1, r2))));
        (lhs, rhs)
    } else if choice == 6 {
        // a R b = !(!a U !b)
        let lhs = Expr::ltl_release(l1, l2);
        let rhs = Expr::complement(Expr::ltl_until(Expr::complement(r1), Expr::complement(r2)));
        (lhs, rhs)
    } else if choice == 7 {
        // a R b = b & (a + X' (a R b))
        let lhs = Expr::ltl_release(l1, l2);
        let rhs = Expr::intersect(share(&r2), Expr::union(share(&r1), Expr::ltl_weak_next(Expr::ltl_release(r1, r2))));
        (lhs, rhs)
    } else if choice == 8 {
        // !(a R b) = !a U !b
        let lhs = Expr::complement(Expr::ltl_release(l1, l2));
        let rhs = Expr::ltl_until(Expr::complement(r1), Expr::complement(r2));
        (lhs, rhs)
    } else {
        // a S b = (a R b) & F b
        let lhs = Expr::ltl_strong_release(l1, l2);
        let rhs = Expr::intersect(Expr::ltl_release(r1, share(&r2)), Expr::ltl_finally(r2));
        (lhs, rhs)
    }
}

/// The two sides of an axiom over three equal pairs `p`, `q` and `s`.
pub open spec fn ternary_pair(choice: u32, p: (Exp, Exp), q: (Exp, Exp), s: (Exp, Exp)) -> (Exp, Exp) {
    if choice == 0 {
        // p + (q + r) = (p + q) + r
        (union_exp(p.0, union_exp(q.0, s.0)), union_exp(union_exp(p.1, q.1), s.1))
    } else if choice == 1 {
        // p . (q . r) = (p . q) . r
        (sequence_exp(p.0, sequence_exp(q.0, s.0)), sequence_exp(sequence_exp(p.1, q.1), s.1))
    } else if choice == 2 {
        // p . (q + r) = p . q + p . r
        (sequence_exp(p.0, union_exp(q.0, s.0)), union_exp(sequence_exp(p.1, q.1), sequence_exp(p.1, s.1)))
    } else if choice == 3 {
        // (p + q) . r = p . r + q . r
        (sequence_exp(union_exp(p.0, q.0), s.0), union_exp(sequence_exp(p.1, s.1), sequence_exp(q.1, s.1)))
    } else {
        // a + (b & c) = (a + b) & (a + c)
        (union_exp(p.0, intersect_exp(q.0, s.0)), intersect_exp(union_exp(p.1, q.1), union_exp(p.1, s.1)))
    }
}

/// Builds the two sides of the axiom over three equal pairs that `choice` picks.
pub fn ternary_axiom(choice: u32, p: (Exp, Exp), q: (Exp, Exp), s: (Exp, Exp)) -> (pair: (Exp, Exp))
    ensures
        pair == ternary_pair(choice, p, q, s),
{
    let (l1, r1) = p;
    let (l2, r2) = q;
    let (l3, r3) = s;
    if choice == 0 {
        // p + (q + r) = (p + q) + r
        let lhs = Expr::union(l1, Expr::union(l2, l3));
        let rhs = Expr::union(Expr::union(r1, r2), r3);
        (lhs, rhs)
    } else if choice == 1 {
        // p . (q . r) = (p . q) . r
        let lhs = Expr::sequence(l1, Expr::sequence(l2, l3));
        let rhs = Expr::sequence(Expr::sequence(r1, r2), r3);
        (lhs, rhs)
    } else if choice == 2 {
        // p . (q + r) = p . q + p . r
        let lhs = Expr::sequence(l1, Expr::union(l2, l3));
        let rhs = Expr::union(Expr::sequence(share(&r1), r2), Expr::sequence(r1, r3));
        (lhs, rhs)
    } else if choice == 3 {
        // (p + q) . r = p . r + q . r
        let lhs = Expr::sequence(Expr::union(l1, l2), l3);
        let rhs = Expr::union(Expr::sequence(r1, share(&r3)), Expr::sequence(r2, r3));
        (lhs, rhs)
    } else {
        // a + (b & c) = (a + b) & (a + c)
        let lhs = Expr::union(l1, Expr::intersect(l2, l3));
        let rhs = Expr::intersect(Expr::union(share(&r1), r2), Expr::union(r1, r3));
        (lhs, rhs)
    }
}

/// `pair` is a pair that `genax` can return for `n` rounds of axioms over
/// random expressions of depth `d` with `k` fields: with no round left a
/// random expression beside itself, and otherwise a packet axiom, or an axiom
/// over one, two or three pairs of one round less, turned round or not.
pub open spec fn derivable(pair: (Exp, Exp), n: nat, d: nat, k: u32) -> bool
    decreases n,
{
    if n == 0 {
        pair.0 == pair.1 && can_generate(pair.0, k, d)
    } else {
        ||| exists|choice: u32, xi: Field, xj: Field, v: Value, vp: Value|
            choice < 8 && xi < k && xj < k && (choice < 2 ==> xi != xj) && pair == #[trigger] packet_pair(
                choice,
                xi,
                xj,
                v,
                vp,
            )
        ||| exists|choice: u32, swap: bool, p: (Exp, Exp)|
            choice < 17 && derivable(p, (n - 1) as nat, d, k) && pair == #[trigger] flip(
                swap,
                unary_pair(choice, p),
            )
        ||| exists|choice: u32, swap: bool, p: (Exp, Exp), q: (Exp, Exp)|
            choice < 10 && derivable(p, (n - 1) as nat, d, k) && derivable(q, (n - 1) as nat, d, k) && pair
                == #[trigger] flip(swap, binary_pair(choice, p, q))
        ||| exists|choice: u32, swap: bool, p: (Exp, Exp), q: (Exp, Exp), s: (Exp, Exp)|
            choice < 5 && derivable(p, (n - 1) as nat, d, k) && derivable(q, (n - 1) as nat, d, k)
                && derivable(s, (n - 1) as nat, d, k) && pair == #[trigger] flip(
                swap,
                ternary_pair(choice, p, q, s),
            )
    }
}

/// The pair with `extra` added to its right side: what lies within the right
/// side lies within the wider one.
pub open spec fn widened(pair: (Exp, Exp), extra: Exp) -> (Exp, Exp) {
    (pair.0, union_exp(pair.1, extra))
}

/// A strong operator of temporal logic beside its weak counterpart: strong
/// until beside weak until, strong release beside itself widened by `extra`,
/// strong next beside weak next.
pub open spec fn strong_weak_pair(choice: u32, a: Exp, b: Exp, extra: Exp) -> (Exp, Exp) {
    if choice == 0 {
        (until_exp(a, b), weak_until_exp(a, b))
    } else if choice == 1 {
        (strong_release_exp(a, b), union_exp(strong_release_exp(a, b), extra))
    } else {
        (next_exp(a), weak_next_exp(a))
    }
}

/// Two ordered pairs under a monotone operator: union, intersection or
/// sequence, side by side.
pub open spec fn monotone_pair(choice: u32, p: (Exp, Exp), q: (Exp, Exp)) -> (Exp, Exp) {
    if choice == 0 {
        (union_exp(p.0, q.0), union_exp(p.1, q.1))
    } else if choice == 1 {
        (intersect_exp(p.0, q.0), intersect_exp(p.1, q.1))
    } else {
        (sequence_exp(p.0, q.0), sequence_exp(p.1, q.1))
    }
}

/// `pair` is a pair that `gen_leq` can return for `n` rounds over random
/// expressions of depth `d` with `k` fields: with no round left a random
/// expression beside itself widened, and otherwise an equal or an ordered pair
/// of one round less widened, a strong operator beside its weak counterpart,
/// or two ordered pairs of one round less under a monotone operator.
pub open spec fn ordered(pair: (Exp, Exp), n: nat, d: nat, k: u32) -> bool
    decreases n,
{
    if n == 0 {
        exists|e: Exp, extra: Exp|
            can_generate(e, k, d) && can_generate(extra, k, d / 2) && pair == #[trigger] widened((e, e), extra)
    } else {
        ||| exists|p: (Exp, Exp), extra: Exp|
            derivable(p, (n - 1) as nat, d, k) && can_generate(extra, k, d / 2) && pair == #[trigger] widened(
                p,
                extra,
            )
        ||| exists|p: (Exp, Exp), extra: Exp|
            ordered(p, (n - 1) as nat, d, k) && can_generate(extra, k, d / 2) && pair == #[trigger] widened(
                p,
                extra,
            )
        ||| exists|choice: u32, a: Exp, b: Exp, extra: Exp|
            choice < 3 && can_generate(a, k, d) && can_generate(b, k, d) && can_generate(extra, k, d / 2)
                && pair == #[trigger] strong_weak_pair(choice, a, b, extra)
        ||| exists|choice: u32, p: (Exp, Exp), q: (Exp, Exp)|
            choice < 3 && ordered(p, (n - 1) as nat, d, k) && ordered(q, (n - 1) as nat, d, k) && pair
                == #[trigger] monotone_pair(choice, p, q)
    }
}

/// What shrinking makes of an expression: nothing of `0` and `1`, the two
/// constants `0` and `1` of any other leaf, and its operands of an operator.
pub open spec fn shrunk(e: Exp) -> Seq<Exp> {
    match *e {
        Expr::Zero | Expr::One => seq![],
        Expr::Top | Expr::Dup | Expr::End | Expr::Assign(_, _) | Expr::Test(_, _) => seq![zero_exp(), one_exp()],
        Expr::Union(a, b)
        | Expr::Intersect(a, b)
        | Expr::Xor(a, b)
        | Expr::Difference(a, b)
        | Expr::Sequence(a, b)
        | Expr::LtlUntil(a, b)
        | Expr::LtlWeakUntil(a, b)
        | Expr::LtlRelease(a, b)
        | Expr::LtlStrongRelease(a, b) => seq![a, b],
        Expr::Star(a)
        | Expr::Complement(a)
        | Expr::LtlNext(a)
        | Expr::LtlWeakNext(a)
        | Expr::LtlFinally(a)
        | Expr::LtlGlobally(a) => seq![a],
    }
}

/// A random field among the first `k`.
pub fn gen_random_field(source: &mut Source, k: u32) -> (f: Field)
    requires
        k > 0,
    ensures
        f < k,
{
    source.below(k)
}

/// A random value.
pub fn gen_random_value(source: &mut Source) -> (v: Value) {
    source.coin()
}

/// Builds the leaf that `choice` picks.
pub fn leaf_expr(choice: u32, field: Field, value: Value) -> (e: Exp)
    ensures
        e == leaf_of(choice, field, value),
{
    if choice == 0 {
        Expr::zero()
    } else if choice == 1 {
        Expr::one()
    } else if choice == 2 {
        Expr::top()
    } else if choice == 3 {
        Expr::dup()
    } else if choice == 4 {
        Expr::assign(field, value)
    } else {
        Expr::test(field, value)
    }
}

/// Builds the expression that `choice` picks over `a` alone: `a` itself, its
/// iteration, or its complement.
pub fn unary_node(choice: u32, a: Exp) -> (e: Exp)
    requires
        choice < 3,
    ensures
        e == node_of(choice, a, a),
{
    if choice == 0 {
        a
    } else if choice == 1 {
        Expr::star(a)
    } else {
        Expr::complement(a)
    }
}

/// Builds the expression that `choice` picks over `a` and `b`: their union,
/// their sequence, or their intersection.
pub fn binary_node(choice: u32, a: Exp, b: Exp) -> (e: Exp)
    requires
        choice >= 3,
    ensures
        e == node_of(choice, a, b),
{
    if choice == 3 {
        Expr::union(a, b)
    } else if choice == 4 {
        Expr::sequence(a, b)
    } else {
        Expr::intersect(a, b)
    }
}

/// A random expression over `num_fields` fields, built in `max_depth` levels.
pub fn gen_random_expr(source: &mut Source, num_fields: u32, max_depth: usize) -> (e: Exp)
    requires
        num_fields > 0,
    ensures
        can_generate(e, num_fields, max_depth as nat),
    decreases max_depth,
{
    if max_depth == 0 {
        let choice = source.below(5);
        if choice < 4 {
            leaf_expr(choice, 0, false)
        } else {
            let field = gen_random_field(source, num_fields);
            let value = gen_random_value(source);
            leaf_expr(choice, field, value)
        }
    } else {
        let choice = source.below(6);
        let a = gen_random_expr(source, num_fields, max_depth - 1);
        if choice < 3 {
            unary_node(choice, a)
        } else {
            let b = gen_random_expr(source, num_fields, max_depth - 1);
            binary_node(choice, a, b)
        }
    }
}

/// The field that a draw among `k - 1` fields stands for when `taken` is
/// left out: the draw itself below `taken`, and the next field from there on.
pub fn other_field(taken: Field, draw: Field) -> (f: Field)
    requires
        draw < u32::MAX,
    ensures
        f != taken,
        f == (if draw < taken {
            draw
        } else {
            (draw + 1) as u32
        }),
{
    if draw < taken {
        draw
    } else {
        draw + 1
    }
}

/// Two distinct random fields among the first `k`.
pub fn get_distinct_fields(source: &mut Source, k: u32) -> (fields: (Field, Field))
    requires
        k >= 2,
    ensures
        fields.0 < k,
        fields.1 < k,
        fields.0 != fields.1,
{
    let f1 = source.below(k);
    let draw = source.below(k - 1);
    let f2 = other_field(f1, draw);
    (f1, f2)
}

/// The pair, turned round when `swap` says so.
pub fn flip_equality(swap: bool, lhs: Exp, rhs: Exp) -> (pair: (Exp, Exp))
    ensures
        pair == flip(swap, (lhs, rhs)),
{
    if swap {
        (rhs, lhs)
    } else {
        (lhs, rhs)
    }
}

/// The pair, turned round on the toss of a coin, so that an axiom is applied
/// in both directions.
pub fn flip_equality_rand(source: &mut Source, lhs: Exp, rhs: Exp) -> (pair: (Exp, Exp))
    ensures
        pair == (lhs, rhs) || pair == (rhs, lhs),
        exists|swap: bool| pair == #[trigger] flip(swap, (lhs, rhs)),
{
    let b = source.coin();
    flip_equality(b, lhs, rhs)
}

/// A random pair of expressions that are equal by construction, drawn from
/// a source of its own.
///
/// `ax_depth` is the number of rounds of axioms, `expr_depth` the depth of
/// the random expressions that the rounds start from, and `num_fields` the
/// number of packet fields, of which the axioms need two.
pub fn genax(ax_depth: usize, expr_depth: usize, num_fields: u32) -> (pair: (Exp, Exp))
    requires
        num_fields >= 2,
    ensures
        derivable(pair, ax_depth as nat, expr_depth as nat, num_fields),
        equivalent(pair.0, pair.1, num_fields as nat),
{
    let mut source = Source::fresh();
    genax_from(&mut source, ax_depth, expr_depth, num_fields)
}

/// A random pair of expressions that are equal by construction, drawn from
/// `source`: the pair is a function of the draws, so that a source made from
/// a seed gives the same pair whenever it is made from that seed.
pub fn genax_from(source: &mut Source, ax_depth: usize, expr_depth: usize, num_fields: u32) -> (pair: (Exp, Exp))
    requires
        num_fields >= 2,
    ensures
        derivable(pair, ax_depth as nat, expr_depth as nat, num_fields),
        equivalent(pair.0, pair.1, num_fields as nat),
    decreases ax_depth, 1nat,
{
    let pair = genax_round(source, ax_depth, expr_depth, num_fields);
    proof {
        lemma_derivable_sound(pair, ax_depth as nat, expr_depth as nat, num_fields);
    }
    pair
}

/// One round of `genax`: a random expression beside itself when no round is
/// left, and otherwise an axiom over pairs of one round less.
fn genax_round(source: &mut Source, ax_depth: usize, expr_depth: usize, num_fields: u32) -> (pair: (Exp, Exp))
    requires
        num_fields >= 2,
    ensures
        derivable(pair, ax_depth as nat, expr_depth as nat, num_fields),
    decreases ax_depth, 0nat,
{
    if ax_depth == 0 {
        let e = gen_random_expr(source, num_fields, expr_depth);
        return (share(&e), e);
    }
    let arity = source.below(4);
    if arity == 0 {
        let choice = source.below(8);
        let (xi, xj) = if choice < 2 {
            get_distinct_fields(source, num_fields)
        } else {
            let f = gen_random_field(source, num_fields);
            (f, f)
        };
        let v = gen_random_value(source);
        let vp = gen_random_value(source);
        packet_axiom(choice, xi, xj, v, vp)
    } else if arity == 1 {
        let p = genax_from(source, ax_depth - 1, expr_depth, num_fields);
        let choice = source.below(17);
        let (lhs, rhs) = unary_axiom(choice, p);
        flip_equality_rand(source, lhs, rhs)
    } else if arity == 2 {
        let p = genax_from(source, ax_depth - 1, expr_depth, num_fields);
        let q = genax_from(source, ax_depth - 1, expr_depth, num_fields);
        let choice = source.below(10);
        let (lhs, rhs) = binary_axiom(choice, p, q);
        flip_equality_rand(source, lhs, rhs)
    } else {
        let p = genax_from(source, ax_depth - 1, expr_depth, num_fields);
        let q = genax_from(source, ax_depth - 1, expr_depth, num_fields);
        let s = genax_from(source, ax_depth - 1, expr_depth, num_fields);
        let choice = source.below(5);
        let (lhs, rhs) = ternary_axiom(choice, p, q, s);
        flip_equality_rand(source, lhs, rhs)
    }
}

/// Shrinks an expression to the list of what it is built from: `0` and `1`
/// shrink to nothing, any other leaf to the constants `0` and `1`, and an
/// operator to its operands.
pub fn shrink_exp(exp: Exp) -> (v: Vec<Exp>)
    ensures
        v@ == shrunk(exp),
{
    let mut v: Vec<Exp> = Vec::new();
    match &*exp {
        Expr::Zero | Expr::One => {},
        Expr::Top | Expr::Dup | Expr::End | Expr::Assign(_, _) | Expr::Test(_, _) => {
            v.push(Expr::zero());
            v.push(Expr::one());
        },
        Expr::Union(a, b)
        | Expr::Intersect(a, b)
        | Expr::Xor(a, b)
        | Expr::Difference(a, b)
        | Expr::Sequence(a, b)
        | Expr::LtlUntil(a, b)
        | Expr::LtlWeakUntil(a, b)
        | Expr::LtlRelease(a, b)
        | Expr::LtlStrongRelease(a, b) => {
            v.push(share(a));
            v.push(share(b));
        },
        Expr::Star(a)
        | Expr::Complement(a)
        | Expr::LtlNext(a)
        | Expr::LtlWeakNext(a)
        | Expr::LtlFinally(a)
        | Expr::LtlGlobally(a) => {
            v.push(share(a));
        },
    }
    proof {
        assert(v@ =~= shrunk(exp));
    }
    v
}

/// Builds the pair with `extra` added to its right side.
pub fn widen(pair: (Exp, Exp), extra: Exp) -> (wide: (Exp, Exp))
    ensures
        wide == widened(pair, extra),
{
    let (lhs, rhs) = pair;
    (lhs, Expr::union(rhs, extra))
}

/// Builds the strong operator that `choice` picks beside its weak counterpart.
pub fn strong_weak(choice: u32, a: Exp, b: Exp, extra: Exp) -> (pair: (Exp, Exp))
    ensures
        pair == strong_weak_pair(choice, a, b, extra),
{
    if choice == 0 {
        (Expr::ltl_until(share(&a), share(&b)), Expr::ltl_weak_until(a, b))
    } else if choice == 1 {
        let strong = Expr::ltl_strong_release(a, b);
        (share(&strong), Expr::union(strong, extra))
    } else {
        (Expr::ltl_next(share(&a)), Expr::ltl_weak_next(a))
    }
}

/// Builds the two ordered pairs under the monotone operator that `choice` picks.
pub fn monotone(choice: u32, p: (Exp, Exp), q: (Exp, Exp)) -> (pair: (Exp, Exp))
    ensures
        pair == monotone_pair(choice, p, q),
{
    let (e1, e2) = p;
    let (e3, e4) = q;
    if choice == 0 {
        (Expr::union(e1, e3), Expr::union(e2, e4))
    } else if choice == 1 {
        (Expr::intersect(e1, e3), Expr::intersect(e2, e4))
    } else {
        (Expr::sequence(e1, e3), Expr::sequence(e2, e4))
    }
}

/// A random pair of expressions of which the first lies within the second by
/// construction, drawn from a source of its own.
///
/// `ax_depth` is the number of rounds, `expr_depth` the depth of the random
/// expressions that the rounds start from, and `num_fields` the number of
/// packet fields, of which the axioms need two.
pub fn gen_leq(ax_depth: usize, expr_depth: usize, num_fields: u32) -> (pair: (Exp, Exp))
    requires
        num_fields >= 2,
    ensures
        ordered(pair, ax_depth as nat, expr_depth as nat, num_fields),
        contained(pair.0, pair.1, num_fields as nat),
{
    let mut source = Source::fresh();
    gen_leq_from(&mut source, ax_depth, expr_depth, num_fields)
}

/// A random pair of expressions of which the first lies within the second by
/// construction, drawn from `source`: the pair is a function of the draws.
pub fn gen_leq_from(source: &mut Source, ax_depth: usize, expr_depth: usize, num_fields: u32) -> (pair: (
    Exp,
    Exp,
))
    requires
        num_fields >= 2,
    ensures
        ordered(pair, ax_depth as nat, expr_depth as nat, num_fields),
        contained(pair.0, pair.1, num_fields as nat),
    decreases ax_depth, 1nat,
{
    let pair = gen_leq_round(source, ax_depth, expr_depth, num_fields);
    proof {
        lemma_ordered_sound(pair, ax_depth as nat, expr_depth as nat, num_fields);
    }
    pair
}

/// One round of `gen_leq`: a random expression beside itself widened when no
/// round is left, and otherwise one of the four ways to an ordered pair.
fn gen_leq_round(source: &mut Source, ax_depth: usize, expr_depth: usize, num_fields: u32) -> (pair: (Exp, Exp))
    requires
        num_fields >= 2,
    ensures
        ordered(pair, ax_depth as nat, expr_depth as nat, num_fields),
    decreases ax_depth, 0nat,
{
    if ax_depth == 0 {
        let e = gen_random_expr(source, num_fields, expr_depth);
        let extra = gen_random_expr(source, num_fields, expr_depth / 2);
        return widen((share(&e), e), extra);
    }
    let method = source.below(4);
    if method == 0 {
        let p = genax_from(source, ax_depth - 1, expr_depth, num_fields);
        let extra = gen_random_expr(source, num_fields, expr_depth / 2);
        widen(p, extra)
    } else if method == 1 {
        let p = gen_leq_from(source, ax_depth - 1, expr_depth, num_fields);
        let extra = gen_random_expr(source, num_fields, expr_depth / 2);
        widen(p, extra)
    } else if method == 2 {
        let a = gen_random_expr(source, num_fields, expr_depth);
        let b = gen_random_expr(source, num_fields, expr_depth);
        let choice = source.below(3);
        let extra = gen_random_expr(source, num_fields, expr_depth / 2);
        strong_weak(choice, a, b, extra)
    } else {
        let p = gen_leq_from(source, ax_depth - 1, expr_depth, num_fields);
        let q = gen_leq_from(source, ax_depth - 1, expr_depth, num_fields);
        let choice = source.below(3);
        monotone(choice, p, q)
    }
}

} // verus!
