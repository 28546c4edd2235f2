//! Expressions written in fewer ways. The automaton tells its states apart
//! by their expressions, so it writes the expressions it makes in a normal
//! form. A Boolean combination is written as an ordered choice: the
//! expression `x & h + !x & l` chooses on `x` between `h` and `l`, the
//! expressions chosen on come in a fixed order on every way down, and no
//! choice is between two equal expressions, so that two combinations of the
//! same expressions with the same runs are written alike. A sequence is
//! written with its operands in a row, without `One`, and as `Zero` where an
//! operand is `Zero`.

use crate::axioms::{lemma_seq_assoc, lemma_seq_one, lemma_seq_zero};
use crate::expr::{one_exp, same, same_handle, share, top_exp, zero_exp, Exp, Expr};
use crate::relation::identity;
use crate::semantics::{l_not, l_rel, l_seq, l_top, lang, Lang, Trace};
use crate::soundness::lemma_lang_within;
use vstd::prelude::*;

verus! {

/// The place of an expression's operator in the order of operators: the
/// leaves first, then the operators on two operands, then those on one.
pub open spec fn tag_of(e: Exp) -> u8 {
    match *e {
        Expr::Zero => 0,
        Expr::One => 1,
        Expr::Top => 2,
        Expr::Dup => 3,
        Expr::End => 4,
        Expr::Assign(_, _) => 5,
        Expr::Test(_, _) => 6,
        Expr::Union(_, _) => 7,
        Expr::Intersect(_, _) => 8,
        Expr::Xor(_, _) => 9,
        Expr::Difference(_, _) => 10,
        Expr::Sequence(_, _) => 11,
        Expr::LtlUntil(_, _) => 12,
        Expr::LtlWeakUntil(_, _) => 13,
        Expr::LtlRelease(_, _) => 14,
        Expr::LtlStrongRelease(_, _) => 15,
        Expr::Star(_) => 16,
        Expr::Complement(_) => 17,
        Expr::LtlNext(_) => 18,
        Expr::LtlWeakNext(_) => 19,
        Expr::LtlFinally(_) => 20,
        Expr::LtlGlobally(_) => 21,
    }
}

/// The fixed order of expressions: `a` comes before `b` when its operator
/// comes before that of `b`, or, the operators being the same, when its field
/// is the smaller, or its value is unset where that of `b` is set, or its
/// operands come before those of `b`, the first operand deciding before the
/// second.
pub open spec fn before(a: Exp, b: Exp) -> bool
    decreases a,
{
    if tag_of(a) != tag_of(b) {
        tag_of(a) < tag_of(b)
    } else {
        match *a {
            Expr::Zero | Expr::One | Expr::Top | Expr::Dup | Expr::End => false,
            Expr::Assign(f, v) | Expr::Test(f, v) => match *b {
                Expr::Assign(g, w) | Expr::Test(g, w) => f < g || (f == g && !v && w),
                _ => false,
            },
            Expr::Union(a1, a2)
            | Expr::Intersect(a1, a2)
            | Expr::Xor(a1, a2)
            | Expr::Difference(a1, a2)
            | Expr::Sequence(a1, a2)
            | Expr::LtlUntil(a1, a2)
            | Expr::LtlWeakUntil(a1, a2)
            | Expr::LtlRelease(a1, a2)
            | Expr::LtlStrongRelease(a1, a2) => match *b {
                Expr::Union(b1, b2)
                | Expr::Intersect(b1, b2)
                | Expr::Xor(b1, b2)
                | Expr::Difference(b1, b2)
                | Expr::Sequence(b1, b2)
                | Expr::LtlUntil(b1, b2)
                | Expr::LtlWeakUntil(b1, b2)
                | Expr::LtlRelease(b1, b2)
                | Expr::LtlStrongRelease(b1, b2) => before(a1, b1) || (a1 == b1 && before(a2, b2)),
                _ => false,
            },
            Expr::Star(a1)
            | Expr::Complement(a1)
            | Expr::LtlNext(a1)
            | Expr::LtlWeakNext(a1)
            | Expr::LtlFinally(a1)
            | Expr::LtlGlobally(a1) => match *b {
                Expr::Star(b1)
                | Expr::Complement(b1)
                | Expr::LtlNext(b1)
                | Expr::LtlWeakNext(b1)
                | Expr::LtlFinally(b1)
                | Expr::LtlGlobally(b1) => before(a1, b1),
                _ => false,
            },
        }
    }
}

/// No expression comes before itself.
pub proof fn lemma_before_irreflexive(a: Exp)
    ensures
        !before(a, a),
    decreases a,
{
    match *a {
        Expr::Union(a1, a2)
        | Expr::Intersect(a1, a2)
        | Expr::Xor(a1, a2)
        | Expr::Difference(a1, a2)
        | Expr::Sequence(a1, a2)
        | Expr::LtlUntil(a1, a2)
        | Expr::LtlWeakUntil(a1, a2)
        | Expr::LtlRelease(a1, a2)
        | Expr::LtlStrongRelease(a1, a2) => {
            lemma_before_irreflexive(a1);
            lemma_before_irreflexive(a2);
        },
        Expr::Star(a1)
        | Expr::Complement(a1)
        | Expr::LtlNext(a1)
        | Expr::LtlWeakNext(a1)
        | Expr::LtlFinally(a1)
        | Expr::LtlGlobally(a1) => {
            lemma_before_irreflexive(a1);
        },
        _ => {},
    }
}

/// The order is transitive.
pub proof fn lemma_before_transitive(a: Exp, b: Exp, c: Exp)
    requires
        before(a, b),
        before(b, c),
    ensures
        before(a, c),
    decreases a,
{
    if tag_of(a) == tag_of(b) && tag_of(b) == tag_of(c) {
        match *a {
            Expr::Union(a1, a2)
            | Expr::Intersect(a1, a2)
            | Expr::Xor(a1, a2)
            | Expr::Difference(a1, a2)
            | Expr::Sequence(a1, a2)
            | Expr::LtlUntil(a1, a2)
            | Expr::LtlWeakUntil(a1, a2)
            | Expr::LtlRelease(a1, a2)
            | Expr::LtlStrongRelease(a1, a2) => match *b {
                Expr::Union(b1, b2)
                | Expr::Intersect(b1, b2)
                | Expr::Xor(b1, b2)
                | Expr::Difference(b1, b2)
                | Expr::Sequence(b1, b2)
                | Expr::LtlUntil(b1, b2)
                | Expr::LtlWeakUntil(b1, b2)
                | Expr::LtlRelease(b1, b2)
                | Expr::LtlStrongRelease(b1, b2) => match *c {
                    Expr::Union(c1, c2)
                    | Expr::Intersect(c1, c2)
                    | Expr::Xor(c1, c2)
                    | Expr::Difference(c1, c2)
                    | Expr::Sequence(c1, c2)
                    | Expr::LtlUntil(c1, c2)
                    | Expr::LtlWeakUntil(c1, c2)
                    | Expr::LtlRelease(c1, c2)
                    | Expr::LtlStrongRelease(c1, c2) => {
                        if before(a1, b1) && before(b1, c1) {
                            lemma_before_transitive(a1, b1, c1);
                        }
                        if a1 == b1 && b1 == c1 {
                            lemma_before_irreflexive(a1);
                            lemma_before_transitive(a2, b2, c2);
                        }
                    },
                    _ => {},
                },
                _ => {},
            },
            Expr::Star(a1)
            | Expr::Complement(a1)
            | Expr::LtlNext(a1)
            | Expr::LtlWeakNext(a1)
            | Expr::LtlFinally(a1)
            | Expr::LtlGlobally(a1) => match *b {
                Expr::Star(b1)
                | Expr::Complement(b1)
                | Expr::LtlNext(b1)
                | Expr::LtlWeakNext(b1)
                | Expr::LtlFinally(b1)
                | Expr::LtlGlobally(b1) => match *c {
                    Expr::Star(c1)
                    | Expr::Complement(c1)
                    | Expr::LtlNext(c1)
                    | Expr::LtlWeakNext(c1)
                    | Expr::LtlFinally(c1)
                    | Expr::LtlGlobally(c1) => {
                        lemma_before_transitive(a1, b1, c1);
                    },
                    _ => {},
                },
                _ => {},
            },
            _ => {},
        }
    }
}

/// The place of an expression's operator in the order of operators.
fn tag(e: &Exp) -> (r: u8)
    ensures
        r == tag_of(*e),
{
    match &**e {
        Expr::Zero => 0,
        Expr::One => 1,
        Expr::Top => 2,
        Expr::Dup => 3,
        Expr::End => 4,
        Expr::Assign(_, _) => 5,
        Expr::Test(_, _) => 6,
        Expr::Union(_, _) => 7,
        Expr::Intersect(_, _) => 8,
        Expr::Xor(_, _) => 9,
        Expr::Difference(_, _) => 10,
        Expr::Sequence(_, _) => 11,
        Expr::LtlUntil(_, _) => 12,
        Expr::LtlWeakUntil(_, _) => 13,
        Expr::LtlRelease(_, _) => 14,
        Expr::LtlStrongRelease(_, _) => 15,
        Expr::Star(_) => 16,
        Expr::Complement(_) => 17,
        Expr::LtlNext(_) => 18,
        Expr::LtlWeakNext(_) => 19,
        Expr::LtlFinally(_) => 20,
        Expr::LtlGlobally(_) => 21,
    }
}

/// Compares two expressions: 0 when the first comes before the second in the
/// fixed order, 2 when it comes after it, and 1 when the two are the same.
fn compare(a: &Exp, b: &Exp) -> (r: u8)
    ensures
        r == 0 <==> before(*a, *b),
        r == 1 <==> *a == *b,
        r == 2 <==> before(*b, *a),
        r <= 2,
    decreases *a,
{
    if same_handle(a, b) {
        proof {
            lemma_before_irreflexive(*a);
        }
        return 1;
    }
    let ta = tag(a);
    let tb = tag(b);
    if ta < tb {
        return 0;
    }
    if ta > tb {
        return 2;
    }
    match &**a {
        Expr::Zero | Expr::One | Expr::Top | Expr::Dup | Expr::End => 1,
        Expr::Assign(f, v) => match &**b {
            Expr::Assign(g, w) => if *f < *g {
                0
            } else if *f > *g {
                2
            } else if *v == *w {
                1
            } else if *w {
                0
            } else {
                2
            },
            _ => 1,
        },
        Expr::Test(f, v) => match &**b {
            Expr::Test(g, w) => if *f < *g {
                0
            } else if *f > *g {
                2
            } else if *v == *w {
                1
            } else if *w {
                0
            } else {
                2
            },
            _ => 1,
        },
        Expr::Union(a1, a2) => match &**b {
            Expr::Union(b1, b2) => {
                let first = compare(a1, b1);
                if first != 1 {
                    first
                } else {
                    compare(a2, b2)
                }
            },
            _ => 1,
        },
        Expr::Intersect(a1, a2) => match &**b {
            Expr::Intersect(b1, b2) => {
                let first = compare(a1, b1);
                if first != 1 {
                    first
                } else {
                    compare(a2, b2)
                }
            },
            _ => 1,
        },
        Expr::Xor(a1, a2) => match &**b {
            Expr::Xor(b1, b2) => {
                let first = compare(a1, b1);
                if first != 1 {
                    first
                } else {
                    compare(a2, b2)
                }
            },
            _ => 1,
        },
        Expr::Difference(a1, a2) => match &**b {
            Expr::Difference(b1, b2) => {
                let first = compare(a1, b1);
                if first != 1 {
                    first
                } else {
                    compare(a2, b2)
                }
            },
            _ => 1,
        },
        Expr::Sequence(a1, a2) => match &**b {
            Expr::Sequence(b1, b2) => {
                let first = compare(a1, b1);
                if first != 1 {
                    first
                } else {
                    compare(a2, b2)
                }
            },
            _ => 1,
        },
        Expr::LtlUntil(a1, a2) => match &**b {
            Expr::LtlUntil(b1, b2) => {
                let first = compare(a1, b1);
                if first != 1 {
                    first
                } else {
                    compare(a2, b2)
                }
            },
            _ => 1,
        },
        Expr::LtlWeakUntil(a1, a2) => match &**b {
            Expr::LtlWeakUntil(b1, b2) => {
                let first = compare(a1, b1);
                if first != 1 {
                    first
                } else {
                    compare(a2, b2)
                }
            },
            _ => 1,
        },
        Expr::LtlRelease(a1, a2) => match &**b {
            Expr::LtlRelease(b1, b2) => {
                let first = compare(a1, b1);
                if first != 1 {
                    first
                } else {
                    compare(a2, b2)
                }
            },
            _ => 1,
        },
        Expr::LtlStrongRelease(a1, a2) => match &**b {
            Expr::LtlStrongRelease(b1, b2) => {
                let first = compare(a1, b1);
                if first != 1 {
                    first
                } else {
                    compare(a2, b2)
                }
            },
            _ => 1,
        },
        Expr::Star(a1) => match &**b {
            Expr::Star(b1) => compare(a1, b1),
            _ => 1,
        },
        Expr::Complement(a1) => match &**b {
            Expr::Complement(b1) => compare(a1, b1),
            _ => 1,
        },
        Expr::LtlNext(a1) => match &**b {
            Expr::LtlNext(b1) => compare(a1, b1),
            _ => 1,
        },
        Expr::LtlWeakNext(a1) => match &**b {
            Expr::LtlWeakNext(b1) => compare(a1, b1),
            _ => 1,
        },
        Expr::LtlFinally(a1) => match &**b {
            Expr::LtlFinally(b1) => compare(a1, b1),
            _ => 1,
        },
        Expr::LtlGlobally(a1) => match &**b {
            Expr::LtlGlobally(b1) => compare(a1, b1),
            _ => 1,
        },
    }
}

/// The choice on `x`: what `h` has among the runs of `x`, and what `l` has
/// among the others.
pub open spec fn l_ite(x: Lang, h: Lang, l: Lang, k: nat) -> Lang {
    x.intersect(h).union(l_not(x, k).intersect(l))
}

/// The number of choices on the longest way down an expression in normal
/// form. An expression that is no choice and no constant counts as one
/// choice, between `Top` and `Zero`.
pub open spec fn rank(e: Exp) -> nat
    decreases e,
{
    match *e {
        Expr::Zero | Expr::Top => 0,
        Expr::Union(a, b) => match (*a, *b) {
            (Expr::Intersect(x, h), Expr::Intersect(n, l)) => match *n {
                Expr::Complement(y) => if x == y {
                    1 + if rank(h) >= rank(l) {
                        rank(h)
                    } else {
                        rank(l)
                    }
                } else {
                    1
                },
                _ => 1,
            },
            _ => 1,
        },
        _ => 1,
    }
}

/// The choice that `e` is written as, if it is written as one: what it
/// chooses on and the two expressions it chooses between, in
/// `x & h + !x & l`.
pub open spec fn split(e: Exp) -> Option<(Exp, Exp, Exp)> {
    match *e {
        Expr::Union(a, b) => match (*a, *b) {
            (Expr::Intersect(x, h), Expr::Intersect(n, l)) => match *n {
                Expr::Complement(y) => if x == y {
                    Some((x, h, l))
                } else {
                    None
                },
                _ => None,
            },
            _ => None,
        },
        _ => None,
    }
}

/// An expression to choose on: neither `Zero` nor `Top`, and no Boolean
/// combination.
pub open spec fn atom(e: Exp) -> bool {
    match *e {
        Expr::Zero
        | Expr::Top
        | Expr::Complement(_)
        | Expr::Union(_, _)
        | Expr::Intersect(_, _)
        | Expr::Xor(_, _)
        | Expr::Difference(_, _) => false,
        _ => true,
    }
}

/// The choice that an expression is: nothing for the constants `Zero` and
/// `Top`; for a complement the choice on its operand between `Zero` and
/// `Top`; for an expression written as a choice that choice; and for any
/// other the choice on itself between `Top` and `Zero`.
pub open spec fn choice_of(e: Exp) -> Option<(Exp, Exp, Exp)> {
    match *e {
        Expr::Zero | Expr::Top => None,
        Expr::Complement(x) => Some((x, zero_exp(), top_exp())),
        _ => match split(e) {
            Some(c) => Some(c),
            None => Some((e, top_exp(), zero_exp())),
        },
    }
}

/// What `e` chooses on first, if it chooses at all, comes after `x` in the
/// fixed order.
pub open spec fn above(x: Exp, e: Exp) -> bool {
    match choice_of(e) {
        Some(c) => before(x, c.0),
        None => true,
    }
}

/// The normal form of a Boolean combination, an ordered choice: one of the
/// constants `Zero` and `Top`, an expression to choose on, the complement of
/// one, or a choice `x & h + !x & l` on such an expression between two
/// different expressions in normal form, which are not the two constants and
/// which choose on later expressions only. No other union, and no
/// intersection, symmetric difference or difference, is in normal form.
pub open spec fn normal(e: Exp) -> bool
    decreases e,
{
    match *e {
        Expr::Zero | Expr::Top => true,
        Expr::Complement(x) => atom(x),
        Expr::Union(a, b) => match (*a, *b) {
            (Expr::Intersect(x, h), Expr::Intersect(n, l)) => match *n {
                Expr::Complement(y) => {
                    &&& x == y
                    &&& atom(x)
                    &&& normal(h)
                    &&& normal(l)
                    &&& h != l
                    &&& !(h == top_exp() && l == zero_exp())
                    &&& !(h == zero_exp() && l == top_exp())
                    &&& above(x, h)
                    &&& above(x, l)
                },
                _ => false,
            },
            _ => false,
        },
        Expr::Intersect(_, _) | Expr::Xor(_, _) | Expr::Difference(_, _) => false,
        _ => true,
    }
}

/// The choice of an expression in normal form is on an expression to choose
/// on, between expressions in normal form that choose on later expressions.
pub proof fn lemma_normal_choice(e: Exp)
    requires
        normal(e),
    ensures
        match choice_of(e) {
            Some(c) => atom(c.0) && normal(c.1) && normal(c.2) && above(c.0, c.1) && above(c.0, c.2),
            None => true,
        },
{
}

/// An expression to choose on, and its complement, are in normal form.
pub proof fn lemma_atom_normal(x: Exp)
    requires
        atom(x),
    ensures
        normal(x),
        choice_of(x) == Some((x, top_exp(), zero_exp())),
{
}

/// Whether the expression is the constant `Zero`.
pub fn is_zero(e: &Exp) -> (r: bool)
    ensures
        r == (*e == zero_exp()),
{
    match &**e {
        Expr::Zero => true,
        _ => false,
    }
}

/// Whether the expression is the constant `Top`.
pub fn is_top(e: &Exp) -> (r: bool)
    ensures
        r == (*e == top_exp()),
{
    match &**e {
        Expr::Top => true,
        _ => false,
    }
}

/// The choice that an expression in normal form is: what it chooses on and
/// the two expressions it chooses between, or nothing for a constant. An
/// expression that is written as no choice chooses on itself between `Top`
/// and `Zero`, and a complement chooses on its operand between `Zero` and `Top`.
fn choice(e: &Exp) -> (r: Option<(Exp, Exp, Exp)>)
    ensures
        r == choice_of(*e),
        r is None ==> *e == zero_exp() || *e == top_exp(),
        r is None ==> rank(*e) == 0,
        r matches Some(c) ==> {
            &&& rank(c.1) < rank(*e)
            &&& rank(c.2) < rank(*e)
            &&& forall|k: nat| #[trigger] lang(*e, k) == l_ite(lang(c.0, k), lang(c.1, k), lang(c.2, k), k)
        },
{
    proof {
        reveal_with_fuel(lang, 4);
        reveal_with_fuel(rank, 2);
        assert forall|k: nat| #[trigger] lang(*e, k) == l_ite(lang(*e, k), l_top(k), Set::empty(), k) by {
            lemma_lang_within(*e, k);
            assert(lang(*e, k) =~= l_ite(lang(*e, k), l_top(k), Set::empty(), k));
        }
    }
    match &**e {
        Expr::Zero | Expr::Top => None,
        Expr::Complement(x) => {
            proof {
                assert forall|k: nat| #[trigger] lang(*e, k) == l_ite(lang(*x, k), Set::empty(), l_top(k), k) by {
                    assert(lang(*e, k) =~= l_ite(lang(*x, k), Set::empty(), l_top(k), k));
                }
            }
            Some((share(x), Expr::zero(), Expr::top()))
        },
        Expr::Union(a, b) => {
            match (&**a, &**b) {
                (Expr::Intersect(x, h), Expr::Intersect(n, l)) => {
                    match &**n {
                        Expr::Complement(y) => {
                            if same(x, y) {
                                return Some((share(x), share(h), share(l)));
                            }
                        },
                        _ => {},
                    }
                },
                _ => {},
            }
            Some((share(e), Expr::top(), Expr::zero()))
        },
        _ => Some((share(e), Expr::top(), Expr::zero())),
    }
}

/// The expression of a choice, written as shortly as it can be: one of the
/// two where they are the same or where the choice is on a constant, the
/// expression chosen on where the choice is between `Top` and `Zero`, its
/// complement where it is between `Zero` and `Top`, and the choice otherwise.
fn choose_between(x: Exp, h: Exp, l: Exp) -> (r: Exp)
    ensures
        forall|k: nat| #[trigger] lang(r, k) == l_ite(lang(x, k), lang(h, k), lang(l, k), k),
        atom(x) && normal(h) && normal(l) && above(x, h) && above(x, l) ==> normal(r) && forall|y: Exp| #[trigger]
            before(y, x) ==> above(y, r),
{
    proof {
        if atom(x) && normal(h) && normal(l) && above(x, h) && above(x, l) {
            lemma_atom_normal(x);
            assert forall|y: Exp| #[trigger] before(y, x) implies above(y, h) && above(y, l) by {
                if choice_of(h) is Some {
                    lemma_before_transitive(y, x, choice_of(h).unwrap().0);
                }
                if choice_of(l) is Some {
                    lemma_before_transitive(y, x, choice_of(l).unwrap().0);
                }
            }
        }
    }
    proof {
        reveal_with_fuel(lang, 4);
        assert forall|k: nat|
            #![trigger l_ite(lang(x, k), lang(h, k), lang(l, k), k)]
            {
                &&& h == l ==> l_ite(lang(x, k), lang(h, k), lang(l, k), k) == lang(h, k)
                &&& l_ite(l_top(k), lang(h, k), lang(l, k), k) == lang(h, k)
                &&& l_ite(Set::empty(), lang(h, k), lang(l, k), k) == lang(l, k)
                &&& l_ite(lang(x, k), l_top(k), Set::empty(), k) == lang(x, k)
                &&& l_ite(lang(x, k), Set::empty(), l_top(k), k) == l_not(lang(x, k), k)
            } by {
            lemma_lang_within(x, k);
            lemma_lang_within(h, k);
            lemma_lang_within(l, k);
            if h == l {
                assert(l_ite(lang(x, k), lang(h, k), lang(l, k), k) =~= lang(h, k));
            }
            assert(l_ite(l_top(k), lang(h, k), lang(l, k), k) =~= lang(h, k));
            assert(l_ite(Set::empty(), lang(h, k), lang(l, k), k) =~= lang(l, k));
            assert(l_ite(lang(x, k), l_top(k), Set::empty(), k) =~= lang(x, k));
            assert(l_ite(lang(x, k), Set::empty(), l_top(k), k) =~= l_not(lang(x, k), k));
        }
    }
    if same(&h, &l) {
        return h;
    }
    if is_top(&x) {
        return h;
    }
    if is_zero(&x) {
        return l;
    }
    if is_top(&h) && is_zero(&l) {
        return x;
    }
    if is_zero(&h) && is_top(&l) {
        return Expr::complement(x);
    }
    Expr::union(Expr::intersect(share(&x), h), Expr::intersect(Expr::complement(x), l))
}

/// The intersection (`both` set) or the union (`both` unset) of two
/// expressions in normal form, in normal form: the choices are taken in the
/// fixed order of what they choose on, and a choice between two equal
/// expressions is left out.
#[verifier::rlimit(40)]
fn combine(both: bool, f: &Exp, g: &Exp) -> (r: Exp)
    ensures
        forall|k: nat| #[trigger]
            lang(r, k) == (if both {
                lang(*f, k).intersect(lang(*g, k))
            } else {
                lang(*f, k).union(lang(*g, k))
            }),
        normal(*f) && normal(*g) ==> normal(r) && forall|y: Exp|
            above(y, *f) && above(y, *g) ==> #[trigger] above(y, r),
    decreases rank(*f) + rank(*g),
{
    proof {
        if normal(*f) && normal(*g) {
            lemma_normal_choice(*f);
            lemma_normal_choice(*g);
        }
    }
    proof {
        reveal_with_fuel(lang, 1);
        assert forall|k: nat|
            #![trigger lang(*f, k), lang(*g, k)]
            {
                &&& l_top(k).intersect(lang(*g, k)) == lang(*g, k)
                &&& lang(*f, k).intersect(l_top(k)) == lang(*f, k)
                &&& l_top(k).union(lang(*g, k)) == l_top(k)
                &&& lang(*f, k).union(l_top(k)) == l_top(k)
                &&& Set::<Trace>::empty().intersect(lang(*g, k)) == Set::<Trace>::empty()
                &&& lang(*f, k).intersect(Set::<Trace>::empty()) == Set::<Trace>::empty()
                &&& Set::<Trace>::empty().union(lang(*g, k)) == lang(*g, k)
                &&& lang(*f, k).union(Set::<Trace>::empty()) == lang(*f, k)
            } by {
            lemma_lang_within(*f, k);
            lemma_lang_within(*g, k);
            assert(l_top(k).intersect(lang(*g, k)) =~= lang(*g, k));
            assert(lang(*f, k).intersect(l_top(k)) =~= lang(*f, k));
            assert(l_top(k).union(lang(*g, k)) =~= l_top(k));
            assert(lang(*f, k).union(l_top(k)) =~= l_top(k));
            assert(Set::<Trace>::empty().intersect(lang(*g, k)) =~= Set::<Trace>::empty());
            assert(lang(*f, k).intersect(Set::<Trace>::empty()) =~= Set::<Trace>::empty());
            assert(Set::<Trace>::empty().union(lang(*g, k)) =~= lang(*g, k));
            assert(lang(*f, k).union(Set::<Trace>::empty()) =~= lang(*f, k));
        }
    }
    let cf = choice(f);
    let cg = choice(g);
    match cf {
        None => {
            if is_top(f) == both {
                share(g)
            } else {
                share(f)
            }
        },
        Some((xf, hf, lf)) => {
            match cg {
                None => {
                    if is_top(g) == both {
                        share(f)
                    } else {
                        share(g)
                    }
                },
                Some((xg, hg, lg)) => {
                    let order = compare(&xf, &xg);
                    if order == 1 && same(&xf, &xg) {
                        let high = combine(both, &hf, &hg);
                        let low = combine(both, &lf, &lg);
                        let r = choose_between(xf, high, low);
                        proof {
                            assert forall|k: nat| #[trigger]
                                lang(r, k) == (if both {
                                    lang(*f, k).intersect(lang(*g, k))
                                } else {
                                    lang(*f, k).union(lang(*g, k))
                                }) by {
                                let x = lang(xf, k);
                                assert(lang(*f, k) == l_ite(x, lang(hf, k), lang(lf, k), k));
                                assert(lang(*g, k) == l_ite(x, lang(hg, k), lang(lg, k), k));
                                lemma_lang_within(hf, k);
                                lemma_lang_within(lf, k);
                                lemma_lang_within(hg, k);
                                lemma_lang_within(lg, k);
                                if both {
                                    assert(lang(r, k) =~= lang(*f, k).intersect(lang(*g, k)));
                                } else {
                                    assert(lang(r, k) =~= lang(*f, k).union(lang(*g, k)));
                                }
                            }
                        }
                        r
                    } else if order != 2 {
                        let high = combine(both, &hf, g);
                        let low = combine(both, &lf, g);
                        let r = choose_between(xf, high, low);
                        proof {
                            assert forall|k: nat| #[trigger]
                                lang(r, k) == (if both {
                                    lang(*f, k).intersect(lang(*g, k))
                                } else {
                                    lang(*f, k).union(lang(*g, k))
                                }) by {
                                let x = lang(xf, k);
                                assert(lang(*f, k) == l_ite(x, lang(hf, k), lang(lf, k), k));
                                lemma_lang_within(*g, k);
                                if both {
                                    assert(lang(r, k) =~= lang(*f, k).intersect(lang(*g, k)));
                                } else {
                                    assert(lang(r, k) =~= lang(*f, k).union(lang(*g, k)));
                                }
                            }
                        }
                        r
                    } else {
                        let high = combine(both, f, &hg);
                        let low = combine(both, f, &lg);
                        let r = choose_between(xg, high, low);
                        proof {
                            assert forall|k: nat| #[trigger]
                                lang(r, k) == (if both {
                                    lang(*f, k).intersect(lang(*g, k))
                                } else {
                                    lang(*f, k).union(lang(*g, k))
                                }) by {
                                let x = lang(xg, k);
                                assert(lang(*g, k) == l_ite(x, lang(hg, k), lang(lg, k), k));
                                lemma_lang_within(*f, k);
                                if both {
                                    assert(lang(r, k) =~= lang(*f, k).intersect(lang(*g, k)));
                                } else {
                                    assert(lang(r, k) =~= lang(*f, k).union(lang(*g, k)));
                                }
                            }
                        }
                        r
                    }
                },
            }
        },
    }
}

/// The intersection of two expressions, in normal form when the two are.
pub fn meet(a: &Exp, b: &Exp) -> (r: Exp)
    ensures
        forall|k: nat| #[trigger] lang(r, k) == lang(*a, k).intersect(lang(*b, k)),
        normal(*a) && normal(*b) ==> normal(r),
{
    combine(true, a, b)
}

/// The union of two expressions, in normal form when the two are.
pub fn join(a: &Exp, b: &Exp) -> (r: Exp)
    ensures
        forall|k: nat| #[trigger] lang(r, k) == lang(*a, k).union(lang(*b, k)),
        normal(*a) && normal(*b) ==> normal(r),
{
    combine(false, a, b)
}

/// The complement of an expression in normal form, in normal form: the
/// constants are exchanged, and a choice is the choice between the
/// complements.
pub fn neg(e: &Exp) -> (r: Exp)
    ensures
        forall|k: nat| #[trigger] lang(r, k) == l_not(lang(*e, k), k),
        normal(*e) ==> normal(r) && forall|y: Exp| above(y, *e) ==> #[trigger] above(y, r),
    decreases rank(*e),
{
    proof {
        if normal(*e) {
            lemma_normal_choice(*e);
        }
    }
    proof {
        reveal_with_fuel(lang, 1);
        assert forall|k: nat| #[trigger] l_not(l_top(k), k) == Set::<Trace>::empty() && l_not(
            Set::<Trace>::empty(),
            k,
        ) == l_top(k) by {
            assert(l_not(l_top(k), k) =~= Set::<Trace>::empty());
            assert(l_not(Set::<Trace>::empty(), k) =~= l_top(k));
        }
    }
    match choice(e) {
        None => {
            if is_top(e) {
                Expr::zero()
            } else {
                Expr::top()
            }
        },
        Some((x, h, l)) => {
            let high = neg(&h);
            let low = neg(&l);
            let r = choose_between(x, high, low);
            proof {
                assert forall|k: nat| #[trigger] lang(r, k) == l_not(lang(*e, k), k) by {
                    assert(lang(*e, k) == l_ite(lang(x, k), lang(h, k), lang(l, k), k));
                    lemma_lang_within(h, k);
                    lemma_lang_within(l, k);
                    assert(lang(r, k) =~= l_not(lang(*e, k), k));
                }
            }
            r
        },
    }
}

/// The expression is written as a row: if it is a sequence, its first
/// operand is no sequence, neither operand is `Zero` or `One`, and its second
/// operand is written as a row in turn.
pub open spec fn row(e: Exp) -> bool
    decreases e,
{
    match *e {
        Expr::Sequence(a, b) => {
            &&& !(*a is Sequence)
            &&& a != zero_exp() && a != one_exp()
            &&& b != zero_exp() && b != one_exp()
            &&& row(b)
        },
        _ => true,
    }
}

/// The sequence of an expression and an expression that is in normal form
/// already: `Zero` when either is `Zero`, the other when either is `One`,
/// and otherwise the first, taken apart where it is a sequence itself, in
/// front of the second. What comes out is written as a row when the second
/// is.
pub fn chain(a: &Exp, b: &Exp) -> (r: Exp)
    ensures
        forall|k: nat| #[trigger] lang(r, k) == l_seq(lang(*a, k), lang(*b, k)),
        row(*b) ==> row(r),
        *a == zero_exp() || *b == zero_exp() ==> r == zero_exp(),
    decreases *a,
{
    proof {
        assert forall|k: nat|
            #![trigger l_seq(lang(*a, k), lang(*b, k))]
            l_seq(Set::empty(), lang(*b, k)) == Set::<Trace>::empty() && l_seq(lang(*a, k), Set::empty())
                == Set::<Trace>::empty() && l_seq(l_rel(identity(k), k), lang(*b, k)) == lang(*b, k) && l_seq(
                lang(*a, k),
                l_rel(identity(k), k),
            ) == lang(*a, k) by {
            lemma_lang_within(*a, k);
            lemma_lang_within(*b, k);
            lemma_seq_zero(lang(*a, k));
            lemma_seq_zero(lang(*b, k));
            lemma_seq_one(lang(*a, k), k);
            lemma_seq_one(lang(*b, k), k);
        }
    }
    if is_zero(a) || is_zero(b) {
        return Expr::zero();
    }
    match &**a {
        Expr::One => share(b),
        Expr::Sequence(x, y) => {
            let rest = chain(y, b);
            let r = chain(x, &rest);
            proof {
                assert forall|k: nat| #[trigger] lang(r, k) == l_seq(lang(*a, k), lang(*b, k)) by {
                    lemma_seq_assoc(lang(*x, k), lang(*y, k), lang(*b, k));
                    assert(lang(rest, k) == l_seq(lang(*y, k), lang(*b, k)));
                }
            }
            r
        },
        _ => match &**b {
            Expr::One => share(a),
            _ => Expr::sequence(share(a), share(b)),
        },
    }
}

/// The expression with the sequence it is, if it is one, in normal form:
/// written as a row. An expression that is no sequence stays as it is.
pub fn spine(e: &Exp) -> (r: Exp)
    ensures
        forall|k: nat| #[trigger] lang(r, k) == lang(*e, k),
        row(r),
        !(**e is Sequence) ==> r == *e,
    decreases *e,
{
    match &**e {
        Expr::Sequence(u, v) => {
            let rest = spine(v);
            chain(u, &rest)
        },
        _ => share(e),
    }
}

} // verus!
