//! Expressions of NetKAT over binary packet fields, with `dup` and the
//! operators of linear temporal logic on packet histories. An expression is a
//! tree behind reference-counted handles, so that a subtree is shared rather
//! than copied; the constructors build the tree as it is written and simplify
//! nothing.

use std::rc::Rc;
use vstd::prelude::*;

verus! {

/// The index of a packet field.
pub type Field = u32;

/// The value of a packet field.
pub type Value = bool;

/// A handle to an expression.
pub type Exp = Rc<Expr>;

/// An expression.
#[derive(Debug, PartialEq, Eq, Hash)]
pub enum Expr {
    /// Drops every packet.
    Zero,
    /// Passes every packet unchanged.
    One,
    /// The universal relation.
    Top,
    /// Records the current packet in the history.
    Dup,
    /// Holds of a history of one packet.
    End,
    /// Sets a field to a value.
    Assign(Field, Value),
    /// Tests that a field has a value.
    Test(Field, Value),
    /// Either operand.
    Union(Exp, Exp),
    /// Both operands.
    Intersect(Exp, Exp),
    /// Exactly one operand.
    Xor(Exp, Exp),
    /// The first operand and not the second.
    Difference(Exp, Exp),
    /// The first operand, then the second.
    Sequence(Exp, Exp),
    /// Iteration.
    Star(Exp),
    /// Negation.
    Complement(Exp),
    /// Next, strong: the history goes on.
    LtlNext(Exp),
    /// Next, weak: the history may end.
    LtlWeakNext(Exp),
    /// At some point.
    LtlFinally(Exp),
    /// At every point.
    LtlGlobally(Exp),
    /// Until, strong.
    LtlUntil(Exp, Exp),
    /// Until, weak.
    LtlWeakUntil(Exp, Exp),
    /// Release, weak.
    LtlRelease(Exp, Exp),
    /// Release, strong.
    LtlStrongRelease(Exp, Exp),
}

/// The expression that drops every packet.
pub open spec fn zero_exp() -> Exp {
    Rc::new(Expr::Zero)
}

/// The expression that passes every packet unchanged.
pub open spec fn one_exp() -> Exp {
    Rc::new(Expr::One)
}

/// The universal relation.
pub open spec fn top_exp() -> Exp {
    Rc::new(Expr::Top)
}

/// The expression that records the current packet in the history.
pub open spec fn dup_exp() -> Exp {
    Rc::new(Expr::Dup)
}

/// The predicate that holds of a history of one packet.
pub open spec fn end_exp() -> Exp {
    Rc::new(Expr::End)
}

/// The modification that sets field `f` to `v`.
pub open spec fn assign_exp(f: Field, v: Value) -> Exp {
    Rc::new(Expr::Assign(f, v))
}

/// The test that field `f` has the value `v`.
pub open spec fn test_exp(f: Field, v: Value) -> Exp {
    Rc::new(Expr::Test(f, v))
}

/// Either of `a` and `b`.
pub open spec fn union_exp(a: Exp, b: Exp) -> Exp {
    Rc::new(Expr::Union(a, b))
}

/// Both of `a` and `b`.
pub open spec fn intersect_exp(a: Exp, b: Exp) -> Exp {
    Rc::new(Expr::Intersect(a, b))
}

/// Exactly one of `a` and `b`.
pub open spec fn xor_exp(a: Exp, b: Exp) -> Exp {
    Rc::new(Expr::Xor(a, b))
}

/// `a` and not `b`.
pub open spec fn difference_exp(a: Exp, b: Exp) -> Exp {
    Rc::new(Expr::Difference(a, b))
}

/// `a` first, then `b`.
pub open spec fn sequence_exp(a: Exp, b: Exp) -> Exp {
    Rc::new(Expr::Sequence(a, b))
}

/// `a` holds until `b` does, and `b` does at some point.
pub open spec fn until_exp(a: Exp, b: Exp) -> Exp {
    Rc::new(Expr::LtlUntil(a, b))
}

/// `a` holds until `b` does, or throughout.
pub open spec fn weak_until_exp(a: Exp, b: Exp) -> Exp {
    Rc::new(Expr::LtlWeakUntil(a, b))
}

/// `b` holds up to and at the point where `a` does, or throughout.
pub open spec fn release_exp(a: Exp, b: Exp) -> Exp {
    Rc::new(Expr::LtlRelease(a, b))
}

/// `b` holds up to and at the point where `a` does, and `a` does at some point.
pub open spec fn strong_release_exp(a: Exp, b: Exp) -> Exp {
    Rc::new(Expr::LtlStrongRelease(a, b))
}

/// The iteration of `e`, any number of times.
pub open spec fn star_exp(e: Exp) -> Exp {
    Rc::new(Expr::Star(e))
}

/// Everything that `e` is not.
pub open spec fn complement_exp(e: Exp) -> Exp {
    Rc::new(Expr::Complement(e))
}

/// `e` holds of the rest of a history that has a rest.
pub open spec fn next_exp(e: Exp) -> Exp {
    Rc::new(Expr::LtlNext(e))
}

/// `e` holds of the rest of the history, or the history has no rest.
pub open spec fn weak_next_exp(e: Exp) -> Exp {
    Rc::new(Expr::LtlWeakNext(e))
}

/// `e` holds at some point of the history.
pub open spec fn finally_exp(e: Exp) -> Exp {
    Rc::new(Expr::LtlFinally(e))
}

/// `e` holds at every point of the history.
pub open spec fn globally_exp(e: Exp) -> Exp {
    Rc::new(Expr::LtlGlobally(e))
}

/// The larger of two numbers.
pub open spec fn larger(a: nat, b: nat) -> nat {
    if a >= b {
        a
    } else {
        b
    }
}

/// The number of operators on the longest path from the root of `e` to a leaf.
pub open spec fn height(e: Exp) -> nat
    decreases e,
{
    match *e {
        Expr::Zero | Expr::One | Expr::Top | Expr::Dup | Expr::End => 0,
        Expr::Assign(_, _) | Expr::Test(_, _) => 0,
        Expr::Union(a, b)
        | Expr::Intersect(a, b)
        | Expr::Xor(a, b)
        | Expr::Difference(a, b)
        | Expr::Sequence(a, b)
        | Expr::LtlUntil(a, b)
        | Expr::LtlWeakUntil(a, b)
        | Expr::LtlRelease(a, b)
        | Expr::LtlStrongRelease(a, b) => 1 + larger(height(a), height(b)),
        Expr::Star(a)
        | Expr::Complement(a)
        | Expr::LtlNext(a)
        | Expr::LtlWeakNext(a)
        | Expr::LtlFinally(a)
        | Expr::LtlGlobally(a) => 1 + height(a),
    }
}

/// Every field that `e` assigns or tests is one of the first `k`.
pub open spec fn fields_below(e: Exp, k: nat) -> bool
    decreases e,
{
    match *e {
        Expr::Zero | Expr::One | Expr::Top | Expr::Dup | Expr::End => true,
        Expr::Assign(f, _) | Expr::Test(f, _) => f < k,
        Expr::Union(a, b)
        | Expr::Intersect(a, b)
        | Expr::Xor(a, b)
        | Expr::Difference(a, b)
        | Expr::Sequence(a, b)
        | Expr::LtlUntil(a, b)
        | Expr::LtlWeakUntil(a, b)
        | Expr::LtlRelease(a, b)
        | Expr::LtlStrongRelease(a, b) => fields_below(a, k) && fields_below(b, k),
        Expr::Star(a)
        | Expr::Complement(a)
        | Expr::LtlNext(a)
        | Expr::LtlWeakNext(a)
        | Expr::LtlFinally(a)
        | Expr::LtlGlobally(a) => fields_below(a, k),
    }
}

/// Another handle to the expression behind `e`. This calls `Rc::clone` of
/// the standard library, which makes a second pointer to the same allocation
/// and leaves the expression as it is; the contract says so and is not proved.
#[verifier::external_body]
pub(crate) fn share(e: &Exp) -> (r: Exp)
    ensures
        r == *e,
{
    Rc::clone(e)
}

/// Whether two handles are handles to one allocation. This calls
/// `Rc::ptr_eq` of the standard library; two handles to one allocation lead
/// to one expression, and that is all the contract says. It is not proved.
#[verifier::external_body]
pub(crate) fn same_handle(a: &Exp, b: &Exp) -> (r: bool)
    ensures
        r ==> *a == *b,
{
    Rc::ptr_eq(a, b)
}

/// Whether two handles lead to the same expression: the same operators over
/// the same fields and values, all the way down.
pub fn same(a: &Exp, b: &Exp) -> (r: bool)
    ensures
        r == (*a == *b),
    decreases *a,
{
    if same_handle(a, b) {
        return true;
    }
    match &**a {
        Expr::Zero => match &**b {
            Expr::Zero => true,
            _ => false,
        },
        Expr::One => match &**b {
            Expr::One => true,
            _ => false,
        },
        Expr::Top => match &**b {
            Expr::Top => true,
            _ => false,
        },
        Expr::Dup => match &**b {
            Expr::Dup => true,
            _ => false,
        },
        Expr::End => match &**b {
            Expr::End => true,
            _ => false,
        },
        Expr::Assign(f, v) => match &**b {
            Expr::Assign(g, w) => *f == *g && *v == *w,
            _ => false,
        },
        Expr::Test(f, v) => match &**b {
            Expr::Test(g, w) => *f == *g && *v == *w,
            _ => false,
        },
        Expr::Union(a1, a2) => match &**b {
            Expr::Union(b1, b2) => same(a1, b1) && same(a2, b2),
            _ => false,
        },
        Expr::Intersect(a1, a2) => match &**b {
            Expr::Intersect(b1, b2) => same(a1, b1) && same(a2, b2),
            _ => false,
        },
        Expr::Xor(a1, a2) => match &**b {
            Expr::Xor(b1, b2) => same(a1, b1) && same(a2, b2),
            _ => false,
        },
        Expr::Difference(a1, a2) => match &**b {
            Expr::Difference(b1, b2) => same(a1, b1) && same(a2, b2),
            _ => false,
        },
        Expr::Sequence(a1, a2) => match &**b {
            Expr::Sequence(b1, b2) => same(a1, b1) && same(a2, b2),
            _ => false,
        },
        Expr::LtlUntil(a1, a2) => match &**b {
            Expr::LtlUntil(b1, b2) => same(a1, b1) && same(a2, b2),
            _ => false,
        },
        Expr::LtlWeakUntil(a1, a2) => match &**b {
            Expr::LtlWeakUntil(b1, b2) => same(a1, b1) && same(a2, b2),
            _ => false,
        },
        Expr::LtlRelease(a1, a2) => match &**b {
            Expr::LtlRelease(b1, b2) => same(a1, b1) && same(a2, b2),
            _ => false,
        },
        Expr::LtlStrongRelease(a1, a2) => match &**b {
            Expr::LtlStrongRelease(b1, b2) => same(a1, b1) && same(a2, b2),
            _ => false,
        },
        Expr::Star(a1) => match &**b {
            Expr::Star(b1) => same(a1, b1),
            _ => false,
        },
        Expr::Complement(a1) => match &**b {
            Expr::Complement(b1) => same(a1, b1),
            _ => false,
        },
        Expr::LtlNext(a1) => match &**b {
            Expr::LtlNext(b1) => same(a1, b1),
            _ => false,
        },
        Expr::LtlWeakNext(a1) => match &**b {
            Expr::LtlWeakNext(b1) => same(a1, b1),
            _ => false,
        },
        Expr::LtlFinally(a1) => match &**b {
            Expr::LtlFinally(b1) => same(a1, b1),
            _ => false,
        },
        Expr::LtlGlobally(a1) => match &**b {
            Expr::LtlGlobally(b1) => same(a1, b1),
            _ => false,
        },
    }
}

impl Expr {
    /// The expression that drops every packet.
    pub fn zero() -> (r: Exp)
        ensures
            r == zero_exp(),
    {
        Rc::new(Expr::Zero)
    }

    /// The expression that passes every packet unchanged.
    pub fn one() -> (r: Exp)
        ensures
            r == one_exp(),
    {
        Rc::new(Expr::One)
    }

    /// The universal relation.
    pub fn top() -> (r: Exp)
        ensures
            r == top_exp(),
    {
        Rc::new(Expr::Top)
    }

    /// The expression that records the current packet in the history.
    pub fn dup() -> (r: Exp)
        ensures
            r == dup_exp(),
    {
        Rc::new(Expr::Dup)
    }

    /// The predicate that holds of a history of one packet.
    pub fn end() -> (r: Exp)
        ensures
            r == end_exp(),
    {
        Rc::new(Expr::End)
    }

    /// The modification that sets field `f` to `v`.
    pub fn assign(f: Field, v: Value) -> (r: Exp)
        ensures
            r == assign_exp(f, v),
    {
        Rc::new(Expr::Assign(f, v))
    }

    /// The test that field `f` has the value `v`.
    pub fn test(f: Field, v: Value) -> (r: Exp)
        ensures
            r == test_exp(f, v),
    {
        Rc::new(Expr::Test(f, v))
    }

    /// Either of `a` and `b`.
    pub fn union(a: Exp, b: Exp) -> (r: Exp)
        ensures
            r == union_exp(a, b),
    {
        Rc::new(Expr::Union(a, b))
    }

    /// Both of `a` and `b`.
    pub fn intersect(a: Exp, b: Exp) -> (r: Exp)
        ensures
            r == intersect_exp(a, b),
    {
        Rc::new(Expr::Intersect(a, b))
    }

    /// Exactly one of `a` and `b`.
    pub fn xor(a: Exp, b: Exp) -> (r: Exp)
        ensures
            r == xor_exp(a, b),
    {
        Rc::new(Expr::Xor(a, b))
    }

    /// `a` and not `b`.
    pub fn difference(a: Exp, b: Exp) -> (r: Exp)
        ensures
            r == difference_exp(a, b),
    {
        Rc::new(Expr::Difference(a, b))
    }

    /// `a` first, then `b`.
    pub fn sequence(a: Exp, b: Exp) -> (r: Exp)
        ensures
            r == sequence_exp(a, b),
    {
        Rc::new(Expr::Sequence(a, b))
    }

    /// `a` holds until `b` does, and `b` does at some point.
    pub fn ltl_until(a: Exp, b: Exp) -> (r: Exp)
        ensures
            r == until_exp(a, b),
    {
        Rc::new(Expr::LtlUntil(a, b))
    }

    /// `a` holds until `b` does, or throughout.
    pub fn ltl_weak_until(a: Exp, b: Exp) -> (r: Exp)
        ensures
            r == weak_until_exp(a, b),
    {
        Rc::new(Expr::LtlWeakUntil(a, b))
    }

    /// `b` holds up to and at the point where `a` does, or throughout.
    pub fn ltl_release(a: Exp, b: Exp) -> (r: Exp)
        ensures
            r == release_exp(a, b),
    {
        Rc::new(Expr::LtlRelease(a, b))
    }

    /// `b` holds up to and at the point where `a` does, and `a` does at some point.
    pub fn ltl_strong_release(a: Exp, b: Exp) -> (r: Exp)
        ensures
            r == strong_release_exp(a, b),
    {
        Rc::new(Expr::LtlStrongRelease(a, b))
    }

    /// The iteration of `e`, any number of times.
    pub fn star(e: Exp) -> (r: Exp)
        ensures
            r == star_exp(e),
    {
        Rc::new(Expr::Star(e))
    }

    /// Everything that `e` is not.
    pub fn complement(e: Exp) -> (r: Exp)
        ensures
            r == complement_exp(e),
    {
        Rc::new(Expr::Complement(e))
    }

    /// `e` holds of the rest of a history that has a rest.
    pub fn ltl_next(e: Exp) -> (r: Exp)
        ensures
            r == next_exp(e),
    {
        Rc::new(Expr::LtlNext(e))
    }

    /// `e` holds of the rest of the history, or the history has no rest.
    pub fn ltl_weak_next(e: Exp) -> (r: Exp)
        ensures
            r == weak_next_exp(e),
    {
        Rc::new(Expr::LtlWeakNext(e))
    }

    /// `e` holds at some point of the history.
    pub fn ltl_finally(e: Exp) -> (r: Exp)
        ensures
            r == finally_exp(e),
    {
        Rc::new(Expr::LtlFinally(e))
    }

    /// `e` holds at every point of the history.
    pub fn ltl_globally(e: Exp) -> (r: Exp)
        ensures
            r == globally_exp(e),
    {
        Rc::new(Expr::LtlGlobally(e))
    }
}

} // verus!
