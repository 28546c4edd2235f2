//! The algebra of handles. A store keeps one handle for each relation of each
//! depth, so the laws of Boolean algebra and of Kleene algebra hold not only
//! of what handles denote but of the handles themselves: the two sides of a
//! law, computed in one store, are one handle. Each law here is stated of any
//! well-formed store and of any handles in it that stand for the results of
//! the operations, which is what the operations promise of what they return.

use crate::laws::{
    lemma_boolean_identities, lemma_commutative, lemma_complement_involution, lemma_de_morgan,
    lemma_ifelse_complement, lemma_sequence_identities, lemma_star_laws, lemma_star_unroll,
};
use crate::relation::{branch, complement, compose, star};
use crate::sp::{rest, SPstore, SP};
use crate::spp::{SPPstore, Var, SPP};
use vstd::prelude::*;

verus! {

/// `r` is the union of `a` and `b` in `s`.
pub open spec fn is_union(s: &SPPstore, r: SPP, a: SPP, b: SPP) -> bool {
    &&& s.valid(r) && s.valid(a) && s.valid(b)
    &&& s.depth(a) == s.depth(b) && s.depth(r) == s.depth(a)
    &&& s.rel(r) == s.rel(a).union(s.rel(b))
}

/// `r` is the intersection of `a` and `b` in `s`.
pub open spec fn is_intersect(s: &SPPstore, r: SPP, a: SPP, b: SPP) -> bool {
    &&& s.valid(r) && s.valid(a) && s.valid(b)
    &&& s.depth(a) == s.depth(b) && s.depth(r) == s.depth(a)
    &&& s.rel(r) == s.rel(a).intersect(s.rel(b))
}

/// `r` is the complement of `a` in `s`.
pub open spec fn is_complement(s: &SPPstore, r: SPP, a: SPP) -> bool {
    &&& s.valid(r) && s.valid(a)
    &&& s.depth(r) == s.depth(a)
    &&& s.rel(r) == complement(s.rel(a), s.depth(a))
}

/// `r` is the sequential composition of `a` and `b` in `s`.
pub open spec fn is_sequence(s: &SPPstore, r: SPP, a: SPP, b: SPP) -> bool {
    &&& s.valid(r) && s.valid(a) && s.valid(b)
    &&& s.depth(a) == s.depth(b) && s.depth(r) == s.depth(a)
    &&& s.rel(r) == compose(s.rel(a), s.rel(b))
}

/// `r` is the Kleene star of `a` in `s`.
pub open spec fn is_star(s: &SPPstore, r: SPP, a: SPP) -> bool {
    &&& s.valid(r) && s.valid(a)
    &&& s.depth(r) == s.depth(a)
    &&& s.rel(r) == star(s.rel(a), s.depth(a))
}

/// `r` is the choice on field `var` between `a` and `b` in `s`.
pub open spec fn is_ifelse(s: &SPPstore, r: SPP, var: Var, a: SPP, b: SPP) -> bool {
    &&& s.valid(r) && s.valid(a) && s.valid(b)
    &&& s.depth(a) == s.depth(b) && s.depth(r) == s.depth(a)
    &&& var < s.depth(a)
    &&& s.rel(r) == branch(var as nat, s.rel(a), s.rel(a), s.rel(b), s.rel(b))
}

/// Involution: the complement of the complement of a handle is the handle.
pub proof fn lemma_involution(s: &SPPstore, x: SPP, n: SPP, nn: SPP)
    requires
        s.wf(),
        is_complement(s, n, x),
        is_complement(s, nn, n),
    ensures
        nn == x,
{
    s.lemma_typed(x);
    lemma_complement_involution(s.rel(x), s.depth(x));
    s.lemma_canonical(nn, x);
}

/// Identities: the union with `zero` and the intersection with `top` are the
/// handle itself, the union with `top` is `top` and the intersection with
/// `zero` is `zero`.
pub proof fn lemma_identities(s: &SPPstore, x: SPP, r: SPP)
    requires
        s.wf(),
        s.valid(x),
        s.depth(x) == s.num_fields(),
    ensures
        is_union(s, r, x, s.zero) ==> r == x,
        is_union(s, r, x, s.top) ==> r == s.top,
        is_intersect(s, r, x, s.top) ==> r == x,
        is_intersect(s, r, x, s.zero) ==> r == s.zero,
{
    s.lemma_typed(x);
    lemma_boolean_identities(s.rel(x), s.depth(x));
    if is_union(s, r, x, s.zero) || is_intersect(s, r, x, s.top) {
        s.lemma_canonical(r, x);
    }
    if is_union(s, r, x, s.top) {
        s.lemma_canonical(r, s.top);
    }
    if is_intersect(s, r, x, s.zero) {
        s.lemma_canonical(r, s.zero);
    }
}

/// De Morgan: the complement of a union is the intersection of the
/// complements.
pub proof fn lemma_de_morgan_union(s: &SPPstore, a: SPP, b: SPP, u: SPP, l: SPP, na: SPP, nb: SPP, r: SPP)
    requires
        s.wf(),
        is_union(s, u, a, b),
        is_complement(s, l, u),
        is_complement(s, na, a),
        is_complement(s, nb, b),
        is_intersect(s, r, na, nb),
    ensures
        l == r,
{
    lemma_de_morgan(s.rel(a), s.rel(b), s.depth(a));
    s.lemma_canonical(l, r);
}

/// De Morgan: the complement of an intersection is the union of the
/// complements.
pub proof fn lemma_de_morgan_intersect(s: &SPPstore, a: SPP, b: SPP, i: SPP, l: SPP, na: SPP, nb: SPP, r: SPP)
    requires
        s.wf(),
        is_intersect(s, i, a, b),
        is_complement(s, l, i),
        is_complement(s, na, a),
        is_complement(s, nb, b),
        is_union(s, r, na, nb),
    ensures
        l == r,
{
    lemma_de_morgan(s.rel(a), s.rel(b), s.depth(a));
    s.lemma_canonical(l, r);
}

/// Commutativity: the union, and the intersection, of two handles does not
/// depend on their order.
pub proof fn lemma_commutes(s: &SPPstore, a: SPP, b: SPP, l: SPP, r: SPP)
    requires
        s.wf(),
    ensures
        is_union(s, l, a, b) && is_union(s, r, b, a) ==> l == r,
        is_intersect(s, l, a, b) && is_intersect(s, r, b, a) ==> l == r,
{
    lemma_commutative(s.rel(a), s.rel(b));
    if (is_union(s, l, a, b) && is_union(s, r, b, a)) || (is_intersect(s, l, a, b) && is_intersect(s, r, b, a)) {
        s.lemma_canonical(l, r);
    }
}

/// A choice between complements is the complement of the choice.
pub proof fn lemma_choice_complement(
    s: &SPPstore,
    var: Var,
    a: SPP,
    b: SPP,
    na: SPP,
    nb: SPP,
    l: SPP,
    c: SPP,
    r: SPP,
)
    requires
        s.wf(),
        is_complement(s, na, a),
        is_complement(s, nb, b),
        is_ifelse(s, l, var, na, nb),
        is_ifelse(s, c, var, a, b),
        is_complement(s, r, c),
    ensures
        l == r,
{
    lemma_ifelse_complement(var as nat, s.rel(a), s.rel(b), s.depth(a));
    s.lemma_canonical(l, r);
}

/// Identity and annihilation: the composition with `one`, on either side, is
/// the handle itself, and the composition with `zero` is `zero`.
pub proof fn lemma_sequence_units(s: &SPPstore, x: SPP, r: SPP)
    requires
        s.wf(),
        s.valid(x),
        s.depth(x) == s.num_fields(),
    ensures
        is_sequence(s, r, x, s.one) ==> r == x,
        is_sequence(s, r, s.one, x) ==> r == x,
        is_sequence(s, r, x, s.zero) ==> r == s.zero,
        is_sequence(s, r, s.zero, x) ==> r == s.zero,
{
    s.lemma_typed(x);
    lemma_sequence_identities(s.rel(x), s.depth(x));
    if is_sequence(s, r, x, s.one) || is_sequence(s, r, s.one, x) {
        s.lemma_canonical(r, x);
    }
    if is_sequence(s, r, x, s.zero) || is_sequence(s, r, s.zero, x) {
        s.lemma_canonical(r, s.zero);
    }
}

/// The star of `zero` and the star of `one` are `one`.
pub proof fn lemma_star_constants(s: &SPPstore, r: SPP)
    requires
        s.wf(),
    ensures
        is_star(s, r, s.zero) ==> r == s.one,
        is_star(s, r, s.one) ==> r == s.one,
{
    lemma_star_laws(s.rel(s.zero), s.num_fields());
    if is_star(s, r, s.zero) || is_star(s, r, s.one) {
        s.lemma_canonical(r, s.one);
    }
}

/// The star of a star is that star.
pub proof fn lemma_star_star(s: &SPPstore, x: SPP, sx: SPP, ssx: SPP)
    requires
        s.wf(),
        is_star(s, sx, x),
        is_star(s, ssx, sx),
    ensures
        ssx == sx,
{
    s.lemma_typed(x);
    lemma_star_laws(s.rel(x), s.depth(x));
    s.lemma_canonical(ssx, sx);
}

/// Unrolling: the star of a handle is the union of `one` with the handle in
/// front of its star, and with the handle behind its star.
pub proof fn lemma_unroll(s: &SPPstore, x: SPP, sx: SPP, step: SPP, r: SPP)
    requires
        s.wf(),
        is_star(s, sx, x),
        s.depth(x) == s.num_fields(),
        is_sequence(s, step, x, sx) || is_sequence(s, step, sx, x),
        is_union(s, r, s.one, step),
    ensures
        r == sx,
{
    s.lemma_typed(x);
    lemma_star_unroll(s.rel(x), s.depth(x));
    s.lemma_canonical(r, sx);
}

/// `r` is the union of the symbolic packets `a` and `b` in `s`.
pub open spec fn is_sp_union(s: &SPstore, r: SP, a: SP, b: SP) -> bool {
    &&& s.valid(r) && s.valid(a) && s.valid(b)
    &&& s.depth(a) == s.depth(b) && s.depth(r) == s.depth(a)
    &&& s.set(r) == s.set(a).union(s.set(b))
}

/// `r` is the intersection of the symbolic packets `a` and `b` in `s`.
pub open spec fn is_sp_intersect(s: &SPstore, r: SP, a: SP, b: SP) -> bool {
    &&& s.valid(r) && s.valid(a) && s.valid(b)
    &&& s.depth(a) == s.depth(b) && s.depth(r) == s.depth(a)
    &&& s.set(r) == s.set(a).intersect(s.set(b))
}

/// `r` is the complement of the symbolic packet `a` in `s`.
pub open spec fn is_sp_complement(s: &SPstore, r: SP, a: SP) -> bool {
    &&& s.valid(r) && s.valid(a)
    &&& s.depth(r) == s.depth(a)
    &&& s.set(r) == rest(s.set(a), s.depth(a))
}

/// Involution, for symbolic packets.
pub proof fn lemma_sp_involution(s: &SPstore, x: SP, n: SP, nn: SP)
    requires
        s.wf(),
        is_sp_complement(s, n, x),
        is_sp_complement(s, nn, n),
    ensures
        nn == x,
{
    s.lemma_sized(x);
    assert(rest(rest(s.set(x), s.depth(x)), s.depth(x)) =~= s.set(x));
    s.lemma_canonical(nn, x);
}

/// Identities, for symbolic packets: `zero` is the unit of union and the zero
/// of intersection, and `one`, the set of all packets, the other way round.
pub proof fn lemma_sp_identities(s: &SPstore, x: SP, r: SP)
    requires
        s.wf(),
        s.valid(x),
        s.depth(x) == s.num_fields(),
    ensures
        is_sp_union(s, r, x, s.zero) ==> r == x,
        is_sp_union(s, r, x, s.one) ==> r == s.one,
        is_sp_intersect(s, r, x, s.one) ==> r == x,
        is_sp_intersect(s, r, x, s.zero) ==> r == s.zero,
{
    s.lemma_sized(x);
    assert(s.set(x).union(s.set(s.zero)) =~= s.set(x));
    assert(s.set(x).union(s.set(s.one)) =~= s.set(s.one));
    assert(s.set(x).intersect(s.set(s.one)) =~= s.set(x));
    assert(s.set(x).intersect(s.set(s.zero)) =~= s.set(s.zero));
    if is_sp_union(s, r, x, s.zero) || is_sp_intersect(s, r, x, s.one) {
        s.lemma_canonical(r, x);
    }
    if is_sp_union(s, r, x, s.one) {
        s.lemma_canonical(r, s.one);
    }
    if is_sp_intersect(s, r, x, s.zero) {
        s.lemma_canonical(r, s.zero);
    }
}

/// De Morgan, for symbolic packets.
pub proof fn lemma_sp_de_morgan(s: &SPstore, a: SP, b: SP, m: SP, l: SP, na: SP, nb: SP, r: SP)
    requires
        s.wf(),
        is_sp_complement(s, l, m),
        is_sp_complement(s, na, a),
        is_sp_complement(s, nb, b),
        (is_sp_union(s, m, a, b) && is_sp_intersect(s, r, na, nb)) || (is_sp_intersect(s, m, a, b) && is_sp_union(
            s,
            r,
            na,
            nb,
        )),
    ensures
        l == r,
{
    let d = s.depth(a);
    assert(rest(s.set(a).union(s.set(b)), d) =~= rest(s.set(a), d).intersect(rest(s.set(b), d)));
    assert(rest(s.set(a).intersect(s.set(b)), d) =~= rest(s.set(a), d).union(rest(s.set(b), d)));
    s.lemma_canonical(l, r);
}

/// Commutativity, for symbolic packets.
pub proof fn lemma_sp_commutes(s: &SPstore, a: SP, b: SP, l: SP, r: SP)
    requires
        s.wf(),
    ensures
        is_sp_union(s, l, a, b) && is_sp_union(s, r, b, a) ==> l == r,
        is_sp_intersect(s, l, a, b) && is_sp_intersect(s, r, b, a) ==> l == r,
{
    assert(s.set(a).union(s.set(b)) =~= s.set(b).union(s.set(a)));
    assert(s.set(a).intersect(s.set(b)) =~= s.set(b).intersect(s.set(a)));
    if (is_sp_union(s, l, a, b) && is_sp_union(s, r, b, a)) || (is_sp_intersect(s, l, a, b) && is_sp_intersect(
        s,
        r,
        b,
        a,
    )) {
        s.lemma_canonical(l, r);
    }
}

} // verus!
