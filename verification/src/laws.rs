//! The algebra of packet relations: the laws of Boolean algebra and of Kleene
//! algebra, and the packet axioms of NetKAT, as they hold of the relations
//! that symbolic packet programs denote. Together with hash-consing (two
//! handles of one depth that denote the same relation are the same handle)
//! each equation between relations is an equation between handles.

use crate::relation::{
    assign, branch, complement, compose, empty, full, identity, lemma_compose_assoc, lemma_compose_elim,
    lemma_compose_empty, lemma_compose_identity, lemma_compose_intro, lemma_compose_monotone,
    lemma_compose_union_left, lemma_compose_union_right, lemma_star_empty, lemma_star_idempotent,
    lemma_star_identity, lemma_star_unroll_left, lemma_typed_within_full, lemma_star_unroll_right, mid, star,
    typed, Packet, Rel,
};
use vstd::prelude::*;

verus! {

/// Involution: the complement of the complement of a relation is the relation.
pub proof fn lemma_complement_involution(x: Rel, d: nat)
    requires
        typed(x, d),
    ensures
        complement(complement(x, d), d) == x,
{
    lemma_typed_within_full(x, d);
    assert(complement(complement(x, d), d) =~= x);
}

/// The empty relation is the unit of union and the zero of intersection; the
/// full relation is the zero of union and the unit of intersection.
pub proof fn lemma_boolean_identities(x: Rel, d: nat)
    requires
        typed(x, d),
    ensures
        x.union(empty()) == x,
        x.union(full(d)) == full(d),
        x.intersect(full(d)) == x,
        x.intersect(empty()) == empty(),
{
    lemma_typed_within_full(x, d);
    assert(x.union(empty()) =~= x);
    assert(x.union(full(d)) =~= full(d));
    assert(x.intersect(full(d)) =~= x);
    assert(x.intersect(empty()) =~= empty());
}

/// De Morgan: the complement of a union is the intersection of the
/// complements, and the complement of an intersection is the union of the
/// complements.
pub proof fn lemma_de_morgan(a: Rel, b: Rel, d: nat)
    ensures
        complement(a.union(b), d) == complement(a, d).intersect(complement(b, d)),
        complement(a.intersect(b), d) == complement(a, d).union(complement(b, d)),
{
    assert(complement(a.union(b), d) =~= complement(a, d).intersect(complement(b, d)));
    assert(complement(a.intersect(b), d) =~= complement(a, d).union(complement(b, d)));
}

/// Union and intersection are commutative.
pub proof fn lemma_commutative(a: Rel, b: Rel)
    ensures
        a.union(b) == b.union(a),
        a.intersect(b) == b.intersect(a),
{
    assert(a.union(b) =~= b.union(a));
    assert(a.intersect(b) =~= b.intersect(a));
}

/// Union and intersection are associative and idempotent.
pub proof fn lemma_associative_idempotent(a: Rel, b: Rel, c: Rel)
    ensures
        a.union(b.union(c)) == a.union(b).union(c),
        a.intersect(b.intersect(c)) == a.intersect(b).intersect(c),
        a.union(a) == a,
        a.intersect(a) == a,
{
    assert(a.union(b.union(c)) =~= a.union(b).union(c));
    assert(a.intersect(b.intersect(c)) =~= a.intersect(b).intersect(c));
    assert(a.union(a) =~= a);
    assert(a.intersect(a) =~= a);
}

/// Union distributes over intersection.
pub proof fn lemma_union_distributes(a: Rel, b: Rel, c: Rel)
    ensures
        a.union(b.intersect(c)) == a.union(b).intersect(a.union(c)),
{
    assert(a.union(b.intersect(c)) =~= a.union(b).intersect(a.union(c)));
}

/// Excluded middle and contradiction: a relation and its complement make up
/// the full relation and have nothing in common.
pub proof fn lemma_complement_laws(a: Rel, d: nat)
    requires
        typed(a, d),
    ensures
        a.union(complement(a, d)) == full(d),
        a.intersect(complement(a, d)) == empty(),
{
    lemma_typed_within_full(a, d);
    assert(a.union(complement(a, d)) =~= full(d));
    assert(a.intersect(complement(a, d)) =~= empty());
}

/// A choice between complements is the complement of the choice.
pub proof fn lemma_ifelse_complement(var: nat, a: Rel, b: Rel, d: nat)
    requires
        var < d,
    ensures
        branch(var, complement(a, d), complement(a, d), complement(b, d), complement(b, d)) == complement(
            branch(var, a, a, b, b),
            d,
        ),
{
    assert(branch(var, complement(a, d), complement(a, d), complement(b, d), complement(b, d)) =~= complement(
        branch(var, a, a, b, b),
        d,
    ));
}

/// The diagonal is the unit of composition and the empty relation its zero.
pub proof fn lemma_sequence_identities(x: Rel, d: nat)
    requires
        typed(x, d),
    ensures
        compose(x, identity(d)) == x,
        compose(identity(d), x) == x,
        compose(x, empty()) == empty(),
        compose(empty(), x) == empty(),
{
    lemma_compose_identity(x, d);
    lemma_compose_empty(x);
}

/// Composition is associative and distributes over union on both sides.
pub proof fn lemma_sequence_laws(a: Rel, b: Rel, c: Rel)
    ensures
        compose(a, compose(b, c)) == compose(compose(a, b), c),
        compose(a, b.union(c)) == compose(a, b).union(compose(a, c)),
        compose(a.union(b), c) == compose(a, c).union(compose(b, c)),
{
    lemma_compose_assoc(a, b, c);
    lemma_compose_union_right(a, b, c);
    lemma_compose_union_left(a, b, c);
}

/// The closure of the empty relation and of the diagonal is the diagonal, and
/// the closure of a closure is that closure.
pub proof fn lemma_star_laws(x: Rel, d: nat)
    requires
        typed(x, d),
    ensures
        star(empty(), d) == identity(d),
        star(identity(d), d) == identity(d),
        star(star(x, d), d) == star(x, d),
{
    lemma_star_empty(d);
    lemma_star_identity(d);
    lemma_star_idempotent(x, d);
}

/// Unrolling: a closure is the diagonal together with a step in front of the
/// closure, and together with a step behind it.
pub proof fn lemma_star_unroll(x: Rel, d: nat)
    requires
        typed(x, d),
    ensures
        star(x, d) == identity(d).union(compose(x, star(x, d))),
        star(x, d) == identity(d).union(compose(star(x, d), x)),
{
    lemma_star_unroll_left(x, d);
    lemma_star_unroll_right(x, d);
}

/// Containment: a relation lies within its union with any other, and union,
/// intersection and composition are monotone.
pub proof fn lemma_monotone(a: Rel, b: Rel, c: Rel, e: Rel)
    requires
        a.subset_of(b),
        c.subset_of(e),
    ensures
        a.subset_of(a.union(c)),
        a.union(c).subset_of(b.union(e)),
        a.intersect(c).subset_of(b.intersect(e)),
        compose(a, c).subset_of(compose(b, e)),
{
    lemma_compose_monotone(a, c, b, e);
}

/// Containment is what the decision by symmetric difference tests: `a` lies
/// within `b` exactly when the union of the two is `b`.
pub proof fn lemma_containment(a: Rel, b: Rel)
    ensures
        a.subset_of(b) <==> a.union(b) == b,
{
    if a.subset_of(b) {
        assert(a.union(b) =~= b);
    }
}

/// Equality is what the decision by symmetric difference tests: two relations
/// are the same exactly when no pair is in one and not in the other.
pub proof fn lemma_xor_empty(a: Rel, b: Rel)
    ensures
        a == b <==> crate::relation::xor(a, b) == empty(),
{
    if crate::relation::xor(a, b) == empty() {
        assert forall|pq: (Packet, Packet)| a.contains(pq) == b.contains(pq) by {
            assert(!crate::relation::xor(a, b).contains(pq));
        }
        assert(a =~= b);
    }
    if a == b {
        assert(crate::relation::xor(a, b) =~= empty());
    }
}

/// An assignment makes the test of the assigned value pass, and a test makes
/// the assignment of the tested value idle.
pub proof fn lemma_assign_test(var: nat, value: bool, d: nat)
    requires
        var < d,
    ensures
        compose(assign(var, value, d), crate::relation::test(var, value, d)) == assign(var, value, d),
        compose(crate::relation::test(var, value, d), assign(var, value, d)) == crate::relation::test(var, value, d),
{
    let a = assign(var, value, d);
    let t = crate::relation::test(var, value, d);
    assert forall|pq: (Packet, Packet)| compose(a, t).contains(pq) == a.contains(pq) by {
        if compose(a, t).contains(pq) {
            lemma_compose_elim(a, t, pq.0, pq.1);
        }
        if a.contains(pq) {
            assert(a.contains((pq.0, pq.1)));
            assert(t.contains((pq.1, pq.1)));
            lemma_compose_intro(a, t, pq.0, pq.1, pq.1);
        }
    }
    assert forall|pq: (Packet, Packet)| compose(t, a).contains(pq) == t.contains(pq) by {
        if compose(t, a).contains(pq) {
            lemma_compose_elim(t, a, pq.0, pq.1);
            let m = mid(t, a, pq.0, pq.1);
            assert(m.update(var as int, value) =~= m);
        }
        if t.contains(pq) {
            assert(t.contains((pq.0, pq.0)));
            assert(pq.0.update(var as int, value) =~= pq.0);
            assert(a.contains((pq.0, pq.1)));
            lemma_compose_intro(t, a, pq.0, pq.0, pq.1);
        }
    }
    assert(compose(a, t) =~= a);
    assert(compose(t, a) =~= t);
}

/// Two modifications of one field: the last prevails.
pub proof fn lemma_assign_assign(var: nat, v: bool, w: bool, d: nat)
    requires
        var < d,
    ensures
        compose(assign(var, v, d), assign(var, w, d)) == assign(var, w, d),
{
    let a = assign(var, v, d);
    let b = assign(var, w, d);
    assert forall|pq: (Packet, Packet)| compose(a, b).contains(pq) == b.contains(pq) by {
        let p = pq.0;
        if compose(a, b).contains(pq) {
            lemma_compose_elim(a, b, p, pq.1);
            assert(p.update(var as int, v).update(var as int, w) =~= p.update(var as int, w));
        }
        if b.contains(pq) {
            let m = p.update(var as int, v);
            assert(m.update(var as int, w) =~= p.update(var as int, w));
            assert(a.contains((p, m)));
            assert(b.contains((m, pq.1)));
            lemma_compose_intro(a, b, p, m, pq.1);
        }
    }
    assert(compose(a, b) =~= b);
}

/// Modifications of two different fields commute.
pub proof fn lemma_assign_commute(i: nat, j: nat, v: bool, w: bool, d: nat)
    requires
        i < d,
        j < d,
        i != j,
    ensures
        compose(assign(i, v, d), assign(j, w, d)) == compose(assign(j, w, d), assign(i, v, d)),
{
    let a = assign(i, v, d);
    let b = assign(j, w, d);
    assert forall|pq: (Packet, Packet)| compose(a, b).contains(pq) == compose(b, a).contains(pq) by {
        let p = pq.0;
        let q = pq.1;
        if compose(a, b).contains(pq) {
            lemma_compose_elim(a, b, p, q);
            let m = p.update(j as int, w);
            assert(p.update(i as int, v).update(j as int, w) =~= m.update(i as int, v));
            assert(b.contains((p, m)));
            assert(a.contains((m, q)));
            lemma_compose_intro(b, a, p, m, q);
        }
        if compose(b, a).contains(pq) {
            lemma_compose_elim(b, a, p, q);
            let m = p.update(i as int, v);
            assert(p.update(j as int, w).update(i as int, v) =~= m.update(j as int, w));
            assert(a.contains((p, m)));
            assert(b.contains((m, q)));
            lemma_compose_intro(a, b, p, m, q);
        }
    }
    assert(compose(a, b) =~= compose(b, a));
}

/// A modification commutes with a test of a different field.
pub proof fn lemma_assign_test_commute(i: nat, j: nat, v: bool, w: bool, d: nat)
    requires
        i < d,
        j < d,
        i != j,
    ensures
        compose(assign(i, v, d), crate::relation::test(j, w, d)) == compose(
            crate::relation::test(j, w, d),
            assign(i, v, d),
        ),
{
    let a = assign(i, v, d);
    let t = crate::relation::test(j, w, d);
    assert forall|pq: (Packet, Packet)| compose(a, t).contains(pq) == compose(t, a).contains(pq) by {
        let p = pq.0;
        let q = pq.1;
        if compose(a, t).contains(pq) {
            lemma_compose_elim(a, t, p, q);
            assert(t.contains((p, p)));
            assert(a.contains((p, q)));
            lemma_compose_intro(t, a, p, p, q);
        }
        if compose(t, a).contains(pq) {
            lemma_compose_elim(t, a, p, q);
            assert(a.contains((p, q)));
            assert(t.contains((q, q)));
            lemma_compose_intro(a, t, p, q, q);
        }
    }
    assert(compose(a, t) =~= compose(t, a));
}

/// A field is unset or set, and not both: the two tests of a field have
/// nothing in sequence and make up the diagonal in union.
pub proof fn lemma_test_test(var: nat, d: nat)
    requires
        var < d,
    ensures
        compose(crate::relation::test(var, false, d), crate::relation::test(var, true, d)) == empty(),
        crate::relation::test(var, false, d).union(crate::relation::test(var, true, d)) == identity(d),
{
    let f = crate::relation::test(var, false, d);
    let t = crate::relation::test(var, true, d);
    assert forall|pq: (Packet, Packet)| !compose(f, t).contains(pq) by {
        if compose(f, t).contains(pq) {
            lemma_compose_elim(f, t, pq.0, pq.1);
        }
    }
    assert(compose(f, t) =~= empty());
    assert(f.union(t) =~= identity(d));
}

} // verus!
