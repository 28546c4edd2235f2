//! The mathematical model: packets are finite sequences of bits and a packet
//! program denotes a set of (input, output) packet pairs.

use vstd::prelude::*;

verus! {

/// A packet: one boolean per field, field 0 first.
pub type Packet = Seq<bool>;

/// A relation on packets, as the set of its (input, output) pairs.
pub type Rel = Set<(Seq<bool>, Seq<bool>)>;

/// Every pair of `r` relates two packets of exactly `d` fields.
pub open spec fn typed(r: Rel, d: nat) -> bool {
    forall|p: Packet, q: Packet| #[trigger] r.contains((p, q)) ==> p.len() == d && q.len() == d
}

/// The relation that holds of no pair.
pub open spec fn empty() -> Rel {
    Set::empty()
}

/// The relation that holds of every pair of `d`-field packets.
pub open spec fn full(d: nat) -> Rel {
    Set::new(|pq: (Packet, Packet)| pq.0.len() == d && pq.1.len() == d)
}

/// The diagonal: every `d`-field packet is related to itself and to nothing else.
pub open spec fn identity(d: nat) -> Rel {
    Set::new(|pq: (Packet, Packet)| pq.0.len() == d && pq.1 == pq.0)
}

/// The pairs of `d`-field packets that `r` does not relate.
pub open spec fn complement(r: Rel, d: nat) -> Rel {
    full(d).difference(r)
}

/// The pairs that exactly one of `a` and `b` relates.
pub open spec fn xor(a: Rel, b: Rel) -> Rel {
    a.difference(b).union(b.difference(a))
}

/// Some packet lies between `p` and `q`: `a` leads to it from `p` and `b` leads on from it to `q`.
pub open spec fn linked(a: Rel, b: Rel, p: Packet, q: Packet) -> bool {
    exists|m: Packet| #[trigger] a.contains((p, m)) && b.contains((m, q))
}

/// Relational composition: `a` first, then `b`.
pub open spec fn compose(a: Rel, b: Rel) -> Rel {
    Set::new(|pq: (Packet, Packet)| linked(a, b, pq.0, pq.1))
}

/// `n` steps of `r` on `d`-field packets.
pub open spec fn power(r: Rel, d: nat, n: nat) -> Rel
    decreases n,
{
    if n == 0 {
        identity(d)
    } else {
        compose(r, power(r, d, (n - 1) as nat))
    }
}

/// The reflexive-transitive closure of `r` on `d`-field packets.
pub open spec fn star(r: Rel, d: nat) -> Rel {
    Set::new(|pq: (Packet, Packet)| exists|n: nat| #[trigger] power(r, d, n).contains(pq))
}

/// The block selected by an input bit `v` and an output bit `w`.
pub open spec fn pick(v: bool, w: bool, r00: Rel, r01: Rel, r10: Rel, r11: Rel) -> Rel {
    if v {
        if w {
            r11
        } else {
            r10
        }
    } else {
        if w {
            r01
        } else {
            r00
        }
    }
}

/// The packet `p` with the bit `v` put in front.
pub open spec fn cons(v: bool, p: Packet) -> Packet {
    seq![v] + p
}

/// The relation whose 2x2 block matrix, indexed by the first input bit and the
/// first output bit, is `(r00, r01; r10, r11)`.
pub open spec fn quad(r00: Rel, r01: Rel, r10: Rel, r11: Rel) -> Rel {
    Set::new(
        |pq: (Packet, Packet)|
            pq.0.len() > 0 && pq.1.len() > 0 && pick(pq.0[0], pq.1[0], r00, r01, r10, r11).contains(
                (pq.0.drop_first(), pq.1.drop_first()),
            ),
    )
}

/// The relation that follows `r00`, `r01`, `r10` or `r11` according to the
/// value of field `var` in the input and in the output packet.
pub open spec fn branch(var: nat, r00: Rel, r01: Rel, r10: Rel, r11: Rel) -> Rel {
    Set::new(
        |pq: (Packet, Packet)|
            var < pq.0.len() && var < pq.1.len() && pick(
                pq.0[var as int],
                pq.1[var as int],
                r00,
                r01,
                r10,
                r11,
            ).contains(pq),
    )
}

/// The filter that keeps a `d`-field packet unchanged when its field `var` is `value`.
pub open spec fn test(var: nat, value: bool, d: nat) -> Rel {
    Set::new(
        |pq: (Packet, Packet)|
            pq.0.len() == d && var < d && pq.1 == pq.0 && pq.0[var as int] == value,
    )
}

/// The modification that sets field `var` of a `d`-field packet to `value`.
pub open spec fn assign(var: nat, value: bool, d: nat) -> Rel {
    Set::new(
        |pq: (Packet, Packet)|
            pq.0.len() == d && var < d && pq.1 == pq.0.update(var as int, value),
    )
}

/// A relation on `d`-field packets lies within the full relation on them.
pub proof fn lemma_typed_within_full(r: Rel, d: nat)
    ensures
        typed(r, d) <==> r.subset_of(full(d)),
{
    if typed(r, d) {
        assert forall|pq: (Packet, Packet)| r.contains(pq) implies full(d).contains(pq) by {
            assert(r.contains((pq.0, pq.1)));
        }
    }
    if r.subset_of(full(d)) {
        assert forall|p: Packet, q: Packet| #[trigger] r.contains((p, q)) implies p.len() == d && q.len() == d by {
            assert(full(d).contains((p, q)));
        }
    }
}

/// A packet with a bit put in front starts with that bit and continues as before.
pub proof fn lemma_cons(v: bool, p: Packet)
    ensures
        cons(v, p).len() == p.len() + 1,
        cons(v, p)[0] == v,
        cons(v, p).drop_first() == p,
{
    assert(cons(v, p).drop_first() =~= p);
}

/// A non-empty packet is its first bit put in front of its rest.
pub proof fn lemma_uncons(p: Packet)
    requires
        p.len() > 0,
    ensures
        cons(p[0], p.drop_first()) == p,
{
    assert(cons(p[0], p.drop_first()) =~= p);
}

/// Membership in a block matrix is membership in the block the first bits select.
pub proof fn lemma_quad_contains(r00: Rel, r01: Rel, r10: Rel, r11: Rel, v: bool, w: bool, p: Packet, q: Packet)
    ensures
        quad(r00, r01, r10, r11).contains((cons(v, p), cons(w, q))) == pick(v, w, r00, r01, r10, r11).contains(
            (p, q),
        ),
{
    lemma_cons(v, p);
    lemma_cons(w, q);
}

/// Blocks of `d`-field relations make a `d + 1`-field relation.
pub proof fn lemma_quad_typed(r00: Rel, r01: Rel, r10: Rel, r11: Rel, d: nat)
    requires
        typed(r00, d),
        typed(r01, d),
        typed(r10, d),
        typed(r11, d),
    ensures
        typed(quad(r00, r01, r10, r11), d + 1),
{
    assert forall|p: Packet, q: Packet| #[trigger] quad(r00, r01, r10, r11).contains((p, q)) implies p.len() == d
        + 1 && q.len() == d + 1 by {
        assert(pick(p[0], q[0], r00, r01, r10, r11).contains((p.drop_first(), q.drop_first())));
    }
}

/// A block matrix determines its four blocks.
pub proof fn lemma_quad_injective(a00: Rel, a01: Rel, a10: Rel, a11: Rel, b00: Rel, b01: Rel, b10: Rel, b11: Rel)
    requires
        quad(a00, a01, a10, a11) == quad(b00, b01, b10, b11),
    ensures
        a00 == b00,
        a01 == b01,
        a10 == b10,
        a11 == b11,
{
    assert forall|v: bool, w: bool, p: Packet, q: Packet|
        pick(v, w, a00, a01, a10, a11).contains((p, q)) == pick(v, w, b00, b01, b10, b11).contains((p, q)) by {
        lemma_quad_contains(a00, a01, a10, a11, v, w, p, q);
        lemma_quad_contains(b00, b01, b10, b11, v, w, p, q);
    }
    assert forall|pq: (Packet, Packet)| a00.contains(pq) == b00.contains(pq) by {
        assert(pick(false, false, a00, a01, a10, a11).contains((pq.0, pq.1)) == pick(
            false,
            false,
            b00,
            b01,
            b10,
            b11,
        ).contains((pq.0, pq.1)));
    }
    assert forall|pq: (Packet, Packet)| a01.contains(pq) == b01.contains(pq) by {
        assert(pick(false, true, a00, a01, a10, a11).contains((pq.0, pq.1)) == pick(
            false,
            true,
            b00,
            b01,
            b10,
            b11,
        ).contains((pq.0, pq.1)));
    }
    assert forall|pq: (Packet, Packet)| a10.contains(pq) == b10.contains(pq) by {
        assert(pick(true, false, a00, a01, a10, a11).contains((pq.0, pq.1)) == pick(
            true,
            false,
            b00,
            b01,
            b10,
            b11,
        ).contains((pq.0, pq.1)));
    }
    assert forall|pq: (Packet, Packet)| a11.contains(pq) == b11.contains(pq) by {
        assert(pick(true, true, a00, a01, a10, a11).contains((pq.0, pq.1)) == pick(
            true,
            true,
            b00,
            b01,
            b10,
            b11,
        ).contains((pq.0, pq.1)));
    }
    assert(a00 =~= b00);
    assert(a01 =~= b01);
    assert(a10 =~= b10);
    assert(a11 =~= b11);
}

/// The union of two block matrices is the matrix of the blocks' unions.
pub proof fn lemma_quad_union(a00: Rel, a01: Rel, a10: Rel, a11: Rel, b00: Rel, b01: Rel, b10: Rel, b11: Rel)
    ensures
        quad(a00, a01, a10, a11).union(quad(b00, b01, b10, b11)) == quad(
            a00.union(b00),
            a01.union(b01),
            a10.union(b10),
            a11.union(b11),
        ),
{
    assert(quad(a00, a01, a10, a11).union(quad(b00, b01, b10, b11)) =~= quad(
        a00.union(b00),
        a01.union(b01),
        a10.union(b10),
        a11.union(b11),
    ));
}

/// The intersection of two block matrices is the matrix of the blocks' intersections.
pub proof fn lemma_quad_intersect(a00: Rel, a01: Rel, a10: Rel, a11: Rel, b00: Rel, b01: Rel, b10: Rel, b11: Rel)
    ensures
        quad(a00, a01, a10, a11).intersect(quad(b00, b01, b10, b11)) == quad(
            a00.intersect(b00),
            a01.intersect(b01),
            a10.intersect(b10),
            a11.intersect(b11),
        ),
{
    assert(quad(a00, a01, a10, a11).intersect(quad(b00, b01, b10, b11)) =~= quad(
        a00.intersect(b00),
        a01.intersect(b01),
        a10.intersect(b10),
        a11.intersect(b11),
    ));
}

/// The difference of two block matrices is the matrix of the blocks' differences.
pub proof fn lemma_quad_difference(a00: Rel, a01: Rel, a10: Rel, a11: Rel, b00: Rel, b01: Rel, b10: Rel, b11: Rel)
    ensures
        quad(a00, a01, a10, a11).difference(quad(b00, b01, b10, b11)) == quad(
            a00.difference(b00),
            a01.difference(b01),
            a10.difference(b10),
            a11.difference(b11),
        ),
{
    assert(quad(a00, a01, a10, a11).difference(quad(b00, b01, b10, b11)) =~= quad(
        a00.difference(b00),
        a01.difference(b01),
        a10.difference(b10),
        a11.difference(b11),
    ));
}

/// The symmetric difference of two block matrices is the matrix of the
/// blocks' symmetric differences.
pub proof fn lemma_quad_xor(a00: Rel, a01: Rel, a10: Rel, a11: Rel, b00: Rel, b01: Rel, b10: Rel, b11: Rel)
    ensures
        xor(quad(a00, a01, a10, a11), quad(b00, b01, b10, b11)) == quad(
            xor(a00, b00),
            xor(a01, b01),
            xor(a10, b10),
            xor(a11, b11),
        ),
{
    assert(xor(quad(a00, a01, a10, a11), quad(b00, b01, b10, b11)) =~= quad(
        xor(a00, b00),
        xor(a01, b01),
        xor(a10, b10),
        xor(a11, b11),
    ));
}

/// The complement of a block matrix is the matrix of the blocks' complements.
pub proof fn lemma_quad_complement(a00: Rel, a01: Rel, a10: Rel, a11: Rel, d: nat)
    ensures
        complement(quad(a00, a01, a10, a11), d + 1) == quad(
            complement(a00, d),
            complement(a01, d),
            complement(a10, d),
            complement(a11, d),
        ),
{
    assert(complement(quad(a00, a01, a10, a11), d + 1) =~= quad(
        complement(a00, d),
        complement(a01, d),
        complement(a10, d),
        complement(a11, d),
    ));
}

/// A matrix of empty blocks is empty.
pub proof fn lemma_quad_empty()
    ensures
        quad(empty(), empty(), empty(), empty()) == empty(),
{
    assert(quad(empty(), empty(), empty(), empty()) =~= empty());
}

/// A matrix of full blocks is full.
pub proof fn lemma_quad_full(d: nat)
    ensures
        quad(full(d), full(d), full(d), full(d)) == full(d + 1),
{
    assert(quad(full(d), full(d), full(d), full(d)) =~= full(d + 1));
}

/// The diagonal has the diagonal in its diagonal blocks and nothing elsewhere.
pub proof fn lemma_quad_identity(d: nat)
    ensures
        quad(identity(d), empty(), empty(), identity(d)) == identity(d + 1),
{
    let m = quad(identity(d), empty(), empty(), identity(d));
    assert forall|pq: (Packet, Packet)| m.contains(pq) == identity(d + 1).contains(pq) by {
        if m.contains(pq) {
            lemma_uncons(pq.0);
            lemma_uncons(pq.1);
        }
        if identity(d + 1).contains(pq) {
            assert(pq.1.drop_first() == pq.0.drop_first());
        }
    }
    assert(m =~= identity(d + 1));
}

/// A packet through which `a` and then `b` lead from `p` to `q`, where there is one.
pub open spec fn mid(a: Rel, b: Rel, p: Packet, q: Packet) -> Packet {
    choose|m: Packet| #[trigger] a.contains((p, m)) && b.contains((m, q))
}

/// A step of `a` followed by a step of `b` is a step of their composition.
pub proof fn lemma_compose_intro(a: Rel, b: Rel, p: Packet, m: Packet, q: Packet)
    requires
        a.contains((p, m)),
        b.contains((m, q)),
    ensures
        compose(a, b).contains((p, q)),
{
    assert(linked(a, b, p, q));
}

/// A step of a composition goes through some middle packet.
pub proof fn lemma_compose_elim(a: Rel, b: Rel, p: Packet, q: Packet)
    requires
        compose(a, b).contains((p, q)),
    ensures
        a.contains((p, mid(a, b, p, q))),
        b.contains((mid(a, b, p, q), q)),
{
    assert(linked(a, b, p, q));
}

/// Composition keeps the number of fields.
pub proof fn lemma_compose_typed(a: Rel, b: Rel, d: nat)
    requires
        typed(a, d),
        typed(b, d),
    ensures
        typed(compose(a, b), d),
{
    assert forall|p: Packet, q: Packet| #[trigger] compose(a, b).contains((p, q)) implies p.len() == d
        && q.len() == d by {
        lemma_compose_elim(a, b, p, q);
    }
}

/// Composition is associative.
pub proof fn lemma_compose_assoc(a: Rel, b: Rel, c: Rel)
    ensures
        compose(compose(a, b), c) == compose(a, compose(b, c)),
{
    let l = compose(compose(a, b), c);
    let r = compose(a, compose(b, c));
    assert forall|pq: (Packet, Packet)| l.contains(pq) == r.contains(pq) by {
        let p = pq.0;
        let q = pq.1;
        if l.contains(pq) {
            lemma_compose_elim(compose(a, b), c, p, q);
            let m2 = mid(compose(a, b), c, p, q);
            lemma_compose_elim(a, b, p, m2);
            let mr = mid(a, b, p, m2);
            lemma_compose_intro(b, c, mr, m2, q);
            lemma_compose_intro(a, compose(b, c), p, mr, q);
        }
        if r.contains(pq) {
            lemma_compose_elim(a, compose(b, c), p, q);
            let mr = mid(a, compose(b, c), p, q);
            lemma_compose_elim(b, c, mr, q);
            let m2 = mid(b, c, mr, q);
            lemma_compose_intro(a, b, p, mr, m2);
            lemma_compose_intro(compose(a, b), c, p, m2, q);
        }
    }
    assert(l =~= r);
}

/// Composition distributes over union on its left argument.
pub proof fn lemma_compose_union_left(a: Rel, b: Rel, c: Rel)
    ensures
        compose(a.union(b), c) == compose(a, c).union(compose(b, c)),
{
    let l = compose(a.union(b), c);
    let r = compose(a, c).union(compose(b, c));
    assert forall|pq: (Packet, Packet)| l.contains(pq) == r.contains(pq) by {
        let p = pq.0;
        let q = pq.1;
        if l.contains(pq) {
            lemma_compose_elim(a.union(b), c, p, q);
            let m = mid(a.union(b), c, p, q);
            if a.contains((p, m)) {
                lemma_compose_intro(a, c, p, m, q);
            } else {
                lemma_compose_intro(b, c, p, m, q);
            }
        }
        if compose(a, c).contains(pq) {
            lemma_compose_elim(a, c, p, q);
            lemma_compose_intro(a.union(b), c, p, mid(a, c, p, q), q);
        }
        if compose(b, c).contains(pq) {
            lemma_compose_elim(b, c, p, q);
            lemma_compose_intro(a.union(b), c, p, mid(b, c, p, q), q);
        }
    }
    assert(l =~= r);
}

/// Composition distributes over union on its right argument.
pub proof fn lemma_compose_union_right(a: Rel, b: Rel, c: Rel)
    ensures
        compose(a, b.union(c)) == compose(a, b).union(compose(a, c)),
{
    let l = compose(a, b.union(c));
    let r = compose(a, b).union(compose(a, c));
    assert forall|pq: (Packet, Packet)| l.contains(pq) == r.contains(pq) by {
        let p = pq.0;
        let q = pq.1;
        if l.contains(pq) {
            lemma_compose_elim(a, b.union(c), p, q);
            let m = mid(a, b.union(c), p, q);
            if b.contains((m, q)) {
                lemma_compose_intro(a, b, p, m, q);
            } else {
                lemma_compose_intro(a, c, p, m, q);
            }
        }
        if compose(a, b).contains(pq) {
            lemma_compose_elim(a, b, p, q);
            lemma_compose_intro(a, b.union(c), p, mid(a, b, p, q), q);
        }
        if compose(a, c).contains(pq) {
            lemma_compose_elim(a, c, p, q);
            lemma_compose_intro(a, b.union(c), p, mid(a, c, p, q), q);
        }
    }
    assert(l =~= r);
}

/// The diagonal is a left and right unit of composition.
pub proof fn lemma_compose_identity(a: Rel, d: nat)
    requires
        typed(a, d),
    ensures
        compose(identity(d), a) == a,
        compose(a, identity(d)) == a,
{
    let l = compose(identity(d), a);
    let r = compose(a, identity(d));
    assert forall|pq: (Packet, Packet)| l.contains(pq) == a.contains(pq) by {
        let p = pq.0;
        let q = pq.1;
        if l.contains(pq) {
            lemma_compose_elim(identity(d), a, p, q);
        }
        if a.contains(pq) {
            assert(a.contains((p, q)));
            lemma_compose_intro(identity(d), a, p, p, q);
        }
    }
    assert forall|pq: (Packet, Packet)| r.contains(pq) == a.contains(pq) by {
        let p = pq.0;
        let q = pq.1;
        if r.contains(pq) {
            lemma_compose_elim(a, identity(d), p, q);
        }
        if a.contains(pq) {
            assert(a.contains((p, q)));
            lemma_compose_intro(a, identity(d), p, q, q);
        }
    }
    assert(l =~= a);
    assert(r =~= a);
}

/// The empty relation annihilates composition on either side.
pub proof fn lemma_compose_empty(a: Rel)
    ensures
        compose(empty(), a) == empty(),
        compose(a, empty()) == empty(),
{
    assert forall|pq: (Packet, Packet)| !compose(empty(), a).contains(pq) by {
        if compose(empty(), a).contains(pq) {
            lemma_compose_elim(empty(), a, pq.0, pq.1);
        }
    }
    assert forall|pq: (Packet, Packet)| !compose(a, empty()).contains(pq) by {
        if compose(a, empty()).contains(pq) {
            lemma_compose_elim(a, empty(), pq.0, pq.1);
        }
    }
    assert(compose(empty(), a) =~= empty());
    assert(compose(a, empty()) =~= empty());
}

/// Composition is monotone in both arguments.
pub proof fn lemma_compose_monotone(a: Rel, b: Rel, c: Rel, e: Rel)
    requires
        a.subset_of(c),
        b.subset_of(e),
    ensures
        compose(a, b).subset_of(compose(c, e)),
{
    assert forall|pq: (Packet, Packet)| compose(a, b).contains(pq) implies compose(c, e).contains(pq) by {
        lemma_compose_elim(a, b, pq.0, pq.1);
        lemma_compose_intro(c, e, pq.0, mid(a, b, pq.0, pq.1), pq.1);
    }
}

/// The product of two block matrices is their matrix product, with
/// composition for multiplication and union for addition.
pub proof fn lemma_quad_compose(a00: Rel, a01: Rel, a10: Rel, a11: Rel, b00: Rel, b01: Rel, b10: Rel, b11: Rel)
    ensures
        compose(quad(a00, a01, a10, a11), quad(b00, b01, b10, b11)) == quad(
            compose(a00, b00).union(compose(a01, b10)),
            compose(a00, b01).union(compose(a01, b11)),
            compose(a10, b00).union(compose(a11, b10)),
            compose(a10, b01).union(compose(a11, b11)),
        ),
{
    let qa = quad(a00, a01, a10, a11);
    let qb = quad(b00, b01, b10, b11);
    let l = compose(qa, qb);
    let c00 = compose(a00, b00).union(compose(a01, b10));
    let c01 = compose(a00, b01).union(compose(a01, b11));
    let c10 = compose(a10, b00).union(compose(a11, b10));
    let c11 = compose(a10, b01).union(compose(a11, b11));
    let r = quad(c00, c01, c10, c11);
    assert forall|pq: (Packet, Packet)| l.contains(pq) == r.contains(pq) by {
        let p = pq.0;
        let q = pq.1;
        if l.contains(pq) {
            lemma_compose_elim(qa, qb, p, q);
            let m = mid(qa, qb, p, q);
            let x = pick(p[0], m[0], a00, a01, a10, a11);
            let y = pick(m[0], q[0], b00, b01, b10, b11);
            lemma_compose_intro(x, y, p.drop_first(), m.drop_first(), q.drop_first());
        }
        if r.contains(pq) {
            let pr = p.drop_first();
            let qr = q.drop_first();
            lemma_uncons(p);
            lemma_uncons(q);
            let x0 = pick(p[0], false, a00, a01, a10, a11);
            let y0 = pick(false, q[0], b00, b01, b10, b11);
            let x1 = pick(p[0], true, a00, a01, a10, a11);
            let y1 = pick(true, q[0], b00, b01, b10, b11);
            assert(compose(x0, y0).contains((pr, qr)) || compose(x1, y1).contains((pr, qr)));
            if compose(x0, y0).contains((pr, qr)) {
                lemma_compose_elim(x0, y0, pr, qr);
                let mr = mid(x0, y0, pr, qr);
                lemma_quad_contains(a00, a01, a10, a11, p[0], false, pr, mr);
                lemma_quad_contains(b00, b01, b10, b11, false, q[0], mr, qr);
                lemma_compose_intro(qa, qb, p, cons(false, mr), q);
            } else {
                lemma_compose_elim(x1, y1, pr, qr);
                let mr = mid(x1, y1, pr, qr);
                lemma_quad_contains(a00, a01, a10, a11, p[0], true, pr, mr);
                lemma_quad_contains(b00, b01, b10, b11, true, q[0], mr, qr);
                lemma_compose_intro(qa, qb, p, cons(true, mr), q);
            }
        }
    }
    assert(l =~= r);
}

/// A block matrix grows with its blocks.
pub proof fn lemma_quad_monotone(a00: Rel, a01: Rel, a10: Rel, a11: Rel, b00: Rel, b01: Rel, b10: Rel, b11: Rel)
    requires
        a00.subset_of(b00),
        a01.subset_of(b01),
        a10.subset_of(b10),
        a11.subset_of(b11),
    ensures
        quad(a00, a01, a10, a11).subset_of(quad(b00, b01, b10, b11)),
{
}

/// Steps of a relation on `d`-field packets stay among `d`-field packets.
pub proof fn lemma_power_typed(r: Rel, d: nat, n: nat)
    requires
        typed(r, d),
    ensures
        typed(power(r, d, n), d),
    decreases n,
{
    if n > 0 {
        lemma_power_typed(r, d, (n - 1) as nat);
        lemma_compose_typed(r, power(r, d, (n - 1) as nat), d);
    }
}

/// A number of steps in which `r` leads from the first packet of `pq` to the second, where there is one.
pub open spec fn steps(r: Rel, d: nat, pq: (Packet, Packet)) -> nat {
    choose|n: nat| #[trigger] power(r, d, n).contains(pq)
}

/// What `r` reaches in `n` steps, its closure reaches.
pub proof fn lemma_star_intro(r: Rel, d: nat, n: nat, pq: (Packet, Packet))
    requires
        power(r, d, n).contains(pq),
    ensures
        star(r, d).contains(pq),
{
}

/// What the closure of `r` reaches, `r` reaches in some number of steps.
pub proof fn lemma_star_elim(r: Rel, d: nat, pq: (Packet, Packet))
    requires
        star(r, d).contains(pq),
    ensures
        power(r, d, steps(r, d, pq)).contains(pq),
{
}

/// The closure of a relation on `d`-field packets is a relation on `d`-field packets.
pub proof fn lemma_star_typed(r: Rel, d: nat)
    requires
        typed(r, d),
    ensures
        typed(star(r, d), d),
{
    assert forall|p: Packet, q: Packet| #[trigger] star(r, d).contains((p, q)) implies p.len() == d && q.len()
        == d by {
        lemma_star_elim(r, d, (p, q));
        lemma_power_typed(r, d, steps(r, d, (p, q)));
    }
}

/// The closure is reflexive.
pub proof fn lemma_star_reflexive(r: Rel, d: nat)
    ensures
        identity(d).subset_of(star(r, d)),
{
    assert forall|pq: (Packet, Packet)| identity(d).contains(pq) implies star(r, d).contains(pq) by {
        lemma_star_intro(r, d, 0, pq);
    }
}

/// The closure contains the relation.
pub proof fn lemma_star_contains(r: Rel, d: nat)
    requires
        typed(r, d),
    ensures
        r.subset_of(star(r, d)),
{
    lemma_compose_identity(r, d);
    assert(power(r, d, 1) == compose(r, power(r, d, 0)));
    assert forall|pq: (Packet, Packet)| r.contains(pq) implies star(r, d).contains(pq) by {
        lemma_star_intro(r, d, 1, pq);
    }
}

/// Unrolling on the left: the closure is the diagonal together with one step
/// followed by the closure.
pub proof fn lemma_star_unroll_left(r: Rel, d: nat)
    ensures
        star(r, d) == identity(d).union(compose(r, star(r, d))),
{
    let l = star(r, d);
    let u = identity(d).union(compose(r, star(r, d)));
    assert forall|pq: (Packet, Packet)| l.contains(pq) == u.contains(pq) by {
        let p = pq.0;
        let q = pq.1;
        if l.contains(pq) {
            lemma_star_elim(r, d, pq);
            let n = steps(r, d, pq);
            if n > 0 {
                let rest = power(r, d, (n - 1) as nat);
                lemma_compose_elim(r, rest, p, q);
                let m = mid(r, rest, p, q);
                lemma_star_intro(r, d, (n - 1) as nat, (m, q));
                lemma_compose_intro(r, star(r, d), p, m, q);
            }
        }
        if identity(d).contains(pq) {
            lemma_star_intro(r, d, 0, pq);
        }
        if compose(r, star(r, d)).contains(pq) {
            lemma_compose_elim(r, star(r, d), p, q);
            let m = mid(r, star(r, d), p, q);
            lemma_star_elim(r, d, (m, q));
            let n = steps(r, d, (m, q));
            lemma_compose_intro(r, power(r, d, n), p, m, q);
            lemma_star_intro(r, d, n + 1, pq);
        }
    }
    assert(l =~= u);
}

/// A relation closed under a step of `r` in front is closed under any number of them.
pub proof fn lemma_power_induction(r: Rel, x: Rel, d: nat, n: nat)
    requires
        compose(r, x).subset_of(x),
    ensures
        compose(power(r, d, n), x).subset_of(x),
    decreases n,
{
    if n == 0 {
        assert forall|pq: (Packet, Packet)| compose(identity(d), x).contains(pq) implies x.contains(pq) by {
            lemma_compose_elim(identity(d), x, pq.0, pq.1);
        }
    } else {
        let rest = power(r, d, (n - 1) as nat);
        lemma_power_induction(r, x, d, (n - 1) as nat);
        lemma_compose_assoc(r, rest, x);
        lemma_compose_monotone(r, compose(rest, x), r, x);
    }
}

/// Induction: a relation closed under a step of `r` in front is closed under
/// the closure of `r` in front.
pub proof fn lemma_star_induction(r: Rel, x: Rel, d: nat)
    requires
        compose(r, x).subset_of(x),
    ensures
        compose(star(r, d), x).subset_of(x),
{
    assert forall|pq: (Packet, Packet)| compose(star(r, d), x).contains(pq) implies x.contains(pq) by {
        lemma_compose_elim(star(r, d), x, pq.0, pq.1);
        let m = mid(star(r, d), x, pq.0, pq.1);
        lemma_star_elim(r, d, (pq.0, m));
        let n = steps(r, d, (pq.0, m));
        lemma_power_induction(r, x, d, n);
        lemma_compose_intro(power(r, d, n), x, pq.0, m, pq.1);
    }
}

/// Any number of steps of `r` stays within a reflexive relation closed under a step of `r` in front.
pub proof fn lemma_power_least(r: Rel, x: Rel, d: nat, n: nat)
    requires
        identity(d).subset_of(x),
        compose(r, x).subset_of(x),
    ensures
        power(r, d, n).subset_of(x),
    decreases n,
{
    if n > 0 {
        lemma_power_least(r, x, d, (n - 1) as nat);
        lemma_compose_monotone(r, power(r, d, (n - 1) as nat), r, x);
    }
}

/// The closure of `r` is the least reflexive relation closed under a step of `r` in front.
pub proof fn lemma_star_least(r: Rel, x: Rel, d: nat)
    requires
        identity(d).subset_of(x),
        compose(r, x).subset_of(x),
    ensures
        star(r, d).subset_of(x),
{
    assert forall|pq: (Packet, Packet)| star(r, d).contains(pq) implies x.contains(pq) by {
        lemma_star_elim(r, d, pq);
        lemma_power_least(r, x, d, steps(r, d, pq));
    }
}

/// The closure is transitive.
pub proof fn lemma_star_transitive(r: Rel, d: nat)
    ensures
        compose(star(r, d), star(r, d)).subset_of(star(r, d)),
{
    lemma_star_unroll_left(r, d);
    lemma_star_induction(r, star(r, d), d);
}

/// A step in front of `n` steps is a step behind `n` steps.
pub proof fn lemma_power_commute(r: Rel, d: nat, n: nat)
    requires
        typed(r, d),
    ensures
        compose(r, power(r, d, n)) == compose(power(r, d, n), r),
    decreases n,
{
    if n == 0 {
        lemma_compose_identity(r, d);
    } else {
        let rest = power(r, d, (n - 1) as nat);
        lemma_power_commute(r, d, (n - 1) as nat);
        lemma_compose_assoc(r, rest, r);
    }
}

/// Unrolling on the right: the closure is the diagonal together with the
/// closure followed by one step.
pub proof fn lemma_star_unroll_right(r: Rel, d: nat)
    requires
        typed(r, d),
    ensures
        star(r, d) == identity(d).union(compose(star(r, d), r)),
{
    let l = star(r, d);
    let u = identity(d).union(compose(star(r, d), r));
    assert forall|pq: (Packet, Packet)| l.contains(pq) == u.contains(pq) by {
        let p = pq.0;
        let q = pq.1;
        if l.contains(pq) {
            lemma_star_elim(r, d, pq);
            let n = steps(r, d, pq);
            if n > 0 {
                let rest = power(r, d, (n - 1) as nat);
                lemma_power_commute(r, d, (n - 1) as nat);
                lemma_compose_elim(rest, r, p, q);
                let m = mid(rest, r, p, q);
                lemma_star_intro(r, d, (n - 1) as nat, (p, m));
                lemma_compose_intro(star(r, d), r, p, m, q);
            }
        }
        if identity(d).contains(pq) {
            lemma_star_intro(r, d, 0, pq);
        }
        if compose(star(r, d), r).contains(pq) {
            lemma_compose_elim(star(r, d), r, p, q);
            let m = mid(star(r, d), r, p, q);
            lemma_star_elim(r, d, (p, m));
            let n = steps(r, d, (p, m));
            lemma_compose_intro(power(r, d, n), r, p, m, q);
            lemma_power_commute(r, d, n);
            lemma_star_intro(r, d, n + 1, pq);
        }
    }
    assert(l =~= u);
}

/// The closure of a closure is that closure.
pub proof fn lemma_star_idempotent(r: Rel, d: nat)
    requires
        typed(r, d),
    ensures
        star(star(r, d), d) == star(r, d),
{
    lemma_star_typed(r, d);
    lemma_star_contains(star(r, d), d);
    lemma_star_reflexive(r, d);
    lemma_star_transitive(r, d);
    lemma_star_least(star(r, d), star(r, d), d);
    assert(star(star(r, d), d) =~= star(r, d));
}

/// The closure of the empty relation is the diagonal.
pub proof fn lemma_star_empty(d: nat)
    ensures
        star(empty(), d) == identity(d),
{
    lemma_compose_empty(identity(d));
    lemma_star_least(empty(), identity(d), d);
    lemma_star_reflexive(empty(), d);
    assert(star(empty(), d) =~= identity(d));
}

/// The closure of the diagonal is the diagonal.
pub proof fn lemma_star_identity(d: nat)
    ensures
        star(identity(d), d) == identity(d),
{
    lemma_compose_identity(identity(d), d);
    lemma_star_least(identity(d), identity(d), d);
    lemma_star_reflexive(identity(d), d);
    assert(star(identity(d), d) =~= identity(d));
}

/// The block matrix with `x` as the block for input bit `v` and output bit `w`, and nothing elsewhere.
pub open spec fn embed(v: bool, w: bool, x: Rel) -> Rel {
    Set::new(
        |pq: (Packet, Packet)|
            pq.0.len() > 0 && pq.1.len() > 0 && pq.0[0] == v && pq.1[0] == w && x.contains(
                (pq.0.drop_first(), pq.1.drop_first()),
            ),
    )
}

/// A block matrix lies within `s` when each of its blocks, taken alone, does.
pub proof fn lemma_quad_from_blocks(r00: Rel, r01: Rel, r10: Rel, r11: Rel, s: Rel)
    requires
        embed(false, false, r00).subset_of(s),
        embed(false, true, r01).subset_of(s),
        embed(true, false, r10).subset_of(s),
        embed(true, true, r11).subset_of(s),
    ensures
        quad(r00, r01, r10, r11).subset_of(s),
{
    assert forall|pq: (Packet, Packet)| quad(r00, r01, r10, r11).contains(pq) implies s.contains(pq) by {
        assert(embed(pq.0[0], pq.1[0], pick(pq.0[0], pq.1[0], r00, r01, r10, r11)).contains(pq));
    }
}

/// Each block of a block matrix, taken alone, lies within the matrix.
pub proof fn lemma_blocks_in_quad(r00: Rel, r01: Rel, r10: Rel, r11: Rel)
    ensures
        embed(false, false, r00).subset_of(quad(r00, r01, r10, r11)),
        embed(false, true, r01).subset_of(quad(r00, r01, r10, r11)),
        embed(true, false, r10).subset_of(quad(r00, r01, r10, r11)),
        embed(true, true, r11).subset_of(quad(r00, r01, r10, r11)),
{
}

/// Inside a transitive relation, a block from `v` to `u` and a block from `u`
/// to `w` give the block of their composition from `v` to `w`.
pub proof fn lemma_embed_compose(v: bool, u: bool, w: bool, x: Rel, y: Rel, s: Rel)
    requires
        embed(v, u, x).subset_of(s),
        embed(u, w, y).subset_of(s),
        compose(s, s).subset_of(s),
    ensures
        embed(v, w, compose(x, y)).subset_of(s),
{
    assert forall|pq: (Packet, Packet)| embed(v, w, compose(x, y)).contains(pq) implies s.contains(pq) by {
        let p = pq.0;
        let q = pq.1;
        let pr = p.drop_first();
        let qr = q.drop_first();
        lemma_compose_elim(x, y, pr, qr);
        let mr = mid(x, y, pr, qr);
        let m = cons(u, mr);
        lemma_cons(u, mr);
        assert(embed(v, u, x).contains((p, m)));
        assert(embed(u, w, y).contains((m, q)));
        lemma_compose_intro(s, s, p, m, q);
    }
}

/// Inside a relation, two blocks at one place give the block of their union.
pub proof fn lemma_embed_union(v: bool, w: bool, x: Rel, y: Rel, s: Rel)
    requires
        embed(v, w, x).subset_of(s),
        embed(v, w, y).subset_of(s),
    ensures
        embed(v, w, x.union(y)).subset_of(s),
{
    assert forall|pq: (Packet, Packet)| embed(v, w, x.union(y)).contains(pq) implies s.contains(pq) by {
        if x.contains((pq.0.drop_first(), pq.1.drop_first())) {
            assert(embed(v, w, x).contains(pq));
        } else {
            assert(embed(v, w, y).contains(pq));
        }
    }
}

/// Inside a reflexive and transitive relation on `d + 1`-field packets, a
/// diagonal block gives the block of any number of its steps.
pub proof fn lemma_embed_power(v: bool, x: Rel, s: Rel, d: nat, n: nat)
    requires
        embed(v, v, x).subset_of(s),
        identity(d + 1).subset_of(s),
        compose(s, s).subset_of(s),
    ensures
        embed(v, v, power(x, d, n)).subset_of(s),
    decreases n,
{
    if n == 0 {
        assert forall|pq: (Packet, Packet)| embed(v, v, identity(d)).contains(pq) implies s.contains(pq) by {
            lemma_uncons(pq.0);
            lemma_uncons(pq.1);
            assert(identity(d + 1).contains(pq));
        }
    } else {
        lemma_embed_power(v, x, s, d, (n - 1) as nat);
        lemma_embed_compose(v, v, v, x, power(x, d, (n - 1) as nat), s);
    }
}

/// Inside a reflexive and transitive relation on `d + 1`-field packets, a
/// diagonal block gives the block of its closure.
pub proof fn lemma_embed_star(v: bool, x: Rel, s: Rel, d: nat)
    requires
        embed(v, v, x).subset_of(s),
        identity(d + 1).subset_of(s),
        compose(s, s).subset_of(s),
    ensures
        embed(v, v, star(x, d)).subset_of(s),
{
    assert forall|pq: (Packet, Packet)| embed(v, v, star(x, d)).contains(pq) implies s.contains(pq) by {
        let pq1 = (pq.0.drop_first(), pq.1.drop_first());
        lemma_star_elim(x, d, pq1);
        let n = steps(x, d, pq1);
        lemma_embed_power(v, x, s, d, n);
        assert(embed(v, v, power(x, d, n)).contains(pq));
    }
}

/// The four blocks that the closure of the block matrix `(a, b; c, e)` is
/// made of: with `e* = star(e)`, `x = b e*`, `f = star(a + x c)`, `y = c f`
/// and `g = e* y`, they are `(f, f x; g, e* + g x)`.
pub open spec fn star_blocks(a: Rel, b: Rel, c: Rel, e: Rel, d: nat) -> (Rel, Rel, Rel, Rel) {
    let es = star(e, d);
    let x = compose(b, es);
    let f = star(a.union(compose(x, c)), d);
    let g = compose(es, compose(c, f));
    (f, compose(f, x), g, es.union(compose(g, x)))
}

/// The closure of a block matrix contains the matrix of `star_blocks`.
pub proof fn lemma_star_blocks_below(a: Rel, b: Rel, c: Rel, e: Rel, d: nat)
    requires
        typed(a, d),
        typed(b, d),
        typed(c, d),
        typed(e, d),
    ensures
        ({
            let r = star_blocks(a, b, c, e, d);
            quad(r.0, r.1, r.2, r.3).subset_of(star(quad(a, b, c, e), d + 1))
        }),
{
    let m = quad(a, b, c, e);
    let s = star(m, d + 1);
    let es = star(e, d);
    let x = compose(b, es);
    let xc = compose(x, c);
    let f = star(a.union(xc), d);
    let y = compose(c, f);
    let g = compose(es, y);
    lemma_quad_typed(a, b, c, e, d);
    lemma_star_contains(m, d + 1);
    lemma_star_reflexive(m, d + 1);
    lemma_star_transitive(m, d + 1);
    lemma_blocks_in_quad(a, b, c, e);
    lemma_embed_star(true, e, s, d);
    lemma_embed_compose(false, true, true, b, es, s);
    lemma_embed_compose(false, true, false, x, c, s);
    lemma_embed_union(false, false, a, xc, s);
    lemma_embed_star(false, a.union(xc), s, d);
    lemma_embed_compose(false, false, true, f, x, s);
    lemma_embed_compose(true, false, false, c, f, s);
    lemma_embed_compose(true, true, false, es, y, s);
    lemma_embed_compose(true, false, true, g, x, s);
    lemma_embed_union(true, true, es, compose(g, x), s);
    lemma_quad_from_blocks(f, compose(f, x), g, es.union(compose(g, x)), s);
}

/// The matrix of `star_blocks` is closed under a step of the block matrix in front.
pub proof fn lemma_star_blocks_closed(a: Rel, b: Rel, c: Rel, e: Rel, d: nat)
    requires
        typed(a, d),
        typed(b, d),
        typed(c, d),
        typed(e, d),
    ensures
        ({
            let r = star_blocks(a, b, c, e, d);
            &&& compose(a, r.0).union(compose(b, r.2)).subset_of(r.0)
            &&& compose(a, r.1).union(compose(b, r.3)).subset_of(r.1)
            &&& compose(c, r.0).union(compose(e, r.2)).subset_of(r.2)
            &&& compose(c, r.1).union(compose(e, r.3)).subset_of(r.3)
        }),
{
    let es = star(e, d);
    let x = compose(b, es);
    let xc = compose(x, c);
    let h = a.union(xc);
    let f = star(h, d);
    let y = compose(c, f);
    let g = compose(es, y);
    let gx = compose(g, x);
    lemma_star_typed(e, d);
    lemma_compose_typed(b, es, d);
    lemma_compose_typed(x, c, d);
    lemma_star_typed(h, d);
    lemma_compose_typed(c, f, d);
    lemma_compose_typed(es, y, d);
    lemma_star_unroll_left(h, d);
    lemma_star_unroll_left(e, d);
    // b g = (x c) f, so a f + b g = h f, which lies within f.
    lemma_compose_assoc(b, es, y);
    lemma_compose_assoc(x, c, f);
    lemma_compose_union_left(a, xc, f);
    let af_bg = compose(a, f).union(compose(b, g));
    assert(af_bg == compose(h, f));
    assert(af_bg.subset_of(f));
    // a (f x) + b (e* + g x) = (a f + b g) x + x, which lies within f x.
    lemma_compose_assoc(a, f, x);
    lemma_compose_union_right(b, es, gx);
    lemma_compose_assoc(b, g, x);
    lemma_compose_union_left(compose(a, f), compose(b, g), x);
    lemma_compose_monotone(af_bg, x, f, x);
    lemma_compose_identity(x, d);
    lemma_compose_monotone(identity(d), x, f, x);
    // c f + e g = y + (e e*) y, which lies within e* y = g.
    lemma_compose_assoc(e, es, y);
    lemma_compose_identity(y, d);
    lemma_compose_monotone(identity(d), y, es, y);
    lemma_compose_monotone(compose(e, es), y, es, y);
    let cf_eg = compose(c, f).union(compose(e, g));
    assert(cf_eg.subset_of(g));
    // c (f x) + e (e* + g x) = (c f + e g) x + e e*, which lies within g x + e*.
    lemma_compose_assoc(c, f, x);
    lemma_compose_union_right(e, es, gx);
    lemma_compose_assoc(e, g, x);
    lemma_compose_union_left(compose(c, f), compose(e, g), x);
    lemma_compose_monotone(cf_eg, x, g, x);
}

/// The closure of a block matrix, block by block.
pub proof fn lemma_quad_star(a: Rel, b: Rel, c: Rel, e: Rel, d: nat)
    requires
        typed(a, d),
        typed(b, d),
        typed(c, d),
        typed(e, d),
    ensures
        ({
            let r = star_blocks(a, b, c, e, d);
            star(quad(a, b, c, e), d + 1) == quad(r.0, r.1, r.2, r.3)
        }),
{
    let r = star_blocks(a, b, c, e, d);
    let m = quad(a, b, c, e);
    let k = quad(r.0, r.1, r.2, r.3);
    lemma_star_blocks_below(a, b, c, e, d);
    lemma_star_blocks_closed(a, b, c, e, d);
    lemma_quad_compose(a, b, c, e, r.0, r.1, r.2, r.3);
    lemma_quad_monotone(
        compose(a, r.0).union(compose(b, r.2)),
        compose(a, r.1).union(compose(b, r.3)),
        compose(c, r.0).union(compose(e, r.2)),
        compose(c, r.1).union(compose(e, r.3)),
        r.0,
        r.1,
        r.2,
        r.3,
    );
    lemma_quad_identity(d);
    lemma_star_reflexive(a.union(compose(compose(b, star(e, d)), c)), d);
    lemma_star_reflexive(e, d);
    lemma_quad_monotone(identity(d), empty(), empty(), identity(d), r.0, r.1, r.2, r.3);
    lemma_star_least(m, k, d + 1);
    assert(star(m, d + 1) =~= k);
}

/// A branch on the first field takes from each argument the block that the
/// argument is chosen for.
pub proof fn lemma_quad_branch_here(
    a: (Rel, Rel, Rel, Rel),
    b: (Rel, Rel, Rel, Rel),
    c: (Rel, Rel, Rel, Rel),
    e: (Rel, Rel, Rel, Rel),
)
    ensures
        branch(0, quad(a.0, a.1, a.2, a.3), quad(b.0, b.1, b.2, b.3), quad(c.0, c.1, c.2, c.3), quad(e.0, e.1, e.2, e.3))
            == quad(a.0, b.1, c.2, e.3),
{
    assert(branch(
        0,
        quad(a.0, a.1, a.2, a.3),
        quad(b.0, b.1, b.2, b.3),
        quad(c.0, c.1, c.2, c.3),
        quad(e.0, e.1, e.2, e.3),
    ) =~= quad(a.0, b.1, c.2, e.3));
}

/// A branch on a later field is, block by block, the branch one field
/// earlier between the corresponding blocks of the arguments.
pub proof fn lemma_quad_branch_below(
    var: nat,
    a: (Rel, Rel, Rel, Rel),
    b: (Rel, Rel, Rel, Rel),
    c: (Rel, Rel, Rel, Rel),
    e: (Rel, Rel, Rel, Rel),
)
    ensures
        branch(
            var + 1,
            quad(a.0, a.1, a.2, a.3),
            quad(b.0, b.1, b.2, b.3),
            quad(c.0, c.1, c.2, c.3),
            quad(e.0, e.1, e.2, e.3),
        ) == quad(
            branch(var, a.0, b.0, c.0, e.0),
            branch(var, a.1, b.1, c.1, e.1),
            branch(var, a.2, b.2, c.2, e.2),
            branch(var, a.3, b.3, c.3, e.3),
        ),
{
    let l = branch(
        var + 1,
        quad(a.0, a.1, a.2, a.3),
        quad(b.0, b.1, b.2, b.3),
        quad(c.0, c.1, c.2, c.3),
        quad(e.0, e.1, e.2, e.3),
    );
    let r = quad(
        branch(var, a.0, b.0, c.0, e.0),
        branch(var, a.1, b.1, c.1, e.1),
        branch(var, a.2, b.2, c.2, e.2),
        branch(var, a.3, b.3, c.3, e.3),
    );
    assert forall|pq: (Packet, Packet)| l.contains(pq) == r.contains(pq) by {
        let p = pq.0;
        let q = pq.1;
        if p.len() > 0 && q.len() > 0 {
            let pr = p.drop_first();
            let qr = q.drop_first();
            assert(pr.len() == p.len() - 1 && qr.len() == q.len() - 1);
            if var < pr.len() && var < qr.len() {
                assert(pr[var as int] == p[var as int + 1]);
                assert(qr[var as int] == q[var as int + 1]);
            }
        }
    }
    assert(l =~= r);
}

/// A test is a branch on the tested field between the diagonal and the empty relation.
pub proof fn lemma_branch_test(var: nat, d: nat)
    requires
        var < d,
    ensures
        branch(var, empty(), empty(), identity(d), identity(d)) == test(var, true, d),
        branch(var, identity(d), identity(d), empty(), empty()) == test(var, false, d),
{
    assert(branch(var, empty(), empty(), identity(d), identity(d)) =~= test(var, true, d));
    assert(branch(var, identity(d), identity(d), empty(), empty()) =~= test(var, false, d));
}

/// An assignment to the first field sends every input bit to the assigned
/// bit and leaves the other fields as they are.
pub proof fn lemma_quad_assign_here(d: nat)
    ensures
        quad(empty(), identity(d), empty(), identity(d)) == assign(0, true, d + 1),
        quad(identity(d), empty(), identity(d), empty()) == assign(0, false, d + 1),
{
    let t = quad(empty(), identity(d), empty(), identity(d));
    let f = quad(identity(d), empty(), identity(d), empty());
    assert forall|pq: (Packet, Packet)|
        t.contains(pq) == assign(0, true, d + 1).contains(pq) && f.contains(pq) == assign(0, false, d + 1).contains(
            pq,
        ) by {
        let p = pq.0;
        let q = pq.1;
        if p.len() > 0 && q.len() > 0 {
            lemma_uncons(p);
            lemma_uncons(q);
            assert(p.update(0, true) =~= cons(true, p.drop_first()));
            assert(p.update(0, false) =~= cons(false, p.drop_first()));
            lemma_cons(true, p.drop_first());
            lemma_cons(false, p.drop_first());
        }
    }
    assert(t =~= assign(0, true, d + 1));
    assert(f =~= assign(0, false, d + 1));
}

/// An assignment to a later field keeps the first field and assigns one
/// field earlier in the rest.
pub proof fn lemma_quad_assign_below(var: nat, value: bool, d: nat)
    requires
        var < d,
    ensures
        quad(assign(var, value, d), empty(), empty(), assign(var, value, d)) == assign(var + 1, value, d + 1),
{
    let l = quad(assign(var, value, d), empty(), empty(), assign(var, value, d));
    let r = assign(var + 1, value, d + 1);
    assert forall|pq: (Packet, Packet)| l.contains(pq) == r.contains(pq) by {
        let p = pq.0;
        let q = pq.1;
        if p.len() > 0 && q.len() > 0 {
            let pr = p.drop_first();
            lemma_uncons(p);
            lemma_uncons(q);
            if p.len() == d + 1 {
                assert(p.update(var as int + 1, value) =~= cons(p[0], pr.update(var as int, value)));
                lemma_cons(p[0], pr.update(var as int, value));
            }
        }
    }
    assert(l =~= r);
}

/// The position, among all combinations of four out of `n` items in
/// lexicographic order, of the combination `(i, j, k, l)`.
pub open spec fn position(n: int, i: int, j: int, k: int, l: int) -> int {
    ((i * n + j) * n + k) * n + l
}

/// All relations on `d`-field packets, each once: first the empty one and the
/// diagonal on packets without fields, then level by level every block matrix
/// of four relations of the level before, in lexicographic order of the
/// blocks' own positions.
pub open spec fn all_rels(d: nat) -> Seq<Rel>
    decreases d,
{
    if d == 0 {
        seq![empty(), identity(0)]
    } else {
        let prev = all_rels((d - 1) as nat);
        let n = prev.len() as int;
        Seq::new(
            (n * n * n * n) as nat,
            |at: int| quad(prev[at / n / n / n], prev[(at / n / n) % n], prev[(at / n) % n], prev[at % n]),
        )
    }
}

/// A position determines its combination.
pub proof fn lemma_position(n: int, i: int, j: int, k: int, l: int)
    requires
        0 <= i < n,
        0 <= j < n,
        0 <= k < n,
        0 <= l < n,
    ensures
        ({
            let at = position(n, i, j, k, l);
            &&& 0 <= at < n * n * n * n
            &&& at / n / n / n == i
            &&& (at / n / n) % n == j
            &&& (at / n) % n == k
            &&& at % n == l
        }),
{
    let at = position(n, i, j, k, l);
    let a2 = (i * n + j) * n + k;
    let a1 = i * n + j;
    vstd::arithmetic::div_mod::lemma_fundamental_div_mod_converse(at, n, a2, l);
    vstd::arithmetic::div_mod::lemma_fundamental_div_mod_converse(a2, n, a1, k);
    vstd::arithmetic::div_mod::lemma_fundamental_div_mod_converse(a1, n, i, j);
    assert(0 <= at < n * n * n * n) by (nonlinear_arith)
        requires
            at == ((i * n + j) * n + k) * n + l,
            0 <= i < n,
            0 <= j < n,
            0 <= k < n,
            0 <= l < n,
    {
        assert(i * n + j <= (n - 1) * n + (n - 1));
        assert((i * n + j) * n + k <= ((n - 1) * n + (n - 1)) * n + (n - 1));
    }
}

/// The relation at the position of a combination is the block matrix of the
/// relations at the combination's four places.
pub proof fn lemma_all_rels_at(d: nat, i: int, j: int, k: int, l: int)
    requires
        0 <= i < all_rels(d).len(),
        0 <= j < all_rels(d).len(),
        0 <= k < all_rels(d).len(),
        0 <= l < all_rels(d).len(),
    ensures
        ({
            let prev = all_rels(d);
            let n = prev.len() as int;
            &&& all_rels(d + 1).len() == n * n * n * n
            &&& 0 <= position(n, i, j, k, l) < n * n * n * n
            &&& all_rels(d + 1)[position(n, i, j, k, l)] == quad(prev[i], prev[j], prev[k], prev[l])
        }),
{
    let n = all_rels(d).len() as int;
    lemma_position(n, i, j, k, l);
    assert(n * n * n * n >= 0);
}

/// The block of `r` for the input bit `v` and the output bit `w`: what `r`
/// relates once these bits are taken off the front.
pub open spec fn block(r: Rel, v: bool, w: bool) -> Rel {
    Set::new(|pq: (Packet, Packet)| r.contains((cons(v, pq.0), cons(w, pq.1))))
}

/// A relation on packets with a first field is the block matrix of its four blocks.
pub proof fn lemma_quad_of_blocks(r: Rel, d: nat)
    requires
        typed(r, d + 1),
    ensures
        r == quad(block(r, false, false), block(r, false, true), block(r, true, false), block(r, true, true)),
        typed(block(r, false, false), d),
        typed(block(r, false, true), d),
        typed(block(r, true, false), d),
        typed(block(r, true, true), d),
{
    let q = quad(block(r, false, false), block(r, false, true), block(r, true, false), block(r, true, true));
    assert forall|pq: (Packet, Packet)| r.contains(pq) == q.contains(pq) by {
        if r.contains(pq) {
            assert(r.contains((pq.0, pq.1)));
            lemma_uncons(pq.0);
            lemma_uncons(pq.1);
        }
        if q.contains(pq) {
            lemma_uncons(pq.0);
            lemma_uncons(pq.1);
        }
    }
    assert(r =~= q);
    assert forall|v: bool, w: bool, p: Packet, s: Packet| #[trigger]
        block(r, v, w).contains((p, s)) implies p.len() == d && s.len() == d by {
        assert(r.contains((cons(v, p), cons(w, s))));
        lemma_cons(v, p);
        lemma_cons(w, s);
    }
}

/// Every relation of `all_rels(d)` is a relation on `d`-field packets.
pub proof fn lemma_all_rels_typed(d: nat, at: int)
    requires
        0 <= at < all_rels(d).len(),
    ensures
        typed(all_rels(d)[at], d),
    decreases d,
{
    if d > 0 {
        let prev = all_rels((d - 1) as nat);
        let n = prev.len() as int;
        lemma_unposition(n, at);
        lemma_all_rels_typed((d - 1) as nat, at / n / n / n);
        lemma_all_rels_typed((d - 1) as nat, (at / n / n) % n);
        lemma_all_rels_typed((d - 1) as nat, (at / n) % n);
        lemma_all_rels_typed((d - 1) as nat, at % n);
        lemma_quad_typed(
            prev[at / n / n / n],
            prev[(at / n / n) % n],
            prev[(at / n) % n],
            prev[at % n],
            (d - 1) as nat,
        );
    }
}

/// A position below `n * n * n * n` is the position of the combination it
/// determines, and that combination is one of four out of `n`.
pub proof fn lemma_unposition(n: int, at: int)
    requires
        0 <= n,
        0 <= at < n * n * n * n,
    ensures
        n > 0,
        0 <= at / n / n / n < n,
        0 <= (at / n / n) % n < n,
        0 <= (at / n) % n < n,
        0 <= at % n < n,
        at == position(n, at / n / n / n, (at / n / n) % n, (at / n) % n, at % n),
{
    assert(n > 0) by (nonlinear_arith)
        requires
            0 <= n,
            0 < n * n * n * n,
    ;
    let a1 = at / n;
    let a2 = a1 / n;
    let a3 = a2 / n;
    vstd::arithmetic::div_mod::lemma_fundamental_div_mod(at, n);
    vstd::arithmetic::div_mod::lemma_fundamental_div_mod(a1, n);
    vstd::arithmetic::div_mod::lemma_fundamental_div_mod(a2, n);
    vstd::arithmetic::div_mod::lemma_mod_bound(at, n);
    vstd::arithmetic::div_mod::lemma_mod_bound(a1, n);
    vstd::arithmetic::div_mod::lemma_mod_bound(a2, n);
    vstd::arithmetic::div_mod::lemma_div_pos_is_pos(at, n);
    vstd::arithmetic::div_mod::lemma_div_pos_is_pos(a1, n);
    vstd::arithmetic::div_mod::lemma_div_pos_is_pos(a2, n);
    assert(a1 < n * n * n) by (nonlinear_arith)
        requires
            at == n * a1 + at % n,
            0 <= at % n,
            at < n * n * n * n,
            n > 0,
            a1 >= 0,
    ;
    assert(a2 < n * n) by (nonlinear_arith)
        requires
            a1 == n * a2 + a1 % n,
            0 <= a1 % n,
            a1 < n * n * n,
            n > 0,
            a2 >= 0,
    ;
    assert(a3 < n) by (nonlinear_arith)
        requires
            a2 == n * a3 + a2 % n,
            0 <= a2 % n,
            a2 < n * n,
            n > 0,
            a3 >= 0,
    ;
    assert(at == ((a3 * n + a2 % n) * n + a1 % n) * n + at % n) by (nonlinear_arith)
        requires
            at == n * a1 + at % n,
            a1 == n * a2 + a1 % n,
            a2 == n * a3 + a2 % n,
    ;
}

/// `all_rels(d)` lists every relation on `d`-field packets.
pub proof fn lemma_all_rels_complete(d: nat, r: Rel)
    requires
        typed(r, d),
    ensures
        exists|at: int| 0 <= at < all_rels(d).len() && #[trigger] all_rels(d)[at] == r,
    decreases d,
{
    if d == 0 {
        let nil = Seq::<bool>::empty();
        if r.contains((nil, nil)) {
            assert forall|pq: (Packet, Packet)| r.contains(pq) == identity(0).contains(pq) by {
                if r.contains(pq) {
                    assert(r.contains((pq.0, pq.1)));
                    assert(pq.0 =~= pq.1);
                }
                if identity(0).contains(pq) {
                    assert(pq.0 =~= nil);
                    assert(pq.1 =~= nil);
                    assert(pq == (nil, nil));
                }
            }
            assert(r =~= identity(0));
            assert(all_rels(0)[1] == r);
        } else {
            assert forall|pq: (Packet, Packet)| !r.contains(pq) by {
                if r.contains(pq) {
                    assert(r.contains((pq.0, pq.1)));
                    assert(pq.0 =~= nil);
                    assert(pq.1 =~= nil);
                }
            }
            assert(r =~= empty());
            assert(all_rels(0)[0] == r);
        }
    } else {
        let e = (d - 1) as nat;
        lemma_quad_of_blocks(r, e);
        lemma_all_rels_complete(e, block(r, false, false));
        lemma_all_rels_complete(e, block(r, false, true));
        lemma_all_rels_complete(e, block(r, true, false));
        lemma_all_rels_complete(e, block(r, true, true));
        let i = choose|at: int| 0 <= at < all_rels(e).len() && #[trigger] all_rels(e)[at] == block(r, false, false);
        let j = choose|at: int| 0 <= at < all_rels(e).len() && #[trigger] all_rels(e)[at] == block(r, false, true);
        let k = choose|at: int| 0 <= at < all_rels(e).len() && #[trigger] all_rels(e)[at] == block(r, true, false);
        let l = choose|at: int| 0 <= at < all_rels(e).len() && #[trigger] all_rels(e)[at] == block(r, true, true);
        lemma_all_rels_at(e, i, j, k, l);
        let n = all_rels(e).len() as int;
        assert(all_rels(d)[position(n, i, j, k, l)] == r);
    }
}

/// `all_rels(d)` lists no relation twice.
pub proof fn lemma_all_rels_distinct(d: nat, at: int, to: int)
    requires
        0 <= at < all_rels(d).len(),
        0 <= to < all_rels(d).len(),
        all_rels(d)[at] == all_rels(d)[to],
    ensures
        at == to,
    decreases d,
{
    if d == 0 {
        let nil = Seq::<bool>::empty();
        assert(identity(0).contains((nil, nil)));
    } else {
        let e = (d - 1) as nat;
        let prev = all_rels(e);
        let n = prev.len() as int;
        lemma_unposition(n, at);
        lemma_unposition(n, to);
        lemma_quad_injective(
            prev[at / n / n / n],
            prev[(at / n / n) % n],
            prev[(at / n) % n],
            prev[at % n],
            prev[to / n / n / n],
            prev[(to / n / n) % n],
            prev[(to / n) % n],
            prev[to % n],
        );
        lemma_all_rels_distinct(e, at / n / n / n, to / n / n / n);
        lemma_all_rels_distinct(e, (at / n / n) % n, (to / n / n) % n);
        lemma_all_rels_distinct(e, (at / n) % n, (to / n) % n);
        lemma_all_rels_distinct(e, at % n, to % n);
    }
}

} // verus!
