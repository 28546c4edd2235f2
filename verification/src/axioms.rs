//! The axioms, proved of the trace semantics: the laws of Kleene algebra and
//! of Boolean algebra, the packet axioms and the expansion laws of temporal
//! logic hold of the sets of traces that expressions denote. What the fuzzer
//! builds by these axioms is therefore equivalent, or contained, as it claims.

use crate::relation::{identity, Packet, Rel};
use crate::semantics::{
    back, cut, front, l_dup, l_end, l_finally, l_globally, l_next, l_not, l_power, l_rel, l_seq, l_star, l_top,
    l_until, holds_until, suffix, trace_wf, within, Lang, Trace,
};
use vstd::prelude::*;

verus! {

/// A place and a packet at which `t` can be cut into a trace of `a` and a
/// trace of `b`, where there is one.
pub open spec fn cut_of(a: Lang, b: Lang, t: Trace) -> (int, Packet) {
    choose|c: (int, Packet)| cut(a, b, t, c.0, c.1)
}

/// A trace that can be cut into a trace of `a` and a trace of `b` is a trace
/// of `a` followed by `b`.
pub proof fn lemma_seq_intro(a: Lang, b: Lang, t: Trace, i: int, m: Packet)
    requires
        cut(a, b, t, i, m),
    ensures
        l_seq(a, b).contains(t),
{
}

/// A trace of `a` followed by `b` can be cut into a trace of `a` and a trace of `b`.
pub proof fn lemma_seq_elim(a: Lang, b: Lang, t: Trace)
    requires
        l_seq(a, b).contains(t),
    ensures
        cut(a, b, t, cut_of(a, b, t).0, cut_of(a, b, t).1),
{
    let (i, m) = choose|i: int, m: Packet| #[trigger] cut(a, b, t, i, m);
    assert(cut(a, b, t, (i, m).0, (i, m).1));
}

/// A trace cut in two is a trace over packets of `k` fields when its parts are.
pub proof fn lemma_cut_wf(t: Trace, i: int, m: Packet, k: nat)
    requires
        0 <= i < t.hist.len(),
        trace_wf(front(t, i, m), k),
        trace_wf(back(t, i, m), k),
    ensures
        trace_wf(t, k),
{
    assert forall|j: int| 0 <= j < t.hist.len() implies (#[trigger] t.hist[j]).len() == k by {
        if j < i {
            assert(front(t, i, m).hist[j] == t.hist[j]);
        } else {
            assert(back(t, i, m).hist[j - i] == t.hist[j]);
        }
    }
}

/// The parts of a trace over packets of `k` fields, cut at a packet of `k`
/// fields, are traces over packets of `k` fields.
pub proof fn lemma_parts_wf(t: Trace, i: int, m: Packet, k: nat)
    requires
        0 <= i < t.hist.len(),
        trace_wf(t, k),
        m.len() == k,
    ensures
        trace_wf(front(t, i, m), k),
        trace_wf(back(t, i, m), k),
{
    assert forall|j: int| 0 <= j < front(t, i, m).hist.len() implies (#[trigger] front(t, i, m).hist[j]).len()
        == k by {
        if j < i {
            assert(front(t, i, m).hist[j] == t.hist[j]);
        }
    }
    assert forall|j: int| 0 <= j < back(t, i, m).hist.len() implies (#[trigger] back(t, i, m).hist[j]).len()
        == k by {
        assert(back(t, i, m).hist[j] == t.hist[j + i]);
    }
}

/// Sequence keeps to packets of `k` fields.
pub proof fn lemma_seq_within(a: Lang, b: Lang, k: nat)
    requires
        within(a, k),
        within(b, k),
    ensures
        within(l_seq(a, b), k),
{
    assert forall|t: Trace| #[trigger] l_seq(a, b).contains(t) implies trace_wf(t, k) by {
        lemma_seq_elim(a, b, t);
        let c = cut_of(a, b, t);
        lemma_cut_wf(t, c.0, c.1, k);
    }
}

/// Sequence is associative.
pub proof fn lemma_seq_assoc(a: Lang, b: Lang, c: Lang)
    ensures
        l_seq(l_seq(a, b), c) == l_seq(a, l_seq(b, c)),
{
    let l = l_seq(l_seq(a, b), c);
    let r = l_seq(a, l_seq(b, c));
    assert forall|t: Trace| l.contains(t) == r.contains(t) by {
        if l.contains(t) {
            lemma_seq_elim(l_seq(a, b), c, t);
            let (i2, m2) = cut_of(l_seq(a, b), c, t);
            let f = front(t, i2, m2);
            lemma_seq_elim(a, b, f);
            let (i1, m1) = cut_of(a, b, f);
            assert(front(f, i1, m1).hist =~= front(t, i1, m1).hist);
            let g = back(t, i1, m1);
            assert(front(g, i2 - i1, m2).hist =~= back(f, i1, m1).hist);
            assert(back(g, i2 - i1, m2).hist =~= back(t, i2, m2).hist);
            assert(cut(b, c, g, i2 - i1, m2));
            lemma_seq_intro(b, c, g, i2 - i1, m2);
            assert(cut(a, l_seq(b, c), t, i1, m1));
        }
        if r.contains(t) {
            lemma_seq_elim(a, l_seq(b, c), t);
            let (i1, m1) = cut_of(a, l_seq(b, c), t);
            let g = back(t, i1, m1);
            lemma_seq_elim(b, c, g);
            let (j, m2) = cut_of(b, c, g);
            let i2 = i1 + j;
            let f = front(t, i2, m2);
            assert(front(f, i1, m1).hist =~= front(t, i1, m1).hist);
            assert(back(f, i1, m1).hist =~= front(g, j, m2).hist);
            assert(back(t, i2, m2).hist =~= back(g, j, m2).hist);
            assert(cut(a, b, f, i1, m1));
            lemma_seq_intro(a, b, f, i1, m1);
            assert(cut(l_seq(a, b), c, t, i2, m2));
        }
    }
    assert(l =~= r);
}

/// The identity is a left and right unit of sequence.
pub proof fn lemma_seq_one(a: Lang, k: nat)
    requires
        within(a, k),
    ensures
        l_seq(l_rel(identity(k), k), a) == a,
        l_seq(a, l_rel(identity(k), k)) == a,
{
    let one = l_rel(identity(k), k);
    assert forall|t: Trace| l_seq(one, a).contains(t) == a.contains(t) by {
        if l_seq(one, a).contains(t) {
            lemma_seq_elim(one, a, t);
            let (i, m) = cut_of(one, a, t);
            assert(front(t, i, m).hist[0] == m);
            assert(back(t, i, m).hist =~= t.hist);
        }
        if a.contains(t) {
            assert(back(t, 0, t.input).hist =~= t.hist);
            assert(front(t, 0, t.input).hist =~= seq![t.input]);
            assert(cut(one, a, t, 0, t.input));
        }
    }
    assert forall|t: Trace| l_seq(a, one).contains(t) == a.contains(t) by {
        let n = t.hist.len() as int;
        if l_seq(a, one).contains(t) {
            lemma_seq_elim(a, one, t);
            let (i, m) = cut_of(a, one, t);
            assert(back(t, i, m).hist[0] == t.hist[i]);
            assert(front(t, i, m).hist =~= t.hist);
        }
        if a.contains(t) {
            let m = t.hist[n - 1];
            assert(front(t, n - 1, m).hist =~= t.hist);
            assert(back(t, n - 1, m).hist =~= seq![m]);
            assert(cut(a, one, t, n - 1, m));
        }
    }
    assert(l_seq(one, a) =~= a);
    assert(l_seq(a, one) =~= a);
}

/// The empty set annihilates sequence on either side.
pub proof fn lemma_seq_zero(a: Lang)
    ensures
        l_seq(Set::empty(), a) == Set::<Trace>::empty(),
        l_seq(a, Set::empty()) == Set::<Trace>::empty(),
{
    assert forall|t: Trace| !l_seq(Set::empty(), a).contains(t) by {
        if l_seq(Set::empty(), a).contains(t) {
            lemma_seq_elim(Set::empty(), a, t);
        }
    }
    assert forall|t: Trace| !l_seq(a, Set::empty()).contains(t) by {
        if l_seq(a, Set::empty()).contains(t) {
            lemma_seq_elim(a, Set::empty(), t);
        }
    }
    assert(l_seq(Set::empty(), a) =~= Set::<Trace>::empty());
    assert(l_seq(a, Set::empty()) =~= Set::<Trace>::empty());
}

/// Sequence is monotone in both arguments.
pub proof fn lemma_seq_monotone(a: Lang, b: Lang, c: Lang, e: Lang)
    requires
        a.subset_of(c),
        b.subset_of(e),
    ensures
        l_seq(a, b).subset_of(l_seq(c, e)),
{
    assert forall|t: Trace| l_seq(a, b).contains(t) implies l_seq(c, e).contains(t) by {
        lemma_seq_elim(a, b, t);
        let (i, m) = cut_of(a, b, t);
        assert(cut(c, e, t, i, m));
    }
}

/// Sequence distributes over union on both sides.
pub proof fn lemma_seq_union(a: Lang, b: Lang, c: Lang)
    ensures
        l_seq(a, b.union(c)) == l_seq(a, b).union(l_seq(a, c)),
        l_seq(a.union(b), c) == l_seq(a, c).union(l_seq(b, c)),
{
    assert forall|t: Trace| l_seq(a, b.union(c)).contains(t) == l_seq(a, b).union(l_seq(a, c)).contains(t) by {
        if l_seq(a, b.union(c)).contains(t) {
            lemma_seq_elim(a, b.union(c), t);
            let (i, m) = cut_of(a, b.union(c), t);
            if b.contains(back(t, i, m)) {
                assert(cut(a, b, t, i, m));
            } else {
                assert(cut(a, c, t, i, m));
            }
        }
        if l_seq(a, b).contains(t) {
            lemma_seq_elim(a, b, t);
            let (i, m) = cut_of(a, b, t);
            assert(cut(a, b.union(c), t, i, m));
        }
        if l_seq(a, c).contains(t) {
            lemma_seq_elim(a, c, t);
            let (i, m) = cut_of(a, c, t);
            assert(cut(a, b.union(c), t, i, m));
        }
    }
    assert forall|t: Trace| l_seq(a.union(b), c).contains(t) == l_seq(a, c).union(l_seq(b, c)).contains(t) by {
        if l_seq(a.union(b), c).contains(t) {
            lemma_seq_elim(a.union(b), c, t);
            let (i, m) = cut_of(a.union(b), c, t);
            if a.contains(front(t, i, m)) {
                assert(cut(a, c, t, i, m));
            } else {
                assert(cut(b, c, t, i, m));
            }
        }
        if l_seq(a, c).contains(t) {
            lemma_seq_elim(a, c, t);
            let (i, m) = cut_of(a, c, t);
            assert(cut(a.union(b), c, t, i, m));
        }
        if l_seq(b, c).contains(t) {
            lemma_seq_elim(b, c, t);
            let (i, m) = cut_of(b, c, t);
            assert(cut(a.union(b), c, t, i, m));
        }
    }
    assert(l_seq(a, b.union(c)) =~= l_seq(a, b).union(l_seq(a, c)));
    assert(l_seq(a.union(b), c) =~= l_seq(a, c).union(l_seq(b, c)));
}

/// A number of rounds of `a` in which `t` is a trace of its iteration, where there is one.
pub open spec fn rounds(a: Lang, k: nat, t: Trace) -> nat {
    choose|n: nat| #[trigger] l_power(a, k, n).contains(t)
}

/// Rounds of a set of traces over packets of `k` fields keep to such packets.
pub proof fn lemma_power_within(a: Lang, k: nat, n: nat)
    requires
        within(a, k),
    ensures
        within(l_power(a, k, n), k),
    decreases n,
{
    if n > 0 {
        lemma_power_within(a, k, (n - 1) as nat);
        lemma_seq_within(a, l_power(a, k, (n - 1) as nat), k);
    }
}

/// Iteration keeps to packets of `k` fields.
pub proof fn lemma_star_within(a: Lang, k: nat)
    requires
        within(a, k),
    ensures
        within(l_star(a, k), k),
{
    assert forall|t: Trace| #[trigger] l_star(a, k).contains(t) implies trace_wf(t, k) by {
        lemma_power_within(a, k, rounds(a, k, t));
    }
}

/// Unrolling on the left: an iteration is no round at all, or one round
/// followed by an iteration.
pub proof fn lemma_star_unroll_left(a: Lang, k: nat)
    ensures
        l_star(a, k) == l_rel(identity(k), k).union(l_seq(a, l_star(a, k))),
{
    let one = l_rel(identity(k), k);
    let l = l_star(a, k);
    let u = one.union(l_seq(a, l));
    assert forall|t: Trace| l.contains(t) == u.contains(t) by {
        if l.contains(t) {
            let n = rounds(a, k, t);
            if n > 0 {
                let rest = l_power(a, k, (n - 1) as nat);
                lemma_seq_elim(a, rest, t);
                let (i, m) = cut_of(a, rest, t);
                assert(l.contains(back(t, i, m)));
                assert(cut(a, l, t, i, m));
            }
        }
        if one.contains(t) {
            assert(l_power(a, k, 0).contains(t));
        }
        if l_seq(a, l).contains(t) {
            lemma_seq_elim(a, l, t);
            let (i, m) = cut_of(a, l, t);
            let n = rounds(a, k, back(t, i, m));
            assert(cut(a, l_power(a, k, n), t, i, m));
            assert(l_power(a, k, n + 1).contains(t));
        }
    }
    assert(l =~= u);
}

/// A round in front of `n` rounds is a round behind `n` rounds.
pub proof fn lemma_power_commute(a: Lang, k: nat, n: nat)
    requires
        within(a, k),
    ensures
        l_seq(a, l_power(a, k, n)) == l_seq(l_power(a, k, n), a),
    decreases n,
{
    if n == 0 {
        lemma_seq_one(a, k);
    } else {
        let rest = l_power(a, k, (n - 1) as nat);
        lemma_power_commute(a, k, (n - 1) as nat);
        lemma_seq_assoc(a, rest, a);
    }
}

/// Unrolling on the right: an iteration is no round at all, or an iteration
/// followed by one round.
pub proof fn lemma_star_unroll_right(a: Lang, k: nat)
    requires
        within(a, k),
    ensures
        l_star(a, k) == l_rel(identity(k), k).union(l_seq(l_star(a, k), a)),
{
    let one = l_rel(identity(k), k);
    let l = l_star(a, k);
    let u = one.union(l_seq(l, a));
    assert forall|t: Trace| l.contains(t) == u.contains(t) by {
        if l.contains(t) {
            let n = rounds(a, k, t);
            if n > 0 {
                let rest = l_power(a, k, (n - 1) as nat);
                lemma_power_commute(a, k, (n - 1) as nat);
                lemma_seq_elim(rest, a, t);
                let (i, m) = cut_of(rest, a, t);
                assert(l.contains(front(t, i, m)));
                assert(cut(l, a, t, i, m));
            }
        }
        if one.contains(t) {
            assert(l_power(a, k, 0).contains(t));
        }
        if l_seq(l, a).contains(t) {
            lemma_seq_elim(l, a, t);
            let (i, m) = cut_of(l, a, t);
            let n = rounds(a, k, front(t, i, m));
            assert(cut(l_power(a, k, n), a, t, i, m));
            lemma_power_commute(a, k, n);
            assert(l_power(a, k, n + 1).contains(t));
        }
    }
    assert(l =~= u);
}

/// A relation on packets, taken as a set of traces, keeps to packets of `k` fields.
pub proof fn lemma_rel_within(r: Rel, k: nat)
    ensures
        within(l_rel(r, k), k),
        l_rel(Set::empty(), k) == Set::<Trace>::empty(),
{
    assert(l_rel(Set::empty(), k) =~= Set::<Trace>::empty());
}

/// Relations on packets, taken as sets of traces, unite as relations do.
pub proof fn lemma_rel_union(r: Rel, s: Rel, k: nat)
    ensures
        l_rel(r, k).union(l_rel(s, k)) == l_rel(r.union(s), k),
{
    assert(l_rel(r, k).union(l_rel(s, k)) =~= l_rel(r.union(s), k));
}

/// Relations on packets, taken as sets of traces, follow one another as
/// relations compose.
pub proof fn lemma_rel_seq(r: Rel, s: Rel, k: nat)
    requires
        crate::relation::typed(r, k) || crate::relation::typed(s, k),
    ensures
        l_seq(l_rel(r, k), l_rel(s, k)) == l_rel(crate::relation::compose(r, s), k),
{
    let a = l_rel(r, k);
    let b = l_rel(s, k);
    let c = l_rel(crate::relation::compose(r, s), k);
    assert forall|t: Trace| l_seq(a, b).contains(t) == c.contains(t) by {
        if l_seq(a, b).contains(t) {
            lemma_seq_elim(a, b, t);
            let (i, m) = cut_of(a, b, t);
            assert(front(t, i, m).hist[0] == m);
            assert(back(t, i, m).hist[0] == t.hist[i]);
            lemma_cut_wf(t, i, m, k);
            crate::relation::lemma_compose_intro(r, s, t.input, m, t.hist[0]);
        }
        if c.contains(t) {
            crate::relation::lemma_compose_elim(r, s, t.input, t.hist[0]);
            let m = crate::relation::mid(r, s, t.input, t.hist[0]);
            lemma_parts_wf(t, 0, m, k);
            assert(front(t, 0, m).hist[0] == m);
            assert(back(t, 0, m).hist[0] == t.hist[0]);
            assert(cut(a, b, t, 0, m));
        }
    }
    assert(l_seq(a, b) =~= c);
}

/// Tests and assignments are relations on packets of `k` fields.
pub proof fn lemma_atoms_typed(f: nat, v: bool, k: nat)
    ensures
        crate::relation::typed(crate::relation::test(f, v, k), k),
        crate::relation::typed(crate::relation::assign(f, v, k), k),
        crate::relation::typed(identity(k), k),
{
}

/// `dup` commutes with a test.
pub proof fn lemma_dup_test(f: nat, v: bool, k: nat)
    ensures
        l_seq(l_dup(k), l_rel(crate::relation::test(f, v, k), k)) == l_seq(
            l_rel(crate::relation::test(f, v, k), k),
            l_dup(k),
        ),
{
    let d = l_dup(k);
    let q = l_rel(crate::relation::test(f, v, k), k);
    let both = Set::new(|t: Trace| d.contains(t) && f < k && t.input[f as int] == v);
    assert forall|t: Trace| l_seq(d, q).contains(t) == both.contains(t) by {
        if l_seq(d, q).contains(t) {
            lemma_seq_elim(d, q, t);
            let (i, m) = cut_of(d, q, t);
            let fr = front(t, i, m);
            assert(fr.hist.len() == 2);
            assert(fr.hist[0] == t.hist[0] && fr.hist[1] == m);
            assert(back(t, i, m).hist[0] == t.hist[1]);
            lemma_cut_wf(t, i, m, k);
            assert(t.hist =~= seq![t.input, t.input]);
        }
        if both.contains(t) {
            assert(front(t, 1, t.input).hist =~= t.hist);
            assert(back(t, 1, t.input).hist =~= seq![t.input]);
            assert(cut(d, q, t, 1, t.input));
        }
    }
    assert forall|t: Trace| l_seq(q, d).contains(t) == both.contains(t) by {
        if l_seq(q, d).contains(t) {
            lemma_seq_elim(q, d, t);
            let (i, m) = cut_of(q, d, t);
            assert(front(t, i, m).hist[0] == m);
            assert(back(t, i, m).hist =~= t.hist);
            lemma_cut_wf(t, i, m, k);
        }
        if both.contains(t) {
            assert(front(t, 0, t.input).hist =~= seq![t.input]);
            assert(back(t, 0, t.input).hist =~= t.hist);
            assert(cut(q, d, t, 0, t.input));
        }
    }
    assert(l_seq(d, q) =~= both);
    assert(l_seq(q, d) =~= both);
}

/// What is left of a trace from a point on is a trace, and what is left of
/// that from a further point on is what is left of the trace from the sum of
/// the two points on.
pub proof fn lemma_suffix(t: Trace, i: int, j: int, k: nat)
    requires
        trace_wf(t, k),
        0 <= i,
        0 <= j,
        i + j < t.hist.len(),
    ensures
        trace_wf(suffix(t, i), k),
        suffix(t, i).hist.len() == t.hist.len() - i,
        suffix(suffix(t, i), j) == suffix(t, i + j),
{
    let s = suffix(t, i);
    assert forall|n: int| 0 <= n < s.hist.len() implies (#[trigger] s.hist[n]).len() == k by {
        assert(s.hist[n] == t.hist[n + i]);
    }
    if i > 0 && j > 0 {
        assert(s.hist.skip(j) =~= t.hist.skip(i + j));
    }
}

/// Not finally is globally not, and not globally is finally not.
pub proof fn lemma_finally_globally(a: Lang, k: nat)
    ensures
        l_not(l_finally(a, k), k) == l_globally(l_not(a, k), k),
        l_not(l_globally(a, k), k) == l_finally(l_not(a, k), k),
{
    let na = l_not(a, k);
    assert forall|t: Trace| l_not(l_finally(a, k), k).contains(t) == l_globally(na, k).contains(t) by {
        if trace_wf(t, k) {
            if l_not(l_finally(a, k), k).contains(t) {
                assert forall|i: int| 0 <= i < t.hist.len() implies na.contains(#[trigger] suffix(t, i)) by {
                    lemma_suffix(t, i, 0, k);
                }
            }
            if l_globally(na, k).contains(t) && l_finally(a, k).contains(t) {
                let i = choose|i: int| 0 <= i < t.hist.len() && a.contains(#[trigger] suffix(t, i));
                assert(na.contains(suffix(t, i)));
            }
        }
    }
    assert forall|t: Trace| l_not(l_globally(a, k), k).contains(t) == l_finally(na, k).contains(t) by {
        if trace_wf(t, k) {
            if l_not(l_globally(a, k), k).contains(t) {
                let i = choose|i: int| 0 <= i < t.hist.len() && !a.contains(#[trigger] suffix(t, i));
                lemma_suffix(t, i, 0, k);
                assert(na.contains(suffix(t, i)));
            }
            if l_finally(na, k).contains(t) {
                let i = choose|i: int| 0 <= i < t.hist.len() && na.contains(#[trigger] suffix(t, i));
                assert(!a.contains(suffix(t, i)));
            }
        }
    }
    assert(l_not(l_finally(a, k), k) =~= l_globally(na, k));
    assert(l_not(l_globally(a, k), k) =~= l_finally(na, k));
}

/// Not next is the end or next not; next goes through union and intersection.
pub proof fn lemma_next(a: Lang, b: Lang, k: nat)
    ensures
        l_not(l_next(a, k), k) == l_end(k).union(l_next(l_not(a, k), k)),
        l_next(a.intersect(b), k) == l_next(a, k).intersect(l_next(b, k)),
        l_next(a.union(b), k) == l_next(a, k).union(l_next(b, k)),
{
    assert forall|t: Trace|
        l_not(l_next(a, k), k).contains(t) == l_end(k).union(l_next(l_not(a, k), k)).contains(t) by {
        if trace_wf(t, k) && t.hist.len() >= 2 {
            lemma_suffix(t, 1, 0, k);
        }
    }
    assert(l_not(l_next(a, k), k) =~= l_end(k).union(l_next(l_not(a, k), k)));
    assert(l_next(a.intersect(b), k) =~= l_next(a, k).intersect(l_next(b, k)));
    assert(l_next(a.union(b), k) =~= l_next(a, k).union(l_next(b, k)));
}

/// Finally holds now or next finally.
pub proof fn lemma_finally_unfold(a: Lang, k: nat)
    requires
        within(a, k),
    ensures
        l_finally(a, k) == a.union(l_next(l_finally(a, k), k)),
{
    let f = l_finally(a, k);
    let u = a.union(l_next(f, k));
    assert forall|t: Trace| f.contains(t) == u.contains(t) by {
        if f.contains(t) {
            let i = choose|i: int| 0 <= i < t.hist.len() && a.contains(#[trigger] suffix(t, i));
            if i > 0 {
                lemma_suffix(t, 1, i - 1, k);
                assert(a.contains(suffix(suffix(t, 1), i - 1)));
                assert(f.contains(suffix(t, 1)));
            }
        }
        if a.contains(t) {
            assert(a.contains(suffix(t, 0)));
        }
        if l_next(f, k).contains(t) {
            let s = suffix(t, 1);
            let i = choose|i: int| 0 <= i < s.hist.len() && a.contains(#[trigger] suffix(s, i));
            lemma_suffix(t, 1, i, k);
            assert(a.contains(suffix(t, i + 1)));
        }
    }
    assert(f =~= u);
}

/// Globally holds now and, unless this is the end, next globally.
pub proof fn lemma_globally_unfold(a: Lang, k: nat)
    ensures
        l_globally(a, k) == a.intersect(l_end(k).union(l_next(l_globally(a, k), k))),
{
    let g = l_globally(a, k);
    let u = a.intersect(l_end(k).union(l_next(g, k)));
    assert forall|t: Trace| g.contains(t) == u.contains(t) by {
        if g.contains(t) {
            assert(a.contains(suffix(t, 0)));
            if t.hist.len() >= 2 {
                let s = suffix(t, 1);
                lemma_suffix(t, 1, 0, k);
                assert forall|i: int| 0 <= i < s.hist.len() implies a.contains(#[trigger] suffix(s, i)) by {
                    lemma_suffix(t, 1, i, k);
                    assert(a.contains(suffix(t, i + 1)));
                }
            }
        }
        if u.contains(t) {
            assert forall|i: int| 0 <= i < t.hist.len() implies a.contains(#[trigger] suffix(t, i)) by {
                if i > 0 {
                    let s = suffix(t, 1);
                    lemma_suffix(t, 1, i - 1, k);
                    assert(a.contains(suffix(s, i - 1)));
                }
            }
        }
    }
    assert(g =~= u);
}

/// Until holds when the second holds now, or the first holds now and until
/// holds next.
pub proof fn lemma_until_unfold(a: Lang, b: Lang, k: nat)
    requires
        within(b, k),
    ensures
        l_until(a, b, k) == b.union(a.intersect(l_next(l_until(a, b, k), k))),
{
    let u = l_until(a, b, k);
    let r = b.union(a.intersect(l_next(u, k)));
    assert forall|t: Trace| u.contains(t) == r.contains(t) by {
        if u.contains(t) {
            let i = choose|i: int| #[trigger] holds_until(a, b, t, i);
            if i > 0 {
                let s = suffix(t, 1);
                lemma_suffix(t, 1, i - 1, k);
                assert(a.contains(suffix(t, 0)));
                assert forall|j: int| 0 <= j < i - 1 implies a.contains(#[trigger] suffix(s, j)) by {
                    lemma_suffix(t, 1, j, k);
                    assert(a.contains(suffix(t, j + 1)));
                }
                assert(holds_until(a, b, s, i - 1));
            }
        }
        if b.contains(t) {
            assert(holds_until(a, b, t, 0));
        }
        if a.contains(t) && l_next(u, k).contains(t) {
            let s = suffix(t, 1);
            let i = choose|i: int| #[trigger] holds_until(a, b, s, i);
            lemma_suffix(t, 1, i, k);
            assert forall|j: int| 0 <= j < i + 1 implies a.contains(#[trigger] suffix(t, j)) by {
                if j > 0 {
                    lemma_suffix(t, 1, j - 1, k);
                    assert(a.contains(suffix(s, j - 1)));
                }
            }
            assert(holds_until(a, b, t, i + 1));
        }
    }
    assert(u =~= r);
}

/// The operators of temporal logic keep to packets of `k` fields.
pub proof fn lemma_ltl_within(a: Lang, b: Lang, k: nat)
    ensures
        within(l_top(k), k),
        within(l_end(k), k),
        within(l_dup(k), k),
        within(l_not(a, k), k),
        within(l_next(a, k), k),
        within(l_finally(a, k), k),
        within(l_globally(a, k), k),
        within(l_until(a, b, k), k),
{
}

} // verus!
