//! Derivatives of sets of traces. What an expression does splits into what it
//! does without recording anything, a relation on packets, and what it does
//! up to and after its first recording: for every input packet the set of
//! runs that are left once the first recording is over. The symbolic
//! automaton computes both, operator by operator, by the equations proved here.

use crate::axioms::{
    cut_of, lemma_finally_unfold, lemma_globally_unfold, lemma_power_within, lemma_seq_elim,
    lemma_star_unroll_left, lemma_star_within, lemma_until_unfold, rounds,
};
use crate::relation::{complement, compose, empty, full, identity, power, star, typed, Packet, Rel};
use crate::semantics::{
    back, cut, front, l_dup, l_end, l_finally, l_globally, l_next, l_not, l_power, l_rel, l_seq, l_star, l_top,
    l_until, l_xor, step, suffix, trace_wf, within, Lang, Trace,
};
use vstd::prelude::*;

verus! {

/// The run `t` with a recording of its input packet put in front, started on `input`.
pub open spec fn cons_trace(input: Packet, t: Trace) -> Trace {
    Trace { input, hist: seq![t.input] + t.hist }
}

/// What `l` does without recording anything: the pairs of an input and an
/// output packet of `k` fields between which `l` has a run that records nothing.
pub open spec fn eps_of(l: Lang, k: nat) -> Rel {
    Set::new(|pq: (Packet, Packet)| pq.0.len() == k && pq.1.len() == k && l.contains(step(pq.0, pq.1)))
}

/// What is left of `l` after a first recording, started on `input`: the runs
/// that, recorded once and started on `input`, are runs of `l`.
pub open spec fn der(l: Lang, input: Packet) -> Lang {
    Set::new(|t: Trace| t.hist.len() >= 1 && l.contains(cons_trace(input, t)))
}

/// A run with a recording in front is a run when the run is, and the run is
/// what is left of it after that recording.
pub proof fn lemma_cons_trace(input: Packet, t: Trace, k: nat)
    ensures
        t.hist.len() >= 1 ==> (trace_wf(cons_trace(input, t), k) <==> input.len() == k && trace_wf(t, k)),
        cons_trace(input, t).hist.len() == t.hist.len() + 1,
        t.hist.len() >= 1 ==> suffix(cons_trace(input, t), 1) == t,
{
    let c = cons_trace(input, t);
    if trace_wf(c, k) {
        assert(c.hist[0] == t.input);
        assert forall|i: int| 0 <= i < t.hist.len() implies (#[trigger] t.hist[i]).len() == k by {
            assert(c.hist[i + 1] == t.hist[i]);
        }
    }
    if input.len() == k && trace_wf(t, k) {
        assert forall|i: int| 0 <= i < c.hist.len() implies (#[trigger] c.hist[i]).len() == k by {
            if i > 0 {
                assert(c.hist[i] == t.hist[i - 1]);
            }
        }
    }
    if t.hist.len() >= 1 {
        assert(c.hist.skip(1) =~= t.hist);
    }
}

/// A run that records something is what is left of it after the first
/// recording, with that recording put in front.
pub proof fn lemma_uncons_trace(t: Trace)
    requires
        t.hist.len() >= 2,
    ensures
        t == cons_trace(t.input, suffix(t, 1)),
{
    assert(t.hist =~= seq![t.hist[0]] + t.hist.skip(1));
}

/// A run that records nothing is a step from its input to its output.
pub proof fn lemma_unstep(t: Trace)
    requires
        t.hist.len() == 1,
    ensures
        t == step(t.input, t.hist[0]),
{
    assert(t.hist =~= seq![t.hist[0]]);
}

/// Without recording, the Boolean operators act on relations as on sets of runs.
pub proof fn lemma_eps_boolean(a: Lang, b: Lang, k: nat)
    ensures
        eps_of(Set::empty(), k) == empty(),
        eps_of(a.union(b), k) == eps_of(a, k).union(eps_of(b, k)),
        eps_of(a.intersect(b), k) == eps_of(a, k).intersect(eps_of(b, k)),
        eps_of(a.difference(b), k) == eps_of(a, k).difference(eps_of(b, k)),
        eps_of(l_xor(a, b), k) == crate::relation::xor(eps_of(a, k), eps_of(b, k)),
        eps_of(l_not(a, k), k) == complement(eps_of(a, k), k),
        typed(eps_of(a, k), k),
{
    assert(eps_of(Set::empty(), k) =~= empty());
    assert(eps_of(a.union(b), k) =~= eps_of(a, k).union(eps_of(b, k)));
    assert(eps_of(a.intersect(b), k) =~= eps_of(a, k).intersect(eps_of(b, k)));
    assert(eps_of(a.difference(b), k) =~= eps_of(a, k).difference(eps_of(b, k)));
    assert(eps_of(l_xor(a, b), k) =~= crate::relation::xor(eps_of(a, k), eps_of(b, k)));
    assert forall|pq: (Packet, Packet)| eps_of(l_not(a, k), k).contains(pq) == complement(eps_of(a, k), k).contains(
        pq,
    ) by {
        if pq.0.len() == k && pq.1.len() == k {
            assert(trace_wf(step(pq.0, pq.1), k));
        }
    }
    assert(eps_of(l_not(a, k), k) =~= complement(eps_of(a, k), k));
}

/// Without recording, the constants and the predicates of temporal logic.
pub proof fn lemma_eps_atoms(a: Lang, b: Lang, r: Rel, k: nat)
    ensures
        eps_of(l_top(k), k) == full(k),
        eps_of(l_end(k), k) == full(k),
        eps_of(l_dup(k), k) == empty(),
        typed(r, k) ==> eps_of(l_rel(r, k), k) == r,
        eps_of(l_next(a, k), k) == empty(),
        within(a, k) ==> eps_of(l_finally(a, k), k) == eps_of(a, k),
        within(a, k) ==> eps_of(l_globally(a, k), k) == eps_of(a, k),
        within(b, k) ==> eps_of(l_until(a, b, k), k) == eps_of(b, k),
{
    assert forall|pq: (Packet, Packet)| eps_of(l_top(k), k).contains(pq) == full(k).contains(pq) by {
        if pq.0.len() == k && pq.1.len() == k {
            assert(trace_wf(step(pq.0, pq.1), k));
        }
    }
    assert(eps_of(l_top(k), k) =~= full(k));
    assert(eps_of(l_end(k), k) =~= eps_of(l_top(k), k));
    assert(eps_of(l_dup(k), k) =~= empty());
    assert(eps_of(l_next(a, k), k) =~= empty());
    if typed(r, k) {
        assert forall|pq: (Packet, Packet)| eps_of(l_rel(r, k), k).contains(pq) == r.contains(pq) by {
            if r.contains(pq) {
                assert(r.contains((pq.0, pq.1)));
                assert(trace_wf(step(pq.0, pq.1), k));
            }
        }
        assert(eps_of(l_rel(r, k), k) =~= r);
    }
    if within(a, k) {
        assert forall|pq: (Packet, Packet)| eps_of(l_finally(a, k), k).contains(pq) == eps_of(a, k).contains(pq) by {
            let t = step(pq.0, pq.1);
            if eps_of(l_finally(a, k), k).contains(pq) {
                let i = choose|i: int| 0 <= i < t.hist.len() && a.contains(#[trigger] suffix(t, i));
                assert(i == 0);
            }
            if eps_of(a, k).contains(pq) {
                assert(a.contains(suffix(t, 0)));
            }
        }
        assert(eps_of(l_finally(a, k), k) =~= eps_of(a, k));
        assert forall|pq: (Packet, Packet)| eps_of(l_globally(a, k), k).contains(pq) == eps_of(a, k).contains(
            pq,
        ) by {
            let t = step(pq.0, pq.1);
            if eps_of(l_globally(a, k), k).contains(pq) {
                assert(a.contains(suffix(t, 0)));
            }
        }
        assert(eps_of(l_globally(a, k), k) =~= eps_of(a, k));
    }
    if within(b, k) {
        assert forall|pq: (Packet, Packet)| eps_of(l_until(a, b, k), k).contains(pq) == eps_of(b, k).contains(pq) by {
            let t = step(pq.0, pq.1);
            if eps_of(l_until(a, b, k), k).contains(pq) {
                let i = choose|i: int| #[trigger] crate::semantics::holds_until(a, b, t, i);
                assert(i == 0);
            }
            if eps_of(b, k).contains(pq) {
                assert(crate::semantics::holds_until(a, b, t, 0));
            }
        }
        assert(eps_of(l_until(a, b, k), k) =~= eps_of(b, k));
    }
}

/// Without recording, sequence is composition.
pub proof fn lemma_eps_seq(a: Lang, b: Lang, k: nat)
    requires
        within(a, k),
        within(b, k),
    ensures
        eps_of(l_seq(a, b), k) == compose(eps_of(a, k), eps_of(b, k)),
{
    let l = eps_of(l_seq(a, b), k);
    let r = compose(eps_of(a, k), eps_of(b, k));
    assert forall|pq: (Packet, Packet)| l.contains(pq) == r.contains(pq) by {
        let t = step(pq.0, pq.1);
        if l.contains(pq) {
            lemma_seq_elim(a, b, t);
            let (i, m) = cut_of(a, b, t);
            assert(front(t, i, m).hist =~= seq![m]);
            assert(back(t, i, m).hist =~= seq![pq.1]);
            assert(trace_wf(step(pq.0, m), k));
            crate::relation::lemma_compose_intro(eps_of(a, k), eps_of(b, k), pq.0, m, pq.1);
        }
        if r.contains(pq) {
            crate::relation::lemma_compose_elim(eps_of(a, k), eps_of(b, k), pq.0, pq.1);
            let m = crate::relation::mid(eps_of(a, k), eps_of(b, k), pq.0, pq.1);
            assert(front(t, 0, m).hist =~= seq![m]);
            assert(back(t, 0, m).hist =~= seq![pq.1]);
            assert(cut(a, b, t, 0, m));
        }
    }
    assert(l =~= r);
}

/// Without recording, rounds are steps.
pub proof fn lemma_eps_power(a: Lang, k: nat, n: nat)
    requires
        within(a, k),
    ensures
        eps_of(l_power(a, k, n), k) == power(eps_of(a, k), k, n),
    decreases n,
{
    if n == 0 {
        lemma_eps_atoms(a, a, identity(k), k);
    } else {
        lemma_eps_power(a, k, (n - 1) as nat);
        lemma_power_within(a, k, (n - 1) as nat);
        lemma_eps_seq(a, l_power(a, k, (n - 1) as nat), k);
    }
}

/// Without recording, iteration is closure.
pub proof fn lemma_eps_star(a: Lang, k: nat)
    requires
        within(a, k),
    ensures
        eps_of(l_star(a, k), k) == star(eps_of(a, k), k),
{
    let l = eps_of(l_star(a, k), k);
    let r = star(eps_of(a, k), k);
    assert forall|pq: (Packet, Packet)| l.contains(pq) == r.contains(pq) by {
        let t = step(pq.0, pq.1);
        if l.contains(pq) {
            let n = rounds(a, k, t);
            lemma_eps_power(a, k, n);
            assert(eps_of(l_power(a, k, n), k).contains(pq));
            crate::relation::lemma_star_intro(eps_of(a, k), k, n, pq);
        }
        if r.contains(pq) {
            crate::relation::lemma_star_elim(eps_of(a, k), k, pq);
            let n = crate::relation::steps(eps_of(a, k), k, pq);
            lemma_eps_power(a, k, n);
            crate::relation::lemma_power_typed(eps_of(a, k), k, n);
            lemma_eps_boolean(a, a, k);
            assert(power(eps_of(a, k), k, n).contains((pq.0, pq.1)));
            assert(eps_of(l_power(a, k, n), k).contains(pq));
            assert(l_power(a, k, n).contains(t));
        }
    }
    assert(l =~= r);
}

/// After a first recording, the Boolean operators act as before it.
pub proof fn lemma_der_boolean(a: Lang, b: Lang, input: Packet, k: nat)
    requires
        input.len() == k,
    ensures
        der(Set::empty(), input) == Set::<Trace>::empty(),
        der(a.union(b), input) == der(a, input).union(der(b, input)),
        der(a.intersect(b), input) == der(a, input).intersect(der(b, input)),
        der(a.difference(b), input) == der(a, input).difference(der(b, input)),
        der(l_xor(a, b), input) == l_xor(der(a, input), der(b, input)),
        der(l_not(a, k), input) == l_not(der(a, input), k),
        within(a, k) ==> within(der(a, input), k),
{
    assert(der(Set::empty(), input) =~= Set::<Trace>::empty());
    assert(der(a.union(b), input) =~= der(a, input).union(der(b, input)));
    assert(der(a.intersect(b), input) =~= der(a, input).intersect(der(b, input)));
    assert(der(a.difference(b), input) =~= der(a, input).difference(der(b, input)));
    assert(der(l_xor(a, b), input) =~= l_xor(der(a, input), der(b, input)));
    assert forall|t: Trace| der(l_not(a, k), input).contains(t) == l_not(der(a, input), k).contains(t) by {
        lemma_cons_trace(input, t, k);
    }
    assert(der(l_not(a, k), input) =~= l_not(der(a, input), k));
    if within(a, k) {
        assert forall|t: Trace| #[trigger] der(a, input).contains(t) implies trace_wf(t, k) by {
            lemma_cons_trace(input, t, k);
        }
    }
}

/// After a first recording, the constants: relations on packets and the end
/// have recorded nothing, everything leaves everything, and `dup` leaves the
/// step from its input to itself.
pub proof fn lemma_der_atoms(r: Rel, input: Packet, k: nat)
    requires
        input.len() == k,
    ensures
        der(l_rel(r, k), input) == Set::<Trace>::empty(),
        der(l_end(k), input) == Set::<Trace>::empty(),
        der(l_top(k), input) == l_top(k),
        der(l_dup(k), input) == Set::<Trace>::empty().insert(step(input, input)),
{
    assert forall|t: Trace| !der(l_rel(r, k), input).contains(t) && !der(l_end(k), input).contains(t) by {
        lemma_cons_trace(input, t, k);
    }
    assert(der(l_rel(r, k), input) =~= Set::<Trace>::empty());
    assert(der(l_end(k), input) =~= Set::<Trace>::empty());
    assert forall|t: Trace| der(l_top(k), input).contains(t) == l_top(k).contains(t) by {
        lemma_cons_trace(input, t, k);
    }
    assert(der(l_top(k), input) =~= l_top(k));
    let only = Set::<Trace>::empty().insert(step(input, input));
    assert forall|t: Trace| der(l_dup(k), input).contains(t) == only.contains(t) by {
        lemma_cons_trace(input, t, k);
        let c = cons_trace(input, t);
        if der(l_dup(k), input).contains(t) {
            assert(c.hist[0] == t.input);
            assert(c.hist[1] == t.hist[0]);
            lemma_unstep(t);
        }
        if only.contains(t) {
            assert(c.hist =~= seq![input, input]);
        }
    }
    assert(der(l_dup(k), input) =~= only);
}

/// The runs that are left of `b` after a first recording, started on any
/// packet that `r` relates `input` to.
pub open spec fn der_through(r: Rel, b: Lang, input: Packet) -> Lang {
    Set::new(|t: Trace| exists|m: Packet| #[trigger] r.contains((input, m)) && der(b, m).contains(t))
}

/// After a first recording, sequence: the recording is in the first part,
/// which then goes on into the second, or the first part records nothing and
/// the recording is in the second.
pub proof fn lemma_der_seq(a: Lang, b: Lang, input: Packet, k: nat)
    requires
        within(a, k),
        within(b, k),
        input.len() == k,
    ensures
        der(l_seq(a, b), input) == l_seq(der(a, input), b).union(der_through(eps_of(a, k), b, input)),
{
    let l = der(l_seq(a, b), input);
    let first = l_seq(der(a, input), b);
    let second = der_through(eps_of(a, k), b, input);
    assert forall|t: Trace| l.contains(t) == first.union(second).contains(t) by {
        let c = cons_trace(input, t);
        if l.contains(t) {
            lemma_seq_elim(a, b, c);
            let (i, m) = cut_of(a, b, c);
            if i == 0 {
                assert(front(c, 0, m).hist =~= seq![m]);
                assert(back(c, 0, m).hist =~= cons_trace(m, t).hist);
                assert(back(c, 0, m) == cons_trace(m, t));
                assert(front(c, 0, m) == step(input, m));
                assert(eps_of(a, k).contains((input, m)));
                assert(second.contains(t));
            } else {
                assert(front(c, i, m).hist =~= cons_trace(input, front(t, i - 1, m)).hist);
                assert(back(c, i, m).hist =~= back(t, i - 1, m).hist);
                assert(cut(der(a, input), b, t, i - 1, m));
                assert(first.contains(t));
            }
        }
        if first.contains(t) {
            lemma_seq_elim(der(a, input), b, t);
            let (j, m) = cut_of(der(a, input), b, t);
            assert(front(c, j + 1, m).hist =~= cons_trace(input, front(t, j, m)).hist);
            assert(back(c, j + 1, m).hist =~= back(t, j, m).hist);
            assert(cut(a, b, c, j + 1, m));
        }
        if second.contains(t) {
            let m = choose|m: Packet| #[trigger] eps_of(a, k).contains((input, m)) && der(b, m).contains(t);
            assert(front(c, 0, m).hist =~= seq![m]);
            assert(back(c, 0, m).hist =~= cons_trace(m, t).hist);
            assert(cut(a, b, c, 0, m));
        }
    }
    assert(l =~= first.union(second));
}

/// The runs that are left of the iteration of `a` after a first recording:
/// what is left of one round of `a`, started on some packet that rounds
/// without recording lead to, then goes on into the iteration.
pub open spec fn der_star(a: Lang, input: Packet, k: nat) -> Lang {
    Set::new(
        |t: Trace|
            exists|m: Packet| #[trigger]
                star(eps_of(a, k), k).contains((input, m)) && l_seq(der(a, m), l_star(a, k)).contains(t),
    )
}

/// A run of rounds, recorded once, is a run of `der_star`.
proof fn lemma_der_power_below(a: Lang, input: Packet, t: Trace, k: nat, n: nat)
    requires
        within(a, k),
        input.len() == k,
        t.hist.len() >= 1,
        l_power(a, k, n).contains(cons_trace(input, t)),
    ensures
        der_star(a, input, k).contains(t),
    decreases n,
{
    let c = cons_trace(input, t);
    let e = eps_of(a, k);
    if n == 0 {
        lemma_cons_trace(input, t, k);
    } else {
        let rest = l_power(a, k, (n - 1) as nat);
        lemma_power_within(a, k, (n - 1) as nat);
        lemma_der_seq(a, rest, input, k);
        assert(der(l_seq(a, rest), input).contains(t));
        if l_seq(der(a, input), rest).contains(t) {
            lemma_seq_elim(der(a, input), rest, t);
            let (i, m) = cut_of(der(a, input), rest, t);
            assert(l_star(a, k).contains(back(t, i, m)));
            assert(cut(der(a, input), l_star(a, k), t, i, m));
            crate::relation::lemma_star_reflexive(e, k);
            assert(identity(k).contains((input, input)));
            assert(star(e, k).contains((input, input)));
        } else {
            let m = choose|m: Packet| #[trigger] e.contains((input, m)) && der(rest, m).contains(t);
            lemma_der_power_below(a, m, t, k, (n - 1) as nat);
            let far = choose|far: Packet| #[trigger]
                star(e, k).contains((m, far)) && l_seq(der(a, far), l_star(a, k)).contains(t);
            lemma_eps_boolean(a, a, k);
            crate::relation::lemma_star_contains(e, k);
            crate::relation::lemma_star_transitive(e, k);
            crate::relation::lemma_compose_intro(star(e, k), star(e, k), input, m, far);
            assert(star(e, k).contains((input, far)));
        }
    }
}

/// Steps without recording in front of a run of the iteration make a run of the iteration.
proof fn lemma_star_prepend(a: Lang, input: Packet, m: Packet, t: Trace, k: nat, n: nat)
    requires
        within(a, k),
        power(eps_of(a, k), k, n).contains((input, m)),
        l_star(a, k).contains(cons_trace(m, t)),
    ensures
        l_star(a, k).contains(cons_trace(input, t)),
    decreases n,
{
    let e = eps_of(a, k);
    if n == 0 {
        assert(input == m);
    } else {
        let rest = power(e, k, (n - 1) as nat);
        crate::relation::lemma_compose_elim(e, rest, input, m);
        let next = crate::relation::mid(e, rest, input, m);
        lemma_star_prepend(a, next, m, t, k, (n - 1) as nat);
        let c = cons_trace(input, t);
        assert(front(c, 0, next).hist =~= seq![next]);
        assert(back(c, 0, next).hist =~= cons_trace(next, t).hist);
        assert(cut(a, l_star(a, k), c, 0, next));
        lemma_star_unroll_left(a, k);
    }
}

/// After a first recording, iteration.
pub proof fn lemma_der_star(a: Lang, input: Packet, k: nat)
    requires
        within(a, k),
        input.len() == k,
    ensures
        der(l_star(a, k), input) == der_star(a, input, k),
{
    let l = der(l_star(a, k), input);
    let r = der_star(a, input, k);
    let e = eps_of(a, k);
    assert forall|t: Trace| l.contains(t) == r.contains(t) by {
        if l.contains(t) {
            lemma_der_power_below(a, input, t, k, rounds(a, k, cons_trace(input, t)));
        }
        if r.contains(t) {
            let m = choose|m: Packet| #[trigger]
                star(e, k).contains((input, m)) && l_seq(der(a, m), l_star(a, k)).contains(t);
            lemma_star_within(a, k);
            lemma_eps_boolean(a, a, k);
            crate::relation::lemma_star_typed(e, k);
            assert(m.len() == k);
            lemma_der_seq(a, l_star(a, k), m, k);
            lemma_seq_elim(der(a, m), l_star(a, k), t);
            assert(der(l_seq(a, l_star(a, k)), m).contains(t));
            assert(l_seq(a, l_star(a, k)).contains(cons_trace(m, t)));
            lemma_star_unroll_left(a, k);
            crate::relation::lemma_star_elim(e, k, (input, m));
            lemma_star_prepend(a, input, m, t, k, crate::relation::steps(e, k, (input, m)));
        }
    }
    assert(l =~= r);
}

/// After a first recording, the predicates of temporal logic: next leaves
/// its operand, finally its operand's rest or itself, globally its operand's
/// rest and itself, and until the rest of its second operand, or the rest of
/// its first and itself.
pub proof fn lemma_der_ltl(a: Lang, b: Lang, input: Packet, k: nat)
    requires
        within(a, k),
        within(b, k),
        input.len() == k,
    ensures
        der(l_next(a, k), input) == a,
        der(l_finally(a, k), input) == der(a, input).union(l_finally(a, k)),
        der(l_globally(a, k), input) == der(a, input).intersect(l_globally(a, k)),
        der(l_until(a, b, k), input) == der(b, input).union(der(a, input).intersect(l_until(a, b, k))),
{
    assert forall|l: Lang| within(l, k) implies #[trigger] der(l_next(l, k), input) == l by {
        assert forall|t: Trace| der(l_next(l, k), input).contains(t) == l.contains(t) by {
            lemma_cons_trace(input, t, k);
        }
        assert(der(l_next(l, k), input) =~= l);
    }
    let f = l_finally(a, k);
    lemma_finally_unfold(a, k);
    lemma_der_boolean(a, l_next(f, k), input, k);
    assert(within(f, k));
    assert(der(l_next(f, k), input) == f);
    let g = l_globally(a, k);
    lemma_globally_unfold(a, k);
    lemma_der_boolean(a, l_end(k).union(l_next(g, k)), input, k);
    lemma_der_boolean(l_end(k), l_next(g, k), input, k);
    lemma_der_atoms(empty(), input, k);
    assert(within(g, k));
    assert(der(l_next(g, k), input) == g);
    assert(der(g, input) =~= der(a, input).intersect(g));
    let u = l_until(a, b, k);
    lemma_until_unfold(a, b, k);
    lemma_der_boolean(b, a.intersect(l_next(u, k)), input, k);
    lemma_der_boolean(a, l_next(u, k), input, k);
    assert(within(u, k));
    assert(der(l_next(u, k), input) == u);
}

} // verus!
