//! What an expression means. An expression is run on an input packet; it
//! records the current packet whenever it passes a `dup`, and it ends with an
//! output packet. A trace is one such run: the input packet and the history,
//! which holds the recorded packets in the order in which they were recorded,
//! followed by the output packet. An expression denotes the set of its
//! traces; a predicate of temporal logic denotes the traces whose history it
//! holds of.

use crate::expr::{Exp, Expr};
use crate::relation::{Packet, Rel};
use vstd::prelude::*;

verus! {

/// A run of an expression: the packet it started on, and the packets it
/// recorded, in order, followed by the packet it ended with.
pub struct Trace {
    pub input: Seq<bool>,
    pub hist: Seq<Seq<bool>>,
}

/// A set of traces.
pub type Lang = Set<Trace>;

/// A trace over packets of `k` fields: its history is not empty.
pub open spec fn trace_wf(t: Trace, k: nat) -> bool {
    &&& t.input.len() == k
    &&& t.hist.len() >= 1
    &&& forall|i: int| 0 <= i < t.hist.len() ==> (#[trigger] t.hist[i]).len() == k
}

/// Every trace of `a` is a trace over packets of `k` fields.
pub open spec fn within(a: Lang, k: nat) -> bool {
    forall|t: Trace| #[trigger] a.contains(t) ==> trace_wf(t, k)
}

/// The trace that starts on `input` and ends with `output`, with nothing recorded.
pub open spec fn step(input: Packet, output: Packet) -> Trace {
    Trace { input, hist: seq![output] }
}

/// All traces over packets of `k` fields.
pub open spec fn l_top(k: nat) -> Lang {
    Set::new(|t: Trace| trace_wf(t, k))
}

/// The traces that record nothing.
pub open spec fn l_end(k: nat) -> Lang {
    Set::new(|t: Trace| trace_wf(t, k) && t.hist.len() == 1)
}

/// The traces that record nothing and end with a packet that `r` relates the input to.
pub open spec fn l_rel(r: Rel, k: nat) -> Lang {
    Set::new(|t: Trace| trace_wf(t, k) && t.hist.len() == 1 && r.contains((t.input, t.hist[0])))
}

/// The traces of `dup`: the input is recorded once and comes out unchanged.
pub open spec fn l_dup(k: nat) -> Lang {
    Set::new(|t: Trace| trace_wf(t, k) && t.hist == seq![t.input, t.input])
}

/// The traces over packets of `k` fields that are not in `a`.
pub open spec fn l_not(a: Lang, k: nat) -> Lang {
    l_top(k).difference(a)
}

/// The traces in exactly one of `a` and `b`.
pub open spec fn l_xor(a: Lang, b: Lang) -> Lang {
    a.difference(b).union(b.difference(a))
}

/// The first part of `t` when it is cut after `i` recordings and ends with
/// `m` there.
pub open spec fn front(t: Trace, i: int, m: Packet) -> Trace {
    Trace { input: t.input, hist: t.hist.take(i).push(m) }
}

/// The second part of `t` when it is cut after `i` recordings and starts on
/// `m` there.
pub open spec fn back(t: Trace, i: int, m: Packet) -> Trace {
    Trace { input: m, hist: t.hist.skip(i) }
}

/// `t` can be cut after `i` recordings, at the packet `m`, into a trace of
/// `a` and a trace of `b`.
pub open spec fn cut(a: Lang, b: Lang, t: Trace, i: int, m: Packet) -> bool {
    0 <= i < t.hist.len() && a.contains(front(t, i, m)) && b.contains(back(t, i, m))
}

/// The traces of `a` followed by `b`: a trace of `a`, continued from its
/// output packet by a trace of `b`.
pub open spec fn l_seq(a: Lang, b: Lang) -> Lang {
    Set::new(|t: Trace| exists|i: int, m: Packet| #[trigger] cut(a, b, t, i, m))
}

/// `n` rounds of `a`.
pub open spec fn l_power(a: Lang, k: nat, n: nat) -> Lang
    decreases n,
{
    if n == 0 {
        l_rel(crate::relation::identity(k), k)
    } else {
        l_seq(a, l_power(a, k, (n - 1) as nat))
    }
}

/// Any number of rounds of `a`.
pub open spec fn l_star(a: Lang, k: nat) -> Lang {
    Set::new(|t: Trace| exists|n: nat| #[trigger] l_power(a, k, n).contains(t))
}

/// What is left of `t` once its first `i` recordings are over: the run from
/// the `i`-th recorded packet on.
pub open spec fn suffix(t: Trace, i: int) -> Trace {
    if i <= 0 {
        t
    } else {
        Trace { input: t.hist[i - 1], hist: t.hist.skip(i) }
    }
}

/// Next: something is recorded, and `a` holds from there.
pub open spec fn l_next(a: Lang, k: nat) -> Lang {
    Set::new(|t: Trace| trace_wf(t, k) && t.hist.len() >= 2 && a.contains(suffix(t, 1)))
}

/// Finally: `a` holds from some point on.
pub open spec fn l_finally(a: Lang, k: nat) -> Lang {
    Set::new(
        |t: Trace| trace_wf(t, k) && exists|i: int| 0 <= i < t.hist.len() && a.contains(#[trigger] suffix(t, i)),
    )
}

/// Globally: `a` holds from every point on.
pub open spec fn l_globally(a: Lang, k: nat) -> Lang {
    Set::new(
        |t: Trace| trace_wf(t, k) && forall|i: int| 0 <= i < t.hist.len() ==> a.contains(#[trigger] suffix(t, i)),
    )
}

/// `b` holds from the point `i` on and `a` from every point before it.
pub open spec fn holds_until(a: Lang, b: Lang, t: Trace, i: int) -> bool {
    &&& 0 <= i < t.hist.len()
    &&& b.contains(suffix(t, i))
    &&& forall|j: int| 0 <= j < i ==> a.contains(#[trigger] suffix(t, j))
}

/// Until: `b` holds from some point on, and `a` from every point before it.
pub open spec fn l_until(a: Lang, b: Lang, k: nat) -> Lang {
    Set::new(|t: Trace| trace_wf(t, k) && exists|i: int| #[trigger] holds_until(a, b, t, i))
}

/// The traces of an expression over packets of `k` fields.
pub open spec fn lang(e: Exp, k: nat) -> Lang
    decreases e,
{
    match *e {
        Expr::Zero => Set::empty(),
        Expr::One => l_rel(crate::relation::identity(k), k),
        Expr::Top => l_top(k),
        Expr::Dup => l_dup(k),
        Expr::End => l_end(k),
        Expr::Assign(f, v) => l_rel(crate::relation::assign(f as nat, v, k), k),
        Expr::Test(f, v) => l_rel(crate::relation::test(f as nat, v, k), k),
        Expr::Union(a, b) => lang(a, k).union(lang(b, k)),
        Expr::Intersect(a, b) => lang(a, k).intersect(lang(b, k)),
        Expr::Xor(a, b) => l_xor(lang(a, k), lang(b, k)),
        Expr::Difference(a, b) => lang(a, k).difference(lang(b, k)),
        Expr::Sequence(a, b) => l_seq(lang(a, k), lang(b, k)),
        Expr::Star(a) => l_star(lang(a, k), k),
        Expr::Complement(a) => l_not(lang(a, k), k),
        Expr::LtlNext(a) => l_next(lang(a, k), k),
        Expr::LtlWeakNext(a) => l_end(k).union(l_next(lang(a, k), k)),
        Expr::LtlFinally(a) => l_finally(lang(a, k), k),
        Expr::LtlGlobally(a) => l_globally(lang(a, k), k),
        Expr::LtlUntil(a, b) => l_until(lang(a, k), lang(b, k), k),
        Expr::LtlWeakUntil(a, b) => l_until(lang(a, k), lang(b, k), k).union(l_globally(lang(a, k), k)),
        Expr::LtlRelease(a, b) => l_not(l_until(l_not(lang(a, k), k), l_not(lang(b, k), k), k), k),
        Expr::LtlStrongRelease(a, b) => l_not(
            l_until(l_not(lang(a, k), k), l_not(lang(b, k), k), k),
            k,
        ).intersect(l_finally(lang(b, k), k)),
    }
}

/// Two expressions are equivalent: they have the same traces.
pub open spec fn equivalent(a: Exp, b: Exp, k: nat) -> bool {
    lang(a, k) == lang(b, k)
}

/// The first expression is contained in the second: the second has every
/// trace of the first.
pub open spec fn contained(a: Exp, b: Exp, k: nat) -> bool {
    lang(a, k).subset_of(lang(b, k))
}

} // verus!
