//! Trials of the decision procedure, and the reduction of a failing
//! expression. A trial draws a pair of expressions that are equivalent, or
//! ordered, by construction and asks an automaton: the answer is never that
//! they are not. An expression fails when the automaton finds a run of it
//! where none was expected, as it would of the symmetric difference of two
//! expressions that should be equal. Shrinking replaces a failing expression
//! by one of the expressions it is built from that still fails, for as long
//! as there is one.

use crate::count::pairs_of;
use crate::explore::Aut;
use crate::expr::{share, union_exp, xor_exp, Exp, Expr};
use crate::fuzz::{derivable, gen_leq_from, genax_from, ordered, shrink_exp, shrunk};
use crate::random::Source;
use crate::semantics::{lang, Trace};
use crate::spp::SPPstore;
use vstd::prelude::*;

verus! {

/// `e` fails on packets of `k` fields: it has a run.
pub open spec fn fails(e: Exp, k: nat) -> bool {
    lang(e, k) != Set::<Trace>::empty()
}

/// Each expression of `path` but the first is among what shrinking makes of
/// the one before it.
pub open spec fn shrinking(path: Seq<Exp>) -> bool {
    forall|i: int| 0 < i < path.len() ==> shrunk(path[i - 1]).contains(#[trigger] path[i])
}

/// Shrinking, step after step, can make `r` of `e`.
pub open spec fn shrinks_to(e: Exp, r: Exp) -> bool {
    exists|path: Seq<Exp>| #[trigger] shrinking(path) && path.len() > 0 && path[0] == e && path.last() == r
}

/// The size of an expression as shrinking sees it: nothing is left to
/// shrink of `0` and `1`, one step of any other leaf, and of an operator one
/// step more than of its operands together.
pub open spec fn weight(e: Exp) -> nat
    decreases e,
{
    match *e {
        Expr::Zero | Expr::One => 0,
        Expr::Top | Expr::Dup | Expr::End | Expr::Assign(_, _) | Expr::Test(_, _) => 1,
        Expr::Union(a, b)
        | Expr::Intersect(a, b)
        | Expr::Xor(a, b)
        | Expr::Difference(a, b)
        | Expr::Sequence(a, b)
        | Expr::LtlUntil(a, b)
        | Expr::LtlWeakUntil(a, b)
        | Expr::LtlRelease(a, b)
        | Expr::LtlStrongRelease(a, b) => 1 + weight(a) + weight(b),
        Expr::Star(a)
        | Expr::Complement(a)
        | Expr::LtlNext(a)
        | Expr::LtlWeakNext(a)
        | Expr::LtlFinally(a)
        | Expr::LtlGlobally(a) => 1 + weight(a),
    }
}

/// Shrinking makes an expression smaller.
pub proof fn lemma_shrunk_weight(e: Exp, i: int)
    requires
        0 <= i < shrunk(e).len(),
    ensures
        weight(shrunk(e)[i]) < weight(e),
{
}

/// What `calls` explorations can cost an automaton at most: each item of
/// work is paid with a pair of packets at a state, so that one exploration
/// costs no more than there are pairs of packets at the states.
pub open spec fn cost_of(aut: &Aut, calls: nat) -> nat {
    calls * (aut.states@.len() * pairs_of(aut.num_fields()))
}

/// The automaton had reason to give up within `calls` explorations: its
/// store ran out of handles, or the budget it was given was no more than
/// these explorations can cost.
pub open spec fn gave_up(before: &Aut, after: &Aut, calls: nat) -> bool {
    after.spp.is_full() || before.budget <= cost_of(after, calls)
}

/// A store that ran out of handles stays so when it is used.
pub proof fn lemma_full_stays(old: &SPPstore, new: &SPPstore)
    requires
        old.is_full(),
        new.wf(),
        new.extends(old),
    ensures
        new.is_full(),
{
    new.lemma_inv_nodes();
}

/// One exploration more: what `i` explorations of `s0` states and one of
/// `s2` states cost is no more than `i + 1` explorations of `s2` states can
/// cost, and no more than any more of them can.
pub proof fn lemma_cost_step(i: nat, s0: nat, s2: nat, p: nat, n: nat)
    requires
        s0 <= s2,
        i + 1 <= n,
    ensures
        i * (s0 * p) + s2 * p <= (i + 1) * (s2 * p),
        i * (s0 * p) <= (i + 1) * (s2 * p),
        (i + 1) * (s2 * p) <= n * (s2 * p),
{
    assert(i * (s0 * p) <= i * (s2 * p)) by (nonlinear_arith)
        requires
            s0 <= s2,
    ;
    assert(i * (s2 * p) + s2 * p == (i + 1) * (s2 * p)) by (nonlinear_arith);
    assert((i + 1) * (s2 * p) <= n * (s2 * p)) by (nonlinear_arith)
        requires
            i + 1 <= n,
    ;
}

/// None of the first `n` expressions of `v` fails, unless the automaton had
/// reason to give up within `calls` explorations.
pub open spec fn none_fails(before: &Aut, after: &Aut, calls: nat, v: Seq<Exp>, n: int) -> bool {
    forall|j: int| 0 <= j < n ==> gave_up(before, after, calls) || !fails(#[trigger] v[j], after.num_fields())
}

/// The first expression of `list` that the automaton finds to fail, if there
/// is one. Each expression that is asked about costs one exploration at most.
pub fn first_failing(aut: &mut Aut, list: &Vec<Exp>) -> (r: Option<usize>)
    requires
        old(aut).wf(),
    ensures
        final(aut).wf(),
        final(aut).spp.extends(&old(aut).spp),
        final(aut).sp == old(aut).sp,
        final(aut).keeps(old(aut)),
        final(aut).budget <= old(aut).budget,
        old(aut).budget - final(aut).budget <= cost_of(final(aut), list@.len()),
        match r {
            Some(i) => i < list@.len() && fails(list@[i as int], old(aut).num_fields()) && none_fails(
                old(aut),
                final(aut),
                list@.len(),
                list@,
                i as int,
            ),
            None => none_fails(old(aut), final(aut), list@.len(), list@, list@.len() as int),
        },
{
    let ghost k = aut.num_fields();
    let ghost p = pairs_of(k);
    let ghost n = list@.len();
    let mut i: usize = 0;
    proof {
        aut.spp.lemma_extends_self();
        assert(0 * (aut.states@.len() * p) == 0) by (nonlinear_arith);
    }
    while i < list.len()
        invariant
            i <= list@.len(),
            n == list@.len(),
            p == pairs_of(k),
            aut.wf(),
            aut.num_fields() == k,
            k == old(aut).num_fields(),
            aut.spp.extends(&old(aut).spp),
            aut.sp == old(aut).sp,
            aut.keeps(old(aut)),
            aut.budget <= old(aut).budget,
            old(aut).budget - aut.budget <= i * (aut.states@.len() * p),
            none_fails(old(aut), aut, i as nat, list@, i as int),
        decreases list@.len() - i,
    {
        let ghost before = *aut;
        let state = aut.expr_to_state(&list[i]);
        let ghost made = *aut;
        let found = aut.is_empty(state);
        proof {
            assert(made.language(state) == lang(list@[i as int], k));
            lemma_cost_step(i as nat, before.states@.len(), aut.states@.len(), p, n);
            if before.spp.is_full() {
                lemma_full_stays(&before.spp, &aut.spp);
            }
            assert(old(aut).budget - aut.budget <= (i + 1) * (aut.states@.len() * p));
            assert forall|j: int| 0 <= j < i implies gave_up(old(aut), aut, (i + 1) as nat) || !fails(
                #[trigger] list@[j],
                aut.num_fields(),
            ) by {
                assert(gave_up(old(aut), &before, i as nat) || !fails(list@[j], before.num_fields()));
            }
            assert forall|j: int| 0 <= j < i implies gave_up(old(aut), aut, n) || !fails(
                #[trigger] list@[j],
                aut.num_fields(),
            ) by {
                assert(gave_up(old(aut), &before, i as nat) || !fails(list@[j], before.num_fields()));
            }
            assert(aut.keeps(old(aut))) by {
                assert forall|j: int| 0 <= j < old(aut).states@.len() implies #[trigger] aut.states@[j] == old(
                    aut,
                ).states@[j] by {
                    assert(made.states@[j] == before.states@[j]);
                }
            }
        }
        match found {
            Some(empty) => {
                if !empty {
                    return Some(i);
                }
            },
            None => {},
        }
        i += 1;
    }
    None
}

/// Shrinking makes at most two expressions of one.
pub proof fn lemma_shrunk_two(e: Exp)
    ensures
        shrunk(e).len() <= 2,
{
}

/// The number of explorations that the reduction of `e` can take: two for
/// each round, and a round for each step of shrinking and one at the end.
pub open spec fn rounds_of(e: Exp) -> nat {
    2 * (weight(e) + 1)
}

/// Reduces an expression by shrinking: as long as one of the expressions
/// that shrinking makes of it is found to fail, the first such takes its
/// place. What is returned fails if `failing` does, and nothing that shrinking
/// makes of it fails, unless the automaton had reason to give up.
pub fn reduce(aut: &mut Aut, failing: Exp) -> (r: Exp)
    requires
        old(aut).wf(),
    ensures
        final(aut).wf(),
        final(aut).spp.extends(&old(aut).spp),
        final(aut).sp == old(aut).sp,
        final(aut).keeps(old(aut)),
        final(aut).budget <= old(aut).budget,
        old(aut).budget - final(aut).budget <= cost_of(final(aut), rounds_of(failing)),
        shrinks_to(failing, r),
        fails(failing, old(aut).num_fields()) ==> fails(r, old(aut).num_fields()),
        none_fails(old(aut), final(aut), rounds_of(failing), shrunk(r), shrunk(r).len() as int),
{
    let ghost k = aut.num_fields();
    let ghost p = pairs_of(k);
    let ghost mut path: Seq<Exp> = seq![failing];
    let ghost mut rounds: nat = 0;
    let mut cur = failing;
    proof {
        aut.spp.lemma_extends_self();
        assert(0 * (aut.states@.len() * p) == 0) by (nonlinear_arith);
    }
    loop
        invariant
            p == pairs_of(k),
            aut.wf(),
            aut.num_fields() == k,
            k == old(aut).num_fields(),
            aut.spp.extends(&old(aut).spp),
            aut.sp == old(aut).sp,
            aut.keeps(old(aut)),
            aut.budget <= old(aut).budget,
            rounds + weight(cur) <= weight(failing),
            old(aut).budget - aut.budget <= (2 * rounds) * (aut.states@.len() * p),
            shrinking(path),
            path.len() > 0,
            path[0] == failing,
            path.last() == cur,
            fails(failing, k) ==> fails(cur, k),
        decreases weight(cur),
    {
        let ghost before = *aut;
        let parts = shrink_exp(share(&cur));
        let found = first_failing(aut, &parts);
        proof {
            lemma_shrunk_two(cur);
            let s0 = before.states@.len();
            let s2 = aut.states@.len();
            let m = parts@.len();
            assert((2 * rounds) * (s0 * p) + m * (s2 * p) <= (2 * rounds + 2) * (s2 * p)) by (nonlinear_arith)
                requires
                    s0 <= s2,
                    m <= 2,
            ;
            assert((2 * rounds + 2) * (s2 * p) <= rounds_of(failing) * (s2 * p)) by (nonlinear_arith)
                requires
                    2 * rounds + 2 <= rounds_of(failing),
            ;
            if before.spp.is_full() {
                lemma_full_stays(&before.spp, &aut.spp);
            }
            assert(gave_up(&before, aut, m) ==> gave_up(old(aut), aut, rounds_of(failing)));
            assert forall|j: int| 0 <= j < old(aut).states@.len() implies #[trigger] aut.states@[j] == old(
                aut,
            ).states@[j] by {
                assert(before.states@[j] == old(aut).states@[j]);
            }
        }
        match found {
            Some(i) => {
                proof {
                    lemma_shrunk_weight(cur, i as int);
                    assert(parts@[i as int] == shrunk(cur)[i as int]);
                    path = path.push(parts@[i as int]);
                    rounds = rounds + 1;
                }
                cur = share(&parts[i]);
            },
            None => {
                proof {
                    assert forall|j: int| 0 <= j < shrunk(cur).len() implies gave_up(
                        old(aut),
                        aut,
                        rounds_of(failing),
                    ) || !fails(#[trigger] shrunk(cur)[j], aut.num_fields()) by {
                        assert(gave_up(&before, aut, parts@.len()) || !fails(parts@[j], aut.num_fields()));
                    }
                }
                return cur;
            },
        }
    }
}

/// One trial of equivalence: a pair of expressions over the fields of `aut`,
/// drawn from `source`, that are equal by construction, and the answer of
/// `aut` to whether they are equivalent. The symmetric difference of the pair
/// becomes a state of `aut`, and the answer is yes, unless `aut` had reason
/// to give up.
pub fn trial_equal(aut: &mut Aut, source: &mut Source, ax_depth: usize, expr_depth: usize) -> (r: (
    (Exp, Exp),
    Option<bool>,
))
    requires
        old(aut).wf(),
        old(aut).num_fields() >= 2,
    ensures
        final(aut).wf(),
        final(aut).spp.extends(&old(aut).spp),
        final(aut).sp == old(aut).sp,
        final(aut).keeps(old(aut)),
        final(aut).budget <= old(aut).budget,
        derivable(r.0, ax_depth as nat, expr_depth as nat, old(aut).spp.num_vars),
        final(aut).states@.contains(xor_exp(r.0.0, r.0.1)),
        old(aut).budget - final(aut).budget <= cost_of(final(aut), 1),
        match r.1 {
            Some(yes) => yes,
            None => gave_up(old(aut), final(aut), 1),
        },
{
    let pair = genax_from(source, ax_depth, expr_depth, aut.spp.num_vars);
    let answer = aut.equal(&pair.0, &pair.1);
    proof {
        assert(1 * (aut.states@.len() * pairs_of(aut.num_fields())) == aut.states@.len() * pairs_of(
            aut.num_fields(),
        )) by (nonlinear_arith);
    }
    (pair, answer)
}

/// One trial of containment: a pair of expressions over the fields of `aut`,
/// drawn from `source`, of which the first lies within the second by
/// construction, and the answer of `aut` to whether it does. The symmetric
/// difference of the union of the pair and its second expression becomes a
/// state of `aut`, and the answer is yes, unless `aut` had reason to give
/// up.
pub fn trial_leq(aut: &mut Aut, source: &mut Source, ax_depth: usize, expr_depth: usize) -> (r: (
    (Exp, Exp),
    Option<bool>,
))
    requires
        old(aut).wf(),
        old(aut).num_fields() >= 2,
    ensures
        final(aut).wf(),
        final(aut).spp.extends(&old(aut).spp),
        final(aut).sp == old(aut).sp,
        final(aut).keeps(old(aut)),
        final(aut).budget <= old(aut).budget,
        ordered(r.0, ax_depth as nat, expr_depth as nat, old(aut).spp.num_vars),
        final(aut).states@.contains(xor_exp(union_exp(r.0.0, r.0.1), r.0.1)),
        old(aut).budget - final(aut).budget <= cost_of(final(aut), 1),
        match r.1 {
            Some(yes) => yes,
            None => gave_up(old(aut), final(aut), 1),
        },
{
    let pair = gen_leq_from(source, ax_depth, expr_depth, aut.spp.num_vars);
    let answer = aut.leq(&pair.0, &pair.1);
    proof {
        assert(1 * (aut.states@.len() * pairs_of(aut.num_fields())) == aut.states@.len() * pairs_of(
            aut.num_fields(),
        )) by (nonlinear_arith);
    }
    (pair, answer)
}

} // verus!
