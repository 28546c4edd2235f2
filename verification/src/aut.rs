//! The symbolic automaton of an expression. Its states are expressions. A
//! state accepts, without recording, the pairs of packets of its `epsilon`,
//! a symbolic packet program; and it has a list of transitions, each a
//! symbolic packet program beside an expression: from an input packet, by a
//! first recording of a packet that the program relates the input to, the run
//! goes on in the expression. Emptiness of the language of a state is decided
//! by exploring what can be reached.

use crate::axioms::{cut_of, lemma_seq_elim};
use crate::derivative::{
    der, der_star, der_through, eps_of, lemma_der_atoms, lemma_der_boolean, lemma_der_ltl, lemma_der_seq,
    lemma_der_star, lemma_eps_atoms, lemma_eps_boolean, lemma_eps_seq, lemma_eps_star, lemma_unstep,
};
use crate::expr::{same, share, top_exp, Exp, Expr};
use crate::simplify::{chain, is_zero, join, meet, neg, row, spine};
use crate::relation::{
    complement, compose, empty, full, identity, lemma_compose_elim, lemma_compose_intro, mid, star, typed,
    Packet, Rel,
};
use crate::semantics::{
    back, cut, front, l_dup, l_end, l_finally, l_globally, l_next, l_not, l_rel, l_seq, l_star, l_top, l_until,
    l_xor, lang, step, trace_wf, within, Lang, Trace,
};
use crate::soundness::lemma_lang_within;
use crate::spp::{depth_in, grown, lemma_frame, nodes_wf, rel_in, valid_in, SPPnode, SPPstore, SPP};
use vstd::prelude::*;

verus! {

/// A list of transitions: each a region, the symbolic packet program of the
/// pairs of an input packet and a first recorded packet that take the
/// transition, and the expression in which the run goes on.
pub type Trans = Vec<(SPP, Exp)>;

/// The transition from `region` to `next` takes `input` to the run `t`: the
/// region relates the input to the packet that `t` starts on, and `t` is a
/// run of `next`.
pub open spec fn hits(nodes: Seq<SPPnode>, region: SPP, next: Exp, k: nat, input: Packet, t: Trace) -> bool {
    rel_in(nodes, region).contains((input, t.input)) && lang(next, k).contains(t)
}

/// Some transition of the list takes `input` to the run `t`.
pub open spec fn t_sem(nodes: Seq<SPPnode>, trans: Seq<(SPP, Exp)>, k: nat, input: Packet, t: Trace) -> bool {
    exists|i: int| 0 <= i < trans.len() && #[trigger] hits(nodes, trans[i].0, trans[i].1, k, input, t)
}

/// Some region of the list relates the pair of packets.
pub open spec fn covered(nodes: Seq<SPPnode>, trans: Seq<(SPP, Exp)>, pq: (Packet, Packet)) -> bool {
    exists|i: int| 0 <= i < trans.len() && #[trigger] rel_in(nodes, trans[i].0).contains(pq)
}

/// No pair of packets is related by two regions of the list: the automaton
/// is deterministic.
pub open spec fn t_disjoint(nodes: Seq<SPPnode>, trans: Seq<(SPP, Exp)>) -> bool {
    forall|i: int, j: int, pq: (Packet, Packet)|
        #![trigger rel_in(nodes, trans[i].0).contains(pq), rel_in(nodes, trans[j].0).contains(pq)]
        0 <= i < j < trans.len() ==> !(rel_in(nodes, trans[i].0).contains(pq) && rel_in(nodes, trans[j].0).contains(
            pq,
        ))
}

/// Every region of the list is a handle of depth `k`, and no two regions overlap.
pub open spec fn t_valid(nodes: Seq<SPPnode>, trans: Seq<(SPP, Exp)>, k: nat) -> bool {
    &&& forall|i: int|
        0 <= i < trans.len() ==> valid_in(nodes, (#[trigger] trans[i]).0) && depth_in(nodes, trans[i].0) == k
    &&& t_disjoint(nodes, trans)
}

/// The list of transitions is the derivative of `l`: it takes an input
/// packet to exactly the runs that are left of `l` after a first recording.
pub open spec fn t_ok(nodes: Seq<SPPnode>, trans: Seq<(SPP, Exp)>, k: nat, l: Lang) -> bool {
    &&& t_valid(nodes, trans, k)
    &&& forall|input: Packet, t: Trace|
        input.len() == k ==> (#[trigger] t_sem(nodes, trans, k, input, t) <==> der(l, input).contains(t))
}

/// `eps` and `trans` are the automaton of `l`: what `l` does without
/// recording, and what is left of it after a first recording.
pub open spec fn d_ok(nodes: Seq<SPPnode>, eps: SPP, trans: Seq<(SPP, Exp)>, k: nat, l: Lang) -> bool {
    &&& valid_in(nodes, eps)
    &&& depth_in(nodes, eps) == k
    &&& rel_in(nodes, eps) == eps_of(l, k)
    &&& t_ok(nodes, trans, k, l)
}

/// A list with one more transition takes what the list takes and what the
/// new transition takes.
pub proof fn lemma_sem_push(nodes: Seq<SPPnode>, trans: Seq<(SPP, Exp)>, region: SPP, next: Exp, k: nat)
    ensures
        forall|input: Packet, t: Trace| #[trigger]
            t_sem(nodes, trans.push((region, next)), k, input, t) <==> t_sem(nodes, trans, k, input, t) || hits(
                nodes,
                region,
                next,
                k,
                input,
                t,
            ),
        forall|input: Packet, t: Trace| !t_sem(nodes, Seq::empty(), k, input, t),
{
    let more = trans.push((region, next));
    assert forall|input: Packet, t: Trace| #[trigger]
        t_sem(nodes, more, k, input, t) <==> t_sem(nodes, trans, k, input, t) || hits(
            nodes,
            region,
            next,
            k,
            input,
            t,
        ) by {
        if t_sem(nodes, more, k, input, t) {
            let i = choose|i: int| 0 <= i < more.len() && #[trigger] hits(nodes, more[i].0, more[i].1, k, input, t);
            if i < trans.len() {
                assert(hits(nodes, trans[i].0, trans[i].1, k, input, t));
            }
        }
        if t_sem(nodes, trans, k, input, t) {
            let i = choose|i: int| 0 <= i < trans.len() && #[trigger] hits(nodes, trans[i].0, trans[i].1, k, input, t);
            assert(hits(nodes, more[i].0, more[i].1, k, input, t));
        }
        if hits(nodes, region, next, k, input, t) {
            assert(hits(nodes, more[trans.len() as int].0, more[trans.len() as int].1, k, input, t));
        }
    }
}

/// The first `i + 1` transitions take what the first `i` take and what the
/// transition at `i` takes.
pub proof fn lemma_sem_take(nodes: Seq<SPPnode>, trans: Seq<(SPP, Exp)>, i: int, k: nat)
    requires
        0 <= i < trans.len(),
    ensures
        forall|input: Packet, t: Trace| #[trigger]
            t_sem(nodes, trans.take(i + 1), k, input, t) <==> t_sem(nodes, trans.take(i), k, input, t) || hits(
                nodes,
                trans[i].0,
                trans[i].1,
                k,
                input,
                t,
            ),
        trans.take(trans.len() as int) == trans,
{
    assert(trans.take(i + 1) =~= trans.take(i).push(trans[i]));
    lemma_sem_push(nodes, trans.take(i), trans[i].0, trans[i].1, k);
    assert(trans.take(trans.len() as int) =~= trans);
}

/// A list of transitions takes what it took when the store grows.
pub proof fn lemma_sem_grown(old: Seq<SPPnode>, new: Seq<SPPnode>, trans: Seq<(SPP, Exp)>, k: nat)
    requires
        nodes_wf(old),
        grown(old, new),
        t_valid(old, trans, k),
    ensures
        t_valid(new, trans, k),
        forall|input: Packet, t: Trace|
            #![trigger t_sem(new, trans, k, input, t)]
            #![trigger t_sem(old, trans, k, input, t)]
            t_sem(new, trans, k, input, t) == t_sem(old, trans, k, input, t),
        forall|i: int| 0 <= i < trans.len() ==> #[trigger] rel_in(new, trans[i].0) == rel_in(old, trans[i].0),
        forall|pq: (Packet, Packet)|
            #![trigger covered(new, trans, pq)]
            #![trigger covered(old, trans, pq)]
            covered(new, trans, pq) == covered(old, trans, pq),
{
    assert forall|i: int| 0 <= i < trans.len() implies valid_in(new, (#[trigger] trans[i]).0) && depth_in(
        new,
        trans[i].0,
    ) == k && rel_in(new, trans[i].0) == rel_in(old, trans[i].0) by {
        lemma_frame(old, new, trans[i].0);
    }
    assert forall|pq: (Packet, Packet)|
        #![trigger covered(new, trans, pq)]
        #![trigger covered(old, trans, pq)]
        covered(new, trans, pq) == covered(old, trans, pq) by {
        if covered(new, trans, pq) {
            let i = choose|i: int| 0 <= i < trans.len() && #[trigger] rel_in(new, trans[i].0).contains(pq);
            assert(rel_in(old, trans[i].0).contains(pq));
        }
        if covered(old, trans, pq) {
            let i = choose|i: int| 0 <= i < trans.len() && #[trigger] rel_in(old, trans[i].0).contains(pq);
            assert(rel_in(new, trans[i].0).contains(pq));
        }
    }
    assert(t_disjoint(new, trans)) by {
        assert forall|i: int, j: int, pq: (Packet, Packet)|
            #![trigger rel_in(new, trans[i].0).contains(pq), rel_in(new, trans[j].0).contains(pq)]
            0 <= i < j < trans.len() implies !(rel_in(new, trans[i].0).contains(pq) && rel_in(
            new,
            trans[j].0,
        ).contains(pq)) by {
            assert(rel_in(new, trans[i].0) == rel_in(old, trans[i].0));
            assert(rel_in(new, trans[j].0) == rel_in(old, trans[j].0));
            if rel_in(old, trans[i].0).contains(pq) && rel_in(old, trans[j].0).contains(pq) {
                assert(false);
            }
        }
    }
    assert forall|input: Packet, t: Trace|
        #![trigger t_sem(new, trans, k, input, t)]
        #![trigger t_sem(old, trans, k, input, t)]
        t_sem(new, trans, k, input, t) == t_sem(old, trans, k, input, t) by {
        if t_sem(new, trans, k, input, t) {
            let i = choose|i: int| 0 <= i < trans.len() && #[trigger] hits(new, trans[i].0, trans[i].1, k, input, t);
            assert(trans[i].0 == trans[i].0);
            assert(hits(old, trans[i].0, trans[i].1, k, input, t));
        }
        if t_sem(old, trans, k, input, t) {
            let i = choose|i: int| 0 <= i < trans.len() && #[trigger] hits(old, trans[i].0, trans[i].1, k, input, t);
            assert(trans[i].0 == trans[i].0);
            assert(hits(new, trans[i].0, trans[i].1, k, input, t));
        }
    }
}

/// The automaton of a set of runs stays its automaton when the store grows.
pub proof fn lemma_d_ok_grown(
    old: Seq<SPPnode>,
    new: Seq<SPPnode>,
    eps: SPP,
    trans: Seq<(SPP, Exp)>,
    k: nat,
    l: Lang,
)
    requires
        nodes_wf(old),
        grown(old, new),
        d_ok(old, eps, trans, k, l),
    ensures
        d_ok(new, eps, trans, k, l),
{
    lemma_frame(old, new, eps);
    lemma_sem_grown(old, new, trans, k);
}

/// A list with the region of one transition made wider takes what the list
/// took and what the transition takes over the added pairs.
pub proof fn lemma_sem_update(nodes: Seq<SPPnode>, trans: Seq<(SPP, Exp)>, i: int, wider: SPP, added: Rel, k: nat)
    requires
        0 <= i < trans.len(),
        rel_in(nodes, wider) == rel_in(nodes, trans[i].0).union(added),
    ensures
        forall|input: Packet, t: Trace| #[trigger]
            t_sem(nodes, trans.update(i, (wider, trans[i].1)), k, input, t) <==> t_sem(nodes, trans, k, input, t)
                || (added.contains((input, t.input)) && lang(trans[i].1, k).contains(t)),
{
    let next = trans[i].1;
    let more = trans.update(i, (wider, next));
    assert forall|input: Packet, t: Trace| #[trigger]
        t_sem(nodes, more, k, input, t) <==> t_sem(nodes, trans, k, input, t) || (added.contains((input, t.input))
            && lang(next, k).contains(t)) by {
        if t_sem(nodes, more, k, input, t) {
            let x = choose|x: int| 0 <= x < more.len() && #[trigger] hits(nodes, more[x].0, more[x].1, k, input, t);
            if x != i {
                assert(hits(nodes, trans[x].0, trans[x].1, k, input, t));
            } else if !added.contains((input, t.input)) {
                assert(hits(nodes, trans[i].0, trans[i].1, k, input, t));
            }
        }
        if t_sem(nodes, trans, k, input, t) {
            let x = choose|x: int| 0 <= x < trans.len() && #[trigger] hits(nodes, trans[x].0, trans[x].1, k, input, t);
            assert(hits(nodes, more[x].0, more[x].1, k, input, t));
        }
        if added.contains((input, t.input)) && lang(next, k).contains(t) {
            assert(hits(nodes, more[i].0, more[i].1, k, input, t));
        }
    }
}

/// The list with one more transition, whose region overlaps none of the
/// list: nothing is added when the region or the expression is empty, the
/// region is added to that of a transition into the same expression when
/// there is one, and the transition is put at the end otherwise. `None` when
/// the store ran out of handles.
#[verifier::rlimit(40)]
fn t_merge(store: &mut SPPstore, list: Trans, region: SPP, next: Exp) -> (r: Option<Trans>)
    requires
        old(store).wf(),
        t_valid(old(store)@, list@, old(store).num_fields()),
        old(store).valid(region),
        old(store).depth(region) == old(store).num_fields(),
        forall|pq: (Packet, Packet)| #[trigger]
            rel_in(old(store)@, region).contains(pq) ==> !covered(old(store)@, list@, pq),
    ensures
        final(store).wf(),
        final(store).extends(old(store)),
        match r {
            Some(res) => {
                &&& t_valid(final(store)@, res@, old(store).num_fields())
                &&& forall|input: Packet, t: Trace| #[trigger]
                    t_sem(final(store)@, res@, old(store).num_fields(), input, t) <==> t_sem(
                        old(store)@,
                        list@,
                        old(store).num_fields(),
                        input,
                        t,
                    ) || hits(old(store)@, region, next, old(store).num_fields(), input, t)
                &&& forall|pq: (Packet, Packet)| #[trigger]
                    covered(final(store)@, res@, pq) ==> covered(old(store)@, list@, pq) || rel_in(
                        old(store)@,
                        region,
                    ).contains(pq)
            },
            None => final(store).is_full(),
        },
{
    let ghost k = store.num_fields();
    let ghost start = store@;
    let mut acc = list;
    proof {
        store.lemma_extends_self();
        store.lemma_inv_nodes();
    }
    if region == store.zero || is_zero(&next) {
        proof {
            reveal_with_fuel(lang, 1);
        }
        return Some(acc);
    }
    let mut i: usize = 0;
    while i < acc.len()
        invariant
            i <= acc.len(),
            *store == *old(store),
            acc@ == list@,
            store.wf(),
            start == store@,
            nodes_wf(start),
            k == store.num_fields(),
            t_valid(start, list@, k),
            store.valid(region),
            store.depth(region) == k,
            forall|pq: (Packet, Packet)| #[trigger] rel_in(start, region).contains(pq) ==> !covered(start, list@, pq),
        decreases acc.len() - i,
    {
        if same(&acc[i].1, &next) {
            let wider = store.union(acc[i].0, region)?;
            acc[i] = (wider, next);
            proof {
                let now = store@;
                let before = list@;
                lemma_sem_grown(start, now, before, k);
                lemma_frame(start, now, region);
                lemma_sem_update(now, before, i as int, wider, rel_in(now, region), k);
                assert(acc@ =~= before.update(i as int, (wider, before[i as int].1)));
                assert forall|x: int| 0 <= x < acc@.len() implies valid_in(now, (#[trigger] acc@[x]).0) && depth_in(
                    now,
                    acc@[x].0,
                ) == k by {
                    if x != i {
                        assert(acc@[x] == before[x]);
                    }
                }
                assert forall|x: int| 0 <= x < acc@.len() implies #[trigger] rel_in(now, acc@[x].0).subset_of(
                    rel_in(start, before[x].0).union(rel_in(start, region)),
                ) && (x != i ==> rel_in(now, acc@[x].0) == rel_in(start, before[x].0)) by {
                    if x != i {
                        assert(acc@[x] == before[x]);
                    }
                    assert(rel_in(now, before[x].0) == rel_in(start, before[x].0));
                }
                assert forall|x: int, y: int, pq: (Packet, Packet)|
                    #![trigger rel_in(now, acc@[x].0).contains(pq), rel_in(now, acc@[y].0).contains(pq)]
                    0 <= x < y < acc@.len() implies !(rel_in(now, acc@[x].0).contains(pq) && rel_in(
                    now,
                    acc@[y].0,
                ).contains(pq)) by {
                    if rel_in(now, acc@[x].0).contains(pq) && rel_in(now, acc@[y].0).contains(pq) {
                        assert(rel_in(now, acc@[x].0).subset_of(
                            rel_in(start, before[x].0).union(rel_in(start, region)),
                        ));
                        assert(rel_in(now, acc@[y].0).subset_of(
                            rel_in(start, before[y].0).union(rel_in(start, region)),
                        ));
                        if rel_in(start, region).contains(pq) {
                            assert(!covered(start, before, pq));
                            if x != i {
                                assert(rel_in(start, before[x].0).contains(pq));
                            } else {
                                assert(rel_in(start, before[y].0).contains(pq));
                            }
                        } else {
                            assert(rel_in(start, before[x].0).contains(pq));
                            assert(rel_in(start, before[y].0).contains(pq));
                        }
                    }
                }
                assert forall|pq: (Packet, Packet)| #[trigger] covered(now, acc@, pq) implies covered(
                    start,
                    before,
                    pq,
                ) || rel_in(start, region).contains(pq) by {
                    let x = choose|x: int| 0 <= x < acc@.len() && #[trigger] rel_in(now, acc@[x].0).contains(pq);
                    assert(rel_in(now, acc@[x].0).subset_of(rel_in(start, before[x].0).union(rel_in(start, region))));
                    if !rel_in(start, region).contains(pq) {
                        assert(rel_in(start, before[x].0).contains(pq));
                    }
                }
                assert forall|input: Packet, t: Trace| #[trigger]
                    t_sem(now, acc@, k, input, t) <==> t_sem(start, before, k, input, t) || hits(
                        start,
                        region,
                        next,
                        k,
                        input,
                        t,
                    ) by {
                    assert(t_sem(now, before, k, input, t) == t_sem(start, before, k, input, t));
                }
            }
            return Some(acc);
        }
        i += 1;
    }
    proof {
        lemma_sem_push(start, acc@, region, next, k);
    }
    acc.push((region, next));
    proof {
        let before = list@;
        assert forall|x: int, y: int, pq: (Packet, Packet)|
            #![trigger rel_in(start, acc@[x].0).contains(pq), rel_in(start, acc@[y].0).contains(pq)]
            0 <= x < y < acc@.len() implies !(rel_in(start, acc@[x].0).contains(pq) && rel_in(
            start,
            acc@[y].0,
        ).contains(pq)) by {
            assert(acc@[x] == before[x]);
            if y < before.len() {
                assert(acc@[y] == before[y]);
            } else if rel_in(start, acc@[x].0).contains(pq) && rel_in(start, acc@[y].0).contains(pq) {
                assert(rel_in(start, before[x].0).contains(pq));
                assert(covered(start, before, pq));
            }
        }
        assert forall|pq: (Packet, Packet)| #[trigger] covered(start, acc@, pq) implies covered(start, before, pq)
            || rel_in(start, region).contains(pq) by {
            let x = choose|x: int| 0 <= x < acc@.len() && #[trigger] rel_in(start, acc@[x].0).contains(pq);
            if x < before.len() {
                assert(acc@[x] == before[x]);
                assert(rel_in(start, before[x].0).contains(pq));
            }
        }
        assert forall|x: int| 0 <= x < acc@.len() implies valid_in(start, (#[trigger] acc@[x]).0) && depth_in(
            start,
            acc@[x].0,
        ) == k by {
            if x < before.len() {
                assert(acc@[x] == before[x]);
            }
        }
    }
    Some(acc)
}

/// The first `i + 1` regions cover what the first `i` cover and what the
/// region at `i` relates.
pub proof fn lemma_covered_take(nodes: Seq<SPPnode>, trans: Seq<(SPP, Exp)>, i: int)
    requires
        0 <= i < trans.len(),
    ensures
        forall|pq: (Packet, Packet)| #[trigger]
            covered(nodes, trans.take(i + 1), pq) <==> covered(nodes, trans.take(i), pq) || rel_in(
                nodes,
                trans[i].0,
            ).contains(pq),
        t_disjoint(nodes, trans) ==> forall|pq: (Packet, Packet)| #[trigger]
            rel_in(nodes, trans[i].0).contains(pq) ==> !covered(nodes, trans.take(i), pq),
{
    let more = trans.take(i + 1);
    let less = trans.take(i);
    assert forall|pq: (Packet, Packet)| #[trigger]
        covered(nodes, more, pq) <==> covered(nodes, less, pq) || rel_in(nodes, trans[i].0).contains(pq) by {
        if covered(nodes, more, pq) {
            let x = choose|x: int| 0 <= x < more.len() && #[trigger] rel_in(nodes, more[x].0).contains(pq);
            if x < i {
                assert(rel_in(nodes, less[x].0).contains(pq));
            }
        }
        if covered(nodes, less, pq) {
            let x = choose|x: int| 0 <= x < less.len() && #[trigger] rel_in(nodes, less[x].0).contains(pq);
            assert(rel_in(nodes, more[x].0).contains(pq));
        }
        if rel_in(nodes, trans[i].0).contains(pq) {
            assert(rel_in(nodes, more[i].0).contains(pq));
        }
    }
    if t_disjoint(nodes, trans) {
        assert forall|pq: (Packet, Packet)| #[trigger] rel_in(nodes, trans[i].0).contains(pq) implies !covered(
            nodes,
            less,
            pq,
        ) by {
            if covered(nodes, less, pq) {
                let x = choose|x: int| 0 <= x < less.len() && #[trigger] rel_in(nodes, less[x].0).contains(pq);
                assert(rel_in(nodes, trans[x].0).contains(pq));
            }
        }
    }
}

/// The list with one more transition. Where the region of the new
/// transition overlaps a region of the list, the run goes on in the union of
/// the two expressions; so the list stays deterministic. `None` when the
/// store ran out of handles.
#[verifier::rlimit(40)]
pub fn t_add(store: &mut SPPstore, list: Trans, region: SPP, next: Exp) -> (r: Option<Trans>)
    requires
        old(store).wf(),
        t_valid(old(store)@, list@, old(store).num_fields()),
        old(store).valid(region),
        old(store).depth(region) == old(store).num_fields(),
    ensures
        final(store).wf(),
        final(store).extends(old(store)),
        match r {
            Some(res) => {
                &&& t_valid(final(store)@, res@, old(store).num_fields())
                &&& forall|input: Packet, t: Trace| #[trigger]
                    t_sem(final(store)@, res@, old(store).num_fields(), input, t) <==> t_sem(
                        old(store)@,
                        list@,
                        old(store).num_fields(),
                        input,
                        t,
                    ) || hits(old(store)@, region, next, old(store).num_fields(), input, t)
            },
            None => final(store).is_full(),
        },
{
    let ghost k = store.num_fields();
    let ghost start = store@;
    proof {
        store.lemma_extends_self();
        store.lemma_inv_nodes();
    }
    if region == store.zero || is_zero(&next) {
        proof {
            reveal_with_fuel(lang, 1);
        }
        return Some(list);
    }
    let mut res: Trans = Vec::new();
    let mut rest = region;
    let mut i: usize = 0;
    proof {
        lemma_sem_push(start, Seq::empty(), 0, top_exp(), k);
        assert(list@.take(0) =~= Seq::empty());
    }
    while i < list.len()
        invariant
            i <= list.len(),
            k == old(store).num_fields(),
            start == old(store)@,
            store.wf(),
            old(store).wf(),
            store.extends(old(store)),
            t_valid(start, list@, k),
            t_valid(store@, res@, k),
            old(store).valid(region),
            old(store).depth(region) == k,
            store.valid(rest),
            store.depth(rest) == k,
            forall|pq: (Packet, Packet)| #[trigger]
                covered(store@, res@, pq) ==> covered(start, list@.take(i as int), pq),
            forall|pq: (Packet, Packet)| #[trigger]
                rel_in(store@, rest).contains(pq) <==> rel_in(start, region).contains(pq) && !covered(
                    start,
                    list@.take(i as int),
                    pq,
                ),
            forall|input: Packet, t: Trace| #[trigger]
                t_sem(store@, res@, k, input, t) <==> t_sem(start, list@.take(i as int), k, input, t) || (hits(
                    start,
                    region,
                    next,
                    k,
                    input,
                    t,
                ) && covered(start, list@.take(i as int), (input, t.input))),
        decreases list.len() - i,
    {
        let ghost n0 = *store;
        let ghost listed = res@;
        let ghost c = list@[i as int].1;
        let ghost less = list@.take(i as int);
        let ghost old_rest = rest;
        proof {
            n0.lemma_inv_nodes();
            old(store).lemma_inv_nodes();
            lemma_frame(start, n0@, list@[i as int].0);
            lemma_frame(start, n0@, region);
            lemma_covered_take(start, list@, i as int);
            lemma_sem_take(start, list@, i as int, k);
        }
        let q = list[i].0;
        let outside = store.difference(q, region)?;
        let ghost n1 = *store;
        proof {
            n1.lemma_inv_nodes();
            lemma_sem_grown(n0@, n1@, listed, k);
            assert(rel_in(n1@, outside) == rel_in(start, q).difference(rel_in(start, region)));
            assert forall|pq: (Packet, Packet)| #[trigger] rel_in(n1@, outside).contains(pq) implies !covered(
                n1@,
                listed,
                pq,
            ) by {
                if covered(n1@, listed, pq) {
                    assert(covered(n0@, listed, pq));
                    assert(covered(start, less, pq));
                }
            }
        }
        res = t_merge(store, res, outside, share(&list[i].1))?;
        let ghost n2 = *store;
        let ghost half = res@;
        proof {
            n2.lemma_inv_nodes();
            lemma_frame(n0@, n2@, q);
            lemma_frame(n0@, n2@, region);
        }
        let inside = store.intersect(q, region)?;
        let ghost n3 = *store;
        let joined = join(&list[i].1, &next);
        proof {
            n3.lemma_inv_nodes();
            lemma_sem_grown(n2@, n3@, half, k);
            assert(rel_in(n3@, inside) == rel_in(start, q).intersect(rel_in(start, region)));
            assert(lang(joined, k) == lang(c, k).union(lang(next, k)));
            assert forall|pq: (Packet, Packet)| #[trigger] rel_in(n3@, inside).contains(pq) implies !covered(
                n3@,
                half,
                pq,
            ) by {
                if covered(n3@, half, pq) {
                    assert(covered(n2@, half, pq));
                    assert(covered(n1@, listed, pq) || rel_in(n1@, outside).contains(pq));
                    if covered(n1@, listed, pq) {
                        assert(covered(n0@, listed, pq));
                        assert(covered(start, less, pq));
                    }
                }
            }
        }
        res = t_merge(store, res, inside, joined)?;
        let ghost n4 = *store;
        let ghost full_res = res@;
        proof {
            n4.lemma_inv_nodes();
            lemma_frame(n0@, n4@, q);
            lemma_frame(n0@, n4@, old_rest);
        }
        rest = store.difference(rest, q)?;
        proof {
            let now = store@;
            lemma_sem_grown(n4@, now, full_res, k);
            assert(rel_in(now, rest) == rel_in(n0@, old_rest).difference(rel_in(start, q)));
            assert forall|pq: (Packet, Packet)| #[trigger] covered(now, res@, pq) implies covered(
                start,
                list@.take(i + 1),
                pq,
            ) by {
                assert(covered(n4@, full_res, pq));
                assert(covered(n3@, half, pq) || rel_in(n3@, inside).contains(pq));
                if covered(n3@, half, pq) {
                    assert(covered(n2@, half, pq));
                    assert(covered(n1@, listed, pq) || rel_in(n1@, outside).contains(pq));
                    if covered(n1@, listed, pq) {
                        assert(covered(n0@, listed, pq));
                        assert(covered(start, less, pq));
                    }
                }
            }
            assert forall|pq: (Packet, Packet)| #[trigger]
                rel_in(now, rest).contains(pq) <==> rel_in(start, region).contains(pq) && !covered(
                    start,
                    list@.take(i + 1),
                    pq,
                ) by {
                assert(rel_in(n0@, old_rest).contains(pq) <==> rel_in(start, region).contains(pq) && !covered(
                    start,
                    less,
                    pq,
                ));
            }
            assert forall|input: Packet, t: Trace| #[trigger]
                t_sem(now, res@, k, input, t) <==> t_sem(start, list@.take(i + 1), k, input, t) || (hits(
                    start,
                    region,
                    next,
                    k,
                    input,
                    t,
                ) && covered(start, list@.take(i + 1), (input, t.input))) by {
                let p = (input, t.input);
                let took = t_sem(start, less, k, input, t);
                let new = hits(start, region, next, k, input, t);
                assert(t_sem(n1@, listed, k, input, t) == t_sem(n0@, listed, k, input, t));
                assert(t_sem(n0@, listed, k, input, t) == (took || (new && covered(start, less, p))));
                assert(hits(n1@, outside, c, k, input, t) == (hits(start, q, c, k, input, t) && !rel_in(
                    start,
                    region,
                ).contains(p)));
                assert(t_sem(n2@, half, k, input, t) == (t_sem(n1@, listed, k, input, t) || hits(
                    n1@,
                    outside,
                    c,
                    k,
                    input,
                    t,
                )));
                assert(t_sem(n3@, half, k, input, t) == t_sem(n2@, half, k, input, t));
                assert(hits(n3@, inside, joined, k, input, t) == (rel_in(start, q).contains(p) && rel_in(
                    start,
                    region,
                ).contains(p) && (lang(c, k).contains(t) || lang(next, k).contains(t))));
                assert(t_sem(n4@, full_res, k, input, t) == (t_sem(n3@, half, k, input, t) || hits(
                    n3@,
                    inside,
                    joined,
                    k,
                    input,
                    t,
                )));
                assert(t_sem(now, res@, k, input, t) == t_sem(n4@, full_res, k, input, t));
                assert(t_sem(start, list@.take(i + 1), k, input, t) == (took || hits(start, q, c, k, input, t)));
                assert(covered(start, list@.take(i + 1), p) == (covered(start, less, p) || rel_in(
                    start,
                    q,
                ).contains(p)));
            }
        }
        i += 1;
    }
    let ghost late = *store;
    let ghost listed = res@;
    proof {
        late.lemma_inv_nodes();
        assert(list@.take(list@.len() as int) =~= list@);
        assert forall|pq: (Packet, Packet)| #[trigger] rel_in(late@, rest).contains(pq) implies !covered(
            late@,
            listed,
            pq,
        ) by {
            if covered(late@, listed, pq) {
                assert(covered(start, list@, pq));
            }
        }
    }
    let merged = t_merge(store, res, rest, next);
    let res = merged?;
    proof {
        assert forall|input: Packet, t: Trace| #[trigger]
            t_sem(store@, res@, k, input, t) <==> t_sem(start, list@, k, input, t) || hits(
                start,
                region,
                next,
                k,
                input,
                t,
            ) by {
            let p = (input, t.input);
            assert(t_sem(store@, res@, k, input, t) == (t_sem(late@, listed, k, input, t) || hits(
                late@,
                rest,
                next,
                k,
                input,
                t,
            )));
            assert(rel_in(late@, rest).contains(p) == (rel_in(start, region).contains(p) && !covered(
                start,
                list@,
                p,
            )));
        }
    }
    Some(res)
}

/// The list that takes what either of two lists takes. `None` when the
/// store ran out of handles.
pub fn t_join(store: &mut SPPstore, ta: Trans, tb: &Trans) -> (r: Option<Trans>)
    requires
        old(store).wf(),
        t_valid(old(store)@, ta@, old(store).num_fields()),
        t_valid(old(store)@, tb@, old(store).num_fields()),
    ensures
        final(store).wf(),
        final(store).extends(old(store)),
        match r {
            Some(res) => {
                &&& t_valid(final(store)@, res@, old(store).num_fields())
                &&& forall|input: Packet, t: Trace| #[trigger]
                    t_sem(final(store)@, res@, old(store).num_fields(), input, t) <==> t_sem(
                        old(store)@,
                        ta@,
                        old(store).num_fields(),
                        input,
                        t,
                    ) || t_sem(old(store)@, tb@, old(store).num_fields(), input, t)
            },
            None => final(store).is_full(),
        },
{
    let ghost k = store.num_fields();
    let ghost start = store@;
    let mut res = ta;
    let mut j: usize = 0;
    proof {
        store.lemma_extends_self();
        lemma_sem_push(start, Seq::empty(), 0, top_exp(), k);
        assert(tb@.take(0) =~= Seq::empty());
    }
    while j < tb.len()
        invariant
            j <= tb.len(),
            k == old(store).num_fields(),
            start == old(store)@,
            store.wf(),
            old(store).wf(),
            store.extends(old(store)),
            t_valid(start, tb@, k),
            t_valid(store@, res@, k),
            forall|input: Packet, t: Trace| #[trigger]
                t_sem(store@, res@, k, input, t) <==> t_sem(start, ta@, k, input, t) || t_sem(
                    start,
                    tb@.take(j as int),
                    k,
                    input,
                    t,
                ),
        decreases tb.len() - j,
    {
        let ghost before = store@;
        let ghost listed = res@;
        proof {
            old(store).lemma_inv_nodes();
            lemma_frame(start, before, tb@[j as int].0);
        }
        res = t_add(store, res, tb[j].0, share(&tb[j].1))?;
        proof {
            lemma_sem_take(start, tb@, j as int, k);
            assert forall|input: Packet, t: Trace| #[trigger]
                t_sem(store@, res@, k, input, t) <==> t_sem(start, ta@, k, input, t) || t_sem(
                    start,
                    tb@.take(j + 1),
                    k,
                    input,
                    t,
                ) by {
                assert(hits(before, tb@[j as int].0, tb@[j as int].1, k, input, t) == hits(
                    start,
                    tb@[j as int].0,
                    tb@[j as int].1,
                    k,
                    input,
                    t,
                ));
                assert(t_sem(store@, res@, k, input, t) == (t_sem(before, listed, k, input, t) || hits(
                    before,
                    tb@[j as int].0,
                    tb@[j as int].1,
                    k,
                    input,
                    t,
                )));
            }
        }
        j += 1;
    }
    proof {
        assert(tb@.take(tb@.len() as int) =~= tb@);
    }
    Some(res)
}

/// The list that takes an input packet to the runs that `ta` does not take
/// it to: every transition goes on in the complement of its expression, and
/// what no region of `ta` relates goes on in `Top`. `None` when the store ran
/// out of handles.
#[verifier::rlimit(40)]
pub fn t_complement(store: &mut SPPstore, ta: &Trans) -> (r: Option<Trans>)
    requires
        old(store).wf(),
        t_valid(old(store)@, ta@, old(store).num_fields()),
    ensures
        final(store).wf(),
        final(store).extends(old(store)),
        match r {
            Some(res) => {
                &&& t_valid(final(store)@, res@, old(store).num_fields())
                &&& forall|input: Packet, t: Trace|
                    input.len() == old(store).num_fields() ==> (#[trigger] t_sem(
                        final(store)@,
                        res@,
                        old(store).num_fields(),
                        input,
                        t,
                    ) <==> trace_wf(t, old(store).num_fields()) && !t_sem(
                        old(store)@,
                        ta@,
                        old(store).num_fields(),
                        input,
                        t,
                    ))
            },
            None => final(store).is_full(),
        },
{
    let ghost k = store.num_fields();
    let ghost start = store@;
    let mut res: Trans = Vec::new();
    let mut rest = store.top;
    let mut i: usize = 0;
    proof {
        store.lemma_extends_self();
        lemma_sem_push(start, Seq::empty(), 0, top_exp(), k);
        assert(ta@.take(0) =~= Seq::empty());
    }
    while i < ta.len()
        invariant
            i <= ta.len(),
            k == old(store).num_fields(),
            start == old(store)@,
            store.wf(),
            old(store).wf(),
            store.extends(old(store)),
            t_valid(start, ta@, k),
            t_valid(store@, res@, k),
            store.valid(rest),
            store.depth(rest) == k,
            forall|pq: (Packet, Packet)| #[trigger]
                rel_in(store@, rest).contains(pq) <==> full(k).contains(pq) && !covered(
                    start,
                    ta@.take(i as int),
                    pq,
                ),
            forall|input: Packet, t: Trace| #[trigger]
                t_sem(store@, res@, k, input, t) <==> trace_wf(t, k) && covered(
                    start,
                    ta@.take(i as int),
                    (input, t.input),
                ) && !t_sem(start, ta@.take(i as int), k, input, t),
        decreases ta.len() - i,
    {
        let ghost n0 = *store;
        let ghost listed = res@;
        let ghost c = ta@[i as int].1;
        let ghost less = ta@.take(i as int);
        let ghost old_rest = rest;
        proof {
            n0.lemma_inv_nodes();
            old(store).lemma_inv_nodes();
            lemma_frame(start, n0@, ta@[i as int].0);
            lemma_covered_take(start, ta@, i as int);
            lemma_sem_take(start, ta@, i as int, k);
        }
        let q = ta[i].0;
        let not_c = neg(&ta[i].1);
        res = t_add(store, res, q, not_c)?;
        let ghost n1 = *store;
        let ghost added = res@;
        proof {
            n1.lemma_inv_nodes();
            lemma_frame(n0@, n1@, q);
            lemma_frame(n0@, n1@, old_rest);
        }
        rest = store.difference(rest, q)?;
        proof {
            let now = store@;
            lemma_sem_grown(n1@, now, added, k);
            assert(rel_in(now, rest) == rel_in(n0@, old_rest).difference(rel_in(start, q)));
            assert forall|pq: (Packet, Packet)| #[trigger]
                rel_in(now, rest).contains(pq) <==> full(k).contains(pq) && !covered(start, ta@.take(i + 1), pq) by {
                assert(rel_in(n0@, old_rest).contains(pq) <==> full(k).contains(pq) && !covered(start, less, pq));
            }
            assert forall|input: Packet, t: Trace| #[trigger]
                t_sem(now, res@, k, input, t) <==> trace_wf(t, k) && covered(
                    start,
                    ta@.take(i + 1),
                    (input, t.input),
                ) && !t_sem(start, ta@.take(i + 1), k, input, t) by {
                let p = (input, t.input);
                assert(t_sem(now, res@, k, input, t) == t_sem(n1@, added, k, input, t));
                assert(t_sem(n1@, added, k, input, t) == (t_sem(n0@, listed, k, input, t) || hits(
                    n0@,
                    q,
                    not_c,
                    k,
                    input,
                    t,
                )));
                assert(lang(not_c, k) == l_not(lang(c, k), k));
                assert(hits(n0@, q, not_c, k, input, t) == (rel_in(start, q).contains(p) && trace_wf(t, k)
                    && !lang(c, k).contains(t)));
                assert(t_sem(start, ta@.take(i + 1), k, input, t) == (t_sem(start, less, k, input, t) || hits(
                    start,
                    q,
                    c,
                    k,
                    input,
                    t,
                )));
                assert(covered(start, ta@.take(i + 1), p) == (covered(start, less, p) || rel_in(start, q).contains(
                    p,
                )));
                if rel_in(start, q).contains(p) {
                    assert(!covered(start, less, p));
                    if t_sem(start, less, k, input, t) {
                        let x = choose|x: int|
                            0 <= x < less.len() && #[trigger] hits(start, less[x].0, less[x].1, k, input, t);
                        assert(rel_in(start, less[x].0).contains(p));
                        assert(covered(start, less, p));
                    }
                }
            }
        }
        i += 1;
    }
    let ghost late = *store;
    let ghost listed = res@;
    proof {
        assert(ta@.take(ta@.len() as int) =~= ta@);
    }
    let added = t_add(store, res, rest, Expr::top());
    let res = added?;
    proof {
        assert forall|input: Packet, t: Trace| input.len() == k implies (#[trigger] t_sem(store@, res@, k, input, t)
            <==> trace_wf(t, k) && !t_sem(start, ta@, k, input, t)) by {
            reveal_with_fuel(lang, 1);
            let p = (input, t.input);
            assert(t_sem(store@, res@, k, input, t) == (t_sem(late@, listed, k, input, t) || hits(
                late@,
                rest,
                top_exp(),
                k,
                input,
                t,
            )));
            assert(rel_in(late@, rest).contains(p) == (full(k).contains(p) && !covered(start, ta@, p)));
            if t_sem(start, ta@, k, input, t) {
                let x = choose|x: int| 0 <= x < ta@.len() && #[trigger] hits(start, ta@[x].0, ta@[x].1, k, input, t);
                assert(rel_in(start, ta@[x].0).contains(p));
                assert(covered(start, ta@, p));
            }
        }
    }
    Some(res)
}

/// The list that takes what both `ta` and the transition from `region` to
/// `next` take. `None` when the store ran out of handles.
#[verifier::rlimit(40)]
pub fn t_meet_one(store: &mut SPPstore, ta: &Trans, region: SPP, next: &Exp) -> (r: Option<Trans>)
    requires
        old(store).wf(),
        t_valid(old(store)@, ta@, old(store).num_fields()),
        old(store).valid(region),
        old(store).depth(region) == old(store).num_fields(),
    ensures
        final(store).wf(),
        final(store).extends(old(store)),
        match r {
            Some(res) => {
                &&& t_valid(final(store)@, res@, old(store).num_fields())
                &&& forall|input: Packet, t: Trace| #[trigger]
                    t_sem(final(store)@, res@, old(store).num_fields(), input, t) <==> t_sem(
                        old(store)@,
                        ta@,
                        old(store).num_fields(),
                        input,
                        t,
                    ) && hits(old(store)@, region, *next, old(store).num_fields(), input, t)
            },
            None => final(store).is_full(),
        },
{
    let ghost k = store.num_fields();
    let ghost start = store@;
    let mut res: Trans = Vec::new();
    let mut i: usize = 0;
    proof {
        store.lemma_extends_self();
        lemma_sem_push(store@, Seq::empty(), region, *next, k);
        assert(ta@.take(0) =~= Seq::empty());
    }
    while i < ta.len()
        invariant
            i <= ta.len(),
            k == old(store).num_fields(),
            start == old(store)@,
            store.wf(),
            old(store).wf(),
            store.extends(old(store)),
            t_valid(start, ta@, k),
            t_valid(store@, res@, k),
            old(store).valid(region),
            old(store).depth(region) == k,
            forall|input: Packet, t: Trace| #[trigger]
                t_sem(store@, res@, k, input, t) <==> t_sem(start, ta@.take(i as int), k, input, t) && hits(
                    start,
                    region,
                    *next,
                    k,
                    input,
                    t,
                ),
        decreases ta.len() - i,
    {
        let ghost n0 = *store;
        let ghost listed = res@;
        let ghost c = ta@[i as int].1;
        proof {
            n0.lemma_inv_nodes();
            old(store).lemma_inv_nodes();
            lemma_frame(start, n0@, ta@[i as int].0);
            lemma_frame(start, n0@, region);
        }
        let q = ta[i].0;
        let inside = store.intersect(q, region)?;
        let ghost n1 = *store;
        let both = meet(&ta[i].1, next);
        proof {
            n1.lemma_inv_nodes();
            lemma_sem_grown(n0@, n1@, listed, k);
            assert(lang(both, k) == lang(c, k).intersect(lang(*next, k)));
        }
        res = t_add(store, res, inside, both)?;
        proof {
            let now = store@;
            lemma_sem_take(start, ta@, i as int, k);
            assert(rel_in(n1@, inside) == rel_in(start, q).intersect(rel_in(start, region)));
            assert forall|input: Packet, t: Trace| #[trigger]
                t_sem(now, res@, k, input, t) <==> t_sem(start, ta@.take(i + 1), k, input, t) && hits(
                    start,
                    region,
                    *next,
                    k,
                    input,
                    t,
                ) by {
                assert(t_sem(n1@, listed, k, input, t) == t_sem(n0@, listed, k, input, t));
                assert(hits(n1@, inside, both, k, input, t) == (hits(start, q, c, k, input, t) && hits(
                    start,
                    region,
                    *next,
                    k,
                    input,
                    t,
                )));
                assert(t_sem(now, res@, k, input, t) == (t_sem(n1@, listed, k, input, t) || hits(
                    n1@,
                    inside,
                    both,
                    k,
                    input,
                    t,
                )));
            }
        }
        i += 1;
    }
    proof {
        assert(ta@.take(ta@.len() as int) =~= ta@);
    }
    Some(res)
}

/// The list that takes what both `ta` and `tb` take. `None` when the store
/// ran out of handles.
pub fn t_meet(store: &mut SPPstore, ta: &Trans, tb: &Trans) -> (r: Option<Trans>)
    requires
        old(store).wf(),
        t_valid(old(store)@, ta@, old(store).num_fields()),
        t_valid(old(store)@, tb@, old(store).num_fields()),
    ensures
        final(store).wf(),
        final(store).extends(old(store)),
        match r {
            Some(res) => {
                &&& t_valid(final(store)@, res@, old(store).num_fields())
                &&& forall|input: Packet, t: Trace| #[trigger]
                    t_sem(final(store)@, res@, old(store).num_fields(), input, t) <==> t_sem(
                        old(store)@,
                        ta@,
                        old(store).num_fields(),
                        input,
                        t,
                    ) && t_sem(old(store)@, tb@, old(store).num_fields(), input, t)
            },
            None => final(store).is_full(),
        },
{
    let ghost k = store.num_fields();
    let ghost start = store@;
    let mut res: Trans = Vec::new();
    let mut j: usize = 0;
    proof {
        store.lemma_extends_self();
        lemma_sem_push(store@, Seq::empty(), 0, top_exp(), k);
        assert(tb@.take(0) =~= Seq::empty());
    }
    while j < tb.len()
        invariant
            j <= tb.len(),
            k == old(store).num_fields(),
            start == old(store)@,
            store.wf(),
            old(store).wf(),
            store.extends(old(store)),
            t_valid(start, ta@, k),
            t_valid(start, tb@, k),
            t_valid(store@, res@, k),
            forall|input: Packet, t: Trace| #[trigger]
                t_sem(store@, res@, k, input, t) <==> t_sem(start, ta@, k, input, t) && t_sem(
                    start,
                    tb@.take(j as int),
                    k,
                    input,
                    t,
                ),
        decreases tb.len() - j,
    {
        let ghost n0 = *store;
        let ghost listed = res@;
        proof {
            n0.lemma_inv_nodes();
            old(store).lemma_inv_nodes();
            lemma_sem_grown(start, n0@, ta@, k);
            lemma_frame(start, n0@, tb@[j as int].0);
        }
        let one = t_meet_one(store, ta, tb[j].0, &tb[j].1)?;
        let ghost n1 = *store;
        let ghost added = one@;
        proof {
            n1.lemma_inv_nodes();
            lemma_sem_grown(n0@, n1@, listed, k);
        }
        res = t_join(store, res, &one)?;
        proof {
            let now = store@;
            lemma_sem_take(start, tb@, j as int, k);
            assert forall|input: Packet, t: Trace| #[trigger]
                t_sem(now, res@, k, input, t) <==> t_sem(start, ta@, k, input, t) && t_sem(
                    start,
                    tb@.take(j + 1),
                    k,
                    input,
                    t,
                ) by {
                assert(t_sem(n1@, listed, k, input, t) == t_sem(n0@, listed, k, input, t));
                assert(t_sem(n0@, ta@, k, input, t) == t_sem(start, ta@, k, input, t));
                assert(hits(n0@, tb@[j as int].0, tb@[j as int].1, k, input, t) == hits(
                    start,
                    tb@[j as int].0,
                    tb@[j as int].1,
                    k,
                    input,
                    t,
                ));
                assert(t_sem(n1@, added, k, input, t) == (t_sem(n0@, ta@, k, input, t) && hits(
                    n0@,
                    tb@[j as int].0,
                    tb@[j as int].1,
                    k,
                    input,
                    t,
                )));
                assert(t_sem(now, res@, k, input, t) == (t_sem(n1@, listed, k, input, t) || t_sem(
                    n1@,
                    added,
                    k,
                    input,
                    t,
                )));
            }
        }
        j += 1;
    }
    proof {
        assert(tb@.take(tb@.len() as int) =~= tb@);
    }
    Some(res)
}

/// The list `res` is the list `ta` with every run going on into `b` once its
/// expression is done: transition by transition the same region, into an
/// expression for the sequence of the two.
pub open spec fn then_list(res: Seq<(SPP, Exp)>, ta: Seq<(SPP, Exp)>, b: Exp) -> bool {
    &&& res.len() == ta.len()
    &&& forall|i: int| 0 <= i < ta.len() ==> (#[trigger] res[i]).0 == ta[i].0
    &&& forall|i: int, k: nat|
        0 <= i < ta.len() ==> #[trigger] lang(res[i].1, k) == l_seq(lang(ta[i].1, k), lang(b, k))
}

/// The run `t` can be cut after `i` recordings, at the packet `m`, into a
/// run that `ta` takes `input` to and a run of `b`.
pub open spec fn passes(
    nodes: Seq<SPPnode>,
    ta: Seq<(SPP, Exp)>,
    b: Lang,
    k: nat,
    input: Packet,
    t: Trace,
    i: int,
    m: Packet,
) -> bool {
    0 <= i < t.hist.len() && t_sem(nodes, ta, k, input, front(t, i, m)) && b.contains(back(t, i, m))
}

/// What a `then_list` takes: the runs that can be cut into a run that `ta`
/// takes and a run of `b`.
pub proof fn lemma_then_sem(nodes: Seq<SPPnode>, tl: Seq<(SPP, Exp)>, ta: Seq<(SPP, Exp)>, b: Exp, k: nat)
    requires
        then_list(tl, ta, b),
    ensures
        t_valid(nodes, ta, k) ==> t_valid(nodes, tl, k),
        forall|input: Packet, t: Trace| #[trigger]
            t_sem(nodes, tl, k, input, t) <==> exists|i: int, m: Packet| #[trigger]
                passes(nodes, ta, lang(b, k), k, input, t, i, m),
{
    let lb = lang(b, k);
    assert forall|input: Packet, t: Trace| #[trigger]
        t_sem(nodes, tl, k, input, t) <==> exists|i: int, m: Packet| #[trigger]
            passes(nodes, ta, lb, k, input, t, i, m) by {
        if t_sem(nodes, tl, k, input, t) {
            let x = choose|x: int| 0 <= x < tl.len() && #[trigger] hits(nodes, tl[x].0, tl[x].1, k, input, t);
            assert(tl[x].0 == ta[x].0);
            assert(lang(tl[x].1, k) == l_seq(lang(ta[x].1, k), lb));
            lemma_seq_elim(lang(ta[x].1, k), lb, t);
            let (i, m) = cut_of(lang(ta[x].1, k), lb, t);
            assert(hits(nodes, ta[x].0, ta[x].1, k, input, front(t, i, m)));
            assert(passes(nodes, ta, lb, k, input, t, i, m));
        }
        if exists|i: int, m: Packet| #[trigger] passes(nodes, ta, lb, k, input, t, i, m) {
            let (i, m) = choose|i: int, m: Packet| #[trigger] passes(nodes, ta, lb, k, input, t, i, m);
            let f = front(t, i, m);
            let x = choose|x: int| 0 <= x < ta.len() && #[trigger] hits(nodes, ta[x].0, ta[x].1, k, input, f);
            assert(cut(lang(ta[x].1, k), lb, t, i, m));
            assert(tl[x].0 == ta[x].0);
            assert(lang(tl[x].1, k) == l_seq(lang(ta[x].1, k), lb));
            assert(hits(nodes, tl[x].0, tl[x].1, k, input, t));
        }
    }
    if t_valid(nodes, ta, k) {
        assert forall|i: int| 0 <= i < tl.len() implies valid_in(nodes, (#[trigger] tl[i]).0) && depth_in(
            nodes,
            tl[i].0,
        ) == k by {
            assert(tl[i].0 == ta[i].0);
        }
    }
}

/// Builds a `then_list`, with the sequences in normal form: each
/// expression of the list is written as a row.
pub fn t_then(ta: &Trans, b: &Exp) -> (res: Trans)
    ensures
        then_list(res@, ta@, *b),
        forall|i: int| 0 <= i < res@.len() ==> row((#[trigger] res@[i]).1),
{
    let mut res: Trans = Vec::new();
    let second = spine(b);
    let mut i: usize = 0;
    while i < ta.len()
        invariant
            i <= ta.len(),
            then_list(res@, ta@.take(i as int), *b),
            forall|k: nat| #[trigger] lang(second, k) == lang(*b, k),
            row(second),
            forall|x: int| 0 <= x < res@.len() ==> row((#[trigger] res@[x]).1),
        decreases ta.len() - i,
    {
        let ghost before = res@;
        let next = chain(&ta[i].1, &second);
        res.push((ta[i].0, next));
        proof {
            assert forall|x: int| 0 <= x < res@.len() implies row((#[trigger] res@[x]).1) by {
                if x < i {
                    assert(res@[x] == before[x]);
                }
            }
            let more = ta@.take(i + 1);
            assert forall|x: int| 0 <= x < more.len() implies (#[trigger] res@[x]).0 == more[x].0 by {
                if x < i {
                    assert(res@[x] == before[x]);
                    assert(before[x].0 == ta@.take(i as int)[x].0);
                }
            }
            assert forall|x: int, k: nat| 0 <= x < more.len() implies #[trigger] lang(res@[x].1, k) == l_seq(
                lang(more[x].1, k),
                lang(*b, k),
            ) by {
                if x < i {
                    assert(res@[x] == before[x]);
                    assert(lang(before[x].1, k) == l_seq(lang(ta@.take(i as int)[x].1, k), lang(*b, k)));
                } else {
                    assert(lang(second, k) == lang(*b, k));
                }
            }
        }
        i += 1;
    }
    proof {
        assert(ta@.take(ta@.len() as int) =~= ta@);
    }
    res
}

/// Some packet that `e` relates `input` to is taken by `tb` to the run `t`.
pub open spec fn through(nodes: Seq<SPPnode>, e: SPP, tb: Seq<(SPP, Exp)>, k: nat, input: Packet, t: Trace) -> bool {
    exists|m: Packet| #[trigger] rel_in(nodes, e).contains((input, m)) && t_sem(nodes, tb, k, m, t)
}

/// The list that takes an input packet, through `e`, to what `tb` takes:
/// each region of `tb` with `e` in front. `None` when the store ran out of
/// handles.
#[verifier::rlimit(40)]
pub fn t_after(store: &mut SPPstore, e: SPP, tb: &Trans) -> (r: Option<Trans>)
    requires
        old(store).wf(),
        t_valid(old(store)@, tb@, old(store).num_fields()),
        old(store).valid(e),
        old(store).depth(e) == old(store).num_fields(),
    ensures
        final(store).wf(),
        final(store).extends(old(store)),
        match r {
            Some(res) => {
                &&& t_valid(final(store)@, res@, old(store).num_fields())
                &&& forall|input: Packet, t: Trace| #[trigger]
                    t_sem(final(store)@, res@, old(store).num_fields(), input, t) <==> through(
                        old(store)@,
                        e,
                        tb@,
                        old(store).num_fields(),
                        input,
                        t,
                    )
            },
            None => final(store).is_full(),
        },
{
    let ghost k = store.num_fields();
    let ghost start = store@;
    let mut res: Trans = Vec::new();
    let mut j: usize = 0;
    proof {
        store.lemma_extends_self();
        lemma_sem_push(store@, Seq::empty(), 0, top_exp(), k);
        assert(tb@.take(0) =~= Seq::empty());
    }
    while j < tb.len()
        invariant
            j <= tb.len(),
            k == old(store).num_fields(),
            start == old(store)@,
            store.wf(),
            old(store).wf(),
            store.extends(old(store)),
            t_valid(start, tb@, k),
            t_valid(store@, res@, k),
            old(store).valid(e),
            old(store).depth(e) == k,
            forall|input: Packet, t: Trace| #[trigger]
                t_sem(store@, res@, k, input, t) <==> through(start, e, tb@.take(j as int), k, input, t),
        decreases tb.len() - j,
    {
        let ghost n0 = *store;
        let ghost listed = res@;
        let ghost c = tb@[j as int].1;
        proof {
            n0.lemma_inv_nodes();
            old(store).lemma_inv_nodes();
            lemma_frame(start, n0@, tb@[j as int].0);
            lemma_frame(start, n0@, e);
        }
        let q = tb[j].0;
        let region = store.sequence(e, q)?;
        let ghost n1 = *store;
        proof {
            n1.lemma_inv_nodes();
            lemma_sem_grown(n0@, n1@, listed, k);
        }
        res = t_add(store, res, region, share(&tb[j].1))?;
        proof {
            let now = store@;
            lemma_sem_take(start, tb@, j as int, k);
            assert(rel_in(n1@, region) == compose(rel_in(start, e), rel_in(start, q)));
            assert forall|input: Packet, t: Trace| #[trigger]
                t_sem(now, res@, k, input, t) <==> through(start, e, tb@.take(j + 1), k, input, t) by {
                assert(t_sem(n1@, listed, k, input, t) == t_sem(n0@, listed, k, input, t));
                let reached = hits(n1@, region, c, k, input, t);
                assert(t_sem(now, res@, k, input, t) == (t_sem(n1@, listed, k, input, t) || reached));
                assert(t_sem(now, res@, k, input, t) == (through(start, e, tb@.take(j as int), k, input, t)
                    || reached));
                if reached {
                    lemma_compose_elim(rel_in(start, e), rel_in(start, q), input, t.input);
                    let m = mid(rel_in(start, e), rel_in(start, q), input, t.input);
                    assert(hits(start, q, c, k, m, t));
                    assert(t_sem(start, tb@.take(j + 1), k, m, t));
                }
                if through(start, e, tb@.take(j as int), k, input, t) {
                    let m = choose|m: Packet| #[trigger]
                        rel_in(start, e).contains((input, m)) && t_sem(start, tb@.take(j as int), k, m, t);
                    assert(t_sem(start, tb@.take(j + 1), k, m, t));
                }
                if through(start, e, tb@.take(j + 1), k, input, t) {
                    let m = choose|m: Packet| #[trigger]
                        rel_in(start, e).contains((input, m)) && t_sem(start, tb@.take(j + 1), k, m, t);
                    if hits(start, q, c, k, m, t) {
                        lemma_compose_intro(rel_in(start, e), rel_in(start, q), input, m, t.input);
                    } else {
                        assert(t_sem(start, tb@.take(j as int), k, m, t));
                    }
                }
            }
        }
        j += 1;
    }
    proof {
        assert(tb@.take(tb@.len() as int) =~= tb@);
    }
    Some(res)
}

/// What is computed of a state: what it accepts without recording, and its transitions.
pub struct Derived {
    /// The pairs of an input and an output packet accepted without recording.
    pub eps: SPP,
    /// The transitions.
    pub trans: Trans,
}

impl Derived {
    /// This is the automaton of `l` in a store with these nodes.
    pub open spec fn of(&self, nodes: Seq<SPPnode>, k: nat, l: Lang) -> bool {
        d_ok(nodes, self.eps, self.trans@, k, l)
    }
}

/// A copy of a list of transitions, sharing its expressions.
pub fn t_copy(ta: &Trans) -> (res: Trans)
    ensures
        res@ == ta@,
{
    let mut res: Trans = Vec::new();
    let mut i: usize = 0;
    while i < ta.len()
        invariant
            i <= ta.len(),
            res@ == ta@.take(i as int),
        decreases ta.len() - i,
    {
        res.push((ta[i].0, share(&ta[i].1)));
        proof {
            assert(res@ =~= ta@.take(i + 1));
        }
        i += 1;
    }
    proof {
        assert(ta@.take(ta@.len() as int) =~= ta@);
    }
    res
}

/// The automaton of a union. `None` when the store ran out of handles.
fn d_union(store: &mut SPPstore, a: &Derived, b: &Derived, Ghost(la): Ghost<Lang>, Ghost(lb): Ghost<Lang>) -> (r:
    Option<Derived>)
    requires
        old(store).wf(),
        a.of(old(store)@, old(store).num_fields(), la),
        b.of(old(store)@, old(store).num_fields(), lb),
    ensures
        final(store).wf(),
        final(store).extends(old(store)),
        a.of(final(store)@, old(store).num_fields(), la),
        b.of(final(store)@, old(store).num_fields(), lb),
        match r {
            Some(d) => d.of(final(store)@, old(store).num_fields(), la.union(lb)),
            None => final(store).is_full(),
        },
{
    let ghost k = store.num_fields();
    let ghost start = store@;
    proof {
        store.lemma_inv_nodes();
    }
    let res = store.union(a.eps, b.eps);
    proof {
        lemma_d_ok_grown(start, store@, a.eps, a.trans@, k, la);
        lemma_d_ok_grown(start, store@, b.eps, b.trans@, k, lb);
    }
    let eps = match res {
        Some(eps) => eps,
        None => {
            return None;
        },
    };
    let ghost half = *store;
    let joined = t_join(store, t_copy(&a.trans), &b.trans);
    proof {
        half.lemma_inv_nodes();
        lemma_d_ok_grown(half@, store@, a.eps, a.trans@, k, la);
        lemma_d_ok_grown(half@, store@, b.eps, b.trans@, k, lb);
        lemma_frame(half@, store@, eps);
    }
    let trans = joined?;
    proof {
        lemma_eps_boolean(la, lb, k);
        assert forall|input: Packet, t: Trace| input.len() == k implies (#[trigger] t_sem(
            store@,
            trans@,
            k,
            input,
            t,
        ) <==> der(la.union(lb), input).contains(t)) by {
            lemma_der_boolean(la, lb, input, k);
            assert(der(la, input).contains(t) == t_sem(half@, a.trans@, k, input, t));
            assert(der(lb, input).contains(t) == t_sem(half@, b.trans@, k, input, t));
        }
    }
    Some(Derived { eps, trans })
}

/// The automaton of an intersection. `None` when the store ran out of handles.
fn d_meet(store: &mut SPPstore, a: &Derived, b: &Derived, Ghost(la): Ghost<Lang>, Ghost(lb): Ghost<Lang>) -> (r:
    Option<Derived>)
    requires
        old(store).wf(),
        a.of(old(store)@, old(store).num_fields(), la),
        b.of(old(store)@, old(store).num_fields(), lb),
    ensures
        final(store).wf(),
        final(store).extends(old(store)),
        a.of(final(store)@, old(store).num_fields(), la),
        b.of(final(store)@, old(store).num_fields(), lb),
        match r {
            Some(d) => d.of(final(store)@, old(store).num_fields(), la.intersect(lb)),
            None => final(store).is_full(),
        },
{
    let ghost k = store.num_fields();
    let ghost start = store@;
    proof {
        store.lemma_inv_nodes();
    }
    let res = store.intersect(a.eps, b.eps);
    let ghost half = *store;
    proof {
        lemma_d_ok_grown(start, store@, a.eps, a.trans@, k, la);
        lemma_d_ok_grown(start, store@, b.eps, b.trans@, k, lb);
        half.lemma_inv_nodes();
    }
    let eps = match res {
        Some(eps) => eps,
        None => {
            return None;
        },
    };
    let met = t_meet(store, &a.trans, &b.trans);
    proof {
        lemma_d_ok_grown(half@, store@, a.eps, a.trans@, k, la);
        lemma_d_ok_grown(half@, store@, b.eps, b.trans@, k, lb);
    }
    let trans = met?;
    proof {
        lemma_eps_boolean(la, lb, k);
        assert forall|input: Packet, t: Trace| input.len() == k implies (#[trigger] t_sem(
            store@,
            trans@,
            k,
            input,
            t,
        ) <==> der(la.intersect(lb), input).contains(t)) by {
            lemma_der_boolean(la, lb, input, k);
            assert(der(la, input).contains(t) == t_sem(half@, a.trans@, k, input, t));
            assert(der(lb, input).contains(t) == t_sem(half@, b.trans@, k, input, t));
        }
    }
    Some(Derived { eps, trans })
}

/// The automaton of a complement. `None` when the store ran out of handles.
fn d_not(store: &mut SPPstore, a: &Derived, Ghost(la): Ghost<Lang>) -> (r: Option<Derived>)
    requires
        old(store).wf(),
        a.of(old(store)@, old(store).num_fields(), la),
    ensures
        final(store).wf(),
        final(store).extends(old(store)),
        a.of(final(store)@, old(store).num_fields(), la),
        match r {
            Some(d) => d.of(final(store)@, old(store).num_fields(), l_not(la, old(store).num_fields())),
            None => final(store).is_full(),
        },
{
    let ghost k = store.num_fields();
    let ghost start = store@;
    proof {
        store.lemma_inv_nodes();
    }
    let res = store.complement(a.eps);
    let ghost half = *store;
    proof {
        lemma_d_ok_grown(start, store@, a.eps, a.trans@, k, la);
        half.lemma_inv_nodes();
    }
    let eps = match res {
        Some(eps) => eps,
        None => {
            return None;
        },
    };
    let rest = t_complement(store, &a.trans);
    proof {
        lemma_d_ok_grown(half@, store@, a.eps, a.trans@, k, la);
    }
    let trans = rest?;
    proof {
        lemma_eps_boolean(la, la, k);
        assert forall|input: Packet, t: Trace| input.len() == k implies (#[trigger] t_sem(
            store@,
            trans@,
            k,
            input,
            t,
        ) <==> der(l_not(la, k), input).contains(t)) by {
            lemma_der_boolean(la, la, input, k);
            assert(der(la, input).contains(t) == t_sem(half@, a.trans@, k, input, t));
        }
    }
    Some(Derived { eps, trans })
}

/// The automaton of a sequence; `second` is the expression of its second
/// part. `None` when the store ran out of handles.
#[verifier::rlimit(40)]
fn d_seq(
    store: &mut SPPstore,
    a: &Derived,
    b: &Derived,
    second: &Exp,
    Ghost(la): Ghost<Lang>,
    Ghost(lb): Ghost<Lang>,
) -> (r: Option<Derived>)
    requires
        old(store).wf(),
        a.of(old(store)@, old(store).num_fields(), la),
        b.of(old(store)@, old(store).num_fields(), lb),
        lang(*second, old(store).num_fields()) == lb,
        within(la, old(store).num_fields()),
        within(lb, old(store).num_fields()),
    ensures
        final(store).wf(),
        final(store).extends(old(store)),
        a.of(final(store)@, old(store).num_fields(), la),
        b.of(final(store)@, old(store).num_fields(), lb),
        match r {
            Some(d) => d.of(final(store)@, old(store).num_fields(), l_seq(la, lb)),
            None => final(store).is_full(),
        },
{
    let ghost k = store.num_fields();
    let ghost start = store@;
    proof {
        store.lemma_inv_nodes();
    }
    let res = store.sequence(a.eps, b.eps);
    let ghost half = *store;
    proof {
        lemma_d_ok_grown(start, store@, a.eps, a.trans@, k, la);
        lemma_d_ok_grown(start, store@, b.eps, b.trans@, k, lb);
        half.lemma_inv_nodes();
    }
    let eps = match res {
        Some(eps) => eps,
        None => {
            return None;
        },
    };
    let later = t_after(store, a.eps, &b.trans);
    proof {
        lemma_d_ok_grown(half@, store@, a.eps, a.trans@, k, la);
        lemma_d_ok_grown(half@, store@, b.eps, b.trans@, k, lb);
        lemma_frame(half@, store@, eps);
    }
    let rest = later?;
    let ghost after = rest@;
    let first_part = t_then(&a.trans, second);
    let ghost first = first_part@;
    let ghost late = *store;
    proof {
        late.lemma_inv_nodes();
        lemma_then_sem(late@, first, a.trans@, *second, k);
    }
    let joined = t_join(store, first_part, &rest);
    proof {
        lemma_d_ok_grown(late@, store@, a.eps, a.trans@, k, la);
        lemma_d_ok_grown(late@, store@, b.eps, b.trans@, k, lb);
        lemma_frame(late@, store@, eps);
    }
    let trans = joined?;
    proof {
        let now = late@;
        lemma_eps_seq(la, lb, k);
        lemma_eps_boolean(la, la, k);
        assert forall|input: Packet, t: Trace| input.len() == k implies (#[trigger] t_sem(
            store@,
            trans@,
            k,
            input,
            t,
        ) <==> der(l_seq(la, lb), input).contains(t)) by {
            lemma_der_seq(la, lb, input, k);
            let one = l_seq(der(la, input), lb);
            let two = der_through(eps_of(la, k), lb, input);
            assert(t_sem(store@, trans@, k, input, t) == (t_sem(now, first, k, input, t) || t_sem(
                now,
                after,
                k,
                input,
                t,
            )));
            assert(t_sem(now, first, k, input, t) == one.contains(t)) by {
                if t_sem(now, first, k, input, t) {
                    let (i, m) = choose|i: int, m: Packet| #[trigger]
                        passes(now, a.trans@, lb, k, input, t, i, m);
                    assert(der(la, input).contains(front(t, i, m)));
                    assert(cut(der(la, input), lb, t, i, m));
                }
                if one.contains(t) {
                    lemma_seq_elim(der(la, input), lb, t);
                    let (i, m) = cut_of(der(la, input), lb, t);
                    assert(t_sem(now, a.trans@, k, input, front(t, i, m)));
                    assert(passes(now, a.trans@, lb, k, input, t, i, m));
                }
            }
            assert(t_sem(now, after, k, input, t) == two.contains(t)) by {
                assert(t_sem(now, after, k, input, t) == through(half@, a.eps, b.trans@, k, input, t));
                if through(half@, a.eps, b.trans@, k, input, t) {
                    let m = choose|m: Packet| #[trigger]
                        rel_in(half@, a.eps).contains((input, m)) && t_sem(half@, b.trans@, k, m, t);
                    assert(eps_of(la, k).contains((input, m)));
                    assert(der(lb, m).contains(t));
                }
                if two.contains(t) {
                    let m = choose|m: Packet| #[trigger]
                        eps_of(la, k).contains((input, m)) && der(lb, m).contains(t);
                    assert(t_sem(half@, b.trans@, k, m, t));
                    assert(rel_in(half@, a.eps).contains((input, m)));
                }
            }
        }
    }
    Some(Derived { eps, trans })
}

/// The automaton of an iteration; `whole` is the expression of the
/// iteration. `None` when the store ran out of handles.
#[verifier::rlimit(40)]
fn d_star(store: &mut SPPstore, a: &Derived, whole: &Exp, Ghost(la): Ghost<Lang>) -> (r: Option<Derived>)
    requires
        old(store).wf(),
        a.of(old(store)@, old(store).num_fields(), la),
        lang(*whole, old(store).num_fields()) == l_star(la, old(store).num_fields()),
        within(la, old(store).num_fields()),
    ensures
        final(store).wf(),
        final(store).extends(old(store)),
        match r {
            Some(d) => d.of(final(store)@, old(store).num_fields(), l_star(la, old(store).num_fields())),
            None => final(store).is_full(),
        },
{
    let ghost k = store.num_fields();
    let ghost start = store@;
    proof {
        store.lemma_inv_nodes();
    }
    let eps = store.star(a.eps)?;
    let ghost half = *store;
    let inner = t_then(&a.trans, whole);
    proof {
        lemma_d_ok_grown(start, store@, a.eps, a.trans@, k, la);
        half.lemma_inv_nodes();
        lemma_then_sem(half@, inner@, a.trans@, *whole, k);
    }
    let trans = t_after(store, eps, &inner)?;
    proof {
        let now = store@;
        let ls = l_star(la, k);
        lemma_eps_star(la, k);
        lemma_eps_boolean(la, la, k);
        crate::relation::lemma_star_typed(eps_of(la, k), k);
        lemma_frame(half@, now, eps);
        assert forall|input: Packet, t: Trace| input.len() == k implies (#[trigger] t_sem(now, trans@, k, input, t)
            <==> der(ls, input).contains(t)) by {
            lemma_der_star(la, input, k);
            assert(t_sem(now, trans@, k, input, t) == through(half@, eps, inner@, k, input, t));
            if through(half@, eps, inner@, k, input, t) {
                let m = choose|m: Packet| #[trigger]
                    rel_in(half@, eps).contains((input, m)) && t_sem(half@, inner@, k, m, t);
                let (i, far) = choose|i: int, far: Packet| #[trigger]
                    passes(half@, a.trans@, ls, k, m, t, i, far);
                assert(star(eps_of(la, k), k).contains((input, m)));
                assert(der(la, m).contains(front(t, i, far)));
                assert(cut(der(la, m), ls, t, i, far));
                assert(der_star(la, input, k).contains(t));
            }
            if der_star(la, input, k).contains(t) {
                let m = choose|m: Packet| #[trigger]
                    star(eps_of(la, k), k).contains((input, m)) && l_seq(der(la, m), ls).contains(t);
                lemma_seq_elim(der(la, m), ls, t);
                let (i, far) = cut_of(der(la, m), ls, t);
                assert(t_sem(half@, a.trans@, k, m, front(t, i, far)));
                assert(passes(half@, a.trans@, ls, k, m, t, i, far));
                assert(t_sem(half@, inner@, k, m, t));
                assert(rel_in(half@, eps).contains((input, m)));
            }
        }
    }
    Some(Derived { eps, trans })
}

/// The automaton of what goes on as the expression `next` after any first
/// recording, and accepts every pair of packets without recording when
/// `weak` and none otherwise.
fn d_step(store: &SPPstore, next: &Exp, weak: bool) -> (d: Derived)
    requires
        store.wf(),
    ensures
        d.of(
            store@,
            store.num_fields(),
            if weak {
                l_end(store.num_fields()).union(l_next(lang(*next, store.num_fields()), store.num_fields()))
            } else {
                l_next(lang(*next, store.num_fields()), store.num_fields())
            },
        ),
{
    let ghost k = store.num_fields();
    let ghost la = lang(*next, k);
    let eps = if weak {
        store.top
    } else {
        store.zero
    };
    let mut trans: Trans = Vec::new();
    trans.push((store.top, share(next)));
    proof {
        lemma_lang_within(*next, k);
        lemma_eps_atoms(la, la, empty(), k);
        lemma_eps_boolean(l_end(k), l_next(la, k), k);
        lemma_sem_push(store@, Seq::empty(), store.top, *next, k);
        assert(trans@ =~= Seq::<(SPP, Exp)>::empty().push((store.top, *next)));
        assert(full(k).union(empty()) =~= full(k));
        assert forall|input: Packet, t: Trace| input.len() == k implies (#[trigger] t_sem(
            store@,
            trans@,
            k,
            input,
            t,
        ) == der(l_next(la, k), input).contains(t)) && der(l_end(k).union(l_next(la, k)), input) == der(
            l_next(la, k),
            input,
        ) by {
            lemma_der_ltl(la, la, input, k);
            lemma_der_atoms(empty(), input, k);
            lemma_der_boolean(l_end(k), l_next(la, k), input, k);
            if la.contains(t) {
                assert(trace_wf(t, k));
            }
            assert(hits(store@, store.top, *next, k, input, t) == la.contains(t));
            assert(Set::<Trace>::empty().union(der(l_next(la, k), input)) =~= der(l_next(la, k), input));
        }
    }
    Derived { eps, trans }
}

/// The automaton of finally; `whole` is the expression of the predicate.
/// `None` when the store ran out of handles.
fn d_finally(store: &mut SPPstore, a: &Derived, whole: &Exp, Ghost(la): Ghost<Lang>) -> (r: Option<Derived>)
    requires
        old(store).wf(),
        a.of(old(store)@, old(store).num_fields(), la),
        lang(*whole, old(store).num_fields()) == l_finally(la, old(store).num_fields()),
        within(la, old(store).num_fields()),
    ensures
        final(store).wf(),
        final(store).extends(old(store)),
        a.of(final(store)@, old(store).num_fields(), la),
        match r {
            Some(d) => d.of(final(store)@, old(store).num_fields(), l_finally(la, old(store).num_fields())),
            None => final(store).is_full(),
        },
{
    let ghost k = store.num_fields();
    let ghost start = store@;
    proof {
        store.lemma_inv_nodes();
    }
    let added = t_add(store, t_copy(&a.trans), store.top, share(whole));
    proof {
        lemma_d_ok_grown(start, store@, a.eps, a.trans@, k, la);
    }
    let trans = added?;
    proof {
        let f = l_finally(la, k);
        lemma_eps_atoms(la, la, empty(), k);
        assert forall|input: Packet, t: Trace| input.len() == k implies (#[trigger] t_sem(
            store@,
            trans@,
            k,
            input,
            t,
        ) <==> der(f, input).contains(t)) by {
            lemma_der_ltl(la, la, input, k);
            if f.contains(t) {
                assert(trace_wf(t, k));
            }
            assert(hits(start, old(store).top, *whole, k, input, t) == f.contains(t));
            assert(der(la, input).contains(t) == t_sem(start, a.trans@, k, input, t));
        }
    }
    Some(Derived { eps: a.eps, trans })
}

/// The automaton of globally; `whole` is the expression of the predicate.
/// `None` when the store ran out of handles.
fn d_globally(store: &mut SPPstore, a: &Derived, whole: &Exp, Ghost(la): Ghost<Lang>) -> (r: Option<Derived>)
    requires
        old(store).wf(),
        a.of(old(store)@, old(store).num_fields(), la),
        lang(*whole, old(store).num_fields()) == l_globally(la, old(store).num_fields()),
        within(la, old(store).num_fields()),
    ensures
        final(store).wf(),
        final(store).extends(old(store)),
        a.of(final(store)@, old(store).num_fields(), la),
        match r {
            Some(d) => d.of(final(store)@, old(store).num_fields(), l_globally(la, old(store).num_fields())),
            None => final(store).is_full(),
        },
{
    let ghost k = store.num_fields();
    let ghost start = store@;
    proof {
        store.lemma_inv_nodes();
    }
    let met = t_meet_one(store, &a.trans, store.top, whole);
    proof {
        lemma_d_ok_grown(start, store@, a.eps, a.trans@, k, la);
    }
    let trans = met?;
    proof {
        let g = l_globally(la, k);
        lemma_eps_atoms(la, la, empty(), k);
        assert forall|input: Packet, t: Trace| input.len() == k implies (#[trigger] t_sem(
            store@,
            trans@,
            k,
            input,
            t,
        ) <==> der(g, input).contains(t)) by {
            lemma_der_ltl(la, la, input, k);
            if g.contains(t) {
                assert(trace_wf(t, k));
            }
            if der(la, input).contains(t) {
                lemma_der_boolean(la, la, input, k);
                assert(trace_wf(t, k));
            }
            assert(der(la, input).contains(t) ==> (hits(start, old(store).top, *whole, k, input, t) == g.contains(t)));
            assert(der(la, input).contains(t) == t_sem(start, a.trans@, k, input, t));
        }
    }
    Some(Derived { eps: a.eps, trans })
}

/// The automaton of until; `whole` is the expression of the predicate.
/// `None` when the store ran out of handles.
fn d_until(
    store: &mut SPPstore,
    a: &Derived,
    b: &Derived,
    whole: &Exp,
    Ghost(la): Ghost<Lang>,
    Ghost(lb): Ghost<Lang>,
) -> (r: Option<Derived>)
    requires
        old(store).wf(),
        a.of(old(store)@, old(store).num_fields(), la),
        b.of(old(store)@, old(store).num_fields(), lb),
        lang(*whole, old(store).num_fields()) == l_until(la, lb, old(store).num_fields()),
        within(la, old(store).num_fields()),
        within(lb, old(store).num_fields()),
    ensures
        final(store).wf(),
        final(store).extends(old(store)),
        a.of(final(store)@, old(store).num_fields(), la),
        b.of(final(store)@, old(store).num_fields(), lb),
        match r {
            Some(d) => d.of(final(store)@, old(store).num_fields(), l_until(la, lb, old(store).num_fields())),
            None => final(store).is_full(),
        },
{
    let ghost k = store.num_fields();
    let ghost start = store@;
    proof {
        store.lemma_inv_nodes();
    }
    let met = t_meet_one(store, &a.trans, store.top, whole);
    proof {
        lemma_d_ok_grown(start, store@, a.eps, a.trans@, k, la);
        lemma_d_ok_grown(start, store@, b.eps, b.trans@, k, lb);
    }
    let rest = met?;
    let ghost held = rest@;
    let ghost half = *store;
    let joined = t_join(store, t_copy(&b.trans), &rest);
    proof {
        half.lemma_inv_nodes();
        lemma_d_ok_grown(half@, store@, a.eps, a.trans@, k, la);
        lemma_d_ok_grown(half@, store@, b.eps, b.trans@, k, lb);
    }
    let trans = joined?;
    proof {
        let u = l_until(la, lb, k);
        lemma_eps_atoms(la, lb, empty(), k);
        assert forall|input: Packet, t: Trace| input.len() == k implies (#[trigger] t_sem(
            store@,
            trans@,
            k,
            input,
            t,
        ) <==> der(u, input).contains(t)) by {
            assert(t_sem(store@, trans@, k, input, t) == (t_sem(half@, b.trans@, k, input, t) || t_sem(
                half@,
                held,
                k,
                input,
                t,
            )));
            lemma_der_ltl(la, lb, input, k);
            if u.contains(t) {
                assert(trace_wf(t, k));
            }
            if der(la, input).contains(t) {
                lemma_der_boolean(la, la, input, k);
                assert(trace_wf(t, k));
            }
            assert(der(la, input).contains(t) ==> (hits(start, old(store).top, *whole, k, input, t) == u.contains(t)));
            assert(der(la, input).contains(t) == t_sem(start, a.trans@, k, input, t));
            assert(der(lb, input).contains(t) == t_sem(half@, b.trans@, k, input, t));
        }
    }
    Some(Derived { eps: b.eps, trans })
}

/// The automaton of a relation on packets, which records nothing.
fn d_rel(eps: SPP, Ghost(nodes): Ghost<Seq<SPPnode>>, Ghost(r): Ghost<Rel>, Ghost(k): Ghost<nat>) -> (d: Derived)
    requires
        valid_in(nodes, eps),
        depth_in(nodes, eps) == k,
        rel_in(nodes, eps) == r,
        typed(r, k),
    ensures
        d.of(nodes, k, l_rel(r, k)),
{
    let trans: Trans = Vec::new();
    proof {
        lemma_eps_atoms(Set::empty(), Set::empty(), r, k);
        lemma_sem_push(nodes, Seq::empty(), 0, top_exp(), k);
        assert forall|input: Packet, t: Trace| input.len() == k implies (#[trigger] t_sem(
            nodes,
            trans@,
            k,
            input,
            t,
        ) <==> der(l_rel(r, k), input).contains(t)) by {
            lemma_der_atoms(r, input, k);
        }
    }
    Derived { eps, trans }
}

/// What has been computed of expressions, to be used again.
pub type Memo = Vec<(Exp, Derived)>;

/// Every entry of the memo is the automaton of its expression.
pub open spec fn memo_ok(nodes: Seq<SPPnode>, memo: Seq<(Exp, Derived)>, k: nat) -> bool {
    forall|i: int| 0 <= i < memo.len() ==> (#[trigger] memo[i]).1.of(nodes, k, lang(memo[i].0, k))
}

/// The entries of the memo stay what they are when the store grows.
pub proof fn lemma_memo_grown(old: Seq<SPPnode>, new: Seq<SPPnode>, memo: Seq<(Exp, Derived)>, k: nat)
    requires
        nodes_wf(old),
        grown(old, new),
        memo_ok(old, memo, k),
    ensures
        memo_ok(new, memo, k),
{
    assert forall|i: int| 0 <= i < memo.len() implies (#[trigger] memo[i]).1.of(new, k, lang(memo[i].0, k)) by {
        lemma_d_ok_grown(old, new, memo[i].1.eps, memo[i].1.trans@, k, lang(memo[i].0, k));
    }
}

/// What is computed of `e` is kept for later: `e` is a sequence, an
/// iteration or a predicate of temporal logic, whose expansion comes back as
/// a state of its own automaton.
pub open spec fn kept(e: Exp) -> bool {
    match *e {
        Expr::Sequence(_, _)
        | Expr::Star(_)
        | Expr::LtlNext(_)
        | Expr::LtlWeakNext(_)
        | Expr::LtlFinally(_)
        | Expr::LtlGlobally(_)
        | Expr::LtlUntil(_, _)
        | Expr::LtlWeakUntil(_, _)
        | Expr::LtlRelease(_, _)
        | Expr::LtlStrongRelease(_, _) => true,
        _ => false,
    }
}

/// Whether what is computed of the expression is kept for later: of a
/// sequence, of an iteration and of the predicates of temporal logic.
fn is_kept(e: &Exp) -> (r: bool)
    ensures
        r == kept(*e),
{
    match &**e {
        Expr::Sequence(_, _)
        | Expr::Star(_)
        | Expr::LtlNext(_)
        | Expr::LtlWeakNext(_)
        | Expr::LtlFinally(_)
        | Expr::LtlGlobally(_)
        | Expr::LtlUntil(_, _)
        | Expr::LtlWeakUntil(_, _)
        | Expr::LtlRelease(_, _)
        | Expr::LtlStrongRelease(_, _) => true,
        _ => false,
    }
}

/// The memo holds an entry for the expression.
pub open spec fn remembered(memo: Seq<(Exp, Derived)>, e: Exp) -> bool {
    exists|i: int| 0 <= i < memo.len() && (#[trigger] memo[i]).0 == e
}

/// The automaton of an expression: what it accepts without recording, and
/// its transitions. What was computed before of a sequence, an iteration or
/// a predicate of temporal logic is taken from the memo, and what is
/// computed now is put there. `None` when the store ran out of handles.
pub fn expand(store: &mut SPPstore, memo: &mut Memo, e: &Exp) -> (r: Option<Derived>)
    requires
        old(store).wf(),
        memo_ok(old(store)@, old(memo)@, old(store).num_fields()),
    ensures
        final(store).wf(),
        final(store).extends(old(store)),
        match r {
            Some(d) => d.of(final(store)@, old(store).num_fields(), lang(*e, old(store).num_fields()))
                && memo_ok(final(store)@, final(memo)@, old(store).num_fields()) && (kept(*e) ==> remembered(
                final(memo)@,
                *e,
            )),
            None => final(store).is_full(),
        },
    decreases *e, 1nat,
{
    let kept = is_kept(e);
    if kept {
        let mut i: usize = 0;
        while i < memo.len()
            invariant
                i <= memo.len(),
                *store == *old(store),
                *memo == *old(memo),
                store.wf(),
                memo_ok(store@, memo@, store.num_fields()),
            decreases memo.len() - i,
        {
            if same(&memo[i].0, e) {
                let d = Derived { eps: memo[i].1.eps, trans: t_copy(&memo[i].1.trans) };
                proof {
                    store.lemma_extends_self();
                    assert(memo@[i as int].1.of(store@, store.num_fields(), lang(memo@[i as int].0, store.num_fields())));
                    assert(memo@[i as int].0 == *e);
                }
                return Some(d);
            }
            i += 1;
        }
    }
    let d = expand_fresh(store, memo, e)?;
    if kept {
        let copy = Derived { eps: d.eps, trans: t_copy(&d.trans) };
        memo.push((share(e), copy));
        proof {
            assert(memo@[memo@.len() - 1].0 == *e);
        }
    }
    Some(d)
}

/// The automaton of an expression, operator by operator. `None` when the
/// store ran out of handles.
#[verifier::rlimit(40)]
fn expand_fresh(store: &mut SPPstore, memo: &mut Memo, e: &Exp) -> (r: Option<Derived>)
    requires
        old(store).wf(),
        memo_ok(old(store)@, old(memo)@, old(store).num_fields()),
    ensures
        final(store).wf(),
        final(store).extends(old(store)),
        match r {
            Some(d) => d.of(final(store)@, old(store).num_fields(), lang(*e, old(store).num_fields()))
                && memo_ok(final(store)@, final(memo)@, old(store).num_fields()),
            None => final(store).is_full(),
        },
    decreases *e, 0nat,
{
    let ghost k = store.num_fields();
    let ghost start = store@;
    let ghost mut mark = *store;
    proof {
        store.lemma_extends_self();
        store.lemma_inv_nodes();
        reveal_with_fuel(lang, 3);
        crate::axioms::lemma_atoms_typed(0, true, k);
    }
    let res: Option<Derived> = match &**e {
        Expr::Zero => {
            proof {
                assert(l_rel(empty(), k) =~= Set::<Trace>::empty());
            }
            Some(d_rel(store.zero, Ghost(store@), Ghost(empty()), Ghost(k)))
        },
        Expr::One => Some(d_rel(store.one, Ghost(store@), Ghost(identity(k)), Ghost(k))),
        Expr::End => {
            let trans: Trans = Vec::new();
            proof {
                lemma_eps_atoms(Set::empty(), Set::empty(), empty(), k);
                lemma_sem_push(store@, Seq::empty(), 0, top_exp(), k);
                assert forall|input: Packet, t: Trace| input.len() == k implies (#[trigger] t_sem(
                    store@,
                    trans@,
                    k,
                    input,
                    t,
                ) <==> der(l_end(k), input).contains(t)) by {
                    lemma_der_atoms(empty(), input, k);
                }
            }
            Some(Derived { eps: store.top, trans })
        },
        Expr::Top => {
            let mut trans: Trans = Vec::new();
            trans.push((store.top, Expr::top()));
            proof {
                lemma_eps_atoms(Set::empty(), Set::empty(), empty(), k);
                lemma_sem_push(store@, Seq::empty(), store.top, top_exp(), k);
                assert(trans@ =~= Seq::<(SPP, Exp)>::empty().push((store.top, top_exp())));
                assert forall|input: Packet, t: Trace| input.len() == k implies (#[trigger] t_sem(
                    store@,
                    trans@,
                    k,
                    input,
                    t,
                ) <==> der(l_top(k), input).contains(t)) by {
                    lemma_der_atoms(empty(), input, k);
                    assert(hits(store@, store.top, top_exp(), k, input, t) == trace_wf(t, k));
                }
            }
            Some(Derived { eps: store.top, trans })
        },
        Expr::Dup => {
            let mut trans: Trans = Vec::new();
            trans.push((store.one, Expr::one()));
            proof {
                lemma_eps_atoms(Set::empty(), Set::empty(), empty(), k);
                lemma_sem_push(store@, Seq::empty(), store.one, crate::expr::one_exp(), k);
                assert(trans@ =~= Seq::<(SPP, Exp)>::empty().push((store.one, crate::expr::one_exp())));
                assert forall|input: Packet, t: Trace| input.len() == k implies (#[trigger] t_sem(
                    store@,
                    trans@,
                    k,
                    input,
                    t,
                ) <==> der(l_dup(k), input).contains(t)) by {
                    lemma_der_atoms(empty(), input, k);
                    let only = step(input, input);
                    assert(trace_wf(only, k));
                    if hits(store@, store.one, crate::expr::one_exp(), k, input, t) {
                        lemma_unstep(t);
                    }
                    assert(hits(store@, store.one, crate::expr::one_exp(), k, input, t) == (t == only));
                }
            }
            Some(Derived { eps: store.zero, trans })
        },
        Expr::Assign(f, v) => {
            if *f < store.num_vars {
                let eps = store.assign(*f, *v)?;
                proof {
                    crate::axioms::lemma_atoms_typed(*f as nat, *v, k);
                }
                Some(d_rel(eps, Ghost(store@), Ghost(crate::relation::assign(*f as nat, *v, k)), Ghost(k)))
            } else {
                proof {
                    assert(crate::relation::assign(*f as nat, *v, k) =~= empty());
                }
                Some(d_rel(store.zero, Ghost(store@), Ghost(empty()), Ghost(k)))
            }
        },
        Expr::Test(f, v) => {
            if *f < store.num_vars {
                let eps = store.test(*f, *v)?;
                proof {
                    crate::axioms::lemma_atoms_typed(*f as nat, *v, k);
                }
                Some(d_rel(eps, Ghost(store@), Ghost(crate::relation::test(*f as nat, *v, k)), Ghost(k)))
            } else {
                proof {
                    assert(crate::relation::test(*f as nat, *v, k) =~= empty());
                }
                Some(d_rel(store.zero, Ghost(store@), Ghost(empty()), Ghost(k)))
            }
        },
        Expr::Union(a, b) => {
            let da = expand(store, memo, a)?;
            proof {
                mark = *store;
            }
            let ghost half = *store;
            let db = expand(store, memo, b)?;
            proof {
                mark = *store;
            }
            proof {
                half.lemma_inv_nodes();
                lemma_d_ok_grown(half@, store@, da.eps, da.trans@, k, lang(*a, k));
            }
            d_union(store, &da, &db, Ghost(lang(*a, k)), Ghost(lang(*b, k)))
        },
        Expr::Intersect(a, b) => {
            let da = expand(store, memo, a)?;
            proof {
                mark = *store;
            }
            let ghost half = *store;
            let db = expand(store, memo, b)?;
            proof {
                mark = *store;
            }
            proof {
                half.lemma_inv_nodes();
                lemma_d_ok_grown(half@, store@, da.eps, da.trans@, k, lang(*a, k));
            }
            d_meet(store, &da, &db, Ghost(lang(*a, k)), Ghost(lang(*b, k)))
        },
        Expr::Difference(a, b) => {
            let ghost la = lang(*a, k);
            let ghost lb = lang(*b, k);
            let da = expand(store, memo, a)?;
            proof {
                mark = *store;
            }
            let ghost half = *store;
            let db = expand(store, memo, b)?;
            proof {
                mark = *store;
            }
            proof {
                half.lemma_inv_nodes();
                lemma_d_ok_grown(half@, store@, da.eps, da.trans@, k, la);
            }
            let ghost mid_store = *store;
            let nb = d_not(store, &db, Ghost(lb))?;
            proof {
                mid_store.lemma_inv_nodes();
                lemma_d_ok_grown(mid_store@, store@, da.eps, da.trans@, k, la);
                lemma_lang_within(*a, k);
                assert(la.difference(lb) =~= la.intersect(l_not(lb, k)));
            }
            d_meet(store, &da, &nb, Ghost(la), Ghost(l_not(lb, k)))
        },
        Expr::Xor(a, b) => {
            let ghost la = lang(*a, k);
            let ghost lb = lang(*b, k);
            let da = expand(store, memo, a)?;
            proof {
                mark = *store;
            }
            let ghost s1 = *store;
            let db = expand(store, memo, b)?;
            proof {
                mark = *store;
            }
            proof {
                s1.lemma_inv_nodes();
                lemma_d_ok_grown(s1@, store@, da.eps, da.trans@, k, la);
            }
            let ghost s2 = *store;
            let nb = d_not(store, &db, Ghost(lb))?;
            proof {
                s2.lemma_inv_nodes();
                lemma_d_ok_grown(s2@, store@, da.eps, da.trans@, k, la);
            }
            let ghost s3 = *store;
            let na = d_not(store, &da, Ghost(la))?;
            proof {
                s3.lemma_inv_nodes();
                lemma_d_ok_grown(s3@, store@, db.eps, db.trans@, k, lb);
                lemma_d_ok_grown(s3@, store@, nb.eps, nb.trans@, k, l_not(lb, k));
            }
            let ghost s4 = *store;
            let left = d_meet(store, &da, &nb, Ghost(la), Ghost(l_not(lb, k)))?;
            proof {
                s4.lemma_inv_nodes();
                lemma_d_ok_grown(s4@, store@, db.eps, db.trans@, k, lb);
                lemma_d_ok_grown(s4@, store@, na.eps, na.trans@, k, l_not(la, k));
            }
            let ghost s5 = *store;
            let right = d_meet(store, &db, &na, Ghost(lb), Ghost(l_not(la, k)))?;
            proof {
                s5.lemma_inv_nodes();
                lemma_d_ok_grown(s5@, store@, left.eps, left.trans@, k, la.intersect(l_not(lb, k)));
                lemma_lang_within(*a, k);
                lemma_lang_within(*b, k);
                assert(l_xor(la, lb) =~= la.intersect(l_not(lb, k)).union(lb.intersect(l_not(la, k))));
            }
            d_union(store, &left, &right, Ghost(la.intersect(l_not(lb, k))), Ghost(lb.intersect(l_not(la, k))))
        },
        Expr::Sequence(a, b) => {
            let da = expand(store, memo, a)?;
            proof {
                mark = *store;
            }
            let ghost half = *store;
            let db = expand(store, memo, b)?;
            proof {
                mark = *store;
            }
            proof {
                half.lemma_inv_nodes();
                lemma_d_ok_grown(half@, store@, da.eps, da.trans@, k, lang(*a, k));
                lemma_lang_within(*a, k);
                lemma_lang_within(*b, k);
            }
            d_seq(store, &da, &db, b, Ghost(lang(*a, k)), Ghost(lang(*b, k)))
        },
        Expr::Star(a) => {
            let da = expand(store, memo, a)?;
            proof {
                mark = *store;
            }
            proof {
                lemma_lang_within(*a, k);
            }
            d_star(store, &da, e, Ghost(lang(*a, k)))
        },
        Expr::Complement(a) => {
            let da = expand(store, memo, a)?;
            proof {
                mark = *store;
            }
            d_not(store, &da, Ghost(lang(*a, k)))
        },
        Expr::LtlNext(a) => Some(d_step(store, a, false)),
        Expr::LtlWeakNext(a) => Some(d_step(store, a, true)),
        Expr::LtlFinally(a) => {
            let da = expand(store, memo, a)?;
            proof {
                mark = *store;
            }
            proof {
                lemma_lang_within(*a, k);
            }
            d_finally(store, &da, e, Ghost(lang(*a, k)))
        },
        Expr::LtlGlobally(a) => {
            let da = expand(store, memo, a)?;
            proof {
                mark = *store;
            }
            proof {
                lemma_lang_within(*a, k);
            }
            d_globally(store, &da, e, Ghost(lang(*a, k)))
        },
        Expr::LtlUntil(a, b) => {
            let da = expand(store, memo, a)?;
            proof {
                mark = *store;
            }
            let ghost half = *store;
            let db = expand(store, memo, b)?;
            proof {
                mark = *store;
            }
            proof {
                half.lemma_inv_nodes();
                lemma_d_ok_grown(half@, store@, da.eps, da.trans@, k, lang(*a, k));
                lemma_lang_within(*a, k);
                lemma_lang_within(*b, k);
            }
            d_until(store, &da, &db, e, Ghost(lang(*a, k)), Ghost(lang(*b, k)))
        },
        Expr::LtlWeakUntil(a, b) => {
            let ghost la = lang(*a, k);
            let ghost lb = lang(*b, k);
            let da = expand(store, memo, a)?;
            proof {
                mark = *store;
            }
            let ghost s1 = *store;
            let db = expand(store, memo, b)?;
            proof {
                mark = *store;
            }
            proof {
                s1.lemma_inv_nodes();
                lemma_d_ok_grown(s1@, store@, da.eps, da.trans@, k, la);
                lemma_lang_within(*a, k);
                lemma_lang_within(*b, k);
            }
            let until = Expr::ltl_until(share(a), share(b));
            let always = Expr::ltl_globally(share(a));
            let du = d_until(store, &da, &db, &until, Ghost(la), Ghost(lb))?;
            let ghost s2 = *store;
            let dg = d_globally(store, &da, &always, Ghost(la))?;
            proof {
                s2.lemma_inv_nodes();
                lemma_d_ok_grown(s2@, store@, du.eps, du.trans@, k, l_until(la, lb, k));
            }
            d_union(store, &du, &dg, Ghost(l_until(la, lb, k)), Ghost(l_globally(la, k)))
        },
        Expr::LtlRelease(a, b) => {
            let da = expand(store, memo, a)?;
            proof {
                mark = *store;
            }
            let ghost half = *store;
            let db = expand(store, memo, b)?;
            proof {
                mark = *store;
            }
            proof {
                half.lemma_inv_nodes();
                lemma_d_ok_grown(half@, store@, da.eps, da.trans@, k, lang(*a, k));
            }
            d_release(store, &da, &db, a, b)
        },
        Expr::LtlStrongRelease(a, b) => {
            let ghost la = lang(*a, k);
            let ghost lb = lang(*b, k);
            let da = expand(store, memo, a)?;
            proof {
                mark = *store;
            }
            let ghost s1 = *store;
            let db = expand(store, memo, b)?;
            proof {
                mark = *store;
            }
            proof {
                s1.lemma_inv_nodes();
                lemma_d_ok_grown(s1@, store@, da.eps, da.trans@, k, la);
                lemma_lang_within(*b, k);
            }
            let dr = d_release(store, &da, &db, a, b)?;
            let sometime = Expr::ltl_finally(share(b));
            let ghost s2 = *store;
            let df = d_finally(store, &db, &sometime, Ghost(lb))?;
            proof {
                s2.lemma_inv_nodes();
                lemma_d_ok_grown(
                    s2@,
                    store@,
                    dr.eps,
                    dr.trans@,
                    k,
                    l_not(l_until(l_not(la, k), l_not(lb, k), k), k),
                );
            }
            d_meet(
                store,
                &dr,
                &df,
                Ghost(l_not(l_until(l_not(la, k), l_not(lb, k), k), k)),
                Ghost(l_finally(lb, k)),
            )
        },
    };
    proof {
        if res is Some {
            mark.lemma_inv_nodes();
            lemma_memo_grown(mark@, store@, memo@, k);
        }
    }
    res
}

/// The automaton of release, from the automata of its operands `a` and `b`.
/// `None` when the store ran out of handles.
fn d_release(store: &mut SPPstore, da: &Derived, db: &Derived, a: &Exp, b: &Exp) -> (r: Option<Derived>)
    requires
        old(store).wf(),
        da.of(old(store)@, old(store).num_fields(), lang(*a, old(store).num_fields())),
        db.of(old(store)@, old(store).num_fields(), lang(*b, old(store).num_fields())),
    ensures
        final(store).wf(),
        final(store).extends(old(store)),
        da.of(final(store)@, old(store).num_fields(), lang(*a, old(store).num_fields())),
        db.of(final(store)@, old(store).num_fields(), lang(*b, old(store).num_fields())),
        match r {
            Some(d) => d.of(
                final(store)@,
                old(store).num_fields(),
                l_not(
                    l_until(
                        l_not(lang(*a, old(store).num_fields()), old(store).num_fields()),
                        l_not(lang(*b, old(store).num_fields()), old(store).num_fields()),
                        old(store).num_fields(),
                    ),
                    old(store).num_fields(),
                ),
            ),
            None => final(store).is_full(),
        },
{
    let ghost k = store.num_fields();
    let ghost la = lang(*a, k);
    let ghost lb = lang(*b, k);
    let ghost s0 = *store;
    proof {
        reveal_with_fuel(lang, 3);
        s0.lemma_inv_nodes();
    }
    let ra = d_not(store, da, Ghost(la));
    proof {
        lemma_d_ok_grown(s0@, store@, db.eps, db.trans@, k, lb);
    }
    let na = ra?;
    let ghost s1 = *store;
    let rb = d_not(store, db, Ghost(lb));
    proof {
        s1.lemma_inv_nodes();
        lemma_d_ok_grown(s1@, store@, da.eps, da.trans@, k, la);
        lemma_d_ok_grown(s1@, store@, na.eps, na.trans@, k, l_not(la, k));
    }
    let nb = rb?;
    let until = Expr::ltl_until(Expr::complement(share(a)), Expr::complement(share(b)));
    let ghost s2 = *store;
    let ru = d_until(store, &na, &nb, &until, Ghost(l_not(la, k)), Ghost(l_not(lb, k)));
    proof {
        s2.lemma_inv_nodes();
        lemma_d_ok_grown(s2@, store@, da.eps, da.trans@, k, la);
        lemma_d_ok_grown(s2@, store@, db.eps, db.trans@, k, lb);
    }
    let du = ru?;
    let ghost s3 = *store;
    let res = d_not(store, &du, Ghost(l_until(l_not(la, k), l_not(lb, k), k)));
    proof {
        s3.lemma_inv_nodes();
        lemma_d_ok_grown(s3@, store@, da.eps, da.trans@, k, la);
        lemma_d_ok_grown(s3@, store@, db.eps, db.trans@, k, lb);
    }
    res
}

} // verus!
