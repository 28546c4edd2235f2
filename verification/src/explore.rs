//! Emptiness of the language of a state, decided by exploration. From the
//! state in question, started on any packet, the exploration follows the
//! transitions and keeps, for every state, the packets on which a run can
//! arrive there. The language is empty when no state that is reached accepts,
//! without recording, on a packet on which it is reached.

use crate::aut::{
    d_ok, expand, hits, lemma_memo_grown, lemma_sem_grown, lemma_sem_take, memo_ok, t_ok, t_sem, Memo, Trans,
};
use crate::count::{code, lemma_code_below, lemma_code_injective, lemma_pigeonhole, pairs_of};
use crate::derivative::{cons_trace, der, eps_of, lemma_uncons_trace, lemma_unstep};
use crate::equations::lemma_decided_by_emptiness;
use crate::expr::{same, share, union_exp, xor_exp, Exp, Expr};
use crate::relation::{compose, empty, full, lemma_compose_elim, lemma_compose_intro, mid, Packet};
use crate::semantics::{contained, equivalent, lang, step, suffix, trace_wf, Lang, Trace};
use crate::soundness::lemma_lang_within;
use crate::sp::{domain, fresh_sp_nodes, SPstore, SP};
use crate::spp::{
    depth_in, fresh_nodes, grown, lemma_frame, lemma_rel_typed, nodes_wf, rel_in, valid_in, SPPnode, SPPstore, MAX_VARS, SPP,
};
use vstd::prelude::*;

verus! {

/// The run `t` with the recordings of the packets `pre` put in front, one
/// after another: the run started on the first of them.
pub open spec fn prepend(pre: Seq<Packet>, t: Trace) -> Trace
    decreases pre.len(),
{
    if pre.len() == 0 {
        t
    } else {
        prepend(pre.drop_last(), cons_trace(pre.last(), t))
    }
}

/// Some recordings lead from `l0` to `l` on the packet `b`: with them put in
/// front, every run of `l` that starts on `b` is a run of `l0`.
pub open spec fn reaches(l0: Lang, l: Lang, b: Packet) -> bool {
    exists|pre: Seq<Packet>| #[trigger] leads(l0, l, b, pre)
}

/// With the recordings `pre` put in front, every run of `l` that starts on
/// `b` is a run of `l0`.
pub open spec fn leads(l0: Lang, l: Lang, b: Packet, pre: Seq<Packet>) -> bool {
    forall|t: Trace| t.input == b && #[trigger] l.contains(t) ==> l0.contains(prepend(pre, t))
}

/// What the exploration knows.
pub struct Search {
    /// The expressions of the states.
    pub states: Seq<Exp>,
    /// For each state, what has arrived there: pairs of a packet that the
    /// exploration started on and a packet that a run arrives on.
    pub vis: Seq<SPP>,
    /// What has arrived and is yet to be followed: a state beside the pairs.
    pub work: Seq<(usize, SPP)>,
    /// The number of packet fields.
    pub k: nat,
    /// The language in question.
    pub l0: Lang,
    /// An item of work is in hand.
    pub in_hand: bool,
    /// The state of the item in hand.
    pub at: int,
    /// The pairs of the item in hand.
    pub nu: SPP,
    /// The transitions of the state in hand.
    pub trans: Seq<(SPP, Exp)>,
    /// The number of transitions that have been followed.
    pub done: int,
}

/// The pair `(g, b)` has arrived at state `j`.
pub open spec fn seen(nodes: Seq<SPPnode>, s: Search, j: int, g: Packet, b: Packet) -> bool {
    0 <= j < s.vis.len() && rel_in(nodes, s.vis[j]).contains((g, b))
}

/// The pair `(g, b)` at state `j` is in an item of work.
pub open spec fn pending(nodes: Seq<SPPnode>, s: Search, j: int, g: Packet, b: Packet) -> bool {
    exists|w: int| 0 <= w < s.work.len() && s.work[w].0 == j && #[trigger] rel_in(nodes, s.work[w].1).contains((g, b))
}

/// The pair `(g, b)` at state `j` is in the item in hand.
pub open spec fn held(nodes: Seq<SPPnode>, s: Search, j: int, g: Packet, b: Packet) -> bool {
    s.in_hand && j == s.at && rel_in(nodes, s.nu).contains((g, b))
}

/// The run `t` has arrived somewhere: at a state of which it is a run, on
/// the packet it starts on, from the start `g`.
pub open spec fn lands(nodes: Seq<SPPnode>, s: Search, g: Packet, t: Trace) -> bool {
    exists|j: int| #[trigger] seen(nodes, s, j, g, t.input) && lang(s.states[j], s.k).contains(t)
}

/// State `j` does not accept on the packet `b` without recording.
pub open spec fn silent(s: Search, j: int, b: Packet) -> bool {
    forall|p: Packet| !(#[trigger] eps_of(lang(s.states[j], s.k), s.k).contains((b, p)))
}

/// The pair `(g, b)` at state `j` has been followed: the state does not
/// accept on `b` without recording, and whatever is left of its runs after
/// a first recording has arrived somewhere.
pub open spec fn followed(nodes: Seq<SPPnode>, s: Search, j: int, g: Packet, b: Packet) -> bool {
    &&& silent(s, j, b)
    &&& forall|t: Trace| #[trigger] der(lang(s.states[j], s.k), b).contains(t) ==> lands(nodes, s, g, t)
}

/// The handles of the exploration are handles of the store, of full depth,
/// and the work is part of what has arrived.
pub open spec fn sound(nodes: Seq<SPPnode>, s: Search) -> bool {
    &&& s.vis.len() == s.states.len()
    &&& forall|j: int| 0 <= j < s.vis.len() ==> valid_in(nodes, #[trigger] s.vis[j]) && depth_in(nodes, s.vis[j]) == s.k
    &&& forall|w: int|
        0 <= w < s.work.len() ==> {
            &&& (#[trigger] s.work[w]).0 < s.states.len()
            &&& valid_in(nodes, s.work[w].1)
            &&& depth_in(nodes, s.work[w].1) == s.k
            &&& rel_in(nodes, s.work[w].1).subset_of(rel_in(nodes, s.vis[s.work[w].0 as int]))
        }
}

/// Everything that has arrived is in the work, in hand, or followed; and it
/// can be reached from the language in question.
pub open spec fn explored(nodes: Seq<SPPnode>, s: Search) -> bool {
    forall|j: int, g: Packet, b: Packet| #[trigger]
        seen(nodes, s, j, g, b) ==> {
            &&& reaches(s.l0, lang(s.states[j], s.k), b)
            &&& pending(nodes, s, j, g, b) || held(nodes, s, j, g, b) || followed(nodes, s, j, g, b)
        }
}

/// From the pair `(g, b)` of the item in hand, a transition that has been
/// followed takes `b` to the run `t`.
pub open spec fn taken(nodes: Seq<SPPnode>, s: Search, g: Packet, b: Packet, t: Trace) -> bool {
    rel_in(nodes, s.nu).contains((g, b)) && t_sem(nodes, s.trans.take(s.done), s.k, b, t)
}

/// The item in hand: pairs that have arrived at its state, on which the
/// state does not accept without recording, and the transitions of the
/// state, of which the first `done` have been followed.
pub open spec fn in_hand_ok(nodes: Seq<SPPnode>, s: Search) -> bool {
    &&& 0 <= s.at < s.states.len()
    &&& valid_in(nodes, s.nu)
    &&& depth_in(nodes, s.nu) == s.k
    &&& rel_in(nodes, s.nu).subset_of(rel_in(nodes, s.vis[s.at]))
    &&& t_ok(nodes, s.trans, s.k, lang(s.states[s.at], s.k))
    &&& 0 <= s.done <= s.trans.len()
    &&& forall|g: Packet, b: Packet| #[trigger] rel_in(nodes, s.nu).contains((g, b)) ==> silent(s, s.at, b)
    &&& forall|g: Packet, b: Packet, t: Trace| #[trigger] taken(nodes, s, g, b, t) ==> lands(nodes, s, g, t)
}

/// The state of the exploration is consistent.
pub open spec fn exploring(nodes: Seq<SPPnode>, s: Search) -> bool {
    &&& sound(nodes, s)
    &&& explored(nodes, s)
    &&& s.in_hand ==> in_hand_ok(nodes, s)
}

/// A run that has arrived somewhere has still arrived there when more has arrived.
pub open spec fn more(nodes: Seq<SPPnode>, s: Search, z: Search) -> bool {
    &&& s.k == z.k
    &&& s.l0 == z.l0
    &&& s.states.len() <= z.states.len()
    &&& s.vis.len() <= z.vis.len()
    &&& forall|j: int| 0 <= j < s.states.len() ==> #[trigger] z.states[j] == s.states[j]
    &&& forall|j: int|
        0 <= j < s.vis.len() ==> rel_in(nodes, #[trigger] s.vis[j]).subset_of(rel_in(nodes, z.vis[j]))
}

/// What has arrived, and been followed, stays so when more arrives.
pub proof fn lemma_more(nodes: Seq<SPPnode>, s: Search, z: Search)
    requires
        more(nodes, s, z),
        s.vis.len() == s.states.len(),
    ensures
        forall|j: int, g: Packet, b: Packet| #[trigger] seen(nodes, s, j, g, b) ==> seen(nodes, z, j, g, b),
        forall|g: Packet, t: Trace| #[trigger] lands(nodes, s, g, t) ==> lands(nodes, z, g, t),
        forall|j: int, g: Packet, b: Packet|
            0 <= j < s.states.len() && #[trigger] followed(nodes, s, j, g, b) ==> followed(nodes, z, j, g, b),
{
    assert forall|j: int, g: Packet, b: Packet| #[trigger] seen(nodes, s, j, g, b) implies seen(
        nodes,
        z,
        j,
        g,
        b,
    ) by {
        assert(rel_in(nodes, s.vis[j]).subset_of(rel_in(nodes, z.vis[j])));
    }
    assert forall|g: Packet, t: Trace| #[trigger] lands(nodes, s, g, t) implies lands(nodes, z, g, t) by {
        let j = choose|j: int| #[trigger] seen(nodes, s, j, g, t.input) && lang(s.states[j], s.k).contains(t);
        assert(seen(nodes, z, j, g, t.input));
        assert(z.states[j] == s.states[j]);
    }
    assert forall|j: int, g: Packet, b: Packet|
        0 <= j < s.states.len() && #[trigger] followed(nodes, s, j, g, b) implies followed(nodes, z, j, g, b) by {
        assert(z.states[j] == s.states[j]);
        assert forall|t: Trace| #[trigger] der(lang(z.states[j], z.k), b).contains(t) implies lands(
            nodes,
            z,
            g,
            t,
        ) by {
            assert(lands(nodes, s, g, t));
        }
    }
}

/// The exploration stays consistent when the store grows.
pub proof fn lemma_exploring_grown(old: Seq<SPPnode>, new: Seq<SPPnode>, s: Search)
    requires
        nodes_wf(old),
        grown(old, new),
        exploring(old, s),
    ensures
        exploring(new, s),
{
    assert forall|j: int| 0 <= j < s.vis.len() implies valid_in(new, #[trigger] s.vis[j]) && depth_in(
        new,
        s.vis[j],
    ) == s.k && rel_in(new, s.vis[j]) == rel_in(old, s.vis[j]) by {
        lemma_frame(old, new, s.vis[j]);
    }
    assert forall|w: int| 0 <= w < s.work.len() implies valid_in(new, (#[trigger] s.work[w]).1) && depth_in(
        new,
        s.work[w].1,
    ) == s.k && rel_in(new, s.work[w].1) == rel_in(old, s.work[w].1) by {
        lemma_frame(old, new, s.work[w].1);
    }
    assert forall|j: int, g: Packet, b: Packet| #[trigger] seen(new, s, j, g, b) == seen(old, s, j, g, b) by {
        if 0 <= j < s.vis.len() {
            assert(rel_in(new, s.vis[j]) == rel_in(old, s.vis[j]));
        }
    }
    assert forall|j: int, g: Packet, b: Packet| #[trigger] pending(old, s, j, g, b) implies pending(
        new,
        s,
        j,
        g,
        b,
    ) by {
        let w = choose|w: int|
            0 <= w < s.work.len() && s.work[w].0 == j && #[trigger] rel_in(old, s.work[w].1).contains((g, b));
        assert(rel_in(new, s.work[w].1).contains((g, b)));
    }
    assert forall|g: Packet, t: Trace| #[trigger] lands(old, s, g, t) implies lands(new, s, g, t) by {
        let j = choose|j: int| #[trigger] seen(old, s, j, g, t.input) && lang(s.states[j], s.k).contains(t);
        assert(seen(new, s, j, g, t.input));
    }
    assert forall|j: int, g: Packet, b: Packet| #[trigger] followed(old, s, j, g, b) implies followed(
        new,
        s,
        j,
        g,
        b,
    ) by {
        assert forall|t: Trace| #[trigger] der(lang(s.states[j], s.k), b).contains(t) implies lands(
            new,
            s,
            g,
            t,
        ) by {
            assert(lands(old, s, g, t));
        }
    }
    if s.in_hand {
        lemma_frame(old, new, s.nu);
        lemma_sem_grown(old, new, s.trans, s.k);
        lemma_sem_grown(old, new, s.trans.take(s.done), s.k);
        assert forall|g: Packet, b: Packet, t: Trace| #[trigger] taken(new, s, g, b, t) implies lands(
            new,
            s,
            g,
            t,
        ) by {
            assert(taken(old, s, g, b, t));
        }
    }
    assert forall|j: int, g: Packet, b: Packet| #[trigger] seen(new, s, j, g, b) implies {
        &&& reaches(s.l0, lang(s.states[j], s.k), b)
        &&& pending(new, s, j, g, b) || held(new, s, j, g, b) || followed(new, s, j, g, b)
    } by {
        assert(seen(old, s, j, g, b));
    }
}

/// The exploration at its start: everything has arrived at the state in
/// question, and is yet to be followed.
pub proof fn lemma_start(nodes: Seq<SPPnode>, s: Search, state: usize, zero: SPP, top: SPP)
    requires
        0 <= state < s.states.len(),
        valid_in(nodes, zero),
        valid_in(nodes, top),
        depth_in(nodes, zero) == s.k,
        depth_in(nodes, top) == s.k,
        rel_in(nodes, zero) == empty(),
        s.vis == Seq::new(s.states.len(), |j: int| zero).update(state as int, top),
        s.work == seq![(state, top)],
        !s.in_hand,
        s.l0 == lang(s.states[state as int], s.k),
    ensures
        exploring(nodes, s),
{
    assert forall|j: int, g: Packet, b: Packet| #[trigger] seen(nodes, s, j, g, b) implies {
        &&& reaches(s.l0, lang(s.states[j], s.k), b)
        &&& pending(nodes, s, j, g, b) || held(nodes, s, j, g, b) || followed(nodes, s, j, g, b)
    } by {
        assert(j == state);
        assert(leads(s.l0, s.l0, b, Seq::empty()));
        assert(s.work[0].0 == j && rel_in(nodes, s.work[0].1).contains((g, b)));
    }
}

/// The exploration with an item of work taken in hand.
pub proof fn lemma_take(nodes: Seq<SPPnode>, s: Search, z: Search, eps: SPP)
    requires
        exploring(nodes, s),
        !s.in_hand,
        s.work.len() > 0,
        z == (Search {
            work: s.work.drop_last(),
            in_hand: true,
            at: s.work.last().0 as int,
            nu: s.work.last().1,
            trans: z.trans,
            done: 0,
            ..s
        }),
        d_ok(nodes, eps, z.trans, s.k, lang(s.states[z.at], s.k)),
        compose(rel_in(nodes, z.nu), rel_in(nodes, eps)) == empty(),
    ensures
        exploring(nodes, z),
{
    let last = s.work.len() - 1;
    assert(s.work[last] == s.work.last());
    assert(sound(nodes, z)) by {
        assert forall|w: int| 0 <= w < z.work.len() implies {
            &&& (#[trigger] z.work[w]).0 < z.states.len()
            &&& valid_in(nodes, z.work[w].1)
            &&& depth_in(nodes, z.work[w].1) == z.k
            &&& rel_in(nodes, z.work[w].1).subset_of(rel_in(nodes, z.vis[z.work[w].0 as int]))
        } by {
            assert(z.work[w] == s.work[w]);
        }
    }
    assert forall|g: Packet, t: Trace| #[trigger] lands(nodes, s, g, t) implies lands(nodes, z, g, t) by {
        let j = choose|j: int| #[trigger] seen(nodes, s, j, g, t.input) && lang(s.states[j], s.k).contains(t);
        assert(seen(nodes, z, j, g, t.input));
    }
    assert forall|j: int, g: Packet, b: Packet| #[trigger] seen(nodes, z, j, g, b) implies {
        &&& reaches(z.l0, lang(z.states[j], z.k), b)
        &&& pending(nodes, z, j, g, b) || held(nodes, z, j, g, b) || followed(nodes, z, j, g, b)
    } by {
        assert(seen(nodes, s, j, g, b));
        if pending(nodes, s, j, g, b) {
            let w = choose|w: int|
                0 <= w < s.work.len() && s.work[w].0 == j && #[trigger] rel_in(nodes, s.work[w].1).contains((g, b));
            if w < last {
                assert(z.work[w] == s.work[w]);
                assert(rel_in(nodes, z.work[w].1).contains((g, b)));
            }
        } else {
            assert(followed(nodes, s, j, g, b));
            assert forall|t: Trace| #[trigger] der(lang(z.states[j], z.k), b).contains(t) implies lands(
                nodes,
                z,
                g,
                t,
            ) by {
                assert(lands(nodes, s, g, t));
            }
        }
    }
    assert forall|g: Packet, b: Packet| #[trigger] rel_in(nodes, z.nu).contains((g, b)) implies silent(
        z,
        z.at,
        b,
    ) by {
        assert forall|p: Packet| !(#[trigger] eps_of(lang(z.states[z.at], z.k), z.k).contains((b, p))) by {
            if eps_of(lang(z.states[z.at], z.k), z.k).contains((b, p)) {
                lemma_compose_intro(rel_in(nodes, z.nu), rel_in(nodes, eps), g, b, p);
            }
        }
    }
    assert(z.trans.take(0) =~= Seq::empty());
}

/// A state that accepts, without recording, on a packet on which it has
/// been reached shows that the language in question is not empty.
pub proof fn lemma_accepting(nodes: Seq<SPPnode>, s: Search, eps: SPP, acc: SPP)
    requires
        exploring(nodes, s),
        !s.in_hand,
        s.work.len() > 0,
        rel_in(nodes, eps) == eps_of(lang(s.states[s.work.last().0 as int], s.k), s.k),
        rel_in(nodes, acc) == compose(rel_in(nodes, s.work.last().1), rel_in(nodes, eps)),
        rel_in(nodes, acc) != empty(),
    ensures
        s.l0 != Set::<Trace>::empty(),
{
    let last = s.work.len() - 1;
    let i = s.work[last].0 as int;
    let nu = rel_in(nodes, s.work[last].1);
    let e = rel_in(nodes, eps);
    if forall|pq: (Packet, Packet)| !rel_in(nodes, acc).contains(pq) {
        assert(rel_in(nodes, acc) =~= empty());
    }
    let pq = choose|pq: (Packet, Packet)| rel_in(nodes, acc).contains(pq);
    lemma_compose_elim(nu, e, pq.0, pq.1);
    let b = mid(nu, e, pq.0, pq.1);
    assert(seen(nodes, s, i, pq.0, b));
    let pre = choose|pre: Seq<Packet>| #[trigger] leads(s.l0, lang(s.states[i], s.k), b, pre);
    let t = step(b, pq.1);
    assert(lang(s.states[i], s.k).contains(t));
    assert(s.l0.contains(prepend(pre, t)));
}

/// The exploration with one more transition of the state in hand passed
/// over, because no pair of the item in hand takes it.
pub proof fn lemma_skip(nodes: Seq<SPPnode>, s: Search, z: Search)
    requires
        exploring(nodes, s),
        s.in_hand,
        s.done < s.trans.len(),
        z == (Search { done: s.done + 1, ..s }),
        compose(rel_in(nodes, s.nu), rel_in(nodes, s.trans[s.done].0)) == empty(),
    ensures
        exploring(nodes, z),
{
    lemma_sem_take(nodes, s.trans, s.done, s.k);
    assert forall|g: Packet, t: Trace| #[trigger] lands(nodes, s, g, t) implies lands(nodes, z, g, t) by {
        let j = choose|j: int| #[trigger] seen(nodes, s, j, g, t.input) && lang(s.states[j], s.k).contains(t);
        assert(seen(nodes, z, j, g, t.input));
    }
    assert forall|g: Packet, b: Packet, t: Trace| #[trigger] taken(nodes, z, g, b, t) implies lands(
        nodes,
        z,
        g,
        t,
    ) by {
        if hits(nodes, s.trans[s.done].0, s.trans[s.done].1, s.k, b, t) {
            lemma_compose_intro(rel_in(nodes, s.nu), rel_in(nodes, s.trans[s.done].0), g, b, t.input);
        }
        assert(taken(nodes, s, g, b, t));
    }
    assert forall|j: int, g: Packet, b: Packet| #[trigger] seen(nodes, z, j, g, b) implies {
        &&& reaches(z.l0, lang(z.states[j], z.k), b)
        &&& pending(nodes, z, j, g, b) || held(nodes, z, j, g, b) || followed(nodes, z, j, g, b)
    } by {
        assert(seen(nodes, s, j, g, b));
        if pending(nodes, s, j, g, b) {
            let w = choose|w: int|
                0 <= w < s.work.len() && s.work[w].0 == j && #[trigger] rel_in(nodes, s.work[w].1).contains((g, b));
            assert(rel_in(nodes, z.work[w].1).contains((g, b)));
        } else if followed(nodes, s, j, g, b) {
            assert forall|t: Trace| #[trigger] der(lang(z.states[j], z.k), b).contains(t) implies lands(
                nodes,
                z,
                g,
                t,
            ) by {
                assert(lands(nodes, s, g, t));
            }
        }
    }
}

/// The exploration with one more state, at which nothing has arrived.
pub proof fn lemma_add_state(nodes: Seq<SPPnode>, s: Search, z: Search, e: Exp, zero: SPP)
    requires
        exploring(nodes, s),
        valid_in(nodes, zero),
        depth_in(nodes, zero) == s.k,
        rel_in(nodes, zero) == empty(),
        z == (Search { states: s.states.push(e), vis: s.vis.push(zero), ..s }),
    ensures
        exploring(nodes, z),
{
    assert(more(nodes, s, z));
    lemma_more(nodes, s, z);
    assert(sound(nodes, z)) by {
        assert forall|w: int| 0 <= w < z.work.len() implies {
            &&& (#[trigger] z.work[w]).0 < z.states.len()
            &&& valid_in(nodes, z.work[w].1)
            &&& depth_in(nodes, z.work[w].1) == z.k
            &&& rel_in(nodes, z.work[w].1).subset_of(rel_in(nodes, z.vis[z.work[w].0 as int]))
        } by {
            assert(z.vis[z.work[w].0 as int] == s.vis[s.work[w].0 as int]);
        }
    }
    assert forall|j: int, g: Packet, b: Packet| #[trigger] seen(nodes, z, j, g, b) implies {
        &&& reaches(z.l0, lang(z.states[j], z.k), b)
        &&& pending(nodes, z, j, g, b) || held(nodes, z, j, g, b) || followed(nodes, z, j, g, b)
    } by {
        assert(j < s.vis.len());
        assert(z.vis[j] == s.vis[j]);
        assert(seen(nodes, s, j, g, b));
        if pending(nodes, s, j, g, b) {
            let w = choose|w: int|
                0 <= w < s.work.len() && s.work[w].0 == j && #[trigger] rel_in(nodes, s.work[w].1).contains((g, b));
            assert(rel_in(nodes, z.work[w].1).contains((g, b)));
        }
    }
    if s.in_hand {
        assert(z.vis[z.at] == s.vis[s.at]);
        assert forall|g: Packet, b: Packet, t: Trace| #[trigger] taken(nodes, z, g, b, t) implies lands(
            nodes,
            z,
            g,
            t,
        ) by {
            assert(taken(nodes, s, g, b, t));
        }
        assert forall|g: Packet, b: Packet| #[trigger] rel_in(nodes, z.nu).contains((g, b)) implies silent(
            z,
            z.at,
            b,
        ) by {
            assert(silent(s, s.at, b));
        }
    }
}

/// With one more recording put in front of the run, the recordings lead on.
pub proof fn lemma_leads_on(l0: Lang, l: Lang, next: Lang, b: Packet, p: Packet, pre: Seq<Packet>)
    requires
        leads(l0, l, b, pre),
        forall|t: Trace| t.input == p && #[trigger] next.contains(t) ==> l.contains(cons_trace(b, t)),
    ensures
        leads(l0, next, p, pre.push(b)),
{
    assert forall|t: Trace| t.input == p && #[trigger] next.contains(t) implies l0.contains(
        prepend(pre.push(b), t),
    ) by {
        assert(pre.push(b).drop_last() =~= pre);
        assert(l.contains(cons_trace(b, t)));
    }
}

/// The exploration with one more transition of the state in hand followed:
/// what the pairs in hand reach by it has arrived at the state of its
/// expression, and what is new of it is in the work.
#[verifier::rlimit(40)]
pub proof fn lemma_arrive(nodes: Seq<SPPnode>, s: Search, z: Search, to: usize, reach: SPP, fresh: SPP, all: SPP)
    requires
        nodes_wf(nodes),
        exploring(nodes, s),
        s.in_hand,
        s.done < s.trans.len(),
        to < s.states.len(),
        s.states[to as int] == s.trans[s.done].1,
        rel_in(nodes, reach) == compose(rel_in(nodes, s.nu), rel_in(nodes, s.trans[s.done].0)),
        rel_in(nodes, fresh) == rel_in(nodes, reach).difference(rel_in(nodes, s.vis[to as int])),
        valid_in(nodes, fresh),
        depth_in(nodes, fresh) == s.k,
        rel_in(nodes, fresh) == empty() ==> z == (Search { done: s.done + 1, ..s }),
        rel_in(nodes, fresh) != empty() ==> {
            &&& valid_in(nodes, all)
            &&& depth_in(nodes, all) == s.k
            &&& rel_in(nodes, all) == rel_in(nodes, s.vis[to as int]).union(rel_in(nodes, fresh))
            &&& z == (Search {
                vis: s.vis.update(to as int, all),
                work: s.work.push((to, fresh)),
                done: s.done + 1,
                ..s
            })
        },
    ensures
        exploring(nodes, z),
        more(nodes, s, z),
{
    let j = to as int;
    let k = s.k;
    let region = rel_in(nodes, s.trans[s.done].0);
    let next = s.trans[s.done].1;
    let nu = rel_in(nodes, s.nu);
    let grew = rel_in(nodes, fresh) != empty();
    assert(more(nodes, s, z)) by {
        assert forall|x: int| 0 <= x < s.vis.len() implies rel_in(nodes, #[trigger] s.vis[x]).subset_of(
            rel_in(nodes, z.vis[x]),
        ) by {
            if grew && x != j {
                assert(z.vis[x] == s.vis[x]);
            }
        }
    }
    lemma_more(nodes, s, z);
    lemma_sem_take(nodes, s.trans, s.done, k);
    assert(rel_in(nodes, reach).subset_of(rel_in(nodes, z.vis[j]))) by {
        if !grew {
            assert(rel_in(nodes, fresh) =~= empty());
        }
        assert forall|pq: (Packet, Packet)| rel_in(nodes, reach).contains(pq) implies rel_in(
            nodes,
            z.vis[j],
        ).contains(pq) by {
            if !rel_in(nodes, s.vis[j]).contains(pq) {
                assert(rel_in(nodes, fresh).contains(pq));
            }
        }
    }
    assert(sound(nodes, z)) by {
        assert forall|x: int| 0 <= x < z.vis.len() implies valid_in(nodes, #[trigger] z.vis[x]) && depth_in(
            nodes,
            z.vis[x],
        ) == z.k by {
            if grew && x != j {
                assert(z.vis[x] == s.vis[x]);
            }
        }
        assert forall|w: int| 0 <= w < z.work.len() implies {
            &&& (#[trigger] z.work[w]).0 < z.states.len()
            &&& valid_in(nodes, z.work[w].1)
            &&& depth_in(nodes, z.work[w].1) == z.k
            &&& rel_in(nodes, z.work[w].1).subset_of(rel_in(nodes, z.vis[z.work[w].0 as int]))
        } by {
            if w < s.work.len() {
                assert(z.work[w] == s.work[w]);
                let x = s.work[w].0 as int;
                assert(rel_in(nodes, s.vis[x]).subset_of(rel_in(nodes, z.vis[x])));
            }
        }
    }
    assert forall|x: int, g: Packet, b: Packet| #[trigger] seen(nodes, z, x, g, b) implies {
        &&& reaches(z.l0, lang(z.states[x], z.k), b)
        &&& pending(nodes, z, x, g, b) || held(nodes, z, x, g, b) || followed(nodes, z, x, g, b)
    } by {
        if seen(nodes, s, x, g, b) {
            if pending(nodes, s, x, g, b) {
                let w = choose|w: int|
                    0 <= w < s.work.len() && s.work[w].0 == x && #[trigger] rel_in(nodes, s.work[w].1).contains(
                        (g, b),
                    );
                assert(z.work[w] == s.work[w]);
                assert(rel_in(nodes, z.work[w].1).contains((g, b)));
            }
        } else {
            assert(grew && x == j);
            assert(rel_in(nodes, fresh).contains((g, b)));
            let w = s.work.len() as int;
            assert(z.work[w].0 == x && rel_in(nodes, z.work[w].1).contains((g, b)));
            lemma_compose_elim(nu, region, g, b);
            let from = mid(nu, region, g, b);
            assert(seen(nodes, s, s.at, g, from));
            let here = lang(s.states[s.at], k);
            let pre = choose|pre: Seq<Packet>| #[trigger] leads(s.l0, here, from, pre);
            lemma_rel_typed_pair(nodes, s.nu, g, from);
            assert forall|t: Trace| t.input == b && #[trigger] lang(next, k).contains(t) implies here.contains(
                cons_trace(from, t),
            ) by {
                assert(hits(nodes, s.trans[s.done].0, next, k, from, t));
                assert(t_sem(nodes, s.trans, k, from, t));
                assert(der(here, from).contains(t));
            }
            lemma_leads_on(s.l0, here, lang(next, k), from, b, pre);
        }
    }
    assert forall|g: Packet, b: Packet, t: Trace| #[trigger] taken(nodes, z, g, b, t) implies lands(nodes, z, g, t) by {
        if taken(nodes, s, g, b, t) {
            assert(lands(nodes, s, g, t));
        } else {
            assert(hits(nodes, s.trans[s.done].0, next, k, b, t));
            lemma_compose_intro(nu, region, g, b, t.input);
            assert(seen(nodes, z, j, g, t.input));
        }
    }
    assert forall|g: Packet, b: Packet| #[trigger] rel_in(nodes, z.nu).contains((g, b)) implies silent(z, z.at, b) by {
        assert(silent(s, s.at, b));
    }
    assert(rel_in(nodes, z.nu).subset_of(rel_in(nodes, z.vis[z.at]))) by {
        assert(rel_in(nodes, s.vis[s.at]).subset_of(rel_in(nodes, z.vis[s.at])));
    }
}

/// A pair that a handle of depth `k` relates is a pair of packets of `k` fields.
pub proof fn lemma_rel_typed_pair(nodes: Seq<SPPnode>, h: SPP, g: Packet, b: Packet)
    requires
        rel_in(nodes, h).contains((g, b)),
    ensures
        nodes_wf(nodes) && valid_in(nodes, h) ==> g.len() == depth_in(nodes, h) && b.len() == depth_in(nodes, h),
{
    if nodes_wf(nodes) && valid_in(nodes, h) {
        lemma_rel_typed(nodes, h);
    }
}

/// The exploration with the item in hand laid down: all the transitions of
/// its state have been followed.
pub proof fn lemma_lay_down(nodes: Seq<SPPnode>, s: Search, z: Search)
    requires
        nodes_wf(nodes),
        exploring(nodes, s),
        s.in_hand,
        s.done == s.trans.len(),
        z == (Search { in_hand: false, ..s }),
    ensures
        exploring(nodes, z),
{
    assert(s.trans.take(s.done) =~= s.trans);
    assert forall|g: Packet, t: Trace| #[trigger] lands(nodes, s, g, t) implies lands(nodes, z, g, t) by {
        let j = choose|j: int| #[trigger] seen(nodes, s, j, g, t.input) && lang(s.states[j], s.k).contains(t);
        assert(seen(nodes, z, j, g, t.input));
    }
    assert forall|j: int, g: Packet, b: Packet| #[trigger] seen(nodes, z, j, g, b) implies {
        &&& reaches(z.l0, lang(z.states[j], z.k), b)
        &&& pending(nodes, z, j, g, b) || held(nodes, z, j, g, b) || followed(nodes, z, j, g, b)
    } by {
        assert(seen(nodes, s, j, g, b));
        if pending(nodes, s, j, g, b) {
            let w = choose|w: int|
                0 <= w < s.work.len() && s.work[w].0 == j && #[trigger] rel_in(nodes, s.work[w].1).contains((g, b));
            assert(rel_in(nodes, z.work[w].1).contains((g, b)));
        } else if held(nodes, s, j, g, b) {
            lemma_rel_typed_pair(nodes, s.nu, g, b);
            assert(silent(s, s.at, b));
            assert forall|t: Trace| #[trigger] der(lang(z.states[j], z.k), b).contains(t) implies lands(
                nodes,
                z,
                g,
                t,
            ) by {
                assert(t_sem(nodes, s.trans, s.k, b, t));
                assert(taken(nodes, s, g, b, t));
                assert(lands(nodes, s, g, t));
            }
        } else {
            assert forall|t: Trace| #[trigger] der(lang(z.states[j], z.k), b).contains(t) implies lands(
                nodes,
                z,
                g,
                t,
            ) by {
                assert(lands(nodes, s, g, t));
            }
        }
    }
}

/// When nothing is left to follow, no state has a run that starts on a
/// packet on which the state has been reached.
pub proof fn lemma_no_run(nodes: Seq<SPPnode>, s: Search, j: int, g: Packet, t: Trace)
    requires
        exploring(nodes, s),
        !s.in_hand,
        s.work.len() == 0,
        seen(nodes, s, j, g, t.input),
        g.len() == s.k,
    ensures
        !lang(s.states[j], s.k).contains(t),
    decreases t.hist.len(),
{
    let here = lang(s.states[j], s.k);
    if here.contains(t) {
        lemma_lang_within(s.states[j], s.k);
        assert(trace_wf(t, s.k));
        assert(followed(nodes, s, j, g, t.input));
        if t.hist.len() == 1 {
            lemma_unstep(t);
            assert(t.hist[0].len() == s.k);
            assert(eps_of(here, s.k).contains((t.input, t.hist[0])));
        } else {
            lemma_uncons_trace(t);
            let rest = suffix(t, 1);
            assert(der(here, t.input).contains(rest));
            assert(lands(nodes, s, g, rest));
            let to = choose|to: int| #[trigger] seen(nodes, s, to, g, rest.input) && lang(s.states[to], s.k).contains(
                rest,
            );
            lemma_no_run(nodes, s, to, g, rest);
        }
    }
}

/// When nothing is left to follow, the language in question is empty.
pub proof fn lemma_empty(nodes: Seq<SPPnode>, s: Search, state: int)
    requires
        exploring(nodes, s),
        !s.in_hand,
        s.work.len() == 0,
        0 <= state < s.states.len(),
        s.l0 == lang(s.states[state], s.k),
        full(s.k).subset_of(rel_in(nodes, s.vis[state])),
    ensures
        s.l0 == Set::<Trace>::empty(),
{
    assert forall|t: Trace| !s.l0.contains(t) by {
        if s.l0.contains(t) {
            lemma_lang_within(s.states[state], s.k);
            assert(full(s.k).contains((t.input, t.input)));
            assert(seen(nodes, s, state, t.input, t.input));
            lemma_no_run(nodes, s, state, t.input, t);
        }
    }
    assert(s.l0 =~= Set::<Trace>::empty());
}

/// A state of the automaton: the index of its expression.
pub type State = usize;

/// What the work has cost: for each item of work that was ever laid down,
/// a pair of packets that arrived at the item's state with that item and
/// had not arrived there before. No two of them are the same pair at the
/// same state.
#[verifier::opaque]
pub open spec fn paid_ok(nodes: Seq<SPPnode>, vis: Seq<SPP>, paid: Seq<(int, Packet, Packet)>) -> bool {
    &&& forall|i: int|
        0 <= i < paid.len() ==> 0 <= (#[trigger] paid[i]).0 < vis.len() && rel_in(nodes, vis[paid[i].0]).contains(
            (paid[i].1, paid[i].2),
        )
    &&& paid.no_duplicates()
}

/// The packet of `k` fields that are all unset.
pub open spec fn blank(k: nat) -> Packet {
    Seq::new(k, |i: int| false)
}

/// The first item of work, which holds every pair at the state in question,
/// is paid for by the pair of blank packets.
pub proof fn lemma_paid_start(nodes: Seq<SPPnode>, vis: Seq<SPP>, state: int, k: nat)
    requires
        0 <= state < vis.len(),
        rel_in(nodes, vis[state]) == full(k),
    ensures
        paid_ok(nodes, vis, seq![(state, blank(k), blank(k))]),
{
    reveal(paid_ok);
    assert(full(k).contains((blank(k), blank(k))));
}

/// What was paid stays paid when the store grows.
pub proof fn lemma_paid_grown(old: Seq<SPPnode>, new: Seq<SPPnode>, s: Search, paid: Seq<(int, Packet, Packet)>)
    requires
        nodes_wf(old),
        grown(old, new),
        sound(old, s),
        paid_ok(old, s.vis, paid),
    ensures
        paid_ok(new, s.vis, paid),
{
    reveal(paid_ok);
    assert forall|i: int| 0 <= i < paid.len() implies 0 <= (#[trigger] paid[i]).0 < s.vis.len() && rel_in(
        new,
        s.vis[paid[i].0],
    ).contains((paid[i].1, paid[i].2)) by {
        lemma_frame(old, new, s.vis[paid[i].0]);
    }
}

/// What was paid stays paid when a state is added.
pub proof fn lemma_paid_added(nodes: Seq<SPPnode>, vis: Seq<SPP>, paid: Seq<(int, Packet, Packet)>, h: SPP)
    requires
        paid_ok(nodes, vis, paid),
    ensures
        paid_ok(nodes, vis.push(h), paid),
{
    reveal(paid_ok);
    assert forall|i: int| 0 <= i < paid.len() implies 0 <= (#[trigger] paid[i]).0 < vis.push(h).len() && rel_in(
        nodes,
        vis.push(h)[paid[i].0],
    ).contains((paid[i].1, paid[i].2)) by {
        assert(vis.push(h)[paid[i].0] == vis[paid[i].0]);
    }
}

/// A new item of work is paid for: pairs that arrive at a state where they
/// had not arrived before, and of which there is one, hold a pair that no
/// item was paid with.
pub proof fn lemma_paid_arrive(
    nodes: Seq<SPPnode>,
    vis: Seq<SPP>,
    paid: Seq<(int, Packet, Packet)>,
    to: int,
    fresh: SPP,
    all: SPP,
) -> (more: Seq<(int, Packet, Packet)>)
    requires
        paid_ok(nodes, vis, paid),
        0 <= to < vis.len(),
        rel_in(nodes, fresh) != empty(),
        rel_in(nodes, fresh).disjoint(rel_in(nodes, vis[to])),
        rel_in(nodes, all) == rel_in(nodes, vis[to]).union(rel_in(nodes, fresh)),
    ensures
        paid_ok(nodes, vis.update(to, all), more),
        more.len() == paid.len() + 1,
{
    reveal(paid_ok);
    let news = rel_in(nodes, fresh);
    if forall|pq: (Packet, Packet)| !news.contains(pq) {
        assert(news =~= empty());
    }
    let pq = choose|pq: (Packet, Packet)| news.contains(pq);
    let more = paid.push((to, pq.0, pq.1));
    let z = vis.update(to, all);
    assert forall|i: int| 0 <= i < more.len() implies 0 <= (#[trigger] more[i]).0 < z.len() && rel_in(
        nodes,
        z[more[i].0],
    ).contains((more[i].1, more[i].2)) by {
        if i < paid.len() {
            assert(more[i] == paid[i]);
            if paid[i].0 != to {
                assert(z[paid[i].0] == vis[paid[i].0]);
            }
        } else {
            assert((more[i].1, more[i].2) == pq);
        }
    }
    assert forall|i: int, j: int| 0 <= i < more.len() && 0 <= j < more.len() && i != j implies more[i]
        != more[j] by {
        if i < paid.len() && j < paid.len() {
            assert(paid[i] != paid[j]);
        } else if i < paid.len() {
            if paid[i] == (to, pq.0, pq.1) {
                assert(rel_in(nodes, vis[to]).contains((paid[i].1, paid[i].2)));
                assert((paid[i].1, paid[i].2) == pq);
            }
        } else {
            if paid[j] == (to, pq.0, pq.1) {
                assert(rel_in(nodes, vis[to]).contains((paid[j].1, paid[j].2)));
                assert((paid[j].1, paid[j].2) == pq);
            }
        }
    }
    more
}

/// No more was paid than there are pairs of packets at the states: each
/// item of work was paid with a pair of its own.
pub proof fn lemma_paid_bound(nodes: Seq<SPPnode>, s: Search, paid: Seq<(int, Packet, Packet)>)
    requires
        nodes_wf(nodes),
        sound(nodes, s),
        paid_ok(nodes, s.vis, paid),
    ensures
        paid.len() <= s.states.len() * pairs_of(s.k),
{
    reveal(paid_ok);
    let k = s.k;
    let n = s.vis.len() as int;
    let codes = Seq::new(paid.len(), |i: int| code(paid[i].0, paid[i].1, paid[i].2, k));
    assert forall|i: int| 0 <= i < paid.len() implies (#[trigger] paid[i]).1.len() == k && paid[i].2.len() == k by {
        lemma_rel_typed(nodes, s.vis[paid[i].0]);
    }
    assert forall|i: int| 0 <= i < codes.len() implies 0 <= #[trigger] codes[i] < n * pairs_of(k) by {
        assert(paid[i].1.len() == k);
        lemma_code_below(paid[i].0, paid[i].1, paid[i].2, k, n);
    }
    assert forall|i: int, j: int| 0 <= i < codes.len() && 0 <= j < codes.len() && i != j implies codes[i]
        != codes[j] by {
        assert(paid[i].1.len() == k);
        assert(paid[j].1.len() == k);
        if codes[i] == codes[j] {
            lemma_code_injective(paid[i].0, paid[i].1, paid[i].2, paid[j].0, paid[j].1, paid[j].2, k);
            assert(paid[i] == paid[j]);
        }
    }
    assert(0 <= n * pairs_of(k)) by (nonlinear_arith)
        requires
            0 <= n,
            0 <= pairs_of(k),
    ;
    lemma_pigeonhole(codes, n * pairs_of(k));
}

/// What was paid stays paid when the store grows, and is no more than
/// there are pairs of packets at the states.
pub proof fn lemma_paid_on(old: Seq<SPPnode>, new: Seq<SPPnode>, s: Search, paid: Seq<(int, Packet, Packet)>)
    requires
        nodes_wf(old),
        nodes_wf(new),
        grown(old, new),
        sound(old, s),
        sound(new, s),
        paid_ok(old, s.vis, paid),
    ensures
        paid_ok(new, s.vis, paid),
        paid.len() <= s.states.len() * pairs_of(s.k),
{
    lemma_paid_grown(old, new, s, paid);
    lemma_paid_bound(new, s, paid);
}

/// The number of items of work that a fresh automaton may handle.
pub const DEFAULT_BUDGET: usize = 1_000_000;

/// The symbolic automaton: the store of its symbolic packet programs, and
/// its states, made on demand from expressions and found again by them.
pub struct Aut {
    /// The store of the symbolic packet programs.
    pub spp: SPPstore,
    /// The store of the symbolic packets, for the same number of fields.
    pub sp: SPstore,
    /// The expressions of the states: state `i` is the expression at index `i`.
    pub states: Vec<Exp>,
    /// The number of items of work that explorations may still handle.
    pub budget: usize,
}

impl Aut {
    /// The automaton is well formed: its two stores are, and they are
    /// stores for the same number of fields.
    pub open spec fn wf(&self) -> bool {
        &&& self.spp.wf()
        &&& self.sp.wf()
        &&& self.sp.num_fields() == self.spp.num_fields()
    }

    /// The number of packet fields.
    pub open spec fn num_fields(&self) -> nat {
        self.spp.num_fields()
    }

    /// The language of a state: the traces of its expression.
    pub open spec fn language(&self, state: State) -> Lang {
        lang(self.states@[state as int], self.num_fields())
    }

    /// The states of `old` are states of this automaton, with the same expressions.
    pub open spec fn keeps(&self, old: &Aut) -> bool {
        &&& old.states@.len() <= self.states@.len()
        &&& forall|i: int| 0 <= i < old.states@.len() ==> #[trigger] self.states@[i] == old.states@[i]
    }

    /// An automaton over packets of `num_fields` fields, without states.
    pub fn new(num_fields: u32) -> (aut: Self)
        requires
            num_fields <= MAX_VARS,
        ensures
            aut.wf(),
            aut.num_fields() == num_fields,
            aut.spp@ == fresh_nodes(num_fields as nat),
            aut.sp@ == fresh_sp_nodes(num_fields as nat),
            aut.states@.len() == 0,
            aut.budget == DEFAULT_BUDGET,
    {
        Aut {
            spp: SPPstore::new(num_fields),
            sp: SPstore::new(num_fields),
            states: Vec::new(),
            budget: DEFAULT_BUDGET,
        }
    }

    /// The state of an expression: the first state with that expression, or
    /// a new state when there is none.
    pub fn expr_to_state(&mut self, e: &Exp) -> (state: State)
        ensures
            final(self).spp == old(self).spp,
            final(self).sp == old(self).sp,
            final(self).budget == old(self).budget,
            state < final(self).states@.len(),
            final(self).states@[state as int] == *e,
            forall|i: int| 0 <= i < state ==> old(self).states@[i] != *e,
            state < old(self).states@.len() ==> final(self).states@ == old(self).states@,
            state >= old(self).states@.len() ==> state == old(self).states@.len() && final(self).states@ == old(
                self,
            ).states@.push(*e),
    {
        let mut i: usize = 0;
        while i < self.states.len()
            invariant
                i <= self.states.len(),
                *self == *old(self),
                forall|j: int| 0 <= j < i ==> self.states@[j] != *e,
            decreases self.states.len() - i,
        {
            if same(&self.states[i], e) {
                return i;
            }
            i += 1;
        }
        self.states.push(share(e));
        i
    }

    /// Where a state accepts: the symbolic packet of the packets from which
    /// its expression has a run that records nothing. `None` when a store
    /// ran out of handles.
    pub fn epsilon(&mut self, state: State) -> (r: Option<SP>)
        requires
            old(self).wf(),
            state < old(self).states@.len(),
        ensures
            final(self).wf(),
            final(self).spp.extends(&old(self).spp),
            final(self).sp.extends(&old(self).sp),
            final(self).states@ == old(self).states@,
            final(self).budget == old(self).budget,
            match r {
                Some(h) => {
                    &&& final(self).sp.valid(h)
                    &&& final(self).sp.depth(h) == old(self).num_fields()
                    &&& final(self).sp.set(h) == domain(eps_of(old(self).language(state), old(self).num_fields()))
                },
                None => final(self).spp.is_full() || final(self).sp.is_full(),
            },
    {
        let pairs = self.epsilon_pairs(state)?;
        self.sp.domain(&self.spp, pairs)
    }

    /// What a state accepts without recording: the symbolic packet program
    /// of the pairs of an input and an output packet between which its
    /// expression has a run that records nothing. `None` when the store ran
    /// out of handles.
    pub fn epsilon_pairs(&mut self, state: State) -> (r: Option<SPP>)
        requires
            old(self).wf(),
            state < old(self).states@.len(),
        ensures
            final(self).wf(),
            final(self).spp.extends(&old(self).spp),
            final(self).sp == old(self).sp,
            final(self).states@ == old(self).states@,
            final(self).budget == old(self).budget,
            match r {
                Some(h) => {
                    &&& final(self).spp.valid(h)
                    &&& final(self).spp.depth(h) == old(self).num_fields()
                    &&& final(self).spp.rel(h) == eps_of(old(self).language(state), old(self).num_fields())
                },
                None => final(self).spp.is_full(),
            },
    {
        let mut memo: Memo = Vec::new();
        let d = expand(&mut self.spp, &mut memo, &self.states[state])?;
        Some(d.eps)
    }

    /// The transitions of a state: a list of symbolic packet programs beside
    /// expressions, no two programs overlapping, that takes an input packet
    /// to exactly the runs that are left of the state's expression after a
    /// first recording. `None` when the store ran out of handles.
    pub fn delta(&mut self, state: State) -> (r: Option<Trans>)
        requires
            old(self).wf(),
            state < old(self).states@.len(),
        ensures
            final(self).wf(),
            final(self).spp.extends(&old(self).spp),
            final(self).sp == old(self).sp,
            final(self).states@ == old(self).states@,
            final(self).budget == old(self).budget,
            match r {
                Some(list) => t_ok(
                    final(self).spp@,
                    list@,
                    old(self).num_fields(),
                    old(self).language(state),
                ),
                None => final(self).spp.is_full(),
            },
    {
        let mut memo: Memo = Vec::new();
        let d = expand(&mut self.spp, &mut memo, &self.states[state])?;
        Some(d.trans)
    }

    /// Whether the language of a state is empty: whether no run of its
    /// expression exists. Each item of work costs one unit of the budget and
    /// is paid with a pair of packets that had not arrived at its state
    /// before, so that an exploration costs no more than there are pairs of
    /// packets at the states. `None` when the exploration gave up: the store
    /// ran out of handles, or the budget was no more than that.
    #[verifier::rlimit(40)]
    pub fn is_empty(&mut self, state: State) -> (r: Option<bool>)
        requires
            old(self).wf(),
            state < old(self).states@.len(),
        ensures
            final(self).wf(),
            final(self).spp.extends(&old(self).spp),
            final(self).sp == old(self).sp,
            final(self).keeps(old(self)),
            final(self).budget <= old(self).budget,
            old(self).budget - final(self).budget <= final(self).states@.len() * pairs_of(old(self).num_fields()),
            match r {
                Some(empty) => empty == (old(self).language(state) == Set::<Trace>::empty()),
                None => final(self).spp.is_full() || old(self).budget <= final(self).states@.len() * pairs_of(
                    old(self).num_fields(),
                ),
            },
    {
        let ghost k = self.spp.num_fields();
        let ghost l0 = lang(self.states@[state as int], k);
        let zero = self.spp.zero;
        let top = self.spp.top;
        let mut visited: Vec<SPP> = Vec::new();
        let mut i: usize = 0;
        while i < self.states.len()
            invariant
                i <= self.states.len(),
                *self == *old(self),
                zero == self.spp.zero,
                visited@ == Seq::new(i as nat, |j: int| zero),
            decreases self.states.len() - i,
        {
            visited.push(zero);
            proof {
                assert(visited@ =~= Seq::new((i + 1) as nat, |j: int| zero));
            }
            i += 1;
        }
        visited[state] = top;
        let mut work: Vec<(State, SPP)> = Vec::new();
        work.push((state, top));
        let mut memo: Memo = Vec::new();
        let ghost mut s = Search {
            states: self.states@,
            vis: visited@,
            work: work@,
            k,
            l0,
            in_hand: false,
            at: 0,
            nu: 0,
            trans: Seq::empty(),
            done: 0,
        };
        proof {
            self.spp.lemma_extends_self();
            assert(work@ =~= seq![(state, top)]);
            assert(visited@ =~= Seq::new(self.states@.len(), |j: int| zero).update(state as int, top));
            lemma_start(self.spp@, s, state, zero, top);
            lemma_paid_start(self.spp@, visited@, state as int, k);
        }
        let ghost mut paid: Seq<(int, Packet, Packet)> = seq![(state as int, blank(k), blank(k))];
        while work.len() > 0
            invariant
                paid_ok(self.spp@, visited@, paid),
                paid.len() == old(self).budget - self.budget + work.len(),
                self.spp.wf(),
                self.sp == old(self).sp,
                old(self).wf(),
                self.spp.extends(&old(self).spp),
                self.keeps(old(self)),
                self.budget <= old(self).budget,
                self.spp.num_fields() == k,
                memo_ok(self.spp@, memo@, k),
                exploring(self.spp@, s),
                !s.in_hand,
                s.states == self.states@,
                s.vis == visited@,
                s.work == work@,
                s.k == k,
                s.l0 == l0,
                state < self.states@.len(),
                l0 == lang(self.states@[state as int], k),
                l0 == old(self).language(state),
                full(k).subset_of(rel_in(self.spp@, visited@[state as int])),
            decreases self.budget,
        {
            if self.budget == 0 {
                proof {
                    self.spp.lemma_inv_nodes();
                    lemma_paid_bound(self.spp@, s, paid);
                }
                return None;
            }
            self.budget = self.budget - 1;
            let ghost left = self.budget;
            let at = work[work.len() - 1].0;
            let nu = work[work.len() - 1].1;
            let ghost n0 = self.spp;
            proof {
                n0.lemma_inv_nodes();
                assert(s.work[s.work.len() - 1] == s.work.last());
            }
            let expanded = expand(&mut self.spp, &mut memo, &self.states[at]);
            proof {
                lemma_exploring_grown(n0@, self.spp@, s);
                lemma_frame(n0@, self.spp@, visited@[state as int]);
                self.spp.lemma_inv_nodes();
                lemma_paid_on(n0@, self.spp@, s, paid);
            }
            let d = expanded?;
            let ghost n1 = self.spp;
            let accepted = self.spp.sequence(nu, d.eps);
            proof {
                n1.lemma_inv_nodes();
                lemma_exploring_grown(n1@, self.spp@, s);
                lemma_memo_grown(n1@, self.spp@, memo@, k);
                lemma_frame(n1@, self.spp@, visited@[state as int]);
                crate::aut::lemma_d_ok_grown(n1@, self.spp@, d.eps, d.trans@, k, lang(s.states[at as int], k));
                self.spp.lemma_inv_nodes();
                lemma_paid_on(n1@, self.spp@, s, paid);
            }
            let acc = accepted?;
            if acc != self.spp.zero {
                proof {
                    if rel_in(self.spp@, acc) == empty() {
                        self.spp.lemma_canonical(acc, self.spp.zero);
                    }
                    lemma_frame(n1@, self.spp@, nu);
                    lemma_accepting(self.spp@, s, d.eps, acc);
                }
                return Some(false);
            }
            work.pop();
            proof {
                let z = Search {
                    work: s.work.drop_last(),
                    in_hand: true,
                    at: at as int,
                    nu,
                    trans: d.trans@,
                    done: 0,
                    ..s
                };
                lemma_frame(n1@, self.spp@, nu);
                lemma_take(self.spp@, s, z, d.eps);
                s = z;
                assert(work@ =~= s.work);
            }
            let mut x: usize = 0;
            while x < d.trans.len()
                invariant
                    x <= d.trans.len(),
                    paid_ok(self.spp@, visited@, paid),
                    paid.len() == old(self).budget - left + work.len(),
                    self.spp.wf(),
                    self.sp == old(self).sp,
                    old(self).wf(),
                    self.spp.extends(&old(self).spp),
                    self.keeps(old(self)),
                    self.budget == left,
                    left < old(self).budget,
                    self.spp.num_fields() == k,
                    memo_ok(self.spp@, memo@, k),
                    exploring(self.spp@, s),
                    s.in_hand,
                    s.nu == nu,
                    s.trans == d.trans@,
                    s.done == x,
                    s.states == self.states@,
                    s.vis == visited@,
                    s.work == work@,
                    s.k == k,
                    s.l0 == l0,
                    state < self.states@.len(),
                    l0 == lang(self.states@[state as int], k),
                    l0 == old(self).language(state),
                    full(k).subset_of(rel_in(self.spp@, visited@[state as int])),
                decreases d.trans.len() - x,
            {
                let region = d.trans[x].0;
                let ghost n2 = self.spp;
                let reached = self.spp.sequence(nu, region);
                proof {
                    n2.lemma_inv_nodes();
                    lemma_exploring_grown(n2@, self.spp@, s);
                    lemma_memo_grown(n2@, self.spp@, memo@, k);
                    lemma_frame(n2@, self.spp@, visited@[state as int]);
                    lemma_frame(n2@, self.spp@, nu);
                    lemma_frame(n2@, self.spp@, region);
                    self.spp.lemma_inv_nodes();
                    lemma_paid_on(n2@, self.spp@, s, paid);
                }
                let reach = reached?;
                if reach == self.spp.zero {
                    proof {
                        let z = Search { done: s.done + 1, ..s };
                        lemma_skip(self.spp@, s, z);
                        s = z;
                    }
                } else {
                    let to = self.expr_to_state(&d.trans[x].1);
                    if visited.len() < self.states.len() {
                        visited.push(self.spp.zero);
                        proof {
                            let z = Search {
                                states: s.states.push(d.trans@[x as int].1),
                                vis: s.vis.push(self.spp.zero),
                                ..s
                            };
                            lemma_add_state(self.spp@, s, z, d.trans@[x as int].1, self.spp.zero);
                            lemma_paid_added(self.spp@, s.vis, paid, self.spp.zero);
                            s = z;
                        }
                    }
                    let ghost n3 = self.spp;
                    let seen_there = visited[to];
                    let differed = self.spp.difference(reach, seen_there);
                    proof {
                        n3.lemma_inv_nodes();
                        lemma_exploring_grown(n3@, self.spp@, s);
                        lemma_memo_grown(n3@, self.spp@, memo@, k);
                        lemma_frame(n3@, self.spp@, visited@[state as int]);
                        lemma_frame(n3@, self.spp@, nu);
                        lemma_frame(n3@, self.spp@, region);
                        lemma_frame(n3@, self.spp@, reach);
                        lemma_frame(n3@, self.spp@, seen_there);
                        self.spp.lemma_inv_nodes();
                        lemma_paid_on(n3@, self.spp@, s, paid);
                    }
                    let fresh = differed?;
                    if fresh != self.spp.zero {
                        let ghost n4 = self.spp;
                        let united = self.spp.union(seen_there, fresh);
                        proof {
                            n4.lemma_inv_nodes();
                            lemma_exploring_grown(n4@, self.spp@, s);
                            lemma_memo_grown(n4@, self.spp@, memo@, k);
                            lemma_frame(n4@, self.spp@, visited@[state as int]);
                            lemma_frame(n4@, self.spp@, nu);
                            lemma_frame(n4@, self.spp@, region);
                            lemma_frame(n4@, self.spp@, reach);
                            lemma_frame(n4@, self.spp@, seen_there);
                            lemma_frame(n4@, self.spp@, fresh);
                            self.spp.lemma_inv_nodes();
                            lemma_paid_on(n4@, self.spp@, s, paid);
                        }
                        let all = united?;
                        visited[to] = all;
                        work.push((to, fresh));
                        proof {
                            let z = Search {
                                vis: s.vis.update(to as int, all),
                                work: s.work.push((to, fresh)),
                                done: s.done + 1,
                                ..s
                            };
                            if rel_in(self.spp@, fresh) == empty() {
                                self.spp.lemma_canonical(fresh, self.spp.zero);
                            }
                            self.spp.lemma_inv_nodes();
                            lemma_arrive(self.spp@, s, z, to, reach, fresh, all);
                            assert(rel_in(self.spp@, s.vis[state as int]).subset_of(
                                rel_in(self.spp@, z.vis[state as int]),
                            ));
                            paid = lemma_paid_arrive(self.spp@, s.vis, paid, to as int, fresh, all);
                            s = z;
                        }
                    } else {
                        proof {
                            let z = Search { done: s.done + 1, ..s };
                            self.spp.lemma_inv_nodes();
                            lemma_arrive(self.spp@, s, z, to, reach, fresh, 0);
                            s = z;
                        }
                    }
                }
                x += 1;
            }
            proof {
                let z = Search { in_hand: false, ..s };
                self.spp.lemma_inv_nodes();
                lemma_lay_down(self.spp@, s, z);
                s = z;
            }
        }
        proof {
            lemma_empty(self.spp@, s, state as int);
            self.spp.lemma_inv_nodes();
            lemma_paid_bound(self.spp@, s, paid);
        }
        Some(true)
    }

    /// Whether two expressions are equivalent: whether they have the same
    /// runs. It is decided by the emptiness of their symmetric difference,
    /// which becomes a state. `None` when the exploration gave up.
    pub fn equal(&mut self, a: &Exp, b: &Exp) -> (r: Option<bool>)
        requires
            old(self).wf(),
        ensures
            final(self).wf(),
            final(self).spp.extends(&old(self).spp),
            final(self).sp == old(self).sp,
            final(self).keeps(old(self)),
            final(self).budget <= old(self).budget,
            final(self).states@.contains(xor_exp(*a, *b)),
            old(self).budget - final(self).budget <= final(self).states@.len() * pairs_of(old(self).num_fields()),
            match r {
                Some(yes) => yes == equivalent(*a, *b, old(self).num_fields()),
                None => final(self).spp.is_full() || old(self).budget <= final(self).states@.len() * pairs_of(
                    old(self).num_fields(),
                ),
            },
    {
        let apart = Expr::xor(share(a), share(b));
        let state = self.expr_to_state(&apart);
        let ghost entered = self.states@;
        proof {
            lemma_decided_by_emptiness(*a, *b, self.num_fields());
        }
        let r = self.is_empty(state);
        proof {
            assert(self.states@[state as int] == entered[state as int]);
        }
        r
    }

    /// Whether the first expression is contained in the second: whether
    /// every run of the first is a run of the second. It is decided by the
    /// emptiness of the symmetric difference of their union and the second,
    /// which becomes a state. `None` when the exploration gave up.
    pub fn leq(&mut self, a: &Exp, b: &Exp) -> (r: Option<bool>)
        requires
            old(self).wf(),
        ensures
            final(self).wf(),
            final(self).spp.extends(&old(self).spp),
            final(self).sp == old(self).sp,
            final(self).keeps(old(self)),
            final(self).budget <= old(self).budget,
            final(self).states@.contains(xor_exp(union_exp(*a, *b), *b)),
            old(self).budget - final(self).budget <= final(self).states@.len() * pairs_of(old(self).num_fields()),
            match r {
                Some(yes) => yes == contained(*a, *b, old(self).num_fields()),
                None => final(self).spp.is_full() || old(self).budget <= final(self).states@.len() * pairs_of(
                    old(self).num_fields(),
                ),
            },
    {
        let apart = Expr::xor(Expr::union(share(a), share(b)), share(b));
        let state = self.expr_to_state(&apart);
        let ghost entered = self.states@;
        proof {
            lemma_decided_by_emptiness(*a, *b, self.num_fields());
        }
        let r = self.is_empty(state);
        proof {
            assert(self.states@[state as int] == entered[state as int]);
        }
        r
    }
}

} // verus!
