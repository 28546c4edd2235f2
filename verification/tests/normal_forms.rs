use k2::aut::{expand, t_add, t_complement, t_join, t_meet, Memo};
use k2::explore::Aut;
use k2::expr::{same, Exp, Expr};
use k2::simplify::{chain, is_top, is_zero, join, meet, neg, spine};
use k2::spp::SPPstore;

fn atoms() -> (Exp, Exp, Exp) {
    (Expr::dup(), Expr::test(0, true), Expr::sequence(Expr::dup(), Expr::assign(1, false)))
}

#[test]
fn same_goes_by_structure() {
    let a = Expr::union(Expr::dup(), Expr::test(1, true));
    let b = Expr::union(Expr::dup(), Expr::test(1, true));
    assert!(same(&a, &a));
    assert!(same(&a, &b));
    assert!(same(&a, &a.clone()));
    assert!(!same(&a, &Expr::union(Expr::dup(), Expr::test(1, false))));
    assert!(!same(&a, &Expr::union(Expr::dup(), Expr::test(0, true))));
    assert!(!same(&a, &Expr::intersect(Expr::dup(), Expr::test(1, true))));
    assert!(!same(&Expr::zero(), &Expr::one()));
    assert!(same(&Expr::ltl_until(a.clone(), b.clone()), &Expr::ltl_until(b.clone(), a.clone())));
    assert!(!same(&Expr::ltl_until(a.clone(), b.clone()), &Expr::ltl_weak_until(a.clone(), b.clone())));
}

#[test]
fn constants_are_told_apart() {
    assert!(is_zero(&Expr::zero()));
    assert!(!is_zero(&Expr::top()));
    assert!(!is_zero(&Expr::complement(Expr::top())));
    assert!(is_top(&Expr::top()));
    assert!(!is_top(&Expr::one()));
}

#[test]
fn intersection_in_normal_form() {
    let (a, b, c) = atoms();
    // units and zeros
    assert_eq!(meet(&a, &Expr::top()), a);
    assert_eq!(meet(&Expr::top(), &a), a);
    assert_eq!(meet(&a, &Expr::zero()), Expr::zero());
    assert_eq!(meet(&Expr::zero(), &a), Expr::zero());
    // idempotent, commutative, associative
    assert_eq!(meet(&a, &a), a);
    assert_eq!(meet(&a, &b), meet(&b, &a));
    assert_eq!(meet(&a, &meet(&b, &c)), meet(&meet(&a, &b), &c));
    assert_eq!(meet(&meet(&c, &a), &meet(&b, &a)), meet(&a, &meet(&b, &c)));
    // contradiction
    assert_eq!(meet(&a, &neg(&a)), Expr::zero());
    assert_eq!(meet(&meet(&a, &b), &neg(&a)), Expr::zero());
    // two different expressions are not merged
    assert_ne!(meet(&a, &b), a);
    assert_ne!(meet(&a, &b), b);
}

#[test]
fn union_in_normal_form() {
    let (a, b, c) = atoms();
    assert_eq!(join(&a, &Expr::zero()), a);
    assert_eq!(join(&Expr::zero(), &a), a);
    assert_eq!(join(&a, &Expr::top()), Expr::top());
    assert_eq!(join(&Expr::top(), &a), Expr::top());
    assert_eq!(join(&a, &a), a);
    assert_eq!(join(&a, &b), join(&b, &a));
    assert_eq!(join(&a, &join(&b, &c)), join(&join(&a, &b), &c));
    assert_eq!(join(&a, &neg(&a)), Expr::top());
    // absorption and distributivity
    assert_eq!(join(&a, &meet(&a, &b)), a);
    assert_eq!(meet(&a, &join(&a, &b)), a);
    assert_eq!(join(&a, &meet(&b, &c)), meet(&join(&a, &b), &join(&a, &c)));
    assert_eq!(meet(&a, &join(&b, &c)), join(&meet(&a, &b), &meet(&a, &c)));
}

#[test]
fn complement_in_normal_form() {
    let (a, b, _) = atoms();
    assert_eq!(neg(&Expr::zero()), Expr::top());
    assert_eq!(neg(&Expr::top()), Expr::zero());
    assert_eq!(neg(&a), Expr::complement(a.clone()));
    assert_eq!(neg(&neg(&a)), a);
    assert_eq!(neg(&Expr::complement(a.clone())), a);
    // De Morgan
    assert_eq!(neg(&join(&a, &b)), meet(&neg(&a), &neg(&b)));
    assert_eq!(neg(&meet(&a, &b)), join(&neg(&a), &neg(&b)));
}

#[test]
fn sequence_in_normal_form() {
    let (a, b, c) = atoms();
    assert_eq!(chain(&Expr::one(), &a), a);
    assert_eq!(chain(&a, &Expr::one()), a);
    assert_eq!(chain(&Expr::zero(), &a), Expr::zero());
    assert_eq!(chain(&a, &Expr::zero()), Expr::zero());
    assert_eq!(chain(&a, &b), Expr::sequence(a.clone(), b.clone()));
    let right = Expr::sequence(a.clone(), Expr::sequence(b.clone(), c.clone()));
    assert_eq!(chain(&Expr::sequence(a.clone(), b.clone()), &c), right);
    assert_eq!(spine(&Expr::sequence(Expr::sequence(a.clone(), b.clone()), c.clone())), right);
    assert_eq!(spine(&right), right);
    assert_eq!(spine(&a), a);
    assert_eq!(spine(&Expr::sequence(Expr::one(), a.clone())), a);
}

/// The pairs of packets of `k` fields that `h` relates, packets as numbers.
fn pairs(s: &SPPstore, h: u32, k: u32) -> Vec<(u32, u32)> {
    let mut out = Vec::new();
    for p in 0..(1u32 << k) {
        for q in 0..(1u32 << k) {
            let mut at = h;
            for i in 0..k {
                if at < 2 {
                    break;
                }
                let n = s.get(at);
                at = match ((p >> (k - 1 - i)) & 1, (q >> (k - 1 - i)) & 1) {
                    (0, 0) => n.x00,
                    (0, 1) => n.x01,
                    (1, 0) => n.x10,
                    _ => n.x11,
                };
            }
            if at == 1 {
                out.push((p, q));
            }
        }
    }
    out
}

#[test]
fn expansion_of_the_constants() {
    let mut s = SPPstore::new(1);
    let mut memo: Memo = Vec::new();
    let d = expand(&mut s, &mut memo, &Expr::zero()).unwrap();
    assert_eq!((d.eps, d.trans.len()), (s.zero, 0));
    let d = expand(&mut s, &mut memo, &Expr::one()).unwrap();
    assert_eq!((d.eps, d.trans.len()), (s.one, 0));
    let d = expand(&mut s, &mut memo, &Expr::end()).unwrap();
    assert_eq!((d.eps, d.trans.len()), (s.top, 0));
    let d = expand(&mut s, &mut memo, &Expr::top()).unwrap();
    assert_eq!(d.eps, s.top);
    assert_eq!(d.trans, vec![(s.top, Expr::top())]);
    let d = expand(&mut s, &mut memo, &Expr::dup()).unwrap();
    assert_eq!(d.eps, s.zero);
    assert_eq!(d.trans, vec![(s.one, Expr::one())]);
    let d = expand(&mut s, &mut memo, &Expr::assign(0, true)).unwrap();
    assert_eq!(pairs(&s, d.eps, 1), vec![(0, 1), (1, 1)]);
    assert_eq!(d.trans.len(), 0);
    let d = expand(&mut s, &mut memo, &Expr::test(0, false)).unwrap();
    assert_eq!(pairs(&s, d.eps, 1), vec![(0, 0)]);
    let d = expand(&mut s, &mut memo, &Expr::test(3, false)).unwrap();
    assert_eq!(d.eps, s.zero);
}

#[test]
fn expansion_of_the_operators() {
    let mut s = SPPstore::new(1);
    let mut memo: Memo = Vec::new();
    let set = Expr::assign(0, true);
    let unset = Expr::test(0, false);
    // what goes before the first recording is in the region, what comes after it in the expression
    let e = Expr::sequence(set.clone(), Expr::sequence(Expr::dup(), unset.clone()));
    let d = expand(&mut s, &mut memo, &e).unwrap();
    assert_eq!(d.eps, s.zero);
    assert_eq!(d.trans.len(), 1);
    assert_eq!(pairs(&s, d.trans[0].0, 1), vec![(0, 1), (1, 1)]);
    assert_eq!(d.trans[0].1, unset);
    assert_eq!(memo.len(), 2);
    // the same again comes from the memo
    let again = expand(&mut s, &mut memo, &e).unwrap();
    assert_eq!((again.eps, again.trans), (d.eps, d.trans));
    assert_eq!(memo.len(), 2);
    // an iteration goes on in itself
    let star = Expr::star(Expr::dup());
    let d = expand(&mut s, &mut memo, &star).unwrap();
    assert_eq!(d.eps, s.one);
    assert_eq!(d.trans, vec![(s.one, star.clone())]);
    // a complement goes on in the complement where the operand goes on, and in everything elsewhere
    let d = expand(&mut s, &mut memo, &Expr::complement(Expr::dup())).unwrap();
    assert_eq!(d.eps, s.top);
    assert_eq!(d.trans.len(), 2);
    assert_eq!(d.trans[0], (s.one, Expr::complement(Expr::one())));
    assert_eq!(pairs(&s, d.trans[1].0, 1), vec![(0, 1), (1, 0)]);
    assert_eq!(d.trans[1].1, Expr::top());
    // next, finally and globally
    let x = Expr::ltl_next(unset.clone());
    let d = expand(&mut s, &mut memo, &x).unwrap();
    assert_eq!((d.eps, d.trans), (s.zero, vec![(s.top, unset.clone())]));
    let d = expand(&mut s, &mut memo, &Expr::ltl_weak_next(unset.clone())).unwrap();
    assert_eq!((d.eps, d.trans), (s.top, vec![(s.top, unset.clone())]));
    let f = Expr::ltl_finally(unset.clone());
    let d = expand(&mut s, &mut memo, &f).unwrap();
    assert_eq!(pairs(&s, d.eps, 1), vec![(0, 0)]);
    assert_eq!(d.trans, vec![(s.top, f.clone())]);
    let g = Expr::ltl_globally(unset.clone());
    let d = expand(&mut s, &mut memo, &g).unwrap();
    assert_eq!(pairs(&s, d.eps, 1), vec![(0, 0)]);
    assert_eq!(d.trans.len(), 0);
    // a union of two transitions on one region goes on in the union
    let either = Expr::union(Expr::sequence(Expr::dup(), set.clone()), Expr::sequence(Expr::dup(), unset.clone()));
    let d = expand(&mut s, &mut memo, &either).unwrap();
    assert_eq!(d.trans, vec![(s.one, join(&set, &unset))]);
}

#[test]
fn a_state_has_its_epsilon_and_its_delta() {
    let mut aut = Aut::new(1);
    let unset = Expr::test(0, false);
    let e = Expr::union(unset.clone(), Expr::sequence(Expr::assign(0, true), Expr::sequence(Expr::dup(), unset.clone())));
    let state = aut.expr_to_state(&e);
    let eps = aut.epsilon_pairs(state).unwrap();
    assert_eq!(pairs(&aut.spp, eps, 1), vec![(0, 0)]);
    let accepting = aut.epsilon(state).unwrap();
    assert_eq!(accepting, aut.sp.test(0, false).unwrap());
    let delta = aut.delta(state).unwrap();
    assert_eq!(delta.len(), 1);
    assert_eq!(pairs(&aut.spp, delta[0].0, 1), vec![(0, 1), (1, 1)]);
    assert_eq!(delta[0].1, unset);
    assert_eq!(aut.states.len(), 1);
    // the state accepts by itself: nothing more is looked at
    assert_eq!(aut.is_empty(state), Some(false));
    assert_eq!(aut.states.len(), 1);
    // a state that does not is followed to the one its transition leads to
    let later = Expr::sequence(Expr::assign(0, false), Expr::sequence(Expr::dup(), unset.clone()));
    let second = aut.expr_to_state(&later);
    assert_eq!(second, 1);
    assert_eq!(aut.is_empty(second), Some(false));
    assert_eq!(aut.states.len(), 3);
    assert_eq!(aut.states[2], unset);
    // and one whose transition leads nowhere is empty
    let never = Expr::sequence(Expr::assign(0, true), Expr::sequence(Expr::dup(), unset.clone()));
    let third = aut.expr_to_state(&never);
    assert_eq!(aut.is_empty(third), Some(true));
}

#[test]
fn transitions_on_overlapping_regions_are_kept_apart() {
    let mut s = SPPstore::new(1);
    let (a, b) = (Expr::dup(), Expr::end());
    let one = s.one;
    let top = s.top;
    let list = t_add(&mut s, Vec::new(), one, a.clone()).unwrap();
    assert_eq!(list, vec![(one, a.clone())]);
    // nothing is added for an empty region or an empty expression
    let zero = s.zero;
    assert_eq!(t_add(&mut s, list.clone(), zero, b.clone()).unwrap(), list);
    assert_eq!(t_add(&mut s, list.clone(), top, Expr::zero()).unwrap(), list);
    // the same expression on another region widens the region
    let list2 = t_add(&mut s, list.clone(), top, a.clone()).unwrap();
    assert_eq!(list2, vec![(top, a.clone())]);
    // another expression on an overlapping region splits it
    let list3 = t_add(&mut s, list.clone(), top, b.clone()).unwrap();
    assert_eq!(list3.len(), 2);
    assert_eq!(list3[0], (one, join(&a, &b)));
    assert_eq!(pairs(&s, list3[1].0, 1), vec![(0, 1), (1, 0)]);
    assert_eq!(list3[1].1, b);
    // complement, intersection and union of lists
    let not = t_complement(&mut s, &list).unwrap();
    assert_eq!(not.len(), 2);
    assert_eq!(not[0], (one, neg(&a)));
    assert_eq!(pairs(&s, not[1].0, 1), vec![(0, 1), (1, 0)]);
    assert_eq!(not[1].1, Expr::top());
    let both = t_meet(&mut s, &list, &list3).unwrap();
    assert_eq!(both, vec![(one, meet(&a, &join(&a, &b)))]);
    assert_eq!(both[0].1, a);
    let either = t_join(&mut s, list.clone(), &not).unwrap();
    assert_eq!(either.len(), 1);
    assert_eq!(either[0].1, Expr::top());
    assert_eq!(either[0].0, top);
}

#[test]
fn a_state_accepts_on_the_packets_that_some_packet_follows() {
    let mut aut = Aut::new(2);
    let everywhere = aut.sp.one;
    let nowhere = aut.sp.zero;
    let set = aut.sp.test(1, true).unwrap();
    let unset = aut.sp.test(1, false).unwrap();
    let cases = vec![
        (Expr::zero(), nowhere),
        (Expr::one(), everywhere),
        (Expr::top(), everywhere),
        (Expr::end(), everywhere),
        (Expr::dup(), nowhere),
        (Expr::test(1, true), set),
        (Expr::assign(1, true), everywhere),
        (Expr::sequence(Expr::assign(1, true), Expr::test(1, false)), nowhere),
        (Expr::sequence(Expr::test(1, false), Expr::assign(1, true)), unset),
        (Expr::union(Expr::test(1, false), Expr::sequence(Expr::dup(), Expr::top())), unset),
        (Expr::complement(Expr::test(1, true)), everywhere),
        (Expr::star(Expr::dup()), everywhere),
        (Expr::ltl_next(Expr::one()), nowhere),
        (Expr::ltl_weak_next(Expr::zero()), everywhere),
    ];
    for (e, expected) in cases {
        let state = aut.expr_to_state(&e);
        assert_eq!(aut.epsilon(state), Some(expected), "{:?}", e);
    }
}
