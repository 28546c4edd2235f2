use k2::explore::Aut;
use k2::expr::{Exp, Expr};
use k2::fuzz::{gen_leq, gen_random_expr, genax};
use k2::random::Source;
use k2::reduce::{first_failing, reduce, trial_equal, trial_leq};

/// Whether the language of `e` over `k` fields is empty.
fn is_empty(k: u32, e: &Exp) -> Option<bool> {
    let mut aut = Aut::new(k);
    let state = aut.expr_to_state(e);
    aut.is_empty(state)
}

/// Whether `a` and `b` are equivalent over `k` fields.
fn equivalent(k: u32, a: &Exp, b: &Exp) -> Option<bool> {
    is_empty(k, &Expr::xor(a.clone(), b.clone()))
}

/// Whether `a` is contained in `b` over `k` fields.
fn contained(k: u32, a: &Exp, b: &Exp) -> Option<bool> {
    is_empty(k, &Expr::xor(Expr::union(a.clone(), b.clone()), b.clone()))
}

#[test]
fn a_test_of_the_value_just_assigned_passes() {
    let a = Expr::assign(0, true);
    let at = Expr::sequence(a.clone(), Expr::test(0, true));
    assert_eq!(is_empty(3, &Expr::xor(at, a)), Some(true));
}

#[test]
fn a_field_is_not_both_unset_and_set() {
    let ft = Expr::sequence(Expr::test(0, false), Expr::test(0, true));
    assert_eq!(is_empty(3, &Expr::xor(ft, Expr::zero())), Some(true));
}

#[test]
fn a_field_is_unset_or_set() {
    let either = Expr::union(Expr::test(0, false), Expr::test(0, true));
    assert_eq!(is_empty(3, &Expr::xor(either, Expr::one())), Some(true));
}

#[test]
fn the_iteration_of_dup_unrolls() {
    let star = Expr::star(Expr::dup());
    let unrolled = Expr::union(Expr::one(), Expr::sequence(Expr::dup(), Expr::star(Expr::dup())));
    assert_eq!(is_empty(2, &Expr::xor(star, unrolled)), Some(true));
}

#[test]
fn not_finally_is_globally_not() {
    let t = Expr::test(0, true);
    let never = Expr::complement(Expr::ltl_finally(t.clone()));
    let always_not = Expr::ltl_globally(Expr::complement(t));
    assert_eq!(is_empty(2, &Expr::xor(never, always_not)), Some(true));
}

#[test]
fn nothing_added_changes_nothing_and_something_added_does() {
    let a = Expr::assign(0, true);
    assert_eq!(is_empty(2, &Expr::xor(Expr::union(a.clone(), Expr::zero()), a.clone())), Some(true));
    assert_eq!(is_empty(2, &Expr::xor(Expr::union(a.clone(), Expr::one()), a.clone())), Some(false));
    assert_eq!(is_empty(2, &Expr::xor(Expr::union(a.clone(), Expr::top()), a.clone())), Some(false));
}

#[test]
fn constants_are_empty_or_not() {
    assert_eq!(is_empty(2, &Expr::zero()), Some(true));
    assert_eq!(is_empty(2, &Expr::one()), Some(false));
    assert_eq!(is_empty(2, &Expr::top()), Some(false));
    assert_eq!(is_empty(2, &Expr::dup()), Some(false));
    assert_eq!(is_empty(2, &Expr::end()), Some(false));
    assert_eq!(is_empty(2, &Expr::test(1, true)), Some(false));
    assert_eq!(is_empty(2, &Expr::assign(1, true)), Some(false));
    // a field that the packets do not have
    assert_eq!(is_empty(2, &Expr::test(2, true)), Some(true));
    assert_eq!(is_empty(2, &Expr::assign(5, false)), Some(true));
    assert_eq!(is_empty(0, &Expr::one()), Some(false));
    assert_eq!(is_empty(0, &Expr::complement(Expr::top())), Some(true));
}

#[test]
fn states_are_found_again_by_their_expression() {
    let mut aut = Aut::new(2);
    let a = Expr::union(Expr::dup(), Expr::one());
    let b = Expr::union(Expr::dup(), Expr::one());
    let c = Expr::union(Expr::one(), Expr::dup());
    assert_eq!(aut.expr_to_state(&a), 0);
    assert_eq!(aut.expr_to_state(&c), 1);
    assert_eq!(aut.expr_to_state(&b), 0);
    assert_eq!(aut.states.len(), 2);
}

#[test]
fn an_exhausted_budget_gives_no_answer() {
    let mut aut = Aut::new(2);
    let state = aut.expr_to_state(&Expr::star(Expr::dup()));
    aut.budget = 0;
    assert_eq!(aut.is_empty(state), None);
    aut.budget = 100;
    assert_eq!(aut.is_empty(state), Some(false));
    assert!(aut.budget < 100);
}

#[test]
fn dup_is_seen_in_the_history() {
    let d = Expr::dup();
    assert_eq!(equivalent(2, &d, &Expr::one()), Some(false));
    assert_eq!(equivalent(2, &Expr::sequence(d.clone(), d.clone()), &d), Some(false));
    let t = Expr::test(1, false);
    assert_eq!(
        equivalent(2, &Expr::sequence(d.clone(), t.clone()), &Expr::sequence(t.clone(), d.clone())),
        Some(true)
    );
    let a = Expr::assign(1, false);
    assert_eq!(
        equivalent(2, &Expr::sequence(d.clone(), a.clone()), &Expr::sequence(a.clone(), d.clone())),
        Some(false)
    );
}

#[test]
fn kleene_algebra_laws_hold_of_expressions() {
    let p = Expr::sequence(Expr::test(0, true), Expr::dup());
    let q = Expr::union(Expr::assign(1, true), Expr::dup());
    let r = Expr::star(Expr::sequence(Expr::assign(0, false), Expr::dup()));
    let (un, seq) = (Expr::union, Expr::sequence);
    let eq = |a: Exp, b: Exp| equivalent(2, &a, &b);
    assert_eq!(eq(un(p.clone(), un(q.clone(), r.clone())), un(un(p.clone(), q.clone()), r.clone())), Some(true));
    assert_eq!(eq(un(p.clone(), q.clone()), un(q.clone(), p.clone())), Some(true));
    assert_eq!(eq(un(p.clone(), Expr::zero()), p.clone()), Some(true));
    assert_eq!(eq(un(p.clone(), p.clone()), p.clone()), Some(true));
    assert_eq!(eq(seq(p.clone(), seq(q.clone(), r.clone())), seq(seq(p.clone(), q.clone()), r.clone())), Some(true));
    assert_eq!(eq(seq(Expr::one(), p.clone()), p.clone()), Some(true));
    assert_eq!(eq(seq(p.clone(), Expr::one()), p.clone()), Some(true));
    assert_eq!(eq(seq(Expr::zero(), p.clone()), Expr::zero()), Some(true));
    assert_eq!(eq(seq(p.clone(), Expr::zero()), Expr::zero()), Some(true));
    assert_eq!(
        eq(seq(p.clone(), un(q.clone(), r.clone())), un(seq(p.clone(), q.clone()), seq(p.clone(), r.clone()))),
        Some(true)
    );
    assert_eq!(
        eq(seq(un(p.clone(), q.clone()), r.clone()), un(seq(p.clone(), r.clone()), seq(q.clone(), r.clone()))),
        Some(true)
    );
    assert_eq!(eq(un(Expr::one(), seq(q.clone(), Expr::star(q.clone()))), Expr::star(q.clone())), Some(true));
    assert_eq!(eq(un(Expr::one(), seq(Expr::star(q.clone()), q.clone())), Expr::star(q.clone())), Some(true));
    // and what is no law fails
    assert_eq!(eq(seq(p.clone(), q.clone()), seq(q.clone(), p.clone())), Some(false));
}

#[test]
fn boolean_algebra_laws_hold_of_expressions() {
    let a = Expr::sequence(Expr::test(0, true), Expr::dup());
    let b = Expr::union(Expr::assign(1, true), Expr::dup());
    let c = Expr::ltl_finally(Expr::test(1, false));
    let (un, and, not) = (Expr::union, Expr::intersect, Expr::complement);
    let eq = |a: Exp, b: Exp| equivalent(2, &a, &b);
    assert_eq!(
        eq(un(a.clone(), and(b.clone(), c.clone())), and(un(a.clone(), b.clone()), un(a.clone(), c.clone()))),
        Some(true)
    );
    assert_eq!(eq(un(a.clone(), Expr::top()), Expr::top()), Some(true));
    assert_eq!(eq(un(a.clone(), not(a.clone())), Expr::top()), Some(true));
    assert_eq!(eq(and(a.clone(), b.clone()), and(b.clone(), a.clone())), Some(true));
    assert_eq!(eq(and(a.clone(), not(a.clone())), Expr::zero()), Some(true));
    assert_eq!(eq(and(a.clone(), a.clone()), a.clone()), Some(true));
    assert_eq!(eq(Expr::difference(a.clone(), b.clone()), and(a.clone(), not(b.clone()))), Some(true));
    assert_eq!(eq(not(not(b.clone())), b.clone()), Some(true));
}

#[test]
fn packet_axioms_hold_of_expressions() {
    let eq = |a: Exp, b: Exp| equivalent(3, &a, &b);
    let seq = Expr::sequence;
    for v in [false, true] {
        for w in [false, true] {
            assert_eq!(
                eq(seq(Expr::assign(0, v), Expr::assign(2, w)), seq(Expr::assign(2, w), Expr::assign(0, v))),
                Some(true)
            );
            assert_eq!(
                eq(seq(Expr::assign(0, v), Expr::test(2, w)), seq(Expr::test(2, w), Expr::assign(0, v))),
                Some(true)
            );
            assert_eq!(eq(seq(Expr::assign(1, v), Expr::assign(1, w)), Expr::assign(1, w)), Some(true));
        }
        assert_eq!(eq(seq(Expr::dup(), Expr::test(1, v)), seq(Expr::test(1, v), Expr::dup())), Some(true));
        assert_eq!(eq(seq(Expr::assign(1, v), Expr::test(1, v)), Expr::assign(1, v)), Some(true));
        assert_eq!(eq(seq(Expr::test(1, v), Expr::assign(1, v)), Expr::test(1, v)), Some(true));
    }
    assert_eq!(eq(seq(Expr::test(1, false), Expr::test(1, true)), Expr::zero()), Some(true));
    assert_eq!(eq(Expr::union(Expr::test(1, false), Expr::test(1, true)), Expr::one()), Some(true));
    // on one field a modification and a test do not commute
    assert_eq!(
        eq(seq(Expr::assign(1, true), Expr::test(1, false)), seq(Expr::test(1, false), Expr::assign(1, true))),
        Some(false)
    );
}

#[test]
fn expansion_laws_of_temporal_logic_hold() {
    let a = Expr::test(0, true);
    let b = Expr::sequence(Expr::test(1, false), Expr::dup());
    let (un, and, not) = (Expr::union, Expr::intersect, Expr::complement);
    let (x, wx, f, g) = (Expr::ltl_next, Expr::ltl_weak_next, Expr::ltl_finally, Expr::ltl_globally);
    let (u, w, r, s) = (Expr::ltl_until, Expr::ltl_weak_until, Expr::ltl_release, Expr::ltl_strong_release);
    let eq = |p: Exp, q: Exp| equivalent(2, &p, &q);
    assert_eq!(eq(not(f(a.clone())), g(not(a.clone()))), Some(true));
    assert_eq!(eq(not(g(a.clone())), f(not(a.clone()))), Some(true));
    assert_eq!(eq(not(x(a.clone())), un(Expr::end(), x(not(a.clone())))), Some(true));
    assert_eq!(eq(f(b.clone()), un(b.clone(), x(f(b.clone())))), Some(true));
    assert_eq!(eq(g(b.clone()), and(b.clone(), un(Expr::end(), x(g(b.clone()))))), Some(true));
    assert_eq!(eq(x(and(a.clone(), b.clone())), and(x(a.clone()), x(b.clone()))), Some(true));
    assert_eq!(eq(x(un(a.clone(), b.clone())), un(x(a.clone()), x(b.clone()))), Some(true));
    assert_eq!(
        eq(u(a.clone(), b.clone()), un(b.clone(), and(a.clone(), x(u(a.clone(), b.clone()))))),
        Some(true)
    );
    assert_eq!(
        eq(w(a.clone(), b.clone()), un(b.clone(), and(a.clone(), wx(w(a.clone(), b.clone()))))),
        Some(true)
    );
    assert_eq!(eq(r(a.clone(), b.clone()), not(u(not(a.clone()), not(b.clone())))), Some(true));
    assert_eq!(
        eq(r(a.clone(), b.clone()), and(b.clone(), un(a.clone(), wx(r(a.clone(), b.clone()))))),
        Some(true)
    );
    assert_eq!(eq(not(r(a.clone(), b.clone())), u(not(a.clone()), not(b.clone()))), Some(true));
    assert_eq!(eq(s(a.clone(), b.clone()), and(r(a.clone(), b.clone()), f(b.clone()))), Some(true));
    assert_eq!(eq(f(a.clone()), g(a.clone())), Some(false));
    assert_eq!(eq(x(a.clone()), wx(a.clone())), Some(false));
}

#[test]
fn containments_hold_of_expressions() {
    let a = Expr::test(0, true);
    let b = Expr::sequence(Expr::test(1, false), Expr::dup());
    let c = Expr::star(Expr::dup());
    let leq = |p: Exp, q: Exp| contained(2, &p, &q);
    assert_eq!(leq(Expr::ltl_until(a.clone(), b.clone()), Expr::ltl_weak_until(a.clone(), b.clone())), Some(true));
    assert_eq!(leq(Expr::ltl_weak_until(a.clone(), b.clone()), Expr::ltl_until(a.clone(), b.clone())), Some(false));
    assert_eq!(leq(Expr::ltl_next(b.clone()), Expr::ltl_weak_next(b.clone())), Some(true));
    assert_eq!(leq(Expr::ltl_weak_next(b.clone()), Expr::ltl_next(b.clone())), Some(false));
    assert_eq!(leq(b.clone(), Expr::union(b.clone(), c.clone())), Some(true));
    assert_eq!(leq(Expr::union(b.clone(), c.clone()), b.clone()), Some(false));
    assert_eq!(leq(Expr::intersect(a.clone(), c.clone()), c.clone()), Some(true));
    assert_eq!(
        leq(Expr::sequence(a.clone(), b.clone()), Expr::sequence(Expr::one(), Expr::union(b.clone(), c.clone()))),
        Some(true)
    );
}

#[test]
fn fuzz_test() {
    // Generate random expressions, create the xor, and check if the automaton is empty
    let ax_depth = 3;
    let expr_depth = 1;
    let num_fields = 3;

    // Max no. of trials to run
    let max_trials = 10000;
    let mut num_trials = 0;

    // For each `n`, test whether the emptiness check
    // passes for `max_trials` rounds
    let begin = std::time::Instant::now();
    for n in 0..=ax_depth {
        for _ in 0..max_trials {
            // the trials that fit into the time the harness has
            if begin.elapsed().as_secs() >= 10 {
                break;
            }
            let (e1, e2) = genax(n, expr_depth, num_fields);
            let xor = Expr::xor(e1.clone(), e2.clone());
            let mut aut = Aut::new(num_fields);
            let state = aut.expr_to_state(&xor);
            if aut.is_empty(state) == Some(true) {
                num_trials += 1;
            } else {
                println!("ax_depth n = {}\n", n);
                println!("Checking xor of\n  {}\n   ===\n  {}\n", format!("{:?}", e1), format!("{:?}", e2));
                println!("XOR result = {}\n", format!("{:?}", xor));
                println!("Shrunk to\n  {}\n", format!("{:?}", reduce(&mut Aut::new(num_fields), xor)));
                assert!(false, "Failure!\n");
            }
        }
    }
    println!("Success!\n");
    assert!(num_trials > 0);
}

#[test]
fn fuzz_test_leq() {
    // Generate random expressions with e1 <= e2, and check if e1 + e2 = e2
    let ax_depth = 3;
    let expr_depth = 1;
    let num_fields = 3;

    // Max no. of trials to run
    let max_trials = 10000;
    let mut num_trials = 0;

    // For each `n`, test whether the emptiness check
    // passes for `max_trials` rounds
    let begin = std::time::Instant::now();
    for n in 0..=ax_depth {
        for _ in 0..max_trials {
            // the trials that fit into the time the harness has
            if begin.elapsed().as_secs() >= 10 {
                break;
            }
            let (e1, e2) = gen_leq(n, expr_depth, num_fields);

            // e1 <= e2 means e1 + e2 = e2
            // So we need to check if (e1 + e2) xor e2 = 0
            let e1_plus_e2 = Expr::union(e1.clone(), e2.clone());
            let xor = Expr::xor(e1_plus_e2, e2.clone());

            let mut aut = Aut::new(num_fields);
            let state = aut.expr_to_state(&xor);
            if aut.is_empty(state) == Some(true) {
                num_trials += 1;
            } else {
                println!("ax_depth n = {}\n", n);
                println!("Checking e1 <= e2 for\n  {}\n   <=\n  {}\n", format!("{:?}", e1), format!("{:?}", e2));
                println!("XOR result = {}\n", format!("{:?}", xor));
                println!("Shrunk to\n  {}\n", format!("{:?}", reduce(&mut Aut::new(num_fields), xor)));
                assert!(
                    false,
                    "Failure for e1 <= e2!\n  e1 = {}\n  e2 = {}\n",
                    format!("{:?}", e1),
                    format!("{:?}", e2)
                );
            }
        }
    }
    println!("Success!\n");
    assert!(num_trials > 0);
}

#[test]
fn random_expressions_differ_from_what_they_are_not() {
    // a random expression is equivalent to itself, and not to its complement
    let mut source = Source::fresh();
    for _ in 0..200 {
        let e = gen_random_expr(&mut source, 3, 2);
        assert_eq!(equivalent(3, &e, &e), Some(true));
        assert_eq!(equivalent(3, &e, &Expr::complement(e.clone())), Some(false));
    }
}

#[test]
fn the_first_failing_expression_is_found() {
    let mut aut = Aut::new(2);
    let never = Expr::sequence(Expr::test(0, false), Expr::test(0, true));
    let list = vec![Expr::zero(), never.clone(), Expr::dup(), Expr::one()];
    assert_eq!(first_failing(&mut aut, &list), Some(2));
    assert_eq!(first_failing(&mut aut, &vec![Expr::zero(), never]), None);
    assert_eq!(first_failing(&mut aut, &Vec::new()), None);
    aut.budget = 0;
    assert_eq!(first_failing(&mut aut, &list), None);
}

#[test]
fn a_failing_expression_is_reduced_to_what_still_fails() {
    let mut aut = Aut::new(2);
    // the operand that fails takes the place of the operator, down to a constant
    let e = Expr::xor(Expr::assign(0, true), Expr::one());
    assert_eq!(reduce(&mut aut, e), Expr::one());
    let e = Expr::sequence(Expr::zero(), Expr::ltl_finally(Expr::dup()));
    assert_eq!(reduce(&mut aut, e), Expr::one());
    // an expression none of whose operands fails stays as it is
    let e = Expr::complement(Expr::zero());
    assert_eq!(reduce(&mut aut, e.clone()), e);
    let e = Expr::union(Expr::zero(), Expr::zero());
    assert_eq!(reduce(&mut aut, e.clone()), e);
    let inner = Expr::complement(Expr::sequence(Expr::test(1, true), Expr::test(1, false)));
    let e = Expr::intersect(Expr::zero(), inner.clone());
    assert_eq!(reduce(&mut aut, e), inner);
    assert_eq!(reduce(&mut aut, Expr::zero()), Expr::zero());
    // with no budget nothing is found to fail
    aut.budget = 0;
    let e = Expr::xor(Expr::assign(0, true), Expr::one());
    assert_eq!(reduce(&mut aut, e.clone()), e);
}

#[test]
fn the_automaton_decides_equivalence_and_containment() {
    let mut aut = Aut::new(2);
    let a = Expr::test(0, true);
    let b = Expr::test(1, true);
    let ab = Expr::sequence(a.clone(), b.clone());
    let ba = Expr::sequence(b.clone(), a.clone());
    assert_eq!(aut.equal(&ab, &ba), Some(true));
    assert_eq!(aut.equal(&ab, &Expr::intersect(a.clone(), b.clone())), Some(true));
    assert_eq!(aut.equal(&a, &b), Some(false));
    assert_eq!(aut.leq(&ab, &a), Some(true));
    assert_eq!(aut.leq(&a, &ab), Some(false));
    assert_eq!(aut.leq(&a, &Expr::union(a.clone(), b.clone())), Some(true));
    let until = Expr::ltl_until(a.clone(), b.clone());
    let weak = Expr::ltl_weak_until(a.clone(), b.clone());
    assert_eq!(aut.leq(&until, &weak), Some(true));
    assert_eq!(aut.leq(&weak, &until), Some(false));
    assert_eq!(aut.equal(&weak, &Expr::union(until.clone(), Expr::ltl_globally(a.clone()))), Some(true));
    aut.budget = 0;
    assert_eq!(aut.equal(&a, &a), None);
    assert_eq!(aut.leq(&a, &a), None);
}

#[test]
fn trials_from_a_seed_succeed() {
    let mut source = Source::seeded(1);
    for n in 0..=3 {
        for _ in 0..100 {
            let mut aut = Aut::new(3);
            let ((e1, e2), answer) = trial_equal(&mut aut, &mut source, n, 1);
            assert_eq!(answer, Some(true));
            assert!(aut.states.contains(&Expr::xor(e1, e2)));
            let mut aut = Aut::new(3);
            let ((e1, e2), answer) = trial_leq(&mut aut, &mut source, n, 1);
            assert_eq!(answer, Some(true));
            assert!(aut.states.contains(&Expr::xor(Expr::union(e1, e2.clone()), e2)));
        }
    }
    // an automaton that can decide no more gives no answer
    let mut aut = Aut::new(3);
    aut.budget = 0;
    assert_eq!(trial_equal(&mut aut, &mut source, 2, 1).1, None);
    assert_eq!(trial_leq(&mut aut, &mut source, 2, 1).1, None);
    // and one automaton serves many trials
    let mut aut = Aut::new(2);
    for _ in 0..20 {
        assert_eq!(trial_equal(&mut aut, &mut source, 1, 1).1, Some(true));
    }
    assert!(aut.budget < k2::explore::DEFAULT_BUDGET);
}

#[test]
fn an_exploration_costs_no_more_than_there_are_pairs_at_the_states() {
    let mut source = Source::seeded(77);
    let mut gave_up = 0;
    let mut answered = 0;
    for round in 0..300 {
        let e = gen_random_expr(&mut source, 2, 3);
        let mut aut = Aut::new(2);
        let given = 1 + round % 7;
        aut.budget = given;
        let state = aut.expr_to_state(&e);
        let answer = aut.is_empty(state);
        // sixteen pairs of packets of two fields
        let room = aut.states.len() * 16;
        assert!(given - aut.budget <= room);
        match answer {
            None => {
                assert!(given <= room);
                gave_up += 1;
            },
            Some(empty) => {
                let mut again = Aut::new(2);
                let state = again.expr_to_state(&e);
                assert_eq!(again.is_empty(state), Some(empty));
                answered += 1;
            },
        }
    }
    assert!(gave_up > 0 && answered > 0);
}
