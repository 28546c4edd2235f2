use k2::expr::{Exp, Expr};
use k2::fuzz::{
    binary_axiom, binary_node, flip_equality, flip_equality_rand, gen_leq, gen_leq_from, gen_random_expr,
    gen_random_field, gen_random_value, genax, genax_from, get_distinct_fields, leaf_expr, monotone, other_field,
    packet_axiom, shrink_exp, strong_weak, ternary_axiom, unary_axiom, unary_node, widen,
};
use k2::random::Source;

fn height(e: &Exp) -> usize {
    match &**e {
        Expr::Zero | Expr::One | Expr::Top | Expr::Dup | Expr::End | Expr::Assign(_, _) | Expr::Test(_, _) => 0,
        Expr::Union(a, b)
        | Expr::Intersect(a, b)
        | Expr::Xor(a, b)
        | Expr::Difference(a, b)
        | Expr::Sequence(a, b)
        | Expr::LtlUntil(a, b)
        | Expr::LtlWeakUntil(a, b)
        | Expr::LtlRelease(a, b)
        | Expr::LtlStrongRelease(a, b) => 1 + height(a).max(height(b)),
        Expr::Star(a)
        | Expr::Complement(a)
        | Expr::LtlNext(a)
        | Expr::LtlWeakNext(a)
        | Expr::LtlFinally(a)
        | Expr::LtlGlobally(a) => 1 + height(a),
    }
}

fn fields_below(e: &Exp, k: u32) -> bool {
    match &**e {
        Expr::Zero | Expr::One | Expr::Top | Expr::Dup | Expr::End => true,
        Expr::Assign(f, _) | Expr::Test(f, _) => *f < k,
        Expr::Union(a, b)
        | Expr::Intersect(a, b)
        | Expr::Xor(a, b)
        | Expr::Difference(a, b)
        | Expr::Sequence(a, b)
        | Expr::LtlUntil(a, b)
        | Expr::LtlWeakUntil(a, b)
        | Expr::LtlRelease(a, b)
        | Expr::LtlStrongRelease(a, b) => fields_below(a, k) && fields_below(b, k),
        Expr::Star(a)
        | Expr::Complement(a)
        | Expr::LtlNext(a)
        | Expr::LtlWeakNext(a)
        | Expr::LtlFinally(a)
        | Expr::LtlGlobally(a) => fields_below(a, k),
    }
}

#[test]
fn print_random_genax() {
    let ax_depth = 2;
    let expr_depth = 0;
    let num_fields = 3;
    let number = 100;
    for _ in 0..number {
        let (e1, e2) = genax(ax_depth, expr_depth, num_fields);
        println!("  {}\n   ===\n  {}\n", format!("{:?}", e1), format!("{:?}", e2));
    }
}

#[test]
fn constructors_build_what_is_written() {
    assert_eq!(*Expr::zero(), Expr::Zero);
    assert_eq!(*Expr::one(), Expr::One);
    assert_eq!(*Expr::top(), Expr::Top);
    assert_eq!(*Expr::dup(), Expr::Dup);
    assert_eq!(*Expr::end(), Expr::End);
    assert_eq!(*Expr::assign(2, true), Expr::Assign(2, true));
    assert_eq!(*Expr::test(1, false), Expr::Test(1, false));
    let a = Expr::test(0, true);
    let b = Expr::dup();
    assert_eq!(*Expr::union(a.clone(), b.clone()), Expr::Union(a.clone(), b.clone()));
    assert_eq!(*Expr::intersect(a.clone(), b.clone()), Expr::Intersect(a.clone(), b.clone()));
    assert_eq!(*Expr::xor(a.clone(), b.clone()), Expr::Xor(a.clone(), b.clone()));
    assert_eq!(*Expr::difference(a.clone(), b.clone()), Expr::Difference(a.clone(), b.clone()));
    assert_eq!(*Expr::sequence(a.clone(), b.clone()), Expr::Sequence(a.clone(), b.clone()));
    assert_eq!(*Expr::star(a.clone()), Expr::Star(a.clone()));
    assert_eq!(*Expr::complement(a.clone()), Expr::Complement(a.clone()));
    assert_eq!(*Expr::ltl_next(a.clone()), Expr::LtlNext(a.clone()));
    assert_eq!(*Expr::ltl_weak_next(a.clone()), Expr::LtlWeakNext(a.clone()));
    assert_eq!(*Expr::ltl_finally(a.clone()), Expr::LtlFinally(a.clone()));
    assert_eq!(*Expr::ltl_globally(a.clone()), Expr::LtlGlobally(a.clone()));
    assert_eq!(*Expr::ltl_until(a.clone(), b.clone()), Expr::LtlUntil(a.clone(), b.clone()));
    assert_eq!(*Expr::ltl_weak_until(a.clone(), b.clone()), Expr::LtlWeakUntil(a.clone(), b.clone()));
    assert_eq!(*Expr::ltl_release(a.clone(), b.clone()), Expr::LtlRelease(a.clone(), b.clone()));
    assert_eq!(*Expr::ltl_strong_release(a.clone(), b.clone()), Expr::LtlStrongRelease(a.clone(), b.clone()));
    // no simplification
    assert_eq!(*Expr::union(Expr::zero(), Expr::zero()), Expr::Union(Expr::zero(), Expr::zero()));
}

#[test]
fn leaves_and_nodes_follow_the_choice() {
    assert_eq!(leaf_expr(0, 1, true), Expr::zero());
    assert_eq!(leaf_expr(1, 1, true), Expr::one());
    assert_eq!(leaf_expr(2, 1, true), Expr::top());
    assert_eq!(leaf_expr(3, 1, true), Expr::dup());
    assert_eq!(leaf_expr(4, 1, true), Expr::assign(1, true));
    assert_eq!(leaf_expr(5, 1, true), Expr::test(1, true));
    let a = Expr::dup();
    let b = Expr::top();
    assert_eq!(unary_node(0, a.clone()), a);
    assert_eq!(unary_node(1, a.clone()), Expr::star(a.clone()));
    assert_eq!(unary_node(2, a.clone()), Expr::complement(a.clone()));
    assert_eq!(binary_node(3, a.clone(), b.clone()), Expr::union(a.clone(), b.clone()));
    assert_eq!(binary_node(4, a.clone(), b.clone()), Expr::sequence(a.clone(), b.clone()));
    assert_eq!(binary_node(5, a.clone(), b.clone()), Expr::intersect(a.clone(), b.clone()));
}

#[test]
fn random_expressions_keep_to_depth_and_fields() {
    for depth in 0..4 {
        for _ in 0..200 {
            let e = gen_random_expr(&mut Source::fresh(), 3, depth);
            assert!(height(&e) <= depth);
            assert!(fields_below(&e, 3));
        }
    }
    for _ in 0..200 {
        let e = gen_random_expr(&mut Source::fresh(), 1, 0);
        assert!(fields_below(&e, 1));
        assert!(!matches!(*e, Expr::Test(_, _)));
    }
}

#[test]
fn random_fields_lie_below_the_number_of_fields() {
    let mut source = Source::fresh();
    let mut fields = [false, false, false];
    for _ in 0..200 {
        assert_eq!(gen_random_field(&mut source, 1), 0);
        let f = gen_random_field(&mut source, 3);
        assert!(f < 3);
        fields[f as usize] = true;
    }
    assert_eq!(fields, [true, true, true]);
    let mut seen = [false, false];
    for _ in 0..200 {
        seen[gen_random_value(&mut source) as usize] = true;
    }
    assert_eq!(seen, [true, true]);
}

#[test]
fn distinct_fields_are_distinct() {
    let mut source = Source::fresh();
    for _ in 0..200 {
        let (f1, f2) = get_distinct_fields(&mut source, 2);
        assert!(f1 < 2 && f2 < 2 && f1 != f2);
        let (f1, f2) = get_distinct_fields(&mut source, 5);
        assert!(f1 < 5 && f2 < 5 && f1 != f2);
    }
    assert_eq!(other_field(2, 0), 0);
    assert_eq!(other_field(2, 1), 1);
    assert_eq!(other_field(2, 2), 3);
    assert_eq!(other_field(0, 0), 1);
}

#[test]
fn flipping_turns_the_pair_round() {
    let a = Expr::dup();
    let b = Expr::top();
    assert_eq!(flip_equality(false, a.clone(), b.clone()), (a.clone(), b.clone()));
    assert_eq!(flip_equality(true, a.clone(), b.clone()), (b.clone(), a.clone()));
    let mut source = Source::seeded(11);
    let mut seen = [false, false];
    for _ in 0..200 {
        let (l, r) = flip_equality_rand(&mut source, a.clone(), b.clone());
        assert!((l == a && r == b) || (l == b && r == a));
        seen[(l == b) as usize] = true;
    }
    assert_eq!(seen, [true, true]);
}

#[test]
fn packet_axioms_are_as_written() {
    let (xi, xj, v, vp) = (0, 2, true, false);
    let seq = Expr::sequence;
    assert_eq!(
        packet_axiom(0, xi, xj, v, vp),
        (seq(Expr::assign(xi, v), Expr::assign(xj, vp)), seq(Expr::assign(xj, vp), Expr::assign(xi, v)))
    );
    assert_eq!(
        packet_axiom(1, xi, xj, v, vp),
        (seq(Expr::assign(xi, v), Expr::test(xj, vp)), seq(Expr::test(xj, vp), Expr::assign(xi, v)))
    );
    assert_eq!(
        packet_axiom(2, xi, xj, v, vp),
        (seq(Expr::dup(), Expr::test(xi, v)), seq(Expr::test(xi, v), Expr::dup()))
    );
    assert_eq!(
        packet_axiom(3, xi, xj, v, vp),
        (seq(Expr::assign(xi, v), Expr::test(xi, v)), Expr::assign(xi, v))
    );
    assert_eq!(packet_axiom(4, xi, xj, v, vp), (seq(Expr::test(xi, v), Expr::assign(xi, v)), Expr::test(xi, v)));
    assert_eq!(
        packet_axiom(5, xi, xj, v, vp),
        (seq(Expr::assign(xi, v), Expr::assign(xi, vp)), Expr::assign(xi, vp))
    );
    assert_eq!(
        packet_axiom(6, xi, xj, v, vp),
        (seq(Expr::test(xi, false), Expr::test(xi, true)), Expr::zero())
    );
    assert_eq!(
        packet_axiom(7, xi, xj, v, vp),
        (Expr::union(Expr::test(xi, false), Expr::test(xi, true)), Expr::one())
    );
}

#[test]
fn axioms_over_one_pair_are_as_written() {
    let l = Expr::test(0, true);
    let r = Expr::test(1, true);
    let p = || (l.clone(), r.clone());
    let (zero, one, top, end) = (Expr::zero, Expr::one, Expr::top, Expr::end);
    let (un, seq, and) = (Expr::union, Expr::sequence, Expr::intersect);
    let (not, star) = (Expr::complement, Expr::star);
    let (x, f, g) = (Expr::ltl_next, Expr::ltl_finally, Expr::ltl_globally);
    assert_eq!(unary_axiom(0, p()), (un(l.clone(), zero()), r.clone()));
    assert_eq!(unary_axiom(1, p()), (un(l.clone(), l.clone()), r.clone()));
    assert_eq!(unary_axiom(2, p()), (seq(one(), l.clone()), r.clone()));
    assert_eq!(unary_axiom(3, p()), (seq(l.clone(), one()), r.clone()));
    assert_eq!(unary_axiom(4, p()), (seq(zero(), l.clone()), zero()));
    assert_eq!(unary_axiom(5, p()), (seq(l.clone(), zero()), zero()));
    assert_eq!(unary_axiom(6, p()), (un(one(), seq(l.clone(), star(l.clone()))), star(r.clone())));
    assert_eq!(unary_axiom(7, p()), (un(one(), seq(star(l.clone()), l.clone())), star(r.clone())));
    assert_eq!(unary_axiom(8, p()), (un(l.clone(), top()), top()));
    assert_eq!(unary_axiom(9, p()), (un(l.clone(), not(r.clone())), top()));
    assert_eq!(unary_axiom(10, p()), (and(l.clone(), not(r.clone())), zero()));
    assert_eq!(unary_axiom(11, p()), (and(l.clone(), l.clone()), r.clone()));
    assert_eq!(unary_axiom(12, p()), (not(f(l.clone())), g(not(r.clone()))));
    assert_eq!(unary_axiom(13, p()), (not(g(l.clone())), f(not(r.clone()))));
    assert_eq!(unary_axiom(14, p()), (not(x(l.clone())), un(end(), x(not(r.clone())))));
    assert_eq!(unary_axiom(15, p()), (f(l.clone()), un(r.clone(), x(f(r.clone())))));
    assert_eq!(unary_axiom(16, p()), (g(l.clone()), and(r.clone(), un(end(), x(g(r.clone()))))));
}

#[test]
fn axioms_over_two_pairs_are_as_written() {
    let (l1, r1, l2, r2) = (Expr::test(0, true), Expr::test(1, true), Expr::assign(0, true), Expr::assign(1, true));
    let p = || (l1.clone(), r1.clone());
    let q = || (l2.clone(), r2.clone());
    let (un, and, not) = (Expr::union, Expr::intersect, Expr::complement);
    let (x, wx, f) = (Expr::ltl_next, Expr::ltl_weak_next, Expr::ltl_finally);
    let (u, w, r, s) = (Expr::ltl_until, Expr::ltl_weak_until, Expr::ltl_release, Expr::ltl_strong_release);
    assert_eq!(binary_axiom(0, p(), q()), (un(l1.clone(), l2.clone()), un(r2.clone(), r1.clone())));
    assert_eq!(binary_axiom(1, p(), q()), (and(l1.clone(), l2.clone()), and(r2.clone(), r1.clone())));
    assert_eq!(binary_axiom(2, p(), q()), (x(and(l1.clone(), l2.clone())), and(x(r1.clone()), x(r2.clone()))));
    assert_eq!(binary_axiom(3, p(), q()), (x(un(l1.clone(), l2.clone())), un(x(r1.clone()), x(r2.clone()))));
    assert_eq!(
        binary_axiom(4, p(), q()),
        (u(l1.clone(), l2.clone()), un(r2.clone(), and(r1.clone(), x(u(r1.clone(), r2.clone())))))
    );
    assert_eq!(
        binary_axiom(5, p(), q()),
        (w(l1.clone(), l2.clone()), un(r2.clone(), and(r1.clone(), wx(w(r1.clone(), r2.clone())))))
    );
    assert_eq!(
        binary_axiom(6, p(), q()),
        (r(l1.clone(), l2.clone()), not(u(not(r1.clone()), not(r2.clone()))))
    );
    assert_eq!(
        binary_axiom(7, p(), q()),
        (r(l1.clone(), l2.clone()), and(r2.clone(), un(r1.clone(), wx(r(r1.clone(), r2.clone())))))
    );
    assert_eq!(
        binary_axiom(8, p(), q()),
        (not(r(l1.clone(), l2.clone())), u(not(r1.clone()), not(r2.clone())))
    );
    assert_eq!(
        binary_axiom(9, p(), q()),
        (s(l1.clone(), l2.clone()), and(r(r1.clone(), r2.clone()), f(r2.clone())))
    );
}

#[test]
fn axioms_over_three_pairs_are_as_written() {
    let (l1, r1) = (Expr::test(0, true), Expr::test(0, false));
    let (l2, r2) = (Expr::test(1, true), Expr::test(1, false));
    let (l3, r3) = (Expr::test(2, true), Expr::test(2, false));
    let p = || (l1.clone(), r1.clone());
    let q = || (l2.clone(), r2.clone());
    let s = || (l3.clone(), r3.clone());
    let (un, seq, and) = (Expr::union, Expr::sequence, Expr::intersect);
    assert_eq!(
        ternary_axiom(0, p(), q(), s()),
        (un(l1.clone(), un(l2.clone(), l3.clone())), un(un(r1.clone(), r2.clone()), r3.clone()))
    );
    assert_eq!(
        ternary_axiom(1, p(), q(), s()),
        (seq(l1.clone(), seq(l2.clone(), l3.clone())), seq(seq(r1.clone(), r2.clone()), r3.clone()))
    );
    assert_eq!(
        ternary_axiom(2, p(), q(), s()),
        (
            seq(l1.clone(), un(l2.clone(), l3.clone())),
            un(seq(r1.clone(), r2.clone()), seq(r1.clone(), r3.clone()))
        )
    );
    assert_eq!(
        ternary_axiom(3, p(), q(), s()),
        (
            seq(un(l1.clone(), l2.clone()), l3.clone()),
            un(seq(r1.clone(), r3.clone()), seq(r2.clone(), r3.clone()))
        )
    );
    assert_eq!(
        ternary_axiom(4, p(), q(), s()),
        (
            un(l1.clone(), and(l2.clone(), l3.clone())),
            and(un(r1.clone(), r2.clone()), un(r1.clone(), r3.clone()))
        )
    );
}

#[test]
fn ordered_pairs_are_as_written() {
    let (a, b, c, d) = (Expr::test(0, true), Expr::test(1, true), Expr::dup(), Expr::top());
    assert_eq!(widen((a.clone(), b.clone()), c.clone()), (a.clone(), Expr::union(b.clone(), c.clone())));
    assert_eq!(
        strong_weak(0, a.clone(), b.clone(), c.clone()),
        (Expr::ltl_until(a.clone(), b.clone()), Expr::ltl_weak_until(a.clone(), b.clone()))
    );
    let strong = Expr::ltl_strong_release(a.clone(), b.clone());
    assert_eq!(
        strong_weak(1, a.clone(), b.clone(), c.clone()),
        (strong.clone(), Expr::union(strong.clone(), c.clone()))
    );
    assert_eq!(
        strong_weak(2, a.clone(), b.clone(), c.clone()),
        (Expr::ltl_next(a.clone()), Expr::ltl_weak_next(a.clone()))
    );
    let p = || (a.clone(), b.clone());
    let q = || (c.clone(), d.clone());
    assert_eq!(
        monotone(0, p(), q()),
        (Expr::union(a.clone(), c.clone()), Expr::union(b.clone(), d.clone()))
    );
    assert_eq!(
        monotone(1, p(), q()),
        (Expr::intersect(a.clone(), c.clone()), Expr::intersect(b.clone(), d.clone()))
    );
    assert_eq!(
        monotone(2, p(), q()),
        (Expr::sequence(a.clone(), c.clone()), Expr::sequence(b.clone(), d.clone()))
    );
}

#[test]
fn shrinking_gives_the_operands() {
    let (a, b) = (Expr::test(0, true), Expr::dup());
    assert_eq!(shrink_exp(Expr::zero()), vec![]);
    assert_eq!(shrink_exp(Expr::one()), vec![]);
    let constants = vec![Expr::zero(), Expr::one()];
    assert_eq!(shrink_exp(Expr::top()), constants);
    assert_eq!(shrink_exp(Expr::dup()), constants);
    assert_eq!(shrink_exp(Expr::end()), constants);
    assert_eq!(shrink_exp(Expr::assign(0, true)), constants);
    assert_eq!(shrink_exp(Expr::test(0, true)), constants);
    let both = vec![a.clone(), b.clone()];
    assert_eq!(shrink_exp(Expr::union(a.clone(), b.clone())), both);
    assert_eq!(shrink_exp(Expr::intersect(a.clone(), b.clone())), both);
    assert_eq!(shrink_exp(Expr::xor(a.clone(), b.clone())), both);
    assert_eq!(shrink_exp(Expr::difference(a.clone(), b.clone())), both);
    assert_eq!(shrink_exp(Expr::sequence(a.clone(), b.clone())), both);
    assert_eq!(shrink_exp(Expr::ltl_until(a.clone(), b.clone())), both);
    assert_eq!(shrink_exp(Expr::ltl_weak_until(a.clone(), b.clone())), both);
    assert_eq!(shrink_exp(Expr::ltl_release(a.clone(), b.clone())), both);
    assert_eq!(shrink_exp(Expr::ltl_strong_release(a.clone(), b.clone())), both);
    let single = vec![a.clone()];
    assert_eq!(shrink_exp(Expr::star(a.clone())), single);
    assert_eq!(shrink_exp(Expr::complement(a.clone())), single);
    assert_eq!(shrink_exp(Expr::ltl_next(a.clone())), single);
    assert_eq!(shrink_exp(Expr::ltl_weak_next(a.clone())), single);
    assert_eq!(shrink_exp(Expr::ltl_finally(a.clone())), single);
    assert_eq!(shrink_exp(Expr::ltl_globally(a.clone())), single);
}

#[test]
fn genax_without_rounds_returns_an_expression_beside_itself() {
    for _ in 0..100 {
        let (e1, e2) = genax(0, 2, 3);
        assert_eq!(e1, e2);
        assert!(height(&e1) <= 2);
    }
}

#[test]
fn genax_and_gen_leq_keep_to_the_fields() {
    for n in 0..4 {
        for _ in 0..100 {
            let (e1, e2) = genax(n, 1, 3);
            assert!(fields_below(&e1, 3) && fields_below(&e2, 3));
            let (e1, e2) = gen_leq(n, 1, 3);
            assert!(fields_below(&e1, 3) && fields_below(&e2, 3));
        }
    }
}

#[test]
fn gen_leq_without_rounds_widens_an_expression() {
    for _ in 0..100 {
        let (e1, e2) = gen_leq(0, 2, 2);
        match &*e2 {
            Expr::Union(l, r) => {
                assert_eq!(*l, e1);
                assert!(height(r) <= 1);
            }
            _ => panic!("the right side is not a union"),
        }
    }
}

#[test]
fn a_seed_reproduces_its_draws() {
    let mut one = Source::seeded(2024);
    let mut two = Source::seeded(2024);
    let mut other = Source::seeded(2025);
    let mut differs = false;
    for _ in 0..100 {
        let a = one.below(1000);
        assert!(a < 1000);
        assert_eq!(a, two.below(1000));
        differs |= a != other.below(1000);
        assert_eq!(one.coin(), two.coin());
        assert_eq!(one.ratio(1, 3), two.ratio(1, 3));
    }
    assert!(differs);
    // the ends of the scale are certain
    for _ in 0..50 {
        assert_eq!(one.below(1), 0);
        assert!(one.ratio(5, 5));
        assert!(!one.ratio(0, 5));
    }
}

#[test]
fn a_seed_reproduces_its_pairs() {
    for seed in 0..20 {
        let mut one = Source::seeded(seed);
        let mut two = Source::seeded(seed);
        for n in 0..=3 {
            assert_eq!(genax_from(&mut one, n, 2, 3), genax_from(&mut two, n, 2, 3));
            assert_eq!(gen_leq_from(&mut one, n, 2, 3), gen_leq_from(&mut two, n, 2, 3));
            assert_eq!(gen_random_expr(&mut one, 3, 4), gen_random_expr(&mut two, 3, 4));
        }
    }
    // and sources without a seed go their own ways
    let firsts: Vec<(Exp, Exp)> = (0..20).map(|_| genax(3, 3, 3)).collect();
    assert!(firsts.iter().any(|p| *p != firsts[0]));
}
