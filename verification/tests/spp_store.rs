use k2::random::Source;
use k2::spp::{SPPnode, SPPstore, SPP};

/// The relation that `h` denotes, as the list of its (input, output) pairs of
/// packets, each packet written as a number whose bit `k - 1 - i` is field `i`.
fn pairs(s: &SPPstore, h: SPP, k: u32) -> Vec<(u32, u32)> {
    let mut out = Vec::new();
    for p in 0..(1u32 << k) {
        for q in 0..(1u32 << k) {
            let mut at = h;
            for i in 0..k {
                if at < 2 {
                    break;
                }
                let n = s.get(at);
                let v = (p >> (k - 1 - i)) & 1;
                let w = (q >> (k - 1 - i)) & 1;
                at = match (v, w) {
                    (0, 0) => n.x00,
                    (0, 1) => n.x01,
                    (1, 0) => n.x10,
                    _ => n.x11,
                };
            }
            if at == 1 {
                out.push((p, q));
            }
        }
    }
    out
}

#[test]
fn handles_are_assigned_in_order_of_creation() {
    let s = SPPstore::new(1);
    assert_eq!(s.zero, 2);
    assert_eq!(s.one, 3);
    assert_eq!(s.top, 4);
    assert_eq!(s.get(2), SPPnode { x00: 0, x01: 0, x10: 0, x11: 0 });
    assert_eq!(s.get(3), SPPnode { x00: 1, x01: 0, x10: 0, x11: 1 });
    assert_eq!(s.get(4), SPPnode { x00: 1, x01: 1, x10: 1, x11: 1 });
}

#[test]
fn a_fresh_store_holds_the_three_constants_level_by_level() {
    let s = SPPstore::new(3);
    assert_eq!(s.nodes.len(), 9);
    assert_eq!((s.zero, s.one, s.top), (4, 7, 10));
    let same = |h: SPP| SPPnode { x00: h, x01: h, x10: h, x11: h };
    assert_eq!((s.get(2), s.get(3), s.get(4)), (same(0), same(2), same(3)));
    assert_eq!(s.get(5), SPPnode { x00: 1, x01: 0, x10: 0, x11: 1 });
    assert_eq!(s.get(6), SPPnode { x00: 5, x01: 2, x10: 2, x11: 5 });
    assert_eq!(s.get(7), SPPnode { x00: 6, x01: 3, x10: 3, x11: 6 });
    assert_eq!((s.get(8), s.get(9), s.get(10)), (same(1), same(8), same(9)));
    assert_eq!(SPPstore::new(0).nodes.len(), 0);
}

#[test]
fn a_store_without_fields_has_the_leaves_as_constants() {
    let mut s = SPPstore::new(0);
    assert_eq!((s.zero, s.one, s.top), (0, 1, 1));
    assert_eq!(s.union(0, 1), Some(1));
    assert_eq!(s.intersect(0, 1), Some(0));
    assert_eq!(s.xor(1, 1), Some(0));
    assert_eq!(s.difference(1, 0), Some(1));
    assert_eq!(s.difference(1, 1), Some(0));
    assert_eq!(s.difference(0, 1), Some(0));
    assert_eq!(s.sequence(1, 1), Some(1));
    assert_eq!(s.sequence(1, 0), Some(0));
    assert_eq!(s.complement(0), Some(1));
    assert_eq!(s.complement(1), Some(0));
    assert_eq!(s.star(0), Some(1));
    assert_eq!(s.star(1), Some(1));
    assert_eq!(s.all(), Some(vec![0, 1]));
}

#[test]
fn constants_denote_empty_diagonal_and_full() {
    let s = SPPstore::new(2);
    assert_eq!(pairs(&s, s.zero, 2), vec![]);
    assert_eq!(pairs(&s, s.one, 2), vec![(0, 0), (1, 1), (2, 2), (3, 3)]);
    assert_eq!(pairs(&s, s.top, 2).len(), 16);
}

#[test]
fn hash_consing_returns_the_same_handle_for_the_same_relation() {
    let mut s = SPPstore::new(2);
    let a = s.test(1, true).unwrap();
    let b = s.test(1, true).unwrap();
    assert_eq!(a, b);
    let c = s.union(a, s.zero).unwrap();
    assert_eq!(a, c);
    let d = s.intersect(s.top, a).unwrap();
    assert_eq!(a, d);
}

#[test]
fn test_keeps_the_packets_with_the_value() {
    let mut s = SPPstore::new(2);
    let t = s.test(0, true).unwrap();
    assert_eq!(pairs(&s, t, 2), vec![(2, 2), (3, 3)]);
    let t = s.test(0, false).unwrap();
    assert_eq!(pairs(&s, t, 2), vec![(0, 0), (1, 1)]);
    let t = s.test(1, true).unwrap();
    assert_eq!(pairs(&s, t, 2), vec![(1, 1), (3, 3)]);
    let t = s.test(1, false).unwrap();
    assert_eq!(pairs(&s, t, 2), vec![(0, 0), (2, 2)]);
}

#[test]
fn assign_sets_the_field_and_keeps_the_others() {
    let mut s = SPPstore::new(2);
    let a = s.assign(0, true).unwrap();
    assert_eq!(pairs(&s, a, 2), vec![(0, 2), (1, 3), (2, 2), (3, 3)]);
    let a = s.assign(0, false).unwrap();
    assert_eq!(pairs(&s, a, 2), vec![(0, 0), (1, 1), (2, 0), (3, 1)]);
    let a = s.assign(1, true).unwrap();
    assert_eq!(pairs(&s, a, 2), vec![(0, 1), (1, 1), (2, 3), (3, 3)]);
    let a = s.assign(1, false).unwrap();
    assert_eq!(pairs(&s, a, 2), vec![(0, 0), (1, 0), (2, 2), (3, 2)]);
}

#[test]
fn test_and_assign_on_one_field_are_single_nodes() {
    let mut s = SPPstore::new(1);
    let t = s.test(0, true).unwrap();
    assert_eq!(s.get(t), SPPnode { x00: 0, x01: 0, x10: 0, x11: 1 });
    let f = s.test(0, false).unwrap();
    assert_eq!(s.get(f), SPPnode { x00: 1, x01: 0, x10: 0, x11: 0 });
    let a = s.assign(0, true).unwrap();
    assert_eq!(s.get(a), SPPnode { x00: 0, x01: 1, x10: 0, x11: 1 });
    let b = s.assign(0, false).unwrap();
    assert_eq!(s.get(b), SPPnode { x00: 1, x01: 0, x10: 1, x11: 0 });
}

#[test]
fn branch_follows_the_argument_that_the_two_bits_pick() {
    let mut s = SPPstore::new(2);
    let r = s.branch(1, s.zero, s.top, s.one, s.zero).unwrap();
    // input bit 0 and output bit 1 of field 1: everything; input 1 and output 0: the diagonal, which
    // has no such pair.
    assert_eq!(pairs(&s, r, 2), vec![(0, 1), (0, 3), (2, 1), (2, 3)]);
    let r = s.branch(0, s.one, s.zero, s.zero, s.top).unwrap();
    assert_eq!(pairs(&s, r, 2), vec![(0, 0), (1, 1), (2, 2), (2, 3), (3, 2), (3, 3)]);
}

#[test]
fn ifelse_follows_then_where_the_input_bit_is_unset() {
    let mut s = SPPstore::new(2);
    let r = s.ifelse(0, s.one, s.zero).unwrap();
    assert_eq!(pairs(&s, r, 2), vec![(0, 0), (1, 1)]);
    let r = s.ifelse(1, s.zero, s.top).unwrap();
    assert_eq!(pairs(&s, r, 2), vec![(1, 0), (1, 1), (1, 2), (1, 3), (3, 0), (3, 1), (3, 2), (3, 3)]);
}

#[test]
fn sequence_is_relational_composition() {
    let mut s = SPPstore::new(2);
    let a = s.assign(0, true).unwrap();
    let b = s.assign(1, false).unwrap();
    let ab = s.sequence(a, b).unwrap();
    assert_eq!(pairs(&s, ab, 2), vec![(0, 2), (1, 2), (2, 2), (3, 2)]);
    let t = s.test(1, true).unwrap();
    let ta = s.sequence(t, a).unwrap();
    assert_eq!(pairs(&s, ta, 2), vec![(1, 3), (3, 3)]);
    let at = s.sequence(a, t).unwrap();
    assert_eq!(ta, at);
}

#[test]
fn star_is_the_reflexive_transitive_closure() {
    let mut s = SPPstore::new(2);
    // One step: packet 0 to 1, packet 1 to 3.
    let t00 = s.test(0, false).unwrap();
    let t10 = s.test(1, false).unwrap();
    let t11 = s.test(1, true).unwrap();
    let a01 = s.assign(0, true).unwrap();
    let a11 = s.assign(1, true).unwrap();
    let is0 = s.sequence(t00, t10).unwrap();
    let is1 = s.sequence(t00, t11).unwrap();
    let step0 = s.sequence(is0, a11).unwrap();
    let step1 = s.sequence(is1, a01).unwrap();
    let step = s.union(step0, step1).unwrap();
    assert_eq!(pairs(&s, step, 2), vec![(0, 1), (1, 3)]);
    let closure = s.star(step).unwrap();
    assert_eq!(pairs(&s, closure, 2), vec![(0, 0), (0, 1), (0, 3), (1, 1), (1, 3), (2, 2), (3, 3)]);
}

#[test]
fn boolean_operators_are_the_set_operators() {
    let mut s = SPPstore::new(2);
    let a = s.test(0, true).unwrap();
    let b = s.assign(1, true).unwrap();
    let u = s.union(a, b).unwrap();
    assert_eq!(pairs(&s, u, 2), vec![(0, 1), (1, 1), (2, 2), (2, 3), (3, 3)]);
    let i = s.intersect(a, b).unwrap();
    assert_eq!(pairs(&s, i, 2), vec![(3, 3)]);
    let x = s.xor(a, b).unwrap();
    assert_eq!(pairs(&s, x, 2), vec![(0, 1), (1, 1), (2, 2), (2, 3)]);
    let d = s.difference(a, b).unwrap();
    assert_eq!(pairs(&s, d, 2), vec![(2, 2)]);
    let c = s.complement(a).unwrap();
    assert_eq!(pairs(&s, c, 2).len(), 14);
    assert!(!pairs(&s, c, 2).contains(&(2, 2)));
    assert!(!pairs(&s, c, 2).contains(&(3, 3)));
}

#[test]
fn all_lists_every_program_once_in_order() {
    let mut s = SPPstore::new(1);
    let all = s.all().unwrap();
    assert_eq!(all.len(), 16);
    for (at, &h) in all.iter().enumerate() {
        let n = s.get(h);
        let at = at as u32;
        assert_eq!(n, SPPnode { x00: at / 8, x01: (at / 4) % 2, x10: (at / 2) % 2, x11: at % 2 });
    }
    let mut sorted = all.clone();
    sorted.sort();
    sorted.dedup();
    assert_eq!(sorted.len(), 16);
    assert_eq!(s.all_helper(0).unwrap(), vec![0, 1]);
}

#[test]
fn all_of_two_fields_has_every_relation() {
    let mut s = SPPstore::new(2);
    let all = s.all().unwrap();
    assert_eq!(all.len(), 65536);
    assert!(all.contains(&s.zero));
    assert!(all.contains(&s.one));
    assert!(all.contains(&s.top));
}

#[test]
fn rand_returns_a_program_of_full_depth() {
    let mut s = SPPstore::new(3);
    for _ in 0..50 {
        let h = s.rand().unwrap();
        let mut at = h;
        let mut depth = 0;
        while at >= 2 {
            at = s.get(at).x00;
            depth += 1;
        }
        assert_eq!(depth, 3);
    }
    assert_eq!(SPPstore::leaf(true), 0);
    assert_eq!(SPPstore::leaf(false), 1);
}

#[test]
fn a_seed_reproduces_its_programs() {
    let mut s = SPPstore::new(3);
    let mut t = SPPstore::new(3);
    let mut one = Source::seeded(5);
    let mut two = Source::seeded(5);
    let mut drawn = Vec::new();
    for _ in 0..50 {
        let h = s.rand_from(&mut one).unwrap();
        assert_eq!(t.rand_from(&mut two), Some(h));
        drawn.push(h);
    }
    assert_eq!(s.nodes, t.nodes);
    assert!(drawn.iter().any(|h| *h != drawn[0]));
    // a leaf is empty three times out of four: over one field a program
    // has four leaves, and they are not all empty or all full every time
    let mut s = SPPstore::new(1);
    let mut empty = 0;
    for _ in 0..400 {
        let h = s.rand_from(&mut one).unwrap();
        let n = s.get(h);
        empty += [n.x00, n.x01, n.x10, n.x11].iter().filter(|x| **x == 0).count();
    }
    assert!(1000 < empty && empty < 1400);
}

#[test]
fn laws_hold_of_random_programs_of_three_fields() {
    let mut s = SPPstore::new(3);
    for _ in 0..40 {
        let x = s.rand().unwrap();
        let y = s.rand().unwrap();
        let nx = s.complement(x).unwrap();
        let ny = s.complement(y).unwrap();
        assert_eq!(s.complement(nx).unwrap(), x);
        assert_eq!(s.union(x, s.zero).unwrap(), x);
        assert_eq!(s.union(x, s.top).unwrap(), s.top);
        assert_eq!(s.intersect(x, s.top).unwrap(), x);
        assert_eq!(s.intersect(x, s.zero).unwrap(), s.zero);
        let u = s.union(x, y).unwrap();
        let i = s.intersect(x, y).unwrap();
        assert_eq!(s.complement(u).unwrap(), s.intersect(nx, ny).unwrap());
        assert_eq!(s.complement(i).unwrap(), s.union(nx, ny).unwrap());
        assert_eq!(u, s.union(y, x).unwrap());
        assert_eq!(i, s.intersect(y, x).unwrap());
        for v in 0..3 {
            let c = s.ifelse(v, x, y).unwrap();
            assert_eq!(s.complement(c).unwrap(), s.ifelse(v, nx, ny).unwrap());
        }
        assert_eq!(s.sequence(x, s.one).unwrap(), x);
        assert_eq!(s.sequence(s.one, x).unwrap(), x);
        assert_eq!(s.sequence(x, s.zero).unwrap(), s.zero);
        assert_eq!(s.sequence(s.zero, x).unwrap(), s.zero);
        let xs = s.star(x).unwrap();
        assert_eq!(s.star(xs).unwrap(), xs);
        let step = s.sequence(x, xs).unwrap();
        assert_eq!(s.union(s.one, step).unwrap(), xs);
        let step = s.sequence(xs, x).unwrap();
        assert_eq!(s.union(s.one, step).unwrap(), xs);
        let d = s.difference(x, y).unwrap();
        assert_eq!(d, s.intersect(x, ny).unwrap());
        let e = s.difference(y, x).unwrap();
        assert_eq!(s.xor(x, y).unwrap(), s.union(d, e).unwrap());
    }
    assert_eq!(s.star(s.zero).unwrap(), s.one);
    assert_eq!(s.star(s.one).unwrap(), s.one);
}

#[test]
fn packet_axioms_hold_of_tests_and_assignments() {
    let mut s = SPPstore::new(3);
    for i in 0..3 {
        for v in [false, true] {
            let a = s.assign(i, v).unwrap();
            let t = s.test(i, v).unwrap();
            // a test of the value just assigned passes
            assert_eq!(s.sequence(a, t).unwrap(), a);
            // an assignment of the value just tested is idle
            assert_eq!(s.sequence(t, a).unwrap(), t);
            for w in [false, true] {
                let b = s.assign(i, w).unwrap();
                assert_eq!(s.sequence(a, b).unwrap(), b);
                for j in 0..3 {
                    if i != j {
                        let c = s.assign(j, w).unwrap();
                        let u = s.test(j, w).unwrap();
                        assert_eq!(s.sequence(a, c).unwrap(), s.sequence(c, a).unwrap());
                        assert_eq!(s.sequence(a, u).unwrap(), s.sequence(u, a).unwrap());
                    }
                }
            }
        }
        let f = s.test(i, false).unwrap();
        let t = s.test(i, true).unwrap();
        assert_eq!(s.sequence(f, t).unwrap(), s.zero);
        assert_eq!(s.union(f, t).unwrap(), s.one);
    }
}

#[test]
fn scenarios_without_history_decide_by_symmetric_difference() {
    let mut s = SPPstore::new(3);
    let a = s.assign(0, true).unwrap();
    let t = s.test(0, true).unwrap();
    let f = s.test(0, false).unwrap();
    let at = s.sequence(a, t).unwrap();
    assert_eq!(s.xor(at, a).unwrap(), s.zero);
    let ft = s.sequence(f, t).unwrap();
    assert_eq!(s.xor(ft, s.zero).unwrap(), s.zero);
    let either = s.union(f, t).unwrap();
    assert_eq!(s.xor(either, s.one).unwrap(), s.zero);
    let mut s = SPPstore::new(2);
    let a = s.assign(0, true).unwrap();
    let a0 = s.union(a, s.zero).unwrap();
    assert_eq!(s.xor(a0, a).unwrap(), s.zero);
    let a1 = s.union(a, s.one).unwrap();
    assert_ne!(s.xor(a1, a).unwrap(), s.zero);
    let at = s.union(a, s.top).unwrap();
    assert_ne!(s.xor(at, a).unwrap(), s.zero);
}
