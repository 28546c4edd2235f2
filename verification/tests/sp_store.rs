use k2::sp::{SPnode, SPstore, SP};
use k2::spp::SPPstore;

/// The packets of `k` fields that `h` holds, as numbers.
fn packets(s: &SPstore, h: SP, k: u32) -> Vec<u32> {
    let mut out = Vec::new();
    for p in 0..(1u32 << k) {
        let mut at = h;
        for i in 0..k {
            if at < 2 {
                break;
            }
            let n = s.get(at);
            at = if (p >> (k - 1 - i)) & 1 == 1 { n.x1 } else { n.x0 };
        }
        if at == 1 {
            out.push(p);
        }
    }
    out
}

#[test]
fn the_constants_of_symbolic_packets() {
    let s = SPstore::new(2);
    assert_eq!(packets(&s, s.zero, 2), vec![]);
    assert_eq!(packets(&s, s.one, 2), vec![0, 1, 2, 3]);
    assert_eq!((s.zero, s.one), (3, 5));
    assert_eq!(s.nodes.len(), 4);
    assert_eq!(s.get(2), SPnode { x0: 0, x1: 0 });
    assert_eq!(s.get(3), SPnode { x0: 2, x1: 2 });
    assert_eq!(s.get(4), SPnode { x0: 1, x1: 1 });
    assert_eq!(s.get(5), SPnode { x0: 4, x1: 4 });
    let s = SPstore::new(0);
    assert_eq!((s.zero, s.one), (0, 1));
}

#[test]
fn tests_of_symbolic_packets() {
    let mut s = SPstore::new(3);
    let t = s.test(0, true).unwrap();
    assert_eq!(packets(&s, t, 3), vec![4, 5, 6, 7]);
    let t = s.test(1, false).unwrap();
    assert_eq!(packets(&s, t, 3), vec![0, 1, 4, 5]);
    let t = s.test(2, true).unwrap();
    assert_eq!(packets(&s, t, 3), vec![1, 3, 5, 7]);
    assert_eq!(s.test(2, true).unwrap(), t);
}

#[test]
fn boolean_operators_on_symbolic_packets() {
    let mut s = SPstore::new(2);
    let a = s.test(0, true).unwrap();
    let b = s.test(1, false).unwrap();
    let u = s.union(a, b).unwrap();
    assert_eq!(packets(&s, u, 2), vec![0, 2, 3]);
    let i = s.intersect(a, b).unwrap();
    assert_eq!(packets(&s, i, 2), vec![2]);
    let c = s.complement(a).unwrap();
    assert_eq!(packets(&s, c, 2), vec![0, 1]);
    assert_eq!(s.test(0, false).unwrap(), c);
    // laws, by handles
    assert_eq!(s.complement(c).unwrap(), a);
    assert_eq!(s.union(a, s.zero).unwrap(), a);
    assert_eq!(s.union(a, s.one).unwrap(), s.one);
    assert_eq!(s.intersect(a, s.one).unwrap(), a);
    assert_eq!(s.intersect(a, s.zero).unwrap(), s.zero);
    assert_eq!(s.union(a, c).unwrap(), s.one);
    assert_eq!(s.intersect(a, c).unwrap(), s.zero);
    assert_eq!(s.union(a, b).unwrap(), s.union(b, a).unwrap());
    let nu = s.complement(u).unwrap();
    let nb = s.complement(b).unwrap();
    assert_eq!(nu, s.intersect(c, nb).unwrap());
    assert_eq!(s.complement(s.zero).unwrap(), s.one);
    assert_eq!(s.complement(s.one).unwrap(), s.zero);
}

#[test]
fn the_domain_of_a_program_holds_the_packets_it_relates_to_some_packet() {
    let mut from = SPPstore::new(2);
    let mut s = SPstore::new(2);
    assert_eq!(s.domain(&from, from.zero), Some(s.zero));
    assert_eq!(s.domain(&from, from.one), Some(s.one));
    assert_eq!(s.domain(&from, from.top), Some(s.one));
    let t = from.test(0, true).unwrap();
    let a = from.assign(1, false).unwrap();
    let ta = from.sequence(t, a).unwrap();
    let set = from.test(1, true).unwrap();
    let at = from.sequence(a, set).unwrap();
    let d = s.domain(&from, t).unwrap();
    assert_eq!(packets(&s, d, 2), vec![2, 3]);
    assert_eq!(s.domain(&from, a), Some(s.one));
    assert_eq!(s.domain(&from, ta), Some(d));
    assert_eq!(s.domain(&from, at), Some(s.zero));
    // over no field the domain of a leaf is the leaf
    let from = SPPstore::new(0);
    let mut s = SPstore::new(0);
    assert_eq!(s.domain(&from, 0), Some(0));
    assert_eq!(s.domain(&from, 1), Some(1));
    // every program over one field, against its pairs
    let mut from = SPPstore::new(1);
    let mut s = SPstore::new(1);
    for h in from.all().unwrap() {
        let n = from.get(h);
        let d = s.domain(&from, h).unwrap();
        let mut expected = Vec::new();
        if n.x00 == 1 || n.x01 == 1 {
            expected.push(0);
        }
        if n.x10 == 1 || n.x11 == 1 {
            expected.push(1);
        }
        assert_eq!(packets(&s, d, 1), expected);
    }
}
