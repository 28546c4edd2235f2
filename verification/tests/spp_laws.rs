use k2::spp::{SPPstore, Var};

const N: Var = 1;

#[test]
fn test_laws_0() {
    let mut s = SPPstore::new(N);
    assert_eq!(s.complement(s.top).unwrap(), s.zero);
    assert_eq!(s.complement(s.zero).unwrap(), s.top);
}

#[test]
fn test_laws_1() {
    let mut s = SPPstore::new(N);
    let all = s.all().unwrap();
    for spp in all {
        let spp_complement = s.complement(spp).unwrap();
        let spp2 = s.complement(spp_complement).unwrap();
        assert_eq!(spp, spp2);

        assert_eq!(s.union(spp, s.zero).unwrap(), spp);
        assert_eq!(s.union(spp, s.top).unwrap(), s.top);
        assert_eq!(s.intersect(spp, s.top).unwrap(), spp);
        assert_eq!(s.intersect(spp, s.zero).unwrap(), s.zero);

        let spp_seq_one = s.sequence(spp, s.one).unwrap();
        let spp_seq_zero = s.sequence(spp, s.zero).unwrap();
        let one_seq_spp = s.sequence(s.one, spp).unwrap();
        let zero_seq_spp = s.sequence(s.zero, spp).unwrap();
        assert_eq!(spp_seq_one, spp);
        assert_eq!(spp_seq_zero, s.zero);
        assert_eq!(one_seq_spp, spp);
        assert_eq!(zero_seq_spp, s.zero);

        // Kleene algebra laws for star
        let spp_star = s.star(spp).unwrap();
        let spp_star_star = s.star(spp_star).unwrap();
        assert_eq!(spp_star_star, spp_star);

        let spp_union_star = s.union(s.one, spp_star).unwrap();
        assert_eq!(spp_star, spp_union_star);

        // star(star(x)) = star(x)
        let spp_star_star = s.star(spp_star).unwrap();
        assert_eq!(spp_star, spp_star_star);

        // star(0) = 1
        assert_eq!(s.star(s.zero).unwrap(), s.one);

        // star(1) = 1
        assert_eq!(s.star(s.one).unwrap(), s.one);

        // x* = 1 + x·x*
        let spp_seq_star = s.sequence(spp, spp_star).unwrap();
        let one_union_seq_star = s.union(s.one, spp_seq_star).unwrap();
        assert_eq!(spp_star, one_union_seq_star);

        // x* = 1 + x*·x
        let spp_seq_star_seq_star = s.sequence(spp_star, spp).unwrap();
        let one_union_seq_star_seq_star = s.union(s.one, spp_seq_star_seq_star).unwrap();
        assert_eq!(spp_star, one_union_seq_star_seq_star);
    }
}

#[test]
fn test_laws_2() {
    let mut s = SPPstore::new(N);
    let all = s.all().unwrap();
    for &spp1 in &all {
        for &spp2 in &all {
            let spp1_complement = s.complement(spp1).unwrap();
            let spp2_complement = s.complement(spp2).unwrap();

            let union = s.union(spp1, spp2).unwrap();
            let intersect = s.intersect(spp1, spp2).unwrap();
            let complement_union = s.union(spp1_complement, spp2_complement).unwrap();
            let complement_intersect = s.intersect(spp1_complement, spp2_complement).unwrap();

            let union_complement = s.complement(union).unwrap();
            let intersect_complement = s.complement(intersect).unwrap();

            assert_eq!(complement_union, intersect_complement);
            assert_eq!(complement_intersect, union_complement);

            let union_rev = s.union(spp2, spp1).unwrap();
            let intersect_rev = s.intersect(spp2, spp1).unwrap();
            assert_eq!(union, union_rev);
            assert_eq!(intersect, intersect_rev);

            for i in 0..N {
                let ifelse = s.ifelse(i, spp1, spp2).unwrap();
                let ifelse_complement = s.complement(ifelse).unwrap();
                assert_eq!(
                    ifelse_complement,
                    s.ifelse(i, spp1_complement, spp2_complement).unwrap()
                );
            }
        }
    }
}
