use k2::expr::{Exp, Expr};
use k2::fuzz::{gen_random_expr, genax};
use k2::random::Source;
use k2::syntax::{parse_expr, parse_expressions, to_text, write_expr, ParseError};

fn text(e: &Exp) -> String {
    String::from_utf8(to_text(e)).unwrap()
}

fn parse(s: &str, k: u32) -> Result<Vec<Exp>, ParseError> {
    parse_expressions(s.as_bytes(), k)
}

#[test]
fn constants_and_fields_are_read() {
    assert_eq!(
        parse("0; 1; T; dup; end;", 2),
        Ok(vec![Expr::zero(), Expr::one(), Expr::top(), Expr::dup(), Expr::end()])
    );
    assert_eq!(parse("x0=1;", 2), Ok(vec![Expr::test(0, true)]));
    assert_eq!(parse("x1 = 0;", 2), Ok(vec![Expr::test(1, false)]));
    assert_eq!(parse("x1<-1;", 2), Ok(vec![Expr::assign(1, true)]));
    assert_eq!(parse("x0 <- 0 ;", 2), Ok(vec![Expr::assign(0, false)]));
    assert_eq!(parse("x12= 1;", 13), Ok(vec![Expr::test(12, true)]));
    assert_eq!(parse("x007=1;", 8), Ok(vec![Expr::test(7, true)]));
    assert_eq!(parse("", 2), Ok(vec![]));
    assert_eq!(parse(" \n\t\r ", 2), Ok(vec![]));
}

#[test]
fn operators_are_read() {
    let a = Expr::test(0, true);
    let b = Expr::dup();
    assert_eq!(parse("(x0=1 + dup);", 1), Ok(vec![Expr::union(a.clone(), b.clone())]));
    assert_eq!(parse("(x0=1 & dup);", 1), Ok(vec![Expr::intersect(a.clone(), b.clone())]));
    assert_eq!(parse("(x0=1 ^ dup);", 1), Ok(vec![Expr::xor(a.clone(), b.clone())]));
    assert_eq!(parse("(x0=1 - dup);", 1), Ok(vec![Expr::difference(a.clone(), b.clone())]));
    assert_eq!(parse("(x0=1 . dup);", 1), Ok(vec![Expr::sequence(a.clone(), b.clone())]));
    assert_eq!(parse("(x0=1 U dup);", 1), Ok(vec![Expr::ltl_until(a.clone(), b.clone())]));
    assert_eq!(parse("(x0=1 W dup);", 1), Ok(vec![Expr::ltl_weak_until(a.clone(), b.clone())]));
    assert_eq!(parse("(x0=1 R dup);", 1), Ok(vec![Expr::ltl_release(a.clone(), b.clone())]));
    assert_eq!(parse("(x0=1 S dup);", 1), Ok(vec![Expr::ltl_strong_release(a.clone(), b.clone())]));
    assert_eq!(parse("(x0=1.dup);", 1), Ok(vec![Expr::sequence(a.clone(), b.clone())]));
    assert_eq!(parse("( dup );", 1), Ok(vec![b.clone()]));
    assert_eq!(parse("dup*;", 1), Ok(vec![Expr::star(b.clone())]));
    assert_eq!(parse("dup * *;", 1), Ok(vec![Expr::star(Expr::star(b.clone()))]));
    assert_eq!(parse("!dup;", 1), Ok(vec![Expr::complement(b.clone())]));
    assert_eq!(parse("X dup;", 1), Ok(vec![Expr::ltl_next(b.clone())]));
    assert_eq!(parse("X'dup;", 1), Ok(vec![Expr::ltl_weak_next(b.clone())]));
    assert_eq!(parse("F dup;", 1), Ok(vec![Expr::ltl_finally(b.clone())]));
    assert_eq!(parse("G dup;", 1), Ok(vec![Expr::ltl_globally(b.clone())]));
    // a star binds its operand before an operator in front does
    assert_eq!(parse("!dup*;", 1), Ok(vec![Expr::complement(Expr::star(b.clone()))]));
    assert_eq!(parse("(!dup)*;", 1), Ok(vec![Expr::star(Expr::complement(b.clone()))]));
    assert_eq!(
        parse("((x0=1 . dup)* + !X'F 1);", 1),
        Ok(vec![Expr::union(
            Expr::star(Expr::sequence(a.clone(), b.clone())),
            Expr::complement(Expr::ltl_weak_next(Expr::ltl_finally(Expr::one())))
        )])
    );
}

#[test]
fn what_is_no_expression_is_refused_at_its_place() {
    assert_eq!(parse("dup", 2), Err(ParseError::Unexpected { at: 3 }));
    assert_eq!(parse("du;", 2), Err(ParseError::Unexpected { at: 0 }));
    assert_eq!(parse("  ?;", 2), Err(ParseError::Unexpected { at: 2 }));
    assert_eq!(parse("(dup + );", 2), Err(ParseError::Unexpected { at: 7 }));
    assert_eq!(parse("(dup dup);", 2), Err(ParseError::Unexpected { at: 5 }));
    assert_eq!(parse("(dup + dup;", 2), Err(ParseError::Unexpected { at: 10 }));
    assert_eq!(parse("dup + dup;", 2), Err(ParseError::Unexpected { at: 4 }));
    assert_eq!(parse("x=1;", 2), Err(ParseError::Unexpected { at: 1 }));
    assert_eq!(parse("x0=2;", 2), Err(ParseError::Unexpected { at: 3 }));
    assert_eq!(parse("x0<1;", 2), Err(ParseError::Unexpected { at: 2 }));
    assert_eq!(parse("x0;", 2), Err(ParseError::Unexpected { at: 2 }));
    assert_eq!(parse("!;", 2), Err(ParseError::Unexpected { at: 1 }));
    assert_eq!(parse("1; (", 2), Err(ParseError::Unexpected { at: 4 }));
    assert_eq!(parse("1;;", 2), Err(ParseError::Unexpected { at: 2 }));
}

#[test]
fn a_field_beyond_the_packet_is_refused() {
    assert_eq!(parse("x2=1;", 2), Err(ParseError::NoSuchField { at: 0 }));
    assert_eq!(parse("(dup . x5<-0);", 5), Err(ParseError::NoSuchField { at: 7 }));
    assert_eq!(parse("x0=1;", 0), Err(ParseError::NoSuchField { at: 0 }));
    assert_eq!(parse("x4294967295=1;", u32::MAX), Err(ParseError::NoSuchField { at: 0 }));
    assert_eq!(parse("x4294967294=1;", u32::MAX), Ok(vec![Expr::test(4294967294, true)]));
    assert_eq!(parse("x4294967296=1;", u32::MAX), Err(ParseError::NoSuchField { at: 0 }));
    assert_eq!(parse("x99999999999999999999999999=1;", u32::MAX), Err(ParseError::NoSuchField { at: 0 }));
}

#[test]
fn parse_expr_gives_the_place_behind_the_expression() {
    let (e, next) = parse_expr(b"  (dup + 1)* rest", 0, 1).unwrap();
    assert_eq!(e, Expr::star(Expr::union(Expr::dup(), Expr::one())));
    assert_eq!(next, 12);
    let (e, next) = parse_expr(b"dup;1", 4, 1).unwrap();
    assert_eq!((e, next), (Expr::one(), 5));
}

#[test]
fn expressions_are_written() {
    assert_eq!(text(&Expr::zero()), "0");
    assert_eq!(text(&Expr::one()), "1");
    assert_eq!(text(&Expr::top()), "T");
    assert_eq!(text(&Expr::dup()), "dup");
    assert_eq!(text(&Expr::end()), "end");
    assert_eq!(text(&Expr::test(0, true)), "x0=1");
    assert_eq!(text(&Expr::test(10, false)), "x10=0");
    assert_eq!(text(&Expr::assign(4294967295, true)), "x4294967295<-1");
    assert_eq!(text(&Expr::assign(205, false)), "x205<-0");
    let a = Expr::dup();
    let b = Expr::one();
    assert_eq!(text(&Expr::union(a.clone(), b.clone())), "(dup + 1)");
    assert_eq!(text(&Expr::intersect(a.clone(), b.clone())), "(dup & 1)");
    assert_eq!(text(&Expr::xor(a.clone(), b.clone())), "(dup ^ 1)");
    assert_eq!(text(&Expr::difference(a.clone(), b.clone())), "(dup - 1)");
    assert_eq!(text(&Expr::sequence(a.clone(), b.clone())), "(dup . 1)");
    assert_eq!(text(&Expr::ltl_until(a.clone(), b.clone())), "(dup U 1)");
    assert_eq!(text(&Expr::ltl_weak_until(a.clone(), b.clone())), "(dup W 1)");
    assert_eq!(text(&Expr::ltl_release(a.clone(), b.clone())), "(dup R 1)");
    assert_eq!(text(&Expr::ltl_strong_release(a.clone(), b.clone())), "(dup S 1)");
    assert_eq!(text(&Expr::star(a.clone())), "dup*");
    assert_eq!(text(&Expr::star(Expr::star(a.clone()))), "dup**");
    assert_eq!(text(&Expr::star(Expr::complement(a.clone()))), "(!dup)*");
    assert_eq!(text(&Expr::complement(Expr::star(a.clone()))), "!dup*");
    assert_eq!(text(&Expr::ltl_next(a.clone())), "Xdup");
    assert_eq!(text(&Expr::ltl_weak_next(a.clone())), "X'dup");
    assert_eq!(text(&Expr::ltl_finally(a.clone())), "Fdup");
    assert_eq!(text(&Expr::ltl_globally(Expr::top())), "GT");
    let mut out = b"so far: ".to_vec();
    write_expr(&mut out, &Expr::star(Expr::union(a.clone(), b.clone())));
    assert_eq!(out, b"so far: (dup + 1)*".to_vec());
}

#[test]
fn what_is_written_is_read_back() {
    let every = vec![
        Expr::star(Expr::ltl_next(Expr::star(Expr::ltl_finally(Expr::dup())))),
        Expr::ltl_weak_next(Expr::ltl_next(Expr::ltl_weak_next(Expr::top()))),
        Expr::xor(Expr::difference(Expr::end(), Expr::zero()), Expr::ltl_globally(Expr::test(3, false))),
        Expr::ltl_strong_release(
            Expr::ltl_release(Expr::one(), Expr::dup()),
            Expr::ltl_weak_until(Expr::assign(0, true), Expr::ltl_until(Expr::top(), Expr::end())),
        ),
    ];
    for e in &every {
        let mut file = to_text(e);
        file.push(b';');
        assert_eq!(parse_expressions(&file, 4), Ok(vec![e.clone()]));
    }
    let mut all = Vec::new();
    let mut file = Vec::new();
    for n in 0..4 {
        for _ in 0..100 {
            let (e1, e2) = genax(n, 2, 3);
            for e in [e1, e2, gen_random_expr(&mut Source::fresh(), 3, 3)] {
                write_expr(&mut file, &e);
                file.extend_from_slice(b" ;\n");
                all.push(e);
            }
        }
    }
    assert_eq!(parse_expressions(&file, 3), Ok(all));
}
