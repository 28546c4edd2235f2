//! The surface syntax of expressions, read from bytes and written to bytes.
//!
//! ```text
//! file     := ( expr ';' )*
//! expr     := '!' expr | "X'" expr | 'X' expr | 'F' expr | 'G' expr | postfix
//! postfix  := primary '*'*
//! primary  := '0' | '1' | 'T' | 'dup' | 'end'
//!           | 'x' number '=' bit | 'x' number '<-' bit
//!           | '(' expr ')' | '(' expr op expr ')'
//! op       := '+' | '&' | '^' | '-' | '.' | 'U' | 'W' | 'R' | 'S'
//! bit      := '0' | '1'
//! ```
//!
//! Blanks, tabs and line ends may stand between the tokens. A field `x`n is
//! accepted when n is below the number of fields.

use crate::expr::{
    assign_exp, complement_exp, difference_exp, dup_exp, end_exp, finally_exp, globally_exp, intersect_exp,
    next_exp, one_exp, release_exp, sequence_exp, star_exp, strong_release_exp, test_exp, top_exp, union_exp,
    until_exp, weak_next_exp, weak_until_exp, xor_exp, zero_exp, Exp, Expr,
};
use vstd::prelude::*;

verus! {

/// Why a text is no expression.
#[derive(Debug, Clone, Copy, PartialEq, Eq, Structural)]
pub enum ParseError {
    /// The byte at this place, or the end of the text there, fits no rule.
    Unexpected { at: usize },
    /// The field that starts at this place is none of the packet's fields.
    NoSuchField { at: usize },
}

/// What parsing at a place gives: an expression and the place behind it, or an error.
pub type Parsed = Result<(Exp, int), ParseError>;

/// A blank, a tab or a line end.
pub open spec fn is_space(b: u8) -> bool {
    b == 32 || b == 9 || b == 10 || b == 13
}

/// A decimal digit.
pub open spec fn is_digit(b: u8) -> bool {
    48 <= b <= 57
}

/// The byte at a place, or 0 behind the end of the text.
pub open spec fn at(s: Seq<u8>, i: int) -> u8 {
    if 0 <= i < s.len() {
        s[i]
    } else {
        0
    }
}

/// The number of spaces that stand from `i` on.
pub open spec fn spaces(s: Seq<u8>, i: int) -> nat
    decreases s.len() - i,
{
    if 0 <= i < s.len() && is_space(s[i]) {
        1 + spaces(s, i + 1)
    } else {
        0
    }
}

/// The first place from `i` on that holds no space.
pub open spec fn skip_spaces(s: Seq<u8>, i: int) -> int {
    i + spaces(s, i)
}

/// One more than the largest number of a field.
pub open spec fn limit() -> int {
    0x1_0000_0000
}

/// The number that the digits from `i` on stand for after the digits that
/// stand for `acc`, and the place behind them. A number beyond the largest
/// field counts as `limit()`.
pub open spec fn number(s: Seq<u8>, i: int, acc: int) -> (int, int)
    decreases s.len() - i,
{
    if 0 <= i < s.len() && is_digit(s[i]) {
        let more = acc * 10 + (s[i] - 48);
        number(
            s,
            i + 1,
            if more >= limit() {
                limit()
            } else {
                more
            },
        )
    } else {
        (acc, i)
    }
}

/// The expression for a binary operator.
pub open spec fn binary(op: u8, a: Exp, b: Exp) -> Exp {
    if op == 43 {
        union_exp(a, b)
    } else if op == 38 {
        intersect_exp(a, b)
    } else if op == 94 {
        xor_exp(a, b)
    } else if op == 45 {
        difference_exp(a, b)
    } else if op == 46 {
        sequence_exp(a, b)
    } else if op == 85 {
        until_exp(a, b)
    } else if op == 87 {
        weak_until_exp(a, b)
    } else if op == 82 {
        release_exp(a, b)
    } else {
        strong_release_exp(a, b)
    }
}

/// The byte is a binary operator: one of `+ & ^ - . U W R S`.
pub open spec fn is_op(b: u8) -> bool {
    b == 43 || b == 38 || b == 94 || b == 45 || b == 46 || b == 85 || b == 87 || b == 82 || b == 83
}

/// The field test or assignment of a field whose `x` stands at `i`.
pub open spec fn field_at(s: Seq<u8>, i: int, k: u32) -> Parsed {
    if !is_digit(at(s, i + 1)) {
        Err(ParseError::Unexpected { at: (i + 1) as usize })
    } else {
        let (f, j) = number(s, i + 1, 0);
        let j = skip_spaces(s, j);
        if f >= k {
            Err(ParseError::NoSuchField { at: i as usize })
        } else if at(s, j) == 61 {
            let v = skip_spaces(s, j + 1);
            if at(s, v) == 48 {
                Ok((test_exp(f as u32, false), v + 1))
            } else if at(s, v) == 49 {
                Ok((test_exp(f as u32, true), v + 1))
            } else {
                Err(ParseError::Unexpected { at: v as usize })
            }
        } else if at(s, j) == 60 && at(s, j + 1) == 45 {
            let v = skip_spaces(s, j + 2);
            if at(s, v) == 48 {
                Ok((assign_exp(f as u32, false), v + 1))
            } else if at(s, v) == 49 {
                Ok((assign_exp(f as u32, true), v + 1))
            } else {
                Err(ParseError::Unexpected { at: v as usize })
            }
        } else {
            Err(ParseError::Unexpected { at: j as usize })
        }
    }
}

/// The expression with the stars that stand from `i` on, and the place behind them.
pub open spec fn stars(s: Seq<u8>, i: int, e: Exp) -> (Exp, int)
    decreases s.len() - i,
{
    let j = skip_spaces(s, i);
    if 0 <= j < s.len() && s[j] == 42 {
        stars(s, j + 1, star_exp(e))
    } else {
        (e, i)
    }
}

/// The expression that stands at `i`, spaces before it skipped, and the
/// place behind it.
pub open spec fn expr_at(s: Seq<u8>, i: int, k: u32) -> Parsed
    decreases s.len() - i, 1nat,
{
    let i = skip_spaces(s, i);
    let c = at(s, i);
    if i < 0 || i >= s.len() {
        Err(ParseError::Unexpected { at: i as usize })
    } else if c == 33 {
        match expr_at(s, i + 1, k) {
            Ok((e, j)) => Ok((complement_exp(e), j)),
            Err(x) => Err(x),
        }
    } else if c == 88 && at(s, i + 1) == 39 {
        match expr_at(s, i + 2, k) {
            Ok((e, j)) => Ok((weak_next_exp(e), j)),
            Err(x) => Err(x),
        }
    } else if c == 88 {
        match expr_at(s, i + 1, k) {
            Ok((e, j)) => Ok((next_exp(e), j)),
            Err(x) => Err(x),
        }
    } else if c == 70 {
        match expr_at(s, i + 1, k) {
            Ok((e, j)) => Ok((finally_exp(e), j)),
            Err(x) => Err(x),
        }
    } else if c == 71 {
        match expr_at(s, i + 1, k) {
            Ok((e, j)) => Ok((globally_exp(e), j)),
            Err(x) => Err(x),
        }
    } else {
        match primary_at(s, i, k) {
            Ok((e, j)) => Ok(stars(s, j, e)),
            Err(x) => Err(x),
        }
    }
}

/// The constant, the field test or assignment, or the expression in
/// parentheses that stands at `i`, and the place behind it.
pub open spec fn primary_at(s: Seq<u8>, i: int, k: u32) -> Parsed
    decreases s.len() - i, 0nat,
{
    let c = at(s, i);
    if i < 0 || i >= s.len() {
        Err(ParseError::Unexpected { at: i as usize })
    } else if c == 48 {
        Ok((zero_exp(), i + 1))
    } else if c == 49 {
        Ok((one_exp(), i + 1))
    } else if c == 84 {
        Ok((top_exp(), i + 1))
    } else if c == 100 && at(s, i + 1) == 117 && at(s, i + 2) == 112 {
        Ok((dup_exp(), i + 3))
    } else if c == 101 && at(s, i + 1) == 110 && at(s, i + 2) == 100 {
        Ok((end_exp(), i + 3))
    } else if c == 120 {
        field_at(s, i, k)
    } else if c == 40 {
        match expr_at(s, i + 1, k) {
            Ok((a, j)) => {
                let j = skip_spaces(s, j);
                if at(s, j) == 41 {
                    Ok((a, j + 1))
                } else if is_op(at(s, j)) && i < j < s.len() {
                    match expr_at(s, j + 1, k) {
                        Ok((b, n)) => {
                            let n = skip_spaces(s, n);
                            if at(s, n) == 41 {
                                Ok((binary(at(s, j), a, b), n + 1))
                            } else {
                                Err(ParseError::Unexpected { at: n as usize })
                            }
                        },
                        Err(x) => Err(x),
                    }
                } else {
                    Err(ParseError::Unexpected { at: j as usize })
                }
            },
            Err(x) => Err(x),
        }
    } else {
        Err(ParseError::Unexpected { at: i as usize })
    }
}

/// The expressions of a file from `i` on, each closed by a semicolon, after
/// the expressions `done`.
pub open spec fn file_at(s: Seq<u8>, i: int, k: u32, done: Seq<Exp>) -> Result<Seq<Exp>, ParseError>
    decreases s.len() - i,
{
    let i = skip_spaces(s, i);
    if i < 0 || i >= s.len() {
        Ok(done)
    } else {
        match expr_at(s, i, k) {
            Ok((e, j)) => {
                let j = skip_spaces(s, j);
                if at(s, j) == 59 && i < j < s.len() {
                    file_at(s, j + 1, k, done.push(e))
                } else {
                    Err(ParseError::Unexpected { at: j as usize })
                }
            },
            Err(x) => Err(x),
        }
    }
}

/// The expressions that a text holds, or why it holds none.
pub open spec fn parsed(s: Seq<u8>, k: u32) -> Result<Seq<Exp>, ParseError> {
    file_at(s, 0, k, Seq::empty())
}

/// What the parser returns stands for what the grammar says.
pub open spec fn agrees(r: Result<(Exp, usize), ParseError>, p: Parsed) -> bool {
    match r {
        Ok(found) => p == Ok::<(Exp, int), ParseError>((found.0, found.1 as int)),
        Err(x) => p == Err::<(Exp, int), ParseError>(x),
    }
}

/// The byte `off` places behind `i`, or 0 behind the end of the text.
fn peek(s: &[u8], i: usize, off: usize) -> (b: u8)
    requires
        i <= s.len(),
    ensures
        b == at(s@, i + off),
{
    if off < s.len() - i {
        s[i + off]
    } else {
        0
    }
}

/// Whether the byte is a space.
fn space(b: u8) -> (r: bool)
    ensures
        r == is_space(b),
{
    b == 32 || b == 9 || b == 10 || b == 13
}

/// The first place from `i` on that holds no space.
fn skip(s: &[u8], i: usize) -> (j: usize)
    requires
        i <= s.len(),
    ensures
        j == skip_spaces(s@, i as int),
        i <= j <= s.len(),
{
    let mut j = i;
    while j < s.len() && space(s[j])
        invariant
            i <= j <= s.len(),
            skip_spaces(s@, i as int) == skip_spaces(s@, j as int),
        decreases s.len() - j,
    {
        j += 1;
    }
    j
}

/// The number that the digits from `i` on stand for, at most `limit()`, and
/// the place behind them.
fn read_number(s: &[u8], i: usize) -> (r: (u64, usize))
    requires
        i <= s.len(),
    ensures
        (r.0 as int, r.1 as int) == number(s@, i as int, 0),
        i <= r.1 <= s.len(),
        r.0 <= limit(),
{
    let mut acc: u64 = 0;
    let mut j = i;
    while j < s.len() && 48 <= s[j] && s[j] <= 57
        invariant
            i <= j <= s.len(),
            acc <= limit(),
            number(s@, i as int, 0) == number(s@, j as int, acc as int),
        decreases s.len() - j,
    {
        let more: u64 = acc * 10 + (s[j] - 48) as u64;
        acc = if more >= 0x1_0000_0000 {
            0x1_0000_0000
        } else {
            more
        };
        j += 1;
    }
    (acc, j)
}

/// Reads the field test or assignment of a field whose `x` stands at `i`.
fn parse_field(s: &[u8], i: usize, k: u32) -> (r: Result<(Exp, usize), ParseError>)
    requires
        i < s.len(),
    ensures
        agrees(r, field_at(s@, i as int, k)),
        r matches Ok(found) ==> i < found.1 <= s.len(),
{
    let first = peek(s, i, 1);
    if !(48 <= first && first <= 57) {
        return Err(ParseError::Unexpected { at: i + 1 });
    }
    let (f, j) = read_number(s, i + 1);
    let j = skip(s, j);
    if f >= k as u64 {
        return Err(ParseError::NoSuchField { at: i });
    }
    let field = f as u32;
    if peek(s, j, 0) == 61 {
        let v = skip(s, j + 1);
        let bit = peek(s, v, 0);
        if bit == 48 {
            Ok((Expr::test(field, false), v + 1))
        } else if bit == 49 {
            Ok((Expr::test(field, true), v + 1))
        } else {
            Err(ParseError::Unexpected { at: v })
        }
    } else if peek(s, j, 0) == 60 && peek(s, j, 1) == 45 {
        let v = skip(s, j + 2);
        let bit = peek(s, v, 0);
        if bit == 48 {
            Ok((Expr::assign(field, false), v + 1))
        } else if bit == 49 {
            Ok((Expr::assign(field, true), v + 1))
        } else {
            Err(ParseError::Unexpected { at: v })
        }
    } else {
        Err(ParseError::Unexpected { at: j })
    }
}

/// Reads the stars that stand from `i` on, behind the expression `e`.
fn parse_stars(s: &[u8], i: usize, e: Exp) -> (r: (Exp, usize))
    requires
        i <= s.len(),
    ensures
        (r.0, r.1 as int) == stars(s@, i as int, e),
        i <= r.1 <= s.len(),
{
    let mut starred = e;
    let mut at = i;
    loop
        invariant
            i <= at <= s.len(),
            stars(s@, i as int, e) == stars(s@, at as int, starred),
        decreases s.len() - at,
    {
        let j = skip(s, at);
        if j < s.len() && s[j] == 42 {
            starred = Expr::star(starred);
            at = j + 1;
        } else {
            return (starred, at);
        }
    }
}

/// Builds the expression for a binary operator.
fn make_binary(op: u8, a: Exp, b: Exp) -> (r: Exp)
    ensures
        r == binary(op, a, b),
{
    if op == 43 {
        Expr::union(a, b)
    } else if op == 38 {
        Expr::intersect(a, b)
    } else if op == 94 {
        Expr::xor(a, b)
    } else if op == 45 {
        Expr::difference(a, b)
    } else if op == 46 {
        Expr::sequence(a, b)
    } else if op == 85 {
        Expr::ltl_until(a, b)
    } else if op == 87 {
        Expr::ltl_weak_until(a, b)
    } else if op == 82 {
        Expr::ltl_release(a, b)
    } else {
        Expr::ltl_strong_release(a, b)
    }
}

/// Whether the byte is a binary operator.
fn operator(b: u8) -> (r: bool)
    ensures
        r == is_op(b),
{
    b == 43 || b == 38 || b == 94 || b == 45 || b == 46 || b == 85 || b == 87 || b == 82 || b == 83
}

/// Reads the expression that stands at `i`, spaces before it skipped.
pub fn parse_expr(s: &[u8], i: usize, k: u32) -> (r: Result<(Exp, usize), ParseError>)
    requires
        i <= s.len(),
    ensures
        agrees(r, expr_at(s@, i as int, k)),
        r matches Ok(found) ==> i < found.1 <= s.len(),
    decreases s.len() - i, 1nat,
{
    let i = skip(s, i);
    if i >= s.len() {
        return Err(ParseError::Unexpected { at: i });
    }
    let c = s[i];
    if c == 33 {
        match parse_expr(s, i + 1, k) {
            Ok((e, j)) => Ok((Expr::complement(e), j)),
            Err(x) => Err(x),
        }
    } else if c == 88 && peek(s, i, 1) == 39 {
        match parse_expr(s, i + 2, k) {
            Ok((e, j)) => Ok((Expr::ltl_weak_next(e), j)),
            Err(x) => Err(x),
        }
    } else if c == 88 {
        match parse_expr(s, i + 1, k) {
            Ok((e, j)) => Ok((Expr::ltl_next(e), j)),
            Err(x) => Err(x),
        }
    } else if c == 70 {
        match parse_expr(s, i + 1, k) {
            Ok((e, j)) => Ok((Expr::ltl_finally(e), j)),
            Err(x) => Err(x),
        }
    } else if c == 71 {
        match parse_expr(s, i + 1, k) {
            Ok((e, j)) => Ok((Expr::ltl_globally(e), j)),
            Err(x) => Err(x),
        }
    } else {
        match parse_primary(s, i, k) {
            Ok((e, j)) => Ok(parse_stars(s, j, e)),
            Err(x) => Err(x),
        }
    }
}

/// Reads the constant, the field test or assignment, or the expression in
/// parentheses that stands at `i`.
fn parse_primary(s: &[u8], i: usize, k: u32) -> (r: Result<(Exp, usize), ParseError>)
    requires
        i <= s.len(),
    ensures
        agrees(r, primary_at(s@, i as int, k)),
        r matches Ok(found) ==> i < found.1 <= s.len(),
    decreases s.len() - i, 0nat,
{
    if i >= s.len() {
        return Err(ParseError::Unexpected { at: i });
    }
    let c = s[i];
    if c == 48 {
        Ok((Expr::zero(), i + 1))
    } else if c == 49 {
        Ok((Expr::one(), i + 1))
    } else if c == 84 {
        Ok((Expr::top(), i + 1))
    } else if c == 100 && peek(s, i, 1) == 117 && peek(s, i, 2) == 112 {
        Ok((Expr::dup(), i + 3))
    } else if c == 101 && peek(s, i, 1) == 110 && peek(s, i, 2) == 100 {
        Ok((Expr::end(), i + 3))
    } else if c == 120 {
        parse_field(s, i, k)
    } else if c == 40 {
        match parse_expr(s, i + 1, k) {
            Ok((a, j)) => {
                let j = skip(s, j);
                let op = peek(s, j, 0);
                if op == 41 {
                    Ok((a, j + 1))
                } else if operator(op) && j < s.len() {
                    match parse_expr(s, j + 1, k) {
                        Ok((b, n)) => {
                            let n = skip(s, n);
                            if peek(s, n, 0) == 41 {
                                Ok((make_binary(op, a, b), n + 1))
                            } else {
                                Err(ParseError::Unexpected { at: n })
                            }
                        },
                        Err(x) => Err(x),
                    }
                } else {
                    Err(ParseError::Unexpected { at: j })
                }
            },
            Err(x) => Err(x),
        }
    } else {
        Err(ParseError::Unexpected { at: i })
    }
}

/// Reads the expressions of a text over packets of `num_fields` fields: each
/// expression closed by a semicolon. The text is a list of expressions
/// exactly when the grammar says so, and the error is the first that the
/// grammar meets.
pub fn parse_expressions(content: &[u8], num_fields: u32) -> (r: Result<Vec<Exp>, ParseError>)
    ensures
        match r {
            Ok(list) => parsed(content@, num_fields) == Ok::<Seq<Exp>, ParseError>(list@),
            Err(x) => parsed(content@, num_fields) == Err::<Seq<Exp>, ParseError>(x),
        },
{
    let mut list: Vec<Exp> = Vec::new();
    let mut i: usize = 0;
    loop
        invariant
            i <= content.len(),
            parsed(content@, num_fields) == file_at(content@, i as int, num_fields, list@),
        decreases content.len() - i,
    {
        let start = skip(content, i);
        if start >= content.len() {
            return Ok(list);
        }
        match parse_expr(content, start, num_fields) {
            Ok((e, j)) => {
                let j = skip(content, j);
                if peek(content, j, 0) == 59 && j < content.len() {
                    list.push(e);
                    i = j + 1;
                } else {
                    return Err(ParseError::Unexpected { at: j });
                }
            },
            Err(x) => {
                return Err(x);
            },
        }
    }
}

/// The digits of a number.
pub open spec fn digits(n: nat) -> Seq<u8>
    decreases n,
{
    if n < 10 {
        seq![(48 + n) as u8]
    } else {
        digits(n / 10).push((48 + n % 10) as u8)
    }
}

/// The text of a binary operator between two texts, in parentheses.
pub open spec fn infix(a: Seq<u8>, op: u8, b: Seq<u8>) -> Seq<u8> {
    seq![40u8] + a + seq![32u8, op, 32u8] + b + seq![41u8]
}

/// The expression is written with an operator in front.
pub open spec fn is_prefixed(e: Exp) -> bool {
    match *e {
        Expr::Complement(_)
        | Expr::LtlNext(_)
        | Expr::LtlWeakNext(_)
        | Expr::LtlFinally(_)
        | Expr::LtlGlobally(_) => true,
        _ => false,
    }
}

/// The text of a field, its sign and a value: `=` for a test and `<-` for
/// an assignment.
pub open spec fn field_text(f: u32, sign: Seq<u8>, v: bool) -> Seq<u8> {
    seq![120u8] + digits(f as nat) + sign + seq![if v {
        49u8
    } else {
        48u8
    }]
}

/// The text of an expression: the constants by their names, a field test
/// `x`n`=`v and an assignment `x`n`<-`v, a binary operator between its
/// operands in parentheses, an operator of one operand in front of it, and a
/// star behind its operand, which stands in parentheses when it is written
/// with an operator in front.
pub open spec fn text_of(e: Exp) -> Seq<u8>
    decreases e,
{
    match *e {
        Expr::Zero => seq![48u8],
        Expr::One => seq![49u8],
        Expr::Top => seq![84u8],
        Expr::Dup => seq![100u8, 117u8, 112u8],
        Expr::End => seq![101u8, 110u8, 100u8],
        Expr::Assign(f, v) => field_text(f, seq![60u8, 45u8], v),
        Expr::Test(f, v) => field_text(f, seq![61u8], v),
        Expr::Union(a, b) => infix(text_of(a), 43, text_of(b)),
        Expr::Intersect(a, b) => infix(text_of(a), 38, text_of(b)),
        Expr::Xor(a, b) => infix(text_of(a), 94, text_of(b)),
        Expr::Difference(a, b) => infix(text_of(a), 45, text_of(b)),
        Expr::Sequence(a, b) => infix(text_of(a), 46, text_of(b)),
        Expr::LtlUntil(a, b) => infix(text_of(a), 85, text_of(b)),
        Expr::LtlWeakUntil(a, b) => infix(text_of(a), 87, text_of(b)),
        Expr::LtlRelease(a, b) => infix(text_of(a), 82, text_of(b)),
        Expr::LtlStrongRelease(a, b) => infix(text_of(a), 83, text_of(b)),
        Expr::Star(a) => if is_prefixed(a) {
            seq![40u8] + text_of(a) + seq![41u8, 42u8]
        } else {
            text_of(a).push(42u8)
        },
        Expr::Complement(a) => seq![33u8] + text_of(a),
        Expr::LtlNext(a) => seq![88u8] + text_of(a),
        Expr::LtlWeakNext(a) => seq![88u8, 39u8] + text_of(a),
        Expr::LtlFinally(a) => seq![70u8] + text_of(a),
        Expr::LtlGlobally(a) => seq![71u8] + text_of(a),
    }
}

/// Writes the digits of a number.
fn write_number(out: &mut Vec<u8>, n: u32)
    ensures
        final(out)@ == old(out)@ + digits(n as nat),
    decreases n,
{
    if n < 10 {
        out.push(48 + n as u8);
        proof {
            assert(out@ =~= old(out)@ + digits(n as nat));
        }
    } else {
        write_number(out, n / 10);
        out.push(48 + (n % 10) as u8);
        proof {
            assert(out@ =~= old(out)@ + digits(n as nat));
        }
    }
}

/// Writes a field, its sign and a value.
fn write_field(out: &mut Vec<u8>, f: u32, test: bool, v: bool)
    ensures
        final(out)@ == old(out)@ + field_text(
            f,
            if test {
                seq![61u8]
            } else {
                seq![60u8, 45u8]
            },
            v,
        ),
{
    out.push(120);
    write_number(out, f);
    if test {
        out.push(61);
    } else {
        out.push(60);
        out.push(45);
    }
    out.push(if v {
        49
    } else {
        48
    });
    proof {
        assert(out@ =~= old(out)@ + field_text(
            f,
            if test {
                seq![61u8]
            } else {
                seq![60u8, 45u8]
            },
            v,
        ));
    }
}

/// Whether the expression is written with an operator in front.
fn prefixed(e: &Exp) -> (r: bool)
    ensures
        r == is_prefixed(*e),
{
    match &**e {
        Expr::Complement(_)
        | Expr::LtlNext(_)
        | Expr::LtlWeakNext(_)
        | Expr::LtlFinally(_)
        | Expr::LtlGlobally(_) => true,
        _ => false,
    }
}

/// Writes a binary operator between its operands, in parentheses; `whole`
/// is the expression that the operands are the operands of.
fn write_binary(out: &mut Vec<u8>, a: &Exp, op: u8, b: &Exp, Ghost(whole): Ghost<Exp>)
    requires
        decreases_to!(whole => *a),
        decreases_to!(whole => *b),
    ensures
        final(out)@ == old(out)@ + infix(text_of(*a), op, text_of(*b)),
    decreases whole, 0nat,
{
    out.push(40);
    let ghost s0 = out@;
    write_expr(out, a);
    let ghost s1 = out@;
    out.push(32);
    out.push(op);
    out.push(32);
    let ghost s2 = out@;
    write_expr(out, b);
    let ghost s3 = out@;
    out.push(41);
    proof {
        assert(s0 =~= old(out)@ + seq![40u8]);
        assert(s2 =~= s1 + seq![32u8, op, 32u8]);
        assert(out@ =~= s3 + seq![41u8]);
        assert(out@ =~= old(out)@ + infix(text_of(*a), op, text_of(*b)));
    }
}

/// Writes the text of an expression behind what is written already.
#[verifier::rlimit(40)]
pub fn write_expr(out: &mut Vec<u8>, e: &Exp)
    ensures
        final(out)@ == old(out)@ + text_of(*e),
    decreases *e, 1nat,
{
    match &**e {
        Expr::Zero => {
            out.push(48);
            proof {
                assert(out@ =~= old(out)@ + seq![48u8]);
            }
        },
        Expr::One => {
            out.push(49);
            proof {
                assert(out@ =~= old(out)@ + seq![49u8]);
            }
        },
        Expr::Top => {
            out.push(84);
            proof {
                assert(out@ =~= old(out)@ + seq![84u8]);
            }
        },
        Expr::Dup => {
            out.push(100);
            out.push(117);
            out.push(112);
            proof {
                assert(out@ =~= old(out)@ + seq![100u8, 117u8, 112u8]);
            }
        },
        Expr::End => {
            out.push(101);
            out.push(110);
            out.push(100);
            proof {
                assert(out@ =~= old(out)@ + seq![101u8, 110u8, 100u8]);
            }
        },
        Expr::Assign(f, v) => {
            write_field(out, *f, false, *v);
        },
        Expr::Test(f, v) => {
            write_field(out, *f, true, *v);
        },
        Expr::Union(a, b) => {
            write_binary(out, a, 43, b, Ghost(*e));
        },
        Expr::Intersect(a, b) => {
            write_binary(out, a, 38, b, Ghost(*e));
        },
        Expr::Xor(a, b) => {
            write_binary(out, a, 94, b, Ghost(*e));
        },
        Expr::Difference(a, b) => {
            write_binary(out, a, 45, b, Ghost(*e));
        },
        Expr::Sequence(a, b) => {
            write_binary(out, a, 46, b, Ghost(*e));
        },
        Expr::LtlUntil(a, b) => {
            write_binary(out, a, 85, b, Ghost(*e));
        },
        Expr::LtlWeakUntil(a, b) => {
            write_binary(out, a, 87, b, Ghost(*e));
        },
        Expr::LtlRelease(a, b) => {
            write_binary(out, a, 82, b, Ghost(*e));
        },
        Expr::LtlStrongRelease(a, b) => {
            write_binary(out, a, 83, b, Ghost(*e));
        },
        Expr::Complement(a) => {
            out.push(33);
            let ghost begun = out@;
            write_expr(out, a);
            proof {
                assert(begun =~= old(out)@ + seq![33u8]);
                assert(out@ =~= old(out)@ + (seq![33u8] + text_of(*a)));
            }
        },
        Expr::LtlNext(a) => {
            out.push(88);
            let ghost begun = out@;
            write_expr(out, a);
            proof {
                assert(begun =~= old(out)@ + seq![88u8]);
                assert(out@ =~= old(out)@ + (seq![88u8] + text_of(*a)));
            }
        },
        Expr::LtlWeakNext(a) => {
            out.push(88);
            out.push(39);
            let ghost begun = out@;
            write_expr(out, a);
            proof {
                assert(begun =~= old(out)@ + seq![88u8, 39u8]);
                assert(out@ =~= old(out)@ + (seq![88u8, 39u8] + text_of(*a)));
            }
        },
        Expr::LtlFinally(a) => {
            out.push(70);
            let ghost begun = out@;
            write_expr(out, a);
            proof {
                assert(begun =~= old(out)@ + seq![70u8]);
                assert(out@ =~= old(out)@ + (seq![70u8] + text_of(*a)));
            }
        },
        Expr::LtlGlobally(a) => {
            out.push(71);
            let ghost begun = out@;
            write_expr(out, a);
            proof {
                assert(begun =~= old(out)@ + seq![71u8]);
                assert(out@ =~= old(out)@ + (seq![71u8] + text_of(*a)));
            }
        },
        Expr::Star(a) => {
            if prefixed(a) {
                out.push(40);
                let ghost begun = out@;
                write_expr(out, a);
                let ghost written = out@;
                out.push(41);
                out.push(42);
                proof {
                    assert(begun =~= old(out)@ + seq![40u8]);
                    assert(out@ =~= written + seq![41u8, 42u8]);
                    assert(out@ =~= old(out)@ + (seq![40u8] + text_of(*a) + seq![41u8, 42u8]));
                }
            } else {
                write_expr(out, a);
                out.push(42);
                proof {
                    assert(out@ =~= old(out)@ + text_of(*a).push(42u8));
                }
            }
        },
    }
}

/// The text of an expression.
pub fn to_text(e: &Exp) -> (text: Vec<u8>)
    ensures
        text@ == text_of(*e),
{
    let mut out: Vec<u8> = Vec::new();
    write_expr(&mut out, e);
    proof {
        assert(out@ =~= text_of(*e));
    }
    out
}

/// The text `t` stands in `s` at the place `i`.
pub open spec fn occurs(s: Seq<u8>, i: int, t: Seq<u8>) -> bool {
    &&& 0 <= i
    &&& i + t.len() <= s.len()
    &&& forall|j: int| 0 <= j < t.len() ==> s[i + j] == #[trigger] t[j]
}

/// No star follows at the place `j`, spaces skipped.
pub open spec fn quiet(s: Seq<u8>, j: int) -> bool {
    at(s, skip_spaces(s, j)) != 42
}

/// A byte that the text of an expression can start with.
pub open spec fn starts(b: u8) -> bool {
    b == 48 || b == 49 || b == 84 || b == 100 || b == 101 || b == 120 || b == 40 || b == 33 || b == 88 || b == 70
        || b == 71
}

/// The primary at `i` is read, and the stars behind it lead to the
/// expression `e` at the place `end`.
pub open spec fn leads_to(s: Seq<u8>, i: int, k: u32, e: Exp, end: int) -> bool {
    match primary_at(s, i, k) {
        Ok(p) => stars(s, p.1, p.0) == stars(s, end, e),
        Err(_) => false,
    }
}

/// No space stands where something else stands.
pub proof fn lemma_no_space(s: Seq<u8>, i: int)
    requires
        !is_space(at(s, i)),
    ensures
        skip_spaces(s, i) == i,
{
}

/// One space before something else is skipped.
pub proof fn lemma_one_space(s: Seq<u8>, i: int)
    requires
        0 <= i < s.len(),
        s[i] == 32,
        !is_space(at(s, i + 1)),
    ensures
        skip_spaces(s, i) == i + 1,
{
    lemma_no_space(s, i + 1);
}

/// Behind the spaces that were skipped stands no space.
pub proof fn lemma_skipped(s: Seq<u8>, i: int)
    ensures
        !is_space(at(s, skip_spaces(s, i))) || skip_spaces(s, i) < 0,
        skip_spaces(s, skip_spaces(s, i)) == skip_spaces(s, i),
    decreases s.len() - i,
{
    if 0 <= i < s.len() && is_space(s[i]) {
        lemma_skipped(s, i + 1);
    }
}

/// Reading an expression starts behind the spaces.
pub proof fn lemma_expr_at_skip(s: Seq<u8>, i: int, k: u32)
    ensures
        expr_at(s, i, k) == expr_at(s, skip_spaces(s, i), k),
{
    lemma_skipped(s, i);
}

/// The text of an expression is not empty and starts with a byte of its own kind.
pub proof fn lemma_text_starts(e: Exp)
    ensures
        text_of(e).len() >= 1,
        starts(text_of(e)[0]),
        is_prefixed(e) <==> (text_of(e)[0] == 33 || text_of(e)[0] == 88 || text_of(e)[0] == 70 || text_of(e)[0]
            == 71),
    decreases e,
{
    match *e {
        Expr::Star(a) => {
            lemma_text_starts(a);
        },
        _ => {},
    }
}

/// The digits of a number below `limit()` are read back as the number.
pub proof fn lemma_digits_read(s: Seq<u8>, j: int, n: nat)
    requires
        occurs(s, j, digits(n)),
        n < limit(),
    ensures
        digits(n).len() >= 1,
        is_digit(digits(n)[0]),
        number(s, j, 0) == number(s, j + digits(n).len(), n as int),
    decreases n,
{
    if n < 10 {
        assert(s[j + 0] == digits(n)[0]);
    } else {
        let head = digits(n / 10);
        assert forall|x: int| 0 <= x < head.len() implies s[j + x] == #[trigger] head[x] by {
            assert(digits(n)[x] == head[x]);
        }
        lemma_digits_read(s, j, n / 10);
        assert(s[j + head.len()] == digits(n)[head.len() as int]);
        assert(digits(n)[0] == head[0]);
    }
}

/// A field test or assignment that stands at `i` is read back.
pub proof fn lemma_field_read(s: Seq<u8>, i: int, f: u32, test: bool, v: bool, k: u32)
    requires
        occurs(
            s,
            i,
            field_text(
                f,
                if test {
                    seq![61u8]
                } else {
                    seq![60u8, 45u8]
                },
                v,
            ),
        ),
        f < k,
    ensures
        field_at(s, i, k) == Ok::<(Exp, int), ParseError>(
            (
                if test {
                    test_exp(f, v)
                } else {
                    assign_exp(f, v)
                },
                i + field_text(
                    f,
                    if test {
                        seq![61u8]
                    } else {
                        seq![60u8, 45u8]
                    },
                    v,
                ).len(),
            ),
        ),
{
    let sign = if test {
        seq![61u8]
    } else {
        seq![60u8, 45u8]
    };
    let t = field_text(f, sign, v);
    let d = digits(f as nat);
    let n = d.len() as int;
    assert forall|x: int| 0 <= x < d.len() implies s[i + 1 + x] == #[trigger] d[x] by {
        assert(t[1 + x] == d[x]);
        assert(s[i + (1 + x)] == t[1 + x]);
    }
    lemma_digits_read(s, i + 1, f as nat);
    assert(s[i + 1 + 0] == d[0]);
    let end = i + 1 + n;
    assert(s[i + (1 + n)] == t[1 + n]);
    assert(t[1 + n] == sign[0]);
    assert(number(s, end, f as int) == (f as int, end));
    lemma_no_space(s, end);
    if test {
        assert(s[i + (2 + n)] == t[2 + n]);
        lemma_no_space(s, end + 1);
    } else {
        assert(s[i + (2 + n)] == t[2 + n]);
        assert(s[i + (3 + n)] == t[3 + n]);
        lemma_no_space(s, end + 2);
    }
}

/// What reading back an expression whose text stands at `i` comes to: the
/// expression itself when no star follows its text, and, unless it is
/// written with an operator in front, a primary whose stars lead to it.
pub open spec fn read_back(s: Seq<u8>, i: int, e: Exp, k: u32) -> bool {
    let end = i + text_of(e).len();
    &&& quiet(s, end) ==> expr_at(s, i, k) == Ok::<(Exp, int), ParseError>((e, end))
    &&& !is_prefixed(e) ==> leads_to(s, i, k, e, end)
}

/// A primary that is read at `i`, where no space stands, is read back.
proof fn lemma_primary_read(s: Seq<u8>, i: int, e: Exp, k: u32)
    requires
        0 <= i < s.len(),
        !is_prefixed(e),
        starts(s[i]),
        s[i] != 33 && s[i] != 88 && s[i] != 70 && s[i] != 71,
        primary_at(s, i, k) == Ok::<(Exp, int), ParseError>((e, i + text_of(e).len())),
    ensures
        read_back(s, i, e, k),
{
    lemma_no_space(s, i);
}

/// An expression whose text stands at `i` is read back.
pub proof fn lemma_read_back(s: Seq<u8>, i: int, e: Exp, k: u32)
    requires
        occurs(s, i, text_of(e)),
        crate::expr::fields_below(e, k as nat),
    ensures
        read_back(s, i, e, k),
    decreases e, 1nat,
{
    let t = text_of(e);
    lemma_text_starts(e);
    assert(s[i + 0] == t[0]);
    match *e {
        Expr::Zero | Expr::One | Expr::Top => {
            lemma_primary_read(s, i, e, k);
        },
        Expr::Dup | Expr::End => {
            assert(s[i + 1] == t[1]);
            assert(s[i + 2] == t[2]);
            lemma_primary_read(s, i, e, k);
        },
        Expr::Assign(f, v) => {
            lemma_field_read(s, i, f, false, v, k);
            lemma_primary_read(s, i, e, k);
        },
        Expr::Test(f, v) => {
            lemma_field_read(s, i, f, true, v, k);
            lemma_primary_read(s, i, e, k);
        },
        Expr::Union(a, b) => {
            lemma_binary_read(s, i, a, 43, b, k, e);
            lemma_primary_read(s, i, e, k);
        },
        Expr::Intersect(a, b) => {
            lemma_binary_read(s, i, a, 38, b, k, e);
            lemma_primary_read(s, i, e, k);
        },
        Expr::Xor(a, b) => {
            lemma_binary_read(s, i, a, 94, b, k, e);
            lemma_primary_read(s, i, e, k);
        },
        Expr::Difference(a, b) => {
            lemma_binary_read(s, i, a, 45, b, k, e);
            lemma_primary_read(s, i, e, k);
        },
        Expr::Sequence(a, b) => {
            lemma_binary_read(s, i, a, 46, b, k, e);
            lemma_primary_read(s, i, e, k);
        },
        Expr::LtlUntil(a, b) => {
            lemma_binary_read(s, i, a, 85, b, k, e);
            lemma_primary_read(s, i, e, k);
        },
        Expr::LtlWeakUntil(a, b) => {
            lemma_binary_read(s, i, a, 87, b, k, e);
            lemma_primary_read(s, i, e, k);
        },
        Expr::LtlRelease(a, b) => {
            lemma_binary_read(s, i, a, 82, b, k, e);
            lemma_primary_read(s, i, e, k);
        },
        Expr::LtlStrongRelease(a, b) => {
            lemma_binary_read(s, i, a, 83, b, k, e);
            lemma_primary_read(s, i, e, k);
        },
        Expr::Star(a) => {
            if is_prefixed(a) {
                lemma_group_star_read(s, i, a, k, e);
            } else {
                lemma_star_read(s, i, a, k, e);
            }
        },
        Expr::Complement(a) => {
            lemma_prefix_read(s, i, seq![33u8], a, k, e);
        },
        Expr::LtlNext(a) => {
            lemma_prefix_read(s, i, seq![88u8], a, k, e);
        },
        Expr::LtlWeakNext(a) => {
            lemma_prefix_read(s, i, seq![88u8, 39u8], a, k, e);
        },
        Expr::LtlFinally(a) => {
            lemma_prefix_read(s, i, seq![70u8], a, k, e);
        },
        Expr::LtlGlobally(a) => {
            lemma_prefix_read(s, i, seq![71u8], a, k, e);
        },
    }
}

/// A star behind an operand that is written with no operator in front is read back.
proof fn lemma_star_read(s: Seq<u8>, i: int, a: Exp, k: u32, whole: Exp)
    requires
        whole == star_exp(a),
        decreases_to!(whole => a),
        !is_prefixed(a),
        occurs(s, i, text_of(a).push(42u8)),
        crate::expr::fields_below(a, k as nat),
    ensures
        read_back(s, i, whole, k),
    decreases whole, 0nat,
{
    let ta = text_of(a);
    let t = ta.push(42u8);
    lemma_text_starts(a);
    assert forall|x: int| 0 <= x < ta.len() implies s[i + x] == #[trigger] ta[x] by {
        assert(t[x] == ta[x]);
    }
    let star = i + ta.len();
    assert(s[i + ta.len()] == t[ta.len() as int]);
    assert(s[i + 0] == t[0]);
    lemma_no_space(s, i);
    lemma_no_space(s, star);
    lemma_read_back(s, i, a, k);
    assert(stars(s, star, a) == stars(s, star + 1, whole));
    assert(leads_to(s, i, k, whole, star + 1));
    if quiet(s, star + 1) {
        assert(stars(s, star + 1, whole) == (whole, star + 1));
    }
}

/// A star behind an operand in parentheses is read back.
proof fn lemma_group_star_read(s: Seq<u8>, i: int, a: Exp, k: u32, whole: Exp)
    requires
        whole == star_exp(a),
        decreases_to!(whole => a),
        is_prefixed(a),
        occurs(s, i, seq![40u8] + text_of(a) + seq![41u8, 42u8]),
        crate::expr::fields_below(a, k as nat),
    ensures
        read_back(s, i, whole, k),
    decreases whole, 0nat,
{
    let ta = text_of(a);
    let t = seq![40u8] + ta + seq![41u8, 42u8];
    let la = ta.len() as int;
    assert forall|x: int| 0 <= x < ta.len() implies s[i + 1 + x] == #[trigger] ta[x] by {
        assert(t[1 + x] == ta[x]);
        assert(s[i + (1 + x)] == t[1 + x]);
    }
    let close = i + 1 + la;
    assert(s[i + 0] == t[0]);
    assert(s[i + (1 + la)] == t[1 + la]);
    assert(s[i + (2 + la)] == t[2 + la]);
    lemma_no_space(s, i);
    lemma_no_space(s, close);
    lemma_no_space(s, close + 1);
    lemma_read_back(s, i + 1, a, k);
    assert(expr_at(s, i + 1, k) == Ok::<(Exp, int), ParseError>((a, close)));
    assert(primary_at(s, i, k) == Ok::<(Exp, int), ParseError>((a, close + 1)));
    assert(stars(s, close + 1, a) == stars(s, close + 2, whole));
    assert(leads_to(s, i, k, whole, close + 2));
    if quiet(s, close + 2) {
        assert(stars(s, close + 2, whole) == (whole, close + 2));
    }
}

/// The expression for an operator in front.
pub open spec fn prefixed_by(pre: Seq<u8>, a: Exp) -> Exp {
    if pre == seq![33u8] {
        complement_exp(a)
    } else if pre == seq![88u8] {
        next_exp(a)
    } else if pre == seq![88u8, 39u8] {
        weak_next_exp(a)
    } else if pre == seq![70u8] {
        finally_exp(a)
    } else {
        globally_exp(a)
    }
}

/// An operator in front of its operand is read back.
proof fn lemma_prefix_read(s: Seq<u8>, i: int, pre: Seq<u8>, a: Exp, k: u32, whole: Exp)
    requires
        pre == seq![33u8] || pre == seq![88u8] || pre == seq![88u8, 39u8] || pre == seq![70u8] || pre
            == seq![71u8],
        whole == prefixed_by(pre, a),
        decreases_to!(whole => a),
        occurs(s, i, pre + text_of(a)),
        crate::expr::fields_below(a, k as nat),
    ensures
        read_back(s, i, whole, k),
        text_of(whole) == pre + text_of(a),
    decreases whole, 0nat,
{
    let ta = text_of(a);
    let t = pre + ta;
    let n = pre.len() as int;
    assert(seq![88u8, 39u8].len() == 2);
    assert(seq![88u8][0] != seq![33u8][0]);
    assert(seq![70u8][0] != seq![33u8][0]);
    assert(seq![71u8][0] != seq![33u8][0]);
    assert(seq![70u8][0] != seq![88u8][0]);
    assert(seq![71u8][0] != seq![88u8][0]);
    assert(seq![71u8][0] != seq![70u8][0]);
    lemma_text_starts(a);
    assert forall|x: int| 0 <= x < ta.len() implies s[i + n + x] == #[trigger] ta[x] by {
        assert(t[n + x] == ta[x]);
        assert(s[i + (n + x)] == t[n + x]);
    }
    assert(s[i + 0] == t[0]);
    assert(s[i + 1] == t[1]);
    assert(t[0] == pre[0]);
    if n == 2 {
        assert(t[1] == pre[1]);
    } else {
        assert(t[1] == ta[0]);
    }
    lemma_no_space(s, i);
    lemma_read_back(s, i + n, a, k);
}

/// A binary operator between its operands in parentheses, whose text stands
/// at `i`, is read back as a primary.
#[verifier::rlimit(40)]
proof fn lemma_binary_read(s: Seq<u8>, i: int, a: Exp, op: u8, b: Exp, k: u32, whole: Exp)
    requires
        whole == binary(op, a, b),
        occurs(s, i, infix(text_of(a), op, text_of(b))),
        is_op(op),
        decreases_to!(whole => a),
        decreases_to!(whole => b),
        crate::expr::fields_below(a, k as nat),
        crate::expr::fields_below(b, k as nat),
    ensures
        primary_at(s, i, k) == Ok::<(Exp, int), ParseError>(
            (whole, i + infix(text_of(a), op, text_of(b)).len()),
        ),
    decreases whole, 0nat,
{
    let ta = text_of(a);
    let tb = text_of(b);
    let t = infix(ta, op, tb);
    let la = ta.len() as int;
    let lb = tb.len() as int;
    lemma_text_starts(a);
    lemma_text_starts(b);
    assert(s[i + 0] == t[0]);
    assert forall|x: int| 0 <= x < ta.len() implies s[i + 1 + x] == #[trigger] ta[x] by {
        assert(t[1 + x] == ta[x]);
        assert(s[i + (1 + x)] == t[1 + x]);
    }
    assert forall|x: int| 0 <= x < tb.len() implies s[i + la + 4 + x] == #[trigger] tb[x] by {
        assert(t[la + 4 + x] == tb[x]);
        assert(s[i + (la + 4 + x)] == t[la + 4 + x]);
    }
    assert(s[i + (la + 1)] == t[la + 1]);
    assert(s[i + (la + 2)] == t[la + 2]);
    assert(s[i + (la + 3)] == t[la + 3]);
    assert(s[i + (la + 4)] == t[la + 4]);
    assert(s[i + (la + 4 + lb)] == t[la + 4 + lb]);
    let gap = i + 1 + la;
    lemma_no_space(s, gap + 1);
    lemma_one_space(s, gap);
    lemma_read_back(s, i + 1, a, k);
    assert(expr_at(s, i + 1, k) == Ok::<(Exp, int), ParseError>((a, gap)));
    let second = gap + 3;
    assert(tb[0] == t[la + 4]);
    lemma_no_space(s, second);
    lemma_one_space(s, gap + 2);
    lemma_expr_at_skip(s, gap + 2, k);
    let close = second + lb;
    lemma_no_space(s, close);
    lemma_read_back(s, second, b, k);
    assert(expr_at(s, gap + 2, k) == Ok::<(Exp, int), ParseError>((b, close)));
}

/// The text of a file: the text of each expression, closed by a semicolon.
pub open spec fn file_text(list: Seq<Exp>) -> Seq<u8>
    decreases list.len(),
{
    if list.len() == 0 {
        Seq::empty()
    } else {
        text_of(list[0]) + seq![59u8] + file_text(list.skip(1))
    }
}

/// The text of a file that stands at the end of `s` is read back, behind
/// what was read before.
pub proof fn lemma_file_read(s: Seq<u8>, i: int, list: Seq<Exp>, done: Seq<Exp>, k: u32)
    requires
        0 <= i <= s.len(),
        s.skip(i) == file_text(list),
        forall|x: int| 0 <= x < list.len() ==> crate::expr::fields_below(#[trigger] list[x], k as nat),
    ensures
        file_at(s, i, k, done) == Ok::<Seq<Exp>, ParseError>(done + list),
    decreases list.len(),
{
    if list.len() == 0 {
        assert(done + list =~= done);
        assert(i == s.len());
    } else {
        let e = list[0];
        let t = text_of(e);
        let rest = list.skip(1);
        let tail = file_text(rest);
        let whole = t + seq![59u8] + tail;
        lemma_text_starts(e);
        assert(s.skip(i).len() == whole.len());
        assert forall|x: int| 0 <= x < t.len() implies s[i + x] == #[trigger] t[x] by {
            assert(s.skip(i)[x] == whole[x]);
        }
        let end = i + t.len();
        assert(s.skip(i)[t.len() as int] == whole[t.len() as int]);
        assert(s[end] == 59);
        assert(s[i] == t[0]) by {
            assert(s.skip(i)[0] == whole[0]);
        }
        lemma_no_space(s, i);
        lemma_no_space(s, end);
        lemma_read_back(s, i, e, k);
        assert forall|x: int| 0 <= x < tail.len() implies s[end + 1 + x] == #[trigger] tail[x] by {
            assert(s.skip(i)[t.len() + 1 + x] == whole[t.len() + 1 + x]);
        }
        assert(s.skip(end + 1) =~= tail);
        assert forall|x: int| 0 <= x < rest.len() implies crate::expr::fields_below(
            #[trigger] rest[x],
            k as nat,
        ) by {
            assert(rest[x] == list[x + 1]);
        }
        lemma_file_read(s, end + 1, rest, done.push(e), k);
        assert(done.push(e) + rest =~= done + list);
    }
}

/// What is written is read back: the text of a list of expressions over
/// fields below `k`, each closed by a semicolon, is read as that list.
pub proof fn lemma_written_is_read(list: Seq<Exp>, k: u32)
    requires
        forall|x: int| 0 <= x < list.len() ==> crate::expr::fields_below(#[trigger] list[x], k as nat),
    ensures
        parsed(file_text(list), k) == Ok::<Seq<Exp>, ParseError>(list),
{
    let s = file_text(list);
    assert(s.skip(0) =~= s);
    lemma_file_read(s, 0, list, Seq::empty(), k);
    assert(Seq::<Exp>::empty() + list =~= list);
}

} // verus!
