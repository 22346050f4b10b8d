//! Equations with the operators left out: which of them come out right
//! for some choice of operators, applied from left to right.
use vstd::prelude::*;
use itertools::Itertools;
use crate::counting::{lemma_sum_grows, sum_below};
use crate::error::PuzzleError;
use crate::text::{
    chars_of, copy_range, find_char, find_from, lines, number64, parse_u64, rows, split_lines,
    split_words, words,
};

verus! {

/// An equation: what it is to come out as, and the numbers that stand in it.
#[derive(Debug, PartialEq, Eq)]
pub struct Equation {
    pub target: u64,
    pub operands: Vec<u64>,
}

/// An operator between two numbers.
#[derive(Debug, Clone, Copy, PartialEq, Eq, Structural)]
pub enum Operator {
    Add,
    Multiply,
    Concat,
}

/// The smallest power of ten, from ten on, that is greater than `x`.
pub open spec fn ten_above(x: int) -> int
    decreases x,
{
    if x < 10 {
        10
    } else {
        10 * ten_above(x / 10)
    }
}

/// What an operator makes of two numbers: their sum, their product, or
/// the number whose digits are those of the first followed by those of
/// the second.
pub open spec fn applied(a: int, b: int, op: Operator) -> int {
    match op {
        Operator::Add => a + b,
        Operator::Multiply => a * b,
        Operator::Concat => ten_above(b) * a + b,
    }
}

/// What the first number of an equation becomes when the first `n`
/// operators of a choice are applied to it and the numbers after it, from
/// left to right.
pub open spec fn value(operands: Seq<u64>, choice: Seq<Operator>, n: int) -> int
    decreases n,
{
    if n <= 0 {
        operands[0] as int
    } else {
        applied(value(operands, choice, n - 1), operands[n] as int, choice[n - 1])
    }
}

/// Whether `choice` puts one of the operators between any two numbers of
/// an equation that stand side by side.
pub open spec fn fills(choice: Seq<Operator>, operands: Seq<u64>, operators: Seq<Operator>) -> bool {
    &&& choice.len() == operands.len() - 1
    &&& forall|i: int| 0 <= i < choice.len() ==> operators.contains(#[trigger] choice[i])
}

/// Whether an equation comes out right for some choice of operators.
pub open spec fn solvable(target: u64, operands: Seq<u64>, operators: Seq<Operator>) -> bool {
    operands.len() >= 1 && exists|choice: Seq<Operator>| #[trigger]
        fills(choice, operands, operators) && value(operands, choice, choice.len() as int)
            == target
}

/// The power of ten above a number is at least ten.
proof fn lemma_ten_above(x: int)
    requires
        0 <= x,
    ensures
        ten_above(x) >= 10,
        ten_above(x) > x,
    decreases x,
{
    if x >= 10 {
        lemma_ten_above(x / 10);
    }
}

/// What an operator makes of two numbers.
pub fn apply(in1: u64, in2: u64, operator: Operator) -> (r: u64)
    requires
        applied(in1 as int, in2 as int, operator) <= u64::MAX,
    ensures
        r == applied(in1 as int, in2 as int, operator),
{
    proof {
        lemma_ten_above(in2 as int);
    }
    match step(Some(in1), in2, operator, Ghost(in1 as int)) {
        Some(v) => v,
        None => 0,
    }
}

/// The smallest power of ten, from ten on, that is greater than a number.
fn power_above(x: u64) -> (r: u128)
    ensures
        r == ten_above(x as int),
        r <= 0x10_0000_0000_0000_0000,
{
    let mut p: u128 = 10;
    let mut rest: u64 = x;
    while rest >= 10
        invariant
            10 <= p,
            p * ten_above(rest as int) == 10 * ten_above(x as int),
            p * rest <= 10 * x,
            p <= 0x10_0000_0000_0000_0000,
        decreases rest,
    {
        proof {
            let r = rest as int;
            assert(p * (10 * ten_above(r / 10)) == (p * 10) * ten_above(r / 10))
                by (nonlinear_arith);
            assert((p * 10) * (r / 10) <= p * r) by (nonlinear_arith)
                requires
                    p >= 0,
                    r >= 0,
            ;
            lemma_ten_above(r / 10);
            assert(p * 10 <= 0x10_0000_0000_0000_0000) by (nonlinear_arith)
                requires
                    p * r <= 10 * x,
                    r >= 10,
                    x <= 0xffff_ffff_ffff_ffff,
                    p >= 10,
            ;
        }
        p = p * 10;
        rest = rest / 10;
    }
    assert(p * 10 == 10 * ten_above(x as int));
    p
}

/// What a partial result may be: a number, or `None` for a number that
/// is too large for 64 bits.
pub open spec fn clipped(v: int) -> Option<u64> {
    if v <= u64::MAX {
        Some(v as u64)
    } else {
        None
    }
}

/// Applies an operator to a partial result and the next number.
fn step(acc: Option<u64>, next: u64, operator: Operator, Ghost(v): Ghost<int>) -> (r: Option<u64>)
    requires
        0 <= v,
        acc == clipped(v),
    ensures
        r == clipped(applied(v, next as int, operator)),
{
    proof {
        lemma_ten_above(next as int);
        if next >= 1 {
            assert(v * next >= v) by (nonlinear_arith)
                requires
                    v >= 0,
                    next >= 1,
            ;
        } else {
            assert(v * next == 0) by (nonlinear_arith)
                requires
                    next == 0,
            ;
        }
        assert(ten_above(next as int) * v >= v) by (nonlinear_arith)
            requires
                v >= 0,
                ten_above(next as int) >= 10,
        ;
        assert(v == 0 ==> ten_above(next as int) * v == 0) by (nonlinear_arith);
    }
    match operator {
        Operator::Add => match acc {
            Some(a) => if a <= u64::MAX - next {
                Some(a + next)
            } else {
                None
            },
            None => None,
        },
        Operator::Multiply => match acc {
            Some(a) => {
                assert(a * next <= 0xffff_ffff_ffff_ffff * 0xffff_ffff_ffff_ffff)
                    by (nonlinear_arith)
                    requires
                        0 <= a <= 0xffff_ffff_ffff_ffff,
                        0 <= next <= 0xffff_ffff_ffff_ffff,
                ;
                let wide: u128 = (a as u128) * (next as u128);
                if wide <= 0xffff_ffff_ffff_ffff {
                    Some(wide as u64)
                } else {
                    None
                }
            },
            None => if next == 0 {
                Some(0)
            } else {
                None
            },
        },
        Operator::Concat => match acc {
            Some(a) => {
                let p = power_above(next);
                if a == 0 {
                    Some(next)
                } else if p > 0xffff_ffff_ffff_ffff {
                    assert(p * a >= p) by (nonlinear_arith)
                        requires
                            a >= 1,
                            p >= 0,
                    ;
                    None
                } else {
                    assert(p * a <= 0xffff_ffff_ffff_ffff * 0xffff_ffff_ffff_ffff)
                        by (nonlinear_arith)
                        requires
                            0 <= a <= 0xffff_ffff_ffff_ffff,
                            0 <= p <= 0xffff_ffff_ffff_ffff,
                    ;
                    let wide: u128 = p * (a as u128) + (next as u128);
                    if wide <= 0xffff_ffff_ffff_ffff {
                        Some(wide as u64)
                    } else {
                        None
                    }
                }
            },
            None => None,
        },
    }
}

/// Every partial result is a number that is not negative.
proof fn lemma_value_sign(operands: Seq<u64>, choice: Seq<Operator>, n: int)
    ensures
        value(operands, choice, n) >= 0,
    decreases n,
{
    if n > 0 {
        lemma_value_sign(operands, choice, n - 1);
        lemma_ten_above(operands[n] as int);
        let v = value(operands, choice, n - 1);
        let b = operands[n] as int;
        assert(v * b >= 0) by (nonlinear_arith)
            requires
                v >= 0,
                b >= 0,
        ;
        assert(ten_above(b) * v >= 0) by (nonlinear_arith)
            requires
                v >= 0,
                ten_above(b) >= 0,
        ;
    }
}

/// What an equation becomes for a choice of operators, applied from left
/// to right: `None` when the result is too large for 64 bits.
pub fn solve_equation(equation: &Equation, operators: &Vec<Operator>) -> (r: Option<u64>)
    requires
        equation.operands.len() >= 1,
        operators.len() == equation.operands.len() - 1,
    ensures
        r == clipped(value(equation.operands@, operators@, operators.len() as int)),
{
    let mut acc: Option<u64> = Some(equation.operands[0]);
    let mut n: usize = 0;
    while n < operators.len()
        invariant
            n <= operators.len(),
            operators.len() == equation.operands.len() - 1,
            acc == clipped(value(equation.operands@, operators@, n as int)),
        decreases operators.len() - n,
    {
        proof {
            lemma_value_sign(equation.operands@, operators@, n as int);
        }
        acc = step(
            acc,
            equation.operands[n + 1],
            operators[n],
            Ghost(value(equation.operands@, operators@, n as int)),
        );
        n += 1;
    }
    acc
}

/// Whether a list of choices offers a choice.
pub open spec fn offered(out: Seq<Vec<Operator>>, choice: Seq<Operator>) -> bool {
    exists|c: int| 0 <= c < out.len() && (#[trigger] out[c])@ == choice
}

/// Whether every item of a choice is one of the operators, and the choice
/// has a given length.
pub open spec fn made_from(choice: Seq<Operator>, operators: Seq<Operator>, count: int) -> bool {
    &&& choice.len() == count
    &&& forall|i: int| 0 <= i < choice.len() ==> operators.contains(#[trigger] choice[i])
}

/// `Itertools::multi_cartesian_product` on `count` copies of a list of
/// operators: the ways of choosing one of the operators `count` times.
/// Every choice that is handed out is such a way, and every such way is
/// handed out.
#[verifier::external_body]
fn choices(operators: &Vec<Operator>, count: usize) -> (out: Vec<Vec<Operator>>)
    ensures
        forall|c: int| 0 <= c < out.len() ==> made_from((#[trigger] out[c])@, operators@, count as int),
        forall|choice: Seq<Operator>|
            #[trigger] made_from(choice, operators@, count as int) ==> offered(out@, choice),
{
    (0..count).map(|_| operators.iter().copied()).multi_cartesian_product().collect()
}

/// Whether an equation comes out right for some choice of the operators.
pub fn is_solvable(equation: &Equation, operators: &Vec<Operator>) -> (r: bool)
    ensures
        r == solvable(equation.target, equation.operands@, operators@),
{
    if equation.operands.len() == 0 {
        return false;
    }
    let all = choices(operators, equation.operands.len() - 1);
    let mut c: usize = 0;
    while c < all.len()
        invariant
            c <= all.len(),
            equation.operands.len() >= 1,
            forall|k: int|
                0 <= k < all.len() ==> made_from(
                    (#[trigger] all[k])@,
                    operators@,
                    equation.operands.len() - 1,
                ),
            forall|k: int|
                0 <= k < c ==> value(
                    equation.operands@,
                    (#[trigger] all[k])@,
                    equation.operands.len() - 1,
                ) != equation.target,
        decreases all.len() - c,
    {
        assert(made_from(all[c as int]@, operators@, equation.operands.len() - 1));
        match solve_equation(equation, &all[c]) {
            Some(v) => {
                if v == equation.target {
                    assert(fills(all[c as int]@, equation.operands@, operators@));
                    proof {
                        lemma_value_sign(
                            equation.operands@,
                            all[c as int]@,
                            all[c as int]@.len() as int,
                        );
                    }
                    assert(value(equation.operands@, all[c as int]@, all[c as int]@.len() as int)
                        == equation.target);
                    return true;
                }
            },
            None => {},
        }
        c += 1;
    }
    proof {
        assert forall|choice: Seq<Operator>| #[trigger]
            fills(choice, equation.operands@, operators@) implies value(
            equation.operands@,
            choice,
            choice.len() as int,
        ) != equation.target by {
            assert(made_from(choice, operators@, equation.operands.len() - 1));
            assert(offered(all@, choice));
            let k = choose|k: int| 0 <= k < all.len() && (#[trigger] all[k])@ == choice;
            lemma_value_sign(equation.operands@, choice, choice.len() as int);
        }
    }
    false
}

/// The equation that a line such as `190: 10 19` states: what it is to
/// come out as, a colon, and its numbers.
pub open spec fn equation_of(line: Seq<char>) -> Option<(u64, Seq<u64>)> {
    let colon = find_char(line, ':', 0);
    let w = words(line.skip(colon + 1));
    if colon < line.len() && number64(line.take(colon)) is Some && forall|j: int|
        0 <= j < w.len() ==> number64(#[trigger] w[j]) is Some {
        Some((number64(line.take(colon)).unwrap(), Seq::new(w.len(), |j: int| number64(w[j]).unwrap())))
    } else {
        None
    }
}

/// Whether every line of a text states an equation.
pub open spec fn well_formed(text: Seq<char>) -> bool {
    forall|i: int| 0 <= i < lines(text).len() ==> equation_of(#[trigger] lines(text)[i]) is Some
}

/// Whether a list of equations is what the lines of a text state.
pub open spec fn reads_as(equations: Seq<Equation>, text: Seq<char>) -> bool {
    &&& equations.len() == lines(text).len()
    &&& forall|i: int|
        0 <= i < equations.len() ==> equation_of(#[trigger] lines(text)[i]) == Some(
            (equations[i].target, equations[i].operands@),
        )
}

/// Reads the equation that a line states.
fn parse_equation(line: &Vec<char>) -> (r: Option<Equation>)
    ensures
        match r {
            Some(e) => equation_of(line@) == Some((e.target, e.operands@)),
            None => equation_of(line@) is None,
        },
{
    let colon = find_from(line, ':', 0);
    if colon >= line.len() {
        return None;
    }
    let left = copy_range(line, 0, colon);
    let right = copy_range(line, colon + 1, line.len());
    assert(left@ =~= line@.take(colon as int));
    assert(right@ =~= line@.skip(colon + 1));
    let target = match parse_u64(&left) {
        Some(t) => t,
        None => {
            return None;
        },
    };
    let w = split_words(&right);
    let mut operands: Vec<u64> = Vec::new();
    let mut j: usize = 0;
    while j < w.len()
        invariant
            j <= w.len(),
            rows(w@) == words(right@),
            right@ == line@.skip(colon + 1),
            colon == find_char(line@, ':', 0),
            operands.len() == j,
            forall|k: int| 0 <= k < j ==> number64(#[trigger] words(right@)[k]) == Some(operands[k]),
        decreases w.len() - j,
    {
        assert(words(right@)[j as int] == w[j as int]@);
        match parse_u64(&w[j]) {
            Some(x) => {
                operands.push(x);
            },
            None => {
                assert(number64(words(line@.skip(colon + 1))[j as int]) is None);
                return None;
            },
        }
        j += 1;
    }
    assert(operands@ =~= equation_of(line@).unwrap().1);
    Some(Equation { target, operands })
}

/// Reads one equation per line. Fails when a line is not a number, a
/// colon and numbers.
pub fn parse(input: &str) -> (r: Result<Vec<Equation>, PuzzleError>)
    ensures
        match r {
            Ok(equations) => well_formed(input@) && reads_as(equations@, input@),
            Err(e) => e == PuzzleError::MalformedInput && !well_formed(input@),
        },
{
    let text = chars_of(input);
    let all = split_lines(&text);
    assert(rows(all@).len() == all.len());
    let mut out: Vec<Equation> = Vec::new();
    let mut i: usize = 0;
    while i < all.len()
        invariant
            i <= all.len(),
            rows(all@) == lines(input@),
            all.len() == lines(input@).len(),
            out.len() == i,
            forall|k: int|
                0 <= k < i ==> equation_of(#[trigger] lines(input@)[k]) == Some(
                    (out[k].target, out[k].operands@),
                ),
        decreases all.len() - i,
    {
        assert(lines(input@)[i as int] == all[i as int]@);
        match parse_equation(&all[i]) {
            Some(e) => {
                out.push(e);
            },
            None => {
                return Err(PuzzleError::MalformedInput);
            },
        }
        i += 1;
    }
    Ok(out)
}

/// What the `i`-th equation adds to the sum: what it is to come out as,
/// if it comes out right for some choice of the operators.
pub open spec fn worth(equations: Seq<Equation>, operators: Seq<Operator>) -> spec_fn(int) -> int {
    |i: int|
        if solvable(equations[i].target, equations[i].operands@, operators) {
            equations[i].target as int
        } else {
            0
        }
}

/// The sum of what the equations are to come out as, over those that
/// come out right for some choice of the operators.
pub fn sum_solvable(equations: &Vec<Equation>, operators: &Vec<Operator>) -> (r: u64)
    requires
        sum_below(equations.len() as int, worth(equations@, operators@)) <= u64::MAX,
    ensures
        r == sum_below(equations.len() as int, worth(equations@, operators@)),
{
    let mut total: u64 = 0;
    let mut i: usize = 0;
    while i < equations.len()
        invariant
            i <= equations.len(),
            sum_below(equations.len() as int, worth(equations@, operators@)) <= u64::MAX,
            total == sum_below(i as int, worth(equations@, operators@)),
        decreases equations.len() - i,
    {
        proof {
            assert forall|k: int| 0 <= k < equations.len() implies 0 <= #[trigger] worth(
                equations@,
                operators@,
            )(k) by {}
            lemma_sum_grows(i + 1, equations.len() as int, worth(equations@, operators@));
        }
        if is_solvable(&equations[i], operators) {
            total += equations[i].target;
        }
        i += 1;
    }
    total
}

/// The operators of the first answer: sum and product.
pub open spec fn plain() -> Seq<Operator> {
    seq![Operator::Add, Operator::Multiply]
}

/// The operators of the second answer: sum, product and joining of digits.
pub open spec fn joining() -> Seq<Operator> {
    seq![Operator::Add, Operator::Multiply, Operator::Concat]
}

/// The sum over the equations that come out right with sums and products.
pub fn solve_1(equations: &Vec<Equation>) -> (r: u64)
    requires
        sum_below(equations.len() as int, worth(equations@, plain())) <= u64::MAX,
    ensures
        r == sum_below(equations.len() as int, worth(equations@, plain())),
{
    let mut operators: Vec<Operator> = Vec::new();
    operators.push(Operator::Add);
    operators.push(Operator::Multiply);
    assert(operators@ =~= plain());
    sum_solvable(equations, &operators)
}

/// The sum over the equations that come out right with sums, products
/// and joining of digits.
pub fn solve_2(equations: &Vec<Equation>) -> (r: u64)
    requires
        sum_below(equations.len() as int, worth(equations@, joining())) <= u64::MAX,
    ensures
        r == sum_below(equations.len() as int, worth(equations@, joining())),
{
    let mut operators: Vec<Operator> = Vec::new();
    operators.push(Operator::Add);
    operators.push(Operator::Multiply);
    operators.push(Operator::Concat);
    assert(operators@ =~= joining());
    sum_solvable(equations, &operators)
}

/// Both answers for equations given as text. Fails when a line is not a
/// number, a colon and numbers.
pub fn solve(input: &str) -> (r: Result<(u64, u64), PuzzleError>)
    requires
        forall|equations: Seq<Equation>| #[trigger]
            reads_as(equations, input@) ==> sum_below(
                equations.len() as int,
                worth(equations, joining()),
            ) <= u64::MAX && sum_below(equations.len() as int, worth(equations, plain()))
                <= u64::MAX,
    ensures
        match r {
            Ok((first, second)) => {
                &&& well_formed(input@)
                &&& exists|equations: Seq<Equation>| #[trigger]
                    reads_as(equations, input@) && first == sum_below(
                        equations.len() as int,
                        worth(equations, plain()),
                    ) && second == sum_below(equations.len() as int, worth(equations, joining()))
            },
            Err(e) => e == PuzzleError::MalformedInput && !well_formed(input@),
        },
{
    let equations = match parse(input) {
        Ok(e) => e,
        Err(e) => {
            return Err(e);
        },
    };
    assert(reads_as(equations@, input@));
    let first = solve_1(&equations);
    let second = solve_2(&equations);
    Ok((first, second))
}

} // verus!
