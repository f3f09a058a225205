//! The expression parser: precedence climbing over the token stream.
//!
//! Precedence, lowest to highest: `{||, &&}` below the comparisons, below
//! `{+, -}`, below `{*, /}`, below `^`; all operators associate to the
//! left except `^`, which associates to the right.  A term is an unsigned
//! number, a number with a leading minus sign, a variable, or a
//! parenthesized expression.
//!
//! The specification-level parser carries an explicit recursion budget
//! (`fuel`); three budget units per remaining token plus a small constant
//! always suffice, and the result is the same under any sufficient budget,
//! so the budget is an artifact of the definition, not of the grammar.

use crate::expr::BinOp;
use crate::expr::Expression;
use crate::token::spec_tokenize;
use crate::token::tokenize;
use crate::token::wf_toks;
use crate::token::Tok;
use crate::value::Value;
use vstd::prelude::*;

verus! {

/// Parse failure: the text does not conform to the expression grammar (or
/// holds a numeric literal of more than eighteen digits).
#[derive(Clone, Copy, Debug, PartialEq, Eq, Structural)]
pub struct SyntaxError {}

/// The precedence level of an operator.
pub open spec fn prec(op: BinOp) -> int {
    match op {
        BinOp::Or => 0,
        BinOp::And => 0,
        BinOp::Eq => 1,
        BinOp::Gt => 1,
        BinOp::Lt => 1,
        BinOp::Ge => 1,
        BinOp::Le => 1,
        BinOp::Add => 2,
        BinOp::Sub => 2,
        BinOp::Mul => 3,
        BinOp::Div => 3,
        BinOp::Pow => 4,
    }
}

/// Only the power operator associates to the right.
pub open spec fn right_assoc(op: BinOp) -> bool {
    op is Pow
}

/// The minimum precedence for the right-hand side of `op`: the same level
/// for a right-associative operator, one higher for a left-associative
/// one.
pub open spec fn next_min(op: BinOp) -> int {
    if right_assoc(op) {
        prec(op)
    } else {
        prec(op) + 1
    }
}

/// The expression node one operator builds.
pub open spec fn mk_node(op: BinOp, a: Expression, b: Expression) -> Expression {
    match op {
        BinOp::Or => Expression::Or(Box::new(a), Box::new(b)),
        BinOp::And => Expression::And(Box::new(a), Box::new(b)),
        BinOp::Eq => Expression::Eq(Box::new(a), Box::new(b)),
        BinOp::Gt => Expression::GT(Box::new(a), Box::new(b)),
        BinOp::Lt => Expression::LT(Box::new(a), Box::new(b)),
        BinOp::Ge => Expression::GE(Box::new(a), Box::new(b)),
        BinOp::Le => Expression::LE(Box::new(a), Box::new(b)),
        BinOp::Add => Expression::Add(Box::new(a), Box::new(b)),
        BinOp::Sub => Expression::Sub(Box::new(a), Box::new(b)),
        BinOp::Mul => Expression::Mul(Box::new(a), Box::new(b)),
        BinOp::Div => Expression::Div(Box::new(a), Box::new(b)),
        BinOp::Pow => Expression::Pow(Box::new(a), Box::new(b)),
    }
}

/// One term: a number, a minus sign followed by a number, a variable, or a
/// parenthesized expression.  Returns the term and the position after it.
pub open spec fn parse_term_f(toks: Seq<Tok>, pos: int, fuel: nat) -> Option<(Expression, int)>
    decreases fuel,
{
    if fuel == 0 {
        None
    } else if !(0 <= pos < toks.len()) {
        None
    } else {
        match toks[pos] {
            Tok::Num { num, den } => Some((Expression::Value(Value::Num { num, den }), pos + 1)),
            Tok::VarTok(c) => Some((Expression::Var(c), pos + 1)),
            Tok::OpTok(op) => if op is Sub && pos + 1 < toks.len() {
                match toks[pos + 1] {
                    Tok::Num { num, den } => Some(
                        (Expression::Value(Value::Num { num: (-(num as int)) as i64, den }), pos + 2),
                    ),
                    _ => None,
                }
            } else {
                None
            },
            Tok::LPar => match parse_expr_f(toks, pos + 1, 0, (fuel - 1) as nat) {
                Some((e, p2)) => if 0 <= p2 < toks.len() && toks[p2] is RPar {
                    Some((e, p2 + 1))
                } else {
                    None
                },
                None => None,
            },
            Tok::RPar => None,
        }
    }
}

/// The climbing loop: while the next token is an operator of precedence at
/// least `min`, parse its right-hand side at the operator's minimum and
/// fold it into the left-hand side.
pub open spec fn parse_loop_f(
    toks: Seq<Tok>,
    lhs: Expression,
    pos: int,
    min: int,
    fuel: nat,
) -> Option<(Expression, int)>
    decreases fuel,
{
    if fuel == 0 {
        None
    } else if 0 <= pos < toks.len() {
        match toks[pos] {
            Tok::OpTok(op) => if prec(op) >= min {
                match parse_expr_f(toks, pos + 1, next_min(op), (fuel - 1) as nat) {
                    Some((rhs, p2)) => parse_loop_f(
                        toks,
                        mk_node(op, lhs, rhs),
                        p2,
                        min,
                        (fuel - 1) as nat,
                    ),
                    None => None,
                }
            } else {
                Some((lhs, pos))
            },
            _ => Some((lhs, pos)),
        }
    } else {
        Some((lhs, pos))
    }
}

/// An expression at minimum precedence `min`: a term, then the climbing
/// loop.
pub open spec fn parse_expr_f(toks: Seq<Tok>, pos: int, min: int, fuel: nat) -> Option<
    (Expression, int),
>
    decreases fuel,
{
    if fuel == 0 {
        None
    } else {
        match parse_term_f(toks, pos, (fuel - 1) as nat) {
            Some((lhs, p1)) => parse_loop_f(toks, lhs, p1, min, (fuel - 1) as nat),
            None => None,
        }
    }
}

/// A sufficient recursion budget for a term at position `pos`.
pub open spec fn term_fuel(toks: Seq<Tok>, pos: int) -> nat {
    (3 * (toks.len() - pos) + 1) as nat
}

/// A sufficient recursion budget for the climbing loop at position `pos`.
pub open spec fn loop_fuel(toks: Seq<Tok>, pos: int) -> nat {
    (3 * (toks.len() - pos) + 2) as nat
}

/// A sufficient recursion budget for an expression at position `pos`.
pub open spec fn fuel_at(toks: Seq<Tok>, pos: int) -> nat {
    (3 * (toks.len() - pos) + 3) as nat
}

/// The term parse, under any sufficient budget.
pub open spec fn parse_term_c(toks: Seq<Tok>, pos: int) -> Option<(Expression, int)> {
    parse_term_f(toks, pos, term_fuel(toks, pos))
}

/// The climbing loop, under any sufficient budget.
pub open spec fn parse_loop_c(toks: Seq<Tok>, lhs: Expression, pos: int, min: int) -> Option<
    (Expression, int),
> {
    parse_loop_f(toks, lhs, pos, min, loop_fuel(toks, pos))
}

/// The expression parse, under any sufficient budget.
pub open spec fn parse_expr_c(toks: Seq<Tok>, pos: int, min: int) -> Option<(Expression, int)> {
    parse_expr_f(toks, pos, min, fuel_at(toks, pos))
}

/// What parsing a whole token stream yields: a full expression at minimum
/// precedence zero, consuming every token.
pub open spec fn spec_parse_toks(toks: Seq<Tok>) -> Option<Expression> {
    match parse_expr_c(toks, 0, 0) {
        Some((e, p)) => if p == toks.len() {
            Some(e)
        } else {
            None
        },
        None => None,
    }
}

/// What parsing a text yields: its tokenization, parsed completely.
pub open spec fn spec_parse(text: Seq<char>) -> Option<Expression> {
    match spec_tokenize(text, 0) {
        None => None,
        Some(toks) => spec_parse_toks(toks),
    }
}

/// The precedence level of an operator; see `prec`.
fn prec_of(op: BinOp) -> (p: i64)
    ensures
        p == prec(op),
{
    match op {
        BinOp::Or => 0,
        BinOp::And => 0,
        BinOp::Eq => 1,
        BinOp::Gt => 1,
        BinOp::Lt => 1,
        BinOp::Ge => 1,
        BinOp::Le => 1,
        BinOp::Add => 2,
        BinOp::Sub => 2,
        BinOp::Mul => 3,
        BinOp::Div => 3,
        BinOp::Pow => 4,
    }
}

/// The right-hand-side minimum precedence of an operator; see `next_min`.
fn next_min_of(op: BinOp) -> (p: i64)
    ensures
        p == next_min(op),
{
    match op {
        BinOp::Pow => 4,
        _ => prec_of(op) + 1,
    }
}

/// Builds the node of one operator; see `mk_node`.
fn node_of(op: BinOp, a: Expression, b: Expression) -> (r: Expression)
    ensures
        r == mk_node(op, a, b),
        a.wf() && b.wf() ==> r.wf(),
{
    match op {
        BinOp::Or => Expression::Or(Box::new(a), Box::new(b)),
        BinOp::And => Expression::And(Box::new(a), Box::new(b)),
        BinOp::Eq => Expression::Eq(Box::new(a), Box::new(b)),
        BinOp::Gt => Expression::GT(Box::new(a), Box::new(b)),
        BinOp::Lt => Expression::LT(Box::new(a), Box::new(b)),
        BinOp::Ge => Expression::GE(Box::new(a), Box::new(b)),
        BinOp::Le => Expression::LE(Box::new(a), Box::new(b)),
        BinOp::Add => Expression::Add(Box::new(a), Box::new(b)),
        BinOp::Sub => Expression::Sub(Box::new(a), Box::new(b)),
        BinOp::Mul => Expression::Mul(Box::new(a), Box::new(b)),
        BinOp::Div => Expression::Div(Box::new(a), Box::new(b)),
        BinOp::Pow => Expression::Pow(Box::new(a), Box::new(b)),
    }
}

/// Parses one term; see `parse_term_c`.
fn parse_term(toks: &Vec<Tok>, pos: usize) -> (r: Option<(Expression, usize)>)
    requires
        pos <= toks@.len(),
        wf_toks(toks@),
    ensures
        match r {
            None => parse_term_c(toks@, pos as int) is None,
            Some((e, p)) => parse_term_c(toks@, pos as int) == Some((e, p as int)) && pos < p
                <= toks@.len() && e.wf(),
        },
    decreases toks@.len() - pos, 0int,
{
    if pos >= toks.len() {
        return None;
    }
    match toks[pos] {
        Tok::Num { num, den } => Some((Expression::Value(Value::Num { num, den }), pos + 1)),
        Tok::VarTok(c) => Some((Expression::Var(c), pos + 1)),
        Tok::OpTok(op) => {
            if op == BinOp::Sub && pos + 1 < toks.len() {
                match toks[pos + 1] {
                    Tok::Num { num, den } => Some(
                        (Expression::Value(Value::Num { num: -num, den }), pos + 2),
                    ),
                    _ => None,
                }
            } else {
                None
            }
        },
        Tok::LPar => {
            proof {
                assert(term_fuel(toks@, pos as int) - 1 == fuel_at(toks@, pos as int + 1));
            }
            match parse_expr(toks, pos + 1, 0) {
                Some((e, p2)) => {
                    if p2 < toks.len() && toks[p2] == Tok::RPar {
                        Some((e, p2 + 1))
                    } else {
                        None
                    }
                },
                None => None,
            }
        },
        Tok::RPar => None,
    }
}

/// The climbing loop; see `parse_loop_c`.
fn parse_loop(toks: &Vec<Tok>, lhs: Expression, pos: usize, min: i64) -> (r: Option<
    (Expression, usize),
>)
    requires
        pos <= toks@.len(),
        wf_toks(toks@),
        lhs.wf(),
    ensures
        match r {
            None => parse_loop_c(toks@, lhs, pos as int, min as int) is None,
            Some((e, p)) => parse_loop_c(toks@, lhs, pos as int, min as int) == Some(
                (e, p as int),
            ) && pos <= p <= toks@.len() && e.wf(),
        },
    decreases toks@.len() - pos, 1int,
{
    if pos >= toks.len() {
        return Some((lhs, pos));
    }
    match toks[pos] {
        Tok::OpTok(op) => {
            if prec_of(op) >= min {
                proof {
                    lemma_expr_fuel(
                        toks@,
                        pos as int + 1,
                        next_min(op),
                        (loop_fuel(toks@, pos as int) - 1) as nat,
                    );
                }
                match parse_expr(toks, pos + 1, next_min_of(op)) {
                    Some((rhs, p2)) => {
                        let node = node_of(op, lhs, rhs);
                        proof {
                            lemma_loop_fuel(
                                toks@,
                                mk_node(op, lhs, rhs),
                                p2 as int,
                                min as int,
                                (loop_fuel(toks@, pos as int) - 1) as nat,
                            );
                        }
                        parse_loop(toks, node, p2, min)
                    },
                    None => None,
                }
            } else {
                Some((lhs, pos))
            }
        },
        _ => Some((lhs, pos)),
    }
}

/// Parses an expression at minimum precedence `min`; see `parse_expr_c`.
fn parse_expr(toks: &Vec<Tok>, pos: usize, min: i64) -> (r: Option<(Expression, usize)>)
    requires
        pos <= toks@.len(),
        wf_toks(toks@),
    ensures
        match r {
            None => parse_expr_c(toks@, pos as int, min as int) is None,
            Some((e, p)) => parse_expr_c(toks@, pos as int, min as int) == Some((e, p as int))
                && pos < p <= toks@.len() && e.wf(),
        },
    decreases toks@.len() - pos, 2int,
{
    proof {
        lemma_term_fuel(toks@, pos as int, (fuel_at(toks@, pos as int) - 1) as nat);
    }
    match parse_term(toks, pos) {
        Some((lhs, p1)) => {
            proof {
                lemma_loop_fuel(
                    toks@,
                    lhs,
                    p1 as int,
                    min as int,
                    (fuel_at(toks@, pos as int) - 1) as nat,
                );
            }
            parse_loop(toks, lhs, p1, min)
        },
        None => None,
    }
}

/// Relies on std's `str::chars`: the characters of the text, in order —
/// exactly the view Verus gives a string slice.
#[verifier::external_body]
pub(crate) fn chars_of_str(text: &str) -> (v: Vec<char>)
    ensures
        v@ == text@,
{
    text.chars().collect()
}

impl Expression {
    /// Parses an expression from its textual form; see `spec_parse`.
    /// Succeeds exactly on texts that conform to the grammar — numbers
    /// (decimal literals of at most eighteen digits, optionally with a
    /// leading minus sign in term position), single-letter variables,
    /// the binary operators at their precedences, parentheses and blanks —
    /// with nothing left over.
    pub fn parse(text: &str) -> (r: Result<Expression, SyntaxError>)
        ensures
            match r {
                Ok(e) => spec_parse(text@) == Some(e) && e.wf(),
                Err(_) => spec_parse(text@) is None,
            },
    {
        let chars = chars_of_str(text);
        let toks = match tokenize(&chars) {
            Some(t) => t,
            None => {
                return Err(SyntaxError {  });
            },
        };
        match parse_expr(&toks, 0, 0) {
            Some((e, p)) => {
                if p == toks.len() {
                    Ok(e)
                } else {
                    Err(SyntaxError {  })
                }
            },
            None => Err(SyntaxError {  }),
        }
    }
}

impl core::str::FromStr for Expression {
    type Err = SyntaxError;

    /// Parsing via the standard conversion trait; `parse` carries the
    /// contract.
    fn from_str(s: &str) -> Result<Expression, SyntaxError> {
        Expression::parse(s)
    }
}

/// Budget irrelevance and progress for the term parser: under any budget
/// of at least `term_fuel`, the result equals the canonical parse, stays
/// inside the stream, and consumes at least one token.
pub proof fn lemma_term_fuel(toks: Seq<Tok>, pos: int, fuel: nat)
    requires
        0 <= pos <= toks.len(),
        fuel >= term_fuel(toks, pos),
    ensures
        parse_term_f(toks, pos, fuel) == parse_term_c(toks, pos),
        parse_term_f(toks, pos, fuel) matches Some(r) ==> pos < r.1 <= toks.len(),
    decreases toks.len() - pos, fuel,
{
    if 0 <= pos < toks.len() && toks[pos] is LPar {
        lemma_expr_fuel(toks, pos + 1, 0, (fuel - 1) as nat);
    }
}

/// Budget irrelevance and progress for the climbing loop.
pub proof fn lemma_loop_fuel(toks: Seq<Tok>, lhs: Expression, pos: int, min: int, fuel: nat)
    requires
        0 <= pos <= toks.len(),
        fuel >= loop_fuel(toks, pos),
    ensures
        parse_loop_f(toks, lhs, pos, min, fuel) == parse_loop_c(toks, lhs, pos, min),
        parse_loop_f(toks, lhs, pos, min, fuel) matches Some(r) ==> pos <= r.1 <= toks.len(),
    decreases toks.len() - pos, fuel,
{
    if 0 <= pos < toks.len() {
        match toks[pos] {
            Tok::OpTok(op) => if prec(op) >= min {
                lemma_expr_fuel(toks, pos + 1, next_min(op), (fuel - 1) as nat);
                lemma_expr_fuel(toks, pos + 1, next_min(op), (loop_fuel(toks, pos) - 1) as nat);
                match parse_expr_f(toks, pos + 1, next_min(op), (fuel - 1) as nat) {
                    Some((rhs, p2)) => {
                        lemma_loop_fuel(toks, mk_node(op, lhs, rhs), p2, min, (fuel - 1) as nat);
                        lemma_loop_fuel(
                            toks,
                            mk_node(op, lhs, rhs),
                            p2,
                            min,
                            (loop_fuel(toks, pos) - 1) as nat,
                        );
                    },
                    None => {},
                }
            },
            _ => {},
        }
    }
}

/// Budget irrelevance and progress for the expression parser.
pub proof fn lemma_expr_fuel(toks: Seq<Tok>, pos: int, min: int, fuel: nat)
    requires
        0 <= pos <= toks.len(),
        fuel >= fuel_at(toks, pos),
    ensures
        parse_expr_f(toks, pos, min, fuel) == parse_expr_c(toks, pos, min),
        parse_expr_f(toks, pos, min, fuel) matches Some(r) ==> pos < r.1 <= toks.len(),
    decreases toks.len() - pos, fuel,
{
    lemma_term_fuel(toks, pos, (fuel - 1) as nat);
    lemma_term_fuel(toks, pos, (fuel_at(toks, pos) - 1) as nat);
    match parse_term_f(toks, pos, (fuel - 1) as nat) {
        Some((lhs, p1)) => {
            lemma_loop_fuel(toks, lhs, p1, min, (fuel - 1) as nat);
            lemma_loop_fuel(toks, lhs, p1, min, (fuel_at(toks, pos) - 1) as nat);
        },
        None => {},
    }
}

} // verus!
