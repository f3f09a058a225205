//! The round-trip law: re-parsing the canonical token rendering of a flat
//! expression recovers the expression itself.
//!
//! Canonical rendering emits no parentheses, so only expressions whose
//! shape already respects the precedence table can round-trip: in a flat
//! expression every left operand binds at least as tightly as its operator
//! (strictly, for the right-associative power operator) and every right
//! operand strictly tighter (at least as tightly, for power).  Re-parsing
//! the flat rendering of any other expression yields a different tree —
//! the product of one and a sum, rendered without parentheses, re-parses
//! as a sum.

use crate::expr::BinOp;
use crate::expr::Expression;
use crate::parse::fuel_at;
use crate::parse::loop_fuel;
use crate::parse::mk_node;
use crate::parse::next_min;
use crate::parse::parse_expr_c;
use crate::parse::parse_loop_c;
use crate::parse::parse_term_c;
use crate::parse::prec;
use crate::parse::right_assoc;
use crate::parse::spec_parse_toks;
use crate::parse::lemma_expr_fuel;
use crate::parse::lemma_loop_fuel;
use crate::parse::lemma_term_fuel;
use crate::parse::spec_parse;
use crate::render::dec_digits;
use crate::render::lemma_dec_digits_short;
use crate::render::lemma_log10_nonneg;
use crate::render::log10_of;
use crate::render::op_chars;
use crate::render::spec_render;
use crate::token::lemma_pow10_cap;
use crate::render::render_decimal;
use crate::render::zero_pad;
use crate::token::spec_tokenize;
use crate::token::tok_cons;
use crate::render::digit_char;
use crate::token::digit_val;
use crate::token::digits_end;
use crate::token::digits_val;
use crate::token::is_digit;
use crate::token::is_letter;
use crate::token::pow10;
use crate::token::Tok;
use crate::value::Value;
use crate::value::VAL_MAX;
use vstd::prelude::*;

verus! {

/// The operator at the root, when the expression is an operator node.
pub open spec fn op_of(e: Expression) -> Option<BinOp> {
    match e {
        Expression::Value(_) => None,
        Expression::Var(_) => None,
        Expression::Or(_, _) => Some(BinOp::Or),
        Expression::And(_, _) => Some(BinOp::And),
        Expression::Eq(_, _) => Some(BinOp::Eq),
        Expression::GT(_, _) => Some(BinOp::Gt),
        Expression::LT(_, _) => Some(BinOp::Lt),
        Expression::GE(_, _) => Some(BinOp::Ge),
        Expression::LE(_, _) => Some(BinOp::Le),
        Expression::Add(_, _) => Some(BinOp::Add),
        Expression::Sub(_, _) => Some(BinOp::Sub),
        Expression::Mul(_, _) => Some(BinOp::Mul),
        Expression::Div(_, _) => Some(BinOp::Div),
        Expression::Pow(_, _) => Some(BinOp::Pow),
    }
}

/// The left operand of an operator node (the node itself for a leaf).
pub open spec fn left_of(e: Expression) -> Expression {
    match e {
        Expression::Or(x, y) => *x,
        Expression::And(x, y) => *x,
        Expression::Eq(x, y) => *x,
        Expression::GT(x, y) => *x,
        Expression::LT(x, y) => *x,
        Expression::GE(x, y) => *x,
        Expression::LE(x, y) => *x,
        Expression::Add(x, y) => *x,
        Expression::Sub(x, y) => *x,
        Expression::Mul(x, y) => *x,
        Expression::Div(x, y) => *x,
        Expression::Pow(x, y) => *x,
        _ => e,
    }
}

/// The right operand of an operator node (the node itself for a leaf).
pub open spec fn right_of(e: Expression) -> Expression {
    match e {
        Expression::Or(x, y) => *y,
        Expression::And(x, y) => *y,
        Expression::Eq(x, y) => *y,
        Expression::GT(x, y) => *y,
        Expression::LT(x, y) => *y,
        Expression::GE(x, y) => *y,
        Expression::LE(x, y) => *y,
        Expression::Add(x, y) => *y,
        Expression::Sub(x, y) => *y,
        Expression::Mul(x, y) => *y,
        Expression::Div(x, y) => *y,
        Expression::Pow(x, y) => *y,
        _ => e,
    }
}

/// The binding strength of the root: the operator's precedence for a
/// node, above every operator for a leaf.
pub open spec fn root_prec(e: Expression) -> int {
    match op_of(e) {
        Some(op) => prec(op),
        None => 5,
    }
}

/// The minimum strength a left operand of `op` must bind at: the
/// operator's own level for a left-associative operator (chains fold
/// left), strictly above it for the right-associative power.
pub open spec fn left_min(op: BinOp) -> int {
    if right_assoc(op) {
        prec(op) + 1
    } else {
        prec(op)
    }
}

/// A numeric leaf a token can carry: finite, with a magnitude the token
/// domain can negate.
pub open spec fn tok_leaf(v: Value) -> bool {
    match v {
        Value::Num { num, den } => -VAL_MAX <= num <= VAL_MAX,
        _ => false,
    }
}

/// Flat form: the canonical, parenthesis-free shape the parser can
/// reconstruct — every numeric leaf is finite, every left operand binds
/// at least at `left_min` of its operator, and every right operand at
/// least at the operator's right-hand minimum.
pub open spec fn flat(e: Expression) -> bool
    decreases e,
{
    match op_of(e) {
        None => match e {
            Expression::Value(v) => tok_leaf(v),
            _ => true,
        },
        Some(op) => flat(left_of(e)) && flat(right_of(e)) && root_prec(left_of(e)) >= left_min(op)
            && root_prec(right_of(e)) >= next_min(op) && e == mk_node(op, left_of(e), right_of(e)),
    }
}

/// The canonical token rendering of a flat expression: a finite leaf is
/// its literal token (with a sign token when negative), a variable its
/// token, and a node the renderings of its operands around its operator.
pub open spec fn toks_of(e: Expression) -> Seq<Tok>
    decreases e,
{
    match op_of(e) {
        None => match e {
            Expression::Value(v) => match v {
                Value::Num { num, den } => if num < 0 {
                    seq![
                        Tok::OpTok(BinOp::Sub),
                        Tok::Num { num: (-(num as int)) as i64, den },
                    ]
                } else {
                    seq![Tok::Num { num, den }]
                },
                _ => Seq::empty(),
            },
            Expression::Var(c) => seq![Tok::VarTok(c)],
            _ => Seq::empty(),
        },
        Some(op) => toks_of(left_of(e)) + seq![Tok::OpTok(op)] + toks_of(right_of(e)),
    }
}

/// How many nodes the expression has.
pub open spec fn size(e: Expression) -> nat
    decreases e,
{
    match op_of(e) {
        None => 1,
        Some(op) => 1 + size(left_of(e)) + size(right_of(e)),
    }
}

/// The left spine of a node, bottom first: the operators and right
/// operands the climbing loop folds, in the order it folds them.
pub open spec fn spine_of(e: Expression) -> Seq<(BinOp, Expression)>
    decreases e,
{
    match op_of(e) {
        None => Seq::empty(),
        Some(op) => spine_of(left_of(e)).push((op, right_of(e))),
    }
}

/// The leftmost leaf: what the term parser reads first.
pub open spec fn base_of(e: Expression) -> Expression
    decreases e,
{
    match op_of(e) {
        None => e,
        Some(op) => base_of(left_of(e)),
    }
}

/// Folds a spine onto a left-hand side, as the climbing loop does.
pub open spec fn fold_spine(lhs: Expression, ops: Seq<(BinOp, Expression)>, i: int) -> Expression
    decreases ops.len() - i when 0 <= i <= ops.len()
{
    if i >= ops.len() {
        lhs
    } else {
        fold_spine(mk_node(ops[i].0, lhs, ops[i].1), ops, i + 1)
    }
}

/// The tokens of a spine from entry `i` on.
pub open spec fn spine_toks(ops: Seq<(BinOp, Expression)>, i: int) -> Seq<Tok>
    decreases ops.len() - i when 0 <= i <= ops.len()
{
    if i >= ops.len() {
        Seq::empty()
    } else {
        seq![Tok::OpTok(ops[i].0)] + toks_of(ops[i].1) + spine_toks(ops, i + 1)
    }
}

/// The tokens `seg`, verbatim, at position `pos` of `toks`.
pub open spec fn toks_at(toks: Seq<Tok>, pos: int, seg: Seq<Tok>) -> bool {
    &&& 0 <= pos
    &&& pos + seg.len() <= toks.len()
    &&& forall|j: int| 0 <= j < seg.len() ==> toks[pos + j] == #[trigger] seg[j]
}

/// Nothing at `p` continues a climbing loop at minimum `min`.
pub open spec fn follow(toks: Seq<Tok>, p: int, min: int) -> bool {
    p == toks.len() || match toks[p] {
        Tok::OpTok(op) => prec(op) < min,
        _ => true,
    }
}

/// The spine of a flat node is well-shaped for a climbing loop run at any
/// minimum up to the node's own level: every entry's operator binds at
/// least at `min` and strictly below the right-hand minimum of the entry
/// before it, every right operand is flat and binds tightly enough, the
/// fold rebuilds the expression from its leftmost leaf, the tokens
/// decompose accordingly, and the base is a flat leaf.
pub proof fn lemma_spine_wf(e: Expression, min: int)
    requires
        flat(e),
        min <= root_prec(e),
    ensures
        fold_spine(base_of(e), spine_of(e), 0) == e,
        toks_of(e) =~= toks_of(base_of(e)) + spine_toks(spine_of(e), 0),
        op_of(base_of(e)) is None,
        flat(base_of(e)),
        forall|j: int|
            0 <= j < spine_of(e).len() ==> prec((#[trigger] spine_of(e)[j]).0) >= min,
        forall|j: int|
            0 <= j < spine_of(e).len() ==> flat((#[trigger] spine_of(e)[j]).1) && root_prec(
                spine_of(e)[j].1,
            ) >= next_min(spine_of(e)[j].0),
        forall|j: int|
            0 < j < spine_of(e).len() ==> prec((#[trigger] spine_of(e)[j]).0) < next_min(
                spine_of(e)[j - 1].0,
            ),
    decreases e,
{
    match op_of(e) {
        None => {
            assert(spine_toks(spine_of(e), 0) =~= Seq::<Tok>::empty());
            assert(toks_of(e) =~= toks_of(e) + Seq::<Tok>::empty());
        },
        Some(op) => {
            let l = left_of(e);
            let r = right_of(e);
            lemma_spine_wf(l, prec(op));
            let sp_l = spine_of(l);
            let sp = spine_of(e);
            assert(sp == sp_l.push((op, r)));
            lemma_fold_snoc(base_of(l), sp_l, (op, r));
            lemma_spine_toks_snoc(sp_l, (op, r));
            assert(toks_of(e) =~= toks_of(base_of(e)) + spine_toks(sp, 0));
            // the last entry's operator sits strictly below the right-hand
            // minimum of the one before it
            if sp_l.len() > 0 {
                let last = sp_l[sp_l.len() - 1];
                assert(root_prec(l) == prec(last.0)) by {
                    lemma_spine_last(l);
                }
                assert(prec(op) < next_min(last.0)) by {
                    if right_assoc(last.0) {
                        // a power node never stands as the left operand of
                        // an operator at or above its own level
                        assert(root_prec(l) >= left_min(op));
                    }
                }
            }
        },
    }
}

/// The root operator of a node is the last entry of its spine.
proof fn lemma_spine_last(e: Expression)
    requires
        op_of(e) is Some,
    ensures
        spine_of(e).len() >= 1,
        spine_of(e).last().0 == op_of(e)->Some_0,
        spine_of(e).last().1 == right_of(e),
{
}

/// Folding a spine extended by one more entry folds that entry last.
proof fn lemma_fold_snoc(lhs: Expression, ops: Seq<(BinOp, Expression)>, x: (BinOp, Expression))
    ensures
        fold_spine(lhs, ops.push(x), 0) == mk_node(x.0, fold_spine(lhs, ops, 0), x.1),
    decreases ops.len(),
{
    lemma_fold_snoc_at(lhs, ops, x, 0);
}

/// Folding from `i` commutes with appending one entry.
proof fn lemma_fold_snoc_at(
    lhs: Expression,
    ops: Seq<(BinOp, Expression)>,
    x: (BinOp, Expression),
    i: int,
)
    requires
        0 <= i <= ops.len(),
    ensures
        fold_spine(lhs, ops.push(x), i) == mk_node(x.0, fold_spine(lhs, ops, i), x.1),
    decreases ops.len() - i,
{
    assert(ops.push(x).len() == ops.len() + 1);
    if i >= ops.len() {
        assert(ops.push(x)[i] == x);
        assert(fold_spine(lhs, ops.push(x), i) == fold_spine(mk_node(x.0, lhs, x.1), ops.push(x), i + 1));
    } else {
        assert(ops.push(x)[i] == ops[i]);
        lemma_fold_snoc_at(mk_node(ops[i].0, lhs, ops[i].1), ops, x, i + 1);
    }
}

/// The tokens of a spine extended by one entry end with that entry's
/// tokens.
proof fn lemma_spine_toks_snoc(ops: Seq<(BinOp, Expression)>, x: (BinOp, Expression))
    ensures
        spine_toks(ops.push(x), 0) =~= spine_toks(ops, 0) + (seq![Tok::OpTok(x.0)] + toks_of(x.1)),
    decreases ops.len(),
{
    lemma_spine_toks_snoc_at(ops, x, 0);
}

/// The same, from entry `i` on.
proof fn lemma_spine_toks_snoc_at(ops: Seq<(BinOp, Expression)>, x: (BinOp, Expression), i: int)
    requires
        0 <= i <= ops.len(),
    ensures
        spine_toks(ops.push(x), i) =~= spine_toks(ops, i) + (seq![Tok::OpTok(x.0)] + toks_of(x.1)),
    decreases ops.len() - i,
{
    if i >= ops.len() {
        assert(ops.push(x)[i] == x);
        assert(spine_toks(ops.push(x), i + 1) =~= Seq::<Tok>::empty());
    } else {
        assert(ops.push(x)[i] == ops[i]);
        lemma_spine_toks_snoc_at(ops, x, i + 1);
    }
}

/// The loop measure of a spine from entry `i`: the sizes of the right
/// operands still to fold, plus one per entry.
pub open spec fn spine_msize(ops: Seq<(BinOp, Expression)>, i: int) -> nat
    decreases ops.len() - i when 0 <= i <= ops.len()
{
    if i >= ops.len() {
        0
    } else {
        size(ops[i].1) + 1 + spine_msize(ops, i + 1)
    }
}

/// Appending a spine entry grows the measure by that entry's share.
proof fn lemma_spine_msize_snoc(ops: Seq<(BinOp, Expression)>, x: (BinOp, Expression), i: int)
    requires
        0 <= i <= ops.len(),
    ensures
        spine_msize(ops.push(x), i) == spine_msize(ops, i) + size(x.1) + 1,
    decreases ops.len() - i,
{
    if i >= ops.len() {
        assert(ops.push(x)[i] == x);
        assert(spine_msize(ops.push(x), i + 1) == 0);
    } else {
        assert(ops.push(x)[i] == ops[i]);
        lemma_spine_msize_snoc(ops, x, i + 1);
    }
}

/// An expression is exactly its base plus its spine, by size.
proof fn lemma_spine_size(e: Expression)
    ensures
        size(e) == size(base_of(e)) + spine_msize(spine_of(e), 0),
        size(base_of(e)) >= 1,
    decreases e,
{
    match op_of(e) {
        None => {},
        Some(op) => {
            lemma_spine_size(left_of(e));
            lemma_spine_msize_snoc(spine_of(left_of(e)), (op, right_of(e)), 0);
        },
    }
}

/// The term parser reads back a flat leaf.
proof fn lemma_term_flat(e: Expression, toks: Seq<Tok>, pos: int)
    requires
        flat(e),
        op_of(e) is None,
        toks_at(toks, pos, toks_of(e)),
    ensures
        parse_term_c(toks, pos) == Some((e, pos + toks_of(e).len())),
{
    match e {
        Expression::Var(c) => {
            assert(toks[pos + 0] == toks_of(e)[0]);
            assert(toks[pos] == Tok::VarTok(c));
        },
        Expression::Value(v) => {
            match v {
                Value::Num { num, den } => {
                    if num < 0 {
                        assert(toks[pos + 0] == toks_of(e)[0]);
                        assert(toks[pos + 1] == toks_of(e)[1]);
                        assert(toks[pos] == Tok::OpTok(BinOp::Sub));
                        let mag = (-(num as int)) as i64;
                        assert(toks[pos + 1] == (Tok::Num { num: mag, den }));
                        assert((-(mag as int)) as i64 == num);
                    } else {
                        assert(toks[pos + 0] == toks_of(e)[0]);
                        assert(toks[pos] == (Tok::Num { num, den }));
                    }
                },
                _ => {},
            }
        },
        _ => {},
    }
}

/// The climbing loop folds back a well-shaped spine onto its left-hand
/// side.
proof fn lemma_loop_flat(
    ops: Seq<(BinOp, Expression)>,
    i: int,
    lhs: Expression,
    toks: Seq<Tok>,
    pos: int,
    min: int,
)
    requires
        0 <= i <= ops.len(),
        toks_at(toks, pos, spine_toks(ops, i)),
        follow(toks, pos + spine_toks(ops, i).len(), min),
        forall|j: int|
            i <= j < ops.len() ==> prec((#[trigger] ops[j]).0) >= min,
        forall|j: int|
            i <= j < ops.len() ==> flat((#[trigger] ops[j]).1) && root_prec(ops[j].1) >= next_min(
                ops[j].0,
            ),
        forall|j: int|
            i < j < ops.len() ==> prec((#[trigger] ops[j]).0) < next_min(ops[j - 1].0),
    ensures
        parse_loop_c(toks, lhs, pos, min) == Some(
            (fold_spine(lhs, ops, i), pos + spine_toks(ops, i).len()),
        ),
    decreases spine_msize(ops, i), 0nat,
{
    if i >= ops.len() {
        // nothing left to fold: the loop stops on the follow token
    } else {
        let op = ops[i].0;
        let r = ops[i].1;
        let seg = spine_toks(ops, i);
        let r_toks = toks_of(r);
        let rest = spine_toks(ops, i + 1);
        assert(seg =~= seq![Tok::OpTok(op)] + r_toks + rest);
        assert(toks[pos + 0] == seg[0]);
        assert(toks[pos] == Tok::OpTok(op));
        // the right operand's tokens sit just after the operator
        assert(toks_at(toks, pos + 1, r_toks)) by {
            assert forall|j: int| 0 <= j < r_toks.len() implies toks[pos + 1 + j] == #[trigger] r_toks[j] by {
                assert(seg[1 + j] == r_toks[j]);
                assert(toks[pos + (1 + j)] == seg[1 + j]);
            }
        }
        let pos2 = pos + 1 + r_toks.len();
        // the rest of the spine follows the right operand
        assert(toks_at(toks, pos2, rest)) by {
            assert forall|j: int| 0 <= j < rest.len() implies toks[pos2 + j] == #[trigger] rest[j] by {
                assert(seg[1 + r_toks.len() + j] == rest[j]);
                assert(toks[pos + (1 + r_toks.len() + j)] == seg[1 + r_toks.len() + j]);
            }
        }
        // the right operand's parse stops where the rest of the spine (or
        // the host's follow token) begins
        assert(follow(toks, pos2, next_min(op))) by {
            if i + 1 < ops.len() {
                assert(rest[0] == Tok::OpTok(ops[i + 1].0));
                assert(toks[pos2 + 0] == rest[0]);
            } else {
                assert(pos2 == pos + seg.len());
            }
        }
        lemma_expr_flat(r, toks, pos + 1, next_min(op));
        // bridge the budgets of the canonical unfolding
        lemma_expr_fuel(toks, pos + 1, next_min(op), (loop_fuel(toks, pos) - 1) as nat);
        let node = mk_node(op, lhs, r);
        lemma_loop_fuel(toks, node, pos2, min, (loop_fuel(toks, pos) - 1) as nat);
        lemma_loop_flat(ops, i + 1, node, toks, pos2, min);
    }
}

/// The expression parser reads back any flat expression whose root binds
/// at least at `min`, stopping exactly at the follow token.
proof fn lemma_expr_flat(e: Expression, toks: Seq<Tok>, pos: int, min: int)
    requires
        flat(e),
        min <= root_prec(e),
        toks_at(toks, pos, toks_of(e)),
        follow(toks, pos + toks_of(e).len(), min),
    ensures
        parse_expr_c(toks, pos, min) == Some((e, pos + toks_of(e).len())),
    decreases size(e), 1nat,
{
    lemma_spine_wf(e, min);
    lemma_spine_size(e);
    let base = base_of(e);
    let b_toks = toks_of(base);
    let sp = spine_of(e);
    assert(toks_at(toks, pos, b_toks)) by {
        assert forall|j: int| 0 <= j < b_toks.len() implies toks[pos + j] == #[trigger] b_toks[j] by {
            assert(toks_of(e)[j] == b_toks[j]);
        }
    }
    lemma_term_flat(base, toks, pos);
    let posm = pos + b_toks.len();
    assert(toks_at(toks, posm, spine_toks(sp, 0))) by {
        assert forall|j: int| 0 <= j < spine_toks(sp, 0).len() implies toks[posm + j]
            == #[trigger] spine_toks(sp, 0)[j] by {
            assert(toks_of(e)[b_toks.len() + j] == spine_toks(sp, 0)[j]);
            assert(toks[pos + (b_toks.len() + j)] == toks_of(e)[b_toks.len() + j]);
        }
    }
    assert(spine_msize(sp, 0) < size(e));
    lemma_loop_flat(sp, 0, base, toks, posm, min);
    lemma_term_fuel(toks, pos, (fuel_at(toks, pos) - 1) as nat);
    lemma_loop_fuel(toks, base, posm, min, (fuel_at(toks, pos) - 1) as nat);
}

/// Law: re-parsing the canonical token rendering of a flat expression
/// recovers exactly the expression, so evaluating the re-parse under any
/// context gives the same result as evaluating the expression directly.
/// Flat form is the shape canonical rendering preserves: rendering emits
/// no parentheses, so an expression that needs them — the product of one
/// and a sum, say — re-parses as a different tree and is excluded.
pub proof fn lemma_parse_round_trip(e: Expression)
    requires
        flat(e),
    ensures
        spec_parse_toks(toks_of(e)) == Some(e),
{
    let toks = toks_of(e);
    assert(toks_at(toks, 0, toks)) by {
        assert forall|j: int| 0 <= j < toks.len() implies toks[0 + j] == #[trigger] toks[j] by {}
    }
    lemma_expr_flat(e, toks, 0, 0);
}

/// The characters `seg`, verbatim, at position `pos` of `s`.
pub open spec fn chars_at(s: Seq<char>, pos: int, seg: Seq<char>) -> bool {
    &&& 0 <= pos
    &&& pos + seg.len() <= s.len()
    &&& forall|j: int| 0 <= j < seg.len() ==> s[pos + j] == #[trigger] seg[j]
}

/// A digit character carries its digit back.
proof fn lemma_digit_char_val(d: int)
    requires
        0 <= d <= 9,
    ensures
        is_digit(digit_char(d)),
        digit_val(digit_char(d)) == d,
{
    assert(is_digit(digit_char(d)) && digit_val(digit_char(d)) == d) by {
        if d == 0 {
            assert(digit_char(0) == '0');
        } else if d == 1 {
            assert(digit_char(1) == '1');
        } else if d == 2 {
            assert(digit_char(2) == '2');
        } else if d == 3 {
            assert(digit_char(3) == '3');
        } else if d == 4 {
            assert(digit_char(4) == '4');
        } else if d == 5 {
            assert(digit_char(5) == '5');
        } else if d == 6 {
            assert(digit_char(6) == '6');
        } else if d == 7 {
            assert(digit_char(7) == '7');
        } else if d == 8 {
            assert(digit_char(8) == '8');
        } else {
            assert(digit_char(9) == '9');
        }
    }
}

/// Every character of a decimal rendering is a digit.
proof fn lemma_dec_digits_are_digits(n: int)
    requires
        n >= 0,
    ensures
        forall|j: int| 0 <= j < dec_digits(n).len() ==> is_digit(#[trigger] dec_digits(n)[j]),
    decreases n,
{
    if n < 10 {
        lemma_digit_char_val(n);
    } else {
        lemma_dec_digits_are_digits(n / 10);
        lemma_digit_char_val(n % 10);
        let head = dec_digits(n / 10);
        assert forall|j: int| 0 <= j < dec_digits(n).len() implies is_digit(
            #[trigger] dec_digits(n)[j],
        ) by {
            if j < head.len() {
                assert(dec_digits(n)[j] == head[j]);
            } else {
                assert(dec_digits(n)[j] == digit_char(n % 10));
            }
        }
    }
}

/// A digit run's value depends only on the characters in it.
proof fn lemma_digits_val_congruent(s1: Seq<char>, pos1: int, s2: Seq<char>, pos2: int, len: int)
    requires
        0 <= len,
        forall|j: int| 0 <= j < len ==> s1[pos1 + j] == #[trigger] s2[pos2 + j],
    ensures
        digits_val(s1, pos1, pos1 + len) == digits_val(s2, pos2, pos2 + len),
    decreases len,
{
    if len > 0 {
        lemma_digits_val_congruent(s1, pos1, s2, pos2, len - 1);
        assert(s1[pos1 + (len - 1)] == s2[pos2 + (len - 1)]);
    }
}

/// A digit run splits at any midpoint, scaling the head by the tail's
/// width.
proof fn lemma_digits_val_split(s: Seq<char>, pos: int, mid: int, end: int)
    requires
        pos <= mid <= end,
    ensures
        digits_val(s, pos, end) == digits_val(s, pos, mid) * pow10(end - mid) + digits_val(
            s,
            mid,
            end,
        ),
    decreases end - mid,
{
    if mid == end {
        assert(pow10(0) == 1) by {
            vstd::arithmetic::power::lemma_pow0(10);
        }
        assert(digits_val(s, pos, mid) * 1 == digits_val(s, pos, mid)) by (nonlinear_arith);
    } else {
        lemma_digits_val_split(s, pos, mid, end - 1);
        let a = digits_val(s, pos, mid);
        let b = digits_val(s, mid, end - 1);
        let p = pow10(end - 1 - mid);
        let d = digit_val(s[end - 1]);
        assert(pow10(end - mid) == 10 * p) by {
            reveal(vstd::arithmetic::power::pow);
        }
        assert((a * p + b) * 10 + d == a * (10 * p) + (b * 10 + d)) by (nonlinear_arith);
    }
}

/// The decimal rendering of `n` reads back as `n`.
proof fn lemma_digits_val_of(n: int, s: Seq<char>, pos: int)
    requires
        n >= 0,
        chars_at(s, pos, dec_digits(n)),
    ensures
        digits_val(s, pos, pos + dec_digits(n).len()) == n,
        forall|j: int| pos <= j < pos + dec_digits(n).len() ==> is_digit(#[trigger] s[j]),
    decreases n,
{
    lemma_dec_digits_are_digits(n);
    let ds = dec_digits(n);
    assert forall|j: int| pos <= j < pos + ds.len() implies is_digit(#[trigger] s[j]) by {
        assert(s[pos + (j - pos)] == ds[j - pos]);
    }
    if n < 10 {
        lemma_digit_char_val(n);
        assert(s[pos + 0] == ds[0]);
        assert(digits_val(s, pos, pos) == 0);
        assert(digits_val(s, pos, pos + 1) == digits_val(s, pos, pos) * 10 + digit_val(s[pos]));
        assert(0 * 10 + n == n) by (nonlinear_arith);
    } else {
        let head = dec_digits(n / 10);
        assert(ds =~= head + seq![digit_char(n % 10)]);
        assert(chars_at(s, pos, head)) by {
            assert forall|j: int| 0 <= j < head.len() implies s[pos + j] == #[trigger] head[j] by {
                assert(ds[j] == head[j]);
            }
        }
        lemma_digits_val_of(n / 10, s, pos);
        lemma_digit_char_val(n % 10);
        assert(s[pos + (ds.len() - 1)] == ds[ds.len() - 1]);
        assert(digits_val(s, pos, pos + ds.len()) == digits_val(s, pos, pos + ds.len() - 1) * 10
            + digit_val(s[pos + ds.len() - 1]));
    }
}

/// A run of zero digits reads back as zero.
proof fn lemma_digits_val_zeros(s: Seq<char>, pos: int, end: int)
    requires
        pos <= end,
        forall|j: int| pos <= j < end ==> s[j] == '0',
    ensures
        digits_val(s, pos, end) == 0,
        forall|j: int| pos <= j < end ==> is_digit(#[trigger] s[j]),
    decreases end - pos,
{
    lemma_digit_char_val(0);
    if pos < end {
        lemma_digits_val_zeros(s, pos, end - 1);
        assert(digit_val('0') == 0);
    }
}

/// The digit scan stops exactly at the first non-digit (or the end).
proof fn lemma_digits_end_is(s: Seq<char>, pos: int, q: int)
    requires
        0 <= pos <= q <= s.len(),
        forall|j: int| pos <= j < q ==> is_digit(#[trigger] s[j]),
        q < s.len() ==> !is_digit(s[q]),
    ensures
        digits_end(s, pos) == q,
    decreases q - pos,
{
    if pos < q {
        lemma_digits_end_is(s, pos + 1, q);
    }
}

/// Prepends already-lexed tokens to the tokenization of the rest.
pub open spec fn lex_prepend(pre: Seq<Tok>, o: Option<Seq<Tok>>) -> Option<Seq<Tok>> {
    match o {
        None => None,
        Some(ts) => Some(pre + ts),
    }
}

/// A character that ends a number: anything that cannot extend a literal.
pub open spec fn ends_number(s: Seq<char>, p: int) -> bool {
    p == s.len() || (!is_digit(s[p]) && s[p] != '.')
}

/// Lexing a rendered decimal literal yields exactly its literal token.
proof fn lemma_lex_number(mag: int, k: int, s: Seq<char>, pos: int)
    requires
        0 <= mag,
        0 <= k <= 17,
        dec_digits(mag).len() <= 18,
        chars_at(s, pos, render_decimal(mag, k)),
        ends_number(s, pos + render_decimal(mag, k).len()),
    ensures
        spec_tokenize(s, pos) == lex_prepend(
            seq![Tok::Num { num: mag as i64, den: pow10(k) as i64 }],
            spec_tokenize(s, pos + render_decimal(mag, k).len()),
        ),
    decreases 0nat,
{
    let ds = dec_digits(mag);
    let padded = zero_pad(ds, k + 1);
    let plen = padded.len() as int;
    let cut = plen - k;
    let rend = render_decimal(mag, k);
    lemma_dec_digits_are_digits(mag);
    lemma_digit_char_val(0);
    // the padded digit string reads back as the magnitude
    assert(forall|j: int| 0 <= j < plen ==> is_digit(#[trigger] padded[j])) by {
        if ds.len() < k + 1 {
            assert(forall|j: int|
                0 <= j < plen ==> #[trigger] padded[j] == (if j < plen - ds.len() {
                    '0'
                } else {
                    ds[j - (plen - ds.len())]
                }));
        }
    }
    assert(digits_val(padded, 0, plen) == mag) by {
        if ds.len() >= k + 1 {
            assert(padded == ds);
            assert(chars_at(padded, 0, ds)) by {
                assert(forall|j: int| 0 <= j < ds.len() ==> padded[0 + j] == #[trigger] ds[j]);
            }
            lemma_digits_val_of(mag, padded, 0);
        } else {
            let z = plen - ds.len();
            lemma_digits_val_zeros(padded, 0, z);
            assert(chars_at(padded, z, ds)) by {
                assert(forall|j: int| 0 <= j < ds.len() ==> padded[z + j] == #[trigger] ds[j]);
            }
            lemma_digits_val_of(mag, padded, z);
            lemma_digits_val_split(padded, 0, z, plen);
            assert(0 * pow10(plen - z) + mag == mag) by (nonlinear_arith);
        }
    }
    if k == 0 {
        assert(rend == padded);
        let end = pos + plen;
        assert forall|j: int| pos <= j < end implies is_digit(#[trigger] s[j]) by {
            assert(s[pos + (j - pos)] == rend[j - pos]);
        }
        lemma_digits_end_is(s, pos, end);
        assert(is_digit(s[pos])) by {
            assert(s[pos + 0] == rend[0]);
        }
        lemma_digits_val_congruent(s, pos, padded, 0, plen);
        assert(pow10(0) == 1) by {
            vstd::arithmetic::power::lemma_pow0(10);
        }
    } else {
        let end = pos + plen + 1;
        let ie = pos + cut;
        // integer digits, the point, fraction digits
        assert forall|j: int| pos <= j < ie implies is_digit(#[trigger] s[j]) && s[j] == padded[j
            - pos] by {
            assert(s[pos + (j - pos)] == rend[j - pos]);
            assert(rend[j - pos] == padded.take(cut)[j - pos]);
            assert(padded.take(cut)[j - pos] == padded[j - pos]);
        }
        assert(s[ie] == '.') by {
            assert(s[pos + cut] == rend[cut]);
        }
        assert forall|j: int|
            ie + 1 <= j < end implies is_digit(#[trigger] s[j]) && s[j] == padded[j - pos - 1] by {
            assert(s[pos + (j - pos)] == rend[j - pos]);
            assert(rend[j - pos] == padded.skip(cut)[j - pos - cut - 1]);
            assert(padded.skip(cut)[j - pos - cut - 1] == padded[j - pos - 1]);
        }
        lemma_digits_end_is(s, pos, ie);
        lemma_digits_end_is(s, ie + 1, end);
        assert(is_digit(s[pos]));
        assert(is_digit(s[ie + 1]));
        // the two digit runs joined at the point read back as the magnitude
        lemma_digits_val_congruent(s, pos, padded, 0, cut);
        lemma_digits_val_congruent(s, ie + 1, padded, cut, k);
        lemma_digits_val_split(padded, 0, cut, plen);
        assert(digits_val(s, pos, ie) * pow10(k) + digits_val(s, ie + 1, end) == mag);
    }
}

/// Every numeric leaf is in literal shape: a power-of-ten denominator of
/// at most seventeen fractional digits and a magnitude of at most eighteen
/// digits — exactly what a decimal literal of the grammar can carry.
pub open spec fn literal_leaves(e: Expression) -> bool
    decreases e,
{
    match op_of(e) {
        None => match e {
            Expression::Value(v) => match v {
                Value::Num { num, den } => {
                    let k = log10_of(den as int);
                    &&& 1 <= den
                    &&& pow10(k) == den as int
                    &&& k <= 17
                    &&& -1000000000000000000 < num < 1000000000000000000
                },
                _ => false,
            },
            Expression::Var(c) => is_letter(c),
            _ => true,
        },
        Some(op) => literal_leaves(left_of(e)) && literal_leaves(right_of(e)),
    }
}

/// A position where lexing an expression may stop: the end of the text or
/// an operator character.
pub open spec fn lex_stop(s: Seq<char>, p: int) -> bool {
    p == s.len() || s[p] == '|' || s[p] == '&' || s[p] == '=' || s[p] == '>' || s[p] == '<' || s[p]
        == '+' || s[p] == '-' || s[p] == '*' || s[p] == '/' || s[p] == '^'
}

/// The rendering of a flat, literal-leaved expression is nonempty and
/// opens with a digit, a letter, or a minus sign.
proof fn lemma_render_first(e: Expression)
    requires
        flat(e),
        literal_leaves(e),
    ensures
        spec_render(e).len() >= 1,
        is_digit(spec_render(e)[0]) || is_letter(spec_render(e)[0]) || spec_render(e)[0] == '-',
    decreases e,
{
    match op_of(e) {
        None => {
            match e {
                Expression::Value(v) => {
                    match v {
                        Value::Num { num, den } => {
                            let k = log10_of(den as int);
                            lemma_log10_nonneg(den as int);
                            let mag = if num < 0 {
                                -(num as int)
                            } else {
                                num as int
                            };
                            lemma_dec_digits_are_digits(mag);
                            lemma_digit_char_val(0);
                            let ds = dec_digits(mag);
                            let padded = zero_pad(ds, k + 1);
                            let rend = render_decimal(mag, k);
                            assert(is_digit(padded[0])) by {
                                if ds.len() < k + 1 {
                                } else {
                                    assert(padded[0] == ds[0]);
                                }
                            }
                            assert(is_digit(rend[0])) by {
                                if k == 0 {
                                } else {
                                    assert(rend[0] == padded.take(padded.len() - k)[0]);
                                }
                            }
                        },
                        _ => {},
                    }
                },
                _ => {},
            }
        },
        Some(op) => {
            lemma_render_first(left_of(e));
            assert(spec_render(e)[0] == spec_render(left_of(e))[0]);
        },
    }
}

/// Lexing the canonical rendering of a flat, literal-leaved expression
/// yields exactly its token rendering, whatever follows.
#[verifier::rlimit(100)]
proof fn lemma_lex_flat(e: Expression, s: Seq<char>, pos: int)
    requires
        flat(e),
        literal_leaves(e),
        chars_at(s, pos, spec_render(e)),
        lex_stop(s, pos + spec_render(e).len()),
    ensures
        spec_tokenize(s, pos) == lex_prepend(
            toks_of(e),
            spec_tokenize(s, pos + spec_render(e).len()),
        ),
    decreases e,
{
    let rend = spec_render(e);
    let end = pos + rend.len();
    match op_of(e) {
        None => {
            match e {
                Expression::Var(c) => {
                    assert(s[pos + 0] == rend[0]);
                    assert(spec_tokenize(s, pos) == tok_cons(
                        Tok::VarTok(c),
                        spec_tokenize(s, pos + 1),
                    ));
                },
                Expression::Value(v) => {
                    match v {
                        Value::Num { num, den } => {
                            let k = log10_of(den as int);
                            lemma_log10_nonneg(den as int);
                            let mag = if num < 0 {
                                -(num as int)
                            } else {
                                num as int
                            };
                            assert(dec_digits(mag).len() <= 18) by {
                                lemma_pow10_cap();
                                lemma_dec_digits_short(mag, 18);
                            }
                            if num >= 0 {
                                lemma_lex_number(mag, k, s, pos);
                                assert(mag as i64 == num);
                                assert(pow10(k) as i64 == den);
                            } else {
                                assert(s[pos + 0] == rend[0]);
                                assert(s[pos] == '-');
                                assert(chars_at(s, pos + 1, render_decimal(mag, k))) by {
                                    assert forall|j: int|
                                        0 <= j < render_decimal(mag, k).len() implies s[pos + 1 + j]
                                        == #[trigger] render_decimal(mag, k)[j] by {
                                        assert(s[pos + (1 + j)] == rend[1 + j]);
                                        assert(rend[1 + j] == render_decimal(mag, k)[j]);
                                    }
                                }
                                lemma_lex_number(mag, k, s, pos + 1);
                                assert(pow10(k) as i64 == den);
                                let x = spec_tokenize(s, end);
                                match x {
                                    None => {},
                                    Some(ts) => {
                                        assert(seq![Tok::OpTok(BinOp::Sub)] + (seq![
                                            Tok::Num { num: mag as i64, den },
                                        ] + ts) =~= toks_of(e) + ts);
                                    },
                                }
                            }
                        },
                        _ => {},
                    }
                },
                _ => {},
            }
        },
        Some(op) => {
            let l = left_of(e);
            let r = right_of(e);
            let lr = spec_render(l);
            let oc = op_chars(op);
            let rr = spec_render(r);
            assert(rend =~= lr + oc + rr);
            let mid = pos + lr.len();
            let mid2 = mid + oc.len();
            lemma_render_first(r);
            assert(chars_at(s, pos, lr)) by {
                assert forall|j: int| 0 <= j < lr.len() implies s[pos + j] == #[trigger] lr[j] by {
                    assert(s[pos + j] == rend[j]);
                    assert(rend[j] == lr[j]);
                }
            }
            assert(chars_at(s, mid2, rr)) by {
                assert forall|j: int| 0 <= j < rr.len() implies s[mid2 + j] == #[trigger] rr[j] by {
                    assert(s[pos + (lr.len() + oc.len() + j)] == rend[lr.len() as int + oc.len() as int + j]);
                    assert(rend[lr.len() + oc.len() + j] == rr[j]);
                }
            }
            assert(s[mid + 0] == rend[lr.len() as int]);
            assert(s[mid] == oc[0]);
            if oc.len() == 2 {
                assert(s[mid + 1] == rend[lr.len() as int + 1]);
                assert(s[mid + 1] == oc[1]);
            }
            assert(s[mid2 + 0] == rr[0]);
            lemma_lex_flat(l, s, pos);
            lemma_lex_flat(r, s, mid2);
            // the operator's characters lex to exactly its token: a
            // two-character operator supplies its own second character, and
            // after a one-character comparison the next character opens the
            // right operand, so it is never the equals sign
            assert(spec_tokenize(s, mid) == tok_cons(Tok::OpTok(op), spec_tokenize(s, mid2)));
            let x = spec_tokenize(s, end);
            match x {
                None => {},
                Some(ts) => {
                    assert(lr + oc + rr =~= rend);
                    assert(toks_of(l) + (seq![Tok::OpTok(op)] + (toks_of(r) + ts)) =~= toks_of(e)
                        + ts);
                },
            }
        },
    }
}

/// Law: re-parsing the canonical textual rendering of a flat,
/// literal-leaved expression recovers exactly the expression, so
/// evaluating the re-parse under any context yields the same result as
/// evaluating the expression directly.  Rendering emits no parentheses,
/// so an expression that needs them — the product of one and a sum, say —
/// re-parses as a different tree and is excluded, as is a numeric leaf
/// that no decimal literal of the grammar can spell.
pub proof fn lemma_render_parse_round_trip(e: Expression)
    requires
        flat(e),
        literal_leaves(e),
    ensures
        spec_parse(spec_render(e)) == Some(e),
{
    let rend = spec_render(e);
    assert(chars_at(rend, 0, rend)) by {
        assert forall|j: int| 0 <= j < rend.len() implies rend[0 + j] == #[trigger] rend[j] by {}
    }
    lemma_lex_flat(e, rend, 0);
    assert(spec_tokenize(rend, rend.len() as int) == Some(Seq::<Tok>::empty()));
    assert(toks_of(e) + Seq::<Tok>::empty() =~= toks_of(e));
    lemma_parse_round_trip(e);
}

} // verus!
