//! Canonical text rendering: the exact inverse images the parser accepts.
//!
//! A finite value whose denominator is a power of ten is rendered as a
//! plain decimal literal (a minus sign, the integer digits, and the
//! fractional digits when there are any); any other finite value is shown
//! as `numerator/denominator`, a diagnostic form.  An expression is
//! rendered as its operands joined by the operator symbols, with no
//! parentheses — the canonical flat form.

use crate::expr::BinOp;
use crate::expr::Expression;
use crate::token::pow10;
use crate::value::Value;
use vstd::arithmetic::power::pow;
use vstd::prelude::*;

verus! {

/// The digit character of `n`.
pub open spec fn digit_char(n: int) -> char {
    ((48 + n) as u8) as char
}

/// The decimal digits of `n`, most significant first.
pub open spec fn dec_digits(n: int) -> Seq<char>
    decreases n when n >= 0
{
    if n < 10 {
        seq![digit_char(n)]
    } else {
        dec_digits(n / 10) + seq![digit_char(n % 10)]
    }
}

/// `s` left-padded with zero digits to at least `w` characters.
pub open spec fn zero_pad(s: Seq<char>, w: int) -> Seq<char> {
    if s.len() >= w {
        s
    } else {
        Seq::new((w - s.len()) as nat, |i: int| '0') + s
    }
}

/// The decimal rendering of the non-negative value `num / 10^k`: the
/// digits of `num`, padded to at least `k + 1`, with a point before the
/// last `k` of them when `k` is positive.
pub open spec fn render_decimal(num: int, k: int) -> Seq<char> {
    let ds = zero_pad(dec_digits(num), k + 1);
    if k == 0 {
        ds
    } else {
        ds.take(ds.len() - k) + seq!['.'] + ds.skip(ds.len() - k)
    }
}

/// The number of decimal digits of `d`, minus one.
pub open spec fn log10_of(d: int) -> int
    decreases d when d >= 1
{
    if d < 10 {
        0
    } else {
        1 + log10_of(d / 10)
    }
}

/// The canonical text of a value: a decimal literal when the denominator
/// is a power of ten, the diagnostic `num/den` fraction otherwise, and the
/// words `inf`, `-inf` and `NaN` for the special values.
pub open spec fn spec_render_value(v: Value) -> Seq<char> {
    match v {
        Value::Num { num, den } => {
            let k = log10_of(den as int);
            let mag = if num < 0 {
                -(num as int)
            } else {
                num as int
            };
            let body = if pow10(k) == den as int {
                render_decimal(mag, k)
            } else {
                dec_digits(mag) + seq!['/'] + dec_digits(den as int)
            };
            if num < 0 {
                seq!['-'] + body
            } else {
                body
            }
        },
        Value::PosInf => seq!['i', 'n', 'f'],
        Value::NegInf => seq!['-', 'i', 'n', 'f'],
        Value::NaN => seq!['N', 'a', 'N'],
    }
}

/// The symbol of an operator.
pub open spec fn op_chars(op: BinOp) -> Seq<char> {
    match op {
        BinOp::Or => seq!['|', '|'],
        BinOp::And => seq!['&', '&'],
        BinOp::Eq => seq!['=', '='],
        BinOp::Gt => seq!['>'],
        BinOp::Lt => seq!['<'],
        BinOp::Ge => seq!['>', '='],
        BinOp::Le => seq!['<', '='],
        BinOp::Add => seq!['+'],
        BinOp::Sub => seq!['-'],
        BinOp::Mul => seq!['*'],
        BinOp::Div => seq!['/'],
        BinOp::Pow => seq!['^'],
    }
}

/// The canonical flat text of an expression: operands joined by operator
/// symbols, no parentheses.
pub open spec fn spec_render(e: Expression) -> Seq<char>
    decreases e,
{
    match e {
        Expression::Value(v) => spec_render_value(v),
        Expression::Var(c) => seq![c],
        Expression::Or(x, y) => spec_render(*x) + op_chars(BinOp::Or) + spec_render(*y),
        Expression::And(x, y) => spec_render(*x) + op_chars(BinOp::And) + spec_render(*y),
        Expression::Eq(x, y) => spec_render(*x) + op_chars(BinOp::Eq) + spec_render(*y),
        Expression::GT(x, y) => spec_render(*x) + op_chars(BinOp::Gt) + spec_render(*y),
        Expression::LT(x, y) => spec_render(*x) + op_chars(BinOp::Lt) + spec_render(*y),
        Expression::GE(x, y) => spec_render(*x) + op_chars(BinOp::Ge) + spec_render(*y),
        Expression::LE(x, y) => spec_render(*x) + op_chars(BinOp::Le) + spec_render(*y),
        Expression::Add(x, y) => spec_render(*x) + op_chars(BinOp::Add) + spec_render(*y),
        Expression::Sub(x, y) => spec_render(*x) + op_chars(BinOp::Sub) + spec_render(*y),
        Expression::Mul(x, y) => spec_render(*x) + op_chars(BinOp::Mul) + spec_render(*y),
        Expression::Div(x, y) => spec_render(*x) + op_chars(BinOp::Div) + spec_render(*y),
        Expression::Pow(x, y) => spec_render(*x) + op_chars(BinOp::Pow) + spec_render(*y),
    }
}

/// Relies on std's `String` built from an iterator over characters: the
/// string holds exactly the given characters, which is what the view of a
/// string is.
#[verifier::external_body]
pub(crate) fn string_from_chars(v: &Vec<char>) -> (s: String)
    ensures
        s@ == v@,
{
    v.iter().collect()
}

/// Appends the decimal digits of `n`.
fn push_digits(out: &mut Vec<char>, n: i64)
    requires
        n >= 0,
    ensures
        final(out)@ == old(out)@ + dec_digits(n as int),
    decreases n,
{
    if n < 10 {
        out.push(((48 + n) as u8) as char);
        proof {
            assert(final(out)@ =~= old(out)@ + dec_digits(n as int));
        }
    } else {
        push_digits(out, n / 10);
        out.push(((48 + (n % 10)) as u8) as char);
        proof {
            assert(final(out)@ =~= old(out)@ + dec_digits(n as int));
        }
    }
}

/// How many decimal digits `n` has.
fn count_digits(n: i64) -> (c: usize)
    requires
        n >= 0,
    ensures
        c == dec_digits(n as int).len(),
        1 <= c <= 19,
{
    proof {
        lemma_dec_digits_len(n as int);
    }
    let mut d = n;
    let mut c: usize = 1;
    while d >= 10
        invariant
            d >= 0,
            1 <= c,
            dec_digits(n as int).len() <= 19,
            dec_digits(n as int).len() == dec_digits(d as int).len() + c - 1,
            dec_digits(d as int).len() >= 1,
        decreases d,
    {
        proof {
            lemma_dec_digits_len(d as int);
            lemma_dec_digits_len(d as int / 10);
        }
        d = d / 10;
        c = c + 1;
    }
    c
}

/// A digit run is one digit longer than that of its quotient by ten, and
/// at most nineteen digits for a non-negative machine integer.
proof fn lemma_dec_digits_len(n: int)
    requires
        n >= 0,
    ensures
        dec_digits(n).len() >= 1,
        n >= 10 ==> dec_digits(n).len() == dec_digits(n / 10).len() + 1,
        n <= i64::MAX ==> dec_digits(n).len() <= 19,
    decreases n,
{
    if n >= 10 {
        lemma_dec_digits_len(n / 10);
        if n <= i64::MAX {
            lemma_i64_pow10_19();
            lemma_dec_digits_short(n, 19);
        }
    }
}

/// A value below ten to the `w` has at most `w` digits.
pub proof fn lemma_dec_digits_short(n: int, w: int)
    requires
        0 <= n,
        w >= 1,
        n < pow10(w),
    ensures
        dec_digits(n).len() <= w,
    decreases n,
{
    if n < 10 {
    } else {
        assert(w >= 2) by {
            if w == 1 {
                assert(pow10(1) == 10) by {
                    reveal_with_fuel(pow, 2);
                }
            }
        }
        assert(pow10(w) == 10 * pow10(w - 1)) by {
            reveal(pow);
        }
        assert(n / 10 < pow10(w - 1)) by (nonlinear_arith)
            requires
                n < 10 * pow10(w - 1),
                n >= 10,
        ;
        assert(pow10(w - 1) >= 1) by {
            vstd::arithmetic::power::lemma_pow_positive(10, (w - 1) as nat);
        }
        lemma_dec_digits_short(n / 10, w - 1);
    }
}

/// `i64::MAX` is below ten to the nineteenth power.
proof fn lemma_i64_pow10_19()
    ensures
        i64::MAX < pow10(19),
{
    reveal_with_fuel(pow, 20);
}

/// Appends the decimal rendering of the value `num / 10^k`.
fn push_decimal(out: &mut Vec<char>, num: i64, k: usize)
    requires
        num >= 0,
        k <= 18,
    ensures
        final(out)@ == old(out)@ + render_decimal(num as int, k as int),
{
    let mut ds: Vec<char> = Vec::new();
    let c = count_digits(num);
    let ghost pad_total: int = if c < k + 1 {
        k + 1 - c
    } else {
        0
    };
    if c < k + 1 {
        let mut pad = k + 1 - c;
        while pad > 0
            invariant
                0 <= pad <= pad_total,
                ds@.len() == pad_total - pad,
                forall|i: int| 0 <= i < ds@.len() ==> ds@[i] == '0',
            decreases pad,
        {
            ds.push('0');
            pad = pad - 1;
        }
    }
    push_digits(&mut ds, num);
    proof {
        assert(ds@ =~= zero_pad(dec_digits(num as int), k as int + 1));
    }
    let n = ds.len();
    let cut = n - k;
    let mut i: usize = 0;
    let ghost base = out@;
    while i < cut
        invariant
            0 <= i <= cut <= n,
            n == ds@.len(),
            out@ == base + ds@.take(i as int),
        decreases cut - i,
    {
        let ch = ds[i];
        out.push(ch);
        proof {
            assert(base + ds@.take(i as int) + seq![ds@[i as int]] =~= base + ds@.take(i as int + 1));
        }
        i = i + 1;
    }
    if k > 0 {
        out.push('.');
        let ghost base2 = out@;
        let mut j = cut;
        while j < n
            invariant
                cut <= j <= n,
                n == ds@.len(),
                out@ == base2 + ds@.subrange(cut as int, j as int),
            decreases n - j,
        {
            let ch = ds[j];
            out.push(ch);
            proof {
                assert(base2 + ds@.subrange(cut as int, j as int) + seq![ds@[j as int]] =~= base2
                    + ds@.subrange(cut as int, j as int + 1));
            }
            j = j + 1;
        }
        proof {
            assert(ds@.subrange(cut as int, n as int) =~= ds@.skip(cut as int));
            assert(out@ =~= base + render_decimal(num as int, k as int));
        }
    } else {
        proof {
            assert(ds@.take(cut as int) =~= ds@);
            assert(out@ =~= base + render_decimal(num as int, k as int));
        }
    }
}

/// The position of the highest decimal digit of `den`; see `log10_of`.
fn log10_exec(den: i64) -> (k: usize)
    requires
        den >= 1,
    ensures
        k == log10_of(den as int),
        k <= 18,
{
    proof {
        lemma_i64_pow10_19();
        lemma_log10_short(den as int, 19);
        lemma_log10_nonneg(den as int);
    }
    let mut d = den;
    let mut k: usize = 0;
    while d >= 10
        invariant
            d >= 1,
            0 <= k,
            log10_of(den as int) <= 18,
            log10_of(den as int) == log10_of(d as int) + k,
            log10_of(d as int) >= 0,
        decreases d,
    {
        proof {
            lemma_log10_nonneg(d as int / 10);
        }
        d = d / 10;
        k = k + 1;
    }
    k
}

/// The digit position is never negative.
pub proof fn lemma_log10_nonneg(d: int)
    requires
        d >= 1,
    ensures
        log10_of(d) >= 0,
    decreases d,
{
    if d >= 10 {
        lemma_log10_nonneg(d / 10);
    }
}

/// A value below ten to the `w` has its highest digit below position `w`.
proof fn lemma_log10_short(d: int, w: int)
    requires
        1 <= d,
        1 <= w,
        d < pow10(w),
    ensures
        log10_of(d) <= w - 1,
    decreases d,
{
    if d >= 10 {
        assert(w >= 2) by {
            if w == 1 {
                assert(pow10(1) == 10) by {
                    reveal_with_fuel(pow, 2);
                }
            }
        }
        assert(pow10(w) == 10 * pow10(w - 1)) by {
            reveal(pow);
        }
        assert(d / 10 < pow10(w - 1)) by (nonlinear_arith)
            requires
                d < 10 * pow10(w - 1),
                d >= 10,
        ;
        assert(pow10(w - 1) >= 1) by {
            vstd::arithmetic::power::lemma_pow_positive(10, (w - 1) as nat);
        }
        lemma_log10_short(d / 10, w - 1);
    }
}

/// Appends the canonical text of a value; see `spec_render_value`.
fn push_value(out: &mut Vec<char>, v: &Value)
    requires
        v.wf(),
    ensures
        final(out)@ == old(out)@ + spec_render_value(*v),
{
    match v {
        Value::Num { num, den } => {
            let neg = *num < 0;
            let mag: i64 = if neg {
                -*num
            } else {
                *num
            };
            if neg {
                out.push('-');
            }
            let k = log10_exec(*den);
            let p10 = crate::token::pow10_exec(k as u32);
            let ghost mid = out@;
            if p10 == *den {
                push_decimal(out, mag, k);
            } else {
                push_digits(out, mag);
                out.push('/');
                let ghost mid2 = out@;
                push_digits(out, *den);
                proof {
                    assert(out@ =~= mid + (dec_digits(mag as int) + seq!['/'] + dec_digits(
                        *den as int,
                    )));
                }
            }
            proof {
                assert(out@ =~= old(out)@ + spec_render_value(*v));
            }
        },
        Value::PosInf => {
            out.push('i');
            out.push('n');
            out.push('f');
            proof {
                assert(out@ =~= old(out)@ + spec_render_value(*v));
            }
        },
        Value::NegInf => {
            out.push('-');
            out.push('i');
            out.push('n');
            out.push('f');
            proof {
                assert(out@ =~= old(out)@ + spec_render_value(*v));
            }
        },
        Value::NaN => {
            out.push('N');
            out.push('a');
            out.push('N');
            proof {
                assert(out@ =~= old(out)@ + spec_render_value(*v));
            }
        },
    }
}

/// Appends the symbol of an operator.
fn push_op(out: &mut Vec<char>, op: BinOp)
    ensures
        final(out)@ == old(out)@ + op_chars(op),
{
    match op {
        BinOp::Or => {
            out.push('|');
            out.push('|');
        },
        BinOp::And => {
            out.push('&');
            out.push('&');
        },
        BinOp::Eq => {
            out.push('=');
            out.push('=');
        },
        BinOp::Gt => {
            out.push('>');
        },
        BinOp::Lt => {
            out.push('<');
        },
        BinOp::Ge => {
            out.push('>');
            out.push('=');
        },
        BinOp::Le => {
            out.push('<');
            out.push('=');
        },
        BinOp::Add => {
            out.push('+');
        },
        BinOp::Sub => {
            out.push('-');
        },
        BinOp::Mul => {
            out.push('*');
        },
        BinOp::Div => {
            out.push('/');
        },
        BinOp::Pow => {
            out.push('^');
        },
    }
    proof {
        assert(final(out)@ =~= old(out)@ + op_chars(op));
    }
}

/// Appends the canonical flat text of an expression; see `spec_render`.
pub(crate) fn push_expr(out: &mut Vec<char>, e: &Expression)
    requires
        e.wf(),
    ensures
        final(out)@ == old(out)@ + spec_render(*e),
    decreases *e,
{
    match e {
        Expression::Value(v) => {
            push_value(out, v);
        },
        Expression::Var(c) => {
            out.push(*c);
            proof {
                assert(out@ =~= old(out)@ + spec_render(*e));
            }
        },
        Expression::Or(x, y) => {
            push_expr(out, x);
            push_op(out, BinOp::Or);
            push_expr(out, y);
            proof {
                assert(out@ =~= old(out)@ + spec_render(*e));
            }
        },
        Expression::And(x, y) => {
            push_expr(out, x);
            push_op(out, BinOp::And);
            push_expr(out, y);
            proof {
                assert(out@ =~= old(out)@ + spec_render(*e));
            }
        },
        Expression::Eq(x, y) => {
            push_expr(out, x);
            push_op(out, BinOp::Eq);
            push_expr(out, y);
            proof {
                assert(out@ =~= old(out)@ + spec_render(*e));
            }
        },
        Expression::GT(x, y) => {
            push_expr(out, x);
            push_op(out, BinOp::Gt);
            push_expr(out, y);
            proof {
                assert(out@ =~= old(out)@ + spec_render(*e));
            }
        },
        Expression::LT(x, y) => {
            push_expr(out, x);
            push_op(out, BinOp::Lt);
            push_expr(out, y);
            proof {
                assert(out@ =~= old(out)@ + spec_render(*e));
            }
        },
        Expression::GE(x, y) => {
            push_expr(out, x);
            push_op(out, BinOp::Ge);
            push_expr(out, y);
            proof {
                assert(out@ =~= old(out)@ + spec_render(*e));
            }
        },
        Expression::LE(x, y) => {
            push_expr(out, x);
            push_op(out, BinOp::Le);
            push_expr(out, y);
            proof {
                assert(out@ =~= old(out)@ + spec_render(*e));
            }
        },
        Expression::Add(x, y) => {
            push_expr(out, x);
            push_op(out, BinOp::Add);
            push_expr(out, y);
            proof {
                assert(out@ =~= old(out)@ + spec_render(*e));
            }
        },
        Expression::Sub(x, y) => {
            push_expr(out, x);
            push_op(out, BinOp::Sub);
            push_expr(out, y);
            proof {
                assert(out@ =~= old(out)@ + spec_render(*e));
            }
        },
        Expression::Mul(x, y) => {
            push_expr(out, x);
            push_op(out, BinOp::Mul);
            push_expr(out, y);
            proof {
                assert(out@ =~= old(out)@ + spec_render(*e));
            }
        },
        Expression::Div(x, y) => {
            push_expr(out, x);
            push_op(out, BinOp::Div);
            push_expr(out, y);
            proof {
                assert(out@ =~= old(out)@ + spec_render(*e));
            }
        },
        Expression::Pow(x, y) => {
            push_expr(out, x);
            push_op(out, BinOp::Pow);
            push_expr(out, y);
            proof {
                assert(out@ =~= old(out)@ + spec_render(*e));
            }
        },
    }
}

/// The first `i` bodies joined by `", "`.
pub open spec fn joined(bodies: Seq<Seq<char>>, i: int) -> Seq<char>
    decreases i when i >= 0
{
    if i <= 0 {
        Seq::empty()
    } else if i == 1 {
        bodies[0]
    } else {
        joined(bodies, i - 1) + seq![',', ' '] + bodies[i - 1]
    }
}

/// The parameter-list text of rendered parameter bodies: nothing for an
/// empty list, else the bodies joined by `", "` between parentheses.
pub open spec fn wrap_params(bodies: Seq<Seq<char>>) -> Seq<char> {
    if bodies.len() == 0 {
        Seq::empty()
    } else {
        seq!['('] + joined(bodies, bodies.len() as int) + seq![')']
    }
}

/// The canonical text of an element with actual parameters: the symbol,
/// then `(v1, v2, ...)` when the arity is positive and nothing when it is
/// zero.
pub open spec fn spec_render_element(e: crate::lsys::Element<Value>) -> Seq<char> {
    seq![e.symbol] + wrap_params(e.params.seq_of().map(|i: int, v: Value| spec_render_value(v)))
}

/// The canonical text of a predecessor element: the symbol, then the
/// formal parameter names.
pub open spec fn spec_render_pred(e: crate::lsys::Element<char>) -> Seq<char> {
    seq![e.symbol] + wrap_params(e.params.seq_of().map(|i: int, c: char| seq![c]))
}

/// The canonical text of a successor element: the symbol, then the
/// parameter expressions.
pub open spec fn spec_render_succ_element(e: crate::lsys::Element<Expression>) -> Seq<char> {
    seq![e.symbol] + wrap_params(e.params.seq_of().map(|i: int, x: Expression| spec_render(x)))
}

/// The canonical text of a symbol string: its elements, in order.
pub open spec fn spec_render_lstring(s: Seq<crate::lsys::Element<Value>>) -> Seq<char>
    decreases s.len(),
{
    if s.len() == 0 {
        Seq::empty()
    } else {
        spec_render_lstring(s.take(s.len() - 1)) + spec_render_element(s.last())
    }
}

/// The canonical text of a production: `predecessor=successor...`.
pub open spec fn spec_render_production(p: crate::lsys::Production) -> Seq<char> {
    spec_render_pred(p.pred) + seq!['='] + spec_render_succ_seq(p.succ@)
}

/// The canonical text of a successor sequence: its elements, in order.
pub open spec fn spec_render_succ_seq(s: Seq<crate::lsys::Element<Expression>>) -> Seq<char>
    decreases s.len(),
{
    if s.len() == 0 {
        Seq::empty()
    } else {
        spec_render_succ_seq(s.take(s.len() - 1)) + spec_render_succ_element(s.last())
    }
}

/// Appends rendered parameter bodies as a parenthesized list.
fn push_params(out: &mut Vec<char>, bodies: Vec<Vec<char>>)
    ensures
        final(out)@ == old(out)@ + wrap_params(bodies@.map(|i: int, b: Vec<char>| b@)),
{
    let ghost bs = bodies@.map(|i: int, b: Vec<char>| b@);
    let n = bodies.len();
    if n == 0 {
        proof {
            assert(out@ + wrap_params(bs) =~= out@);
        }
        return ;
    }
    out.push('(');
    let mut i: usize = 0;
    proof {
        assert(out@ =~= old(out)@ + seq!['('] + joined(bs, 0));
    }
    while i < n
        invariant
            0 < n == bodies@.len(),
            bs =~~= bodies@.map(|i: int, b: Vec<char>| b@),
            0 <= i <= n,
            out@ == old(out)@ + seq!['('] + joined(bs, i as int),
        decreases n - i,
    {
        let ghost prev = out@;
        if i > 0 {
            out.push(',');
            out.push(' ');
        }
        let mut j: usize = 0;
        let b = &bodies[i];
        let m = b.len();
        let ghost mid = out@;
        while j < m
            invariant
                0 <= j <= m,
                m == b@.len(),
                b@ == bs[i as int],
                i < bs.len(),
                out@ == mid + b@.take(j as int),
            decreases m - j,
        {
            let ch = b[j];
            out.push(ch);
            proof {
                assert(mid + b@.take(j as int) + seq![b@[j as int]] =~= mid + b@.take(j as int + 1));
            }
            j = j + 1;
        }
        proof {
            assert(b@.take(m as int) =~= b@);
            if i == 0 {
                assert(joined(bs, 1) == bs[0]);
                assert(out@ =~= old(out)@ + seq!['('] + joined(bs, 1));
            } else {
                assert(joined(bs, i as int + 1) == joined(bs, i as int) + seq![',', ' '] + bs[
                    i as int
                ]);
                assert(out@ =~= old(out)@ + seq!['('] + joined(bs, i as int + 1));
            }
        }
        i = i + 1;
    }
    out.push(')');
    proof {
        assert(out@ =~= old(out)@ + wrap_params(bs));
    }
}

impl Value {
    /// The canonical text of the value; see `spec_render_value`.
    pub fn to_text(&self) -> (r: String)
        requires
            self.wf(),
        ensures
            r@ == spec_render_value(*self),
    {
        let mut out: Vec<char> = Vec::new();
        push_value(&mut out, self);
        string_from_chars(&out)
    }
}

impl Expression {
    /// The canonical flat text of the expression; see `spec_render`.
    /// Re-parsing this text recovers the expression whenever the
    /// expression is in flat form with literal-shaped leaves.
    pub fn to_text(&self) -> (r: String)
        requires
            self.wf(),
        ensures
            r@ == spec_render(*self),
    {
        let mut out: Vec<char> = Vec::new();
        push_expr(&mut out, self);
        string_from_chars(&out)
    }
}

impl crate::lsys::Element<Value> {
    /// The canonical text of the element; see `spec_render_element`.
    pub fn to_text(&self) -> (r: String)
        requires
            crate::lsys::wf_element(*self),
        ensures
            r@ == spec_render_element(*self),
    {
        let mut out: Vec<char> = Vec::new();
        out.push(self.symbol);
        let mut bodies: Vec<Vec<char>> = Vec::new();
        let n = self.params.arity();
        let mut i: usize = 0;
        while i < n
            invariant
                0 <= i <= n,
                n == self.params.seq_of().len(),
                crate::lsys::wf_element(*self),
                bodies@.len() == i,
                forall|j: int|
                    0 <= j < i ==> (#[trigger] bodies@[j])@ == spec_render_value(self.params.seq_of()[j]),
            decreases n - i,
        {
            let mut body: Vec<char> = Vec::new();
            push_value(&mut body, self.params.get(i));
            bodies.push(body);
            proof {
                assert(body@ =~= spec_render_value(self.params.seq_of()[i as int]));
            }
            i = i + 1;
        }
        proof {
            assert(bodies@.map(|j: int, b: Vec<char>| b@) =~~= self.params.seq_of().map(
                |j: int, v: Value| spec_render_value(v),
            ));
        }
        push_params(&mut out, bodies);
        proof {
            assert(out@ =~= spec_render_element(*self));
        }
        string_from_chars(&out)
    }
}

impl crate::lsys::Element<char> {
    /// The canonical text of the predecessor element; see
    /// `spec_render_pred`.
    pub fn to_text(&self) -> (r: String)
        ensures
            r@ == spec_render_pred(*self),
    {
        let mut out: Vec<char> = Vec::new();
        out.push(self.symbol);
        let mut bodies: Vec<Vec<char>> = Vec::new();
        let n = self.params.arity();
        let mut i: usize = 0;
        while i < n
            invariant
                0 <= i <= n,
                n == self.params.seq_of().len(),
                bodies@.len() == i,
                forall|j: int|
                    0 <= j < i ==> (#[trigger] bodies@[j])@ == seq![self.params.seq_of()[j]],
            decreases n - i,
        {
            let mut body: Vec<char> = Vec::new();
            body.push(*self.params.get(i));
            bodies.push(body);
            proof {
                assert(body@ =~= seq![self.params.seq_of()[i as int]]);
            }
            i = i + 1;
        }
        proof {
            assert(bodies@.map(|j: int, b: Vec<char>| b@) =~~= self.params.seq_of().map(
                |j: int, c: char| seq![c],
            ));
        }
        push_params(&mut out, bodies);
        proof {
            assert(out@ =~= spec_render_pred(*self));
        }
        string_from_chars(&out)
    }
}

impl crate::lsys::Element<Expression> {
    /// The canonical text of the successor element; see
    /// `spec_render_succ_element`.
    pub fn to_text(&self) -> (r: String)
        requires
            crate::lsys::wf_succ_element(*self),
        ensures
            r@ == spec_render_succ_element(*self),
    {
        let mut out: Vec<char> = Vec::new();
        out.push(self.symbol);
        let mut bodies: Vec<Vec<char>> = Vec::new();
        let n = self.params.arity();
        let mut i: usize = 0;
        while i < n
            invariant
                0 <= i <= n,
                n == self.params.seq_of().len(),
                crate::lsys::wf_succ_element(*self),
                bodies@.len() == i,
                forall|j: int|
                    0 <= j < i ==> (#[trigger] bodies@[j])@ == spec_render(self.params.seq_of()[j]),
            decreases n - i,
        {
            let mut body: Vec<char> = Vec::new();
            push_expr(&mut body, self.params.get(i));
            bodies.push(body);
            proof {
                assert(body@ =~= spec_render(self.params.seq_of()[i as int]));
            }
            i = i + 1;
        }
        proof {
            assert(bodies@.map(|j: int, b: Vec<char>| b@) =~~= self.params.seq_of().map(
                |j: int, x: Expression| spec_render(x),
            ));
        }
        push_params(&mut out, bodies);
        proof {
            assert(out@ =~= spec_render_succ_element(*self));
        }
        string_from_chars(&out)
    }
}

impl crate::lsys::Production {
    /// The canonical text of the production; see `spec_render_production`.
    pub fn to_text(&self) -> (r: String)
        requires
            self.wf(),
        ensures
            r@ == spec_render_production(*self),
    {
        let mut out: Vec<char> = Vec::new();
        let pred_text = self.pred.to_text();
        push_str_chars(&mut out, &pred_text);
        out.push('=');
        let n = self.succ.len();
        let mut i: usize = 0;
        while i < n
            invariant
                0 <= i <= n,
                n == self.succ@.len(),
                self.wf(),
                out@ == spec_render_pred(self.pred) + seq!['='] + spec_render_succ_seq(
                    self.succ@.take(i as int),
                ),
            decreases n - i,
        {
            let el_text = self.succ[i].to_text();
            push_str_chars(&mut out, &el_text);
            proof {
                assert(self.succ@.take(i as int + 1).take(i as int) =~= self.succ@.take(i as int));
                assert(self.succ@.take(i as int + 1).last() == self.succ@[i as int]);
                assert(out@ =~= spec_render_pred(self.pred) + seq!['='] + spec_render_succ_seq(
                    self.succ@.take(i as int + 1),
                ));
            }
            i = i + 1;
        }
        proof {
            assert(self.succ@.take(n as int) =~= self.succ@);
        }
        string_from_chars(&out)
    }
}

impl crate::lsys::LString {
    /// The canonical text of the symbol string; see `spec_render_lstring`.
    pub fn to_text(&self) -> (r: String)
        requires
            crate::lsys::wf_lstring(self@),
        ensures
            r@ == spec_render_lstring(self@),
    {
        let mut out: Vec<char> = Vec::new();
        let n = self.len();
        let mut i: usize = 0;
        while i < n
            invariant
                0 <= i <= n,
                n == self@.len(),
                crate::lsys::wf_lstring(self@),
                out@ == spec_render_lstring(self@.take(i as int)),
            decreases n - i,
        {
            let el_text = self.get(i).to_text();
            push_str_chars(&mut out, &el_text);
            proof {
                assert(self@.take(i as int + 1).take(i as int) =~= self@.take(i as int));
                assert(self@.take(i as int + 1).last() == self@[i as int]);
            }
            i = i + 1;
        }
        proof {
            assert(self@.take(n as int) =~= self@);
        }
        string_from_chars(&out)
    }
}

/// The canonical text of a production list: one production per line.
pub open spec fn spec_render_rules(ps: Seq<crate::lsys::Production>) -> Seq<char>
    decreases ps.len(),
{
    if ps.len() == 0 {
        Seq::empty()
    } else {
        spec_render_rules(ps.take(ps.len() - 1)) + spec_render_production(ps.last()) + seq!['\n']
    }
}

impl crate::lsys::LSystem {
    /// The canonical text of the whole grammar for diagnostic display: the
    /// current string, a line break, then one production per line.
    pub fn to_text(&self) -> (r: String)
        requires
            self.wf(),
        ensures
            r@ == spec_render_lstring(self.spec_current()) + seq!['\n'] + spec_render_rules(
                self.spec_productions(),
            ),
    {
        let mut out: Vec<char> = Vec::new();
        let cur = self.current_string().to_text();
        push_str_chars(&mut out, &cur);
        out.push('\n');
        let n = self.productions_len();
        let mut i: usize = 0;
        while i < n
            invariant
                0 <= i <= n,
                n == self.spec_productions().len(),
                self.wf(),
                out@ == spec_render_lstring(self.spec_current()) + seq!['\n']
                    + spec_render_rules(self.spec_productions().take(i as int)),
            decreases n - i,
        {
            let p_text = self.production_at(i).to_text();
            push_str_chars(&mut out, &p_text);
            out.push('\n');
            proof {
                let ps = self.spec_productions();
                assert(ps.take(i as int + 1).take(i as int) =~= ps.take(i as int));
                assert(ps.take(i as int + 1).last() == ps[i as int]);
                assert(out@ =~= spec_render_lstring(self.spec_current()) + seq!['\n']
                    + spec_render_rules(ps.take(i as int + 1)));
            }
            i = i + 1;
        }
        proof {
            assert(self.spec_productions().take(n as int) =~= self.spec_productions());
        }
        string_from_chars(&out)
    }
}

/// Appends the characters of an already-rendered piece.
fn push_str_chars(out: &mut Vec<char>, s: &String)
    ensures
        final(out)@ == old(out)@ + s@,
{
    let v = crate::parse::chars_of_str(s.as_str());
    let n = v.len();
    let mut i: usize = 0;
    while i < n
        invariant
            0 <= i <= n,
            n == v@.len(),
            v@ == s@,
            out@ == old(out)@ + v@.take(i as int),
        decreases n - i,
    {
        let ch = v[i];
        out.push(ch);
        proof {
            assert(old(out)@ + v@.take(i as int) + seq![v@[i as int]] =~= old(out)@ + v@.take(
                i as int + 1,
            ));
        }
        i = i + 1;
    }
    proof {
        assert(v@.take(n as int) =~= v@);
    }
}

} // verus!
