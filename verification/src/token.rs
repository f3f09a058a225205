//! The lexical layer of the expression language: numbers (unsigned decimal
//! literals), single-letter variables, the binary operators, parentheses
//! and blanks.
//!
//! A numeric literal keeps at most eighteen significant digits in all, so
//! its mantissa and its power-of-ten denominator always fit the numeric
//! domain exactly; a longer literal is a syntax error.  The minus sign is
//! not part of a number here: the parser reads a sign in term position.

use crate::expr::BinOp;
use vstd::arithmetic::power::pow;
use vstd::prelude::*;

verus! {

/// One lexical token.
#[derive(Clone, Copy, Debug, PartialEq, Eq, Structural)]
pub enum Tok {
    /// An unsigned decimal literal with the value `num / den`, where `den`
    /// is the power of ten given by the literal's fractional digits.
    Num { num: i64, den: i64 },
    /// A single-letter variable name.
    VarTok(char),
    /// A binary operator.
    OpTok(BinOp),
    LPar,
    RPar,
}

/// A decimal digit.
pub open spec fn is_digit(c: char) -> bool {
    '0' <= c && c <= '9'
}

/// An ASCII letter, the only shape of a variable name.
pub open spec fn is_letter(c: char) -> bool {
    ('a' <= c && c <= 'z') || ('A' <= c && c <= 'Z')
}

/// The numeric value of a digit.
pub open spec fn digit_val(c: char) -> int {
    c as int - 48
}

/// Ten to the power `k`.
pub open spec fn pow10(k: int) -> int {
    pow(10, k as nat)
}

/// The first position at or after `pos` that does not hold a digit.
pub open spec fn digits_end(s: Seq<char>, pos: int) -> int
    decreases s.len() - pos when 0 <= pos <= s.len()
{
    if pos >= s.len() || !is_digit(s[pos]) {
        pos
    } else {
        digits_end(s, pos + 1)
    }
}

/// The value of the digit run `s[pos .. end)`, most significant first.
pub open spec fn digits_val(s: Seq<char>, pos: int, end: int) -> int
    decreases end - pos when pos <= end
{
    if pos >= end {
        0
    } else {
        digits_val(s, pos, end - 1) * 10 + digit_val(s[end - 1])
    }
}

/// `digits_end` stays within the string and moves past at least the first
/// digit.
pub proof fn lemma_digits_end_bounds(s: Seq<char>, pos: int)
    requires
        0 <= pos <= s.len(),
    ensures
        pos <= digits_end(s, pos) <= s.len(),
        pos < s.len() && is_digit(s[pos]) ==> digits_end(s, pos) > pos,
        forall|i: int| pos <= i < digits_end(s, pos) ==> is_digit(#[trigger] s[i]),
        digits_end(s, pos) < s.len() ==> !is_digit(s[digits_end(s, pos)]),
    decreases s.len() - pos,
{
    if pos >= s.len() || !is_digit(s[pos]) {
    } else {
        lemma_digits_end_bounds(s, pos + 1);
    }
}

/// A digit run's value is non-negative and below ten to the run's length.
pub proof fn lemma_digits_val_bounds(s: Seq<char>, pos: int, end: int)
    requires
        pos <= end,
        forall|i: int| pos <= i < end ==> is_digit(#[trigger] s[i]),
    ensures
        0 <= digits_val(s, pos, end) < pow10(end - pos),
    decreases end - pos,
{
    vstd::arithmetic::power::lemma_pow_positive(10, (end - pos) as nat);
    if pos >= end {
        assert(pow10(0) == 1) by {
            vstd::arithmetic::power::lemma_pow0(10);
        }
    } else {
        lemma_digits_val_bounds(s, pos, end - 1);
        let v = digits_val(s, pos, end - 1);
        let p = pow10(end - pos - 1);
        assert(pow10(end - pos) == 10 * p) by {
            reveal(pow);
        }
        assert(0 <= v * 10 + digit_val(s[end - 1]) < 10 * p) by (nonlinear_arith)
            requires
                0 <= v < p,
                0 <= digit_val(s[end - 1]) <= 9,
        ;
    }
}

/// Prepends one token to the result of tokenizing the rest.
pub open spec fn tok_cons(t: Tok, rest: Option<Seq<Tok>>) -> Option<Seq<Tok>> {
    match rest {
        None => None,
        Some(ts) => Some(seq![t] + ts),
    }
}

/// Tokenization from position `pos` on: blanks are skipped; a digit starts
/// an unsigned decimal literal (maximal run of digits, then optionally a
/// point followed by at least one more digit) of at most eighteen digits
/// in all; a letter is a variable; the remaining characters are the
/// operators and parentheses.  Anything else is a failure, and a failure
/// anywhere fails the whole text.
pub open spec fn spec_tokenize(s: Seq<char>, pos: int) -> Option<Seq<Tok>>
    decreases s.len() - pos when 0 <= pos <= s.len() via spec_tokenize_decreases
{
    if pos >= s.len() {
        Some(Seq::empty())
    } else {
        let c = s[pos];
        if c == ' ' || c == '\t' {
            spec_tokenize(s, pos + 1)
        } else if is_digit(c) {
            let ie = digits_end(s, pos);
            if ie < s.len() && s[ie] == '.' && ie + 1 < s.len() && is_digit(s[ie + 1]) {
                let fe = digits_end(s, ie + 1);
                if fe - pos - 1 > 18 {
                    None
                } else {
                    tok_cons(
                        Tok::Num {
                            num: (digits_val(s, pos, ie) * pow10(fe - ie - 1) + digits_val(
                                s,
                                ie + 1,
                                fe,
                            )) as i64,
                            den: pow10(fe - ie - 1) as i64,
                        },
                        spec_tokenize(s, fe),
                    )
                }
            } else {
                if ie - pos > 18 {
                    None
                } else {
                    tok_cons(
                        Tok::Num { num: digits_val(s, pos, ie) as i64, den: 1 },
                        spec_tokenize(s, ie),
                    )
                }
            }
        } else if is_letter(c) {
            tok_cons(Tok::VarTok(c), spec_tokenize(s, pos + 1))
        } else if c == '(' {
            tok_cons(Tok::LPar, spec_tokenize(s, pos + 1))
        } else if c == ')' {
            tok_cons(Tok::RPar, spec_tokenize(s, pos + 1))
        } else if c == '|' {
            if pos + 1 < s.len() && s[pos + 1] == '|' {
                tok_cons(Tok::OpTok(BinOp::Or), spec_tokenize(s, pos + 2))
            } else {
                None
            }
        } else if c == '&' {
            if pos + 1 < s.len() && s[pos + 1] == '&' {
                tok_cons(Tok::OpTok(BinOp::And), spec_tokenize(s, pos + 2))
            } else {
                None
            }
        } else if c == '=' {
            if pos + 1 < s.len() && s[pos + 1] == '=' {
                tok_cons(Tok::OpTok(BinOp::Eq), spec_tokenize(s, pos + 2))
            } else {
                None
            }
        } else if c == '>' {
            if pos + 1 < s.len() && s[pos + 1] == '=' {
                tok_cons(Tok::OpTok(BinOp::Ge), spec_tokenize(s, pos + 2))
            } else {
                tok_cons(Tok::OpTok(BinOp::Gt), spec_tokenize(s, pos + 1))
            }
        } else if c == '<' {
            if pos + 1 < s.len() && s[pos + 1] == '=' {
                tok_cons(Tok::OpTok(BinOp::Le), spec_tokenize(s, pos + 2))
            } else {
                tok_cons(Tok::OpTok(BinOp::Lt), spec_tokenize(s, pos + 1))
            }
        } else if c == '+' {
            tok_cons(Tok::OpTok(BinOp::Add), spec_tokenize(s, pos + 1))
        } else if c == '-' {
            tok_cons(Tok::OpTok(BinOp::Sub), spec_tokenize(s, pos + 1))
        } else if c == '*' {
            tok_cons(Tok::OpTok(BinOp::Mul), spec_tokenize(s, pos + 1))
        } else if c == '/' {
            tok_cons(Tok::OpTok(BinOp::Div), spec_tokenize(s, pos + 1))
        } else if c == '^' {
            tok_cons(Tok::OpTok(BinOp::Pow), spec_tokenize(s, pos + 1))
        } else {
            None
        }
    }
}

#[via_fn]
proof fn spec_tokenize_decreases(s: Seq<char>, pos: int) {
    if 0 <= pos < s.len() && is_digit(s[pos]) {
        lemma_digits_end_bounds(s, pos);
        let ie = digits_end(s, pos);
        if 0 <= ie + 1 <= s.len() {
            lemma_digits_end_bounds(s, ie + 1);
        }
    }
}

/// Ten to the eighteenth power, the cap on a literal's mantissa.
pub proof fn lemma_pow10_cap()
    ensures
        pow10(18) == 1000000000000000000,
{
    reveal_with_fuel(pow, 19);
}

/// `pow10` is positive and does not decrease.
proof fn lemma_pow10_le(a: int, b: int)
    requires
        0 <= a <= b,
    ensures
        1 <= pow10(a) <= pow10(b),
    decreases b - a,
{
    vstd::arithmetic::power::lemma_pow_positive(10, a as nat);
    if a < b {
        lemma_pow10_le(a, b - 1);
        assert(pow10(b) == 10 * pow10(b - 1)) by {
            reveal(pow);
        }
    }
}

/// The position where the digit run starting at `pos` ends.
fn scan_digits(chars: &Vec<char>, pos: usize) -> (end: usize)
    requires
        pos <= chars@.len(),
    ensures
        end == digits_end(chars@, pos as int),
        pos <= end <= chars@.len(),
{
    let n = chars.len();
    let mut j = pos;
    while j < n && chars[j] >= '0' && chars[j] <= '9'
        invariant
            pos <= j <= n,
            n == chars@.len(),
            digits_end(chars@, pos as int) == digits_end(chars@, j as int),
        decreases n - j,
    {
        j = j + 1;
    }
    j
}

/// The value of the digit run `chars[pos .. end)`.
fn read_digits(chars: &Vec<char>, pos: usize, end: usize) -> (v: i64)
    requires
        pos <= end <= chars@.len(),
        end - pos <= 18,
        forall|i: int| pos <= i < end ==> is_digit(#[trigger] chars@[i]),
    ensures
        v == digits_val(chars@, pos as int, end as int),
        0 <= v < pow10((end - pos) as int),
        v < 1000000000000000000,
{
    proof {
        lemma_pow10_cap();
        lemma_pow10_le((end - pos) as int, 18);
    }
    let mut acc: i64 = 0;
    let mut j = pos;
    proof {
        vstd::arithmetic::power::lemma_pow0(10);
    }
    while j < end
        invariant
            pos <= j <= end,
            end <= chars@.len(),
            end - pos <= 18,
            forall|i: int| pos <= i < end ==> is_digit(#[trigger] chars@[i]),
            acc == digits_val(chars@, pos as int, j as int),
            0 <= acc < pow10((j - pos) as int),
            pow10((j - pos) as int) <= pow10(18),
            pow10(18) == 1000000000000000000,
        decreases end - j,
    {
        let d = (chars[j] as u32) - 48;
        proof {
            let p = pow10((j - pos) as int);
            assert(pow10((j + 1 - pos) as int) == 10 * p) by {
                reveal(pow);
            }
            assert(0 <= acc * 10 + d < 10 * p) by (nonlinear_arith)
                requires
                    0 <= acc < p,
                    0 <= d <= 9,
            ;
            lemma_pow10_le((j + 1 - pos) as int, 18);
        }
        acc = acc * 10 + (d as i64);
        j = j + 1;
    }
    acc
}

/// Prepends already-produced tokens to the tokenization of the rest.
pub open spec fn tok_prepend(pre: Seq<Tok>, o: Option<Seq<Tok>>) -> Option<Seq<Tok>> {
    match o {
        None => None,
        Some(ts) => Some(pre + ts),
    }
}

/// Tokenizes a whole character sequence; see `spec_tokenize`.  Fails
/// exactly when the text holds a character outside the grammar, a lone
/// operator half, or a literal of more than eighteen digits.
pub fn tokenize(chars: &Vec<char>) -> (r: Option<Vec<Tok>>)
    ensures
        match r {
            Some(ts) => spec_tokenize(chars@, 0) == Some(ts@) && wf_toks(ts@),
            None => spec_tokenize(chars@, 0) is None,
        },
{
    let n = chars.len();
    let mut out: Vec<Tok> = Vec::new();
    let mut pos: usize = 0;
    proof {
        assert(tok_prepend(out@, spec_tokenize(chars@, 0)) == spec_tokenize(chars@, 0)) by {
            match spec_tokenize(chars@, 0) {
                Some(ts) => {
                    assert(out@ + ts =~= ts);
                },
                None => {},
            }
        }
    }
    while pos < n
        invariant
            0 <= pos <= n,
            n == chars@.len(),
            spec_tokenize(chars@, 0) == tok_prepend(out@, spec_tokenize(chars@, pos as int)),
            wf_toks(out@),
        decreases n - pos,
    {
        let ghost out_before = out@;
        let c = chars[pos];
        if c == ' ' || c == '\t' {
            pos = pos + 1;
        } else if c >= '0' && c <= '9' {
            proof {
                lemma_digits_end_bounds(chars@, pos as int);
                lemma_pow10_cap();
            }
            let ie = scan_digits(chars, pos);
            let has_frac = ie < n && chars[ie] == '.' && ie + 1 < n && {
                let d = chars[ie + 1];
                d >= '0' && d <= '9'
            };
            if has_frac {
                proof {
                    lemma_digits_end_bounds(chars@, ie as int + 1);
                }
                let fe = scan_digits(chars, ie + 1);
                if fe - pos - 1 > 18 {
                    return None;
                }
                let iv = read_digits(chars, pos, ie);
                let fv = read_digits(chars, ie + 1, fe);
                let k = fe - ie - 1;
                let scale = pow10_exec(k as u32);
                proof {
                    let whole = digits_val(chars@, pos as int, ie as int) * pow10(
                        (fe - ie - 1) as int,
                    ) + digits_val(chars@, ie as int + 1, fe as int);
                    assert(iv * scale + fv == whole);
                    assert(0 <= whole < pow10((fe - pos - 1) as int)) by {
                        let a = digits_val(chars@, pos as int, ie as int);
                        let b = digits_val(chars@, ie as int + 1, fe as int);
                        let pa = pow10((ie - pos) as int);
                        let pb = pow10((fe - ie - 1) as int);
                        assert(pow10((fe - pos - 1) as int) == pa * pb) by {
                            vstd::arithmetic::power::lemma_pow_adds(
                                10,
                                (ie - pos) as nat,
                                (fe - ie - 1) as nat,
                            );
                        }
                        assert(0 <= a * pb + b && a * pb + b < pa * pb) by (nonlinear_arith)
                            requires
                                0 <= a < pa,
                                0 <= b < pb,
                        ;
                    }
                    lemma_pow10_le((fe - pos - 1) as int, 18);
                }
                let t = Tok::Num { num: iv * scale + fv, den: scale };
                out.push(t);
                proof {
                    lemma_tok_step(out_before, t, chars@, pos as int, fe as int);
                }
                pos = fe;
            } else {
                if ie - pos > 18 {
                    return None;
                }
                let iv = read_digits(chars, pos, ie);
                let t = Tok::Num { num: iv, den: 1 };
                out.push(t);
                proof {
                    lemma_tok_step(out_before, t, chars@, pos as int, ie as int);
                }
                pos = ie;
            }
        } else if (c >= 'a' && c <= 'z') || (c >= 'A' && c <= 'Z') {
            let t = Tok::VarTok(c);
            out.push(t);
            proof {
                lemma_tok_step(out_before, t, chars@, pos as int, pos as int + 1);
            }
            pos = pos + 1;
        } else if c == '(' {
            out.push(Tok::LPar);
            proof {
                lemma_tok_step(out_before, Tok::LPar, chars@, pos as int, pos as int + 1);
            }
            pos = pos + 1;
        } else if c == ')' {
            out.push(Tok::RPar);
            proof {
                lemma_tok_step(out_before, Tok::RPar, chars@, pos as int, pos as int + 1);
            }
            pos = pos + 1;
        } else if c == '|' || c == '&' || c == '=' {
            if pos + 1 < n && chars[pos + 1] == (if c == '|' {
                '|'
            } else if c == '&' {
                '&'
            } else {
                '='
            }) {
                let t = Tok::OpTok(
                    if c == '|' {
                        BinOp::Or
                    } else if c == '&' {
                        BinOp::And
                    } else {
                        BinOp::Eq
                    },
                );
                out.push(t);
                proof {
                    lemma_tok_step(out_before, t, chars@, pos as int, pos as int + 2);
                }
                pos = pos + 2;
            } else {
                return None;
            }
        } else if c == '>' || c == '<' {
            if pos + 1 < n && chars[pos + 1] == '=' {
                let t = Tok::OpTok(
                    if c == '>' {
                        BinOp::Ge
                    } else {
                        BinOp::Le
                    },
                );
                out.push(t);
                proof {
                    lemma_tok_step(out_before, t, chars@, pos as int, pos as int + 2);
                }
                pos = pos + 2;
            } else {
                let t = Tok::OpTok(
                    if c == '>' {
                        BinOp::Gt
                    } else {
                        BinOp::Lt
                    },
                );
                out.push(t);
                proof {
                    lemma_tok_step(out_before, t, chars@, pos as int, pos as int + 1);
                }
                pos = pos + 1;
            }
        } else if c == '+' || c == '-' || c == '*' || c == '/' || c == '^' {
            let t = Tok::OpTok(
                if c == '+' {
                    BinOp::Add
                } else if c == '-' {
                    BinOp::Sub
                } else if c == '*' {
                    BinOp::Mul
                } else if c == '/' {
                    BinOp::Div
                } else {
                    BinOp::Pow
                },
            );
            out.push(t);
            proof {
                lemma_tok_step(out_before, t, chars@, pos as int, pos as int + 1);
            }
            pos = pos + 1;
        } else {
            return None;
        }
    }
    proof {
        match spec_tokenize(chars@, pos as int) {
            Some(ts) => {
                assert(out@ + ts =~= out@);
            },
            None => {},
        }
    }
    Some(out)
}

/// Carries the prepend invariant across one consumed token: when
/// tokenization from `pos` is one token followed by tokenization from
/// `pos2`, moving that token into the output keeps the whole result.
proof fn lemma_tok_step(pre: Seq<Tok>, t: Tok, s: Seq<char>, pos: int, pos2: int)
    requires
        spec_tokenize(s, pos) == tok_cons(t, spec_tokenize(s, pos2)),
    ensures
        tok_prepend(pre, spec_tokenize(s, pos)) == tok_prepend(pre.push(t), spec_tokenize(s, pos2)),
{
    match spec_tokenize(s, pos2) {
        Some(ts) => {
            assert(pre + (seq![t] + ts) =~= pre.push(t) + ts);
        },
        None => {},
    }
}

/// Ten to the power `k`, exactly.
pub(crate) fn pow10_exec(k: u32) -> (r: i64)
    requires
        k <= 18,
    ensures
        r == pow10(k as int),
        1 <= r <= 1000000000000000000,
{
    proof {
        lemma_pow10_cap();
        lemma_pow10_le(k as int, 18);
        vstd::arithmetic::power::lemma_pow_positive(10, k as nat);
    }
    let mut acc: i64 = 1;
    let mut i: u32 = 0;
    proof {
        vstd::arithmetic::power::lemma_pow0(10);
    }
    while i < k
        invariant
            0 <= i <= k <= 18,
            acc == pow10(i as int),
            pow10(18) == 1000000000000000000,
        decreases k - i,
    {
        proof {
            assert(pow10(i as int + 1) == 10 * pow10(i as int)) by {
                reveal(pow);
            }
            lemma_pow10_le(i as int + 1, 18);
        }
        acc = acc * 10;
        i = i + 1;
    }
    acc
}

/// Every numeric token a tokenization produces is exact: the mantissa is
/// at most eighteen digits and the denominator a matching power of ten.
pub open spec fn wf_toks(toks: Seq<Tok>) -> bool {
    forall|i: int|
        0 <= i < toks.len() ==> match #[trigger] toks[i] {
            Tok::Num { num, den } => 0 <= num < 1000000000000000000 && 1 <= den
                <= 1000000000000000000,
            _ => true,
        }
}

} // verus!
