//! The numeric domain of the expression engine.
//!
//! A `Value` is an exact rational `num / den` extended with the special
//! values `PosInf`, `NegInf` and `NaN`.  Both components of a well-formed
//! finite value are bounded by `VAL_MAX`; an operation whose exact result
//! does not fit returns a special value: `NaN` when the denominator is out
//! of range, a signed infinity when the numerator is.  Division by zero and
//! the other IEEE-754 edge cases produce infinities and `NaN` in the same
//! way floating point would, rather than erroring.
//!
//! Booleans are canonicalized as `1` (true) and `0` (false); a value is
//! truthy exactly when it is not the finite number zero, so `NaN` and the
//! infinities are truthy.

use vstd::arithmetic::power::lemma_pow_positive;
use vstd::arithmetic::power::pow;
use vstd::math::abs;
use vstd::prelude::*;

verus! {

/// Bound on the magnitude of the numerator and denominator of a finite
/// value (two to the sixty-second power).
pub const VAL_MAX: i64 = 0x4000_0000_0000_0000;

/// An exact rational number extended with IEEE-754-style special values.
///
/// Representation is not reduced: `Num { num: 1, den: 2 }` and
/// `Num { num: 2, den: 4 }` denote the same rational.  Numeric equality is
/// `eq_val`; the derived `==` is equality of representation.
#[derive(Clone, Copy, Debug, PartialEq, Eq, Structural)]
pub enum Value {
    Num { num: i64, den: i64 },
    PosInf,
    NegInf,
    NaN,
}

/// Classifies an exact rational `n / d` (with `d >= 1`) into a `Value`:
/// a denominator out of range gives `NaN`, a numerator out of range gives
/// a signed infinity, and anything else is the finite value itself.
pub open spec fn make_val(n: int, d: int) -> Value {
    if d > VAL_MAX as int {
        Value::NaN
    } else if n > VAL_MAX as int {
        Value::PosInf
    } else if n < -(VAL_MAX as int) {
        Value::NegInf
    } else {
        Value::Num { num: n as i64, den: d as i64 }
    }
}

/// The exact sum, with the IEEE-754 rules for special operands.
pub open spec fn spec_add(a: Value, b: Value) -> Value {
    match (a, b) {
        (Value::NaN, _) => Value::NaN,
        (_, Value::NaN) => Value::NaN,
        (Value::PosInf, Value::NegInf) => Value::NaN,
        (Value::NegInf, Value::PosInf) => Value::NaN,
        (Value::PosInf, _) => Value::PosInf,
        (_, Value::PosInf) => Value::PosInf,
        (Value::NegInf, _) => Value::NegInf,
        (_, Value::NegInf) => Value::NegInf,
        (Value::Num { num: an, den: ad }, Value::Num { num: bn, den: bd }) => make_val(
            an * bd + bn * ad,
            ad * bd,
        ),
    }
}

/// The exact difference, with the IEEE-754 rules for special operands.
pub open spec fn spec_sub(a: Value, b: Value) -> Value {
    match (a, b) {
        (Value::NaN, _) => Value::NaN,
        (_, Value::NaN) => Value::NaN,
        (Value::PosInf, Value::PosInf) => Value::NaN,
        (Value::NegInf, Value::NegInf) => Value::NaN,
        (Value::PosInf, _) => Value::PosInf,
        (_, Value::NegInf) => Value::PosInf,
        (Value::NegInf, _) => Value::NegInf,
        (_, Value::PosInf) => Value::NegInf,
        (Value::Num { num: an, den: ad }, Value::Num { num: bn, den: bd }) => make_val(
            an * bd - bn * ad,
            ad * bd,
        ),
    }
}

/// True of the finite number zero (any representation of it).
pub open spec fn is_zero(v: Value) -> bool {
    match v {
        Value::Num { num, den } => num == 0,
        _ => false,
    }
}

/// Strictly negative: a negative finite value or `NegInf`.
pub open spec fn is_neg(v: Value) -> bool {
    match v {
        Value::Num { num, den } => num < 0,
        Value::NegInf => true,
        _ => false,
    }
}

/// The exact product, with the IEEE-754 rules for special operands:
/// infinity times zero is `NaN`, infinity times anything else keeps the
/// sign rule.
pub open spec fn spec_mul(a: Value, b: Value) -> Value {
    match (a, b) {
        (Value::NaN, _) => Value::NaN,
        (_, Value::NaN) => Value::NaN,
        (Value::Num { num: an, den: ad }, Value::Num { num: bn, den: bd }) => make_val(
            an * bn,
            ad * bd,
        ),
        _ => if is_zero(a) || is_zero(b) {
            Value::NaN
        } else if is_neg(a) == is_neg(b) {
            Value::PosInf
        } else {
            Value::NegInf
        },
    }
}

/// The exact quotient, with the IEEE-754 rules: a nonzero value divided by
/// zero is a signed infinity, zero divided by zero is `NaN`, infinity
/// divided by infinity is `NaN`, and a finite value divided by infinity is
/// zero.
pub open spec fn spec_div(a: Value, b: Value) -> Value {
    match (a, b) {
        (Value::NaN, _) => Value::NaN,
        (_, Value::NaN) => Value::NaN,
        (Value::Num { num: an, den: ad }, Value::Num { num: bn, den: bd }) => if bn == 0 {
            if an == 0 {
                Value::NaN
            } else if an > 0 {
                Value::PosInf
            } else {
                Value::NegInf
            }
        } else if bn > 0 {
            make_val(an * bd, ad * bn)
        } else {
            make_val(-(an * bd), -(ad * bn))
        },
        (Value::Num { num: an, den: ad }, _) => Value::Num { num: 0, den: 1 },
        (_, Value::Num { num: bn, den: bd }) => if (is_neg(a) == (bn < 0)) || bn == 0 && !is_neg(a) {
            Value::PosInf
        } else {
            Value::NegInf
        },
        _ => Value::NaN,
    }
}

/// Strict order on values, IEEE-754 style: every comparison involving
/// `NaN` is false; otherwise `NegInf` is below and `PosInf` above every
/// other value, and finite values compare as exact rationals.
pub open spec fn spec_lt(a: Value, b: Value) -> bool {
    match (a, b) {
        (Value::NaN, _) => false,
        (_, Value::NaN) => false,
        (Value::NegInf, Value::NegInf) => false,
        (Value::NegInf, _) => true,
        (_, Value::NegInf) => false,
        (Value::PosInf, _) => false,
        (_, Value::PosInf) => true,
        (Value::Num { num: an, den: ad }, Value::Num { num: bn, den: bd }) => an * bd < bn * ad,
    }
}

/// Numeric equality, IEEE-754 style: `NaN` is not equal to anything, not
/// even itself; finite values compare as exact rationals, so different
/// representations of the same rational are equal.
pub open spec fn spec_eq_val(a: Value, b: Value) -> bool {
    match (a, b) {
        (Value::PosInf, Value::PosInf) => true,
        (Value::NegInf, Value::NegInf) => true,
        (Value::Num { num: an, den: ad }, Value::Num { num: bn, den: bd }) => an * bd == bn * ad,
        _ => false,
    }
}

/// Non-strict order: true when neither operand is `NaN` and `a` is not
/// above `b`.
pub open spec fn spec_le(a: Value, b: Value) -> bool {
    !(a is NaN) && !(b is NaN) && !spec_lt(b, a)
}

/// Truthiness: everything but the finite number zero, so the infinities
/// and `NaN` are truthy.
pub open spec fn spec_truthy(v: Value) -> bool {
    !is_zero(v)
}

/// Canonical boolean values: `1` for true, `0` for false.
pub open spec fn spec_bool_val(b: bool) -> Value {
    if b {
        Value::Num { num: 1, den: 1 }
    } else {
        Value::Num { num: 0, den: 1 }
    }
}

/// The finite number one.
pub open spec fn one_val() -> Value {
    Value::Num { num: 1, den: 1 }
}

/// The finite number zero.
pub open spec fn zero_val() -> Value {
    Value::Num { num: 0, den: 1 }
}

/// True of a finite value equal to one (any representation).
pub open spec fn base_one(a: Value) -> bool {
    match a {
        Value::Num { num, den } => num == den,
        _ => false,
    }
}

/// True of a finite value that is an odd integer.
pub open spec fn odd_exp(en: int, ed: int) -> bool {
    abs(en) as int % ed == 0 && (abs(en) as int / ed) % 2 == 1
}

/// Exponentiation of a finite nonzero-exponent base `an / ad` by the
/// finite value `en / ed`: a non-integer exponent gives `NaN` (the exact
/// result would be irrational in general); an integer exponent `k` gives
/// the exact power `(an / ad) ^ k`, classified by `make_val` with the
/// numerator and denominator taken to the power `|k|` componentwise and
/// swapped when `k` is negative.
pub open spec fn finite_pow(an: int, ad: int, en: int, ed: int) -> Value {
    if abs(en) as int % ed != 0 {
        Value::NaN
    } else {
        let m = (abs(en) as int / ed) as nat;
        if an == 0 {
            if en > 0 {
                zero_val()
            } else {
                Value::PosInf
            }
        } else if en > 0 {
            make_val(pow(an, m), pow(ad, m))
        } else if pow(an, m) > 0 {
            make_val(pow(ad, m), pow(an, m))
        } else {
            make_val(-pow(ad, m), -pow(an, m))
        }
    }
}

/// Power, following the IEEE-754 `pow` rules for the special operands: an
/// exponent of zero gives one for any base (even `NaN`), a base of one
/// gives one for any exponent (even `NaN`), infinite operands follow the
/// magnitude and sign rules, and finite operands are `finite_pow`.
pub open spec fn spec_pow(a: Value, b: Value) -> Value {
    if is_zero(b) {
        one_val()
    } else if base_one(a) {
        one_val()
    } else if a is NaN || b is NaN {
        Value::NaN
    } else {
        match b {
            Value::NaN => Value::NaN,
            Value::PosInf => match a {
                Value::Num { num, den } => if abs(num as int) > den as int {
                    Value::PosInf
                } else if abs(num as int) < den as int {
                    zero_val()
                } else {
                    one_val()
                },
                _ => Value::PosInf,
            },
            Value::NegInf => match a {
                Value::Num { num, den } => if abs(num as int) > den as int {
                    zero_val()
                } else if abs(num as int) < den as int {
                    Value::PosInf
                } else {
                    one_val()
                },
                _ => zero_val(),
            },
            Value::Num { num: en, den: ed } => match a {
                Value::PosInf => if en > 0 {
                    Value::PosInf
                } else {
                    zero_val()
                },
                Value::NegInf => if en > 0 {
                    if odd_exp(en as int, ed as int) {
                        Value::NegInf
                    } else {
                        Value::PosInf
                    }
                } else {
                    zero_val()
                },
                Value::Num { num: an, den: ad } => finite_pow(
                    an as int,
                    ad as int,
                    en as int,
                    ed as int,
                ),
                Value::NaN => Value::NaN,
            },
        }
    }
}

/// Unfolds one step of `pow`.
proof fn lemma_pow_unfold(b: int, e: nat)
    requires
        e >= 1,
    ensures
        pow(b, e) == b * pow(b, (e - 1) as nat),
        pow(b, e) == pow(b, (e - 1) as nat) * b,
{
    reveal(pow);
    assert(b * pow(b, (e - 1) as nat) == pow(b, (e - 1) as nat) * b) by (nonlinear_arith);
}

/// Sign and magnitude of an integer power: the magnitude is at least one
/// when the base has magnitude at least one, and the sign follows the
/// parity of the exponent.
proof fn lemma_pow_props(b: int, e: nat)
    requires
        abs(b) >= 1,
    ensures
        abs(pow(b, e)) >= 1,
        (pow(b, e) < 0) == (b < 0 && e % 2 == 1),
    decreases e,
{
    reveal(pow);
    if e == 0 {
    } else {
        lemma_pow_props(b, (e - 1) as nat);
        let p = pow(b, (e - 1) as nat);
        assert(pow(b, e) == b * p);
        assert(abs(b * p) >= 1 && ((b * p < 0) == ((b < 0) != (p < 0)))) by (nonlinear_arith)
            requires
                abs(b) >= 1,
                abs(p) >= 1,
        ;
    }
}

/// The magnitude of `pow(b, e)` does not decrease with `e` when the base
/// has magnitude at least one.
proof fn lemma_abs_pow_nondec(b: int, e1: nat, e2: nat)
    requires
        abs(b) >= 1,
        e1 <= e2,
    ensures
        abs(pow(b, e1)) <= abs(pow(b, e2)),
    decreases e2 - e1,
{
    if e1 < e2 {
        lemma_abs_pow_nondec(b, e1, (e2 - 1) as nat);
        lemma_pow_unfold(b, e2);
        let p = pow(b, (e2 - 1) as nat);
        assert(abs(p) <= abs(b * p)) by (nonlinear_arith)
            requires
                abs(b) >= 1,
        ;
    }
}

/// Powers of one and of minus one.
proof fn lemma_pow_unit(e: nat)
    ensures
        pow(1, e) == 1,
        pow(-1, e) == if e % 2 == 1 {
            -1int
        } else {
            1int
        },
    decreases e,
{
    reveal(pow);
    if e > 0 {
        lemma_pow_unit((e - 1) as nat);
    }
}

/// The resolved componentwise state of an exact power: each of the
/// numerator and denominator of the base taken to the power `m`, either
/// exactly (when in range) or marked as out of range.
struct PowParts {
    n_over: bool,
    d_over: bool,
    n: i64,
    d: i64,
}

/// Computes `pow(bn, m)` and `pow(bd, m)` exactly while they stay within
/// `VAL_MAX`, and otherwise reports which component left the range.
fn pow_parts(bn: i64, bd: i64, m: u64) -> (r: PowParts)
    requires
        1 <= bd <= VAL_MAX,
        -VAL_MAX <= bn <= VAL_MAX,
        bn != 0,
        m >= 1,
        !(bd == 1 && (bn == 1 || bn == -1)),
    ensures
        !r.n_over ==> r.n == pow(bn as int, m as nat) && -VAL_MAX <= r.n <= VAL_MAX,
        r.n_over ==> abs(pow(bn as int, m as nat)) > VAL_MAX as int,
        !r.d_over ==> r.d == pow(bd as int, m as nat) && 1 <= r.d <= VAL_MAX,
        r.d_over ==> pow(bd as int, m as nat) > VAL_MAX as int,
{
    let mut i: u64 = 0;
    let mut n: i64 = 1;
    let mut d: i64 = 1;
    let mut n_over: bool = false;
    let mut d_over: bool = false;
    proof {
        reveal(pow);
    }
    while i < m && !((n_over || bn == 1 || bn == -1) && (d_over || bd == 1))
        invariant
            0 <= i <= m,
            1 <= bd <= VAL_MAX,
            -VAL_MAX <= bn <= VAL_MAX,
            bn != 0,
            !n_over ==> n == pow(bn as int, i as nat) && -VAL_MAX <= n <= VAL_MAX,
            n_over ==> abs(pow(bn as int, i as nat)) > VAL_MAX as int,
            !d_over ==> d == pow(bd as int, i as nat) && 1 <= d <= VAL_MAX,
            d_over ==> pow(bd as int, i as nat) > VAL_MAX as int,
        decreases m - i,
    {
        proof {
            lemma_pow_unfold(bn as int, (i + 1) as nat);
            lemma_pow_unfold(bd as int, (i + 1) as nat);
            lemma_pow_props(bn as int, i as nat);
            lemma_pow_props(bd as int, i as nat);
        }
        if !n_over {
            proof {
                lemma_mul_abs_le(n as int, bn as int, VAL_MAX as int, VAL_MAX as int);
            }
            let wide: i128 = (n as i128) * (bn as i128);
            proof {
                assert(pow(bn as int, (i + 1) as nat) == (n as int) * (bn as int));
            }
            if wide > VAL_MAX as i128 || wide < -(VAL_MAX as i128) {
                n_over = true;
            } else {
                n = wide as i64;
            }
        } else {
            proof {
                let p = pow(bn as int, i as nat);
                assert(abs(p) <= abs((bn as int) * p)) by (nonlinear_arith)
                    requires
                        abs(bn as int) >= 1,
                ;
                assert((bn as int) * p == pow(bn as int, (i + 1) as nat));
            }
        }
        if !d_over {
            proof {
                lemma_mul_abs_le(d as int, bd as int, VAL_MAX as int, VAL_MAX as int);
                assert((d as int) * (bd as int) >= 1) by (nonlinear_arith)
                    requires
                        d as int >= 1,
                        bd as int >= 1,
                ;
            }
            let wide: i128 = (d as i128) * (bd as i128);
            proof {
                assert(pow(bd as int, (i + 1) as nat) == (d as int) * (bd as int));
                lemma_pow_props(bd as int, (i + 1) as nat);
            }
            if wide > VAL_MAX as i128 {
                d_over = true;
            } else {
                d = wide as i64;
            }
        } else {
            proof {
                let p = pow(bd as int, i as nat);
                assert(abs(p) <= abs((bd as int) * p)) by (nonlinear_arith)
                    requires
                        abs(bd as int) >= 1,
                ;
                assert((bd as int) * p == pow(bd as int, (i + 1) as nat));
                lemma_pow_positive(bd as int, (i + 1) as nat);
            }
        }
        i = i + 1;
    }
    if i < m {
        proof {
            if n_over {
                lemma_abs_pow_nondec(bn as int, i as nat, m as nat);
            }
            if d_over {
                lemma_abs_pow_nondec(bd as int, i as nat, m as nat);
                lemma_pow_positive(bd as int, m as nat);
            }
            lemma_pow_unit(m as nat);
        }
        if !n_over {
            // the loop exited early, so the base numerator is one or minus one
            if bn == 1 {
                n = 1;
            } else {
                if m % 2 == 1 {
                    n = -1;
                } else {
                    n = 1;
                }
            }
        }
        if !d_over {
            // the loop exited early, so the base denominator is one
            d = 1;
        }
    }
    PowParts { n_over, d_over, n, d }
}

/// Bounds the magnitude of a product by the product of the bounds.
proof fn lemma_mul_abs_le(a: int, b: int, ma: int, mb: int)
    requires
        -ma <= a <= ma,
        -mb <= b <= mb,
        0 <= ma,
        0 <= mb,
    ensures
        -(ma * mb) <= a * b <= ma * mb,
{
    assert(-(ma * mb) <= a * b <= ma * mb) by (nonlinear_arith)
        requires
            -ma <= a <= ma,
            -mb <= b <= mb,
            0 <= ma,
            0 <= mb,
    ;
}

/// A product of positive factors is positive and bounded below by each
/// factor.
proof fn lemma_mul_pos(a: int, b: int)
    requires
        1 <= a,
        1 <= b,
    ensures
        1 <= a * b,
        a <= a * b,
        b <= a * b,
{
    assert(1 <= a * b && a <= a * b && b <= a * b) by (nonlinear_arith)
        requires
            1 <= a,
            1 <= b,
    ;
}

impl Value {
    /// Well-formed: a finite value keeps both components within `VAL_MAX`
    /// and its denominator positive.
    pub open spec fn wf(self) -> bool {
        match self {
            Value::Num { num, den } => 1 <= den <= VAL_MAX && -VAL_MAX <= num <= VAL_MAX,
            _ => true,
        }
    }

    /// The finite number zero.
    pub fn zero() -> (r: Value)
        ensures
            r == (Value::Num { num: 0, den: 1 }),
            r.wf(),
    {
        Value::Num { num: 0, den: 1 }
    }

    /// The whole number `n`, as a value.
    pub fn from_int(n: i64) -> (r: Value)
        requires
            -VAL_MAX <= n <= VAL_MAX,
        ensures
            r == (Value::Num { num: n, den: 1 }),
            r.wf(),
    {
        Value::Num { num: n, den: 1 }
    }

    /// Canonical boolean values: `1` for true, `0` for false.
    pub fn from_bool(b: bool) -> (r: Value)
        ensures
            r == spec_bool_val(b),
            r.wf(),
    {
        if b {
            Value::Num { num: 1, den: 1 }
        } else {
            Value::Num { num: 0, den: 1 }
        }
    }

    /// Classifies a wide exact result, as `make_val` does.
    fn from_wide(n: i128, d: i128) -> (r: Value)
        requires
            1 <= d,
        ensures
            r == make_val(n as int, d as int),
            r.wf(),
    {
        if d > VAL_MAX as i128 {
            Value::NaN
        } else if n > VAL_MAX as i128 {
            Value::PosInf
        } else if n < -(VAL_MAX as i128) {
            Value::NegInf
        } else {
            Value::Num { num: n as i64, den: d as i64 }
        }
    }

    /// The exact sum; see `spec_add`.
    pub fn add(self, rhs: Value) -> (r: Value)
        requires
            self.wf(),
            rhs.wf(),
        ensures
            r == spec_add(self, rhs),
            r.wf(),
    {
        match (self, rhs) {
            (Value::NaN, _) => Value::NaN,
            (_, Value::NaN) => Value::NaN,
            (Value::PosInf, Value::NegInf) => Value::NaN,
            (Value::NegInf, Value::PosInf) => Value::NaN,
            (Value::PosInf, _) => Value::PosInf,
            (_, Value::PosInf) => Value::PosInf,
            (Value::NegInf, _) => Value::NegInf,
            (_, Value::NegInf) => Value::NegInf,
            (Value::Num { num: an, den: ad }, Value::Num { num: bn, den: bd }) => {
                proof {
                    lemma_mul_abs_le(an as int, bd as int, VAL_MAX as int, VAL_MAX as int);
                    lemma_mul_abs_le(bn as int, ad as int, VAL_MAX as int, VAL_MAX as int);
                    lemma_mul_pos(ad as int, bd as int);
                    lemma_mul_abs_le(ad as int, bd as int, VAL_MAX as int, VAL_MAX as int);
                }
                let n: i128 = (an as i128) * (bd as i128) + (bn as i128) * (ad as i128);
                let d: i128 = (ad as i128) * (bd as i128);
                Value::from_wide(n, d)
            },
        }
    }

    /// The exact difference; see `spec_sub`.
    pub fn sub(self, rhs: Value) -> (r: Value)
        requires
            self.wf(),
            rhs.wf(),
        ensures
            r == spec_sub(self, rhs),
            r.wf(),
    {
        match (self, rhs) {
            (Value::NaN, _) => Value::NaN,
            (_, Value::NaN) => Value::NaN,
            (Value::PosInf, Value::PosInf) => Value::NaN,
            (Value::NegInf, Value::NegInf) => Value::NaN,
            (Value::PosInf, _) => Value::PosInf,
            (_, Value::NegInf) => Value::PosInf,
            (Value::NegInf, _) => Value::NegInf,
            (_, Value::PosInf) => Value::NegInf,
            (Value::Num { num: an, den: ad }, Value::Num { num: bn, den: bd }) => {
                proof {
                    lemma_mul_abs_le(an as int, bd as int, VAL_MAX as int, VAL_MAX as int);
                    lemma_mul_abs_le(bn as int, ad as int, VAL_MAX as int, VAL_MAX as int);
                    lemma_mul_pos(ad as int, bd as int);
                    lemma_mul_abs_le(ad as int, bd as int, VAL_MAX as int, VAL_MAX as int);
                }
                let n: i128 = (an as i128) * (bd as i128) - (bn as i128) * (ad as i128);
                let d: i128 = (ad as i128) * (bd as i128);
                Value::from_wide(n, d)
            },
        }
    }

    /// The exact product; see `spec_mul`.
    pub fn mul(self, rhs: Value) -> (r: Value)
        requires
            self.wf(),
            rhs.wf(),
        ensures
            r == spec_mul(self, rhs),
            r.wf(),
    {
        match (self, rhs) {
            (Value::NaN, _) => Value::NaN,
            (_, Value::NaN) => Value::NaN,
            (Value::Num { num: an, den: ad }, Value::Num { num: bn, den: bd }) => {
                proof {
                    lemma_mul_abs_le(an as int, bn as int, VAL_MAX as int, VAL_MAX as int);
                    lemma_mul_pos(ad as int, bd as int);
                    lemma_mul_abs_le(ad as int, bd as int, VAL_MAX as int, VAL_MAX as int);
                }
                let n: i128 = (an as i128) * (bn as i128);
                let d: i128 = (ad as i128) * (bd as i128);
                Value::from_wide(n, d)
            },
            _ => {
                let a_zero = self.eq_zero();
                let b_zero = rhs.eq_zero();
                if a_zero || b_zero {
                    Value::NaN
                } else if self.neg_sign() == rhs.neg_sign() {
                    Value::PosInf
                } else {
                    Value::NegInf
                }
            },
        }
    }

    /// The exact quotient; see `spec_div`.
    pub fn div(self, rhs: Value) -> (r: Value)
        requires
            self.wf(),
            rhs.wf(),
        ensures
            r == spec_div(self, rhs),
            r.wf(),
    {
        match (self, rhs) {
            (Value::NaN, _) => Value::NaN,
            (_, Value::NaN) => Value::NaN,
            (Value::Num { num: an, den: ad }, Value::Num { num: bn, den: bd }) => {
                if bn == 0 {
                    if an == 0 {
                        Value::NaN
                    } else if an > 0 {
                        Value::PosInf
                    } else {
                        Value::NegInf
                    }
                } else {
                    proof {
                        lemma_mul_abs_le(an as int, bd as int, VAL_MAX as int, VAL_MAX as int);
                        if bn > 0 {
                            lemma_mul_pos(ad as int, bn as int);
                        } else {
                            lemma_mul_pos(ad as int, -(bn as int));
                            assert((ad as int) * (-(bn as int)) == -((ad as int) * (bn as int)))
                                by (nonlinear_arith);
                        }
                        lemma_mul_abs_le(ad as int, bn as int, VAL_MAX as int, VAL_MAX as int);
                    }
                    let n: i128 = (an as i128) * (bd as i128);
                    let d: i128 = (ad as i128) * (bn as i128);
                    if bn > 0 {
                        Value::from_wide(n, d)
                    } else {
                        Value::from_wide(-n, -d)
                    }
                }
            },
            (Value::Num { num: an, den: ad }, _) => Value::Num { num: 0, den: 1 },
            (_, Value::Num { num: bn, den: bd }) => {
                if (self.neg_sign() == (bn < 0)) || bn == 0 && !self.neg_sign() {
                    Value::PosInf
                } else {
                    Value::NegInf
                }
            },
            _ => Value::NaN,
        }
    }

    /// True of the finite number zero.
    pub fn eq_zero(&self) -> (r: bool)
        ensures
            r == is_zero(*self),
    {
        match self {
            Value::Num { num, den } => *num == 0,
            _ => false,
        }
    }

    /// Strictly negative: a negative finite value or `NegInf`.
    fn neg_sign(&self) -> (r: bool)
        ensures
            r == is_neg(*self),
    {
        match self {
            Value::Num { num, den } => *num < 0,
            Value::NegInf => true,
            _ => false,
        }
    }

    /// Strict order; see `spec_lt`.
    pub fn lt(self, rhs: Value) -> (r: bool)
        requires
            self.wf(),
            rhs.wf(),
        ensures
            r == spec_lt(self, rhs),
    {
        match (self, rhs) {
            (Value::NaN, _) => false,
            (_, Value::NaN) => false,
            (Value::NegInf, Value::NegInf) => false,
            (Value::NegInf, _) => true,
            (_, Value::NegInf) => false,
            (Value::PosInf, _) => false,
            (_, Value::PosInf) => true,
            (Value::Num { num: an, den: ad }, Value::Num { num: bn, den: bd }) => {
                proof {
                    lemma_mul_abs_le(an as int, bd as int, VAL_MAX as int, VAL_MAX as int);
                    lemma_mul_abs_le(bn as int, ad as int, VAL_MAX as int, VAL_MAX as int);
                }
                (an as i128) * (bd as i128) < (bn as i128) * (ad as i128)
            },
        }
    }

    /// Numeric equality; see `spec_eq_val`.
    pub fn eq_val(self, rhs: Value) -> (r: bool)
        requires
            self.wf(),
            rhs.wf(),
        ensures
            r == spec_eq_val(self, rhs),
    {
        match (self, rhs) {
            (Value::PosInf, Value::PosInf) => true,
            (Value::NegInf, Value::NegInf) => true,
            (Value::Num { num: an, den: ad }, Value::Num { num: bn, den: bd }) => {
                proof {
                    lemma_mul_abs_le(an as int, bd as int, VAL_MAX as int, VAL_MAX as int);
                    lemma_mul_abs_le(bn as int, ad as int, VAL_MAX as int, VAL_MAX as int);
                }
                (an as i128) * (bd as i128) == (bn as i128) * (ad as i128)
            },
            _ => false,
        }
    }

    /// Non-strict order; see `spec_le`.
    pub fn le(self, rhs: Value) -> (r: bool)
        requires
            self.wf(),
            rhs.wf(),
        ensures
            r == spec_le(self, rhs),
    {
        match (self, rhs) {
            (Value::NaN, _) => false,
            (_, Value::NaN) => false,
            _ => !rhs.lt(self),
        }
    }

    /// Truthiness; see `spec_truthy`.
    pub fn truthy(&self) -> (r: bool)
        ensures
            r == spec_truthy(*self),
    {
        !self.eq_zero()
    }

    /// Power; see `spec_pow`.
    pub fn pow_val(self, rhs: Value) -> (r: Value)
        requires
            self.wf(),
            rhs.wf(),
        ensures
            r == spec_pow(self, rhs),
            r.wf(),
    {
        if rhs.eq_zero() {
            return Value::Num { num: 1, den: 1 };
        }
        let self_one = match self {
            Value::Num { num, den } => num == den,
            _ => false,
        };
        if self_one {
            return Value::Num { num: 1, den: 1 };
        }
        match (self, rhs) {
            (Value::NaN, _) => Value::NaN,
            (_, Value::NaN) => Value::NaN,
            (Value::Num { num, den }, Value::PosInf) => {
                let mag: i64 = if num < 0 {
                    -num
                } else {
                    num
                };
                if mag > den {
                    Value::PosInf
                } else if mag < den {
                    Value::Num { num: 0, den: 1 }
                } else {
                    Value::Num { num: 1, den: 1 }
                }
            },
            (_, Value::PosInf) => Value::PosInf,
            (Value::Num { num, den }, Value::NegInf) => {
                let mag: i64 = if num < 0 {
                    -num
                } else {
                    num
                };
                if mag > den {
                    Value::Num { num: 0, den: 1 }
                } else if mag < den {
                    Value::PosInf
                } else {
                    Value::Num { num: 1, den: 1 }
                }
            },
            (_, Value::NegInf) => Value::Num { num: 0, den: 1 },
            (Value::PosInf, Value::Num { num: en, den: ed }) => {
                if en > 0 {
                    Value::PosInf
                } else {
                    Value::Num { num: 0, den: 1 }
                }
            },
            (Value::NegInf, Value::Num { num: en, den: ed }) => {
                if en > 0 {
                    let mag: u64 = if en < 0 {
                        (-en) as u64
                    } else {
                        en as u64
                    };
                    if mag % (ed as u64) == 0 && (mag / (ed as u64)) % 2 == 1 {
                        Value::NegInf
                    } else {
                        Value::PosInf
                    }
                } else {
                    Value::Num { num: 0, den: 1 }
                }
            },
            (Value::Num { num: an, den: ad }, Value::Num { num: en, den: ed }) => {
                Value::finite_pow_val(an, ad, en, ed)
            },
        }
    }

    /// Power of a finite base by a finite nonzero exponent; see
    /// `finite_pow`.
    fn finite_pow_val(an: i64, ad: i64, en: i64, ed: i64) -> (r: Value)
        requires
            1 <= ad <= VAL_MAX,
            -VAL_MAX <= an <= VAL_MAX,
            1 <= ed <= VAL_MAX,
            -VAL_MAX <= en <= VAL_MAX,
            en != 0,
            an != ad,
        ensures
            r == finite_pow(an as int, ad as int, en as int, ed as int),
            r.wf(),
    {
        let mag: u64 = if en < 0 {
            (-en) as u64
        } else {
            en as u64
        };
        if mag % (ed as u64) != 0 {
            return Value::NaN;
        }
        let m: u64 = mag / (ed as u64);
        proof {
            vstd::arithmetic::div_mod::lemma_fundamental_div_mod(mag as int, ed as int);
            assert(m >= 1) by (nonlinear_arith)
                requires
                    mag as int == (ed as int) * (m as int) + (mag as int % (ed as int)),
                    mag as int % (ed as int) == 0,
                    mag >= 1,
                    ed >= 1,
                    m >= 0,
            ;
        }
        if an == 0 {
            if en > 0 {
                return Value::Num { num: 0, den: 1 };
            } else {
                return Value::PosInf;
            }
        }
        if ad == 1 && (an == 1 || an == -1) {
            proof {
                lemma_pow_unit(m as nat);
            }
            // one and minus one are their own inverses, so the sign of the
            // exponent does not matter here
            if an == 1 || m % 2 == 0 {
                return Value::Num { num: 1, den: 1 };
            } else {
                return Value::Num { num: -1, den: 1 };
            }
        }
        let parts = pow_parts(an, ad, m);
        proof {
            lemma_pow_props(an as int, m as nat);
            lemma_pow_positive(ad as int, m as nat);
        }
        if en > 0 {
            if parts.d_over {
                Value::NaN
            } else if parts.n_over {
                if an < 0 && m % 2 == 1 {
                    Value::NegInf
                } else {
                    Value::PosInf
                }
            } else {
                Value::Num { num: parts.n, den: parts.d }
            }
        } else {
            if parts.n_over {
                Value::NaN
            } else if parts.d_over {
                if parts.n > 0 {
                    Value::PosInf
                } else {
                    Value::NegInf
                }
            } else {
                if parts.n > 0 {
                    Value::Num { num: parts.d, den: parts.n }
                } else {
                    Value::Num { num: -parts.d, den: -parts.n }
                }
            }
        }
    }
}

} // verus!
