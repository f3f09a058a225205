//! The expression sub-language: a tree of numeric leaves, variable
//! references and binary operators, evaluated over a flat variable
//! binding.
//!
//! There is a single value domain — `Value` — used for both numeric and
//! boolean results; booleans are canonicalized as `1` / `0`, and
//! truthiness of any value is "not equal to zero".  Both operands of `Or`
//! and `And` are always evaluated: there is no short-circuiting, so an
//! error in the right operand surfaces even when the left operand alone
//! determines the logical result.

use crate::value::spec_add;
use crate::value::spec_bool_val;
use crate::value::spec_div;
use crate::value::spec_eq_val;
use crate::value::spec_le;
use crate::value::spec_lt;
use crate::value::spec_mul;
use crate::value::spec_pow;
use crate::value::spec_sub;
use crate::value::spec_truthy;
use crate::value::zero_val;
use crate::value::Value;
use vstd::prelude::*;

verus! {

/// Evaluation failure: a variable leaf whose name has no binding in the
/// supplied context.
#[derive(Clone, Copy, Debug, PartialEq, Eq, Structural)]
pub struct UnboundVariableError {
    pub name: char,
}

/// The flat variable binding an expression is evaluated under: ordered
/// `(name, value)` pairs, looked up linearly with first-match-wins.
pub type Context = Vec<(char, Value)>;

/// A binary operator of the expression language.
#[derive(Clone, Copy, Debug, PartialEq, Eq, Structural)]
pub enum BinOp {
    Or,
    And,
    Eq,
    Gt,
    Lt,
    Ge,
    Le,
    Add,
    Sub,
    Mul,
    Div,
    Pow,
}

/// A simple mathematical or logical expression, evaluated in a context to
/// obtain a numeric result.
#[derive(Debug)]
pub enum Expression {
    Var(char),
    Value(Value),
    Or(Box<Expression>, Box<Expression>),
    And(Box<Expression>, Box<Expression>),
    Eq(Box<Expression>, Box<Expression>),
    GT(Box<Expression>, Box<Expression>),
    LT(Box<Expression>, Box<Expression>),
    GE(Box<Expression>, Box<Expression>),
    LE(Box<Expression>, Box<Expression>),
    Add(Box<Expression>, Box<Expression>),
    Sub(Box<Expression>, Box<Expression>),
    Mul(Box<Expression>, Box<Expression>),
    Div(Box<Expression>, Box<Expression>),
    Pow(Box<Expression>, Box<Expression>),
}

/// The value of one binary operator on two already-evaluated operands.
/// Comparisons and the logical operators give the canonical booleans `1`
/// and `0`.
pub open spec fn spec_binop(op: BinOp, a: Value, b: Value) -> Value {
    match op {
        BinOp::Or => spec_bool_val(spec_truthy(a) || spec_truthy(b)),
        BinOp::And => spec_bool_val(spec_truthy(a) && spec_truthy(b)),
        BinOp::Eq => spec_bool_val(spec_eq_val(a, b)),
        BinOp::Gt => spec_bool_val(spec_lt(b, a)),
        BinOp::Lt => spec_bool_val(spec_lt(a, b)),
        BinOp::Ge => spec_bool_val(spec_le(b, a)),
        BinOp::Le => spec_bool_val(spec_le(a, b)),
        BinOp::Add => spec_add(a, b),
        BinOp::Sub => spec_sub(a, b),
        BinOp::Mul => spec_mul(a, b),
        BinOp::Div => spec_div(a, b),
        BinOp::Pow => spec_pow(a, b),
    }
}

/// Combines the results of the two operands of a binary operator: both
/// operands are always evaluated, and an error in the left one wins.
pub open spec fn spec_combine(
    op: BinOp,
    ra: Result<Value, UnboundVariableError>,
    rb: Result<Value, UnboundVariableError>,
) -> Result<Value, UnboundVariableError> {
    match ra {
        Err(e) => Err(e),
        Ok(a) => match rb {
            Err(e) => Err(e),
            Ok(b) => Ok(spec_binop(op, a, b)),
        },
    }
}

/// First-match-wins linear lookup of a name in a context.
pub open spec fn spec_lookup(ctx: Seq<(char, Value)>, name: char) -> Option<Value>
    decreases ctx.len(),
{
    if ctx.len() == 0 {
        None
    } else if ctx[0].0 == name {
        Some(ctx[0].1)
    } else {
        spec_lookup(ctx.skip(1), name)
    }
}

/// Every value bound in the context is well-formed.
pub open spec fn wf_ctx(ctx: Seq<(char, Value)>) -> bool {
    forall|i: int| 0 <= i < ctx.len() ==> (#[trigger] ctx[i]).1.wf()
}

/// Evaluation of an expression under a context: numeric leaves are their
/// value, variable leaves are looked up (an unbound name is an error), and
/// operator nodes evaluate the left operand first, then the right operand,
/// then apply the operator — both operands are always evaluated in the
/// sense that an error anywhere below the node surfaces, whatever the
/// other operand's value is.
pub open spec fn spec_eval(e: Expression, ctx: Seq<(char, Value)>) -> Result<
    Value,
    UnboundVariableError,
>
    decreases e,
{
    match e {
        Expression::Value(v) => Ok(v),
        Expression::Var(x) => match spec_lookup(ctx, x) {
            Some(v) => Ok(v),
            None => Err(UnboundVariableError { name: x }),
        },
        Expression::Or(x, y) => spec_combine(BinOp::Or, spec_eval(*x, ctx), spec_eval(*y, ctx)),
        Expression::And(x, y) => spec_combine(BinOp::And, spec_eval(*x, ctx), spec_eval(*y, ctx)),
        Expression::Eq(x, y) => spec_combine(BinOp::Eq, spec_eval(*x, ctx), spec_eval(*y, ctx)),
        Expression::GT(x, y) => spec_combine(BinOp::Gt, spec_eval(*x, ctx), spec_eval(*y, ctx)),
        Expression::LT(x, y) => spec_combine(BinOp::Lt, spec_eval(*x, ctx), spec_eval(*y, ctx)),
        Expression::GE(x, y) => spec_combine(BinOp::Ge, spec_eval(*x, ctx), spec_eval(*y, ctx)),
        Expression::LE(x, y) => spec_combine(BinOp::Le, spec_eval(*x, ctx), spec_eval(*y, ctx)),
        Expression::Add(x, y) => spec_combine(BinOp::Add, spec_eval(*x, ctx), spec_eval(*y, ctx)),
        Expression::Sub(x, y) => spec_combine(BinOp::Sub, spec_eval(*x, ctx), spec_eval(*y, ctx)),
        Expression::Mul(x, y) => spec_combine(BinOp::Mul, spec_eval(*x, ctx), spec_eval(*y, ctx)),
        Expression::Div(x, y) => spec_combine(BinOp::Div, spec_eval(*x, ctx), spec_eval(*y, ctx)),
        Expression::Pow(x, y) => spec_combine(BinOp::Pow, spec_eval(*x, ctx), spec_eval(*y, ctx)),
    }
}

/// Boolean evaluation: the numeric result tested for truthiness.
pub open spec fn spec_eval_bool(e: Expression, ctx: Seq<(char, Value)>) -> Result<
    bool,
    UnboundVariableError,
> {
    match spec_eval(e, ctx) {
        Ok(v) => Ok(spec_truthy(v)),
        Err(err) => Err(err),
    }
}

impl Expression {
    /// Every numeric leaf of the expression is a well-formed value.
    pub open spec fn wf(self) -> bool
        decreases self,
    {
        match self {
            Expression::Value(v) => v.wf(),
            Expression::Var(x) => true,
            Expression::Or(x, y) => x.wf() && y.wf(),
            Expression::And(x, y) => x.wf() && y.wf(),
            Expression::Eq(x, y) => x.wf() && y.wf(),
            Expression::GT(x, y) => x.wf() && y.wf(),
            Expression::LT(x, y) => x.wf() && y.wf(),
            Expression::GE(x, y) => x.wf() && y.wf(),
            Expression::LE(x, y) => x.wf() && y.wf(),
            Expression::Add(x, y) => x.wf() && y.wf(),
            Expression::Sub(x, y) => x.wf() && y.wf(),
            Expression::Mul(x, y) => x.wf() && y.wf(),
            Expression::Div(x, y) => x.wf() && y.wf(),
            Expression::Pow(x, y) => x.wf() && y.wf(),
        }
    }

    /// Evaluates the expression under the given context; see `spec_eval`.
    /// Fails exactly when some variable leaf that evaluation reaches has no
    /// binding in the context.
    pub fn eval(&self, context: &Context) -> (r: Result<Value, UnboundVariableError>)
        requires
            self.wf(),
            wf_ctx(context@),
        ensures
            r == spec_eval(*self, context@),
            r matches Ok(v) ==> v.wf(),
        decreases *self,
    {
        match self {
            Expression::Value(v) => Ok(*v),
            Expression::Var(x) => lookup(context, *x),
            Expression::Or(x, y) => {
                let a = x.eval(context);
                let b = y.eval(context);
                match (a, b) {
                    (Err(e), _) => Err(e),
                    (_, Err(e)) => Err(e),
                    (Ok(va), Ok(vb)) => Ok(Value::from_bool(va.truthy() || vb.truthy())),
                }
            },
            Expression::And(x, y) => {
                let a = x.eval(context);
                let b = y.eval(context);
                match (a, b) {
                    (Err(e), _) => Err(e),
                    (_, Err(e)) => Err(e),
                    (Ok(va), Ok(vb)) => Ok(Value::from_bool(va.truthy() && vb.truthy())),
                }
            },
            Expression::Eq(x, y) => {
                let a = x.eval(context);
                let b = y.eval(context);
                match (a, b) {
                    (Err(e), _) => Err(e),
                    (_, Err(e)) => Err(e),
                    (Ok(va), Ok(vb)) => Ok(Value::from_bool(va.eq_val(vb))),
                }
            },
            Expression::GT(x, y) => {
                let a = x.eval(context);
                let b = y.eval(context);
                match (a, b) {
                    (Err(e), _) => Err(e),
                    (_, Err(e)) => Err(e),
                    (Ok(va), Ok(vb)) => Ok(Value::from_bool(vb.lt(va))),
                }
            },
            Expression::LT(x, y) => {
                let a = x.eval(context);
                let b = y.eval(context);
                match (a, b) {
                    (Err(e), _) => Err(e),
                    (_, Err(e)) => Err(e),
                    (Ok(va), Ok(vb)) => Ok(Value::from_bool(va.lt(vb))),
                }
            },
            Expression::GE(x, y) => {
                let a = x.eval(context);
                let b = y.eval(context);
                match (a, b) {
                    (Err(e), _) => Err(e),
                    (_, Err(e)) => Err(e),
                    (Ok(va), Ok(vb)) => Ok(Value::from_bool(vb.le(va))),
                }
            },
            Expression::LE(x, y) => {
                let a = x.eval(context);
                let b = y.eval(context);
                match (a, b) {
                    (Err(e), _) => Err(e),
                    (_, Err(e)) => Err(e),
                    (Ok(va), Ok(vb)) => Ok(Value::from_bool(va.le(vb))),
                }
            },
            Expression::Add(x, y) => {
                let a = x.eval(context);
                let b = y.eval(context);
                match (a, b) {
                    (Err(e), _) => Err(e),
                    (_, Err(e)) => Err(e),
                    (Ok(va), Ok(vb)) => Ok(va.add(vb)),
                }
            },
            Expression::Sub(x, y) => {
                let a = x.eval(context);
                let b = y.eval(context);
                match (a, b) {
                    (Err(e), _) => Err(e),
                    (_, Err(e)) => Err(e),
                    (Ok(va), Ok(vb)) => Ok(va.sub(vb)),
                }
            },
            Expression::Mul(x, y) => {
                let a = x.eval(context);
                let b = y.eval(context);
                match (a, b) {
                    (Err(e), _) => Err(e),
                    (_, Err(e)) => Err(e),
                    (Ok(va), Ok(vb)) => Ok(va.mul(vb)),
                }
            },
            Expression::Div(x, y) => {
                let a = x.eval(context);
                let b = y.eval(context);
                match (a, b) {
                    (Err(e), _) => Err(e),
                    (_, Err(e)) => Err(e),
                    (Ok(va), Ok(vb)) => Ok(va.div(vb)),
                }
            },
            Expression::Pow(x, y) => {
                let a = x.eval(context);
                let b = y.eval(context);
                match (a, b) {
                    (Err(e), _) => Err(e),
                    (_, Err(e)) => Err(e),
                    (Ok(va), Ok(vb)) => Ok(va.pow_val(vb)),
                }
            },
        }
    }

    /// Boolean evaluation: exactly `eval` tested against zero; see
    /// `spec_eval_bool` and `lemma_eval_bool_is_eval_nonzero`.
    pub fn eval_bool(&self, context: &Context) -> (r: Result<bool, UnboundVariableError>)
        requires
            self.wf(),
            wf_ctx(context@),
        ensures
            r == spec_eval_bool(*self, context@),
    {
        match self.eval(context) {
            Ok(v) => Ok(v.truthy()),
            Err(e) => Err(e),
        }
    }
}

/// First-match-wins linear lookup; see `spec_lookup`.
fn lookup(context: &Context, name: char) -> (r: Result<Value, UnboundVariableError>)
    ensures
        r == (match spec_lookup(context@, name) {
            Some(v) => Ok::<Value, UnboundVariableError>(v),
            None => Err(UnboundVariableError { name }),
        }),
        wf_ctx(context@) ==> (r matches Ok(v) ==> v.wf()),
{
    let n = context.len();
    let mut i: usize = 0;
    proof {
        assert(context@.skip(0) =~= context@);
    }
    while i < n
        invariant
            0 <= i <= n,
            n == context@.len(),
            spec_lookup(context@, name) == spec_lookup(context@.skip(i as int), name),
        decreases n - i,
    {
        proof {
            assert(context@.skip(i as int)[0] == context@[i as int]);
            assert(context@.skip(i as int).skip(1) =~= context@.skip(i as int + 1));
        }
        if context[i].0 == name {
            return Ok(context[i].1);
        }
        i = i + 1;
    }
    proof {
        assert(context@.skip(n as int).len() == 0);
    }
    Err(UnboundVariableError { name })
}

/// Law: boolean evaluation is exactly numeric evaluation tested for
/// inequality with zero — `eval_bool` succeeds with `true` on precisely
/// the contexts and expressions where `eval` succeeds with a value not
/// numerically equal to zero, and fails with the same error where `eval`
/// fails.
pub proof fn lemma_eval_bool_is_eval_nonzero(e: Expression, ctx: Seq<(char, Value)>)
    ensures
        spec_eval_bool(e, ctx) == (match spec_eval(e, ctx) {
            Ok(v) => Ok::<bool, UnboundVariableError>(!spec_eq_val(v, zero_val())),
            Err(err) => Err(err),
        }),
{
    match spec_eval(e, ctx) {
        Ok(v) => {
            assert(spec_truthy(v) == !spec_eq_val(v, zero_val())) by {
                match v {
                    Value::Num { num, den } => {
                        assert(num * 1 == num) by (nonlinear_arith);
                        assert(0 * den == 0) by (nonlinear_arith);
                    },
                    _ => {},
                }
            }
        },
        Err(err) => {},
    }
}

/// Law: `Or` and `And` never short-circuit — an error in the right
/// operand surfaces even when the left operand alone determines the
/// logical result, and an error in the left operand always surfaces.
pub proof fn lemma_no_short_circuit(x: Expression, y: Expression, ctx: Seq<(char, Value)>)
    ensures
        spec_eval(x, ctx) is Err ==> spec_eval(Expression::Or(Box::new(x), Box::new(y)), ctx)
            == spec_eval(x, ctx),
        spec_eval(x, ctx) is Ok && spec_eval(y, ctx) is Err ==> spec_eval(
            Expression::Or(Box::new(x), Box::new(y)),
            ctx,
        ) == spec_eval(y, ctx),
        spec_eval(x, ctx) is Err ==> spec_eval(Expression::And(Box::new(x), Box::new(y)), ctx)
            == spec_eval(x, ctx),
        spec_eval(x, ctx) is Ok && spec_eval(y, ctx) is Err ==> spec_eval(
            Expression::And(Box::new(x), Box::new(y)),
            ctx,
        ) == spec_eval(y, ctx),
{
}

} // verus!
