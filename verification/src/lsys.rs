//! The grammar data model and the rewriting engine.
//!
//! A symbol string is an ordered sequence of elements, each a symbol with
//! a bounded parameter list (capacity three).  A production rewrites one
//! element: its predecessor matches by symbol and arity and optionally by
//! a condition evaluated under the context formed by zipping the
//! predecessor's formal parameter names with the element's actual values;
//! its successor elements are produced by evaluating their expression
//! parameters under that same context.
//!
//! Rewriting is parallel (generational): every element of a generation is
//! matched against the pre-step string, and the next generation is the
//! concatenation of the per-element results.  Among the productions that
//! match an element, one is chosen by a weighted random draw; when the
//! matching productions' cumulative weight does not cover the draw, the
//! element is rewritten to itself (identity rewrite), which is also the
//! silent fallback when nothing matches.

use crate::expr::spec_eval;
use crate::expr::spec_eval_bool;
use crate::expr::wf_ctx;
use crate::expr::Context;
use crate::expr::Expression;
use crate::expr::UnboundVariableError;
use crate::rng::next_draw;
use crate::value::spec_add;
use crate::value::spec_le;
use crate::value::spec_lt;
use crate::value::zero_val;
use crate::value::Value;
use rand::rngs::StdRng;
use vstd::prelude::*;

verus! {

/// A grammar alphabet member: a single character.
pub type Symbol = char;

/// A parameter value bound to an element of the live string.
pub type ActualParam = Value;

/// A parameter name on a production's left-hand side.
pub type FormalParam = char;

/// Construction failure of a parameter list: more values supplied than the
/// fixed capacity of three.
#[derive(Clone, Copy, Debug, PartialEq, Eq, Structural)]
pub struct CapacityExceededError {
    /// How many values were supplied.
    pub supplied: usize,
}

/// An ordered parameter list of fixed capacity three; the variant is the
/// arity.  Arity is part of identity for matching: two lists are
/// arity-compatible exactly when they hold the same count of values.
#[derive(Clone, Copy, Debug, PartialEq, Eq, Structural)]
pub enum ParamList<T> {
    Empty,
    A1(T),
    A2(T, T),
    A3(T, T, T),
}

/// A symbol together with its parameter list.
#[derive(Clone, Copy, Debug, PartialEq, Eq, Structural)]
pub struct Element<T> {
    pub symbol: Symbol,
    pub params: ParamList<T>,
}

impl<T> ParamList<T> {
    /// The values in order.
    pub open spec fn seq_of(self) -> Seq<T> {
        match self {
            ParamList::Empty => Seq::empty(),
            ParamList::A1(a) => seq![a],
            ParamList::A2(a, b) => seq![a, b],
            ParamList::A3(a, b, c) => seq![a, b, c],
        }
    }

    /// The empty parameter list.
    pub fn empty() -> (r: ParamList<T>)
        ensures
            r == ParamList::<T>::Empty,
    {
        ParamList::Empty
    }

    /// How many values the list holds.
    pub fn arity(&self) -> (n: usize)
        ensures
            n == self.seq_of().len(),
            n <= 3,
    {
        match self {
            ParamList::Empty => 0,
            ParamList::A1(_) => 1,
            ParamList::A2(_, _) => 2,
            ParamList::A3(_, _, _) => 3,
        }
    }

    /// Arity compatibility: the two lists hold the same count of values,
    /// independent of the values themselves.
    pub fn same_arity<U>(&self, other: &ParamList<U>) -> (r: bool)
        ensures
            r == (self.seq_of().len() == other.seq_of().len()),
    {
        self.arity() == other.arity()
    }

    /// The value at position `i`.
    pub fn get(&self, i: usize) -> (r: &T)
        requires
            i < self.seq_of().len(),
        ensures
            *r == self.seq_of()[i as int],
    {
        match self {
            ParamList::Empty => unreached(),
            ParamList::A1(a) => a,
            ParamList::A2(a, b) => if i == 0 {
                a
            } else {
                b
            },
            ParamList::A3(a, b, c) => if i == 0 {
                a
            } else if i == 1 {
                b
            } else {
                c
            },
        }
    }

    /// Builds a list from at most three values, in order; fails with
    /// `CapacityExceededError` exactly when more than three are supplied.
    pub fn from_vec(v: Vec<T>) -> (r: Result<ParamList<T>, CapacityExceededError>)
        ensures
            match r {
                Ok(p) => v@.len() <= 3 && p.seq_of() == v@,
                Err(e) => v@.len() > 3 && e == (CapacityExceededError { supplied: v@.len() as usize }),
            },
    {
        let mut v = v;
        let n = v.len();
        if n == 0 {
            proof {
                assert(ParamList::<T>::Empty.seq_of() =~= v@);
            }
            Ok(ParamList::Empty)
        } else if n == 1 {
            let a = v.pop().unwrap();
            proof {
                assert(ParamList::A1(a).seq_of() =~= seq![a]);
            }
            Ok(ParamList::A1(a))
        } else if n == 2 {
            let b = v.pop().unwrap();
            let a = v.pop().unwrap();
            Ok(ParamList::A2(a, b))
        } else if n == 3 {
            let c = v.pop().unwrap();
            let b = v.pop().unwrap();
            let a = v.pop().unwrap();
            Ok(ParamList::A3(a, b, c))
        } else {
            Err(CapacityExceededError { supplied: n })
        }
    }
}

impl<T: Copy> ParamList<T> {
    /// Builds a list from a slice of at most three values, in order; fails
    /// with `CapacityExceededError` exactly when the slice is longer.
    pub fn from_slice(slice: &[T]) -> (r: Result<ParamList<T>, CapacityExceededError>)
        ensures
            match r {
                Ok(p) => slice@.len() <= 3 && p.seq_of() == slice@,
                Err(e) => slice@.len() > 3 && e == (CapacityExceededError {
                    supplied: slice@.len() as usize,
                }),
            },
    {
        let n = slice.len();
        if n == 0 {
            proof {
                assert(ParamList::<T>::Empty.seq_of() =~= slice@);
            }
            Ok(ParamList::Empty)
        } else if n == 1 {
            let a = *vstd::slice::slice_index_get(slice, 0);
            proof {
                assert(ParamList::A1(a).seq_of() =~= slice@);
            }
            Ok(ParamList::A1(a))
        } else if n == 2 {
            let a = *vstd::slice::slice_index_get(slice, 0);
            let b = *vstd::slice::slice_index_get(slice, 1);
            proof {
                assert(ParamList::A2(a, b).seq_of() =~= slice@);
            }
            Ok(ParamList::A2(a, b))
        } else if n == 3 {
            let a = *vstd::slice::slice_index_get(slice, 0);
            let b = *vstd::slice::slice_index_get(slice, 1);
            let c = *vstd::slice::slice_index_get(slice, 2);
            proof {
                assert(ParamList::A3(a, b, c).seq_of() =~= slice@);
            }
            Ok(ParamList::A3(a, b, c))
        } else {
            Err(CapacityExceededError { supplied: n })
        }
    }
}

/// Every parameter of the element is a well-formed value.
pub open spec fn wf_element(e: Element<Value>) -> bool {
    forall|i: int| 0 <= i < e.params.seq_of().len() ==> (#[trigger] e.params.seq_of()[i]).wf()
}

impl<T> Element<T> {
    /// Symbol-and-arity compatibility with another element.
    fn matches<U>(&self, other: &Element<U>) -> (r: bool)
        ensures
            r == (self.symbol == other.symbol && self.params.seq_of().len()
                == other.params.seq_of().len()),
    {
        self.symbol == other.symbol && self.params.same_arity(&other.params)
    }

    /// A placeholder element with no parameters.
    fn new() -> (r: Element<T>)
        ensures
            r.symbol == '-',
            r.params == ParamList::<T>::Empty,
    {
        Element { symbol: '-', params: ParamList::Empty }
    }
}

/// The transient binding for one match attempt: the predecessor's formal
/// names zipped positionally with the element's actual values, truncated
/// to the shorter of the two.
pub open spec fn spec_zip_ctx(names: Seq<char>, vals: Seq<Value>) -> Seq<(char, Value)> {
    Seq::new(
        if names.len() <= vals.len() {
            names.len()
        } else {
            vals.len()
        },
        |i: int| (names[i], vals[i]),
    )
}

/// A production: a predecessor with formal parameters, an optional
/// condition, a probability weight, and a successor sequence whose
/// parameters are expressions over the predecessor's formals.
#[derive(Debug)]
pub struct Production {
    pub pred: Element<FormalParam>,
    pub condition: Option<Expression>,
    pub probability: Value,
    pub succ: Vec<Element<Expression>>,
}

/// Every expression parameter of the element has well-formed leaves.
pub open spec fn wf_succ_element(e: Element<Expression>) -> bool {
    forall|i: int| 0 <= i < e.params.seq_of().len() ==> (#[trigger] e.params.seq_of()[i]).wf()
}

/// Whether the production matches the element: the predecessor must be
/// symbol-and-arity compatible, and the condition (when present) must
/// evaluate truthy under the zipped context.  Evaluation of the condition
/// can fail on an unbound variable, which is surfaced, never defaulted.
pub open spec fn spec_matches(p: Production, e: Element<Value>) -> Result<
    bool,
    UnboundVariableError,
> {
    if p.pred.symbol != e.symbol || p.pred.params.seq_of().len() != e.params.seq_of().len() {
        Ok(false)
    } else {
        match p.condition {
            None => Ok(true),
            Some(c) => spec_eval_bool(c, spec_zip_ctx(p.pred.params.seq_of(), e.params.seq_of())),
        }
    }
}

/// The successor element produced by evaluating each expression parameter
/// under the context, left to right; the first evaluation error wins.
pub open spec fn spec_apply_element(se: Element<Expression>, ctx: Seq<(char, Value)>) -> Result<
    Element<Value>,
    UnboundVariableError,
> {
    match se.params {
        ParamList::Empty => Ok(Element { symbol: se.symbol, params: ParamList::Empty }),
        ParamList::A1(e1) => match spec_eval(e1, ctx) {
            Err(err) => Err(err),
            Ok(v1) => Ok(Element { symbol: se.symbol, params: ParamList::A1(v1) }),
        },
        ParamList::A2(e1, e2) => match (spec_eval(e1, ctx), spec_eval(e2, ctx)) {
            (Err(err), _) => Err(err),
            (_, Err(err)) => Err(err),
            (Ok(v1), Ok(v2)) => Ok(Element { symbol: se.symbol, params: ParamList::A2(v1, v2) }),
        },
        ParamList::A3(e1, e2, e3) => match (spec_eval(e1, ctx), spec_eval(e2, ctx), spec_eval(
            e3,
            ctx,
        )) {
            (Err(err), _, _) => Err(err),
            (Ok(_), Err(err), _) => Err(err),
            (Ok(_), Ok(_), Err(err)) => Err(err),
            (Ok(v1), Ok(v2), Ok(v3)) => Ok(
                Element { symbol: se.symbol, params: ParamList::A3(v1, v2, v3) },
            ),
        },
    }
}

/// The successor elements produced in declared order; the first evaluation
/// error wins.
pub open spec fn spec_apply_seq(succ: Seq<Element<Expression>>, ctx: Seq<(char, Value)>) -> Result<
    Seq<Element<Value>>,
    UnboundVariableError,
>
    decreases succ.len(),
{
    if succ.len() == 0 {
        Ok(Seq::empty())
    } else {
        match spec_apply_element(succ[0], ctx) {
            Err(err) => Err(err),
            Ok(el) => match spec_apply_seq(succ.skip(1), ctx) {
                Err(err) => Err(err),
                Ok(rest) => Ok(seq![el] + rest),
            },
        }
    }
}

/// What applying the production to the element produces: the context is
/// re-zipped from the predecessor's formals and the element's actuals, and
/// every successor element's parameters are evaluated under it.
pub open spec fn spec_apply(p: Production, e: Element<Value>) -> Result<
    Seq<Element<Value>>,
    UnboundVariableError,
> {
    spec_apply_seq(p.succ@, spec_zip_ctx(p.pred.params.seq_of(), e.params.seq_of()))
}

impl Production {
    /// The condition has well-formed leaves, the probability is a
    /// well-formed weight in `[0, 1]`, and every successor parameter
    /// expression has well-formed leaves.
    pub open spec fn wf(self) -> bool {
        &&& match self.condition {
            None => true,
            Some(c) => c.wf(),
        }
        &&& self.probability.wf()
        &&& spec_le(zero_val(), self.probability)
        &&& spec_le(self.probability, crate::value::one_val())
        &&& forall|i: int| 0 <= i < self.succ@.len() ==> wf_succ_element(#[trigger] self.succ@[i])
    }

    /// A production with a placeholder predecessor, no condition,
    /// probability one and an empty successor.
    pub fn new() -> (r: Production)
        ensures
            r.pred.symbol == '-',
            r.pred.params == ParamList::<char>::Empty,
            r.condition is None,
            r.probability == crate::value::one_val(),
            r.succ@ == Seq::<Element<Expression>>::empty(),
            r.wf(),
    {
        let r = Production {
            pred: Element::new(),
            condition: None,
            probability: Value::Num { num: 1, den: 1 },
            succ: Vec::new(),
        };
        proof {
            assert(spec_le(zero_val(), r.probability));
            assert(spec_le(r.probability, crate::value::one_val()));
        }
        r
    }

    /// Replaces the predecessor.
    pub fn set_predecessor(&mut self, pred: Element<FormalParam>)
        ensures
            *final(self) == (Production { pred, ..*old(self) }),
    {
        self.pred = pred;
    }

    /// Replaces the condition.
    pub fn set_condition(&mut self, condition: Expression)
        requires
            condition.wf(),
        ensures
            *final(self) == (Production { condition: Some(condition), ..*old(self) }),
    {
        self.condition = Some(condition);
    }

    /// Replaces the probability weight, which must lie in `[0, 1]`.
    pub fn set_probability(&mut self, probability: Value)
        requires
            probability.wf(),
            spec_le(zero_val(), probability),
            spec_le(probability, crate::value::one_val()),
        ensures
            *final(self) == (Production { probability, ..*old(self) }),
    {
        self.probability = probability;
    }

    /// Appends one element to the successor.
    pub fn add_successor(&mut self, element: Element<Expression>)
        ensures
            final(self).pred == old(self).pred,
            final(self).condition == old(self).condition,
            final(self).probability == old(self).probability,
            final(self).succ@ == old(self).succ@.push(element),
    {
        self.succ.push(element);
    }

    /// The zipped context for one match attempt against `element`.
    fn context(&self, element: &Element<Value>) -> (c: Context)
        ensures
            c@ == spec_zip_ctx(self.pred.params.seq_of(), element.params.seq_of()),
            wf_element(*element) ==> wf_ctx(c@),
    {
        let n = if self.pred.params.arity() <= element.params.arity() {
            self.pred.params.arity()
        } else {
            element.params.arity()
        };
        let mut c: Context = Vec::new();
        let mut i: usize = 0;
        while i < n
            invariant
                0 <= i <= n,
                n == spec_zip_ctx(self.pred.params.seq_of(), element.params.seq_of()).len(),
                n <= self.pred.params.seq_of().len(),
                n <= element.params.seq_of().len(),
                c@ == spec_zip_ctx(self.pred.params.seq_of(), element.params.seq_of()).take(
                    i as int,
                ),
            decreases n - i,
        {
            c.push((*self.pred.params.get(i), *element.params.get(i)));
            proof {
                assert(c@ =~= spec_zip_ctx(self.pred.params.seq_of(), element.params.seq_of()).take(
                    i + 1,
                ));
            }
            i = i + 1;
        }
        proof {
            assert(c@ =~= spec_zip_ctx(self.pred.params.seq_of(), element.params.seq_of()));
        }
        c
    }

    /// Whether this production matches the element; see `spec_matches`.
    pub fn matches(&self, element: &Element<Value>) -> (r: Result<bool, UnboundVariableError>)
        requires
            self.wf(),
            wf_element(*element),
        ensures
            r == spec_matches(*self, *element),
    {
        if !self.pred.matches(element) {
            return Ok(false);
        }
        match &self.condition {
            None => Ok(true),
            Some(c) => c.eval_bool(&self.context(element)),
        }
    }

    /// Applies this production to the element; see `spec_apply`.  Fails
    /// exactly when some successor parameter expression references a
    /// variable absent from the zipped context.
    pub fn apply(&self, element: &Element<Value>) -> (r: Result<
        Vec<Element<Value>>,
        UnboundVariableError,
    >)
        requires
            self.wf(),
            wf_element(*element),
        ensures
            match r {
                Ok(els) => spec_apply(*self, *element) == Ok::<_, UnboundVariableError>(els@)
                    && forall|i: int| 0 <= i < els@.len() ==> wf_element(#[trigger] els@[i]),
                Err(err) => spec_apply(*self, *element) == Err::<Seq<Element<Value>>, _>(err),
            },
    {
        let ctx = self.context(element);
        let ghost succ_seq = self.succ@;
        let mut out: Vec<Element<Value>> = Vec::new();
        let mut i: usize = 0;
        let n = self.succ.len();
        proof {
            assert(succ_seq.skip(0) =~= succ_seq);
        }
        while i < n
            invariant
                0 <= i <= n,
                n == succ_seq.len(),
                succ_seq == self.succ@,
                self.wf(),
                wf_element(*element),
                ctx@ == spec_zip_ctx(self.pred.params.seq_of(), element.params.seq_of()),
                wf_ctx(ctx@),
                spec_apply_seq(succ_seq, ctx@) == (match spec_apply_seq(
                    succ_seq.skip(i as int),
                    ctx@,
                ) {
                    Err(err) => Err::<Seq<Element<Value>>, UnboundVariableError>(err),
                    Ok(rest) => Ok(out@ + rest),
                }),
                forall|j: int| 0 <= j < out@.len() ==> wf_element(#[trigger] out@[j]),
            decreases n - i,
        {
            let se = &self.succ[i];
            proof {
                assert(succ_seq.skip(i as int)[0] == succ_seq[i as int]);
                assert(succ_seq.skip(i as int).skip(1) =~= succ_seq.skip(i as int + 1));
                assert(wf_succ_element(succ_seq[i as int]));
            }
            let el = match apply_element(se, &ctx) {
                Ok(el) => el,
                Err(err) => {
                    return Err(err);
                },
            };
            let ghost out_before = out@;
            out.push(el);
            proof {
                if spec_apply_seq(succ_seq.skip(i as int + 1), ctx@) is Ok {
                    let rest = spec_apply_seq(succ_seq.skip(i as int + 1), ctx@)->Ok_0;
                    assert(out_before + (seq![el] + rest) =~= out@ + rest);
                }
            }
            i = i + 1;
        }
        proof {
            assert(succ_seq.skip(n as int) =~= Seq::<Element<Expression>>::empty());
            assert(out@ + Seq::<Element<Value>>::empty() =~= out@);
        }
        Ok(out)
    }
}

/// Evaluates every expression parameter of one successor element; see
/// `spec_apply_element`.
fn apply_element(se: &Element<Expression>, ctx: &Context) -> (r: Result<
    Element<Value>,
    UnboundVariableError,
>)
    requires
        wf_succ_element(*se),
        wf_ctx(ctx@),
    ensures
        r == spec_apply_element(*se, ctx@),
        r matches Ok(el) ==> wf_element(el),
{
    match &se.params {
        ParamList::Empty => Ok(Element { symbol: se.symbol, params: ParamList::Empty }),
        ParamList::A1(e1) => {
            proof {
                assert(se.params.seq_of()[0] == *e1);
            }
            match e1.eval(ctx) {
                Err(err) => Err(err),
                Ok(v1) => {
                    let el = Element { symbol: se.symbol, params: ParamList::A1(v1) };
                    proof {
                        assert(el.params.seq_of() =~= seq![v1]);
                    }
                    Ok(el)
                },
            }
        },
        ParamList::A2(e1, e2) => {
            proof {
                assert(se.params.seq_of()[0] == *e1);
                assert(se.params.seq_of()[1] == *e2);
            }
            let r1 = e1.eval(ctx);
            let r2 = e2.eval(ctx);
            match (r1, r2) {
                (Err(err), _) => Err(err),
                (_, Err(err)) => Err(err),
                (Ok(v1), Ok(v2)) => {
                    let el = Element { symbol: se.symbol, params: ParamList::A2(v1, v2) };
                    proof {
                        assert(el.params.seq_of() =~= seq![v1, v2]);
                    }
                    Ok(el)
                },
            }
        },
        ParamList::A3(e1, e2, e3) => {
            proof {
                assert(se.params.seq_of()[0] == *e1);
                assert(se.params.seq_of()[1] == *e2);
                assert(se.params.seq_of()[2] == *e3);
            }
            let r1 = e1.eval(ctx);
            let r2 = e2.eval(ctx);
            let r3 = e3.eval(ctx);
            match (r1, r2, r3) {
                (Err(err), _, _) => Err(err),
                (Ok(_), Err(err), _) => Err(err),
                (Ok(_), Ok(_), Err(err)) => Err(err),
                (Ok(v1), Ok(v2), Ok(v3)) => {
                    let el = Element { symbol: se.symbol, params: ParamList::A3(v1, v2, v3) };
                    proof {
                        assert(el.params.seq_of() =~= seq![v1, v2, v3]);
                    }
                    Ok(el)
                },
            }
        },
    }
}

/// The symbol string of one generation: an ordered sequence of actual
/// elements.  Once a generation's string is produced it is never mutated
/// in place while matches for a later step are computed against it.
#[derive(Debug)]
pub struct LString(Vec<Element<Value>>);

/// Every element of the string is well-formed.
pub open spec fn wf_lstring(s: Seq<Element<Value>>) -> bool {
    forall|i: int| 0 <= i < s.len() ==> wf_element(#[trigger] s[i])
}

impl View for LString {
    type V = Seq<Element<Value>>;

    closed spec fn view(&self) -> Seq<Element<Value>> {
        self.0@
    }
}

impl LString {
    /// The empty string.
    pub fn new() -> (r: LString)
        ensures
            r@ == Seq::<Element<Value>>::empty(),
    {
        let r = LString(Vec::new());
        proof {
            assert(r@ =~= Seq::<Element<Value>>::empty());
        }
        r
    }

    /// Wraps a vector of elements.
    pub fn from_vec(v: Vec<Element<Value>>) -> (r: LString)
        ensures
            r@ == v@,
    {
        LString(v)
    }

    /// How many elements the string holds.
    pub fn len(&self) -> (n: usize)
        ensures
            n == self@.len(),
    {
        self.0.len()
    }

    /// The element at position `i`.
    pub fn get(&self, i: usize) -> (r: &Element<Value>)
        requires
            i < self@.len(),
        ensures
            *r == self@[i as int],
    {
        &self.0[i]
    }

    /// Appends one element.
    pub fn push(&mut self, value: Element<Value>)
        ensures
            final(self)@ == old(self)@.push(value),
    {
        self.0.push(value);
    }

    /// Moves every element of `other` to the end of this string, leaving
    /// `other` empty.
    pub fn append(&mut self, other: &mut LString)
        ensures
            final(self)@ == old(self)@ + old(other)@,
            final(other)@ == Seq::<Element<Value>>::empty(),
    {
        self.0.append(&mut other.0);
        proof {
            assert(other@ =~= Seq::<Element<Value>>::empty());
        }
    }

    /// Moves every element of a vector to the end of this string.
    fn push_all(&mut self, mut els: Vec<Element<Value>>)
        ensures
            final(self)@ == old(self)@ + els@,
    {
        self.0.append(&mut els);
    }

    /// Removes every element.
    fn clear(&mut self)
        ensures
            final(self)@ == Seq::<Element<Value>>::empty(),
    {
        self.0.clear();
        proof {
            assert(self@ =~= Seq::<Element<Value>>::empty());
        }
    }
}

/// The fraction `r / 2^32` in `[0, 1)` that a 32-bit draw stands for.
pub open spec fn draw_val(r: u32) -> Value {
    Value::Num { num: r as i64, den: 0x1_0000_0000 }
}

/// Weighted stochastic selection among the productions that match `e`,
/// walking them in declaration order with the cumulative weight `t`: the
/// first matching production whose cumulative weight exceeds the draw is
/// selected; when the matching productions' total weight does not cover
/// the draw, none fires (`None`), and the caller falls back to the
/// identity rewrite.  A condition that fails to evaluate surfaces as an
/// error.
pub open spec fn spec_select(
    prods: Seq<Production>,
    e: Element<Value>,
    rv: Value,
    t: Value,
) -> Result<Option<Production>, UnboundVariableError>
    decreases prods.len(),
{
    if prods.len() == 0 {
        Ok(None)
    } else {
        match spec_matches(prods[0], e) {
            Err(err) => Err(err),
            Ok(m) => if m {
                let t2 = spec_add(t, prods[0].probability);
                if spec_lt(rv, t2) {
                    Ok(Some(prods[0]))
                } else {
                    spec_select(prods.skip(1), e, rv, t2)
                }
            } else {
                spec_select(prods.skip(1), e, rv, t)
            },
        }
    }
}

/// The rewrite of one element under one draw: the selected production's
/// successor elements, or the element itself when no production fires.
#[verifier::opaque]
pub open spec fn spec_step(prods: Seq<Production>, e: Element<Value>, r: u32) -> Result<
    Seq<Element<Value>>,
    UnboundVariableError,
> {
    match spec_select(prods, e, draw_val(r), zero_val()) {
        Err(err) => Err(err),
        Ok(None) => Ok(seq![e]),
        Ok(Some(p)) => spec_apply(p, e),
    }
}

/// One whole generation: every element of `cur` is rewritten against the
/// pre-step string and the results are concatenated in order, element `i`
/// using draw `rs[i]`.  This is parallel (generational) rewriting: nothing
/// produced during the step is matched within the same step.
pub open spec fn spec_generate(
    cur: Seq<Element<Value>>,
    prods: Seq<Production>,
    rs: Seq<u32>,
) -> Result<Seq<Element<Value>>, UnboundVariableError>
    decreases cur.len(),
{
    if cur.len() == 0 {
        Ok(Seq::empty())
    } else {
        match spec_step(prods, cur[0], rs[0]) {
            Err(err) => Err(err),
            Ok(head) => match spec_generate(cur.skip(1), prods, rs.skip(1)) {
                Err(err) => Err(err),
                Ok(rest) => Ok(head + rest),
            },
        }
    }
}

/// `k` generations in sequence, one draw sequence per generation.
pub open spec fn spec_advance(
    cur: Seq<Element<Value>>,
    prods: Seq<Production>,
    rss: Seq<Seq<u32>>,
) -> Result<Seq<Element<Value>>, UnboundVariableError>
    decreases rss.len(),
{
    if rss.len() == 0 {
        Ok(cur)
    } else {
        match spec_generate(cur, prods, rss[0]) {
            Err(err) => Err(err),
            Ok(c2) => spec_advance(c2, prods, rss.skip(1)),
        }
    }
}

/// Law: rewriting is parallel (generational) — extending a generation by
/// one element extends its rewrite by exactly that element's own rewrite
/// against the productions, independent of everything produced for the
/// elements before it.  The next generation is therefore the concatenation
/// of per-element rewrites of the pre-step string, never of anything
/// produced within the same step.
#[verifier::rlimit(100)]
pub proof fn lemma_generate_snoc(
    cur: Seq<Element<Value>>,
    prods: Seq<Production>,
    rs: Seq<u32>,
    e: Element<Value>,
    r: u32,
)
    requires
        rs.len() == cur.len(),
    ensures
        spec_generate(cur.push(e), prods, rs.push(r)) == (match spec_generate(cur, prods, rs) {
            Err(err) => Err::<Seq<Element<Value>>, UnboundVariableError>(err),
            Ok(pre) => match spec_step(prods, e, r) {
                Err(err) => Err(err),
                Ok(head) => Ok(pre + head),
            },
        }),
    decreases cur.len(),
{
    reveal_with_fuel(spec_generate, 2);
    if cur.len() == 0 {
        assert(cur.push(e)[0] == e);
        assert(rs.push(r)[0] == r);
        assert(cur.push(e).skip(1) =~= Seq::<Element<Value>>::empty());
        assert(rs.push(r).skip(1) =~= Seq::<u32>::empty());
        match spec_step(prods, e, r) {
            Err(err) => {},
            Ok(head) => {
                assert(head + Seq::<Element<Value>>::empty() =~= head);
                assert(Seq::<Element<Value>>::empty() + head =~= head);
            },
        }
    } else {
        assert(cur.push(e)[0] == cur[0]);
        assert(rs.push(r)[0] == rs[0]);
        assert(cur.push(e).skip(1) =~= cur.skip(1).push(e));
        assert(rs.push(r).skip(1) =~= rs.skip(1).push(r));
        lemma_generate_snoc(cur.skip(1), prods, rs.skip(1), e, r);
        match spec_step(prods, cur[0], rs[0]) {
            Err(err) => {},
            Ok(head0) => {
                match spec_generate(cur.skip(1), prods, rs.skip(1)) {
                    Err(err) => {},
                    Ok(rest) => {
                        match spec_step(prods, e, r) {
                            Err(err) => {},
                            Ok(head) => {
                                assert((head0 + rest) + head =~= head0 + (rest + head));
                            },
                        }
                    },
                }
            },
        }
    }
}

/// A generation whose prefix rewrites cleanly and whose element `i` fails
/// fails as a whole, with that element's error, whatever the draws for the
/// elements after it.
#[verifier::rlimit(100)]
proof fn lemma_generate_err_at(
    cur: Seq<Element<Value>>,
    prods: Seq<Production>,
    rs: Seq<u32>,
    i: int,
)
    requires
        0 <= i < cur.len(),
        rs.len() == cur.len(),
        spec_generate(cur.take(i), prods, rs.take(i)) is Ok,
        spec_step(prods, cur[i], rs[i]) is Err,
    ensures
        spec_generate(cur, prods, rs) == (match spec_step(prods, cur[i], rs[i]) {
            Err(err) => Err::<Seq<Element<Value>>, UnboundVariableError>(err),
            Ok(_) => Ok(Seq::empty()),
        }),
    decreases i,
{
    if i == 0 {
    } else {
        assert(cur.take(i)[0] == cur[0]);
        assert(rs.take(i)[0] == rs[0]);
        assert(cur.take(i).skip(1) =~= cur.skip(1).take(i - 1));
        assert(rs.take(i).skip(1) =~= rs.skip(1).take(i - 1));
        assert(cur.skip(1)[i - 1] == cur[i]);
        assert(rs.skip(1)[i - 1] == rs[i]);
        lemma_generate_err_at(cur.skip(1), prods, rs.skip(1), i - 1);
    }
}

/// Appending one more generation's draws advances the result by one more
/// generation.
#[verifier::rlimit(100)]
proof fn lemma_advance_snoc(
    cur: Seq<Element<Value>>,
    prods: Seq<Production>,
    rss: Seq<Seq<u32>>,
    rs: Seq<u32>,
)
    ensures
        spec_advance(cur, prods, rss.push(rs)) == (match spec_advance(cur, prods, rss) {
            Err(err) => Err::<Seq<Element<Value>>, UnboundVariableError>(err),
            Ok(c2) => spec_generate(c2, prods, rs),
        }),
    decreases rss.len(),
{
    reveal_with_fuel(spec_advance, 2);
    if rss.len() == 0 {
        assert(rss.push(rs)[0] == rs);
        assert(rss.push(rs).skip(1) =~= Seq::<Seq<u32>>::empty());
    } else {
        assert(rss.push(rs)[0] == rss[0]);
        assert(rss.push(rs).skip(1) =~= rss.skip(1).push(rs));
        match spec_generate(cur, prods, rss[0]) {
            Err(err) => {},
            Ok(c2) => {
                lemma_advance_snoc(c2, prods, rss.skip(1), rs);
            },
        }
    }
}

/// The rewriting engine: the current symbol string, a scratch string for
/// the generation being built, the immutable production set, a generation
/// counter and the injected random source.
#[derive(Debug)]
pub struct LSystem {
    pub current: LString,
    next: LString,
    productions: Vec<Production>,
    count: u64,
    rng: StdRng,
}

impl LSystem {
    /// The current symbol string, as a sequence of elements.
    pub closed spec fn spec_current(self) -> Seq<Element<Value>> {
        self.current@
    }

    /// The production set, in grammar declaration order.
    pub closed spec fn spec_productions(self) -> Seq<Production> {
        self.productions@
    }

    /// How many generations have been produced so far.
    pub closed spec fn generation(self) -> u64 {
        self.count
    }

    /// The current symbol string.
    pub fn current_string(&self) -> (r: &LString)
        ensures
            r@ == self.spec_current(),
            self.wf() ==> wf_lstring(r@),
    {
        &self.current
    }

    /// How many productions the system holds.
    pub fn productions_len(&self) -> (n: usize)
        ensures
            n == self.spec_productions().len(),
    {
        self.productions.len()
    }

    /// The production at position `i`, in declaration order.
    pub fn production_at(&self, i: usize) -> (r: &Production)
        requires
            i < self.spec_productions().len(),
        ensures
            *r == self.spec_productions()[i as int],
            self.wf() ==> r.wf(),
    {
        &self.productions[i]
    }

    /// The current string and every production are well-formed, and the
    /// scratch string is empty between generations.
    pub closed spec fn wf(self) -> bool {
        &&& wf_lstring(self.current@)
        &&& self.next@.len() == 0
        &&& forall|i: int|
            0 <= i < self.productions@.len() ==> (#[trigger] self.productions@[i]).wf()
    }

    /// Builds an engine from the starting string (generation zero), an ordered
    /// production set, and an injected, seedable random source.
    pub fn new(start: LString, productions: Vec<Production>, rng: StdRng) -> (r: LSystem)
        requires
            wf_lstring(start@),
            forall|i: int| 0 <= i < productions@.len() ==> (#[trigger] productions@[i]).wf(),
        ensures
            r.spec_current() == start@,
            r.spec_productions() == productions@,
            r.generation() == 0,
            r.wf(),
    {
        LSystem { current: start, next: LString::new(), productions, count: 0, rng }
    }

    /// Weighted stochastic selection for one element under the draw `r`;
    /// see `spec_select`.  Returns the index of the selected production.
    fn select_production(&self, element: &Element<Value>, r: u32) -> (res: Result<
        Option<usize>,
        UnboundVariableError,
    >)
        requires
            forall|i: int|
                0 <= i < self.productions@.len() ==> (#[trigger] self.productions@[i]).wf(),
            wf_element(*element),
        ensures
            match res {
                Ok(None) => spec_select(self.productions@, *element, draw_val(r), zero_val())
                    == Ok::<Option<Production>, UnboundVariableError>(None),
                Ok(Some(i)) => i < self.productions@.len() && spec_select(
                    self.productions@,
                    *element,
                    draw_val(r),
                    zero_val(),
                ) == Ok::<Option<Production>, UnboundVariableError>(
                    Some(self.productions@[i as int]),
                ),
                Err(err) => spec_select(self.productions@, *element, draw_val(r), zero_val())
                    == Err::<Option<Production>, UnboundVariableError>(err),
            },
    {
        let rv = Value::Num { num: r as i64, den: 0x1_0000_0000 };
        let mut t = Value::zero();
        let n = self.productions.len();
        let mut i: usize = 0;
        proof {
            assert(self.productions@.skip(0) =~= self.productions@);
        }
        while i < n
            invariant
                0 <= i <= n,
                n == self.productions@.len(),
                forall|j: int|
                    0 <= j < self.productions@.len() ==> (#[trigger] self.productions@[j]).wf(),
                wf_element(*element),
                t.wf(),
                rv == draw_val(r),
                rv.wf(),
                spec_select(self.productions@, *element, draw_val(r), zero_val()) == spec_select(
                    self.productions@.skip(i as int),
                    *element,
                    draw_val(r),
                    t,
                ),
            decreases n - i,
        {
            proof {
                assert(self.productions@.skip(i as int)[0] == self.productions@[i as int]);
                assert(self.productions@.skip(i as int).skip(1) =~= self.productions@.skip(
                    i as int + 1,
                ));
            }
            let p = &self.productions[i];
            match p.matches(element) {
                Err(err) => {
                    return Err(err);
                },
                Ok(m) => {
                    if m {
                        let t2 = t.add(p.probability);
                        if rv.lt(t2) {
                            return Ok(Some(i));
                        }
                        t = t2;
                    }
                },
            }
            i = i + 1;
        }
        proof {
            assert(self.productions@.skip(n as int).len() == 0);
        }
        Ok(None)
    }


    /// Advances the system by exactly one generation: every element of the
    /// current string is rewritten against the pre-step string (identity
    /// when no production fires), the results are concatenated in order,
    /// and the new string atomically replaces the current one.  Some draw
    /// sequence — one 32-bit draw per element of the old string — accounts
    /// for the outcome; nothing else does.  On an evaluation error the
    /// call fails and the current string and generation count are left
    /// unchanged.
    #[verifier::rlimit(100)]
pub fn generate(&mut self) -> (r: Result<(), UnboundVariableError>)
        requires
            old(self).wf(),
            old(self).generation() < u64::MAX,
        ensures
            final(self).wf(),
            final(self).spec_productions() == old(self).spec_productions(),
            match r {
                Ok(()) => {
                    &&& final(self).generation() == old(self).generation() + 1
                    &&& exists|rs: Seq<u32>|
                        rs.len() == old(self).spec_current().len() && #[trigger] spec_generate(
                            old(self).spec_current(),
                            old(self).spec_productions(),
                            rs,
                        ) == Ok::<Seq<Element<Value>>, UnboundVariableError>(final(self).spec_current())
                },
                Err(err) => {
                    &&& final(self).generation() == old(self).generation()
                    &&& final(self).spec_current() == old(self).spec_current()
                    &&& exists|rs: Seq<u32>|
                        rs.len() == old(self).spec_current().len() && #[trigger] spec_generate(
                            old(self).spec_current(),
                            old(self).spec_productions(),
                            rs,
                        ) == Err::<Seq<Element<Value>>, UnboundVariableError>(err)
                },
            },
    {
        let ghost cur0 = self.current@;
        let ghost prods = self.productions@;
        let ghost mut rs: Seq<u32> = Seq::empty();
        let n = self.current.len();
        let mut i: usize = 0;
        proof {
            assert(cur0.take(0) =~= Seq::<Element<Value>>::empty());
            assert(rs.take(0) =~= rs);
            assert(self.next@ =~= Seq::<Element<Value>>::empty());
        }
        while i < n
            invariant
                0 <= i <= n,
                n == cur0.len(),
                cur0 == old(self).current@,
                prods == old(self).productions@,
                self.current@ == cur0,
                self.productions@ == prods,
                self.count == old(self).count,
                wf_lstring(cur0),
                forall|j: int| 0 <= j < prods.len() ==> (#[trigger] prods[j]).wf(),
                rs.len() == i,
                spec_generate(cur0.take(i as int), prods, rs) == Ok::<
                    Seq<Element<Value>>,
                    UnboundVariableError,
                >(self.next@),
                wf_lstring(self.next@),
            decreases n - i,
        {
            let el = *self.current.get(i);
            let r = next_draw(&mut self.rng);
            let ghost rs_before = rs;
            let ghost next_before = self.next@;
            proof {
                rs = rs.push(r);
                assert(rs.take(i as int) =~= rs_before);
                assert(cur0.take(i as int).push(cur0[i as int]) =~= cur0.take(i as int + 1));
                assert(rs_before.push(r).take(i as int + 1) =~= rs_before.push(r));
                lemma_generate_snoc(cur0.take(i as int), prods, rs_before, el, r);
            }
            let sel = match self.select_production(&el, r) {
                Ok(sel) => sel,
                Err(err) => {
                    proof {
                        lemma_step_select_err(prods, el, r, err);
                        let rs_full = rs + Seq::new((n - i - 1) as nat, |j: int| 0u32);
                        assert(rs_full.take(i as int) =~= rs_before);
                        assert(rs_full[i as int] == r);
                        lemma_generate_err_at(cur0, prods, rs_full, i as int);
                    }
                    self.next.clear();
                    return Err(err);
                },
            };
            match sel {
                None => {
                    proof {
                        lemma_step_none(prods, el, r);
                    }
                    self.next.push(el);
                    proof {
                        assert(next_before + seq![el] =~= self.next@);
                    }
                },
                Some(idx) => {
                    let adds = match self.productions[idx].apply(&el) {
                        Ok(adds) => adds,
                        Err(err) => {
                            proof {
                                lemma_step_some(prods, el, r, prods[idx as int]);
                                let rs_full = rs + Seq::new((n - i - 1) as nat, |j: int| 0u32);
                                assert(rs_full.take(i as int) =~= rs_before);
                                assert(rs_full[i as int] == r);
                                lemma_generate_err_at(cur0, prods, rs_full, i as int);
                            }
                            self.next.clear();
                            return Err(err);
                        },
                    };
                    proof {
                        lemma_step_some(prods, el, r, prods[idx as int]);
                    }
                    self.next.push_all(adds);
                },
            }
            i = i + 1;
        }
        proof {
            assert(cur0.take(n as int) =~= cur0);
        }
        core::mem::swap(&mut self.current, &mut self.next);
        self.next.clear();
        self.count = self.count + 1;
        proof {
            assert(rs.len() == old(self).spec_current().len());
            assert(spec_generate(old(self).spec_current(), old(self).spec_productions(), rs)
                == Ok::<Seq<Element<Value>>, UnboundVariableError>(self.current@));
        }
        Ok(())
    }

    /// Performs exactly `k` rewrite steps, advancing the internal position:
    /// a stateful skip-ahead, not a repeatable query.  There is no way
    /// back; rewinding takes a fresh engine built from the original start
    /// string and productions.  On an error the system stays at the last
    /// successfully produced generation.
    #[verifier::rlimit(100)]
pub fn advance(&mut self, k: usize) -> (r: Result<(), UnboundVariableError>)
        requires
            old(self).wf(),
            old(self).generation() + k <= u64::MAX,
        ensures
            final(self).wf(),
            final(self).spec_productions() == old(self).spec_productions(),
            match r {
                Ok(()) => {
                    &&& final(self).generation() == old(self).generation() + k
                    &&& exists|rss: Seq<Seq<u32>>|
                        rss.len() == k && #[trigger] spec_advance(
                            old(self).spec_current(),
                            old(self).spec_productions(),
                            rss,
                        ) == Ok::<Seq<Element<Value>>, UnboundVariableError>(final(self).spec_current())
                },
                Err(err) => {
                    &&& final(self).generation() <= old(self).generation() + k
                    &&& exists|rss: Seq<Seq<u32>>|
                        rss.len() <= k && #[trigger] spec_advance(
                            old(self).spec_current(),
                            old(self).spec_productions(),
                            rss,
                        ) == Err::<Seq<Element<Value>>, UnboundVariableError>(err)
                },
            },
    {
        let ghost cur0 = self.current@;
        let ghost prods = self.productions@;
        let ghost mut rss: Seq<Seq<u32>> = Seq::empty();
        let mut j: usize = 0;
        while j < k
            invariant
                0 <= j <= k,
                cur0 == old(self).current@,
                prods == old(self).productions@,
                self.wf(),
                self.productions@ == prods,
                self.count == old(self).count + j,
                old(self).count + k <= u64::MAX,
                rss.len() == j,
                spec_advance(cur0, prods, rss) == Ok::<Seq<Element<Value>>, UnboundVariableError>(
                    self.current@,
                ),
            decreases k - j,
        {
            let ghost cur_j = self.current@;
            match self.generate() {
                Ok(()) => {
                    proof {
                        let rs = choose|rs: Seq<u32>|
                            rs.len() == cur_j.len() && spec_generate(cur_j, prods, rs) == Ok::<
                                Seq<Element<Value>>,
                                UnboundVariableError,
                            >(self.current@);
                        lemma_advance_snoc(cur0, prods, rss, rs);
                        rss = rss.push(rs);
                    }
                },
                Err(err) => {
                    proof {
                        let rs = choose|rs: Seq<u32>|
                            rs.len() == cur_j.len() && #[trigger] spec_generate(cur_j, prods, rs)
                                == Err::<Seq<Element<Value>>, UnboundVariableError>(err);
                        lemma_advance_snoc(cur0, prods, rss, rs);
                        rss = rss.push(rs);
                        assert(rss.len() <= k);
                        assert(spec_advance(
                            old(self).spec_current(),
                            old(self).spec_productions(),
                            rss,
                        ) == Err::<Seq<Element<Value>>, UnboundVariableError>(err));
                    }
                    return Err(err);
                },
            }
            j = j + 1;
        }
        proof {
            assert(rss.len() == k);
            assert(spec_advance(old(self).spec_current(), old(self).spec_productions(), rss)
                == Ok::<Seq<Element<Value>>, UnboundVariableError>(self.current@));
        }
        Ok(())
    }
}

/// The step of an element no production fires for is the identity rewrite.
proof fn lemma_step_none(prods: Seq<Production>, e: Element<Value>, r: u32)
    requires
        spec_select(prods, e, draw_val(r), zero_val()) == Ok::<
            Option<Production>,
            UnboundVariableError,
        >(None),
    ensures
        spec_step(prods, e, r) == Ok::<Seq<Element<Value>>, UnboundVariableError>(seq![e]),
{
    reveal(spec_step);
}

/// The step of an element a production fires for is that production's
/// application.
proof fn lemma_step_some(prods: Seq<Production>, e: Element<Value>, r: u32, p: Production)
    requires
        spec_select(prods, e, draw_val(r), zero_val()) == Ok::<
            Option<Production>,
            UnboundVariableError,
        >(Some(p)),
    ensures
        spec_step(prods, e, r) == spec_apply(p, e),
{
    reveal(spec_step);
}

/// A selection error is the step's error.
proof fn lemma_step_select_err(
    prods: Seq<Production>,
    e: Element<Value>,
    r: u32,
    err: UnboundVariableError,
)
    requires
        spec_select(prods, e, draw_val(r), zero_val()) == Err::<
            Option<Production>,
            UnboundVariableError,
        >(err),
    ensures
        spec_step(prods, e, r) == Err::<Seq<Element<Value>>, UnboundVariableError>(err),
{
    reveal(spec_step);
}

/// Law: matching is gated by symbol and arity — a production whose
/// predecessor differs from the element in symbol or in parameter count
/// never matches, whatever the parameter values and the condition; such
/// elements fall through to the identity rewrite.
pub proof fn lemma_arity_gates_matching(p: Production, e: Element<Value>)
    requires
        p.pred.symbol != e.symbol || p.pred.params.seq_of().len() != e.params.seq_of().len(),
    ensures
        spec_matches(p, e) == Ok::<bool, UnboundVariableError>(false),
{
}

} // verus!
