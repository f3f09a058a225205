use abop::expr::Expression;
use abop::value::Value;

fn num(n: i64, d: i64) -> Value {
    Value::Num { num: n, den: d }
}

#[test]
fn eval_val() {
    let expr = Expression::Value(num(1, 1));
    let context = &vec![];
    assert_eq!(expr.eval(context).unwrap(), num(1, 1));
}

#[test]
fn eval_var() {
    let expr = Expression::Var('x');
    let context = &vec![('x', num(2, 1))];
    assert_eq!(expr.eval(context).unwrap(), num(2, 1));
}

#[test]
fn eval_add() {
    let expr = Expression::Add(
        Box::new(Expression::Var('x')),
        Box::new(Expression::Var('y')),
    );
    let context = &vec![('x', num(2, 1)), ('y', num(37, 10))];
    // 2 + 3.7 = 5.7
    assert!(expr.eval(context).unwrap().eq_val(num(57, 10)));
}

#[test]
fn eval_from_str() {
    let expr: Expression = "7".parse().ok().unwrap();
    let context = &vec![];
    assert_eq!(expr.eval(context).unwrap(), num(7, 1));
}

#[test]
fn eval_expression_from_str() {
    let expr: Expression = "1+2.5*3".parse().ok().unwrap();
    let context = &vec![];
    assert!(expr.eval(context).unwrap().eq_val(num(85, 10)));
}

#[test]
fn eval_expression2_from_str() {
    let expr: Expression = "((x+1)*y^2)/5".parse().ok().unwrap();
    let context = &vec![('x', num(5, 1)), ('y', num(3, 1))];
    // 10.8
    assert!(expr.eval(context).unwrap().eq_val(num(108, 10)));
}

#[test]
fn eval_bool_expression_from_str() {
    let expr: Expression = "1+2>5*3".parse().ok().unwrap();
    let context = &vec![];
    assert_eq!(expr.eval_bool(context).unwrap(), false);
}

#[test]
fn eval_bool_expression_from_str2() {
    let expr: Expression = "1+2>5*3||2+2==4".parse().ok().unwrap();
    let context = &vec![];
    assert_eq!(expr.eval_bool(context).unwrap(), true);
}

#[test]
fn expr_eval_val() {
    let expr = Expression::Value(num(1, 1));
    let context = &vec![];
    assert_eq!(expr.eval(context).unwrap(), num(1, 1));
}

#[test]
fn expr_eval_var() {
    let expr = Expression::Var('x');
    let context = &vec![('x', num(2, 1))];
    assert_eq!(expr.eval(context).unwrap(), num(2, 1));
}

#[test]
fn expr_eval_add() {
    let expr = Expression::Add(
        Box::new(Expression::Var('x')),
        Box::new(Expression::Var('y')),
    );
    let context = &vec![('x', num(2, 1)), ('y', num(37, 10))];
    assert!(expr.eval(context).unwrap().eq_val(num(57, 10)));
}

#[test]
fn expr_eval_from_str() {
    let expr: Expression = "7".parse().ok().unwrap();
    let context = &vec![];
    assert_eq!(expr.eval(context).unwrap(), num(7, 1));
}

#[test]
fn expr_eval_expression_from_str() {
    let expr: Expression = "1+2.5*3".parse().ok().unwrap();
    let context = &vec![];
    assert!(expr.eval(context).unwrap().eq_val(num(85, 10)));
}

#[test]
fn expr_eval_expression2_from_str() {
    let expr: Expression = "((x+1)*y^2)/5".parse().ok().unwrap();
    let context = &vec![('x', num(5, 1)), ('y', num(3, 1))];
    assert!(expr.eval(context).unwrap().eq_val(num(108, 10)));
}

#[test]
fn eval_unbound_variable_error() {
    let expr = Expression::Var('z');
    let context = &vec![('x', num(1, 1))];
    assert_eq!(
        expr.eval(context),
        Err(abop::expr::UnboundVariableError { name: 'z' })
    );
}

#[test]
fn or_and_never_short_circuit() {
    // the left operand alone decides the boolean outcome, but the error in
    // the right operand must still surface
    let expr: Expression = "1||z".parse().ok().unwrap();
    let context = &vec![];
    assert_eq!(
        expr.eval(context),
        Err(abop::expr::UnboundVariableError { name: 'z' })
    );
    let expr: Expression = "0&&z".parse().ok().unwrap();
    assert_eq!(
        expr.eval(context),
        Err(abop::expr::UnboundVariableError { name: 'z' })
    );
}

#[test]
fn division_by_zero_follows_ieee() {
    let context = &vec![];
    let expr: Expression = "1/0".parse().ok().unwrap();
    assert_eq!(expr.eval(context).unwrap(), Value::PosInf);
    let expr: Expression = "0-1/0".parse().ok().unwrap();
    assert_eq!(expr.eval(context).unwrap(), Value::NegInf);
    let expr: Expression = "0/0".parse().ok().unwrap();
    assert_eq!(expr.eval(context).unwrap(), Value::NaN);
    // NaN is truthy: it is not equal to zero
    let expr: Expression = "0/0||0".parse().ok().unwrap();
    assert_eq!(expr.eval_bool(context).unwrap(), true);
}

#[test]
fn power_cases() {
    let context = &vec![];
    let expr: Expression = "2^3".parse().ok().unwrap();
    assert!(expr.eval(context).unwrap().eq_val(num(8, 1)));
    let expr: Expression = "2^0".parse().ok().unwrap();
    assert!(expr.eval(context).unwrap().eq_val(num(1, 1)));
    // a negative integer exponent inverts exactly
    let expr: Expression = "2^(0-2)".parse().ok().unwrap();
    assert!(expr.eval(context).unwrap().eq_val(num(1, 4)));
    // the power operator associates to the right: 2^(3^2) = 512
    let expr: Expression = "2^3^2".parse().ok().unwrap();
    assert!(expr.eval(context).unwrap().eq_val(num(512, 1)));
}

#[test]
fn parse_rejects_malformed_text() {
    assert!(Expression::parse("1++2").is_err());
    assert!(Expression::parse("(1+2").is_err());
    assert!(Expression::parse("1|2").is_err());
    assert!(Expression::parse("").is_err());
    // a literal longer than eighteen digits does not fit the exact domain
    assert!(Expression::parse("12345678901234567890").is_err());
    assert!(Expression::parse("1.5").is_ok());
}

#[test]
fn render_round_trip_evaluates_the_same() {
    let context = &vec![('x', num(5, 1)), ('y', num(3, 1))];
    for text in ["1+2.5*3", "1+2>5*3||2+2==4", "2^3^2", "x*y-4/x", "0-2.5+x"] {
        let e: Expression = text.parse().ok().unwrap();
        let rendered = e.to_text();
        let e2: Expression = rendered.parse().ok().unwrap();
        assert_eq!(e.eval(context), e2.eval(context));
    }
}

#[test]
fn render_is_the_canonical_text() {
    let e: Expression = "1+2.5*3".parse().ok().unwrap();
    assert_eq!(e.to_text(), "1+2.5*3");
    let e: Expression = " 1 + 2.5 * 3 ".parse().ok().unwrap();
    assert_eq!(e.to_text(), "1+2.5*3");
}
