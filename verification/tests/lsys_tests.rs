use abop::expr::Expression;
use abop::lsys::{CapacityExceededError, Element, LString, LSystem, ParamList, Production};
use abop::value::Value;
use rand::SeedableRng;

fn num(n: i64, d: i64) -> Value {
    Value::Num { num: n, den: d }
}

fn plain(symbol: char) -> Element<Value> {
    Element { symbol, params: ParamList::Empty }
}

fn plain_succ(symbol: char) -> Element<Expression> {
    Element { symbol, params: ParamList::Empty }
}

fn rng(seed: u64) -> rand::rngs::StdRng {
    rand::rngs::StdRng::seed_from_u64(seed)
}

#[test]
fn capacity_exceeded_on_four_values() {
    let vals = vec![num(1, 1), num(2, 1), num(3, 1), num(4, 1)];
    assert_eq!(
        ParamList::from_vec(vals),
        Err(CapacityExceededError { supplied: 4 })
    );
    let vals = [num(1, 1), num(2, 1), num(3, 1), num(4, 1)];
    assert_eq!(
        ParamList::from_slice(&vals),
        Err(CapacityExceededError { supplied: 4 })
    );
    let vals = [num(1, 1), num(2, 1), num(3, 1)];
    assert_eq!(
        ParamList::from_slice(&vals),
        Ok(ParamList::A3(num(1, 1), num(2, 1), num(3, 1)))
    );
}

#[test]
fn generation_is_parallel() {
    // axiom "F", production F -> FF: generation 1 is "FF", generation 2 is
    // "FFFF" — never anything produced within the same step
    let mut start = LString::new();
    start.push(plain('F'));
    let mut p = Production::new();
    p.set_predecessor(Element { symbol: 'F', params: ParamList::Empty });
    p.add_successor(plain_succ('F'));
    p.add_successor(plain_succ('F'));
    let mut sys = LSystem::new(start, vec![p], rng(7));
    assert_eq!(sys.current_string().to_text(), "F");
    sys.generate().unwrap();
    assert_eq!(sys.current_string().to_text(), "FF");
    sys.generate().unwrap();
    assert_eq!(sys.current_string().to_text(), "FFFF");
    sys.advance(2).unwrap();
    assert_eq!(sys.current_string().to_text(), "FFFFFFFFFFFFFFFF");
}

#[test]
fn arity_gates_matching() {
    // a production with predecessor F(x) must not match F (arity 0) or
    // F(x, y) (arity 2); such elements fall through to identity rewrite
    let mut start = LString::new();
    start.push(plain('F'));
    start.push(Element { symbol: 'F', params: ParamList::A2(num(1, 1), num(2, 1)) });
    let mut p = Production::new();
    p.set_predecessor(Element { symbol: 'F', params: ParamList::A1('x') });
    p.add_successor(plain_succ('G'));
    let mut sys = LSystem::new(start, vec![p], rng(3));
    sys.generate().unwrap();
    assert_eq!(sys.current_string().to_text(), "FF(1, 2)");
}

#[test]
fn parameters_are_recomputed_from_the_context() {
    // F(x) -> F(x+1) under the positional binding of formals to actuals
    let mut start = LString::new();
    start.push(Element { symbol: 'F', params: ParamList::A1(num(2, 1)) });
    let mut p = Production::new();
    p.set_predecessor(Element { symbol: 'F', params: ParamList::A1('x') });
    p.add_successor(Element {
        symbol: 'F',
        params: ParamList::A1("x+1".parse().ok().unwrap()),
    });
    let mut sys = LSystem::new(start, vec![p], rng(5));
    sys.generate().unwrap();
    assert_eq!(sys.current_string().to_text(), "F(3)");
    sys.generate().unwrap();
    assert_eq!(sys.current_string().to_text(), "F(4)");
}

#[test]
fn condition_gates_matching() {
    // F(x) : x > 2 -> F(x+1); an element with x <= 2 is left alone
    let mut start = LString::new();
    start.push(Element { symbol: 'F', params: ParamList::A1(num(1, 1)) });
    start.push(Element { symbol: 'F', params: ParamList::A1(num(3, 1)) });
    let mut p = Production::new();
    p.set_predecessor(Element { symbol: 'F', params: ParamList::A1('x') });
    p.set_condition("x>2".parse().ok().unwrap());
    p.add_successor(Element {
        symbol: 'F',
        params: ParamList::A1("x+1".parse().ok().unwrap()),
    });
    let mut sys = LSystem::new(start, vec![p], rng(11));
    sys.generate().unwrap();
    assert_eq!(sys.current_string().to_text(), "F(1)F(4)");
}

#[test]
fn unbound_variable_fails_the_generate_call() {
    // the condition references a variable absent from the formals: the
    // call fails and the current string is left unchanged
    let mut start = LString::new();
    start.push(Element { symbol: 'F', params: ParamList::A1(num(1, 1)) });
    let mut p = Production::new();
    p.set_predecessor(Element { symbol: 'F', params: ParamList::A1('x') });
    p.set_condition("y>0".parse().ok().unwrap());
    p.add_successor(plain_succ('G'));
    let mut sys = LSystem::new(start, vec![p], rng(13));
    assert_eq!(
        sys.generate(),
        Err(abop::expr::UnboundVariableError { name: 'y' })
    );
    assert_eq!(sys.current_string().to_text(), "F(1)");
}

#[test]
fn stochastic_selection_splits_evenly() {
    // two productions for the same predecessor with probabilities 0.5 and
    // 0.5: over many elements the application ratio is near 1:1
    let mut start = LString::new();
    for _ in 0..1000 {
        start.push(plain('F'));
    }
    let mut p1 = Production::new();
    p1.set_predecessor(Element { symbol: 'F', params: ParamList::Empty });
    p1.set_probability(num(1, 2));
    p1.add_successor(plain_succ('A'));
    let mut p2 = Production::new();
    p2.set_predecessor(Element { symbol: 'F', params: ParamList::Empty });
    p2.set_probability(num(1, 2));
    p2.add_successor(plain_succ('B'));
    let mut sys = LSystem::new(start, vec![p1, p2], rng(42));
    sys.generate().unwrap();
    let text = sys.current_string().to_text();
    let a = text.chars().filter(|c| *c == 'A').count();
    let b = text.chars().filter(|c| *c == 'B').count();
    assert_eq!(a + b, 1000);
    assert!(a > 380 && b > 380);
}

#[test]
fn uncovered_probability_mass_means_identity() {
    // probabilities 0.3 and 0.3 sum below 1: a measurable fraction of the
    // matches resolves to the identity rewrite
    let mut start = LString::new();
    for _ in 0..1000 {
        start.push(plain('F'));
    }
    let mut p1 = Production::new();
    p1.set_predecessor(Element { symbol: 'F', params: ParamList::Empty });
    p1.set_probability(num(3, 10));
    p1.add_successor(plain_succ('A'));
    let mut p2 = Production::new();
    p2.set_predecessor(Element { symbol: 'F', params: ParamList::Empty });
    p2.set_probability(num(3, 10));
    p2.add_successor(plain_succ('B'));
    let mut sys = LSystem::new(start, vec![p1, p2], rng(42));
    sys.generate().unwrap();
    let text = sys.current_string().to_text();
    let a = text.chars().filter(|c| *c == 'A').count();
    let b = text.chars().filter(|c| *c == 'B').count();
    let f = text.chars().filter(|c| *c == 'F').count();
    assert_eq!(a + b + f, 1000);
    assert!(a > 200 && b > 200);
    assert!(f > 250);
}

#[test]
fn first_matching_production_wins_the_draw() {
    // declaration order matters: with weights 1 and 1 the first matching
    // production always fires
    let mut start = LString::new();
    start.push(plain('F'));
    let mut p1 = Production::new();
    p1.set_predecessor(Element { symbol: 'F', params: ParamList::Empty });
    p1.add_successor(plain_succ('A'));
    let mut p2 = Production::new();
    p2.set_predecessor(Element { symbol: 'F', params: ParamList::Empty });
    p2.add_successor(plain_succ('B'));
    let mut sys = LSystem::new(start, vec![p1, p2], rng(9));
    sys.generate().unwrap();
    assert_eq!(sys.current_string().to_text(), "A");
}

#[test]
fn system_text_shows_string_and_rules() {
    let mut start = LString::new();
    start.push(Element { symbol: 'F', params: ParamList::A1(num(5, 10)) });
    let mut p = Production::new();
    p.set_predecessor(Element { symbol: 'F', params: ParamList::A1('x') });
    p.add_successor(Element {
        symbol: 'F',
        params: ParamList::A1("x*2".parse().ok().unwrap()),
    });
    let sys = LSystem::new(start, vec![p], rng(1));
    assert_eq!(sys.to_text(), "F(0.5)\nF(x)=F(x*2)\n");
}
