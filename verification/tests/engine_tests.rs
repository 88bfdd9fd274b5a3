use symcalc::engine::{same_tree, CalculatorEngine, Value};
use symcalc::errors::CalcError;
use symcalc::evaluator::Halt;
use symcalc::parser::Expr;
use symcalc::powers::PowerTable;

fn number(x: f64) -> Value {
    Value::Number(x.to_bits())
}

fn n(x: f64) -> Expr {
    Expr::Number(x.to_bits())
}

fn v(s: &str) -> Expr {
    Expr::Var(s.to_string())
}

/// Evaluates a line, answering each request for a power.
fn run(engine: &mut CalculatorEngine, line: &str) -> Result<Value, CalcError> {
    let mut powers = PowerTable::new();
    loop {
        match engine.evaluate(line, &powers) {
            Ok(value) => return Ok(value),
            Err(Halt::Error(e)) => return Err(e),
            Err(Halt::NeedPower(base, exponent)) => {
                assert_eq!(powers.lookup(base, exponent), None);
                let power = f64::from_bits(base).powf(f64::from_bits(exponent));
                powers.record(base, exponent, power.to_bits());
            }
        }
    }
}

fn once(line: &str) -> Result<Value, CalcError> {
    run(&mut CalculatorEngine::new(), line)
}

#[test]
fn precedence() {
    assert_eq!(once("2 + 3 * 4"), Ok(number(14.0)));
    assert_eq!(once("(2 + 3) * 4"), Ok(number(20.0)));
}

#[test]
fn unary_minus_applies_to_the_power() {
    assert_eq!(once("-2 ^ 2"), Ok(number(-4.0)));
    assert_eq!(once("(-2) ^ 2"), Ok(number(4.0)));
}

#[test]
fn division_by_zero() {
    assert_eq!(once("5 / 0"), Err(CalcError::DivisionByZero));
    assert_eq!(once("5 / (2 - 2)"), Err(CalcError::DivisionByZero));
}

#[test]
fn a_free_variable_gives_an_expression() {
    assert_eq!(once("x + 1"), Ok(Value::Expression(Expr::Add(vec![v("x"), n(1.0)]))));
    assert_eq!(once("x"), Ok(Value::Expression(v("x"))));
}

#[test]
fn a_self_reference_ends() {
    let mut engine = CalculatorEngine::new();
    let expected = Value::Expression(Expr::Add(vec![v("a"), n(1.0)]));
    assert_eq!(run(&mut engine, "a = a + 1"), Ok(expected.clone()));
    assert_eq!(run(&mut engine, "a"), Ok(expected.clone()));
    assert_eq!(run(&mut engine, "a"), Ok(expected));
}

#[test]
fn a_mutual_reference_ends() {
    let mut engine = CalculatorEngine::new();
    assert_eq!(
        run(&mut engine, "a = b + 1"),
        Ok(Value::Expression(Expr::Add(vec![v("b"), n(1.0)])))
    );
    assert_eq!(
        run(&mut engine, "b = a * 2"),
        Ok(Value::Expression(Expr::Mul(vec![n(2.0), Expr::Add(vec![v("b"), n(1.0)])])))
    );
    assert_eq!(
        run(&mut engine, "a"),
        Ok(Value::Expression(Expr::Add(vec![
            Expr::Mul(vec![n(2.0), Expr::Add(vec![v("b"), n(1.0)])]),
            n(1.0)
        ])))
    );
    assert_eq!(
        run(&mut engine, "b"),
        Ok(Value::Expression(Expr::Mul(vec![n(2.0), Expr::Add(vec![v("b"), n(1.0)])])))
    );
}

#[test]
fn assignments_persist() {
    let mut engine = CalculatorEngine::new();
    assert_eq!(run(&mut engine, "a = 2 + 3"), Ok(number(5.0)));
    assert_eq!(run(&mut engine, "a"), Ok(number(5.0)));
    assert_eq!(run(&mut engine, "b = a + 5"), Ok(number(10.0)));
    assert_eq!(run(&mut engine, "b"), Ok(number(10.0)));
}

#[test]
fn an_assignment_replaces_the_earlier_one() {
    let mut engine = CalculatorEngine::new();
    assert_eq!(run(&mut engine, "a = 1"), Ok(number(1.0)));
    assert_eq!(run(&mut engine, "a = 2"), Ok(number(2.0)));
    assert_eq!(run(&mut engine, "a"), Ok(number(2.0)));
}

#[test]
fn variables_are_resolved_when_they_are_used() {
    let mut engine = CalculatorEngine::new();
    assert_eq!(
        run(&mut engine, "c = d * 2"),
        Ok(Value::Expression(Expr::Mul(vec![n(2.0), v("d")])))
    );
    assert_eq!(run(&mut engine, "d = 4"), Ok(number(4.0)));
    assert_eq!(run(&mut engine, "c"), Ok(number(8.0)));
}

#[test]
fn names_are_case_sensitive() {
    let mut engine = CalculatorEngine::new();
    assert_eq!(run(&mut engine, "a = 1"), Ok(number(1.0)));
    assert_eq!(run(&mut engine, "A"), Ok(Value::Expression(v("A"))));
}

#[test]
fn equality() {
    assert_eq!(once("2 + 2 == 4"), Ok(Value::Bool(true)));
    assert_eq!(once("2 + 2 == 5"), Ok(Value::Bool(false)));
}

#[test]
fn equality_compares_trees() {
    assert_eq!(once("x + 1 == x + 1"), Ok(Value::Bool(true)));
    assert_eq!(once("x + 1 == 1 + x"), Ok(Value::Bool(true)));
    assert_eq!(once("x + y == y + x"), Ok(Value::Bool(false)));
    assert_eq!(once("x == y"), Ok(Value::Bool(false)));
    assert_eq!(once("x * 2 == 2 * x"), Ok(Value::Bool(true)));
    assert_eq!(once("0 == -0"), Ok(Value::Bool(true)));
}

#[test]
fn equality_assigns_nothing() {
    let mut engine = CalculatorEngine::new();
    assert_eq!(run(&mut engine, "a == 4"), Ok(Value::Bool(false)));
    assert_eq!(run(&mut engine, "a"), Ok(Value::Expression(v("a"))));
}

#[test]
fn equality_evaluates_each_side_on_its_own() {
    let mut engine = CalculatorEngine::new();
    assert_eq!(run(&mut engine, "a = 4"), Ok(number(4.0)));
    assert_eq!(run(&mut engine, "a == a"), Ok(Value::Bool(true)));
    assert_eq!(run(&mut engine, "a + 1 == 5"), Ok(Value::Bool(true)));
}

#[test]
fn compound_assignment_to_an_unbound_name() {
    let mut engine = CalculatorEngine::new();
    let expected = Value::Expression(Expr::Add(vec![v("a"), n(3.0)]));
    assert_eq!(run(&mut engine, "a += 3"), Ok(expected.clone()));
    assert_eq!(run(&mut engine, "a"), Ok(expected));
}

#[test]
fn compound_assignment_to_a_bound_name() {
    let mut engine = CalculatorEngine::new();
    assert_eq!(run(&mut engine, "a = 10"), Ok(number(10.0)));
    assert_eq!(run(&mut engine, "a += 3"), Ok(number(13.0)));
    assert_eq!(run(&mut engine, "a -= 1"), Ok(number(12.0)));
    assert_eq!(run(&mut engine, "a *= 2"), Ok(number(24.0)));
    assert_eq!(run(&mut engine, "a /= 8"), Ok(number(3.0)));
    assert_eq!(run(&mut engine, "a"), Ok(number(3.0)));
}

#[test]
fn compound_assignment_builds_the_operator_s_node() {
    assert_eq!(
        once("a -= 3"),
        Ok(Value::Expression(Expr::Add(vec![v("a"), n(-3.0)])))
    );
    assert_eq!(
        once("a *= 3"),
        Ok(Value::Expression(Expr::Mul(vec![n(3.0), v("a")])))
    );
    assert_eq!(
        once("a /= 3"),
        Ok(Value::Expression(Expr::Div(Box::new(v("a")), Box::new(n(3.0)))))
    );
}

#[test]
fn an_empty_side_is_an_empty_expression() {
    assert_eq!(once("= 5"), Err(CalcError::EmptyExpression));
    assert_eq!(once("a ="), Err(CalcError::EmptyExpression));
    assert_eq!(once("=="), Err(CalcError::EmptyExpression));
    assert_eq!(once("a +="), Err(CalcError::EmptyExpression));
    assert_eq!(once("== 2"), Err(CalcError::EmptyExpression));
}

#[test]
fn a_blank_line_is_an_empty_expression() {
    assert_eq!(once(""), Err(CalcError::EmptyExpression));
    assert_eq!(once("   "), Err(CalcError::EmptyExpression));
}

#[test]
fn only_a_name_can_be_assigned_to() {
    let e = CalcError::InvalidExpression("Cannot assign to a non variable expression".to_string());
    assert_eq!(once("2 = 3"), Err(e.clone()));
    assert_eq!(once("a + b = 3"), Err(e.clone()));
    assert_eq!(once("a b = 3"), Err(e.clone()));
    assert_eq!(once("(a) = 3"), Err(e.clone()));
    assert_eq!(once("2 += 3"), Err(e));
}

#[test]
fn the_first_control_token_splits_the_line() {
    assert_eq!(
        once("a = b == 3"),
        Err(CalcError::InvalidToken("Unexpected token Equal in expression".to_string()))
    );
    assert_eq!(
        once("a == b = 3"),
        Err(CalcError::InvalidToken("Unexpected token Assign in expression".to_string()))
    );
}

#[test]
fn a_failed_assignment_binds_nothing() {
    let mut engine = CalculatorEngine::new();
    assert_eq!(run(&mut engine, "a = 1"), Ok(number(1.0)));
    assert_eq!(run(&mut engine, "a = 5 / 0"), Err(CalcError::DivisionByZero));
    assert_eq!(run(&mut engine, "a = 2 +"), Err(CalcError::MissingOperand));
    assert_eq!(run(&mut engine, "a"), Ok(number(1.0)));
}

#[test]
fn an_assignment_that_waits_for_a_power_binds_nothing() {
    let mut engine = CalculatorEngine::new();
    let powers = PowerTable::new();
    assert_eq!(
        engine.evaluate("a = 2 ^ 10", &powers),
        Err(Halt::NeedPower(2.0f64.to_bits(), 10.0f64.to_bits()))
    );
    assert_eq!(engine.evaluate("a", &powers), Ok(Value::Expression(v("a"))));
    assert_eq!(run(&mut engine, "a = 2 ^ 10"), Ok(number(1024.0)));
    assert_eq!(engine.evaluate("a", &powers), Ok(number(1024.0)));
}

#[test]
fn errors_of_the_lexer_and_the_parser_come_through() {
    assert_eq!(once("2 $ 3"), Err(CalcError::InvalidExpression("$".to_string())));
    assert_eq!(once("1.2.3"), Err(CalcError::InvalidExpression("1.2.3".to_string())));
    assert_eq!(once("2 3"), Err(CalcError::InvalidExpression("too many operands".to_string())));
    assert_eq!(
        once("(2"),
        Err(CalcError::InvalidExpression("Mismatched parentheses".to_string()))
    );
    assert_eq!(once("2 *"), Err(CalcError::MissingOperand));
}

#[test]
fn evaluating_again_gives_the_same_result() {
    let mut engine = CalculatorEngine::new();
    assert_eq!(run(&mut engine, "y = 2"), Ok(number(2.0)));
    for line in ["x + 1", "x * y ^ 3 - 4 / z", "2 ^ 0.5", "x == y", "5 / 0", "2 +", "y"] {
        let first = run(&mut engine, line);
        let second = run(&mut engine, line);
        assert_eq!(first, second);
    }
}

#[test]
fn arithmetic_on_numbers() {
    assert_eq!(once("2 + 3"), Ok(number(5.0)));
    assert_eq!(once("2 - 3"), Ok(number(-1.0)));
    assert_eq!(once("3 * 4"), Ok(number(12.0)));
    assert_eq!(once("7 / 2"), Ok(number(3.5)));
    assert_eq!(once("0.1 + 0.2"), Ok(number(0.1 + 0.2)));
    assert_eq!(once("1 / 3"), Ok(number(1.0 / 3.0)));
    assert_eq!(once("2.5 * 2.5"), Ok(number(6.25)));
    assert_eq!(once("2 ^ 0.5"), Ok(number(2.0f64.powf(0.5))));
    assert_eq!(once("2 ^ 3 ^ 2"), Ok(number(64.0)));
    assert_eq!(once("2 ^ -1"), Ok(number(0.5)));
    assert_eq!(once("-(3 - 5) * 2"), Ok(number(4.0)));
}

#[test]
fn large_results_overflow_to_infinity() {
    let big = "9".repeat(200);
    assert_eq!(once(&format!("{} * {}", big, big)), Ok(number(f64::INFINITY)));
    assert_eq!(once(&"9".repeat(400)), Ok(number(f64::INFINITY)));
}

#[test]
fn same_tree_compares_numbers_as_numbers() {
    assert!(same_tree(&n(0.0), &n(-0.0)));
    assert!(!same_tree(&n(f64::NAN), &n(f64::NAN)));
    assert!(same_tree(&Expr::Add(vec![v("x"), n(1.0)]), &Expr::Add(vec![v("x"), n(1.0)])));
    assert!(!same_tree(&Expr::Add(vec![v("x"), n(1.0)]), &Expr::Add(vec![v("x")])));
    assert!(!same_tree(&Expr::Add(vec![v("x"), n(1.0)]), &Expr::Mul(vec![v("x"), n(1.0)])));
    assert!(!same_tree(&v("x"), &v("y")));
    assert!(same_tree(
        &Expr::Neg(Box::new(Expr::Pow(Box::new(v("x")), Box::new(n(2.0))))),
        &Expr::Neg(Box::new(Expr::Pow(Box::new(v("x")), Box::new(n(2.0)))))
    ));
    assert!(!same_tree(
        &Expr::Sub(Box::new(v("x")), Box::new(n(2.0))),
        &Expr::Div(Box::new(v("x")), Box::new(n(2.0)))
    ));
}
