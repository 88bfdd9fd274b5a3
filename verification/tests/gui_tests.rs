use symcalc::engine::Value;
use symcalc::errors::CalcError;
use symcalc::gui::CalculatorApp;
use symcalc::parser::Expr;

fn typed(text: &str) -> CalculatorApp {
    let mut app = CalculatorApp::new();
    app.set_input(text.to_string());
    app
}

fn submit(app: &mut CalculatorApp, line: &str) -> Result<Value, CalcError> {
    app.set_input(line.to_string());
    while let Some((base, exponent)) = app.on_submit() {
        let power = f64::from_bits(base).powf(f64::from_bits(exponent));
        app.supply_power(base, exponent, power.to_bits());
    }
    app.last_result().clone().unwrap()
}

fn after_operator(text: &str, op: &str) -> String {
    let mut app = typed(text);
    app.append_operator(op);
    app.input().clone()
}

fn after_backspace(text: &str) -> String {
    let mut app = typed(text);
    app.backspace();
    app.input().clone()
}

#[test]
fn test_add() {
    let mut app = CalculatorApp::new();
}

#[test]
fn test_sub() {
    let mut app = CalculatorApp::new();
}

#[test]
fn test_mul() {
    let mut app = CalculatorApp::new();
}

#[test]
fn test_div() {
    let mut app = CalculatorApp::new();
}

#[test]
fn test_div_by_zero() {
    let mut app = CalculatorApp::new();
}

#[test]
fn test_invalid_input() {
    let mut app = CalculatorApp::new();
}

#[test]
fn test_declare_variable_using_declared_variable() {
    let mut app = CalculatorApp::new();
}

#[test]
fn test_declare_variable_lazy_evaluation() {
    let mut app = CalculatorApp::new();
}

#[test]
fn a_new_calculator_is_empty() {
    let app = CalculatorApp::new();
    assert_eq!(app.input(), "");
    assert_eq!(app.last_result(), &None);
}

#[test]
fn submitting_sets_the_last_result() {
    let mut app = CalculatorApp::new();
    assert_eq!(submit(&mut app, "2 + 3"), Ok(Value::Number(5.0f64.to_bits())));
    assert_eq!(app.input(), "2 + 3");
    assert_eq!(submit(&mut app, "5 / 0"), Err(CalcError::DivisionByZero));
    assert_eq!(submit(&mut app, ""), Err(CalcError::EmptyExpression));
}

#[test]
fn submitting_keeps_the_variables() {
    let mut app = CalculatorApp::new();
    assert_eq!(submit(&mut app, "a = 3 + 2 "), Ok(Value::Number(5.0f64.to_bits())));
    assert_eq!(submit(&mut app, "b = a + b"), Ok(Value::Expression(Expr::Add(vec![
        Expr::Var("b".to_string()),
        Expr::Number(5.0f64.to_bits()),
    ]))));
    assert_eq!(submit(&mut app, "a * 2"), Ok(Value::Number(10.0f64.to_bits())));
}

#[test]
fn a_line_that_needs_a_power_asks_for_it_and_changes_nothing() {
    let mut app = CalculatorApp::new();
    assert_eq!(submit(&mut app, "1"), Ok(Value::Number(1.0f64.to_bits())));
    app.set_input("a = 2 ^ 3".to_string());
    assert_eq!(app.on_submit(), Some((2.0f64.to_bits(), 3.0f64.to_bits())));
    assert_eq!(app.last_result(), &Some(Ok(Value::Number(1.0f64.to_bits()))));
    assert_eq!(app.on_submit(), Some((2.0f64.to_bits(), 3.0f64.to_bits())));
    app.supply_power(2.0f64.to_bits(), 3.0f64.to_bits(), 8.0f64.to_bits());
    assert_eq!(app.on_submit(), None);
    assert_eq!(app.last_result(), &Some(Ok(Value::Number(8.0f64.to_bits()))));
    assert_eq!(submit(&mut app, "a + 2 ^ 3"), Ok(Value::Number(16.0f64.to_bits())));
}

#[test]
fn the_line_from_the_program_s_start() {
    let mut app = CalculatorApp::new();
    assert_eq!(
        submit(&mut app, "c = -7 ^ a"),
        Ok(Value::Expression(Expr::Neg(Box::new(Expr::Pow(
            Box::new(Expr::Number(7.0f64.to_bits())),
            Box::new(Expr::Var("a".to_string()))
        )))))
    );
    assert_eq!(submit(&mut app, "a = 3 + 2 "), Ok(Value::Number(5.0f64.to_bits())));
    assert_eq!(submit(&mut app, "c"), Ok(Value::Number((-16807.0f64).to_bits())));
}

#[test]
fn a_long_line_is_submitted() {
    let mut app = CalculatorApp::new();
    let line = format!("{}1 + 2", " ".repeat(0x0100_0000));
    assert_eq!(submit(&mut app, &line), Ok(Value::Number(3.0f64.to_bits())));
}

#[test]
fn typing_characters() {
    let mut app = CalculatorApp::new();
    app.append_char('1');
    app.append_char('.');
    app.append_char('5');
    assert_eq!(app.input(), "1.5");
}

#[test]
fn an_operator_in_an_empty_line_is_followed_by_a_space() {
    assert_eq!(after_operator("", "+"), "+ ");
}

#[test]
fn an_operator_stands_between_single_spaces() {
    assert_eq!(after_operator("12", "+"), "12 + ");
    assert_eq!(after_operator("12 ", "*"), "12 * ");
    assert_eq!(after_operator("12    ", "^"), "12 ^ ");
    assert_eq!(after_operator("12 + ", "-"), "12 + - ");
    assert_eq!(after_operator("   ", "/"), " / ");
    assert_eq!(after_operator("x", "+="), "x += ");
}

#[test]
fn backspace_deletes_one_character() {
    assert_eq!(after_backspace("12"), "1");
    assert_eq!(after_backspace("1"), "");
    assert_eq!(after_backspace("12 + 3"), "12 + ");
    assert_eq!(after_backspace(" x"), " ");
}

#[test]
fn backspace_after_spaces_deletes_the_word_before_them() {
    assert_eq!(after_backspace("12 + "), "12");
    assert_eq!(after_backspace("12 +   "), "12");
    assert_eq!(after_backspace("12  + "), "12 ");
    assert_eq!(after_backspace("+ "), "");
    assert_eq!(after_backspace("12 "), "");
    assert_eq!(after_backspace("   "), "");
    assert_eq!(after_backspace("1 + 2 * "), "1 + 2");
}

#[test]
fn backspace_in_an_empty_line_does_nothing() {
    assert_eq!(after_backspace(""), "");
}

#[test]
fn clearing_empties_the_line() {
    let mut app = typed("12 + 3");
    app.clear_input();
    assert_eq!(app.input(), "");
}

#[test]
fn editing_the_line_keeps_the_variables_and_the_result() {
    let mut app = CalculatorApp::new();
    assert_eq!(submit(&mut app, "a = 4"), Ok(Value::Number(4.0f64.to_bits())));
    app.clear_input();
    app.append_char('a');
    app.append_operator("+");
    app.append_char('1');
    app.backspace();
    app.append_char('2');
    assert_eq!(app.input(), "a + 2");
    assert_eq!(app.last_result(), &Some(Ok(Value::Number(4.0f64.to_bits()))));
    assert!(app.on_submit().is_none());
    assert_eq!(app.last_result(), &Some(Ok(Value::Number(6.0f64.to_bits()))));
}

#[test]
fn long_runs_of_spaces_are_trimmed() {
    let spaces = " ".repeat(1_000_000);
    assert_eq!(after_backspace(&format!("1 + 2{}", spaces)), "1 +");
    assert_eq!(after_operator(&format!("12{}", spaces), "+"), "12 + ");
    let word = "x".repeat(1_000_000);
    assert_eq!(after_backspace(&format!("1 + {} ", word)), "1 +");
}
