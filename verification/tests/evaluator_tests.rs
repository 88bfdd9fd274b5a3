use symcalc::environment::Environment;
use symcalc::errors::CalcError;
use symcalc::evaluator::{eval, eval_ast, normalize, Halt};
use symcalc::number::{is_not_a_number, is_zero_number, negate, numbers_equal};
use symcalc::parser::Expr;
use symcalc::powers::PowerTable;

fn num(x: f64) -> Expr {
    Expr::Number(x.to_bits())
}

fn var(s: &str) -> Expr {
    Expr::Var(s.to_string())
}

fn minus(a: Expr, b: Expr) -> Expr {
    Expr::Sub(Box::new(a), Box::new(b))
}

fn over(a: Expr, b: Expr) -> Expr {
    Expr::Div(Box::new(a), Box::new(b))
}

fn to_the(a: Expr, b: Expr) -> Expr {
    Expr::Pow(Box::new(a), Box::new(b))
}

fn negative(a: Expr) -> Expr {
    Expr::Neg(Box::new(a))
}

fn value(expr: &Expr, vars: &Environment) -> Result<Expr, Halt> {
    let mut visited = Vec::new();
    let r = eval_ast(expr, vars, &mut visited, &PowerTable::new());
    assert!(visited.is_empty());
    r
}

fn closed(expr: &Expr) -> Result<Expr, Halt> {
    value(expr, &Environment::new())
}

#[test]
fn a_sum_of_numbers_folds() {
    assert_eq!(normalize(Expr::Add(vec![num(2.0), num(3.0), num(0.25)])), num(5.25));
}

#[test]
fn a_sum_keeps_its_symbols_in_order_and_its_number_last() {
    assert_eq!(
        normalize(Expr::Add(vec![num(1.0), var("x"), num(2.0), var("y")])),
        Expr::Add(vec![var("x"), var("y"), num(3.0)])
    );
}

#[test]
fn a_sum_drops_a_zero() {
    assert_eq!(
        normalize(Expr::Add(vec![var("x"), num(0.0), var("y")])),
        Expr::Add(vec![var("x"), var("y")])
    );
    assert_eq!(normalize(Expr::Add(vec![num(2.0), var("x"), num(-2.0)])), var("x"));
    assert_eq!(normalize(Expr::Add(vec![var("x"), num(-0.0)])), var("x"));
}

#[test]
fn a_sum_of_nothing_is_zero() {
    assert_eq!(normalize(Expr::Add(vec![])), num(0.0));
    assert_eq!(normalize(Expr::Add(vec![num(1.5), num(-1.5)])), num(0.0));
}

#[test]
fn a_sum_of_one_operand_is_the_operand() {
    assert_eq!(normalize(Expr::Add(vec![var("x")])), var("x"));
    assert_eq!(normalize(Expr::Add(vec![num(4.0)])), num(4.0));
}

#[test]
fn a_nested_sum_is_spliced_in() {
    assert_eq!(
        normalize(Expr::Add(vec![Expr::Add(vec![var("x"), num(4.0)]), num(1.0), var("y")])),
        Expr::Add(vec![var("x"), var("y"), num(5.0)])
    );
    assert_eq!(
        normalize(Expr::Add(vec![Expr::Add(vec![var("x"), num(1.0)]), num(2.0)])),
        Expr::Add(vec![var("x"), num(3.0)])
    );
    assert_eq!(
        normalize(Expr::Add(vec![Expr::Add(vec![var("x"), num(1.0)]), num(-1.0)])),
        var("x")
    );
    assert_eq!(
        normalize(Expr::Add(vec![
            var("a"),
            Expr::Add(vec![Expr::Add(vec![var("b"), num(1.0)]), var("c"), num(2.0)]),
            Expr::Add(vec![num(3.0), var("d")]),
        ])),
        Expr::Add(vec![var("a"), var("b"), var("c"), var("d"), num(6.0)])
    );
}

#[test]
fn a_product_of_numbers_folds() {
    assert_eq!(normalize(Expr::Mul(vec![num(2.0), num(3.0), num(0.5)])), num(3.0));
}

#[test]
fn a_product_keeps_its_symbols_in_order_and_its_number_first() {
    assert_eq!(
        normalize(Expr::Mul(vec![var("x"), num(2.0), var("y"), num(3.0)])),
        Expr::Mul(vec![num(6.0), var("x"), var("y")])
    );
}

#[test]
fn a_product_drops_a_one() {
    assert_eq!(
        normalize(Expr::Mul(vec![var("x"), num(1.0), var("y")])),
        Expr::Mul(vec![var("x"), var("y")])
    );
    assert_eq!(normalize(Expr::Mul(vec![num(4.0), var("x"), num(0.25)])), var("x"));
}

#[test]
fn a_product_keeps_a_zero() {
    assert_eq!(
        normalize(Expr::Mul(vec![var("x"), num(0.0)])),
        Expr::Mul(vec![num(0.0), var("x")])
    );
}

#[test]
fn a_product_of_nothing_is_one() {
    assert_eq!(normalize(Expr::Mul(vec![])), num(1.0));
}

#[test]
fn a_nested_product_is_spliced_in() {
    assert_eq!(
        normalize(Expr::Mul(vec![Expr::Mul(vec![num(2.0), var("x")]), var("y"), num(5.0)])),
        Expr::Mul(vec![num(10.0), var("x"), var("y")])
    );
    assert_eq!(
        normalize(Expr::Mul(vec![Expr::Mul(vec![num(4.0), var("x")]), num(0.25)])),
        var("x")
    );
    assert_eq!(
        normalize(Expr::Mul(vec![
            Expr::Mul(vec![var("x"), over(var("y"), num(2.0))]),
            Expr::Mul(vec![num(3.0), over(var("z"), var("w"))]),
        ])),
        Expr::Mul(vec![
            num(3.0),
            var("x"),
            var("y"),
            var("z"),
            over(num(1.0), var("w")),
            over(num(1.0), num(2.0)),
        ])
    );
}

#[test]
fn a_numeric_dividend_in_a_product_is_folded() {
    assert_eq!(
        normalize(Expr::Mul(vec![over(num(6.0), var("y")), var("x")])),
        Expr::Mul(vec![num(6.0), over(num(1.0), var("y")), var("x")])
    );
    assert_eq!(
        normalize(Expr::Mul(vec![over(num(1.0), var("y")), var("x")])),
        Expr::Mul(vec![over(num(1.0), var("y")), var("x")])
    );
    assert_eq!(
        normalize(Expr::Mul(vec![over(num(2.0), var("y")), num(0.5)])),
        over(num(1.0), var("y"))
    );
}

#[test]
fn a_dividend_that_is_a_product_or_a_quotient_is_spliced_in() {
    assert_eq!(
        normalize(Expr::Mul(vec![
            over(Expr::Mul(vec![num(2.0), var("x")]), var("y")),
            num(3.0),
        ])),
        Expr::Mul(vec![num(6.0), var("x"), over(num(1.0), var("y"))])
    );
    assert_eq!(
        normalize(Expr::Mul(vec![over(over(var("x"), var("y")), var("z")), var("w")])),
        Expr::Mul(vec![
            var("x"),
            over(num(1.0), var("y")),
            over(num(1.0), var("z")),
            var("w"),
        ])
    );
}

#[test]
fn a_product_of_a_quotient_of_symbols_and_a_number() {
    assert_eq!(
        closed(&Expr::Mul(vec![over(var("x"), var("y")), num(3.0)])),
        Ok(Expr::Mul(vec![num(3.0), var("x"), over(num(1.0), var("y"))]))
    );
}

fn is_number(e: &Expr) -> bool {
    matches!(e, Expr::Number(_))
}

/// The form that evaluation promises, checked node by node.
fn reduced(e: &Expr) -> bool {
    match e {
        Expr::Number(_) | Expr::Var(_) => true,
        Expr::Add(terms) => {
            terms.len() >= 2
                && terms.iter().all(|t| !matches!(t, Expr::Add(_)) && reduced(t))
                && terms[..terms.len() - 1].iter().all(|t| !is_number(t))
                && terms.last() != Some(&num(0.0))
                && terms.last() != Some(&num(-0.0))
        }
        Expr::Mul(factors) => {
            factors.len() >= 2
                && factors.iter().all(|f| !matches!(f, Expr::Mul(_)) && reduced(f))
                && factors[1..].iter().all(|f| !is_number(f))
                && factors[0] != num(1.0)
        }
        Expr::Neg(inner) => !is_number(inner) && reduced(inner),
        Expr::Div(a, b) => reduced(a) && reduced(b),
        Expr::Pow(a, b) => reduced(a) && reduced(b),
        Expr::Sub(_, _) => false,
    }
}

#[test]
fn what_is_evaluated_is_in_normal_form() {
    let x = || var("x");
    let y = || var("y");
    let sum = |a: Expr, b: Expr| Expr::Add(vec![a, b]);
    let product = |a: Expr, b: Expr| Expr::Mul(vec![a, b]);
    let trees = vec![
        sum(sum(x(), num(1.0)), num(2.0)),
        sum(sum(x(), num(1.0)), num(-1.0)),
        product(over(x(), y()), num(3.0)),
        product(product(num(2.0), x()), product(num(0.5), y())),
        product(over(num(2.0), x()), over(num(3.0), y())),
        product(over(product(num(2.0), x()), y()), over(x(), num(4.0))),
        minus(sum(x(), num(1.0)), sum(y(), num(1.0))),
        minus(x(), x()),
        negative(sum(num(1.0), product(num(1.0), x()))),
        to_the(sum(sum(x(), num(1.0)), num(2.0)), product(num(1.0), y())),
        over(sum(x(), sum(y(), num(0.0))), product(x(), product(y(), num(1.0)))),
        sum(product(sum(x(), num(0.0)), num(1.0)), num(0.0)),
        product(sum(num(1.0), num(-1.0)), x()),
        sum(product(num(0.0), x()), num(0.0)),
    ];
    let mut vars = Environment::new();
    vars.insert("a".to_string(), sum(sum(x(), num(1.0)), var("a")));
    for tree in trees.iter().chain([sum(var("a"), num(2.0)), product(var("a"), var("a"))].iter()) {
        let value = value(tree, &vars).unwrap();
        assert!(reduced(&value), "{:?} gives {:?}", tree, value);
    }
}

#[test]
fn the_number_of_a_bound_sum_or_product_is_folded() {
    let mut vars = Environment::new();
    vars.insert("s".to_string(), Expr::Add(vec![var("x"), num(1.0)]));
    assert_eq!(
        value(&Expr::Add(vec![var("s"), num(2.0)]), &vars),
        Ok(Expr::Add(vec![var("x"), num(3.0)]))
    );
    vars.insert("p".to_string(), Expr::Mul(vec![num(2.0), var("x")]));
    assert_eq!(
        value(&Expr::Mul(vec![var("p"), num(3.0)]), &vars),
        Ok(Expr::Mul(vec![num(6.0), var("x")]))
    );
}

#[test]
fn a_product_gathers_numeric_divisors() {
    assert_eq!(
        normalize(Expr::Mul(vec![over(var("x"), num(2.0)), num(3.0), over(var("y"), num(4.0))])),
        Expr::Mul(vec![num(3.0), var("x"), var("y"), over(num(1.0), num(8.0))])
    );
}

#[test]
fn a_product_keeps_a_symbolic_divisor_as_a_reciprocal() {
    assert_eq!(
        normalize(Expr::Mul(vec![over(var("x"), var("y")), var("z")])),
        Expr::Mul(vec![var("x"), over(num(1.0), var("y")), var("z")])
    );
}

#[test]
fn a_negated_number_folds() {
    assert_eq!(normalize(negative(num(2.5))), num(-2.5));
    assert_eq!(normalize(negative(negative(num(2.5)))), num(2.5));
    assert_eq!(normalize(negative(num(0.0))), num(-0.0));
    assert_eq!(normalize(negative(var("x"))), negative(var("x")));
}

#[test]
fn a_quotient_of_numbers_folds() {
    assert_eq!(normalize(over(num(7.0), num(2.0))), num(3.5));
    assert_eq!(normalize(over(num(1.0), num(3.0))), num(1.0 / 3.0));
}

#[test]
fn normalize_divides_by_zero_as_the_numbers_do() {
    assert_eq!(normalize(over(num(1.0), num(0.0))), num(f64::INFINITY));
    assert_eq!(normalize(over(num(-1.0), num(0.0))), num(f64::NEG_INFINITY));
    match normalize(over(num(0.0), num(0.0))) {
        Expr::Number(bits) => assert!(f64::from_bits(bits).is_nan()),
        other => panic!("{:?}", other),
    }
}

#[test]
fn a_quotient_of_a_quotient_multiplies_the_divisors() {
    assert_eq!(
        normalize(over(over(var("x"), num(2.0)), num(3.0))),
        over(var("x"), num(6.0))
    );
    assert_eq!(
        normalize(over(over(var("x"), var("y")), num(3.0))),
        over(over(var("x"), var("y")), num(3.0))
    );
    assert_eq!(normalize(over(var("x"), var("y"))), over(var("x"), var("y")));
}

#[test]
fn normalize_leaves_differences_powers_and_leaves_alone() {
    let d = minus(Expr::Add(vec![num(1.0), num(2.0)]), num(3.0));
    assert_eq!(normalize(d.clone()), d);
    let p = to_the(Expr::Add(vec![num(1.0), num(2.0)]), num(3.0));
    assert_eq!(normalize(p.clone()), p);
    assert_eq!(normalize(var("x")), var("x"));
    assert_eq!(normalize(num(9.0)), num(9.0));
}

#[test]
fn a_number_evaluates_to_itself() {
    assert_eq!(closed(&num(4.5)), Ok(num(4.5)));
}

#[test]
fn an_unbound_variable_stays() {
    assert_eq!(closed(&var("x")), Ok(var("x")));
}

#[test]
fn a_bound_variable_is_replaced() {
    let mut vars = Environment::new();
    vars.insert("x".to_string(), num(3.0));
    assert_eq!(value(&Expr::Add(vec![var("x"), num(1.0)]), &vars), Ok(num(4.0)));
}

#[test]
fn a_visited_variable_stays() {
    let mut vars = Environment::new();
    vars.insert("x".to_string(), num(3.0));
    let mut visited = vec!["x".to_string()];
    assert_eq!(eval_ast(&var("x"), &vars, &mut visited, &PowerTable::new()), Ok(var("x")));
    assert_eq!(visited, vec!["x".to_string()]);
}

#[test]
fn definitions_are_expanded_when_they_are_used() {
    let mut vars = Environment::new();
    vars.insert("a".to_string(), Expr::Add(vec![var("b"), num(1.0)]));
    assert_eq!(value(&var("a"), &vars), Ok(Expr::Add(vec![var("b"), num(1.0)])));
    vars.insert("b".to_string(), num(2.0));
    assert_eq!(value(&var("a"), &vars), Ok(num(3.0)));
}

#[test]
fn a_definition_that_names_itself_ends() {
    let mut vars = Environment::new();
    vars.insert("a".to_string(), Expr::Add(vec![var("a"), num(1.0)]));
    assert_eq!(value(&var("a"), &vars), Ok(Expr::Add(vec![var("a"), num(1.0)])));
}

#[test]
fn definitions_that_name_each_other_end() {
    let mut vars = Environment::new();
    vars.insert("a".to_string(), Expr::Mul(vec![num(2.0), var("b")]));
    vars.insert("b".to_string(), Expr::Add(vec![var("a"), num(1.0)]));
    assert_eq!(
        value(&var("a"), &vars),
        Ok(Expr::Mul(vec![num(2.0), Expr::Add(vec![var("a"), num(1.0)])]))
    );
    assert_eq!(
        value(&var("b"), &vars),
        Ok(Expr::Add(vec![Expr::Mul(vec![num(2.0), var("b")]), num(1.0)]))
    );
}

#[test]
fn a_variable_may_be_expanded_in_two_places() {
    let mut vars = Environment::new();
    vars.insert("x".to_string(), num(3.0));
    assert_eq!(value(&Expr::Mul(vec![var("x"), var("x")]), &vars), Ok(num(9.0)));
}

#[test]
fn a_difference_is_a_sum_with_a_negation() {
    assert_eq!(closed(&minus(num(5.0), num(3.0))), Ok(num(2.0)));
    assert_eq!(
        closed(&minus(var("x"), var("y"))),
        Ok(Expr::Add(vec![var("x"), negative(var("y"))]))
    );
    assert_eq!(closed(&minus(var("x"), num(3.0))), Ok(Expr::Add(vec![var("x"), num(-3.0)])));
}

#[test]
fn division_by_zero_fails() {
    let zero = Halt::Error(CalcError::DivisionByZero);
    assert_eq!(closed(&over(num(5.0), num(0.0))), Err(zero.clone()));
    assert_eq!(closed(&over(num(5.0), num(-0.0))), Err(zero.clone()));
    assert_eq!(closed(&over(num(0.0), num(0.0))), Err(zero.clone()));
    assert_eq!(closed(&over(var("x"), num(0.0))), Err(zero.clone()));
    assert_eq!(closed(&over(var("x"), minus(num(2.0), num(2.0)))), Err(zero.clone()));
    assert_eq!(closed(&Expr::Add(vec![num(1.0), over(num(1.0), num(0.0))])), Err(zero));
}

#[test]
fn division_evaluates() {
    assert_eq!(closed(&over(num(7.0), num(2.0))), Ok(num(3.5)));
    assert_eq!(closed(&over(var("x"), num(2.0))), Ok(over(var("x"), num(2.0))));
    assert_eq!(closed(&over(num(2.0), var("x"))), Ok(over(num(2.0), var("x"))));
    assert_eq!(closed(&over(over(var("x"), num(2.0)), num(4.0))), Ok(over(var("x"), num(8.0))));
}

#[test]
fn a_power_of_two_numbers_needs_the_table() {
    assert_eq!(
        closed(&to_the(num(2.0), num(3.0))),
        Err(Halt::NeedPower(2.0f64.to_bits(), 3.0f64.to_bits()))
    );
    assert_eq!(
        closed(&to_the(num(2.0), num(0.0))),
        Err(Halt::NeedPower(2.0f64.to_bits(), 0.0f64.to_bits()))
    );
}

#[test]
fn a_power_of_two_numbers_is_taken_from_the_table() {
    let mut powers = PowerTable::new();
    powers.record(2.0f64.to_bits(), 3.0f64.to_bits(), 8.0f64.to_bits());
    let mut visited = Vec::new();
    assert_eq!(
        eval_ast(
            &Expr::Add(vec![to_the(num(2.0), num(3.0)), num(1.0)]),
            &Environment::new(),
            &mut visited,
            &powers
        ),
        Ok(num(9.0))
    );
    assert_eq!(
        eval_ast(&to_the(num(3.0), num(2.0)), &Environment::new(), &mut visited, &powers),
        Err(Halt::NeedPower(3.0f64.to_bits(), 2.0f64.to_bits()))
    );
}

#[test]
fn the_first_power_that_is_needed_is_asked_for() {
    assert_eq!(
        closed(&Expr::Add(vec![to_the(num(2.0), num(3.0)), to_the(num(4.0), num(5.0))])),
        Err(Halt::NeedPower(2.0f64.to_bits(), 3.0f64.to_bits()))
    );
    assert_eq!(
        closed(&to_the(to_the(num(2.0), num(3.0)), over(num(1.0), num(0.0)))),
        Err(Halt::NeedPower(2.0f64.to_bits(), 3.0f64.to_bits()))
    );
    assert_eq!(
        closed(&to_the(over(num(1.0), num(0.0)), to_the(num(2.0), num(3.0)))),
        Err(Halt::Error(CalcError::DivisionByZero))
    );
}

#[test]
fn a_symbol_to_the_zero_is_one() {
    assert_eq!(closed(&to_the(var("x"), num(0.0))), Ok(num(1.0)));
    assert_eq!(closed(&to_the(var("x"), num(-0.0))), Ok(num(1.0)));
    assert_eq!(closed(&to_the(var("x"), minus(num(2.0), num(2.0)))), Ok(num(1.0)));
}

#[test]
fn a_symbol_to_the_one_is_itself() {
    assert_eq!(closed(&to_the(var("x"), num(1.0))), Ok(var("x")));
    assert_eq!(
        closed(&to_the(Expr::Add(vec![var("x"), num(1.0)]), num(1.0))),
        Ok(Expr::Add(vec![var("x"), num(1.0)]))
    );
}

#[test]
fn any_other_power_of_a_symbol_stays() {
    assert_eq!(closed(&to_the(var("x"), num(2.0))), Ok(to_the(var("x"), num(2.0))));
    assert_eq!(closed(&to_the(num(2.0), var("x"))), Ok(to_the(num(2.0), var("x"))));
    assert_eq!(closed(&to_the(var("x"), var("y"))), Ok(to_the(var("x"), var("y"))));
}

#[test]
fn a_negation_evaluates() {
    assert_eq!(closed(&negative(num(2.0))), Ok(num(-2.0)));
    assert_eq!(closed(&negative(var("x"))), Ok(negative(var("x"))));
    assert_eq!(closed(&negative(Expr::Add(vec![num(1.0), num(2.0)]))), Ok(num(-3.0)));
}

#[test]
fn eval_stops_before_the_last_normalization() {
    let mut vars = Environment::new();
    vars.insert("s".to_string(), Expr::Add(vec![num(1.0), num(2.0), var("t")]));
    let mut visited = Vec::new();
    let powers = PowerTable::new();
    assert_eq!(eval(&var("s"), &vars, &mut visited, &powers), Ok(Expr::Add(vec![var("t"), num(3.0)])));
    assert_eq!(eval(&num(1.0), &vars, &mut visited, &powers), Ok(num(1.0)));
    assert_eq!(
        eval(&over(num(1.0), num(0.0)), &vars, &mut visited, &powers),
        Err(Halt::Error(CalcError::DivisionByZero))
    );
}

#[test]
fn binding_a_name_again_replaces_its_expression() {
    let mut vars = Environment::new();
    assert_eq!(vars.get(&"x".to_string()), None);
    vars.insert("x".to_string(), num(1.0));
    vars.insert("y".to_string(), num(2.0));
    vars.insert("x".to_string(), num(3.0));
    assert_eq!(vars.get(&"x".to_string()), Some(&num(3.0)));
    assert_eq!(vars.get(&"y".to_string()), Some(&num(2.0)));
    assert_eq!(vars.get(&"X".to_string()), None);
}

#[test]
fn recording_a_power_again_replaces_it() {
    let mut powers = PowerTable::new();
    assert_eq!(powers.lookup(1, 2), None);
    powers.record(1, 2, 3);
    powers.record(2, 1, 4);
    powers.record(1, 2, 5);
    assert_eq!(powers.lookup(1, 2), Some(5));
    assert_eq!(powers.lookup(2, 1), Some(4));
    assert_eq!(powers.lookup(2, 2), None);
}

#[test]
fn numbers_compare_as_numbers() {
    let nan = f64::NAN.to_bits();
    assert!(numbers_equal(1.5f64.to_bits(), 1.5f64.to_bits()));
    assert!(!numbers_equal(1.5f64.to_bits(), 2.5f64.to_bits()));
    assert!(numbers_equal(0.0f64.to_bits(), (-0.0f64).to_bits()));
    assert!(!numbers_equal(nan, nan));
    assert!(!numbers_equal(nan, 1.0f64.to_bits()));
    assert!(numbers_equal(f64::INFINITY.to_bits(), f64::INFINITY.to_bits()));
    assert!(!numbers_equal(f64::INFINITY.to_bits(), f64::NEG_INFINITY.to_bits()));
}

#[test]
fn number_predicates() {
    assert!(is_zero_number(0.0f64.to_bits()));
    assert!(is_zero_number((-0.0f64).to_bits()));
    assert!(!is_zero_number(f64::MIN_POSITIVE.to_bits()));
    assert!(is_not_a_number(f64::NAN.to_bits()));
    assert!(is_not_a_number((-f64::NAN).to_bits()));
    assert!(!is_not_a_number(f64::INFINITY.to_bits()));
    assert!(!is_not_a_number(f64::NEG_INFINITY.to_bits()));
    assert!(!is_not_a_number(1.0f64.to_bits()));
    assert_eq!(negate(2.5f64.to_bits()), (-2.5f64).to_bits());
    assert_eq!(negate((-2.5f64).to_bits()), 2.5f64.to_bits());
    assert_eq!(negate(0.0f64.to_bits()), (-0.0f64).to_bits());
}

#[test]
fn a_sum_that_is_not_a_number_is_kept() {
    let inf = num(f64::INFINITY);
    let minus_inf = num(f64::NEG_INFINITY);
    match normalize(Expr::Add(vec![inf, minus_inf])) {
        Expr::Number(bits) => assert!(f64::from_bits(bits).is_nan()),
        other => panic!("{:?}", other),
    }
}

fn samples() -> Vec<f64> {
    vec![
        0.0,
        -0.0,
        1.0,
        -1.0,
        0.1,
        0.2,
        0.3,
        1.0 / 3.0,
        2.5,
        -7.75,
        1e-320,
        -3e-310,
        f64::MIN_POSITIVE,
        f64::EPSILON,
        1e15 + 0.3,
        9007199254740993.0,
        1.7976931348623157e308,
        -1.7976931348623157e308,
        6.02214076e23,
        1.602176634e-19,
        f64::INFINITY,
        f64::NEG_INFINITY,
    ]
}

fn folded(expr: Expr) -> f64 {
    match normalize(expr) {
        Expr::Number(bits) => f64::from_bits(bits),
        other => panic!("{:?}", other),
    }
}

fn agree(got: f64, expected: f64) -> bool {
    (got.is_nan() && expected.is_nan()) || got.to_bits() == expected.to_bits()
}

#[test]
fn sums_agree_with_the_machine() {
    for a in samples() {
        for b in samples() {
            let got = folded(Expr::Add(vec![num(a), num(b)]));
            let expected = if a + b == 0.0 { 0.0 } else { a + b };
            assert!(agree(got, expected), "{:?} + {:?} = {:?}", a, b, got);
        }
    }
}

#[test]
fn products_agree_with_the_machine() {
    for a in samples() {
        for b in samples() {
            let got = folded(Expr::Mul(vec![num(a), num(b)]));
            let expected = if a * b == 1.0 { 1.0 } else { 1.0 * a * b };
            assert!(agree(got, expected), "{:?} * {:?} = {:?}", a, b, got);
        }
    }
}

#[test]
fn quotients_agree_with_the_machine() {
    for a in samples() {
        for b in samples() {
            let got = folded(over(num(a), num(b)));
            assert!(agree(got, a / b), "{:?} / {:?} = {:?}", a, b, got);
        }
    }
}

#[test]
fn negations_agree_with_the_machine() {
    for a in samples() {
        assert!(agree(folded(negative(num(a))), -a));
        assert!(agree(f64::from_bits(negate(a.to_bits())), -a));
    }
    assert!(f64::from_bits(negate(f64::NAN.to_bits())).is_nan());
}

#[test]
fn comparisons_agree_with_the_machine() {
    let mut all = samples();
    all.push(f64::NAN);
    for a in &all {
        for b in &all {
            assert_eq!(numbers_equal(a.to_bits(), b.to_bits()), a == b);
        }
        assert_eq!(is_zero_number(a.to_bits()), *a == 0.0);
        assert_eq!(is_not_a_number(a.to_bits()), a.is_nan());
    }
}

fn names_in(e: &Expr, out: &mut Vec<String>) {
    match e {
        Expr::Number(_) => {}
        Expr::Var(name) => out.push(name.clone()),
        Expr::Add(items) | Expr::Mul(items) => items.iter().for_each(|i| names_in(i, out)),
        Expr::Sub(a, b) | Expr::Div(a, b) | Expr::Pow(a, b) => {
            names_in(a, out);
            names_in(b, out);
        }
        Expr::Neg(a) => names_in(a, out),
    }
}

fn names_of(e: &Expr) -> Vec<String> {
    let mut out = Vec::new();
    names_in(e, &mut out);
    out
}

#[test]
fn normalize_keeps_the_variables_in_order() {
    let trees = vec![
        Expr::Add(vec![num(1.0), var("a"), Expr::Add(vec![var("b"), num(2.0), var("c")]), var("a")]),
        Expr::Mul(vec![
            over(Expr::Mul(vec![var("a"), num(2.0), var("b")]), var("c")),
            over(var("d"), num(4.0)),
            Expr::Mul(vec![var("e"), over(num(1.0), var("f"))]),
        ]),
        over(over(var("a"), num(2.0)), num(3.0)),
        negative(Expr::Add(vec![var("b"), var("a")])),
        over(Expr::Add(vec![var("y"), num(0.0)]), Expr::Mul(vec![num(1.0), var("x")])),
        to_the(Expr::Add(vec![var("q"), var("p")]), minus(var("s"), var("r"))),
    ];
    for tree in trees {
        let names = names_of(&tree);
        assert_eq!(names_of(&normalize(tree)), names);
    }
}

#[test]
fn a_tree_without_a_quotient_does_not_fail() {
    let mut vars = Environment::new();
    vars.insert("a".to_string(), Expr::Add(vec![var("a"), var("b")]));
    vars.insert("b".to_string(), num(0.0));
    let tree = Expr::Add(vec![
        minus(var("a"), var("b")),
        Expr::Mul(vec![negative(var("c")), to_the(var("a"), var("b")), num(0.0)]),
    ]);
    assert!(value(&tree, &vars).is_ok());
}

#[test]
fn a_fully_bound_tree_is_a_number() {
    let mut vars = Environment::new();
    vars.insert("a".to_string(), num(6.0));
    vars.insert("b".to_string(), num(1.5));
    let tree = over(
        minus(Expr::Mul(vec![var("a"), var("b"), num(2.0)]), negative(var("a"))),
        Expr::Add(vec![var("b"), var("b")]),
    );
    assert_eq!(value(&tree, &vars), Ok(num(8.0)));
}
