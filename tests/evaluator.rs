use arithmetic::evaluator::{plan, Plan, Step};
use arithmetic::symbol::{EvalError, Symbol};

/// Runs a reduction schedule on an operand stack of `f64`.
fn evaluate(expr: &str) -> Result<f64, EvalError> {
    let Plan { steps, end } = plan(expr);
    let mut stack: Vec<f64> = Vec::new();
    for step in steps {
        match step {
            Step::Literal(text) => {
                let n = text.parse::<f64>().map_err(|_| EvalError::InvalidNumberLiteral)?;
                stack.push(n);
            }
            Step::Apply(Symbol::Per) => {
                let b = stack.pop().expect("the schedule supplies an operand");
                stack.push(b / 100.0);
            }
            Step::Apply(op) => {
                let b = stack.pop().expect("the schedule supplies an operand");
                let a = stack.pop().expect("the schedule supplies an operand");
                let r = match op {
                    Symbol::Add => a + b,
                    Symbol::Sub => a - b,
                    Symbol::Mul => a * b,
                    Symbol::Div if b == 0.0 => return Err(EvalError::DivisionByZero),
                    Symbol::Div => a / b,
                    _ => unreachable!("only operators are applied"),
                };
                stack.push(r);
            }
        }
    }
    match end {
        Some(e) => Err(e),
        None => Ok(stack[0]),
    }
}

fn lit(s: &str) -> Step {
    Step::Literal(s.to_string())
}

#[test]
fn individually_tested() {
    assert_eq!(Ok(100.0), evaluate("60/2(1+2)+10"));
}

#[test]
fn test_simple_arithmetic() {
    assert_eq!(Ok(0.5), evaluate("50%"));
    assert_eq!(Ok(-0.5), evaluate("-50%"));
    assert_eq!(Ok(50.0), evaluate("+50"));
    assert_eq!(Ok(-50.0), evaluate("-50"));

    assert_eq!(Ok(50.0), evaluate("25 + 25"));
    assert_eq!(Ok(50.0), evaluate("100 - 50"));
    assert_eq!(Ok(-50.0), evaluate("50 - 100"));
    assert_eq!(Ok(-50.0), evaluate("-100 + 50"));

    assert_eq!(Ok(50.0), evaluate("25 * 2"));
    assert_eq!(Ok(-50.0), evaluate("-25 * 2"));
    assert_eq!(Ok(-50.0), evaluate("25 * -2"));
    assert_eq!(Ok(50.0), evaluate("100 / 2"));
    assert_eq!(Ok(-50.0), evaluate("100 / -2"));
    assert_eq!(Ok(-50.0), evaluate("-100 / 2"));

    assert_eq!(Ok(10.5), evaluate("10 + 50%"));
    assert_eq!(Ok(9.5), evaluate("10 - 50%"));
    assert_eq!(Ok(50.0), evaluate("100 * 50%"));
    assert_eq!(Ok(50.0), evaluate("25 / 50%"));

    assert_eq!(Ok(3.0), evaluate("1.25 + 1.75"));
    assert_eq!(Ok(125.0), evaluate("1.25 * 100"));

    assert_eq!(Ok(0.3333333333333333), evaluate("1 / 3"));
    assert_eq!(Ok(3.142857142857143), evaluate("22 / 7"));
}

#[test]
fn test_mixed_arithmetic() {
    assert_eq!(Ok(20.0), evaluate("10 - -10"));
    assert_eq!(Ok(30.0), evaluate("10 - 2(-10)"));
    assert_eq!(Ok(100.0), evaluate("(3+7) * (6+4)"));
    assert_eq!(Ok(-10.0), evaluate("-5 * (4 - 1) + 20 / 4"));
    assert_eq!(Ok(224.12121212121212), evaluate("3 * 4 + 10 * 7 / 33%"));
    assert_eq!(Ok(-1.794871794871795), evaluate("(-2 * 5 + 3) / (4 - 10%)"));
}

#[test]
fn test_invalid_expressions() {
    assert_eq!(Err(EvalError::DivisionByZero), evaluate("10 / 0"));
    assert_eq!(Err(EvalError::DivisionByZero), evaluate("100 / (50 - 50)"));
    assert_eq!(Err(EvalError::UnknownSymbol('$')), evaluate("10$ * 100"));
    assert_eq!(Err(EvalError::MalformedExpression), evaluate("10 * (20 - )"));
    assert_eq!(Err(EvalError::MalformedExpression), evaluate("(10 + 20"));
    assert_eq!(Err(EvalError::MalformedExpression), evaluate("10 + 20)"));
    assert_eq!(Err(EvalError::MalformedExpression), evaluate("(20 + 30)10"));
}

#[test]
fn symbol_parse_classifies_each_operator() {
    assert_eq!(Ok(Symbol::Add), Symbol::parse('+'));
    assert_eq!(Ok(Symbol::Sub), Symbol::parse('-'));
    assert_eq!(Ok(Symbol::Mul), Symbol::parse('*'));
    assert_eq!(Ok(Symbol::Div), Symbol::parse('/'));
    assert_eq!(Ok(Symbol::Per), Symbol::parse('%'));
    assert_eq!(Ok(Symbol::ParL), Symbol::parse('('));
    assert_eq!(Ok(Symbol::ParR), Symbol::parse(')'));
    assert_eq!(Err(EvalError::UnknownSymbol('x')), Symbol::parse('x'));
    assert_eq!(Err(EvalError::UnknownSymbol('7')), Symbol::parse('7'));
}

#[test]
fn plan_of_binary_expression_applies_once() {
    let p = plan("25 * -2");
    assert_eq!(p.steps, vec![lit("25"), lit("-2"), Step::Apply(Symbol::Mul)]);
    assert_eq!(p.end, None);
    let p = plan("1.25+1.75");
    assert_eq!(p.steps, vec![lit("1.25"), lit("1.75"), Step::Apply(Symbol::Add)]);
    assert_eq!(p.end, None);
}

#[test]
fn binary_expression_matches_native_arithmetic() {
    let cases: [(f64, char, f64); 6] = [
        (1.5, '+', 2.25),
        (-7.0, '-', 0.125),
        (3.0, '*', -4.5),
        (22.0, '/', 7.0),
        (0.1, '+', 0.2),
        (1e3, '/', -3.0),
    ];
    for (a, op, b) in cases {
        let expr = format!("{} {} {}", a, op, b);
        let expected = match op {
            '+' => a + b,
            '-' => a - b,
            '*' => a * b,
            _ => a / b,
        };
        assert_eq!(Ok(expected), evaluate(&expr), "{}", expr);
    }
}

#[test]
fn percent_divides_by_one_hundred() {
    let p = plan("12.5%");
    assert_eq!(p.steps, vec![lit("12.5"), Step::Apply(Symbol::Per)]);
    assert_eq!(p.end, None);
    assert_eq!(Ok(12.5 / 100.0), evaluate("12.5%"));
    assert_eq!(Ok(0.07), evaluate("7%"));
}

#[test]
fn parentheses_are_transparent() {
    for x in ["1 + 2 * 3", "-5 * (4 - 1) + 20 / 4", "60/2(1+2)+10", "50%", "7"] {
        let wrapped = format!("({})", x);
        assert_eq!(plan(x), plan(&wrapped), "{}", x);
        assert_eq!(evaluate(x), evaluate(&wrapped), "{}", x);
    }
}

#[test]
fn division_by_zero_in_nested_parentheses() {
    assert_eq!(Err(EvalError::DivisionByZero), evaluate("1 + (2 * (3 / (4 - 4)))"));
}

#[test]
fn unknown_symbol_stops_the_scan() {
    let p = plan("10$ * 100");
    assert_eq!(p.steps, vec![lit("10")]);
    assert_eq!(p.end, Some(EvalError::UnknownSymbol('$')));
    assert_eq!(Err(EvalError::UnknownSymbol('x')), evaluate("2 x 3"));
}

#[test]
fn unbalanced_parentheses_are_malformed() {
    assert_eq!(plan("((1 + 2)").end, Some(EvalError::MalformedExpression));
    assert_eq!(plan(")(").end, Some(EvalError::MalformedExpression));
    assert_eq!(plan("(1))").end, Some(EvalError::MalformedExpression));
}

#[test]
fn operands_left_over_are_malformed() {
    assert_eq!(plan("(20 + 30)10").end, Some(EvalError::MalformedExpression));
    assert_eq!(plan("(1)(2)").end, Some(EvalError::MalformedExpression));
}

#[test]
fn empty_and_blank_expressions_are_malformed() {
    assert_eq!(plan("").end, Some(EvalError::MalformedExpression));
    assert_eq!(plan(" \t\n").end, Some(EvalError::MalformedExpression));
}

#[test]
fn trailing_operator_is_malformed() {
    assert_eq!(Err(EvalError::MalformedExpression), evaluate("1 +"));
    assert_eq!(Err(EvalError::MalformedExpression), evaluate("*"));
    assert_eq!(Err(EvalError::MalformedExpression), evaluate("%"));
}

#[test]
fn bad_number_literal_is_reported() {
    assert_eq!(plan("1.2.3 + 1").steps[0], lit("1.2.3"));
    assert_eq!(Err(EvalError::InvalidNumberLiteral), evaluate("1.2.3 + 1"));
    assert_eq!(Err(EvalError::InvalidNumberLiteral), evaluate("--2"));
}

#[test]
fn implicit_multiplication_binds_left_to_right() {
    let p = plan("60/2(1+2)+10");
    assert_eq!(
        p.steps,
        vec![
            lit("60"),
            lit("2"),
            Step::Apply(Symbol::Div),
            lit("1"),
            lit("2"),
            Step::Apply(Symbol::Add),
            Step::Apply(Symbol::Mul),
            lit("10"),
            Step::Apply(Symbol::Add),
        ]
    );
    assert_eq!(Ok(14.0), evaluate("2(3+4)"));
}

#[test]
fn whitespace_inside_a_number_is_skipped() {
    assert_eq!(Ok(12.0), evaluate("1 2"));
}

#[test]
fn whitespace_does_not_split_a_number_from_its_sign() {
    assert_eq!(plan("3 * - 2").steps, vec![lit("3"), lit("-2"), Step::Apply(Symbol::Mul)]);
}

#[test]
fn additive_chains_associate_from_the_left() {
    assert_eq!(Ok(11.0), evaluate("10 - 2 + 3"));
    assert_eq!(Ok(-4.0), evaluate("1 - 2 - 3"));
    assert_eq!(Ok(5.0), evaluate("10 - 2 - 3"));
    assert_eq!(Ok(-1.0), evaluate("1 - 2 * 3 + 4"));
    assert_eq!(Ok(2.0), evaluate("(10 - 2 - 3) - 3"));
    assert_eq!(
        plan("10 - 2 + 3").steps,
        vec![lit("10"), lit("2"), Step::Apply(Symbol::Sub), lit("3"), Step::Apply(Symbol::Add)]
    );
}

#[test]
fn multiplicative_chains_associate_from_the_left() {
    assert_eq!(Ok(2.0), evaluate("8 / 2 / 2"));
    assert_eq!(Ok(12.0), evaluate("8 / 2 * 3"));
}

#[test]
fn multiplication_binds_tighter_than_addition() {
    assert_eq!(
        plan("1+2*3").steps,
        vec![lit("1"), lit("2"), lit("3"), Step::Apply(Symbol::Mul), Step::Apply(Symbol::Add)]
    );
    assert_eq!(Ok(7.0), evaluate("1 + 2 * 3"));
    assert_eq!(Ok(7.0), evaluate("2 * 3 + 1"));
}

#[test]
fn closing_before_opening_is_malformed() {
    assert_eq!(plan(")1(").end, Some(EvalError::MalformedExpression));
}
