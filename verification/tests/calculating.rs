use pebble::backend::{evaluate, Constant, Environment, Function, Operator, Step};
use pebble::parser::{parse_stmts, TokenStream};
use pebble::tokenizer::tokenize;
use std::collections::HashMap;

struct Session {
    names: Environment,
    values: HashMap<String, f64>,
}

fn session() -> Session {
    Session {
        names: Environment::new(),
        values: HashMap::new(),
    }
}

fn carry_out(steps: &[Step], values: &mut HashMap<String, f64>) -> Option<f64> {
    let mut stack: Vec<f64> = Vec::new();
    for step in steps {
        match step {
            Step::Number(literal) => stack.push(literal.text().parse::<f64>().unwrap()),
            Step::Constant(Constant::E) => stack.push(std::f64::consts::E),
            Step::Constant(Constant::Pi) => stack.push(std::f64::consts::PI),
            Step::Load(name) => stack.push(values[name]),
            Step::Store(name) => {
                values.insert(name.clone(), *stack.last().unwrap());
            }
            Step::Binary(operator) => {
                let right = stack.pop().unwrap();
                let left = stack.pop().unwrap();
                stack.push(match operator {
                    Operator::Add => left + right,
                    Operator::Subtract => left - right,
                    Operator::Multiply => left * right,
                    Operator::Divide => left / right,
                });
            }
            Step::Negate => {
                let value = stack.pop().unwrap();
                stack.push(-value);
            }
            Step::Apply(Function::Pow) => {
                let exponent = stack.pop().unwrap();
                let base = stack.pop().unwrap();
                stack.push(base.powf(exponent));
            }
            Step::Apply(function) => {
                let value = stack.pop().unwrap();
                stack.push(match function {
                    Function::Sin => value.sin(),
                    Function::Cos => value.cos(),
                    _ => value.ln(),
                });
            }
            Step::Zero => stack.push(0.0),
            Step::Discard => {
                stack.pop().unwrap();
            }
        }
    }
    stack.pop()
}

fn calculate(text: &str, session: &mut Session) -> Result<f64, String> {
    let tree = parse_stmts(&mut TokenStream::new(tokenize(text))).unwrap();
    let mut steps = Vec::new();
    let outcome = evaluate(&tree, &mut session.names, &mut steps);
    let value = carry_out(&steps, &mut session.values);
    match outcome {
        Ok(()) => Ok(value.unwrap()),
        Err(error) => Err(error.message()),
    }
}

fn result_of(text: &str) -> f64 {
    calculate(text, &mut session()).unwrap()
}

#[test]
fn subtraction_and_division_associate_to_the_left() {
    assert_eq!(result_of("8 - 3 - 2"), 3.0);
    assert_eq!(result_of("16 / 4 / 2"), 2.0);
}

#[test]
fn negation_applies_to_its_operand_only() {
    assert_eq!(result_of("-2 * 3"), -6.0);
    assert_eq!(result_of("--5"), 5.0);
    assert_eq!(result_of("2 - -3"), 5.0);
}

#[test]
fn parentheses_group() {
    assert_eq!(result_of("(1 + 2) * 3"), 9.0);
    assert_eq!(result_of("1 + 2 * 3"), 7.0);
    assert_eq!(result_of("8 - (3 - 2)"), 7.0);
}

#[test]
fn literals_have_their_decimal_value() {
    assert_eq!(result_of("42"), 42.0);
    assert_eq!(result_of("0.5"), 0.5);
    assert_eq!(result_of("12.25 + 0.75"), 13.0);
    assert_eq!(result_of("007"), 7.0);
}

#[test]
fn constants_have_their_values() {
    assert_eq!(result_of("pi"), std::f64::consts::PI);
    assert_eq!(result_of("e"), std::f64::consts::E);
    assert_eq!(result_of("2 * pi"), 2.0 * std::f64::consts::PI);
}

#[test]
fn builtins_compute() {
    assert_eq!(result_of("pow(2, 10)"), 1024.0);
    assert_eq!(result_of("pow(10, 2)"), 100.0);
    assert_eq!(result_of("sin(0)"), 0.0);
    assert_eq!(result_of("cos(0)"), 1.0);
    assert_eq!(result_of("ln(1)"), 0.0);
    assert_eq!(result_of("ln(e)"), 1.0);
    assert_eq!(result_of("pow(2, pow(2, 3))"), 256.0);
}

#[test]
fn wrong_arity_is_an_error_and_no_number() {
    assert_eq!(
        calculate("pow(2)", &mut session()),
        Err("Invalid function call, function `pow/1` does not exist".to_string())
    );
    assert_eq!(
        calculate("foo(1)", &mut session()),
        Err("Invalid function call, function `foo/1` does not exist".to_string())
    );
    assert_eq!(
        calculate("foo", &mut session()),
        Err("Invalid identifier, global constant `foo` does not exist".to_string())
    );
}

#[test]
fn division_by_zero_is_no_error() {
    assert_eq!(result_of("1 / 0"), f64::INFINITY);
    assert_eq!(result_of("-1 / 0"), f64::NEG_INFINITY);
    assert!(result_of("0 / 0").is_nan());
    assert!(result_of("ln(-1)").is_nan());
    assert!(result_of("ln(-1) + 1").is_nan());
}

#[test]
fn assignment_persists_across_lines() {
    let mut session = session();
    assert_eq!(calculate("let x = 5", &mut session), Ok(5.0));
    assert_eq!(calculate("x + 1", &mut session), Ok(6.0));
    assert_eq!(calculate("let x = x * 2", &mut session), Ok(10.0));
    assert_eq!(calculate("x", &mut session), Ok(10.0));
}

#[test]
fn a_chain_has_the_value_of_its_last_statement() {
    let mut session = session();
    assert_eq!(
        calculate("let x = 1, let y = 2, x + y", &mut session),
        Ok(3.0)
    );
    assert_eq!(session.values.get("x"), Some(&1.0));
    assert_eq!(session.values.get("y"), Some(&2.0));
    assert_eq!(calculate("1, 2, 3", &mut session), Ok(3.0));
}

#[test]
fn bindings_made_before_a_failure_stand() {
    let mut session = session();
    assert_eq!(
        calculate("let x = 4, y", &mut session),
        Err("Invalid identifier, global constant `y` does not exist".to_string())
    );
    assert_eq!(calculate("x", &mut session), Ok(4.0));
}

#[test]
fn sessions_do_not_share_bindings() {
    let mut first = session();
    let mut second = session();
    assert_eq!(calculate("let x = 1", &mut first), Ok(1.0));
    assert_eq!(
        calculate("x", &mut second),
        Err("Invalid identifier, global constant `x` does not exist".to_string())
    );
}

#[test]
fn a_constant_cannot_be_reassigned() {
    let mut session = session();
    assert_eq!(calculate("let pi = 3", &mut session), Ok(3.0));
    assert_eq!(calculate("pi", &mut session), Ok(std::f64::consts::PI));
}
