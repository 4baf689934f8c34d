use pebble::backend::{
    builtin_function, evaluate, evaluate_function_call, evaluate_global_constant, Constant,
    Environment, EvaluationError, Function, Operator, Step,
};
use pebble::parser::{parse_stmts, TokenStream, AST};
use pebble::tokenizer::{tokenize, Literal};

fn tree(text: &str) -> AST {
    parse_stmts(&mut TokenStream::new(tokenize(text))).unwrap()
}

fn steps_of(text: &str, session: &mut Environment) -> (Vec<Step>, Result<(), EvaluationError>) {
    let mut steps = Vec::new();
    let outcome = evaluate(&tree(text), session, &mut steps);
    (steps, outcome)
}

fn number(text: &str) -> Step {
    Step::Number(Literal::new(text).unwrap())
}

fn leaf(text: &str) -> AST {
    AST::Number(Literal::new(text).unwrap())
}

fn load(name: &str) -> Step {
    Step::Load(name.to_string())
}

fn store(name: &str) -> Step {
    Step::Store(name.to_string())
}

#[test]
fn operands_come_before_their_operator() {
    let (steps, outcome) = steps_of("8 - 3 - 2", &mut Environment::new());
    assert_eq!(outcome, Ok(()));
    assert_eq!(
        steps,
        vec![
            Step::Zero,
            Step::Discard,
            number("8"),
            number("3"),
            Step::Binary(Operator::Subtract),
            number("2"),
            Step::Binary(Operator::Subtract),
        ]
    );
}

#[test]
fn each_node_has_its_step() {
    let mut steps = Vec::new();
    let tree = AST::Add(
        Box::new(AST::Multiply(
            Box::new(leaf("1")),
            Box::new(AST::Negate(Box::new(leaf("2")))),
        )),
        Box::new(AST::Divide(
            Box::new(AST::Identifier("e".to_string())),
            Box::new(leaf("3")),
        )),
    );
    assert_eq!(evaluate(&tree, &mut Environment::new(), &mut steps), Ok(()));
    assert_eq!(
        steps,
        vec![
            number("1"),
            number("2"),
            Step::Negate,
            Step::Binary(Operator::Multiply),
            Step::Constant(Constant::E),
            number("3"),
            Step::Binary(Operator::Divide),
            Step::Binary(Operator::Add),
        ]
    );
}

#[test]
fn steps_are_appended() {
    let mut steps = vec![Step::Zero];
    let tree = leaf("1");
    assert_eq!(evaluate(&tree, &mut Environment::new(), &mut steps), Ok(()));
    assert_eq!(steps, vec![Step::Zero, number("1")]);
}

#[test]
fn constants_resolve_without_assignment() {
    let mut session = Environment::new();
    let mut steps = Vec::new();
    let pi = AST::Identifier("pi".to_string());
    let e = AST::Identifier("e".to_string());
    assert_eq!(evaluate(&pi, &mut session, &mut steps), Ok(()));
    assert_eq!(evaluate(&e, &mut session, &mut steps), Ok(()));
    assert_eq!(
        steps,
        vec![Step::Constant(Constant::Pi), Step::Constant(Constant::E)]
    );
    assert_eq!(session.len(), 0);
}

#[test]
fn constants_come_before_variables() {
    let mut session = Environment::new();
    let (_, outcome) = steps_of("let pi = 3", &mut session);
    assert_eq!(outcome, Ok(()));
    assert!(session.contains(&"pi".to_string()));
    let mut steps = Vec::new();
    let pi = AST::Identifier("pi".to_string());
    assert_eq!(evaluate(&pi, &mut session, &mut steps), Ok(()));
    assert_eq!(steps, vec![Step::Constant(Constant::Pi)]);
}

#[test]
fn global_constants_are_e_and_pi() {
    assert_eq!(evaluate_global_constant(&"e".to_string()), Some(Constant::E));
    assert_eq!(evaluate_global_constant(&"pi".to_string()), Some(Constant::Pi));
    assert_eq!(evaluate_global_constant(&"p".to_string()), None);
    assert_eq!(evaluate_global_constant(&"pie".to_string()), None);
    assert_eq!(evaluate_global_constant(&"".to_string()), None);
    assert_eq!(evaluate_global_constant(&"x".to_string()), None);
}

#[test]
fn builtins_are_found_by_name_and_arity() {
    assert_eq!(builtin_function(&"sin".to_string(), 1), Some(Function::Sin));
    assert_eq!(builtin_function(&"cos".to_string(), 1), Some(Function::Cos));
    assert_eq!(builtin_function(&"pow".to_string(), 2), Some(Function::Pow));
    assert_eq!(builtin_function(&"ln".to_string(), 1), Some(Function::Ln));
    assert_eq!(builtin_function(&"sin".to_string(), 2), None);
    assert_eq!(builtin_function(&"sin".to_string(), 0), None);
    assert_eq!(builtin_function(&"pow".to_string(), 1), None);
    assert_eq!(builtin_function(&"pow".to_string(), 3), None);
    assert_eq!(builtin_function(&"ln".to_string(), 2), None);
    assert_eq!(builtin_function(&"tan".to_string(), 1), None);
    assert_eq!(builtin_function(&"foo".to_string(), 1), None);
}

#[test]
fn a_call_applies_the_function_to_its_arguments() {
    let (steps, outcome) = steps_of("pow(2, 10)", &mut Environment::new());
    assert_eq!(outcome, Ok(()));
    assert_eq!(
        steps,
        vec![
            Step::Zero,
            Step::Discard,
            number("2"),
            number("10"),
            Step::Apply(Function::Pow),
        ]
    );
}

#[test]
fn pow_of_one_argument_is_unknown() {
    let (steps, outcome) = steps_of("pow(2)", &mut Environment::new());
    assert_eq!(
        outcome,
        Err(EvaluationError::UnknownFunction("pow".to_string(), 1))
    );
    assert_eq!(steps, vec![Step::Zero, Step::Discard]);
    assert_eq!(
        outcome.unwrap_err().message(),
        "Invalid function call, function `pow/1` does not exist"
    );
}

#[test]
fn each_wrong_arity_is_reported_by_its_number() {
    let (_, outcome) = steps_of("sin(1, 2)", &mut Environment::new());
    assert_eq!(
        outcome,
        Err(EvaluationError::UnknownFunction("sin".to_string(), 2))
    );
    let (_, outcome) = steps_of("sin()", &mut Environment::new());
    assert_eq!(
        outcome,
        Err(EvaluationError::UnknownFunction("sin".to_string(), 0))
    );
}

#[test]
fn unknown_function_is_rejected() {
    let (_, outcome) = steps_of("foo(1)", &mut Environment::new());
    assert_eq!(
        outcome,
        Err(EvaluationError::UnknownFunction("foo".to_string(), 1))
    );
    assert_eq!(
        outcome.unwrap_err().message(),
        "Invalid function call, function `foo/1` does not exist"
    );
}

#[test]
fn unknown_identifier_is_rejected() {
    let (steps, outcome) = steps_of("foo", &mut Environment::new());
    assert_eq!(
        outcome,
        Err(EvaluationError::UnknownIdentifier("foo".to_string()))
    );
    assert_eq!(steps, vec![Step::Zero, Step::Discard]);
    assert_eq!(
        outcome.unwrap_err().message(),
        "Invalid identifier, global constant `foo` does not exist"
    );
}

#[test]
fn the_message_counts_in_decimal() {
    let arguments: Vec<AST> = (0..120).map(|_| leaf("1")).collect();
    let tree = AST::Call("f".to_string(), arguments);
    let mut steps = Vec::new();
    let outcome = evaluate(&tree, &mut Environment::new(), &mut steps);
    assert_eq!(
        outcome,
        Err(EvaluationError::UnknownFunction("f".to_string(), 120))
    );
    assert_eq!(
        outcome.unwrap_err().message(),
        "Invalid function call, function `f/120` does not exist"
    );
    assert_eq!(
        EvaluationError::UnknownFunction("g".to_string(), 0).message(),
        "Invalid function call, function `g/0` does not exist"
    );
    assert_eq!(
        EvaluationError::UnknownFunction("g".to_string(), 907).message(),
        "Invalid function call, function `g/907` does not exist"
    );
}

#[test]
fn arguments_of_an_unknown_call_are_not_evaluated() {
    let tree = AST::Call(
        "foo".to_string(),
        vec![AST::Let(
            "x".to_string(),
            Box::new(leaf("1")),
        )],
    );
    let mut session = Environment::new();
    let mut steps = Vec::new();
    assert_eq!(
        evaluate(&tree, &mut session, &mut steps),
        Err(EvaluationError::UnknownFunction("foo".to_string(), 1))
    );
    assert_eq!(steps, vec![]);
    assert!(!session.contains(&"x".to_string()));
}

#[test]
fn a_call_reports_the_function_it_applied() {
    let mut session = Environment::new();
    let mut steps = Vec::new();
    let arguments = vec![leaf("2"), leaf("3")];
    assert_eq!(
        evaluate_function_call(&"pow".to_string(), &arguments, &mut session, &mut steps),
        Ok(Some(Function::Pow))
    );
    assert_eq!(
        steps,
        vec![number("2"), number("3"), Step::Apply(Function::Pow)]
    );
    let mut steps = Vec::new();
    assert_eq!(
        evaluate_function_call(&"cos".to_string(), &arguments, &mut session, &mut steps),
        Ok(None)
    );
    assert_eq!(steps, vec![]);
    let failing = vec![AST::Identifier("y".to_string())];
    assert_eq!(
        evaluate_function_call(&"ln".to_string(), &failing, &mut session, &mut steps),
        Err(EvaluationError::UnknownIdentifier("y".to_string()))
    );
}

#[test]
fn the_first_failure_ends_the_evaluation() {
    let (steps, outcome) = steps_of("1 + a + b", &mut Environment::new());
    assert_eq!(
        outcome,
        Err(EvaluationError::UnknownIdentifier("a".to_string()))
    );
    assert_eq!(steps, vec![Step::Zero, Step::Discard, number("1")]);
    let (_, outcome) = steps_of("pow(a, b)", &mut Environment::new());
    assert_eq!(
        outcome,
        Err(EvaluationError::UnknownIdentifier("a".to_string()))
    );
    let (_, outcome) = steps_of("-sin(b(1))", &mut Environment::new());
    assert_eq!(
        outcome,
        Err(EvaluationError::UnknownFunction("b".to_string(), 1))
    );
}

#[test]
fn an_assignment_binds_and_has_the_value() {
    let mut session = Environment::new();
    let (steps, outcome) = steps_of("let x = 5", &mut session);
    assert_eq!(outcome, Ok(()));
    assert_eq!(
        steps,
        vec![Step::Zero, Step::Discard, number("5"), store("x")]
    );
    assert!(session.contains(&"x".to_string()));
    assert_eq!(session.len(), 1);
}

#[test]
fn an_assignment_persists_in_the_session() {
    let mut session = Environment::new();
    let (_, outcome) = steps_of("let x = 5", &mut session);
    assert_eq!(outcome, Ok(()));
    let (steps, outcome) = steps_of("x + 1", &mut session);
    assert_eq!(outcome, Ok(()));
    assert_eq!(
        steps,
        vec![
            Step::Zero,
            Step::Discard,
            load("x"),
            number("1"),
            Step::Binary(Operator::Add),
        ]
    );
}

#[test]
fn an_assignment_may_use_the_old_value() {
    let mut session = Environment::new();
    let (_, outcome) = steps_of("let x = x", &mut session);
    assert_eq!(
        outcome,
        Err(EvaluationError::UnknownIdentifier("x".to_string()))
    );
    assert!(!session.contains(&"x".to_string()));
    let (_, outcome) = steps_of("let x = 1, let x = x + 1", &mut session);
    assert_eq!(outcome, Ok(()));
    assert_eq!(session.len(), 1);
}

#[test]
fn a_chain_keeps_the_last_value() {
    let mut session = Environment::new();
    let (steps, outcome) = steps_of("let x = 1, let y = 2, x + y", &mut session);
    assert_eq!(outcome, Ok(()));
    assert_eq!(
        steps,
        vec![
            Step::Zero,
            Step::Discard,
            number("1"),
            store("x"),
            Step::Discard,
            number("2"),
            store("y"),
            Step::Discard,
            load("x"),
            load("y"),
            Step::Binary(Operator::Add),
        ]
    );
    assert!(session.contains(&"x".to_string()));
    assert!(session.contains(&"y".to_string()));
    assert_eq!(session.len(), 2);
}

#[test]
fn an_empty_chain_is_zero() {
    let mut steps = Vec::new();
    let outcome = evaluate(&AST::Chain(vec![]), &mut Environment::new(), &mut steps);
    assert_eq!(outcome, Ok(()));
    assert_eq!(steps, vec![Step::Zero]);
}

#[test]
fn what_was_bound_before_a_failure_stays_bound() {
    let mut session = Environment::new();
    let (steps, outcome) = steps_of("let x = 1, y, let z = 2", &mut session);
    assert_eq!(
        outcome,
        Err(EvaluationError::UnknownIdentifier("y".to_string()))
    );
    assert_eq!(
        steps,
        vec![
            Step::Zero,
            Step::Discard,
            number("1"),
            store("x"),
            Step::Discard,
        ]
    );
    assert!(session.contains(&"x".to_string()));
    assert!(!session.contains(&"z".to_string()));
}

#[test]
fn a_session_holds_each_name_once() {
    let mut session = Environment::new();
    assert_eq!(session.len(), 0);
    assert!(!session.contains(&"x".to_string()));
    session.insert("x".to_string());
    session.insert("y".to_string());
    session.insert("x".to_string());
    assert_eq!(session.len(), 2);
    assert!(session.contains(&"x".to_string()));
    assert!(session.contains(&"y".to_string()));
    assert!(!session.contains(&"z".to_string()));
}

#[test]
fn errors_compare_by_what_they_name() {
    assert_ne!(
        EvaluationError::UnknownIdentifier("f".to_string()),
        EvaluationError::UnknownFunction("f".to_string(), 0)
    );
    assert_ne!(
        EvaluationError::UnknownFunction("f".to_string(), 1),
        EvaluationError::UnknownFunction("f".to_string(), 2)
    );
    assert_ne!(number("1"), load("1"));
    assert_ne!(Step::Binary(Operator::Add), Step::Binary(Operator::Subtract));
    assert_ne!(Step::Apply(Function::Sin), Step::Apply(Function::Cos));
}
