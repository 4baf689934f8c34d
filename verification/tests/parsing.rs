use pebble::parser::{
    parse_additive_expr, parse_expr, parse_multiplicative_expr, parse_primary_expr, parse_stmt,
    parse_stmts, parse_unary_expr, parse_var_or_call, ParseError, TokenStream, AST,
};
use pebble::tokenizer::{tokenize, Literal, Token};

fn stream(text: &str) -> TokenStream {
    TokenStream::new(tokenize(text))
}

fn line(text: &str) -> Result<AST, ParseError> {
    parse_stmts(&mut stream(text))
}

fn expression(text: &str) -> Result<AST, ParseError> {
    parse_expr(&mut stream(text))
}

fn literal(text: &str) -> Token {
    Token::Number(Literal::new(text).unwrap())
}

fn number(text: &str) -> AST {
    AST::Number(Literal::new(text).unwrap())
}

fn name(text: &str) -> AST {
    AST::Identifier(text.to_string())
}

fn add(left: AST, right: AST) -> AST {
    AST::Add(Box::new(left), Box::new(right))
}

fn subtract(left: AST, right: AST) -> AST {
    AST::Subtract(Box::new(left), Box::new(right))
}

fn multiply(left: AST, right: AST) -> AST {
    AST::Multiply(Box::new(left), Box::new(right))
}

fn divide(left: AST, right: AST) -> AST {
    AST::Divide(Box::new(left), Box::new(right))
}

fn negate(inner: AST) -> AST {
    AST::Negate(Box::new(inner))
}

fn call(function: &str, arguments: Vec<AST>) -> AST {
    AST::Call(function.to_string(), arguments)
}

fn assign(variable: &str, value: AST) -> AST {
    AST::Let(variable.to_string(), Box::new(value))
}

fn unexpected(token: Token) -> Result<AST, ParseError> {
    Err(ParseError::UnexpectedToken(token))
}

fn unexpected_eof() -> Result<AST, ParseError> {
    Err(ParseError::UnexpectedEOF)
}

#[test]
fn subtraction_is_left_associative() {
    assert_eq!(
        expression("8 - 3 - 2"),
        Ok(subtract(subtract(number("8"), number("3")), number("2")))
    );
}

#[test]
fn division_is_left_associative() {
    assert_eq!(
        expression("16 / 4 / 2"),
        Ok(divide(divide(number("16"), number("4")), number("2")))
    );
}

#[test]
fn mixed_operators_of_one_level_fold_left() {
    assert_eq!(
        expression("1 - 2 + 3 - 4"),
        Ok(subtract(
            add(subtract(number("1"), number("2")), number("3")),
            number("4")
        ))
    );
    assert_eq!(
        expression("1 * 2 / 3 * 4"),
        Ok(multiply(
            divide(multiply(number("1"), number("2")), number("3")),
            number("4")
        ))
    );
}

#[test]
fn products_bind_tighter_than_sums() {
    assert_eq!(
        expression("1 + 2 * 3"),
        Ok(add(number("1"), multiply(number("2"), number("3"))))
    );
    assert_eq!(
        expression("1 * 2 + 3"),
        Ok(add(multiply(number("1"), number("2")), number("3")))
    );
}

#[test]
fn parentheses_override_precedence() {
    assert_eq!(
        expression("(1 + 2) * 3"),
        Ok(multiply(add(number("1"), number("2")), number("3")))
    );
    assert_eq!(
        expression("8 - (3 - 2)"),
        Ok(subtract(number("8"), subtract(number("3"), number("2"))))
    );
    assert_eq!(expression("((7))"), Ok(number("7")));
}

#[test]
fn negation_binds_tighter_than_products() {
    assert_eq!(
        expression("-2 * 3"),
        Ok(multiply(negate(number("2")), number("3")))
    );
    assert_eq!(
        expression("2 / -3"),
        Ok(divide(number("2"), negate(number("3"))))
    );
    assert_eq!(
        expression("1 - -2"),
        Ok(subtract(number("1"), negate(number("2"))))
    );
}

#[test]
fn double_negation_nests() {
    assert_eq!(expression("--5"), Ok(negate(negate(number("5")))));
    assert_eq!(expression("-(-x)"), Ok(negate(negate(name("x")))));
}

#[test]
fn a_name_alone_is_an_identifier() {
    assert_eq!(expression("pi"), Ok(name("pi")));
    assert_eq!(expression("x + y"), Ok(add(name("x"), name("y"))));
}

#[test]
fn a_name_before_a_parenthesis_is_a_call() {
    assert_eq!(expression("f()"), Ok(call("f", vec![])));
    assert_eq!(expression("sin(x)"), Ok(call("sin", vec![name("x")])));
    assert_eq!(
        expression("pow(2, 10)"),
        Ok(call("pow", vec![number("2"), number("10")]))
    );
    assert_eq!(
        expression("f(1 + 2, g(3), -4)"),
        Ok(call(
            "f",
            vec![
                add(number("1"), number("2")),
                call("g", vec![number("3")]),
                negate(number("4")),
            ]
        ))
    );
}

#[test]
fn a_number_before_a_parenthesis_is_no_call() {
    let mut tokens = stream("2 (3)");
    assert_eq!(parse_expr(&mut tokens), Ok(number("2")));
    assert_eq!(tokens.peek(), Some(&Token::LParen));
    assert_eq!(line("2 (3)"), unexpected(Token::LParen));
}

#[test]
fn unterminated_parenthesis_is_unexpected_eof() {
    assert_eq!(line("("), unexpected_eof());
    assert_eq!(line("(1"), unexpected_eof());
    assert_eq!(line("(1 + 2"), unexpected_eof());
    assert_eq!(line("f("), unexpected_eof());
}

#[test]
fn missing_operand_is_unexpected_eof() {
    assert_eq!(line("1 +"), unexpected_eof());
    assert_eq!(line("1 *"), unexpected_eof());
    assert_eq!(line("-"), unexpected_eof());
    assert_eq!(line(""), unexpected_eof());
}

#[test]
fn stray_number_is_unexpected_token() {
    assert_eq!(line("1 2"), unexpected(literal("2")));
}

#[test]
fn wrong_token_in_place_of_an_operand() {
    assert_eq!(line(")"), unexpected(Token::RParen));
    assert_eq!(line("1 + * 2"), unexpected(Token::Star));
    assert_eq!(line("= 1"), unexpected(Token::Equals));
    assert_eq!(line("1 + let x = 2"), unexpected(Token::Let));
    assert_eq!(line("(+ 2)"), unexpected(Token::Plus));
}

#[test]
fn wrong_token_in_place_of_a_closing_parenthesis() {
    assert_eq!(line("(1 2)"), unexpected(literal("2")));
    assert_eq!(line("(1,"), unexpected(Token::Comma));
    assert_eq!(line("(1 = 2)"), unexpected(Token::Equals));
}

#[test]
fn argument_lists_need_commas_and_arguments() {
    assert_eq!(line("f(1 2)"), unexpected(literal("2")));
    assert_eq!(line("f(1,)"), unexpected(Token::RParen));
    assert_eq!(line("f(,1)"), unexpected(Token::Comma));
    assert_eq!(line("f(1,"), unexpected_eof());
    assert_eq!(line("f(1"), unexpected_eof());
    assert_eq!(line("f(1 = 2)"), unexpected(Token::Equals));
}

#[test]
fn a_statement_may_assign() {
    assert_eq!(
        line("let x = 5"),
        Ok(AST::Chain(vec![assign("x", number("5"))]))
    );
    assert_eq!(
        parse_stmt(&mut stream("let x = 1 + 2")),
        Ok(assign("x", add(number("1"), number("2"))))
    );
    assert_eq!(parse_stmt(&mut stream("x * 2")), Ok(multiply(name("x"), number("2"))));
}

#[test]
fn an_assignment_needs_a_name_and_an_equals_sign() {
    assert_eq!(line("let"), unexpected_eof());
    assert_eq!(line("let x"), unexpected_eof());
    assert_eq!(line("let x ="), unexpected_eof());
    assert_eq!(line("let 5 = 1"), unexpected(literal("5")));
    assert_eq!(line("let x 5"), unexpected(literal("5")));
    assert_eq!(line("let let = 1"), unexpected(Token::Let));
    assert_eq!(line("let x = let y = 1"), unexpected(Token::Let));
}

#[test]
fn a_line_is_a_chain_of_statements() {
    assert_eq!(line("1"), Ok(AST::Chain(vec![number("1")])));
    assert_eq!(
        line("let x = 1, let y = 2, x + y"),
        Ok(AST::Chain(vec![
            assign("x", number("1")),
            assign("y", number("2")),
            add(name("x"), name("y")),
        ]))
    );
}

#[test]
fn a_chain_needs_a_statement_after_each_comma() {
    assert_eq!(line("1,"), unexpected_eof());
    assert_eq!(line(",1"), unexpected(Token::Comma));
    assert_eq!(line("1,,2"), unexpected(Token::Comma));
}

#[test]
fn commas_in_a_call_belong_to_the_call() {
    assert_eq!(
        line("pow(2, 3), 4"),
        Ok(AST::Chain(vec![
            call("pow", vec![number("2"), number("3")]),
            number("4"),
        ]))
    );
}

#[test]
fn an_expression_leaves_what_follows_it() {
    let mut tokens = stream("1 + 2 3");
    assert_eq!(parse_expr(&mut tokens), Ok(add(number("1"), number("2"))));
    assert_eq!(tokens.next(), Some(literal("3")));
    assert_eq!(tokens.next(), None);
}

#[test]
fn each_level_reads_its_own_production() {
    let mut tokens = stream("1 * 2 + 3");
    assert_eq!(
        parse_multiplicative_expr(&mut tokens),
        Ok(multiply(number("1"), number("2")))
    );
    assert_eq!(tokens.peek(), Some(&Token::Plus));

    let mut tokens = stream("1 + 2 * 3 )");
    assert_eq!(
        parse_additive_expr(&mut tokens),
        Ok(add(number("1"), multiply(number("2"), number("3"))))
    );
    assert_eq!(tokens.peek(), Some(&Token::RParen));

    let mut tokens = stream("-x * 2");
    assert_eq!(parse_unary_expr(&mut tokens), Ok(negate(name("x"))));
    assert_eq!(tokens.peek(), Some(&Token::Star));

    let mut tokens = stream("(1 + 2) * 3");
    assert_eq!(parse_primary_expr(&mut tokens), Ok(add(number("1"), number("2"))));
    assert_eq!(tokens.peek(), Some(&Token::Star));

    let mut tokens = stream("f(1) + 2");
    assert_eq!(parse_var_or_call(&mut tokens), Ok(call("f", vec![number("1")])));
    assert_eq!(tokens.peek(), Some(&Token::Plus));
}

#[test]
fn primary_does_not_negate() {
    assert_eq!(parse_primary_expr(&mut stream("-1")), unexpected(Token::Minus));
    assert_eq!(parse_var_or_call(&mut stream("1")), unexpected(literal("1")));
    assert_eq!(parse_var_or_call(&mut stream("")), unexpected_eof());
}

#[test]
fn the_stream_has_one_token_of_lookahead() {
    let mut tokens = TokenStream::new(vec![Token::Plus, Token::Minus]);
    assert_eq!(tokens.peek(), Some(&Token::Plus));
    assert_eq!(tokens.peek(), Some(&Token::Plus));
    assert_eq!(tokens.next(), Some(Token::Plus));
    assert_eq!(tokens.peek(), Some(&Token::Minus));
    assert_eq!(tokens.next(), Some(Token::Minus));
    assert_eq!(tokens.peek(), None);
    assert_eq!(tokens.next(), None);
}

#[test]
fn trees_compare_by_structure() {
    assert_eq!(expression("f(1, x)"), expression(" f ( 1 , x ) "));
    assert_ne!(expression("1 - 2"), expression("2 - 1"));
    assert_ne!(expression("f(1)"), expression("f(1, 2)"));
    assert_ne!(expression("f(1)"), expression("g(1)"));
    assert_ne!(line("let x = 1"), line("let y = 1"));
    assert_ne!(line("1, 2"), line("1"));
    assert_ne!(
        ParseError::UnexpectedEOF,
        ParseError::UnexpectedToken(Token::Comma)
    );
}
