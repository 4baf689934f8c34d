use pebble::tokenizer::{characters, tokenize, Class, Literal, Token, Tokenizer};

fn number(text: &str) -> Token {
    Token::Number(Literal::new(text).unwrap())
}

fn identifier(name: &str) -> Token {
    Token::Identifier(name.to_string())
}

#[test]
fn empty_input_has_no_tokens() {
    assert_eq!(tokenize(""), vec![]);
    assert_eq!(tokenize(" \t\r\n"), vec![]);
}

#[test]
fn blanks_are_skipped() {
    assert_eq!(
        tokenize(" 1 \t+\r\n 2 "),
        vec![number("1"), Token::Plus, number("2")]
    );
}

#[test]
fn punctuation_maps_one_to_one() {
    assert_eq!(
        tokenize("+-*/(),="),
        vec![
            Token::Plus,
            Token::Minus,
            Token::Star,
            Token::Slash,
            Token::LParen,
            Token::RParen,
            Token::Comma,
            Token::Equals,
        ]
    );
}

#[test]
fn number_without_fraction() {
    assert_eq!(tokenize("42"), vec![number("42")]);
    assert_eq!(tokenize("007"), vec![number("007")]);
}

#[test]
fn number_with_fraction() {
    assert_eq!(tokenize("3.25"), vec![number("3.25")]);
    assert_eq!(tokenize("0.5+1"), vec![number("0.5"), Token::Plus, number("1")]);
}

#[test]
fn point_without_digits_is_not_part_of_the_number() {
    assert_eq!(tokenize("12."), vec![number("12")]);
    assert_eq!(tokenize("12.+3"), vec![number("12")]);
    assert_eq!(tokenize("12.x"), vec![number("12")]);
}

#[test]
fn second_point_ends_the_sequence() {
    assert_eq!(tokenize("1.5.2"), vec![number("1.5")]);
}

#[test]
fn leading_point_starts_no_token() {
    assert_eq!(tokenize(".5"), vec![]);
}

#[test]
fn identifiers_are_maximal_lowercase_runs() {
    assert_eq!(tokenize("abc def"), vec![identifier("abc"), identifier("def")]);
    assert_eq!(tokenize("x1"), vec![identifier("x"), number("1")]);
    assert_eq!(tokenize("2x"), vec![number("2"), identifier("x")]);
}

#[test]
fn let_is_reserved() {
    assert_eq!(tokenize("let"), vec![Token::Let]);
    assert_eq!(tokenize("lets"), vec![identifier("lets")]);
    assert_eq!(tokenize("le"), vec![identifier("le")]);
    assert_eq!(tokenize("let let"), vec![Token::Let, Token::Let]);
    assert_eq!(
        tokenize("let x=5"),
        vec![Token::Let, identifier("x"), Token::Equals, number("5")]
    );
}

#[test]
fn unrecognised_character_ends_the_sequence() {
    assert_eq!(tokenize("1 $ 2"), vec![number("1")]);
    assert_eq!(tokenize("abcDef"), vec![identifier("abc")]);
    assert_eq!(tokenize("X"), vec![]);
    assert_eq!(tokenize("1 + \u{e9} + 2"), vec![number("1"), Token::Plus]);
    assert_eq!(tokenize("a_b"), vec![identifier("a")]);
}

#[test]
fn next_is_lazy() {
    let mut lexer = Tokenizer::new("let x");
    assert_eq!(lexer.next(), Some(Token::Let));
    assert_eq!(lexer.next(), Some(identifier("x")));
    assert_eq!(lexer.next(), None);
    assert_eq!(lexer.next(), None);
}

#[test]
fn the_end_stays_the_end() {
    let mut lexer = Tokenizer::new("1 $2");
    assert_eq!(lexer.next(), Some(number("1")));
    assert_eq!(lexer.next(), None);
    assert_eq!(lexer.next(), None);
    assert_eq!(lexer.next(), None);
}

#[test]
fn parse_identifier_takes_the_run_of_letters() {
    let mut lexer = Tokenizer::new("bc+1");
    assert_eq!(lexer.parse_identifier('a'), Some("abc".to_string()));
    assert_eq!(lexer.next(), Some(Token::Plus));
    assert_eq!(lexer.next(), Some(number("1")));
}

#[test]
fn parse_identifier_of_one_letter() {
    let mut lexer = Tokenizer::new("");
    assert_eq!(lexer.parse_identifier('x'), Some("x".to_string()));
    let mut lexer = Tokenizer::new("(y)");
    assert_eq!(lexer.parse_identifier('f'), Some("f".to_string()));
    assert_eq!(lexer.next(), Some(Token::LParen));
}

#[test]
fn a_number_ends_before_what_is_no_part_of_it() {
    let mut lexer = Tokenizer::new("12.50)");
    assert_eq!(lexer.next(), Some(number("12.50")));
    assert_eq!(lexer.next(), Some(Token::RParen));
    let mut lexer = Tokenizer::new("7.x");
    assert_eq!(lexer.next(), Some(number("7")));
    assert_eq!(lexer.next(), None);
    let mut lexer = Tokenizer::new("71.");
    assert_eq!(lexer.next(), Some(number("71")));
    assert_eq!(lexer.next(), None);
}

#[test]
fn a_literal_is_digits_with_an_optional_fraction() {
    assert_eq!(Literal::new("0").unwrap().text(), "0");
    assert_eq!(Literal::new("42").unwrap().text(), "42");
    assert_eq!(Literal::new("007").unwrap().text(), "007");
    assert_eq!(Literal::new("3.25").unwrap().text(), "3.25");
    assert_eq!(Literal::new("0.0").unwrap().text(), "0.0");
    assert_eq!(Literal::new(""), None);
    assert_eq!(Literal::new("."), None);
    assert_eq!(Literal::new("1."), None);
    assert_eq!(Literal::new(".5"), None);
    assert_eq!(Literal::new("1.5."), None);
    assert_eq!(Literal::new("1.5.2"), None);
    assert_eq!(Literal::new("1..5"), None);
    assert_eq!(Literal::new("-1"), None);
    assert_eq!(Literal::new("1e5"), None);
    assert_eq!(Literal::new("1.5x"), None);
    assert_eq!(Literal::new("1 "), None);
    assert_eq!(Literal::new("x"), None);
    assert_eq!(Literal::new("\u{663}"), None);
}

#[test]
fn literals_compare_by_their_text() {
    assert_eq!(Literal::new("1.0"), Literal::new("1.0"));
    assert_ne!(Literal::new("1.0"), Literal::new("1"));
    assert_eq!(Literal::new("1.0").unwrap().clone(), Literal::new("1.0").unwrap());
}

#[test]
fn parse_reserved_tells_the_keyword_from_a_name() {
    assert_eq!(Tokenizer::parse_reserved("let".to_string()), Token::Let);
    assert_eq!(
        Tokenizer::parse_reserved("letter".to_string()),
        identifier("letter")
    );
    assert_eq!(Tokenizer::parse_reserved("x".to_string()), identifier("x"));
}

#[test]
fn classes_of_characters() {
    assert!(Class::Blank.contains(' '));
    assert!(Class::Blank.contains('\t'));
    assert!(Class::Blank.contains('\r'));
    assert!(Class::Blank.contains('\n'));
    assert!(!Class::Blank.contains('a'));
    assert!(Class::Digit.contains('0'));
    assert!(Class::Digit.contains('9'));
    assert!(!Class::Digit.contains('a'));
    assert!(!Class::Digit.contains('.'));
    assert!(Class::Letter.contains('a'));
    assert!(Class::Letter.contains('z'));
    assert!(!Class::Letter.contains('A'));
    assert!(!Class::Letter.contains('0'));
}

#[test]
fn characters_of_a_string() {
    assert_eq!(characters("a+\u{e9}"), vec!['a', '+', '\u{e9}']);
    assert_eq!(characters(""), Vec::<char>::new());
}

#[test]
fn tokens_can_be_copied_and_compared() {
    let token = identifier("x");
    assert_eq!(token.clone(), token);
    assert_ne!(identifier("x"), identifier("y"));
    assert_ne!(identifier("x"), number("1"));
    assert_ne!(number("1"), number("1.0"));
    assert_ne!(Token::Plus, Token::Minus);
    assert_eq!(number("1").clone(), number("1"));
}
