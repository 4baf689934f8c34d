//! Syntax: the expression tree and the recursive-descent parser.

use crate::grammar::{
    additive, additive_tail, arguments, call_of, chain, chain_of, chain_tail, expr,
    lemma_additive_consumes, lemma_multiplicative_consumes, lemma_stmt_consumes,
    lemma_unary_consumes, multiplicative, multiplicative_tail, primary, starts_with, stmt, unary,
    unexpected, var_or_call, Expr, Fault, Parsed,
};
use crate::tokenizer::{Lexeme, Literal, Token};
use vstd::prelude::*;

verus! {

/// A statement or expression tree. Each node owns its subtrees.
#[derive(Debug)]
pub enum AST {
    Add(Box<AST>, Box<AST>),
    Subtract(Box<AST>, Box<AST>),
    Multiply(Box<AST>, Box<AST>),
    Divide(Box<AST>, Box<AST>),
    Negate(Box<AST>),
    Call(String, Vec<AST>),
    Number(Literal),
    Identifier(String),
    Let(String, Box<AST>),
    Chain(Vec<AST>),
}

impl AST {
    /// The tree as a mathematical value: names and literals by their
    /// characters, children by their own values.
    pub open spec fn model(&self) -> Expr
        decreases self,
    {
        match self {
            AST::Add(left, right) => Expr::Add(Box::new(left.model()), Box::new(right.model())),
            AST::Subtract(left, right) => Expr::Subtract(
                Box::new(left.model()),
                Box::new(right.model()),
            ),
            AST::Multiply(left, right) => Expr::Multiply(
                Box::new(left.model()),
                Box::new(right.model()),
            ),
            AST::Divide(left, right) => Expr::Divide(
                Box::new(left.model()),
                Box::new(right.model()),
            ),
            AST::Negate(inner) => Expr::Negate(Box::new(inner.model())),
            AST::Call(name, arguments) => Expr::Call(name@, Self::models(arguments@)),
            AST::Number(literal) => Expr::Number(literal@),
            AST::Identifier(name) => Expr::Identifier(name@),
            AST::Let(name, value) => Expr::Let(name@, Box::new(value.model())),
            AST::Chain(statements) => Expr::Chain(Self::models(statements@)),
        }
    }

    /// The values of a sequence of trees, in order.
    pub open spec fn models(trees: Seq<AST>) -> Seq<Expr>
        decreases trees,
    {
        Seq::new(
            trees.len(),
            |i: int|
                if 0 <= i < trees.len() {
                    trees[i].model()
                } else {
                    arbitrary()
                },
        )
    }
}

impl View for AST {
    type V = Expr;

    open spec fn view(&self) -> Expr {
        self.model()
    }
}

impl AST {
    /// Whether two lists of trees have the same values.
    fn same_list(mine: &Vec<AST>, theirs: &Vec<AST>) -> (equal: bool)
        ensures
            equal == (AST::models(mine@) == AST::models(theirs@)),
        decreases mine, 0nat,
    {
        if mine.len() != theirs.len() {
            return false;
        }
        let mut i: usize = 0;
        while i < mine.len()
            invariant
                i <= mine.len(),
                mine.len() == theirs.len(),
                forall|j: int| 0 <= j < i ==> mine[j].model() == theirs[j].model(),
            decreases mine.len() - i,
        {
            if !mine[i].same(&theirs[i]) {
                assert(AST::models(mine@)[i as int] != AST::models(theirs@)[i as int]);
                return false;
            }
            i += 1;
        }
        assert(AST::models(mine@) =~= AST::models(theirs@));
        true
    }

    /// Whether two trees have the same value.
    fn same(&self, other: &AST) -> (equal: bool)
        ensures
            equal == (self@ == other@),
        decreases self, 1nat,
    {
        match self {
            AST::Add(left, right) => match other {
                AST::Add(other_left, other_right) => left.same(other_left) && right.same(
                    other_right,
                ),
                _ => false,
            },
            AST::Subtract(left, right) => match other {
                AST::Subtract(other_left, other_right) => left.same(other_left) && right.same(
                    other_right,
                ),
                _ => false,
            },
            AST::Multiply(left, right) => match other {
                AST::Multiply(other_left, other_right) => left.same(other_left) && right.same(
                    other_right,
                ),
                _ => false,
            },
            AST::Divide(left, right) => match other {
                AST::Divide(other_left, other_right) => left.same(other_left) && right.same(
                    other_right,
                ),
                _ => false,
            },
            AST::Negate(inner) => match other {
                AST::Negate(other_inner) => inner.same(other_inner),
                _ => false,
            },
            AST::Call(name, arguments) => match other {
                AST::Call(other_name, other_arguments) => *name == *other_name && Self::same_list(
                    arguments,
                    other_arguments,
                ),
                _ => false,
            },
            AST::Number(literal) => match other {
                AST::Number(other_literal) => *literal == *other_literal,
                _ => false,
            },
            AST::Identifier(name) => match other {
                AST::Identifier(other_name) => *name == *other_name,
                _ => false,
            },
            AST::Let(name, value) => match other {
                AST::Let(other_name, other_value) => *name == *other_name && value.same(
                    other_value,
                ),
                _ => false,
            },
            AST::Chain(statements) => match other {
                AST::Chain(other_statements) => Self::same_list(statements, other_statements),
                _ => false,
            },
        }
    }
}

impl PartialEq for AST {
    fn eq(&self, other: &Self) -> (equal: bool) {
        self.same(other)
    }
}

impl vstd::std_specs::cmp::PartialEqSpecImpl for AST {
    open spec fn obeys_eq_spec() -> bool {
        true
    }

    open spec fn eq_spec(&self, other: &Self) -> bool {
        self@ == other@
    }
}

/// Why a token sequence is not a sentence of the grammar.
#[derive(Debug)]
pub enum ParseError {
    /// The tokens ended where one was required.
    UnexpectedEOF,
    /// A token of the wrong kind stood where another was required.
    UnexpectedToken(Token),
}

impl PartialEq for ParseError {
    fn eq(&self, other: &Self) -> (equal: bool) {
        match self {
            ParseError::UnexpectedEOF => matches!(other, ParseError::UnexpectedEOF),
            ParseError::UnexpectedToken(mine) => match other {
                ParseError::UnexpectedToken(theirs) => *mine == *theirs,
                _ => false,
            },
        }
    }
}

impl vstd::std_specs::cmp::PartialEqSpecImpl for ParseError {
    open spec fn obeys_eq_spec() -> bool {
        true
    }

    open spec fn eq_spec(&self, other: &Self) -> bool {
        self@ == other@
    }
}

impl View for ParseError {
    type V = Fault;

    open spec fn view(&self) -> Fault {
        match self {
            ParseError::UnexpectedEOF => Fault::UnexpectedEOF,
            ParseError::UnexpectedToken(token) => Fault::UnexpectedToken(token@),
        }
    }
}

/// A token sequence read front to back with one token of lookahead. Its
/// value is the tokens not yet consumed.
pub struct TokenStream {
    tokens: Vec<Token>,
    position: usize,
}

impl View for TokenStream {
    type V = Seq<Lexeme>;

    closed spec fn view(&self) -> Seq<Lexeme> {
        self.tokens.deep_view().skip(self.position as int)
    }
}

impl TokenStream {
    #[verifier::type_invariant]
    spec fn in_bounds(&self) -> bool {
        self.position <= self.tokens.len()
    }

    /// A stream at the start of `tokens`.
    pub fn new(tokens: Vec<Token>) -> (stream: Self)
        ensures
            stream@ == tokens.deep_view(),
    {
        TokenStream { tokens, position: 0 }
    }

    /// The next token, without consuming it.
    pub fn peek(&self) -> (token: Option<&Token>)
        ensures
            match token {
                Some(t) => self@.len() > 0 && t@ == self@[0],
                None => self@.len() == 0,
            },
    {
        proof {
            use_type_invariant(self);
        }
        if self.position < self.tokens.len() {
            Some(&self.tokens[self.position])
        } else {
            None
        }
    }

    /// Consumes and returns the next token.
    pub fn next(&mut self) -> (token: Option<Token>)
        ensures
            match token {
                Some(t) => old(self)@.len() > 0 && t@ == old(self)@[0] && final(self)@ == old(
                    self,
                )@.skip(1),
                None => old(self)@.len() == 0 && final(self)@ == old(self)@,
            },
    {
        proof {
            use_type_invariant(&*self);
        }
        if self.position < self.tokens.len() {
            let token = self.tokens[self.position].clone();
            self.position += 1;
            Some(token)
        } else {
            None
        }
    }
}

/// Consumes the next token if it is `expected`, and says whether it was.
fn accept(iter: &mut TokenStream, expected: &Token) -> (found: bool)
    ensures
        found == starts_with(old(iter)@, expected@),
        final(iter)@ == (if found {
            old(iter)@.skip(1)
        } else {
            old(iter)@
        }),
{
    let found = match iter.peek() {
        Some(token) => token == expected,
        None => false,
    };
    if found {
        let _ = iter.next();
    }
    found
}

/// Consumes the next token, which must be `expected`.
fn expect(iter: &mut TokenStream, expected: &Token) -> (outcome: Result<(), ParseError>)
    ensures
        match outcome {
            Ok(_) => starts_with(old(iter)@, expected@) && final(iter)@ == old(iter)@.skip(1),
            Err(error) => !starts_with(old(iter)@, expected@) && error@ == unexpected(old(iter)@),
        },
{
    match iter.next() {
        Some(token) => if token == *expected {
            Ok(())
        } else {
            Err(ParseError::UnexpectedToken(token))
        },
        None => Err(ParseError::UnexpectedEOF),
    }
}

/// Consumes the next token, which must be an identifier, and returns its name.
fn expect_identifier(iter: &mut TokenStream) -> (outcome: Result<String, ParseError>)
    ensures
        match outcome {
            Ok(name) => old(iter)@.len() > 0 && old(iter)@[0] == Lexeme::Identifier(name@)
                && final(iter)@ == old(iter)@.skip(1),
            Err(error) => !(old(iter)@.len() > 0 && old(iter)@[0] is Identifier) && error@
                == unexpected(old(iter)@),
        },
{
    match iter.next() {
        Some(Token::Identifier(name)) => Ok(name),
        Some(token) => Err(ParseError::UnexpectedToken(token)),
        None => Err(ParseError::UnexpectedEOF),
    }
}

/// Whether `outcome`, with `left` still in the stream, is what the grammar
/// gives: the same tree and the same tokens after it, or the same fault. The
/// stream's position after a fault is not fixed.
pub open spec fn agrees(
    outcome: Result<AST, ParseError>,
    left: Seq<Lexeme>,
    parsed: Parsed,
) -> bool {
    match parsed {
        Ok((tree, rest)) => outcome matches Ok(ast) && ast@ == tree && left == rest,
        Err(fault) => outcome matches Err(error) && error@ == fault,
    }
}

/// Parses `expr := additive` from the front of the stream.
pub fn parse_expr(iter: &mut TokenStream) -> (outcome: Result<AST, ParseError>)
    ensures
        agrees(outcome, final(iter)@, expr(old(iter)@)),
    decreases old(iter)@.len(), 8nat,
{
    parse_additive_expr(iter)
}

/// Parses `additive := multiplicative (("+" | "-") multiplicative)*`,
/// folding to the left: each further operand becomes the right child of a
/// new node whose left child is the tree built so far.
pub fn parse_additive_expr(iter: &mut TokenStream) -> (outcome: Result<AST, ParseError>)
    ensures
        agrees(outcome, final(iter)@, additive(old(iter)@)),
    decreases old(iter)@.len(), 7nat,
{
    proof {
        lemma_multiplicative_consumes(iter@);
    }
    let mut left = match parse_multiplicative_expr(iter) {
        Ok(tree) => tree,
        Err(error) => {
            return Err(error);
        },
    };
    loop
        invariant
            iter@.len() < old(iter)@.len(),
            additive(old(iter)@) == additive_tail(left@, iter@),
        decreases iter@.len(),
    {
        proof {
            lemma_multiplicative_consumes(iter@.skip(1));
        }
        if accept(iter, &Token::Plus) {
            match parse_multiplicative_expr(iter) {
                Ok(right) => {
                    left = AST::Add(Box::new(left), Box::new(right));
                },
                Err(error) => {
                    return Err(error);
                },
            }
        } else if accept(iter, &Token::Minus) {
            match parse_multiplicative_expr(iter) {
                Ok(right) => {
                    left = AST::Subtract(Box::new(left), Box::new(right));
                },
                Err(error) => {
                    return Err(error);
                },
            }
        } else {
            return Ok(left);
        }
    }
}

/// Parses `multiplicative := unary (("*" | "/") unary)*`, folding to the
/// left.
pub fn parse_multiplicative_expr(iter: &mut TokenStream) -> (outcome: Result<AST, ParseError>)
    ensures
        agrees(outcome, final(iter)@, multiplicative(old(iter)@)),
    decreases old(iter)@.len(), 5nat,
{
    proof {
        lemma_unary_consumes(iter@);
    }
    let mut left = match parse_unary_expr(iter) {
        Ok(tree) => tree,
        Err(error) => {
            return Err(error);
        },
    };
    loop
        invariant
            iter@.len() < old(iter)@.len(),
            multiplicative(old(iter)@) == multiplicative_tail(left@, iter@),
        decreases iter@.len(),
    {
        proof {
            lemma_unary_consumes(iter@.skip(1));
        }
        if accept(iter, &Token::Star) {
            match parse_unary_expr(iter) {
                Ok(right) => {
                    left = AST::Multiply(Box::new(left), Box::new(right));
                },
                Err(error) => {
                    return Err(error);
                },
            }
        } else if accept(iter, &Token::Slash) {
            match parse_unary_expr(iter) {
                Ok(right) => {
                    left = AST::Divide(Box::new(left), Box::new(right));
                },
                Err(error) => {
                    return Err(error);
                },
            }
        } else {
            return Ok(left);
        }
    }
}

/// Parses `unary := "-" unary | primary`.
pub fn parse_unary_expr(iter: &mut TokenStream) -> (outcome: Result<AST, ParseError>)
    ensures
        agrees(outcome, final(iter)@, unary(old(iter)@)),
    decreases old(iter)@.len(), 3nat,
{
    if accept(iter, &Token::Minus) {
        match parse_unary_expr(iter) {
            Ok(inner) => Ok(AST::Negate(Box::new(inner))),
            Err(error) => Err(error),
        }
    } else {
        parse_primary_expr(iter)
    }
}

/// Parses `primary := NUMBER | "(" expr ")" | var-or-call`.
pub fn parse_primary_expr(iter: &mut TokenStream) -> (outcome: Result<AST, ParseError>)
    ensures
        agrees(outcome, final(iter)@, primary(old(iter)@)),
    decreases old(iter)@.len(), 2nat,
{
    let literal = match iter.peek() {
        Some(Token::Number(number)) => Some(number.clone()),
        _ => None,
    };
    if let Some(number) = literal {
        let _ = iter.next();
        return Ok(AST::Number(number));
    }
    if accept(iter, &Token::LParen) {
        let inner = match parse_expr(iter) {
            Ok(tree) => tree,
            Err(error) => {
                return Err(error);
            },
        };
        return match expect(iter, &Token::RParen) {
            Ok(_) => Ok(inner),
            Err(error) => Err(error),
        };
    }
    parse_var_or_call(iter)
}

/// Parses `var-or-call := IDENT ("(" (expr ("," expr)*)? ")")?`: a name
/// alone is a variable or constant, a name followed by a parenthesis is a
/// call.
pub fn parse_var_or_call(iter: &mut TokenStream) -> (outcome: Result<AST, ParseError>)
    ensures
        agrees(outcome, final(iter)@, var_or_call(old(iter)@)),
    decreases old(iter)@.len(), 1nat,
{
    let identifier = match expect_identifier(iter) {
        Ok(name) => name,
        Err(error) => {
            return Err(error);
        },
    };
    if !accept(iter, &Token::LParen) {
        return Ok(AST::Identifier(identifier));
    }
    let mut params: Vec<AST> = Vec::new();
    assert(AST::models(params@) =~= Seq::<Expr>::empty());
    if accept(iter, &Token::RParen) {
        assert(old(iter)@.skip(1).skip(1).skip(1) =~= old(iter)@.skip(1).skip(2));
        return Ok(AST::Call(identifier, params));
    }
    loop
        invariant
            iter@.len() < old(iter)@.len(),
            var_or_call(old(iter)@) == call_of(
                identifier@,
                arguments(AST::models(params@), iter@),
            ),
        decreases iter@.len(),
    {
        let ghost before = AST::models(params@);
        proof {
            lemma_additive_consumes(iter@);
        }
        match parse_expr(iter) {
            Ok(argument) => {
                params.push(argument);
                assert(AST::models(params@) =~= before.push(argument@));
            },
            Err(error) => {
                return Err(error);
            },
        }
        if accept(iter, &Token::RParen) {
            return Ok(AST::Call(identifier, params));
        }
        match expect(iter, &Token::Comma) {
            Ok(_) => {},
            Err(error) => {
                return Err(error);
            },
        }
    }
}

/// Parses `stmt := "let" IDENT "=" expr | expr`.
pub fn parse_stmt(iter: &mut TokenStream) -> (outcome: Result<AST, ParseError>)
    ensures
        agrees(outcome, final(iter)@, stmt(old(iter)@)),
{
    if !accept(iter, &Token::Let) {
        return parse_expr(iter);
    }
    let name = match expect_identifier(iter) {
        Ok(name) => name,
        Err(error) => {
            return Err(error);
        },
    };
    match expect(iter, &Token::Equals) {
        Ok(_) => {},
        Err(error) => {
            return Err(error);
        },
    }
    assert(old(iter)@.skip(1).skip(1).skip(1) =~= old(iter)@.skip(1).skip(2));
    match parse_expr(iter) {
        Ok(value) => Ok(AST::Let(name, Box::new(value))),
        Err(error) => Err(error),
    }
}

/// Parses a whole line, `chain := stmt ("," stmt)*`, into a `Chain` of its
/// statements in order. Anything but a comma after a statement is an error.
pub fn parse_stmts(iter: &mut TokenStream) -> (outcome: Result<AST, ParseError>)
    ensures
        match chain(old(iter)@) {
            Ok(tree) => outcome matches Ok(ast) && ast@ == tree && final(iter)@.len() == 0,
            Err(fault) => outcome matches Err(error) && error@ == fault,
        },
{
    proof {
        lemma_stmt_consumes(iter@);
    }
    let mut statements: Vec<AST> = Vec::new();
    match parse_stmt(iter) {
        Ok(first) => {
            statements.push(first);
            assert(AST::models(statements@) =~= seq![first@]);
        },
        Err(error) => {
            return Err(error);
        },
    }
    loop
        invariant
            chain(old(iter)@) == chain_of(chain_tail(AST::models(statements@), iter@)),
        decreases iter@.len(),
    {
        let ghost before = AST::models(statements@);
        proof {
            lemma_stmt_consumes(iter@.skip(1));
        }
        if iter.peek().is_none() {
            return Ok(AST::Chain(statements));
        }
        match expect(iter, &Token::Comma) {
            Ok(_) => {},
            Err(error) => {
                return Err(error);
            },
        }
        match parse_stmt(iter) {
            Ok(statement) => {
                statements.push(statement);
                assert(AST::models(statements@) =~= before.push(statement@));
            },
            Err(error) => {
                return Err(error);
            },
        }
    }
}

} // verus!
