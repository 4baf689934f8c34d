//! The grammar of the calculator language, as functions on token sequences.
//!
//! From lowest to highest precedence:
//!
//! ```text
//! chain          := stmt ("," stmt)*
//! stmt           := "let" IDENT "=" expr | expr
//! expr           := additive
//! additive       := multiplicative (("+" | "-") multiplicative)*
//! multiplicative := unary (("*" | "/") unary)*
//! unary          := "-" unary | primary
//! primary        := NUMBER | "(" expr ")" | var-or-call
//! var-or-call    := IDENT ("(" (expr ("," expr)*)? ")")?
//! ```
//!
//! Each function reads one production from the front of the sequence and
//! gives the tree together with the tokens that follow it, or the fault at
//! the first token that does not fit. Binary levels fold to the left.
//!
//! The functions call each other on what an inner production left over. A
//! successful production always leaves fewer tokens than it was given
//! ([`lemma_additive_consumes`] and the lemmas beside it); the tests
//! `rest.len() < tokens.len()` in the definitions only make that visible
//! where the recursion is checked for well-foundedness, and never fail.

use crate::tokenizer::Lexeme;
use vstd::prelude::*;

verus! {

/// The mathematical value of a syntax tree.
pub enum Expr {
    Add(Box<Expr>, Box<Expr>),
    Subtract(Box<Expr>, Box<Expr>),
    Multiply(Box<Expr>, Box<Expr>),
    Divide(Box<Expr>, Box<Expr>),
    Negate(Box<Expr>),
    Call(Seq<char>, Seq<Expr>),
    Number(Seq<char>),
    Identifier(Seq<char>),
    Let(Seq<char>, Box<Expr>),
    Chain(Seq<Expr>),
}

/// The mathematical value of a parse error.
pub enum Fault {
    /// The tokens ended where one was required.
    UnexpectedEOF,
    /// A token of the wrong kind stood where another was required.
    UnexpectedToken(Lexeme),
}

/// A tree with the tokens that follow it, or the fault that stopped the parse.
pub type Parsed = Result<(Expr, Seq<Lexeme>), Fault>;

/// A list of trees with the tokens that follow it, or the fault that
/// stopped the parse.
pub type ParsedList = Result<(Seq<Expr>, Seq<Lexeme>), Fault>;

/// The successful parse of `tree` with `rest` after it.
pub open spec fn parsed(tree: Expr, rest: Seq<Lexeme>) -> Parsed {
    Ok((tree, rest))
}

/// The successful parse of `list` with `rest` after it.
pub open spec fn parsed_list(list: Seq<Expr>, rest: Seq<Lexeme>) -> ParsedList {
    Ok((list, rest))
}

/// Whether `tokens` begins with `lexeme`.
pub open spec fn starts_with(tokens: Seq<Lexeme>, lexeme: Lexeme) -> bool {
    tokens.len() > 0 && tokens[0] == lexeme
}

/// The fault raised where a required token is missing: the end of the
/// input, or the token found in its place.
pub open spec fn unexpected(tokens: Seq<Lexeme>) -> Fault {
    if tokens.len() == 0 {
        Fault::UnexpectedEOF
    } else {
        Fault::UnexpectedToken(tokens[0])
    }
}

/// `expr := additive`
pub open spec fn expr(tokens: Seq<Lexeme>) -> Parsed
    decreases tokens.len(), 8nat,
{
    additive(tokens)
}

/// `additive := multiplicative (("+" | "-") multiplicative)*`
pub open spec fn additive(tokens: Seq<Lexeme>) -> Parsed
    decreases tokens.len(), 7nat,
{
    match multiplicative(tokens) {
        Ok((left, rest)) => if rest.len() < tokens.len() {
            additive_tail(left, rest)
        } else {
            arbitrary()
        },
        Err(fault) => Err(fault),
    }
}

/// The repetition of `additive`: `left` is the tree folded so far, and each
/// further operand becomes the right child of a new node above it.
pub open spec fn additive_tail(left: Expr, tokens: Seq<Lexeme>) -> Parsed
    decreases tokens.len(), 6nat,
{
    if starts_with(tokens, Lexeme::Plus) || starts_with(tokens, Lexeme::Minus) {
        match multiplicative(tokens.skip(1)) {
            Ok((right, rest)) => {
                let node = if tokens[0] is Plus {
                    Expr::Add(Box::new(left), Box::new(right))
                } else {
                    Expr::Subtract(Box::new(left), Box::new(right))
                };
                if rest.len() < tokens.len() {
                    additive_tail(node, rest)
                } else {
                    arbitrary()
                }
            },
            Err(fault) => Err(fault),
        }
    } else {
        Ok((left, tokens))
    }
}

/// `multiplicative := unary (("*" | "/") unary)*`
pub open spec fn multiplicative(tokens: Seq<Lexeme>) -> Parsed
    decreases tokens.len(), 5nat,
{
    match unary(tokens) {
        Ok((left, rest)) => if rest.len() < tokens.len() {
            multiplicative_tail(left, rest)
        } else {
            arbitrary()
        },
        Err(fault) => Err(fault),
    }
}

/// The repetition of `multiplicative`, folding to the left.
pub open spec fn multiplicative_tail(left: Expr, tokens: Seq<Lexeme>) -> Parsed
    decreases tokens.len(), 4nat,
{
    if starts_with(tokens, Lexeme::Star) || starts_with(tokens, Lexeme::Slash) {
        match unary(tokens.skip(1)) {
            Ok((right, rest)) => {
                let node = if tokens[0] is Star {
                    Expr::Multiply(Box::new(left), Box::new(right))
                } else {
                    Expr::Divide(Box::new(left), Box::new(right))
                };
                if rest.len() < tokens.len() {
                    multiplicative_tail(node, rest)
                } else {
                    arbitrary()
                }
            },
            Err(fault) => Err(fault),
        }
    } else {
        Ok((left, tokens))
    }
}

/// `unary := "-" unary | primary`
pub open spec fn unary(tokens: Seq<Lexeme>) -> Parsed
    decreases tokens.len(), 3nat,
{
    if starts_with(tokens, Lexeme::Minus) {
        match unary(tokens.skip(1)) {
            Ok((inner, rest)) => Ok((Expr::Negate(Box::new(inner)), rest)),
            Err(fault) => Err(fault),
        }
    } else {
        primary(tokens)
    }
}

/// `primary := NUMBER | "(" expr ")" | var-or-call`
pub open spec fn primary(tokens: Seq<Lexeme>) -> Parsed
    decreases tokens.len(), 2nat,
{
    if tokens.len() > 0 && tokens[0] is Number {
        Ok((Expr::Number(tokens[0]->Number_0), tokens.skip(1)))
    } else if starts_with(tokens, Lexeme::LParen) {
        match expr(tokens.skip(1)) {
            Ok((inner, rest)) => if starts_with(rest, Lexeme::RParen) {
                Ok((inner, rest.skip(1)))
            } else {
                Err(unexpected(rest))
            },
            Err(fault) => Err(fault),
        }
    } else {
        var_or_call(tokens)
    }
}

/// The call of `name` on a parsed argument list.
pub open spec fn call_of(name: Seq<char>, list: ParsedList) -> Parsed {
    match list {
        Ok((list, rest)) => Ok((Expr::Call(name, list), rest)),
        Err(fault) => Err(fault),
    }
}

/// `var-or-call := IDENT ("(" (expr ("," expr)*)? ")")?`
pub open spec fn var_or_call(tokens: Seq<Lexeme>) -> Parsed
    decreases tokens.len(), 1nat,
{
    if tokens.len() > 0 && tokens[0] is Identifier {
        let name = tokens[0]->Identifier_0;
        let after = tokens.skip(1);
        if starts_with(after, Lexeme::LParen) {
            if starts_with(after.skip(1), Lexeme::RParen) {
                Ok((Expr::Call(name, Seq::empty()), after.skip(2)))
            } else {
                call_of(name, arguments(Seq::empty(), after.skip(1)))
            }
        } else {
            Ok((Expr::Identifier(name), after))
        }
    } else {
        Err(unexpected(tokens))
    }
}

/// A non-empty argument list up to and including its closing parenthesis:
/// `expr ("," expr)* ")"`. `before` holds the arguments already read.
pub open spec fn arguments(before: Seq<Expr>, tokens: Seq<Lexeme>) -> ParsedList
    decreases tokens.len(), 9nat,
{
    match expr(tokens) {
        Ok((argument, rest)) => {
            let list = before.push(argument);
            if starts_with(rest, Lexeme::RParen) {
                Ok((list, rest.skip(1)))
            } else if starts_with(rest, Lexeme::Comma) {
                if rest.len() < tokens.len() {
                    arguments(list, rest.skip(1))
                } else {
                    arbitrary()
                }
            } else {
                Err(unexpected(rest))
            }
        },
        Err(fault) => Err(fault),
    }
}

/// `stmt := "let" IDENT "=" expr | expr`
pub open spec fn stmt(tokens: Seq<Lexeme>) -> Parsed {
    if starts_with(tokens, Lexeme::Let) {
        let after = tokens.skip(1);
        if after.len() > 0 && after[0] is Identifier {
            if starts_with(after.skip(1), Lexeme::Equals) {
                match expr(after.skip(2)) {
                    Ok((value, rest)) => Ok(
                        (Expr::Let(after[0]->Identifier_0, Box::new(value)), rest),
                    ),
                    Err(fault) => Err(fault),
                }
            } else {
                Err(unexpected(after.skip(1)))
            }
        } else {
            Err(unexpected(after))
        }
    } else {
        expr(tokens)
    }
}

/// The statements of a chain after the first, up to the end of the input:
/// `("," stmt)*`. `before` holds the statements already read. A token other
/// than a comma after a statement is a fault.
pub open spec fn chain_tail(before: Seq<Expr>, tokens: Seq<Lexeme>) -> Result<Seq<Expr>, Fault>
    decreases tokens.len(),
{
    if tokens.len() == 0 {
        Ok(before)
    } else if tokens[0] is Comma {
        match stmt(tokens.skip(1)) {
            Ok((statement, rest)) => if rest.len() < tokens.len() {
                chain_tail(before.push(statement), rest)
            } else {
                arbitrary()
            },
            Err(fault) => Err(fault),
        }
    } else {
        Err(unexpected(tokens))
    }
}

/// The chain made of a parsed list of statements.
pub open spec fn chain_of(statements: Result<Seq<Expr>, Fault>) -> Result<Expr, Fault> {
    match statements {
        Ok(statements) => Ok(Expr::Chain(statements)),
        Err(fault) => Err(fault),
    }
}

/// `chain := stmt ("," stmt)*`, which must take the whole input. The tree
/// is a `Chain` of the statements in order, also where there is only one.
pub open spec fn chain(tokens: Seq<Lexeme>) -> Result<Expr, Fault> {
    match stmt(tokens) {
        Ok((first, rest)) => chain_of(chain_tail(seq![first], rest)),
        Err(fault) => Err(fault),
    }
}

/// Whether what `parsed` left over is a proper suffix of `tokens`, or
/// `parsed` is a fault.
pub open spec fn consumes(parsed: Parsed, tokens: Seq<Lexeme>) -> bool {
    parsed matches Ok((_, rest)) ==> rest.len() < tokens.len() && rest == tokens.skip(
        tokens.len() - rest.len(),
    )
}

/// As [`consumes`], for a list of trees.
pub open spec fn consumes_list(parsed: ParsedList, tokens: Seq<Lexeme>) -> bool {
    parsed matches Ok((_, rest)) ==> rest.len() < tokens.len() && rest == tokens.skip(
        tokens.len() - rest.len(),
    )
}

/// A statement that succeeds consumes at least one token, and leaves a
/// suffix of what it was given.
pub proof fn lemma_stmt_consumes(tokens: Seq<Lexeme>)
    ensures
        consumes(stmt(tokens), tokens),
{
    lemma_additive_consumes(tokens);
    if starts_with(tokens, Lexeme::Let) {
        let after = tokens.skip(1);
        if after.len() > 0 && starts_with(after.skip(1), Lexeme::Equals) {
            lemma_additive_consumes(after.skip(2));
            lemma_suffix_of_suffix(tokens, after.skip(2), 3);
        }
    }
}

/// A suffix of the tokens after the first `n` is a suffix of the tokens.
proof fn lemma_suffix_of_suffix(tokens: Seq<Lexeme>, middle: Seq<Lexeme>, n: int)
    requires
        0 <= n <= tokens.len(),
        middle =~= tokens.skip(n),
    ensures
        forall|k: int|
            0 <= k <= middle.len() ==> #[trigger] middle.skip(k) == tokens.skip(
                tokens.len() - (middle.len() - k),
            ),
{
}

/// A suffix of a suffix of the tokens is a suffix of the tokens.
proof fn lemma_tail_is_suffix(tokens: Seq<Lexeme>, middle: Seq<Lexeme>, rest: Seq<Lexeme>)
    requires
        middle.len() <= tokens.len(),
        middle == tokens.skip(tokens.len() - middle.len()),
        rest.len() <= middle.len(),
        rest == middle.skip(middle.len() - rest.len()),
    ensures
        rest == tokens.skip(tokens.len() - rest.len()),
{
    lemma_suffix_of_suffix(tokens, middle, tokens.len() - middle.len());
}

/// A sum, and so an expression, that succeeds consumes at least one
/// token, and leaves a suffix of what it was given.
pub proof fn lemma_additive_consumes(tokens: Seq<Lexeme>)
    ensures
        consumes(additive(tokens), tokens),
        consumes(expr(tokens), tokens),
    decreases tokens.len(), 7nat,
{
    lemma_multiplicative_consumes(tokens);
    if let Ok((left, rest)) = multiplicative(tokens) {
        lemma_additive_tail_consumes(left, rest);
        if let Ok((_, end)) = additive_tail(left, rest) {
            lemma_tail_is_suffix(tokens, rest, end);
        }
    }
}

/// The repetition of a sum leaves a suffix of what it was given.
proof fn lemma_additive_tail_consumes(left: Expr, tokens: Seq<Lexeme>)
    ensures
        additive_tail(left, tokens) matches Ok((_, rest)) ==> rest.len() <= tokens.len() && rest
            == tokens.skip(tokens.len() - rest.len()),
    decreases tokens.len(), 6nat,
{
    if starts_with(tokens, Lexeme::Plus) || starts_with(tokens, Lexeme::Minus) {
        lemma_multiplicative_consumes(tokens.skip(1));
        if let Ok((right, rest)) = multiplicative(tokens.skip(1)) {
            let node = if tokens[0] is Plus {
                Expr::Add(Box::new(left), Box::new(right))
            } else {
                Expr::Subtract(Box::new(left), Box::new(right))
            };
            lemma_suffix_of_suffix(tokens, tokens.skip(1), 1);
            lemma_tail_is_suffix(tokens, tokens.skip(1), rest);
            lemma_additive_tail_consumes(node, rest);
            if let Ok((_, end)) = additive_tail(node, rest) {
                lemma_tail_is_suffix(tokens, rest, end);
            }
        }
    }
}

/// As [`lemma_additive_consumes`], for a product.
pub proof fn lemma_multiplicative_consumes(tokens: Seq<Lexeme>)
    ensures
        consumes(multiplicative(tokens), tokens),
    decreases tokens.len(), 5nat,
{
    lemma_unary_consumes(tokens);
    if let Ok((left, rest)) = unary(tokens) {
        lemma_multiplicative_tail_consumes(left, rest);
        if let Ok((_, end)) = multiplicative_tail(left, rest) {
            lemma_tail_is_suffix(tokens, rest, end);
        }
    }
}

/// The repetition of a product leaves a suffix of what it was given.
proof fn lemma_multiplicative_tail_consumes(left: Expr, tokens: Seq<Lexeme>)
    ensures
        multiplicative_tail(left, tokens) matches Ok((_, rest)) ==> rest.len() <= tokens.len()
            && rest == tokens.skip(tokens.len() - rest.len()),
    decreases tokens.len(), 4nat,
{
    if starts_with(tokens, Lexeme::Star) || starts_with(tokens, Lexeme::Slash) {
        lemma_unary_consumes(tokens.skip(1));
        if let Ok((right, rest)) = unary(tokens.skip(1)) {
            let node = if tokens[0] is Star {
                Expr::Multiply(Box::new(left), Box::new(right))
            } else {
                Expr::Divide(Box::new(left), Box::new(right))
            };
            lemma_suffix_of_suffix(tokens, tokens.skip(1), 1);
            lemma_tail_is_suffix(tokens, tokens.skip(1), rest);
            lemma_multiplicative_tail_consumes(node, rest);
            if let Ok((_, end)) = multiplicative_tail(node, rest) {
                lemma_tail_is_suffix(tokens, rest, end);
            }
        }
    }
}

/// As [`lemma_additive_consumes`], for `unary`.
pub proof fn lemma_unary_consumes(tokens: Seq<Lexeme>)
    ensures
        consumes(unary(tokens), tokens),
    decreases tokens.len(), 3nat,
{
    if starts_with(tokens, Lexeme::Minus) {
        lemma_unary_consumes(tokens.skip(1));
        if let Ok((_, rest)) = unary(tokens.skip(1)) {
            lemma_suffix_of_suffix(tokens, tokens.skip(1), 1);
            lemma_tail_is_suffix(tokens, tokens.skip(1), rest);
        }
    } else {
        lemma_primary_consumes(tokens);
    }
}

/// As [`lemma_additive_consumes`], for `primary`.
pub proof fn lemma_primary_consumes(tokens: Seq<Lexeme>)
    ensures
        consumes(primary(tokens), tokens),
    decreases tokens.len(), 2nat,
{
    if tokens.len() > 0 && tokens[0] is Number {
    } else if starts_with(tokens, Lexeme::LParen) {
        lemma_additive_consumes(tokens.skip(1));
        if let Ok((_, rest)) = expr(tokens.skip(1)) {
            lemma_suffix_of_suffix(tokens, tokens.skip(1), 1);
            lemma_tail_is_suffix(tokens, tokens.skip(1), rest);
            if starts_with(rest, Lexeme::RParen) {
                lemma_suffix_of_suffix(tokens, rest, tokens.len() - rest.len());
            }
        }
    } else {
        lemma_var_or_call_consumes(tokens);
    }
}

/// As [`lemma_additive_consumes`], for `var-or-call`.
pub proof fn lemma_var_or_call_consumes(tokens: Seq<Lexeme>)
    ensures
        consumes(var_or_call(tokens), tokens),
    decreases tokens.len(), 1nat,
{
    if tokens.len() > 0 && tokens[0] is Identifier {
        let after = tokens.skip(1);
        if starts_with(after, Lexeme::LParen) {
            lemma_suffix_of_suffix(tokens, after, 1);
            if !starts_with(after.skip(1), Lexeme::RParen) {
                lemma_arguments_consume(Seq::empty(), after.skip(1));
                if let Ok((_, rest)) = arguments(Seq::empty(), after.skip(1)) {
                    lemma_tail_is_suffix(tokens, after.skip(1), rest);
                }
            }
        }
    }
}

/// As [`lemma_additive_consumes`], for an argument list.
pub proof fn lemma_arguments_consume(before: Seq<Expr>, tokens: Seq<Lexeme>)
    ensures
        consumes_list(arguments(before, tokens), tokens),
    decreases tokens.len(), 9nat,
{
    lemma_additive_consumes(tokens);
    if let Ok((argument, rest)) = expr(tokens) {
        let list = before.push(argument);
        lemma_suffix_of_suffix(tokens, rest, tokens.len() - rest.len());
        if starts_with(rest, Lexeme::RParen) {
        } else if starts_with(rest, Lexeme::Comma) {
            lemma_arguments_consume(list, rest.skip(1));
            if let Ok((_, end)) = arguments(list, rest.skip(1)) {
                lemma_tail_is_suffix(tokens, rest.skip(1), end);
            }
        }
    }
}

/// Whether the fault of `outcome`, if it is one that names a token, names
/// a token of `tokens`.
pub open spec fn names_token_of<T>(outcome: Result<T, Fault>, tokens: Seq<Lexeme>) -> bool {
    outcome matches Err(Fault::UnexpectedToken(token)) ==> tokens.contains(token)
}

/// A token of a suffix is a token of the whole.
proof fn lemma_suffix_names<T>(outcome: Result<T, Fault>, tokens: Seq<Lexeme>, rest: Seq<Lexeme>)
    requires
        rest.len() <= tokens.len(),
        rest == tokens.skip(tokens.len() - rest.len()),
        names_token_of(outcome, rest),
    ensures
        names_token_of(outcome, tokens),
{
    if let Err(Fault::UnexpectedToken(token)) = outcome {
        let i = choose|i: int| 0 <= i < rest.len() && rest[i] == token;
        assert(tokens[tokens.len() - rest.len() + i] == token);
    }
}

/// The token that stands where another was required is a token of the
/// input.
proof fn lemma_unexpected_names(tokens: Seq<Lexeme>, rest: Seq<Lexeme>)
    requires
        rest.len() <= tokens.len(),
        rest == tokens.skip(tokens.len() - rest.len()),
    ensures
        names_token_of(Err::<Expr, Fault>(unexpected(rest)), tokens),
        names_token_of(Err::<(Expr, Seq<Lexeme>), Fault>(unexpected(rest)), tokens),
        names_token_of(Err::<(Seq<Expr>, Seq<Lexeme>), Fault>(unexpected(rest)), tokens),
        names_token_of(Err::<Seq<Expr>, Fault>(unexpected(rest)), tokens),
{
}

/// A fault of a sum, and so of an expression, that names a token names one
/// of the input.
pub proof fn lemma_additive_fault(tokens: Seq<Lexeme>)
    ensures
        names_token_of(additive(tokens), tokens),
        names_token_of(expr(tokens), tokens),
    decreases tokens.len(), 7nat,
{
    lemma_multiplicative_fault(tokens);
    lemma_multiplicative_consumes(tokens);
    if let Ok((left, rest)) = multiplicative(tokens) {
        lemma_additive_tail_fault(left, rest);
        lemma_suffix_names(additive_tail(left, rest), tokens, rest);
    }
}

/// As [`lemma_additive_fault`], for the repetition of a sum.
proof fn lemma_additive_tail_fault(left: Expr, tokens: Seq<Lexeme>)
    ensures
        names_token_of(additive_tail(left, tokens), tokens),
    decreases tokens.len(), 6nat,
{
    if starts_with(tokens, Lexeme::Plus) || starts_with(tokens, Lexeme::Minus) {
        let after = tokens.skip(1);
        lemma_multiplicative_fault(after);
        lemma_multiplicative_consumes(after);
        lemma_suffix_of_suffix(tokens, after, 1);
        lemma_suffix_names(multiplicative(after), tokens, after);
        if let Ok((right, rest)) = multiplicative(after) {
            let node = if tokens[0] is Plus {
                Expr::Add(Box::new(left), Box::new(right))
            } else {
                Expr::Subtract(Box::new(left), Box::new(right))
            };
            lemma_additive_tail_fault(node, rest);
            lemma_tail_is_suffix(tokens, after, rest);
            lemma_suffix_names(additive_tail(node, rest), tokens, rest);
        }
    }
}

/// As [`lemma_additive_fault`], for a product.
pub proof fn lemma_multiplicative_fault(tokens: Seq<Lexeme>)
    ensures
        names_token_of(multiplicative(tokens), tokens),
    decreases tokens.len(), 5nat,
{
    lemma_unary_fault(tokens);
    lemma_unary_consumes(tokens);
    if let Ok((left, rest)) = unary(tokens) {
        lemma_multiplicative_tail_fault(left, rest);
        lemma_suffix_names(multiplicative_tail(left, rest), tokens, rest);
    }
}

/// As [`lemma_additive_fault`], for the repetition of a product.
proof fn lemma_multiplicative_tail_fault(left: Expr, tokens: Seq<Lexeme>)
    ensures
        names_token_of(multiplicative_tail(left, tokens), tokens),
    decreases tokens.len(), 4nat,
{
    if starts_with(tokens, Lexeme::Star) || starts_with(tokens, Lexeme::Slash) {
        let after = tokens.skip(1);
        lemma_unary_fault(after);
        lemma_unary_consumes(after);
        lemma_suffix_of_suffix(tokens, after, 1);
        lemma_suffix_names(unary(after), tokens, after);
        if let Ok((right, rest)) = unary(after) {
            let node = if tokens[0] is Star {
                Expr::Multiply(Box::new(left), Box::new(right))
            } else {
                Expr::Divide(Box::new(left), Box::new(right))
            };
            lemma_multiplicative_tail_fault(node, rest);
            lemma_tail_is_suffix(tokens, after, rest);
            lemma_suffix_names(multiplicative_tail(node, rest), tokens, rest);
        }
    }
}

/// As [`lemma_additive_fault`], for `unary`.
pub proof fn lemma_unary_fault(tokens: Seq<Lexeme>)
    ensures
        names_token_of(unary(tokens), tokens),
    decreases tokens.len(), 3nat,
{
    if starts_with(tokens, Lexeme::Minus) {
        let after = tokens.skip(1);
        lemma_unary_fault(after);
        lemma_suffix_of_suffix(tokens, after, 1);
        lemma_suffix_names(unary(after), tokens, after);
    } else {
        lemma_primary_fault(tokens);
    }
}

/// As [`lemma_additive_fault`], for `primary`.
pub proof fn lemma_primary_fault(tokens: Seq<Lexeme>)
    ensures
        names_token_of(primary(tokens), tokens),
    decreases tokens.len(), 2nat,
{
    if tokens.len() > 0 && tokens[0] is Number {
    } else if starts_with(tokens, Lexeme::LParen) {
        let after = tokens.skip(1);
        lemma_additive_fault(after);
        lemma_additive_consumes(after);
        lemma_suffix_of_suffix(tokens, after, 1);
        lemma_suffix_names(expr(after), tokens, after);
        if let Ok((_, rest)) = expr(after) {
            lemma_tail_is_suffix(tokens, after, rest);
            lemma_unexpected_names(tokens, rest);
        }
    } else {
        lemma_var_or_call_fault(tokens);
    }
}

/// As [`lemma_additive_fault`], for `var-or-call`.
pub proof fn lemma_var_or_call_fault(tokens: Seq<Lexeme>)
    ensures
        names_token_of(var_or_call(tokens), tokens),
    decreases tokens.len(), 1nat,
{
    assert(tokens.skip(0) =~= tokens);
    lemma_unexpected_names(tokens, tokens);
    if tokens.len() > 0 && tokens[0] is Identifier {
        let after = tokens.skip(1);
        if starts_with(after, Lexeme::LParen) && !starts_with(after.skip(1), Lexeme::RParen) {
            let inner = after.skip(1);
            lemma_arguments_fault(Seq::empty(), inner);
            lemma_suffix_of_suffix(tokens, after, 1);
            lemma_suffix_names(arguments(Seq::empty(), inner), tokens, inner);
        }
    }
}

/// As [`lemma_additive_fault`], for an argument list.
pub proof fn lemma_arguments_fault(before: Seq<Expr>, tokens: Seq<Lexeme>)
    ensures
        names_token_of(arguments(before, tokens), tokens),
    decreases tokens.len(), 9nat,
{
    lemma_additive_fault(tokens);
    lemma_additive_consumes(tokens);
    if let Ok((argument, rest)) = expr(tokens) {
        lemma_unexpected_names(tokens, rest);
        if !starts_with(rest, Lexeme::RParen) && starts_with(rest, Lexeme::Comma) {
            let after = rest.skip(1);
            lemma_arguments_fault(before.push(argument), after);
            lemma_suffix_of_suffix(tokens, rest, tokens.len() - rest.len());
            lemma_suffix_names(arguments(before.push(argument), after), tokens, after);
        }
    }
}

/// As [`lemma_additive_fault`], for a statement.
pub proof fn lemma_stmt_fault(tokens: Seq<Lexeme>)
    ensures
        names_token_of(stmt(tokens), tokens),
{
    lemma_additive_fault(tokens);
    if starts_with(tokens, Lexeme::Let) {
        let after = tokens.skip(1);
        lemma_suffix_of_suffix(tokens, after, 1);
        lemma_unexpected_names(tokens, after);
        if after.len() > 0 {
            lemma_unexpected_names(tokens, after.skip(1));
            if starts_with(after.skip(1), Lexeme::Equals) {
                lemma_additive_fault(after.skip(2));
                lemma_suffix_names(expr(after.skip(2)), tokens, after.skip(2));
            }
        }
    }
}

/// As [`lemma_additive_fault`], for the statements of a chain after the
/// first.
proof fn lemma_chain_tail_fault(before: Seq<Expr>, tokens: Seq<Lexeme>)
    ensures
        names_token_of(chain_tail(before, tokens), tokens),
    decreases tokens.len(),
{
    assert(tokens.skip(0) =~= tokens);
    lemma_unexpected_names(tokens, tokens);
    if tokens.len() > 0 && tokens[0] is Comma {
        let after = tokens.skip(1);
        lemma_stmt_fault(after);
        lemma_stmt_consumes(after);
        lemma_suffix_of_suffix(tokens, after, 1);
        lemma_suffix_names(stmt(after), tokens, after);
        if let Ok((statement, rest)) = stmt(after) {
            lemma_chain_tail_fault(before.push(statement), rest);
            lemma_tail_is_suffix(tokens, after, rest);
            lemma_suffix_names(chain_tail(before.push(statement), rest), tokens, rest);
        }
    }
}

/// A line that is no sentence of the grammar yields one of two faults: the
/// end of the input, or a token of the line.
pub proof fn theorem_fault_names_a_token(tokens: Seq<Lexeme>)
    ensures
        names_token_of(chain(tokens), tokens),
{
    lemma_stmt_fault(tokens);
    lemma_stmt_consumes(tokens);
    if let Ok((first, rest)) = stmt(tokens) {
        lemma_chain_tail_fault(seq![first], rest);
        lemma_suffix_names(chain_tail(seq![first], rest), tokens, rest);
    }
}

} // verus!
