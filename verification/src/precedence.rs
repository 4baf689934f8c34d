//! How the productions of the grammar behave when more tokens follow: a
//! parse is not disturbed by what comes after it, binary operators fold to
//! the left, negation binds tighter than any binary operator, and
//! parentheses make an operand of any expression.

use crate::grammar::{
    additive, additive_tail, arguments, expr, lemma_additive_consumes,
    lemma_arguments_consume, lemma_multiplicative_consumes, lemma_primary_consumes,
    lemma_unary_consumes, multiplicative, multiplicative_tail, parsed, parsed_list, primary,
    starts_with, unary, var_or_call, Expr, Parsed,
};
use crate::tokenizer::Lexeme;
use vstd::prelude::*;

verus! {

/// Whether `tokens` would turn a name that stands just before them into a
/// call.
pub open spec fn opens_call(tokens: Seq<Lexeme>) -> bool {
    starts_with(tokens, Lexeme::LParen)
}

/// Whether `tokens` would carry on a product that ends just before them.
pub open spec fn continues_product(tokens: Seq<Lexeme>) -> bool {
    starts_with(tokens, Lexeme::Star) || starts_with(tokens, Lexeme::Slash) || opens_call(tokens)
}

/// Whether `tokens` would carry on a sum that ends just before them.
pub open spec fn continues_sum(tokens: Seq<Lexeme>) -> bool {
    starts_with(tokens, Lexeme::Plus) || starts_with(tokens, Lexeme::Minus) || continues_product(
        tokens,
    )
}

/// The node that a binary operator makes of its operands.
pub open spec fn binary_node(operator: Lexeme, left: Expr, right: Expr) -> Expr {
    match operator {
        Lexeme::Plus => Expr::Add(Box::new(left), Box::new(right)),
        Lexeme::Minus => Expr::Subtract(Box::new(left), Box::new(right)),
        Lexeme::Star => Expr::Multiply(Box::new(left), Box::new(right)),
        _ => Expr::Divide(Box::new(left), Box::new(right)),
    }
}

/// The front of a concatenation is the front of its first part.
proof fn lemma_front(a: Seq<Lexeme>, b: Seq<Lexeme>)
    requires
        a.len() > 0,
    ensures
        (a + b).len() == a.len() + b.len(),
        (a + b)[0] == a[0],
        (a + b).skip(1) == a.skip(1) + b,
        forall|lexeme: Lexeme| starts_with(a + b, lexeme) == starts_with(a, lexeme),
{
}

/// The repetition of a sum stops before a token that is neither `+` nor `-`.
pub proof fn lemma_additive_tail_stops(left: Expr, tokens: Seq<Lexeme>)
    ensures
        additive_tail(left, tokens) matches Ok((_, rest)) ==> !starts_with(rest, Lexeme::Plus)
            && !starts_with(rest, Lexeme::Minus),
    decreases tokens.len(),
{
    if starts_with(tokens, Lexeme::Plus) || starts_with(tokens, Lexeme::Minus) {
        lemma_multiplicative_consumes(tokens.skip(1));
        if let Ok((right, rest)) = multiplicative(tokens.skip(1)) {
            lemma_additive_tail_stops(binary_node(tokens[0], left, right), rest);
        }
    }
}

/// The repetition of a product stops before a token that is neither `*`
/// nor `/`.
pub proof fn lemma_multiplicative_tail_stops(left: Expr, tokens: Seq<Lexeme>)
    ensures
        multiplicative_tail(left, tokens) matches Ok((_, rest)) ==> !starts_with(
            rest,
            Lexeme::Star,
        ) && !starts_with(rest, Lexeme::Slash),
    decreases tokens.len(),
{
    if starts_with(tokens, Lexeme::Star) || starts_with(tokens, Lexeme::Slash) {
        lemma_unary_consumes(tokens.skip(1));
        if let Ok((right, rest)) = unary(tokens.skip(1)) {
            lemma_multiplicative_tail_stops(binary_node(tokens[0], left, right), rest);
        }
    }
}

/// Whether `longer` is `shorter` with `more` appended to what it left over.
pub open spec fn extended(shorter: Parsed, more: Seq<Lexeme>, longer: Parsed) -> bool {
    shorter matches Ok((tree, rest)) && longer == parsed(tree, rest + more)
}

/// An operand is read the same whatever follows it, unless it is a name
/// at the very end and an opening parenthesis follows.
pub proof fn lemma_unary_extends(tokens: Seq<Lexeme>, more: Seq<Lexeme>)
    requires
        unary(tokens) matches Ok((_, rest)) && (rest.len() > 0 || !opens_call(more)),
    ensures
        extended(unary(tokens), more, unary(tokens + more)),
    decreases tokens.len(), 3nat,
{
    lemma_unary_consumes(tokens);
    lemma_front(tokens, more);
    if starts_with(tokens, Lexeme::Minus) {
        lemma_unary_extends(tokens.skip(1), more);
    } else {
        lemma_primary_extends(tokens, more);
    }
}

/// As [`lemma_unary_extends`], for `primary`.
pub proof fn lemma_primary_extends(tokens: Seq<Lexeme>, more: Seq<Lexeme>)
    requires
        primary(tokens) matches Ok((_, rest)) && (rest.len() > 0 || !opens_call(more)),
    ensures
        extended(primary(tokens), more, primary(tokens + more)),
    decreases tokens.len(), 2nat,
{
    lemma_primary_consumes(tokens);
    lemma_front(tokens, more);
    if tokens[0] is Number {
    } else if starts_with(tokens, Lexeme::LParen) {
        let inner = expr(tokens.skip(1));
        let rest = inner->Ok_0.1;
        lemma_expr_extends(tokens.skip(1), more);
        lemma_front(rest, more);
    } else {
        lemma_var_or_call_extends(tokens, more);
    }
}

/// As [`lemma_unary_extends`], for `var-or-call`.
pub proof fn lemma_var_or_call_extends(tokens: Seq<Lexeme>, more: Seq<Lexeme>)
    requires
        var_or_call(tokens) matches Ok((_, rest)) && (rest.len() > 0 || !opens_call(more)),
    ensures
        extended(var_or_call(tokens), more, var_or_call(tokens + more)),
    decreases tokens.len(), 1nat,
{
    lemma_front(tokens, more);
    let after = tokens.skip(1);
    if starts_with(after, Lexeme::LParen) {
        lemma_front(after, more);
        if starts_with(after.skip(1), Lexeme::RParen) {
            lemma_front(after.skip(1), more);
            assert((after + more).skip(2) =~= after.skip(2) + more);
        } else {
            lemma_arguments_consume(Seq::empty(), after.skip(1));
            lemma_arguments_extend(Seq::empty(), after.skip(1), more);
        }
    } else if after.len() > 0 {
        lemma_front(after, more);
    }
}

/// An argument list ends with its closing parenthesis, so it is read the
/// same whatever follows it.
pub proof fn lemma_arguments_extend(before: Seq<Expr>, tokens: Seq<Lexeme>, more: Seq<Lexeme>)
    requires
        arguments(before, tokens) is Ok,
    ensures
        arguments(before, tokens) matches Ok((list, rest)) && arguments(before, tokens + more)
            == parsed_list(list, rest + more),
    decreases tokens.len(), 9nat,
{
    lemma_additive_consumes(tokens);
    let (argument, rest) = expr(tokens)->Ok_0;
    lemma_expr_extends(tokens, more);
    lemma_front(rest, more);
    if !starts_with(rest, Lexeme::RParen) {
        lemma_arguments_extend(before.push(argument), rest.skip(1), more);
    }
}

/// An expression is read the same whatever follows it, unless it ends
/// where the tokens end and what follows would carry it on.
pub proof fn lemma_expr_extends(tokens: Seq<Lexeme>, more: Seq<Lexeme>)
    requires
        expr(tokens) matches Ok((_, rest)) && (rest.len() > 0 || !continues_sum(more)),
    ensures
        extended(expr(tokens), more, expr(tokens + more)),
    decreases tokens.len(), 8nat,
{
    lemma_additive_extends(tokens, more);
}

/// As [`lemma_expr_extends`], for `additive`.
pub proof fn lemma_additive_extends(tokens: Seq<Lexeme>, more: Seq<Lexeme>)
    requires
        additive(tokens) matches Ok((_, rest)) && (rest.len() > 0 || !continues_sum(more)),
    ensures
        extended(additive(tokens), more, additive(tokens + more)),
    decreases tokens.len(), 7nat,
{
    lemma_multiplicative_consumes(tokens);
    let (first, middle) = multiplicative(tokens)->Ok_0;
    let (tree, rest) = additive_tail(first, middle)->Ok_0;
    lemma_additive_tail_stops(first, middle);
    lemma_multiplicative_extends(tokens, more);
    lemma_additive_tail_continues(first, middle, more);
    if rest.len() > 0 {
        lemma_front(rest, more);
    }
}

/// The repetition of a sum goes on past the end of the tokens as it would
/// from there: with the tree folded so far, on what follows.
pub proof fn lemma_additive_tail_continues(left: Expr, tokens: Seq<Lexeme>, more: Seq<Lexeme>)
    requires
        additive_tail(left, tokens) matches Ok((_, rest)) && (rest.len() > 0 || !continues_product(
            more,
        )),
    ensures
        additive_tail(left, tokens) matches Ok((tree, rest)) && additive_tail(left, tokens + more)
            == additive_tail(tree, rest + more),
    decreases tokens.len(), 6nat,
{
    if starts_with(tokens, Lexeme::Plus) || starts_with(tokens, Lexeme::Minus) {
        lemma_front(tokens, more);
        lemma_multiplicative_consumes(tokens.skip(1));
        let (right, middle) = multiplicative(tokens.skip(1))->Ok_0;
        let node = binary_node(tokens[0], left, right);
        if middle.len() == 0 {
            assert(additive_tail(node, middle) == parsed(node, middle));
        }
        lemma_multiplicative_extends(tokens.skip(1), more);
        lemma_additive_tail_continues(node, middle, more);
    }
}

/// As [`lemma_expr_extends`], for `multiplicative`.
pub proof fn lemma_multiplicative_extends(tokens: Seq<Lexeme>, more: Seq<Lexeme>)
    requires
        multiplicative(tokens) matches Ok((_, rest)) && (rest.len() > 0 || !continues_product(
            more,
        )),
    ensures
        extended(multiplicative(tokens), more, multiplicative(tokens + more)),
    decreases tokens.len(), 5nat,
{
    lemma_unary_consumes(tokens);
    let (first, middle) = unary(tokens)->Ok_0;
    let (tree, rest) = multiplicative_tail(first, middle)->Ok_0;
    lemma_multiplicative_tail_stops(first, middle);
    lemma_unary_extends(tokens, more);
    lemma_multiplicative_tail_continues(first, middle, more);
    if rest.len() > 0 {
        lemma_front(rest, more);
    }
}

/// As [`lemma_additive_tail_continues`], for the repetition of a product.
pub proof fn lemma_multiplicative_tail_continues(
    left: Expr,
    tokens: Seq<Lexeme>,
    more: Seq<Lexeme>,
)
    requires
        multiplicative_tail(left, tokens) matches Ok((_, rest)) && (rest.len() > 0 || !opens_call(
            more,
        )),
    ensures
        multiplicative_tail(left, tokens) matches Ok((tree, rest)) && multiplicative_tail(
            left,
            tokens + more,
        ) == multiplicative_tail(tree, rest + more),
    decreases tokens.len(), 4nat,
{
    if starts_with(tokens, Lexeme::Star) || starts_with(tokens, Lexeme::Slash) {
        lemma_front(tokens, more);
        lemma_unary_consumes(tokens.skip(1));
        let (right, middle) = unary(tokens.skip(1))->Ok_0;
        let node = binary_node(tokens[0], left, right);
        if middle.len() == 0 {
            assert(multiplicative_tail(node, middle) == parsed(node, middle));
        }
        lemma_unary_extends(tokens.skip(1), more);
        lemma_multiplicative_tail_continues(node, middle, more);
    }
}

/// Products fold to the left.
///
/// Take tokens `product` that are a whole product with the tree `left`,
/// and tokens `operand` that are a whole operand with the tree `right`.
/// Then `product`, `*` or `/`, `operand` is the product whose node has
/// `left`, the whole product before the operator, as its left child and
/// `right` as its right child. So `a / b / c` is `(a / b) / c`.
pub proof fn theorem_products_fold_left(
    product: Seq<Lexeme>,
    operator: Lexeme,
    operand: Seq<Lexeme>,
    left: Expr,
    right: Expr,
)
    requires
        operator is Star || operator is Slash,
        multiplicative(product) == parsed(left, Seq::empty()),
        unary(operand) == parsed(right, Seq::empty()),
    ensures
        multiplicative(product + seq![operator] + operand) == parsed(
            binary_node(operator, left, right),
            Seq::empty(),
        ),
{
    let more = seq![operator] + operand;
    assert(product + seq![operator] + operand =~= product + more);
    assert(more.skip(1) =~= operand);
    lemma_unary_consumes(product);
    let (first, middle) = unary(product)->Ok_0;
    lemma_unary_extends(product, more);
    lemma_multiplicative_tail_continues(first, middle, more);
    let node = binary_node(operator, left, right);
    assert(multiplicative_tail(node, Seq::empty()) == parsed(node, Seq::empty()));
}

/// Sums fold to the left.
///
/// Take tokens `sum` that are a whole sum with the tree `left`, and tokens
/// `operand` that are a whole product with the tree `right`. Then `sum`,
/// `+` or `-`, `operand` is the sum whose node has `left`, the whole sum
/// before the operator, as its left child and `right` as its right child.
/// So `a - b - c` is `(a - b) - c`.
pub proof fn theorem_sums_fold_left(
    sum: Seq<Lexeme>,
    operator: Lexeme,
    operand: Seq<Lexeme>,
    left: Expr,
    right: Expr,
)
    requires
        operator is Plus || operator is Minus,
        additive(sum) == parsed(left, Seq::empty()),
        multiplicative(operand) == parsed(right, Seq::empty()),
    ensures
        additive(sum + seq![operator] + operand) == parsed(
            binary_node(operator, left, right),
            Seq::empty(),
        ),
{
    let more = seq![operator] + operand;
    assert(sum + seq![operator] + operand =~= sum + more);
    assert(more.skip(1) =~= operand);
    lemma_multiplicative_consumes(sum);
    let (first, middle) = multiplicative(sum)->Ok_0;
    lemma_multiplicative_extends(sum, more);
    lemma_additive_tail_continues(first, middle, more);
    assert(Seq::<Lexeme>::empty() + more =~= more);
    let node = binary_node(operator, left, right);
    assert(additive_tail(node, Seq::empty()) == parsed(node, Seq::empty()));
}

/// Negation binds tighter than multiplication and division, and nests.
///
/// Take tokens `operand` that are a whole operand with the tree `inner`.
/// A `-` before them negates that operand and nothing more: whatever
/// follows, unless it opens a call, is left over. So in `- a * b` the
/// product has the negation of `a` as its left child.
pub proof fn theorem_negation_binds_tighter(
    operand: Seq<Lexeme>,
    inner: Expr,
    more: Seq<Lexeme>,
)
    requires
        unary(operand) == parsed(inner, Seq::empty()),
        !opens_call(more),
    ensures
        unary(seq![Lexeme::Minus] + operand + more) == parsed(
            Expr::Negate(Box::new(inner)),
            more,
        ),
        (starts_with(more, Lexeme::Star) || starts_with(more, Lexeme::Slash)) ==> multiplicative(
            seq![Lexeme::Minus] + operand + more,
        ) == multiplicative_tail(Expr::Negate(Box::new(inner)), more),
{
    let tokens = seq![Lexeme::Minus] + operand + more;
    assert(tokens.skip(1) =~= operand + more);
    lemma_unary_extends(operand, more);
}

/// Parentheses make an operand of any expression.
///
/// Take tokens `inner` that are a whole expression with the tree `tree`.
/// Between parentheses they are a single operand with that same tree,
/// whatever follows the closing parenthesis.
pub proof fn theorem_parentheses_group(inner: Seq<Lexeme>, tree: Expr, more: Seq<Lexeme>)
    requires
        expr(inner) == parsed(tree, Seq::empty()),
    ensures
        primary(seq![Lexeme::LParen] + inner + seq![Lexeme::RParen] + more) == parsed(tree, more),
        unary(seq![Lexeme::LParen] + inner + seq![Lexeme::RParen] + more) == parsed(tree, more),
{
    let tokens = seq![Lexeme::LParen] + inner + seq![Lexeme::RParen] + more;
    let closing = seq![Lexeme::RParen] + more;
    assert(tokens.skip(1) =~= inner + closing);
    assert(closing.skip(1) =~= more);
    lemma_expr_extends(inner, closing);
}

} // verus!
