//! Evaluation: resolving a tree against the names bound in a session.
//!
//! Numbers are never inspected here. Evaluating a tree decides what is to
//! be computed and in which order, and writes that down as a sequence of
//! [`Step`]s for a stack of numbers: which literals and constants to push,
//! which variables to read and to bind, which operation to apply next.
//! Whoever holds the numbers carries the steps out. Because no decision
//! depends on a number, the steps are known as soon as the tree and the
//! bound names are.

use crate::grammar::Expr;
use crate::parser::AST;
use crate::tokenizer::{push_char, Literal};
use vstd::prelude::*;

verus! {

/// A global constant.
#[derive(Clone, Copy, Debug, PartialEq, Eq, Structural)]
pub enum Constant {
    /// Euler's number, named `e`.
    E,
    /// The circle constant, named `pi`.
    Pi,
}

/// A built-in function.
#[derive(Clone, Copy, Debug, PartialEq, Eq, Structural)]
pub enum Function {
    /// Sine, of one argument.
    Sin,
    /// Cosine, of one argument.
    Cos,
    /// Power, of a base and an exponent.
    Pow,
    /// Natural logarithm, of one argument.
    Ln,
}

impl Function {
    /// The number of arguments the function takes.
    pub open spec fn arity(self) -> nat {
        match self {
            Function::Pow => 2,
            _ => 1,
        }
    }
}

/// A binary arithmetic operation.
#[derive(Clone, Copy, Debug, PartialEq, Eq, Structural)]
pub enum Operator {
    Add,
    Subtract,
    Multiply,
    Divide,
}

/// One step of a computation on a stack of numbers.
#[derive(Debug)]
pub enum Step {
    /// Push the value of a decimal literal.
    Number(Literal),
    /// Push a global constant.
    Constant(Constant),
    /// Push the value bound to a name.
    Load(String),
    /// Bind the top of the stack to a name; the value stays on the stack.
    Store(String),
    /// Replace the two topmost values by the result of the operation, with
    /// the lower of the two as its left operand.
    Binary(Operator),
    /// Replace the topmost value by its negation.
    Negate,
    /// Replace the topmost values, as many as the function takes and in the
    /// order they were pushed, by the function's result.
    Apply(Function),
    /// Push zero.
    Zero,
    /// Drop the topmost value.
    Discard,
}

/// The mathematical value of a [`Step`].
pub enum Action {
    Number(Seq<char>),
    Constant(Constant),
    Load(Seq<char>),
    Store(Seq<char>),
    Binary(Operator),
    Negate,
    Apply(Function),
    Zero,
    Discard,
}

impl View for Step {
    type V = Action;

    open spec fn view(&self) -> Action {
        match self {
            Step::Number(literal) => Action::Number(literal@),
            Step::Constant(constant) => Action::Constant(*constant),
            Step::Load(name) => Action::Load(name@),
            Step::Store(name) => Action::Store(name@),
            Step::Binary(operator) => Action::Binary(*operator),
            Step::Negate => Action::Negate,
            Step::Apply(function) => Action::Apply(*function),
            Step::Zero => Action::Zero,
            Step::Discard => Action::Discard,
        }
    }
}

impl PartialEq for Step {
    fn eq(&self, other: &Self) -> (equal: bool) {
        match self {
            Step::Number(mine) => match other {
                Step::Number(theirs) => *mine == *theirs,
                _ => false,
            },
            Step::Constant(mine) => match other {
                Step::Constant(theirs) => *mine == *theirs,
                _ => false,
            },
            Step::Load(mine) => match other {
                Step::Load(theirs) => *mine == *theirs,
                _ => false,
            },
            Step::Store(mine) => match other {
                Step::Store(theirs) => *mine == *theirs,
                _ => false,
            },
            Step::Binary(mine) => match other {
                Step::Binary(theirs) => *mine == *theirs,
                _ => false,
            },
            Step::Negate => matches!(other, Step::Negate),
            Step::Apply(mine) => match other {
                Step::Apply(theirs) => *mine == *theirs,
                _ => false,
            },
            Step::Zero => matches!(other, Step::Zero),
            Step::Discard => matches!(other, Step::Discard),
        }
    }
}

impl vstd::std_specs::cmp::PartialEqSpecImpl for Step {
    open spec fn obeys_eq_spec() -> bool {
        true
    }

    open spec fn eq_spec(&self, other: &Self) -> bool {
        self@ == other@
    }
}

impl DeepView for Step {
    type V = Action;

    open spec fn deep_view(&self) -> Action {
        self@
    }
}

/// Why a tree cannot be evaluated.
#[derive(Debug)]
pub enum EvaluationError {
    /// The name is neither a global constant nor bound in the session.
    UnknownIdentifier(String),
    /// No built-in function has this name and takes this many arguments.
    UnknownFunction(String, usize),
}

impl PartialEq for EvaluationError {
    fn eq(&self, other: &Self) -> (equal: bool) {
        match self {
            EvaluationError::UnknownIdentifier(mine) => match other {
                EvaluationError::UnknownIdentifier(theirs) => *mine == *theirs,
                _ => false,
            },
            EvaluationError::UnknownFunction(mine, count) => match other {
                EvaluationError::UnknownFunction(theirs, other_count) => *mine == *theirs && *count
                    == *other_count,
                _ => false,
            },
        }
    }
}

impl vstd::std_specs::cmp::PartialEqSpecImpl for EvaluationError {
    open spec fn obeys_eq_spec() -> bool {
        true
    }

    open spec fn eq_spec(&self, other: &Self) -> bool {
        self@ == other@
    }
}

/// The mathematical value of an [`EvaluationError`].
pub enum Failure {
    UnknownIdentifier(Seq<char>),
    UnknownFunction(Seq<char>, nat),
}

impl View for EvaluationError {
    type V = Failure;

    open spec fn view(&self) -> Failure {
        match self {
            EvaluationError::UnknownIdentifier(name) => Failure::UnknownIdentifier(name@),
            EvaluationError::UnknownFunction(name, count) => Failure::UnknownFunction(
                name@,
                *count as nat,
            ),
        }
    }
}

/// The decimal digits of `n`, without leading zeros.
pub open spec fn decimal(n: nat) -> Seq<char>
    decreases n,
{
    if n < 10 {
        seq![(48 + n) as char]
    } else {
        decimal(n / 10).push((48 + n % 10) as char)
    }
}

impl Failure {
    /// The message that describes the failure.
    pub open spec fn message(self) -> Seq<char> {
        match self {
            Failure::UnknownIdentifier(name) => "Invalid identifier, global constant `"@ + name
                + "` does not exist"@,
            Failure::UnknownFunction(name, count) => "Invalid function call, function `"@ + name
                + "/"@ + decimal(count) + "` does not exist"@,
        }
    }
}

/// Appends the decimal digits of `n` to `text`.
fn push_decimal(text: &mut String, n: usize)
    ensures
        final(text)@ == old(text)@ + decimal(n as nat),
    decreases n,
{
    if n >= 10 {
        push_decimal(text, n / 10);
    }
    let digit: u8 = (n % 10) as u8;
    push_char(text, (48 + digit) as char);
}

impl EvaluationError {
    /// The message that describes the error, naming the identifier, or the
    /// function and the number of arguments it was called with.
    pub fn message(&self) -> (text: String)
        ensures
            text@ == self@.message(),
    {
        match self {
            EvaluationError::UnknownIdentifier(name) => {
                let mut text = String::from_str("Invalid identifier, global constant `");
                text.append(name.as_str());
                text.append("` does not exist");
                text
            },
            EvaluationError::UnknownFunction(name, count) => {
                let mut text = String::from_str("Invalid function call, function `");
                text.append(name.as_str());
                text.append("/");
                push_decimal(&mut text, *count);
                text.append("` does not exist");
                text
            },
        }
    }
}

/// The names bound in a session. The numbers bound to them are kept by
/// whoever carries out the steps.
pub struct Environment {
    names: Vec<String>,
}

impl View for Environment {
    type V = Set<Seq<char>>;

    closed spec fn view(&self) -> Set<Seq<char>> {
        self.names.deep_view().to_set()
    }
}

impl Environment {
    #[verifier::type_invariant]
    spec fn distinct(&self) -> bool {
        self.names.deep_view().no_duplicates()
    }

    /// A session in which no name is bound.
    pub fn new() -> (session: Self)
        ensures
            session@ == Set::<Seq<char>>::empty(),
    {
        let names: Vec<String> = Vec::new();
        Environment { names }
    }

    /// The number of bound names.
    pub fn len(&self) -> (count: usize)
        ensures
            self@.finite(),
            count == self@.len(),
    {
        proof {
            use_type_invariant(self);
            self.names.deep_view().unique_seq_to_set();
        }
        self.names.len()
    }

    /// Whether `name` is bound.
    pub fn contains(&self, name: &String) -> (bound: bool)
        ensures
            bound == self@.contains(name@),
    {
        let mut i: usize = 0;
        while i < self.names.len()
            invariant
                i <= self.names.len(),
                forall|j: int| 0 <= j < i ==> self.names.deep_view()[j] != name@,
            decreases self.names.len() - i,
        {
            if self.names[i] == *name {
                assert(self.names.deep_view()[i as int] == name@);
                return true;
            }
            i += 1;
        }
        false
    }

    /// Binds `name`, if it is not bound already.
    pub fn insert(&mut self, name: String)
        ensures
            final(self)@ == old(self)@.insert(name@),
    {
        proof {
            use_type_invariant(&*self);
        }
        if !self.contains(&name) {
            let ghost before = self.names.deep_view();
            let mut names: Vec<String> = Vec::new();
            core::mem::swap(&mut self.names, &mut names);
            names.push(name);
            assert(names.deep_view() =~= before.push(name@));
            self.names = names;
            proof {
                before.lemma_push_to_set_commute(name@);
            }
        }
    }
}

/// The global constant named `name`, if there is one.
pub open spec fn global_constant(name: Seq<char>) -> Option<Constant> {
    if name == "e"@ {
        Some(Constant::E)
    } else if name == "pi"@ {
        Some(Constant::Pi)
    } else {
        None
    }
}

/// The built-in function named `name` that takes `count` arguments, if
/// there is one. The table is `sin/1`, `cos/1`, `pow/2`, `ln/1`.
pub open spec fn builtin(name: Seq<char>, count: nat) -> Option<Function> {
    if name == "sin"@ && count == 1 {
        Some(Function::Sin)
    } else if name == "cos"@ && count == 1 {
        Some(Function::Cos)
    } else if name == "pow"@ && count == 2 {
        Some(Function::Pow)
    } else if name == "ln"@ && count == 1 {
        Some(Function::Ln)
    } else {
        None
    }
}

/// What evaluating a tree comes to: the steps to carry out, the names bound
/// once they are carried out, and the failure that stopped the evaluation,
/// if one did. After a failure the steps are those that precede it.
pub struct Outcome {
    pub steps: Seq<Action>,
    pub bound: Set<Seq<char>>,
    pub failure: Option<Failure>,
}

impl Outcome {
    /// Nothing done yet, with `bound` bound.
    pub open spec fn start(bound: Set<Seq<char>>) -> Outcome {
        Outcome { steps: Seq::empty(), bound, failure: None }
    }

    /// A failure before any step.
    pub open spec fn fail(bound: Set<Seq<char>>, failure: Failure) -> Outcome {
        Outcome { steps: Seq::empty(), bound, failure: Some(failure) }
    }

    /// This outcome followed by `actions`, unless it failed.
    pub open spec fn and(self, actions: Seq<Action>) -> Outcome {
        if self.failure is Some {
            self
        } else {
            Outcome { steps: self.steps + actions, ..self }
        }
    }

    /// This outcome followed by `next`, which starts from the names this
    /// one has bound, unless this one failed.
    pub open spec fn followed_by(self, next: Outcome) -> Outcome {
        if self.failure is Some {
            self
        } else {
            Outcome { steps: self.steps + next.steps, bound: next.bound, failure: next.failure }
        }
    }
}

/// The evaluation of `tree` in a session where `bound` is bound.
///
/// Children are evaluated before the node, from left to right, and the
/// first failure ends the evaluation. A name is looked up among the global
/// constants first, then among the bound names. A call is resolved by its
/// name together with the number of its arguments, before any argument is
/// evaluated. `Let` binds its name to the value of its child, which is also
/// its own value. A chain has the value of its last statement, or zero if
/// it is empty.
pub open spec fn evaluation(tree: Expr, bound: Set<Seq<char>>) -> Outcome
    decreases tree, 0nat,
{
    match tree {
        Expr::Add(left, right) => {
            let first = evaluation(*left, bound);
            first.followed_by(evaluation(*right, first.bound)).and(
                seq![Action::Binary(Operator::Add)],
            )
        },
        Expr::Subtract(left, right) => {
            let first = evaluation(*left, bound);
            first.followed_by(evaluation(*right, first.bound)).and(
                seq![Action::Binary(Operator::Subtract)],
            )
        },
        Expr::Multiply(left, right) => {
            let first = evaluation(*left, bound);
            first.followed_by(evaluation(*right, first.bound)).and(
                seq![Action::Binary(Operator::Multiply)],
            )
        },
        Expr::Divide(left, right) => {
            let first = evaluation(*left, bound);
            first.followed_by(evaluation(*right, first.bound)).and(
                seq![Action::Binary(Operator::Divide)],
            )
        },
        Expr::Negate(inner) => evaluation(*inner, bound).and(seq![Action::Negate]),
        Expr::Call(name, arguments) => match builtin(name, arguments.len()) {
            Some(function) => evaluation_each(
                arguments,
                arguments.len(),
                Seq::empty(),
                bound,
            ).and(seq![Action::Apply(function)]),
            None => Outcome::fail(bound, Failure::UnknownFunction(name, arguments.len())),
        },
        Expr::Number(text) => Outcome::start(bound).and(seq![Action::Number(text)]),
        Expr::Identifier(name) => match global_constant(name) {
            Some(constant) => Outcome::start(bound).and(seq![Action::Constant(constant)]),
            None => if bound.contains(name) {
                Outcome::start(bound).and(seq![Action::Load(name)])
            } else {
                Outcome::fail(bound, Failure::UnknownIdentifier(name))
            },
        },
        Expr::Let(name, value) => {
            let inner = evaluation(*value, bound);
            inner.followed_by(Outcome::start(inner.bound.insert(name))).and(
                seq![Action::Store(name)],
            )
        },
        Expr::Chain(statements) => Outcome::start(bound).and(seq![Action::Zero]).followed_by(
            evaluation_each(statements, statements.len(), seq![Action::Discard], bound),
        ),
    }
}

/// The evaluation of the first `count` of `trees`, one after the other,
/// with the steps `lead` before each.
pub open spec fn evaluation_each(
    trees: Seq<Expr>,
    count: nat,
    lead: Seq<Action>,
    bound: Set<Seq<char>>,
) -> Outcome
    decreases trees, count,
{
    if 0 < count <= trees.len() {
        let before = evaluation_each(trees, (count - 1) as nat, lead, bound);
        before.and(lead).followed_by(evaluation(trees[count - 1], before.bound))
    } else {
        Outcome::start(bound)
    }
}

/// Once the evaluation of a list has failed, further trees change nothing.
pub proof fn lemma_failure_ends_list(
    trees: Seq<Expr>,
    failed: nat,
    count: nat,
    lead: Seq<Action>,
    bound: Set<Seq<char>>,
)
    requires
        failed <= count <= trees.len(),
        evaluation_each(trees, failed, lead, bound).failure is Some,
    ensures
        evaluation_each(trees, count, lead, bound) == evaluation_each(trees, failed, lead, bound),
    decreases count,
{
    if failed < count {
        lemma_failure_ends_list(trees, failed, (count - 1) as nat, lead, bound);
    }
}

/// The failure that an error stands for, if the outcome is one.
pub open spec fn failure_of<T>(outcome: Result<T, EvaluationError>) -> Option<Failure> {
    match outcome {
        Ok(_) => None,
        Err(error) => Some(error@),
    }
}

/// Whether `text` reads `literal`.
fn reads(text: &String, literal: &str) -> (same: bool)
    ensures
        same == (text@ == literal@),
{
    *text == String::from_str(literal)
}

/// Looks `id` up among the global constants `e` and `pi`.
pub fn evaluate_global_constant(id: &String) -> (constant: Option<Constant>)
    ensures
        constant == global_constant(id@),
{
    if reads(id, "e") {
        Some(Constant::E)
    } else if reads(id, "pi") {
        Some(Constant::Pi)
    } else {
        None
    }
}

/// Looks up the built-in function named `id` that takes `count` arguments.
pub fn builtin_function(id: &String, count: usize) -> (function: Option<Function>)
    ensures
        function == builtin(id@, count as nat),
{
    if reads(id, "sin") && count == 1 {
        Some(Function::Sin)
    } else if reads(id, "cos") && count == 1 {
        Some(Function::Cos)
    } else if reads(id, "pow") && count == 2 {
        Some(Function::Pow)
    } else if reads(id, "ln") && count == 1 {
        Some(Function::Ln)
    } else {
        None
    }
}

/// Appends one step.
fn emit(steps: &mut Vec<Step>, step: Step)
    ensures
        final(steps).deep_view() == old(steps).deep_view() + seq![step@],
{
    steps.push(step);
}

/// The steps that precede each tree of a list: one that drops the value of
/// the tree before, between the statements of a chain, and none between
/// the arguments of a call.
pub open spec fn lead(discard: bool) -> Seq<Action> {
    if discard {
        seq![Action::Discard]
    } else {
        Seq::empty()
    }
}

/// Evaluates `trees` one after the other, up to the first that fails. With
/// `discard`, the value of each tree is dropped before the next is
/// evaluated.
fn evaluate_each(
    trees: &Vec<AST>,
    discard: bool,
    variables: &mut Environment,
    steps: &mut Vec<Step>,
) -> (outcome: Result<(), EvaluationError>)
    ensures
        final(steps).deep_view() == old(steps).deep_view() + evaluation_each(
            AST::models(trees@),
            trees.len() as nat,
            lead(discard),
            old(variables)@,
        ).steps,
        final(variables)@ == evaluation_each(
            AST::models(trees@),
            trees.len() as nat,
            lead(discard),
            old(variables)@,
        ).bound,
        failure_of(outcome) == evaluation_each(
            AST::models(trees@),
            trees.len() as nat,
            lead(discard),
            old(variables)@,
        ).failure,
    decreases trees, 0nat,
{
    let ghost models = AST::models(trees@);
    let ghost start = old(steps).deep_view();
    let ghost bound = old(variables)@;
    let mut i: usize = 0;
    while i < trees.len()
        invariant
            i <= trees.len(),
            models == AST::models(trees@),
            start == old(steps).deep_view(),
            bound == old(variables)@,
            evaluation_each(models, i as nat, lead(discard), bound).failure is None,
            steps.deep_view() == start + evaluation_each(
                models,
                i as nat,
                lead(discard),
                bound,
            ).steps,
            variables@ == evaluation_each(models, i as nat, lead(discard), bound).bound,
        decreases trees.len() - i,
    {
        if discard {
            emit(steps, Step::Discard);
        }
        let outcome = evaluate(&trees[i], variables, steps);
        if let Err(error) = outcome {
            proof {
                lemma_failure_ends_list(
                    models,
                    (i + 1) as nat,
                    trees.len() as nat,
                    lead(discard),
                    bound,
                );
            }
            return Err(error);
        }
        i += 1;
    }
    Ok(())
}

/// Evaluates the call of `id` on `params`.
///
/// Where no built-in function has that name and number of arguments the
/// result is `Ok(None)` and nothing is changed. Otherwise the arguments are
/// evaluated from left to right and the function is applied to them; the
/// result is the function, or the error of the first argument that fails.
pub fn evaluate_function_call(
    id: &String,
    params: &Vec<AST>,
    variables: &mut Environment,
    steps: &mut Vec<Step>,
) -> (outcome: Result<Option<Function>, EvaluationError>)
    ensures
        match builtin(id@, params.len() as nat) {
            Some(function) => {
                let applied = evaluation_each(
                    AST::models(params@),
                    params.len() as nat,
                    Seq::empty(),
                    old(variables)@,
                ).and(seq![Action::Apply(function)]);
                &&& final(steps).deep_view() == old(steps).deep_view() + applied.steps
                &&& final(variables)@ == applied.bound
                &&& failure_of(outcome) == applied.failure
                &&& outcome is Ok ==> outcome == Ok::<Option<Function>, EvaluationError>(
                    Some(function),
                )
            },
            None => {
                &&& outcome == Ok::<Option<Function>, EvaluationError>(None)
                &&& final(steps).deep_view() == old(steps).deep_view()
                &&& final(variables)@ == old(variables)@
            },
        },
    decreases params, 1nat,
{
    let function = match builtin_function(id, params.len()) {
        Some(function) => function,
        None => {
            return Ok(None);
        },
    };
    match evaluate_each(params, false, variables, steps) {
        Ok(_) => {},
        Err(error) => {
            return Err(error);
        },
    }
    emit(steps, Step::Apply(function));
    Ok(Some(function))
}

/// Evaluates `tree` in the session `variables`: appends to `steps` what is
/// to be carried out, binds in `variables` the names that `Let` assigns,
/// and fails at the first name or call that does not resolve. What was
/// appended and bound before a failure stays.
pub fn evaluate(tree: &AST, variables: &mut Environment, steps: &mut Vec<Step>) -> (outcome:
    Result<(), EvaluationError>)
    ensures
        final(steps).deep_view() == old(steps).deep_view() + evaluation(
            tree@,
            old(variables)@,
        ).steps,
        final(variables)@ == evaluation(tree@, old(variables)@).bound,
        failure_of(outcome) == evaluation(tree@, old(variables)@).failure,
    decreases tree, 0nat,
{
    match tree {
        AST::Add(left, right) => {
            let ghost first = evaluation(left.model(), old(variables)@);
            let ghost second = evaluation(right.model(), first.bound);
            match evaluate(left, variables, steps) {
                Ok(_) => {},
                Err(error) => {
                    return Err(error);
                },
            }
            match evaluate(right, variables, steps) {
                Ok(_) => {},
                Err(error) => {
                    return Err(error);
                },
            }
            emit(steps, Step::Binary(Operator::Add));
            Ok(())
        },
        AST::Subtract(left, right) => {
            let ghost first = evaluation(left.model(), old(variables)@);
            let ghost second = evaluation(right.model(), first.bound);
            match evaluate(left, variables, steps) {
                Ok(_) => {},
                Err(error) => {
                    return Err(error);
                },
            }
            match evaluate(right, variables, steps) {
                Ok(_) => {},
                Err(error) => {
                    return Err(error);
                },
            }
            emit(steps, Step::Binary(Operator::Subtract));
            Ok(())
        },
        AST::Multiply(left, right) => {
            let ghost first = evaluation(left.model(), old(variables)@);
            let ghost second = evaluation(right.model(), first.bound);
            match evaluate(left, variables, steps) {
                Ok(_) => {},
                Err(error) => {
                    return Err(error);
                },
            }
            match evaluate(right, variables, steps) {
                Ok(_) => {},
                Err(error) => {
                    return Err(error);
                },
            }
            emit(steps, Step::Binary(Operator::Multiply));
            Ok(())
        },
        AST::Divide(left, right) => {
            let ghost first = evaluation(left.model(), old(variables)@);
            let ghost second = evaluation(right.model(), first.bound);
            match evaluate(left, variables, steps) {
                Ok(_) => {},
                Err(error) => {
                    return Err(error);
                },
            }
            match evaluate(right, variables, steps) {
                Ok(_) => {},
                Err(error) => {
                    return Err(error);
                },
            }
            emit(steps, Step::Binary(Operator::Divide));
            Ok(())
        },
        AST::Negate(inner) => {
            match evaluate(inner, variables, steps) {
                Ok(_) => {},
                Err(error) => {
                    return Err(error);
                },
            }
            emit(steps, Step::Negate);
            Ok(())
        },
        AST::Number(literal) => {
            emit(steps, Step::Number(literal.clone()));
            Ok(())
        },
        AST::Identifier(id) => {
            match evaluate_global_constant(id) {
                Some(constant) => {
                    emit(steps, Step::Constant(constant));
                    Ok(())
                },
                None => {
                    if variables.contains(id) {
                        emit(steps, Step::Load(id.clone()));
                        Ok(())
                    } else {
                        Err(EvaluationError::UnknownIdentifier(id.clone()))
                    }
                },
            }
        },
        AST::Call(id, params) => {
            match evaluate_function_call(id, params, variables, steps) {
                Ok(Some(_)) => Ok(()),
                Ok(None) => Err(EvaluationError::UnknownFunction(id.clone(), params.len())),
                Err(error) => Err(error),
            }
        },
        AST::Let(name, value) => {
            match evaluate(value, variables, steps) {
                Ok(_) => {},
                Err(error) => {
                    return Err(error);
                },
            }
            variables.insert(name.clone());
            emit(steps, Step::Store(name.clone()));
            Ok(())
        },
        AST::Chain(statements) => {
            emit(steps, Step::Zero);
            let outcome = evaluate_each(statements, true, variables, steps);
            outcome
        },
    }
}

} // verus!
