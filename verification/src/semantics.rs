//! What evaluation means: the value of a tree as the arithmetic that
//! produces it, and the proof that carrying out the steps of an evaluation
//! computes exactly that value.
//!
//! A [`Term`] stands for a number without computing it: a literal, a
//! constant, or an operation on terms. [`value`] gives each tree its term
//! under the terms bound to the names of a session, by the rules of the
//! language alone. [`run`] carries steps out on a stack of terms.
//! [`theorem_steps_compute_value`] joins the two.

use crate::backend::{
    builtin, evaluation, evaluation_each, global_constant, Action, Constant, Failure, Function,
    Operator, Outcome,
};
use crate::grammar::{additive, multiplicative, parsed, unary, Expr};
use crate::precedence::{binary_node, theorem_products_fold_left, theorem_sums_fold_left};
use crate::tokenizer::Lexeme;
use vstd::prelude::*;

verus! {

/// A number, written as the arithmetic that produces it.
pub enum Term {
    /// The number that a decimal literal denotes.
    Literal(Seq<char>),
    /// A global constant.
    Constant(Constant),
    /// Zero.
    Zero,
    /// The result of a binary operation on two numbers.
    Binary(Operator, Box<Term>, Box<Term>),
    /// The negation of a number.
    Negate(Box<Term>),
    /// The result of a built-in function on its arguments, in order.
    Apply(Function, Seq<Term>),
}

/// The number bound to each name of a session.
pub type Bindings = Map<Seq<char>, Term>;

/// The value of a tree, or the failure that ended its evaluation, with the
/// bindings as the evaluation left them.
pub struct Valued {
    pub value: Result<Term, Failure>,
    pub bindings: Bindings,
}

/// The values of a list of trees, or the failure that ended its
/// evaluation, with the bindings as the evaluation left them.
pub struct ValuedList {
    pub values: Result<Seq<Term>, Failure>,
    pub bindings: Bindings,
}

impl Valued {
    /// A value that leaves the bindings as they are.
    pub open spec fn of(term: Term, bindings: Bindings) -> Valued {
        Valued { value: Ok(term), bindings }
    }

    /// A failure that leaves the bindings as they are.
    pub open spec fn fail(failure: Failure, bindings: Bindings) -> Valued {
        Valued { value: Err(failure), bindings }
    }

    /// The operation on this value and `right`, which was evaluated under
    /// the bindings that this one left. The first failure wins.
    pub open spec fn binary(self, operator: Operator, right: Valued) -> Valued {
        match self.value {
            Ok(a) => match right.value {
                Ok(b) => Valued::of(
                    Term::Binary(operator, Box::new(a), Box::new(b)),
                    right.bindings,
                ),
                Err(_) => right,
            },
            Err(_) => self,
        }
    }
}

/// The value of `tree` under `bindings`.
///
/// Operands are evaluated from left to right, each under the bindings
/// that the one before left, and the first failure ends the evaluation. A
/// name is a global constant if there is one of that name, else the number
/// bound to it, else a failure. A call whose name and number of arguments
/// match no built-in function is a failure, and none of its arguments is
/// evaluated. `Let` binds its name to the value of its child and has that
/// value. A chain has the value of its last statement, or zero if it is
/// empty.
pub open spec fn value(tree: Expr, bindings: Bindings) -> Valued
    decreases tree, 0nat,
{
    match tree {
        Expr::Add(left, right) => {
            let first = value(*left, bindings);
            first.binary(Operator::Add, value(*right, first.bindings))
        },
        Expr::Subtract(left, right) => {
            let first = value(*left, bindings);
            first.binary(Operator::Subtract, value(*right, first.bindings))
        },
        Expr::Multiply(left, right) => {
            let first = value(*left, bindings);
            first.binary(Operator::Multiply, value(*right, first.bindings))
        },
        Expr::Divide(left, right) => {
            let first = value(*left, bindings);
            first.binary(Operator::Divide, value(*right, first.bindings))
        },
        Expr::Negate(inner) => {
            let operand = value(*inner, bindings);
            match operand.value {
                Ok(term) => Valued::of(Term::Negate(Box::new(term)), operand.bindings),
                Err(_) => operand,
            }
        },
        Expr::Call(name, arguments) => match builtin(name, arguments.len()) {
            Some(function) => {
                let list = values(arguments, arguments.len(), bindings);
                match list.values {
                    Ok(terms) => Valued::of(Term::Apply(function, terms), list.bindings),
                    Err(failure) => Valued::fail(failure, list.bindings),
                }
            },
            None => Valued::fail(Failure::UnknownFunction(name, arguments.len()), bindings),
        },
        Expr::Number(text) => Valued::of(Term::Literal(text), bindings),
        Expr::Identifier(name) => match global_constant(name) {
            Some(constant) => Valued::of(Term::Constant(constant), bindings),
            None => if bindings.dom().contains(name) {
                Valued::of(bindings[name], bindings)
            } else {
                Valued::fail(Failure::UnknownIdentifier(name), bindings)
            },
        },
        Expr::Let(name, child) => {
            let assigned = value(*child, bindings);
            match assigned.value {
                Ok(term) => Valued::of(term, assigned.bindings.insert(name, term)),
                Err(_) => assigned,
            }
        },
        Expr::Chain(statements) => {
            let list = values(statements, statements.len(), bindings);
            match list.values {
                Ok(terms) => Valued::of(
                    if terms.len() == 0 {
                        Term::Zero
                    } else {
                        terms.last()
                    },
                    list.bindings,
                ),
                Err(failure) => Valued::fail(failure, list.bindings),
            }
        },
    }
}

/// The values of the first `count` of `trees`, each evaluated under the
/// bindings that the one before left, up to the first failure.
pub open spec fn values(trees: Seq<Expr>, count: nat, bindings: Bindings) -> ValuedList
    decreases trees, count,
{
    if 0 < count <= trees.len() {
        let before = values(trees, (count - 1) as nat, bindings);
        match before.values {
            Ok(terms) => {
                let next = value(trees[count - 1], before.bindings);
                match next.value {
                    Ok(term) => ValuedList {
                        values: Ok(terms.push(term)),
                        bindings: next.bindings,
                    },
                    Err(failure) => ValuedList { values: Err(failure), bindings: next.bindings },
                }
            },
            Err(_) => before,
        }
    } else {
        ValuedList { values: Ok(Seq::empty()), bindings }
    }
}

/// A stack of numbers and the bindings of a session.
pub struct Machine {
    pub stack: Seq<Term>,
    pub bindings: Bindings,
}

impl Machine {
    /// The machine with `term` pushed.
    pub open spec fn push(self, term: Term) -> Machine {
        Machine { stack: self.stack.push(term), ..self }
    }

    /// The machine with its `count` topmost numbers replaced by `term`.
    pub open spec fn replace(self, count: nat, term: Term) -> Machine {
        Machine { stack: self.stack.take(self.stack.len() - count).push(term), ..self }
    }

    /// The `count` topmost numbers, in the order they were pushed.
    pub open spec fn top(self, count: nat) -> Seq<Term> {
        self.stack.skip(self.stack.len() - count)
    }
}

/// The machine after one step, or `None` where the step cannot be carried
/// out: the stack holds too few numbers, or the name to read is not bound.
pub open spec fn perform(action: Action, machine: Machine) -> Option<Machine> {
    let depth = machine.stack.len();
    match action {
        Action::Number(text) => Some(machine.push(Term::Literal(text))),
        Action::Constant(constant) => Some(machine.push(Term::Constant(constant))),
        Action::Zero => Some(machine.push(Term::Zero)),
        Action::Load(name) => if machine.bindings.dom().contains(name) {
            Some(machine.push(machine.bindings[name]))
        } else {
            None
        },
        Action::Store(name) => if depth >= 1 {
            Some(
                Machine {
                    bindings: machine.bindings.insert(name, machine.stack.last()),
                    ..machine
                },
            )
        } else {
            None
        },
        Action::Binary(operator) => if depth >= 2 {
            Some(
                machine.replace(
                    2,
                    Term::Binary(
                        operator,
                        Box::new(machine.stack[depth - 2]),
                        Box::new(machine.stack[depth - 1]),
                    ),
                ),
            )
        } else {
            None
        },
        Action::Negate => if depth >= 1 {
            Some(machine.replace(1, Term::Negate(Box::new(machine.stack.last()))))
        } else {
            None
        },
        Action::Apply(function) => if depth >= function.arity() {
            Some(
                machine.replace(
                    function.arity(),
                    Term::Apply(function, machine.top(function.arity())),
                ),
            )
        } else {
            None
        },
        Action::Discard => if depth >= 1 {
            Some(Machine { stack: machine.stack.drop_last(), ..machine })
        } else {
            None
        },
    }
}

/// The machine after `steps`, carried out in order, or `None` where one of
/// them cannot be carried out.
pub open spec fn run(steps: Seq<Action>, machine: Machine) -> Option<Machine>
    decreases steps.len(),
{
    if steps.len() == 0 {
        Some(machine)
    } else {
        match perform(steps[0], machine) {
            Some(next) => run(steps.skip(1), next),
            None => None,
        }
    }
}

/// Carrying out `first + second` is carrying out `first` and then `second`.
pub proof fn lemma_run_in_sequence(first: Seq<Action>, second: Seq<Action>, machine: Machine)
    ensures
        run(first + second, machine) == match run(first, machine) {
            Some(middle) => run(second, middle),
            None => None,
        },
    decreases first.len(),
{
    if first.len() > 0 {
        assert((first + second).skip(1) =~= first.skip(1) + second);
        if let Some(next) = perform(first[0], machine) {
            lemma_run_in_sequence(first.skip(1), second, next);
        }
    }
}

/// Carrying out a single step.
pub proof fn lemma_run_one(action: Action, machine: Machine)
    ensures
        run(seq![action], machine) == perform(action, machine),
{
    let steps = seq![action];
    if let Some(next) = perform(action, machine) {
        assert(run(steps.skip(1), next) == Some(next));
    }
}

/// Whether carrying out the steps of `outcome` on `machine` gives what
/// `valued` says: the same names end up bound, to the same numbers; where
/// there is a value, it is pushed on the stack and nothing else has
/// changed there; where there is a failure, it is the same one, and the
/// steps before it can all be carried out.
pub open spec fn computes(outcome: Outcome, machine: Machine, valued: Valued) -> bool {
    &&& outcome.bound == valued.bindings.dom()
    &&& match valued.value {
        Ok(term) => {
            &&& outcome.failure is None
            &&& run(outcome.steps, machine) == Some(
                Machine { stack: machine.stack.push(term), bindings: valued.bindings },
            )
        },
        Err(failure) => {
            &&& outcome.failure == Some(failure)
            &&& run(outcome.steps, machine) matches Some(end) && end.bindings == valued.bindings
        },
    }
}

/// As [`computes`], for the arguments of a call: their values are pushed
/// in order.
pub open spec fn computes_arguments(outcome: Outcome, machine: Machine, list: ValuedList) -> bool {
    &&& outcome.bound == list.bindings.dom()
    &&& match list.values {
        Ok(terms) => {
            &&& outcome.failure is None
            &&& run(outcome.steps, machine) == Some(
                Machine { stack: machine.stack + terms, bindings: list.bindings },
            )
        },
        Err(failure) => {
            &&& outcome.failure == Some(failure)
            &&& run(outcome.steps, machine) matches Some(end) && end.bindings == list.bindings
        },
    }
}

/// As [`computes`], for the statements of a chain: the value of the last
/// one takes the place of the number on top of the stack.
pub open spec fn computes_statements(outcome: Outcome, machine: Machine, list: ValuedList) -> bool {
    &&& outcome.bound == list.bindings.dom()
    &&& match list.values {
        Ok(terms) => {
            &&& outcome.failure is None
            &&& run(outcome.steps, machine) == Some(
                Machine {
                    stack: machine.stack.drop_last().push(
                        if terms.len() == 0 {
                            machine.stack.last()
                        } else {
                            terms.last()
                        },
                    ),
                    bindings: list.bindings,
                },
            )
        },
        Err(failure) => {
            &&& outcome.failure == Some(failure)
            &&& run(outcome.steps, machine) matches Some(end) && end.bindings == list.bindings
        },
    }
}

/// The steps of an evaluation compute the value of the tree.
///
/// Take any tree, and any machine whose bindings are those of the session.
/// The evaluation of the tree fails exactly where the tree has no value,
/// and with the same failure. Its steps can all be carried out on the
/// machine, whatever its stack holds. They leave the bindings as the rules of the
/// language say, also after a failure. And where the tree has a value,
/// they leave that value on top of the stack as it was.
pub proof fn theorem_steps_compute_value(tree: Expr, machine: Machine)
    ensures
        computes(
            evaluation(tree, machine.bindings.dom()),
            machine,
            value(tree, machine.bindings),
        ),
    decreases tree, 0nat,
{
    let bound = machine.bindings.dom();
    match tree {
        Expr::Add(left, right) => {
            theorem_steps_compute_value(*left, machine);
            let first = value(*left, machine.bindings);
            if let Ok(a) = first.value {
                theorem_steps_compute_value(
                    *right,
                    Machine { stack: machine.stack.push(a), bindings: first.bindings },
                );
            }
            lemma_binary_computes(
                evaluation(*left, bound),
                evaluation(*right, evaluation(*left, bound).bound),
                first,
                value(*right, first.bindings),
                Operator::Add,
                machine,
            );
        },
        Expr::Subtract(left, right) => {
            theorem_steps_compute_value(*left, machine);
            let first = value(*left, machine.bindings);
            if let Ok(a) = first.value {
                theorem_steps_compute_value(
                    *right,
                    Machine { stack: machine.stack.push(a), bindings: first.bindings },
                );
            }
            lemma_binary_computes(
                evaluation(*left, bound),
                evaluation(*right, evaluation(*left, bound).bound),
                first,
                value(*right, first.bindings),
                Operator::Subtract,
                machine,
            );
        },
        Expr::Multiply(left, right) => {
            theorem_steps_compute_value(*left, machine);
            let first = value(*left, machine.bindings);
            if let Ok(a) = first.value {
                theorem_steps_compute_value(
                    *right,
                    Machine { stack: machine.stack.push(a), bindings: first.bindings },
                );
            }
            lemma_binary_computes(
                evaluation(*left, bound),
                evaluation(*right, evaluation(*left, bound).bound),
                first,
                value(*right, first.bindings),
                Operator::Multiply,
                machine,
            );
        },
        Expr::Divide(left, right) => {
            theorem_steps_compute_value(*left, machine);
            let first = value(*left, machine.bindings);
            if let Ok(a) = first.value {
                theorem_steps_compute_value(
                    *right,
                    Machine { stack: machine.stack.push(a), bindings: first.bindings },
                );
            }
            lemma_binary_computes(
                evaluation(*left, bound),
                evaluation(*right, evaluation(*left, bound).bound),
                first,
                value(*right, first.bindings),
                Operator::Divide,
                machine,
            );
        },
        Expr::Negate(inner) => {
            theorem_steps_compute_value(*inner, machine);
            let operand = value(*inner, machine.bindings);
            let steps = evaluation(*inner, bound).steps;
            if let Ok(term) = operand.value {
                let middle = Machine {
                    stack: machine.stack.push(term),
                    bindings: operand.bindings,
                };
                lemma_run_in_sequence(steps, seq![Action::Negate], machine);
                lemma_run_one(Action::Negate, middle);
                assert(middle.stack.take(middle.stack.len() - 1) =~= machine.stack);
            }
        },
        Expr::Call(name, arguments) => {
            if let Some(function) = builtin(name, arguments.len()) {
                lemma_arguments_compute(arguments, arguments.len(), machine);
                let list = values(arguments, arguments.len(), machine.bindings);
                let steps = evaluation_each(arguments, arguments.len(), Seq::empty(), bound).steps;
                if let Ok(terms) = list.values {
                    lemma_values_count(arguments, arguments.len(), machine.bindings);
                    let middle = Machine { stack: machine.stack + terms, bindings: list.bindings };
                    lemma_run_in_sequence(steps, seq![Action::Apply(function)], machine);
                    lemma_run_one(Action::Apply(function), middle);
                    assert(middle.top(function.arity()) =~= terms);
                    assert(middle.stack.take(middle.stack.len() - function.arity())
                        =~= machine.stack);
                }
            }
        },
        Expr::Number(text) => {
            lemma_run_one(Action::Number(text), machine);
        },
        Expr::Identifier(name) => {
            match global_constant(name) {
                Some(constant) => {
                    lemma_run_one(Action::Constant(constant), machine);
                },
                None => {
                    if bound.contains(name) {
                        lemma_run_one(Action::Load(name), machine);
                    }
                },
            }
        },
        Expr::Let(name, child) => {
            theorem_steps_compute_value(*child, machine);
            let assigned = value(*child, machine.bindings);
            let inner = evaluation(*child, bound);
            if let Ok(term) = assigned.value {
                let middle = Machine {
                    stack: machine.stack.push(term),
                    bindings: assigned.bindings,
                };
                lemma_run_in_sequence(inner.steps, seq![Action::Store(name)], machine);
                lemma_run_one(Action::Store(name), middle);
            }
        },
        Expr::Chain(statements) => {
            let zero = machine.push(Term::Zero);
            lemma_statements_compute(statements, statements.len(), zero);
            let each = evaluation_each(statements, statements.len(), seq![Action::Discard], bound);
            lemma_run_in_sequence(seq![Action::Zero], each.steps, machine);
            lemma_run_one(Action::Zero, machine);
            assert(zero.stack.drop_last() =~= machine.stack);
        },
    }
}

/// The step of a binary operation after the steps of its operands computes
/// the operation on their values.
proof fn lemma_binary_computes(
    first: Outcome,
    second: Outcome,
    left: Valued,
    right: Valued,
    operator: Operator,
    machine: Machine,
)
    requires
        computes(first, machine, left),
        left.value matches Ok(a) ==> computes(
            second,
            Machine { stack: machine.stack.push(a), bindings: left.bindings },
            right,
        ),
    ensures
        computes(
            first.followed_by(second).and(seq![Action::Binary(operator)]),
            machine,
            left.binary(operator, right),
        ),
{
    if let Ok(a) = left.value {
        let one = Machine { stack: machine.stack.push(a), bindings: left.bindings };
        lemma_run_in_sequence(first.steps, second.steps, machine);
        if let Ok(b) = right.value {
            let two = Machine { stack: one.stack.push(b), bindings: right.bindings };
            lemma_run_in_sequence(
                first.steps + second.steps,
                seq![Action::Binary(operator)],
                machine,
            );
            lemma_run_one(Action::Binary(operator), two);
            assert(two.stack.take(two.stack.len() - 2) =~= machine.stack);
        }
    }
}

/// A list that has values has one for each tree.
pub proof fn lemma_values_count(trees: Seq<Expr>, count: nat, bindings: Bindings)
    requires
        count <= trees.len(),
    ensures
        values(trees, count, bindings).values matches Ok(terms) ==> terms.len() == count,
    decreases count,
{
    if count > 0 {
        lemma_values_count(trees, (count - 1) as nat, bindings);
    }
}

/// The steps of the arguments of a call compute their values, in order.
proof fn lemma_arguments_compute(trees: Seq<Expr>, count: nat, machine: Machine)
    ensures
        computes_arguments(
            evaluation_each(trees, count, Seq::empty(), machine.bindings.dom()),
            machine,
            values(trees, count, machine.bindings),
        ),
    decreases trees, count,
{
    let bound = machine.bindings.dom();
    if 0 < count <= trees.len() {
        let fewer = (count - 1) as nat;
        lemma_arguments_compute(trees, fewer, machine);
        let before = evaluation_each(trees, fewer, Seq::empty(), bound);
        let list = values(trees, fewer, machine.bindings);
        if let Ok(terms) = list.values {
            let middle = Machine { stack: machine.stack + terms, bindings: list.bindings };
            theorem_steps_compute_value(trees[count - 1], middle);
            let next = evaluation(trees[count - 1], before.bound);
            lemma_run_in_sequence(before.steps, next.steps, machine);
        }
    }
}

/// The steps of the statements of a chain compute the value of the last
/// one in place of the number on top of the stack.
proof fn lemma_statements_compute(trees: Seq<Expr>, count: nat, machine: Machine)
    requires
        machine.stack.len() > 0,
    ensures
        computes_statements(
            evaluation_each(trees, count, seq![Action::Discard], machine.bindings.dom()),
            machine,
            values(trees, count, machine.bindings),
        ),
    decreases trees, count,
{
    let bound = machine.bindings.dom();
    let lead = seq![Action::Discard];
    let base = machine.stack.drop_last();
    if 0 < count <= trees.len() {
        let fewer = (count - 1) as nat;
        lemma_statements_compute(trees, fewer, machine);
        let before = evaluation_each(trees, fewer, lead, bound);
        let list = values(trees, fewer, machine.bindings);
        if let Ok(terms) = list.values {
            let top = if terms.len() == 0 {
                machine.stack.last()
            } else {
                terms.last()
            };
            let middle = Machine { stack: base.push(top), bindings: list.bindings };
            let dropped = Machine { stack: base, bindings: list.bindings };
            theorem_steps_compute_value(trees[count - 1], dropped);
            let next = evaluation(trees[count - 1], before.bound);
            lemma_run_in_sequence(before.steps, lead, machine);
            lemma_run_one(Action::Discard, middle);
            assert(middle.stack.drop_last() =~= base);
            lemma_run_in_sequence(before.steps + lead, next.steps, machine);
        }
    } else {
        assert(base.push(machine.stack.last()) =~= machine.stack);
    }
}

/// The values of the first trees of a list do not depend on the trees
/// after them.
pub proof fn lemma_values_of_prefix(
    trees: Seq<Expr>,
    others: Seq<Expr>,
    count: nat,
    bindings: Bindings,
)
    requires
        count <= trees.len(),
        count <= others.len(),
        forall|i: int| 0 <= i < count ==> trees[i] == others[i],
    ensures
        values(trees, count, bindings) == values(others, count, bindings),
    decreases count,
{
    if count > 0 {
        lemma_values_of_prefix(trees, others, (count - 1) as nat, bindings);
    }
}

/// Evaluation never unbinds a name.
pub proof fn lemma_bindings_grow(tree: Expr, bindings: Bindings)
    ensures
        bindings.dom().subset_of(value(tree, bindings).bindings.dom()),
    decreases tree, 0nat,
{
    match tree {
        Expr::Add(left, right)
        | Expr::Subtract(left, right)
        | Expr::Multiply(left, right)
        | Expr::Divide(left, right) => {
            lemma_bindings_grow(*left, bindings);
            lemma_bindings_grow(*right, value(*left, bindings).bindings);
        },
        Expr::Negate(inner) => {
            lemma_bindings_grow(*inner, bindings);
        },
        Expr::Call(_, arguments) => {
            lemma_list_bindings_grow(arguments, arguments.len(), bindings);
        },
        Expr::Number(_) => {},
        Expr::Identifier(_) => {},
        Expr::Let(_, child) => {
            lemma_bindings_grow(*child, bindings);
        },
        Expr::Chain(statements) => {
            lemma_list_bindings_grow(statements, statements.len(), bindings);
        },
    }
}

/// As [`lemma_bindings_grow`], for a list of trees.
pub proof fn lemma_list_bindings_grow(trees: Seq<Expr>, count: nat, bindings: Bindings)
    ensures
        bindings.dom().subset_of(values(trees, count, bindings).bindings.dom()),
    decreases trees, count,
{
    if 0 < count <= trees.len() {
        let before = values(trees, (count - 1) as nat, bindings);
        lemma_list_bindings_grow(trees, (count - 1) as nat, bindings);
        lemma_bindings_grow(trees[count - 1], before.bindings);
    }
}

/// The global constants resolve in every session, whatever is bound.
pub proof fn theorem_constants_resolve(machine: Machine)
    ensures
        evaluation(Expr::Identifier("e"@), machine.bindings.dom()) == (Outcome {
            steps: seq![Action::Constant(Constant::E)],
            bound: machine.bindings.dom(),
            failure: None,
        }),
        evaluation(Expr::Identifier("pi"@), machine.bindings.dom()) == (Outcome {
            steps: seq![Action::Constant(Constant::Pi)],
            bound: machine.bindings.dom(),
            failure: None,
        }),
        computes(
            evaluation(Expr::Identifier("e"@), machine.bindings.dom()),
            machine,
            Valued::of(Term::Constant(Constant::E), machine.bindings),
        ),
        computes(
            evaluation(Expr::Identifier("pi"@), machine.bindings.dom()),
            machine,
            Valued::of(Term::Constant(Constant::Pi), machine.bindings),
        ),
{
    reveal_strlit("e");
    reveal_strlit("pi");
    assert("e"@.len() != "pi"@.len());
    theorem_steps_compute_value(Expr::Identifier("e"@), machine);
    theorem_steps_compute_value(Expr::Identifier("pi"@), machine);
}

/// A name that is neither a global constant nor bound fails, and the
/// failure names it. Nothing is carried out and nothing is bound.
pub proof fn theorem_unbound_names_fail(name: Seq<char>, bound: Set<Seq<char>>)
    requires
        global_constant(name) is None,
        !bound.contains(name),
    ensures
        evaluation(Expr::Identifier(name), bound) == Outcome::fail(
            bound,
            Failure::UnknownIdentifier(name),
        ),
{
}

/// Built-in functions are found by their name and the exact number of
/// their arguments: `sin`, `cos` and `ln` with one, `pow` with two, and
/// nothing else.
pub proof fn theorem_builtin_table(name: Seq<char>, count: nat)
    ensures
        builtin(name, count) == Some(Function::Sin) <==> name == "sin"@ && count == 1,
        builtin(name, count) == Some(Function::Cos) <==> name == "cos"@ && count == 1,
        builtin(name, count) == Some(Function::Pow) <==> name == "pow"@ && count == 2,
        builtin(name, count) == Some(Function::Ln) <==> name == "ln"@ && count == 1,
        builtin(name, count) matches Some(function) ==> function.arity() == count,
{
    reveal_strlit("sin");
    reveal_strlit("cos");
    reveal_strlit("pow");
    reveal_strlit("ln");
    assert("sin"@[0] != "cos"@[0]);
}

/// A call whose name and number of arguments match no built-in function
/// fails, and the failure names the function and that number. None of the
/// arguments is evaluated: nothing is carried out and nothing is bound.
pub proof fn theorem_unknown_calls_fail(
    name: Seq<char>,
    arguments: Seq<Expr>,
    bound: Set<Seq<char>>,
)
    requires
        builtin(name, arguments.len()) is None,
    ensures
        evaluation(Expr::Call(name, arguments), bound) == Outcome::fail(
            bound,
            Failure::UnknownFunction(name, arguments.len()),
        ),
{
}

/// A call of a built-in function with the number of arguments that it
/// takes applies the function to the values of the arguments, in order.
/// The steps of the call compute that.
pub proof fn theorem_builtin_calls_apply(
    name: Seq<char>,
    arguments: Seq<Expr>,
    function: Function,
    machine: Machine,
)
    requires
        builtin(name, arguments.len()) == Some(function),
    ensures
        ({
            let list = values(arguments, arguments.len(), machine.bindings);
            let call = value(Expr::Call(name, arguments), machine.bindings);
            &&& call.bindings == list.bindings
            &&& call.value == match list.values {
                Ok(terms) => Ok::<Term, Failure>(Term::Apply(function, terms)),
                Err(failure) => Err::<Term, Failure>(failure),
            }
            &&& list.values matches Ok(terms) ==> terms.len() == function.arity()
            &&& computes(
                evaluation(Expr::Call(name, arguments), machine.bindings.dom()),
                machine,
                call,
            )
        }),
{
    lemma_values_count(arguments, arguments.len(), machine.bindings);
    theorem_steps_compute_value(Expr::Call(name, arguments), machine);
}

/// An assignment persists.
///
/// Take a name that is not a global constant, and a tree that has a
/// value. The steps of `let name = tree` compute that value and bind the
/// name to it. On every machine with the bindings that they leave,
/// whatever its stack holds, the steps of the name alone compute that
/// same value.
pub proof fn theorem_assignment_persists(name: Seq<char>, child: Expr, machine: Machine)
    requires
        global_constant(name) is None,
        value(child, machine.bindings).value is Ok,
    ensures
        ({
            let term = value(child, machine.bindings).value->Ok_0;
            let assigned = value(Expr::Let(name, Box::new(child)), machine.bindings);
            &&& assigned.value == Ok::<Term, Failure>(term)
            &&& assigned.bindings.dom().contains(name)
            &&& assigned.bindings[name] == term
            &&& computes(
                evaluation(Expr::Let(name, Box::new(child)), machine.bindings.dom()),
                machine,
                assigned,
            )
            &&& forall|later: Machine|
                later.bindings == assigned.bindings ==> computes(
                    #[trigger] evaluation(Expr::Identifier(name), later.bindings.dom()),
                    later,
                    Valued::of(term, later.bindings),
                )
        }),
{
    let assignment = Expr::Let(name, Box::new(child));
    let assigned = value(assignment, machine.bindings);
    let term = value(child, machine.bindings).value->Ok_0;
    theorem_steps_compute_value(assignment, machine);
    assert forall|later: Machine| later.bindings == assigned.bindings implies computes(
        #[trigger] evaluation(Expr::Identifier(name), later.bindings.dom()),
        later,
        Valued::of(term, later.bindings),
    ) by {
        theorem_steps_compute_value(Expr::Identifier(name), later);
    }
}

/// A chain has the value of its last statement.
///
/// The value of a chain of one or more statements is the value of the
/// last one under the bindings that the chain of the statements before it
/// leaves, unless one of those fails. The steps of the chain compute it.
pub proof fn theorem_chain_has_last_value(statements: Seq<Expr>, machine: Machine)
    requires
        statements.len() > 0,
    ensures
        ({
            let earlier = value(Expr::Chain(statements.drop_last()), machine.bindings);
            let whole = value(Expr::Chain(statements), machine.bindings);
            &&& whole == if earlier.value is Ok {
                value(statements.last(), earlier.bindings)
            } else {
                earlier
            }
            &&& computes(
                evaluation(Expr::Chain(statements), machine.bindings.dom()),
                machine,
                whole,
            )
        }),
{
    let fewer = (statements.len() - 1) as nat;
    let before = values(statements, fewer, machine.bindings);
    lemma_values_of_prefix(statements, statements.drop_last(), fewer, machine.bindings);
    lemma_values_count(statements, fewer, machine.bindings);
    if before.values is Ok {
        let last = value(statements.last(), before.bindings);
        assert(values(statements, statements.len(), machine.bindings).bindings == last.bindings);
    }
    theorem_steps_compute_value(Expr::Chain(statements), machine);
}

/// After a chain that has a value, every name that one of its statements
/// assigns is bound.
pub proof fn theorem_chain_binds_its_names(
    statements: Seq<Expr>,
    bindings: Bindings,
    index: int,
    name: Seq<char>,
    child: Expr,
)
    requires
        0 <= index < statements.len(),
        statements[index] == Expr::Let(name, Box::new(child)),
        value(Expr::Chain(statements), bindings).value is Ok,
    ensures
        value(Expr::Chain(statements), bindings).bindings.dom().contains(name),
{
    lemma_list_binds(statements, statements.len(), bindings, index, name, child);
}

/// A list that has values has bound every name that one of its first
/// trees assigns.
proof fn lemma_list_binds(
    trees: Seq<Expr>,
    count: nat,
    bindings: Bindings,
    index: int,
    name: Seq<char>,
    child: Expr,
)
    requires
        0 <= index < count <= trees.len(),
        trees[index] == Expr::Let(name, Box::new(child)),
        values(trees, count, bindings).values is Ok,
    ensures
        values(trees, count, bindings).bindings.dom().contains(name),
    decreases count,
{
    let before = values(trees, (count - 1) as nat, bindings);
    let next = value(trees[count - 1], before.bindings);
    if index < count - 1 {
        lemma_list_binds(trees, (count - 1) as nat, bindings, index, name, child);
        lemma_bindings_grow(trees[count - 1], before.bindings);
    }
}

/// The operation that a binary operator stands for.
pub open spec fn operation(operator: Lexeme) -> Operator {
    match operator {
        Lexeme::Plus => Operator::Add,
        Lexeme::Minus => Operator::Subtract,
        Lexeme::Star => Operator::Multiply,
        _ => Operator::Divide,
    }
}

/// The value of a binary node is the operation on the values of its
/// children, the left one evaluated first.
pub proof fn lemma_value_of_binary_node(
    operator: Lexeme,
    left: Expr,
    right: Expr,
    bindings: Bindings,
)
    ensures
        value(binary_node(operator, left, right), bindings) == value(left, bindings).binary(
            operation(operator),
            value(right, value(left, bindings).bindings),
        ),
{
}

/// Subtraction and addition apply to all that stands before them.
///
/// Take tokens `sum` that are a whole sum, and tokens `operand` that are
/// a whole product. The value of `sum`, `+` or `-`, `operand` is the
/// operation on the value of the whole of `sum` and the value of
/// `operand`, in that order. So `8 - 3 - 2` is the value of `8 - 3`
/// less 2.
pub proof fn theorem_sums_have_left_associative_value(
    sum: Seq<Lexeme>,
    operator: Lexeme,
    operand: Seq<Lexeme>,
    left: Expr,
    right: Expr,
    bindings: Bindings,
)
    requires
        operator is Plus || operator is Minus,
        additive(sum) == parsed(left, Seq::empty()),
        multiplicative(operand) == parsed(right, Seq::empty()),
    ensures
        additive(sum + seq![operator] + operand) matches Ok((tree, rest)) && rest.len() == 0
            && value(tree, bindings) == value(left, bindings).binary(
            operation(operator),
            value(right, value(left, bindings).bindings),
        ),
{
    theorem_sums_fold_left(sum, operator, operand, left, right);
    lemma_value_of_binary_node(operator, left, right, bindings);
}

/// Division and multiplication apply to all that stands before them.
///
/// Take tokens `product` that are a whole product, and tokens `operand`
/// that are a whole operand. The value of `product`, `*` or `/`, `operand`
/// is the operation on the value of the whole of `product` and the value of
/// `operand`, in that order. So `16 / 4 / 2` is the value of `16 / 4`
/// divided by 2.
pub proof fn theorem_products_have_left_associative_value(
    product: Seq<Lexeme>,
    operator: Lexeme,
    operand: Seq<Lexeme>,
    left: Expr,
    right: Expr,
    bindings: Bindings,
)
    requires
        operator is Star || operator is Slash,
        multiplicative(product) == parsed(left, Seq::empty()),
        unary(operand) == parsed(right, Seq::empty()),
    ensures
        multiplicative(product + seq![operator] + operand) matches Ok((tree, rest)) && rest.len()
            == 0 && value(tree, bindings) == value(left, bindings).binary(
            operation(operator),
            value(right, value(left, bindings).bindings),
        ),
{
    theorem_products_fold_left(product, operator, operand, left, right);
    lemma_value_of_binary_node(operator, left, right, bindings);
}

} // verus!
