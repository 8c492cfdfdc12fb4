//! What a program means.
//!
//! [`eval`] gives the value of an expression and what it leaves in the
//! variables; [`execute`] gives how far a sequence of statements takes a
//! program, and [`result`] what the program returns. That the emitted code
//! computes exactly this is shown in [`crate::correctness`].

use vstd::prelude::*;
use crate::ast::{NodeKind, Tree, flat, is_offset};
use crate::lines::assignable;
use crate::machine::{fits, greatest_immediate, quotient, wrap};
use crate::numeral::number_value;

verus! {

/// 1 for a comparison that holds, 0 for one that does not.
pub open spec fn truth(holds: bool) -> int {
    if holds {
        1
    } else {
        0
    }
}

/// The value of the operator `kind` applied to `a` and `b`. Sums, differences
/// and products wrap around; a quotient is rounded towards zero, and there is
/// none where the divisor is zero or the quotient does not fit.
pub open spec fn apply_operator(kind: NodeKind, a: int, b: int) -> Option<int> {
    match kind {
        NodeKind::NodeAdd => Some(wrap(a + b)),
        NodeKind::NodeSub => Some(wrap(a - b)),
        NodeKind::NodeMul => Some(wrap(a * b)),
        NodeKind::NodeDiv => if b != 0 && fits(quotient(a, b)) {
            Some(quotient(a, b))
        } else {
            None
        },
        NodeKind::NodeEQ => Some(truth(a == b)),
        NodeKind::NodeNE => Some(truth(a != b)),
        NodeKind::NodeLT => Some(truth(a < b)),
        NodeKind::NodeLE => Some(truth(a <= b)),
    }
}

/// The index of the variable at `offset` among the variables of a frame.
pub open spec fn slot(offset: int) -> int {
    offset / 8 - 1
}

/// The value of an expression, and the variables as it leaves them.
pub struct Outcome {
    pub value: int,
    pub frame: Seq<int>,
}

/// Whether `tree` is an expression: a number, a variable, an operator
/// applied to expressions, or an assignment of an expression to a variable.
pub open spec fn expression(tree: Tree) -> bool
    decreases tree,
{
    match tree {
        Tree::Num(_) => true,
        Tree::LVar { offset } => true,
        Tree::Binary { kind, lhs, rhs } => expression(*lhs) && expression(*rhs),
        Tree::Assign { lhs, rhs } => *lhs is LVar && expression(*rhs),
        _ => false,
    }
}

/// The value of the expression `tree` where the variables hold `frame`, and
/// the variables afterwards. Operands are evaluated from left to right, and
/// an assignment has the value that it assigns.
///
/// There is no value where a number is too large for a `push`, where a
/// division has none, where a variable is not among those of `frame`, and
/// where `tree` is no expression.
pub open spec fn eval(tree: Tree, frame: Seq<int>) -> Option<Outcome>
    decreases tree,
{
    match tree {
        Tree::Num(text) => if number_value(text) <= greatest_immediate() {
            Some(Outcome { value: number_value(text) as int, frame })
        } else {
            None
        },
        Tree::LVar { offset } => if is_offset(offset, frame.len() as int) {
            Some(Outcome { value: frame[slot(offset)], frame })
        } else {
            None
        },
        Tree::Assign { lhs, rhs } => match *lhs {
            Tree::LVar { offset } => match eval(*rhs, frame) {
                Some(assigned) => if is_offset(offset, frame.len() as int) {
                    Some(
                        Outcome {
                            value: assigned.value,
                            frame: assigned.frame.update(slot(offset), assigned.value),
                        },
                    )
                } else {
                    None
                },
                None => None,
            },
            _ => None,
        },
        Tree::Binary { kind, lhs, rhs } => match eval(*lhs, frame) {
            Some(left) => match eval(*rhs, left.frame) {
                Some(right) => match apply_operator(kind, left.value, right.value) {
                    Some(value) => Some(Outcome { value, frame: right.frame }),
                    None => None,
                },
                None => None,
            },
            None => None,
        },
        _ => None,
    }
}

/// A flat tree for which code can be generated is an expression.
pub proof fn lemma_flat_expression(tree: Tree)
    requires
        flat(tree),
        assignable(tree),
    ensures
        expression(tree),
    decreases tree,
{
    match tree {
        Tree::Binary { kind, lhs, rhs } => {
            lemma_flat_expression(*lhs);
            lemma_flat_expression(*rhs);
        },
        Tree::Assign { lhs, rhs } => {
            lemma_flat_expression(*rhs);
        },
        _ => {},
    }
}

/// Whether `tree` is a statement: an expression, or the return of one.
pub open spec fn statement(tree: Tree) -> bool {
    match tree {
        Tree::Return(operand) => expression(*operand),
        _ => expression(tree),
    }
}

/// How far a program has come.
pub enum Progress {
    /// It is between two statements: the variables hold `frame`, and `rax`
    /// is the value of the last statement.
    Running { frame: Seq<int>, rax: int },
    /// It has returned `value`.
    Returned { value: int },
}

/// How far the statement `tree` takes a program whose variables hold
/// `frame`; not anywhere, where its expression has no value.
pub open spec fn advance(tree: Tree, frame: Seq<int>) -> Option<Progress> {
    match tree {
        Tree::Return(operand) => match eval(*operand, frame) {
            Some(outcome) => Some(Progress::Returned { value: outcome.value }),
            None => None,
        },
        _ => match eval(tree, frame) {
            Some(outcome) => Some(Progress::Running { frame: outcome.frame, rax: outcome.value }),
            None => None,
        },
    }
}

/// How far the statements `code` take a program whose variables hold
/// `frame` and whose accumulator holds `rax`: they are executed in order, up
/// to the first return.
pub open spec fn execute(code: Seq<Tree>, frame: Seq<int>, rax: int) -> Option<Progress>
    decreases code.len(),
{
    if code.len() == 0 {
        Some(Progress::Running { frame, rax })
    } else {
        match execute(code.drop_last(), frame, rax) {
            Some(Progress::Running { frame: now, rax: _ }) => advance(code.last(), now),
            other => other,
        }
    }
}

/// What a program returns: the value of the first return that is executed,
/// or without one the value of the last statement; without a statement, what
/// the accumulator held.
pub open spec fn result(code: Seq<Tree>, frame: Seq<int>, rax: int) -> Option<int> {
    match execute(code, frame, rax) {
        Some(Progress::Running { frame: _, rax: last }) => Some(last),
        Some(Progress::Returned { value }) => Some(value),
        None => None,
    }
}

} // verus!
