//! The trees of a program, and what holds of the trees that the parser
//! builds.

use vstd::prelude::*;
use crate::lexer::is_number_text;

verus! {

/// The operators with two operands. There is no greater-than: `a > b` is
/// `b < a`.
#[derive(Debug, Clone, Copy, PartialEq, Eq, Structural)]
pub enum NodeKind {
    NodeAdd,
    NodeSub,
    NodeMul,
    NodeDiv,
    NodeEQ,
    NodeNE,
    NodeLT,
    NodeLE,
}

/// A tree of the program. Every node owns its children.
#[derive(Debug, PartialEq, Eq)]
#[allow(inconsistent_fields)]
pub enum Node {
    /// A number, by its decimal digits.
    Num(String),
    /// An operator applied to two operands.
    Binary { kind: NodeKind, lhs: Box<Node>, rhs: Box<Node> },
    /// A variable, by the distance of its slot below the frame pointer.
    LVar { offset: usize },
    /// An assignment of `rhs` to the variable `lhs`.
    Assign { lhs: Box<Node>, rhs: Box<Node> },
    /// A return of the value of the operand.
    Return(Box<Node>),
    /// Statements, executed in order.
    Block(Vec<Node>),
    /// A conditional.
    If { cond: Box<Node>, then: Box<Node>, els: Option<Box<Node>> },
    /// A loop; a missing condition holds always.
    For { init: Option<Box<Node>>, cond: Option<Box<Node>>, inc: Option<Box<Node>>, then: Box<Node> },
}

/// What a [`Node`] is in contracts.
#[allow(inconsistent_fields)]
pub enum Tree {
    Num(Seq<char>),
    Binary { kind: NodeKind, lhs: Box<Tree>, rhs: Box<Tree> },
    LVar { offset: int },
    Assign { lhs: Box<Tree>, rhs: Box<Tree> },
    Return(Box<Tree>),
    Block(Seq<Tree>),
    If { cond: Box<Tree>, then: Box<Tree>, els: Option<Box<Tree>> },
    For { init: Option<Box<Tree>>, cond: Option<Box<Tree>>, inc: Option<Box<Tree>>, then: Box<Tree> },
}

/// The tree that `node` stands for.
pub open spec fn tree_of(node: Node) -> Tree
    decreases node,
{
    match node {
        Node::Num(text) => Tree::Num(text@),
        Node::Binary { kind, lhs, rhs } => Tree::Binary {
            kind,
            lhs: Box::new(tree_of(*lhs)),
            rhs: Box::new(tree_of(*rhs)),
        },
        Node::LVar { offset } => Tree::LVar { offset: offset as int },
        Node::Assign { lhs, rhs } => Tree::Assign {
            lhs: Box::new(tree_of(*lhs)),
            rhs: Box::new(tree_of(*rhs)),
        },
        Node::Return(operand) => Tree::Return(Box::new(tree_of(*operand))),
        Node::Block(body) => Tree::Block(
            Seq::new(
                body.len() as nat,
                |i: int|
                    if 0 <= i < body.len() {
                        tree_of(body[i])
                    } else {
                        Tree::Block(Seq::empty())
                    },
            ),
        ),
        Node::If { cond, then, els } => Tree::If {
            cond: Box::new(tree_of(*cond)),
            then: Box::new(tree_of(*then)),
            els: match els {
                Some(child) => Some(Box::new(tree_of(*child))),
                None => None,
            },
        },
        Node::For { init, cond, inc, then } => Tree::For {
            init: match init {
                Some(child) => Some(Box::new(tree_of(*child))),
                None => None,
            },
            cond: match cond {
                Some(child) => Some(Box::new(tree_of(*child))),
                None => None,
            },
            inc: match inc {
                Some(child) => Some(Box::new(tree_of(*child))),
                None => None,
            },
            then: Box::new(tree_of(*then)),
        },
    }
}

impl View for Node {
    type V = Tree;

    open spec fn view(&self) -> Tree {
        tree_of(*self)
    }
}

impl Clone for Node {
    /// A copy of the tree: it stands for the same tree.
    fn clone(&self) -> (copy: Node)
        ensures
            copy@ == self@,
        decreases self,
    {
        match self {
            Node::Num(text) => Node::Num(text.clone()),
            Node::Binary { kind, lhs, rhs } => Node::Binary {
                kind: *kind,
                lhs: Box::new((&**lhs).clone()),
                rhs: Box::new((&**rhs).clone()),
            },
            Node::LVar { offset } => Node::LVar { offset: *offset },
            Node::Assign { lhs, rhs } => Node::Assign {
                lhs: Box::new((&**lhs).clone()),
                rhs: Box::new((&**rhs).clone()),
            },
            Node::Return(operand) => Node::Return(Box::new((&**operand).clone())),
            Node::Block(body) => {
                let copy = Node::Block(clone_all(body));
                assert(copy@->Block_0 =~= self@->Block_0);
                copy
            },
            Node::If { cond, then, els } => Node::If {
                cond: Box::new((&**cond).clone()),
                then: Box::new((&**then).clone()),
                els: match els {
                    Some(child) => Some(Box::new((&**child).clone())),
                    None => None,
                },
            },
            Node::For { init, cond, inc, then } => Node::For {
                init: match init {
                    Some(child) => Some(Box::new((&**child).clone())),
                    None => None,
                },
                cond: match cond {
                    Some(child) => Some(Box::new((&**child).clone())),
                    None => None,
                },
                inc: match inc {
                    Some(child) => Some(Box::new((&**child).clone())),
                    None => None,
                },
                then: Box::new((&**then).clone()),
            },
        }
    }
}

/// Copies of the trees of `body`, in order.
fn clone_all(body: &Vec<Node>) -> (copies: Vec<Node>)
    ensures
        copies.len() == body.len(),
        forall|j: int| 0 <= j < body.len() ==> tree_of(copies[j]) == tree_of(body[j]),
    decreases body,
{
    let mut copies: Vec<Node> = Vec::new();
    let mut i: usize = 0;
    while i < body.len()
        invariant
            0 <= i <= body.len(),
            copies.len() == i,
            forall|j: int| 0 <= j < i ==> tree_of(copies[j]) == tree_of(body[j]),
        decreases body.len() - i,
    {
        let child = body[i].clone();
        copies.push(child);
        i = i + 1;
    }
    copies
}

/// The trees that `nodes` stand for, one for one.
pub open spec fn trees_of(nodes: Seq<Node>) -> Seq<Tree> {
    Seq::new(nodes.len(), |i: int| tree_of(nodes[i]))
}

/// Whether `offset` is the offset of one of the first `slots` variables: a
/// multiple of the width of a slot, from one slot to `slots` of them.
pub open spec fn is_offset(offset: int, slots: int) -> bool {
    offset % 8 == 0 && 8 <= offset <= slots * 8
}

/// Whether `tree` is fit for a program with `slots` variables: every number
/// in it is made of digits, and every variable has one of the `slots` offsets.
pub open spec fn well_formed(tree: Tree, slots: int) -> bool
    decreases tree,
{
    match tree {
        Tree::Num(text) => is_number_text(text),
        Tree::Binary { kind, lhs, rhs } => well_formed(*lhs, slots) && well_formed(*rhs, slots),
        Tree::LVar { offset } => is_offset(offset, slots),
        Tree::Assign { lhs, rhs } => well_formed(*lhs, slots) && well_formed(*rhs, slots),
        Tree::Return(operand) => well_formed(*operand, slots),
        Tree::Block(body) => forall|i: int|
            0 <= i < body.len() ==> well_formed(#[trigger] body[i], slots),
        Tree::If { cond, then, els } => {
            &&& well_formed(*cond, slots)
            &&& well_formed(*then, slots)
            &&& els matches Some(child) ==> well_formed(*child, slots)
        },
        Tree::For { init, cond, inc, then } => {
            &&& init matches Some(child) ==> well_formed(*child, slots)
            &&& cond matches Some(child) ==> well_formed(*child, slots)
            &&& inc matches Some(child) ==> well_formed(*child, slots)
            &&& well_formed(*then, slots)
        },
    }
}

/// How many conditionals and loops `tree` holds.
pub open spec fn branches(tree: Tree) -> nat
    decreases tree,
{
    match tree {
        Tree::Num(_) => 0,
        Tree::Binary { kind, lhs, rhs } => branches(*lhs) + branches(*rhs),
        Tree::LVar { offset } => 0,
        Tree::Assign { lhs, rhs } => branches(*lhs) + branches(*rhs),
        Tree::Return(operand) => branches(*operand),
        Tree::Block(body) => branches_of(body),
        Tree::If { cond, then, els } => 1 + branches(*cond) + branches(*then) + match els {
            Some(child) => branches(*child),
            None => 0,
        },
        Tree::For { init, cond, inc, then } => 1 + match init {
            Some(child) => branches(*child),
            None => 0,
        } + match cond {
            Some(child) => branches(*child),
            None => 0,
        } + match inc {
            Some(child) => branches(*child),
            None => 0,
        } + branches(*then),
    }
}

/// How many conditionals and loops the trees of `code` hold together.
pub open spec fn branches_of(code: Seq<Tree>) -> nat
    decreases code,
{
    if code.len() == 0 {
        0
    } else {
        branches_of(code.drop_last()) + branches(code.last())
    }
}

/// A tree that is fit for some number of variables is fit for more.
pub proof fn lemma_well_formed_grows(tree: Tree, slots: int, more: int)
    requires
        well_formed(tree, slots),
        slots <= more,
    ensures
        well_formed(tree, more),
    decreases tree,
{
    match tree {
        Tree::Num(_) => {},
        Tree::LVar { offset } => {},
        Tree::Binary { kind, lhs, rhs } => {
            lemma_well_formed_grows(*lhs, slots, more);
            lemma_well_formed_grows(*rhs, slots, more);
        },
        Tree::Assign { lhs, rhs } => {
            lemma_well_formed_grows(*lhs, slots, more);
            lemma_well_formed_grows(*rhs, slots, more);
        },
        Tree::Return(operand) => {
            lemma_well_formed_grows(*operand, slots, more);
        },
        Tree::Block(body) => {
            assert forall|i: int| 0 <= i < body.len() implies well_formed(
                #[trigger] body[i],
                more,
            ) by {
                lemma_well_formed_grows(body[i], slots, more);
            }
        },
        Tree::If { cond, then, els } => {
            lemma_well_formed_grows(*cond, slots, more);
            lemma_well_formed_grows(*then, slots, more);
            if let Some(child) = els {
                lemma_well_formed_grows(*child, slots, more);
            }
        },
        Tree::For { init, cond, inc, then } => {
            if let Some(child) = init {
                lemma_well_formed_grows(*child, slots, more);
            }
            if let Some(child) = cond {
                lemma_well_formed_grows(*child, slots, more);
            }
            if let Some(child) = inc {
                lemma_well_formed_grows(*child, slots, more);
            }
            lemma_well_formed_grows(*then, slots, more);
        },
    }
}

/// Whether `tree` is made of numbers, variables, operators and assignments
/// alone.
pub open spec fn flat(tree: Tree) -> bool
    decreases tree,
{
    match tree {
        Tree::Num(_) => true,
        Tree::LVar { offset } => true,
        Tree::Binary { kind, lhs, rhs } => flat(*lhs) && flat(*rhs),
        Tree::Assign { lhs, rhs } => flat(*lhs) && flat(*rhs),
        _ => false,
    }
}

/// Whether `tree` is a statement of the grammar: a [`flat`] tree, or the
/// return of one.
pub open spec fn simple_statement(tree: Tree) -> bool {
    match tree {
        Tree::Return(operand) => flat(*operand),
        _ => flat(tree),
    }
}

/// A flat tree holds no conditional and no loop.
pub proof fn lemma_flat(tree: Tree)
    requires
        flat(tree),
    ensures
        branches(tree) == 0,
    decreases tree,
{
    match tree {
        Tree::Binary { kind, lhs, rhs } => {
            lemma_flat(*lhs);
            lemma_flat(*rhs);
        },
        Tree::Assign { lhs, rhs } => {
            lemma_flat(*lhs);
            lemma_flat(*rhs);
        },
        _ => {},
    }
}

/// Statements of the grammar hold no conditional and no loop.
pub proof fn lemma_simple_statements(code: Seq<Tree>)
    requires
        forall|i: int| 0 <= i < code.len() ==> simple_statement(#[trigger] code[i]),
    ensures
        branches_of(code) == 0,
    decreases code.len(),
{
    if code.len() > 0 {
        let front = code.drop_last();
        assert forall|i: int| 0 <= i < front.len() implies simple_statement(
            #[trigger] front[i],
        ) by {
            assert(front[i] == code[i]);
        }
        lemma_simple_statements(front);
        let last = code.last();
        assert(simple_statement(last));
        match last {
            Tree::Return(operand) => {
                lemma_flat(*operand);
            },
            _ => {
                lemma_flat(last);
            },
        }
    }
}

} // verus!
