//! The lines of a program: what the generator emits, as a function on
//! trees.
//!
//! Every expression leaves one value on the stack, and every statement is
//! followed by a `pop` that discards it. [`gen`] gives the lines of a tree,
//! [`program_lines`] those of a whole program, and [`render`] their text.

use vstd::prelude::*;
use crate::ast::{NodeKind, Tree, branches, branches_of};
use crate::numeral::{decimal, number_value};

verus! {

/// The three places of a conditional or a loop that a jump can aim at.
pub enum LabelKind {
    /// The head of a loop.
    Begin,
    /// The branch of a conditional that is taken when the condition fails.
    Else,
    /// The first line behind a conditional or a loop.
    End,
}

/// A label: a place, and the number of the conditional or loop it belongs to.
pub struct Label {
    pub kind: LabelKind,
    pub id: nat,
}

/// A line of the emitted text.
pub enum Line {
    /// `.intel_syntax noprefix`
    IntelSyntax,
    /// `.global main`
    GlobalMain,
    /// `main:`
    Main,
    /// `push rbp`
    PushRbp,
    /// `pop rbp`
    PopRbp,
    /// `mov rbp, rsp`
    EnterFrame,
    /// `mov rsp, rbp`
    LeaveFrame,
    /// `sub rsp, n`
    Reserve(nat),
    /// `ret`
    Ret,
    /// `push n`
    PushNum(nat),
    /// `push rax`
    PushRax,
    /// `push rdi`
    PushRdi,
    /// `pop rax`
    PopRax,
    /// `pop rdi`
    PopRdi,
    /// `mov rax, rbp`
    FrameToRax,
    /// `sub rax, n`
    SubRax(nat),
    /// `mov rax, [rax]`
    Load,
    /// `mov [rax], rdi`
    Store,
    /// `add rax, rdi`
    Add,
    /// `sub rax, rdi`
    Sub,
    /// `imul rax, rdi`
    Mul,
    /// `cqo`
    SignExtend,
    /// `idiv rdi`
    Div,
    /// `cmp rax, rdi`
    Compare,
    /// `cmp rax, 0`
    CompareZero,
    /// `sete al`
    SetEq,
    /// `setne al`
    SetNe,
    /// `setl al`
    SetLt,
    /// `setle al`
    SetLe,
    /// `movzb rax, al`
    Widen,
    /// `je label`
    JumpIfEqual(Label),
    /// `jmp label`
    Jump(Label),
    /// `label:`
    Place(Label),
}

/// The name of a label in the text, without its number.
pub open spec fn label_stem(kind: LabelKind) -> Seq<char> {
    match kind {
        LabelKind::Begin => ".L.begin."@,
        LabelKind::Else => ".L.else."@,
        LabelKind::End => ".L.end."@,
    }
}

/// The name of a label in the text.
pub open spec fn label_text(label: Label) -> Seq<char> {
    label_stem(label.kind) + decimal(label.id)
}

/// The text of a line, without the line break. Instructions are indented by
/// two spaces, directives and labels are not.
pub open spec fn render_line(line: Line) -> Seq<char> {
    match line {
        Line::IntelSyntax => ".intel_syntax noprefix"@,
        Line::GlobalMain => ".global main"@,
        Line::Main => "main:"@,
        Line::PushRbp => "  push rbp"@,
        Line::PopRbp => "  pop rbp"@,
        Line::EnterFrame => "  mov rbp, rsp"@,
        Line::LeaveFrame => "  mov rsp, rbp"@,
        Line::Reserve(n) => "  sub rsp, "@ + decimal(n),
        Line::Ret => "  ret"@,
        Line::PushNum(n) => "  push "@ + decimal(n),
        Line::PushRax => "  push rax"@,
        Line::PushRdi => "  push rdi"@,
        Line::PopRax => "  pop rax"@,
        Line::PopRdi => "  pop rdi"@,
        Line::FrameToRax => "  mov rax, rbp"@,
        Line::SubRax(n) => "  sub rax, "@ + decimal(n),
        Line::Load => "  mov rax, [rax]"@,
        Line::Store => "  mov [rax], rdi"@,
        Line::Add => "  add rax, rdi"@,
        Line::Sub => "  sub rax, rdi"@,
        Line::Mul => "  imul rax, rdi"@,
        Line::SignExtend => "  cqo"@,
        Line::Div => "  idiv rdi"@,
        Line::Compare => "  cmp rax, rdi"@,
        Line::CompareZero => "  cmp rax, 0"@,
        Line::SetEq => "  sete al"@,
        Line::SetNe => "  setne al"@,
        Line::SetLt => "  setl al"@,
        Line::SetLe => "  setle al"@,
        Line::Widen => "  movzb rax, al"@,
        Line::JumpIfEqual(label) => "  je "@ + label_text(label),
        Line::Jump(label) => "  jmp "@ + label_text(label),
        Line::Place(label) => label_text(label) + ":"@,
    }
}

/// The text of `lines`: each line, followed by a line break.
pub open spec fn render(lines: Seq<Line>) -> Seq<char>
    decreases lines.len(),
{
    if lines.len() == 0 {
        Seq::empty()
    } else {
        render(lines.drop_last()) + render_line(lines.last()) + "\n"@
    }
}

/// The lines that push the address of the variable at `offset`.
pub open spec fn address(offset: int) -> Seq<Line> {
    seq![Line::FrameToRax, Line::SubRax(offset as nat), Line::PushRax]
}

/// The lines that apply the operator `kind` to `rax` and `rdi` and leave the
/// result in `rax`. A comparison leaves 0 or 1.
pub open spec fn operation(kind: NodeKind) -> Seq<Line> {
    match kind {
        NodeKind::NodeAdd => seq![Line::Add],
        NodeKind::NodeSub => seq![Line::Sub],
        NodeKind::NodeMul => seq![Line::Mul],
        NodeKind::NodeDiv => seq![Line::SignExtend, Line::Div],
        NodeKind::NodeEQ => seq![Line::Compare, Line::SetEq, Line::Widen],
        NodeKind::NodeNE => seq![Line::Compare, Line::SetNe, Line::Widen],
        NodeKind::NodeLT => seq![Line::Compare, Line::SetLt, Line::Widen],
        NodeKind::NodeLE => seq![Line::Compare, Line::SetLe, Line::Widen],
    }
}

/// The lines that leave the frame and return to the caller.
pub open spec fn epilogue() -> Seq<Line> {
    seq![Line::LeaveFrame, Line::PopRbp, Line::Ret]
}

/// The lines that pop a condition and jump to `target` where it is zero.
pub open spec fn branch_if_zero(target: Label) -> Seq<Line> {
    seq![Line::PopRax, Line::CompareZero, Line::JumpIfEqual(target)]
}

/// How many conditionals and loops an optional child holds.
pub open spec fn branches_in(child: Option<Box<Tree>>) -> nat {
    match child {
        Some(tree) => branches(*tree),
        None => 0,
    }
}

/// The lines for an optional child: none for a missing one.
pub open spec fn gen_in(child: Option<Box<Tree>>, next: nat) -> Seq<Line> {
    match child {
        Some(tree) => gen(*tree, next),
        None => Seq::empty(),
    }
}

/// The first lines of the conditional `next`: the test of the condition, the
/// branch that is taken where it holds, and the label of the other branch.
pub open spec fn branch_head(cond: Tree, then: Tree, next: nat) -> Seq<Line> {
    gen(cond, next + 1) + branch_if_zero(Label { kind: LabelKind::Else, id: next }) + gen(
        then,
        next + 1 + branches(cond),
    ) + seq![
        Line::Jump(Label { kind: LabelKind::End, id: next }),
        Line::Place(Label { kind: LabelKind::Else, id: next }),
    ]
}

/// The first lines of the loop `next`: what is done once, the head of the
/// loop, and the test of the condition; a missing condition is not tested.
pub open spec fn loop_head(
    init: Option<Box<Tree>>,
    cond: Option<Box<Tree>>,
    next: nat,
) -> Seq<Line> {
    gen_in(init, next + 1) + seq![Line::Place(Label { kind: LabelKind::Begin, id: next })]
        + match cond {
        Some(child) => gen(*child, next + 1 + branches_in(init)) + branch_if_zero(
            Label { kind: LabelKind::End, id: next },
        ),
        None => Seq::empty(),
    }
}

/// The last lines of the loop `next`: the body, the step, and the jump back
/// to the head; `first` is the first number that the body may take.
pub open spec fn loop_tail(then: Tree, inc: Option<Box<Tree>>, next: nat, first: nat) -> Seq<
    Line,
> {
    gen(then, first) + gen_in(inc, first + branches(then)) + seq![
        Line::Jump(Label { kind: LabelKind::Begin, id: next }),
        Line::Place(Label { kind: LabelKind::End, id: next }),
    ]
}

/// Whether code can be generated for an optional child.
pub open spec fn assignable_in(child: Option<Box<Tree>>) -> bool {
    match child {
        Some(tree) => assignable(*tree),
        None => true,
    }
}

/// Whether code can be generated for `tree`: the left side of every
/// assignment in it is a variable.
pub open spec fn assignable(tree: Tree) -> bool
    decreases tree,
{
    match tree {
        Tree::Num(_) => true,
        Tree::LVar { offset } => true,
        Tree::Binary { kind, lhs, rhs } => assignable(*lhs) && assignable(*rhs),
        Tree::Assign { lhs, rhs } => *lhs is LVar && assignable(*rhs),
        Tree::Return(operand) => assignable(*operand),
        Tree::Block(body) => forall|i: int| 0 <= i < body.len() ==> assignable(#[trigger] body[i]),
        Tree::If { cond, then, els } => {
            &&& assignable(*cond)
            &&& assignable(*then)
            &&& els matches Some(child) ==> assignable(*child)
        },
        Tree::For { init, cond, inc, then } => {
            &&& init matches Some(child) ==> assignable(*child)
            &&& cond matches Some(child) ==> assignable(*child)
            &&& inc matches Some(child) ==> assignable(*child)
            &&& assignable(*then)
        },
    }
}

/// The lines for `tree`, where `next` is the first number that no
/// conditional or loop has taken yet.
///
/// The lines of an expression leave its value on the stack. A conditional
/// or a loop takes the number `next` for its labels, and its children take
/// the numbers behind it in the order in which their lines stand. There are
/// no lines for an assignment to anything but a variable.
pub open spec fn gen(tree: Tree, next: nat) -> Seq<Line>
    decreases tree,
{
    match tree {
        Tree::Num(text) => seq![Line::PushNum(number_value(text))],
        Tree::LVar { offset } => address(offset) + seq![Line::PopRax, Line::Load, Line::PushRax],
        Tree::Assign { lhs, rhs } => match *lhs {
            Tree::LVar { offset } => address(offset) + gen(*rhs, next) + seq![
                Line::PopRdi,
                Line::PopRax,
                Line::Store,
                Line::PushRdi,
            ],
            _ => Seq::empty(),
        },
        Tree::Binary { kind, lhs, rhs } => gen(*lhs, next) + gen(*rhs, next + branches(*lhs))
            + seq![Line::PopRdi, Line::PopRax] + operation(kind) + seq![Line::PushRax],
        Tree::Return(operand) => gen(*operand, next) + seq![Line::PopRax] + epilogue(),
        Tree::Block(body) => statements(body, next) + seq![Line::PushRax],
        Tree::If { cond, then, els } => {
            let to_else = Label { kind: LabelKind::Else, id: next };
            let to_end = Label { kind: LabelKind::End, id: next };
            let after_cond = next + 1 + branches(*cond);
            let after_then = after_cond + branches(*then);
            gen(*cond, next + 1) + branch_if_zero(to_else) + gen(*then, after_cond) + seq![
                Line::Jump(to_end),
                Line::Place(to_else),
            ] + (match els {
                Some(child) => gen(*child, after_then),
                None => Seq::empty(),
            }) + seq![Line::Place(to_end)]
        },
        Tree::For { init, cond, inc, then } => {
            let to_begin = Label { kind: LabelKind::Begin, id: next };
            let to_end = Label { kind: LabelKind::End, id: next };
            let after_init = next + 1 + branches_in(init);
            let after_cond = after_init + branches_in(cond);
            let after_then = after_cond + branches(*then);
            (match init {
                Some(child) => gen(*child, next + 1),
                None => Seq::empty(),
            }) + seq![Line::Place(to_begin)] + (match cond {
                Some(child) => gen(*child, after_init) + branch_if_zero(to_end),
                None => Seq::empty(),
            }) + gen(*then, after_cond) + (match inc {
                Some(child) => gen(*child, after_then),
                None => Seq::empty(),
            }) + seq![Line::Jump(to_begin), Line::Place(to_end)]
        },
    }
}

/// The lines for the statements `code`, in order: after each statement its
/// value is popped.
pub open spec fn statements(code: Seq<Tree>, next: nat) -> Seq<Line>
    decreases code,
{
    if code.len() == 0 {
        Seq::empty()
    } else {
        statements(code.drop_last(), next) + gen(
            code.last(),
            next + branches_of(code.drop_last()),
        ) + seq![Line::PopRax]
    }
}

/// The bytes of stack that a frame with `slots` variables takes: eight for
/// each, rounded up to a multiple of sixteen.
pub open spec fn frame_size(slots: nat) -> nat {
    align_up(slots * 8, 16)
}

/// `n` rounded up to a multiple of `align`.
pub open spec fn align_up(n: nat, align: nat) -> nat
    recommends
        align > 0,
{
    ((n + align - 1) / (align as int) * align) as nat
}

/// The lines that open the text and the frame of a program with `slots`
/// variables.
pub open spec fn prologue(slots: nat) -> Seq<Line> {
    seq![
        Line::IntelSyntax,
        Line::GlobalMain,
        Line::Main,
        Line::PushRbp,
        Line::EnterFrame,
        Line::Reserve(frame_size(slots)),
    ]
}

/// The lines of a whole program: the frame is opened, the statements follow
/// in source order, and the frame is left.
pub open spec fn program_lines(code: Seq<Tree>, slots: nat, next: nat) -> Seq<Line> {
    prologue(slots) + statements(code, next) + epilogue()
}

/// Whether code can be generated for every statement of `code`.
pub open spec fn all_assignable(code: Seq<Tree>) -> bool {
    forall|i: int| 0 <= i < code.len() ==> assignable(#[trigger] code[i])
}

/// The message for an assignment to something that is no variable.
pub open spec fn not_a_variable() -> Seq<char> {
    "left side of assignment is not a variable"@
}

/// The first statements of a program hold no more conditionals and loops
/// than the whole.
pub proof fn lemma_branches_prefix(code: Seq<Tree>, n: int)
    requires
        0 <= n <= code.len(),
    ensures
        branches_of(code.take(n)) <= branches_of(code),
    decreases code.len(),
{
    if n == code.len() {
        assert(code.take(n) =~= code);
    } else {
        lemma_branches_prefix(code.drop_last(), n);
        assert(code.drop_last().take(n) =~= code.take(n));
    }
}

/// One more statement: its lines follow those of the statements before it,
/// and its conditionals and loops are counted behind theirs.
pub proof fn lemma_statements_step(code: Seq<Tree>, n: int, next: nat)
    requires
        0 <= n < code.len(),
    ensures
        statements(code.take(n + 1), next) == statements(code.take(n), next) + gen(
            code[n],
            next + branches_of(code.take(n)),
        ) + seq![Line::PopRax],
        branches_of(code.take(n + 1)) == branches_of(code.take(n)) + branches(code[n]),
{
    assert(code.take(n + 1).drop_last() =~= code.take(n));
    assert(code.take(n + 1).last() == code[n]);
}

/// Rounding up gives the least multiple of `align` that is not below `n`.
pub proof fn lemma_align_up(n: nat, align: nat)
    requires
        align > 0,
    ensures
        align_up(n, align) % align == 0,
        n <= align_up(n, align) < n + align,
{
    let padded = n + align - 1;
    let a = align as int;
    assert(padded == a * (padded / a) + padded % a && 0 <= padded % a < a) by (nonlinear_arith)
        requires
            a > 0,
            padded >= 0,
    ;
    assert(((padded / a) * a) % a == 0) by (nonlinear_arith)
        requires
            a > 0,
    ;
    assert((padded / a) * a == a * (padded / a)) by (nonlinear_arith);
}

} // verus!
