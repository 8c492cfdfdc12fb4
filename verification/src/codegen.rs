//! The code generator: one pass over the trees that emits assembly text for
//! a stack machine.
//!
//! [`CodeGen::generate`] emits the lines that [`crate::lines`] gives for a
//! program, as text, and is proved to agree with it line by line.

use vstd::prelude::*;
use vstd::string::*;
use crate::ast::{Node, NodeKind, Tree, branches, branches_of, trees_of, well_formed};
use crate::error::{CompileError, ErrorKind};
use crate::lexer::is_number_text;
use crate::lines::{
    Label, LabelKind, Line, address, align_up, all_assignable, assignable, assignable_in,
    branch_head, branch_if_zero, branches_in, epilogue, frame_size, gen, gen_in, label_stem,
    label_text, lemma_branches_prefix, lemma_statements_step, loop_head, loop_tail, not_a_variable,
    operation, program_lines, prologue, render, render_line, statements,
};
use crate::numeral::{append_decimal, append_number, decimal, number_value};
use crate::parser::{Parser, SLOT_SIZE};

verus! {

/// Assembly text under construction, together with the lines it is the
/// text of.
pub struct Listing {
    text: String,
    lines: Ghost<Seq<Line>>,
}

impl Listing {
    /// The lines emitted so far.
    pub closed spec fn lines(&self) -> Seq<Line> {
        self.lines@
    }

    /// The text emitted so far.
    pub closed spec fn text(&self) -> Seq<char> {
        self.text@
    }

    /// The text is the text of the lines.
    pub closed spec fn wf(&self) -> bool {
        self.text@ == render(self.lines@)
    }

    /// No text.
    pub fn new() -> (listing: Listing)
        ensures
            listing.wf(),
            listing.lines() == Seq::<Line>::empty(),
    {
        Listing { text: String::new(), lines: Ghost(Seq::empty()) }
    }

    /// Emits a line that has the same text at all times.
    fn put(&mut self, text: &str, Ghost(line): Ghost<Line>)
        requires
            old(self).wf(),
            text@ == render_line(line),
        ensures
            final(self).wf(),
            final(self).lines() == old(self).lines().push(line),
    {
        self.text.append(text);
        self.text.append("\n");
        proof {
            let before = self.lines@;
            self.lines@ = before.push(line);
            assert(self.lines@.drop_last() =~= before);
        }
    }

    /// Emits a line that is made of `stem`, a numeral and `tail`.
    fn put_numbered(&mut self, stem: &str, n: u64, tail: &str, Ghost(line): Ghost<Line>)
        requires
            old(self).wf(),
            stem@ + decimal(n as nat) + tail@ == render_line(line),
        ensures
            final(self).wf(),
            final(self).lines() == old(self).lines().push(line),
    {
        self.text.append(stem);
        append_decimal(&mut self.text, n);
        self.text.append(tail);
        self.text.append("\n");
        proof {
            let before = self.lines@;
            self.lines@ = before.push(line);
            assert(self.lines@.drop_last() =~= before);
            assert(self.text@ =~= render(before) + render_line(line) + "\n"@);
        }
    }

    /// Emits the push of the number with the digits `text`.
    fn put_number(&mut self, text: &str)
        requires
            old(self).wf(),
            is_number_text(text@),
        ensures
            final(self).wf(),
            final(self).lines() == old(self).lines().push(Line::PushNum(number_value(text@))),
    {
        self.text.append("  push ");
        append_number(&mut self.text, text);
        self.text.append("\n");
        proof {
            let before = self.lines@;
            let line = Line::PushNum(number_value(text@));
            self.lines@ = before.push(line);
            assert(self.lines@.drop_last() =~= before);
            assert(self.text@ =~= render(before) + render_line(line) + "\n"@);
        }
    }

    /// Emits the lines that push the address of the variable at `offset`.
    fn put_address(&mut self, offset: usize)
        requires
            old(self).wf(),
        ensures
            final(self).wf(),
            final(self).lines() == old(self).lines() + address(offset as int),
    {
        self.put("  mov rax, rbp", Ghost(Line::FrameToRax));
        proof {
            assert("  sub rax, "@ + decimal(offset as nat) + ""@ =~= "  sub rax, "@ + decimal(
                offset as nat,
            )) by {
                reveal_strlit("");
            }
        }
        self.put_numbered("  sub rax, ", offset as u64, "", Ghost(Line::SubRax(offset as nat)));
        self.put("  push rax", Ghost(Line::PushRax));
        assert(self.lines() =~= old(self).lines() + address(offset as int));
    }

    /// Emits the line that reserves `size` bytes of stack.
    fn put_reserve(&mut self, size: usize)
        requires
            old(self).wf(),
        ensures
            final(self).wf(),
            final(self).lines() == old(self).lines().push(Line::Reserve(size as nat)),
    {
        proof {
            assert("  sub rsp, "@ + decimal(size as nat) + ""@ =~= "  sub rsp, "@ + decimal(
                size as nat,
            )) by {
                reveal_strlit("");
            }
        }
        self.put_numbered("  sub rsp, ", size as u64, "", Ghost(Line::Reserve(size as nat)));
    }

    /// Emits the place of the label `kind` with the number `id`.
    fn put_place(&mut self, kind: LabelKind, id: u64)
        requires
            old(self).wf(),
        ensures
            final(self).wf(),
            final(self).lines() == old(self).lines().push(
                Line::Place(Label { kind, id: id as nat }),
            ),
    {
        self.put_numbered(
            stem_text(&kind),
            id,
            ":",
            Ghost(Line::Place(Label { kind, id: id as nat })),
        );
    }

    /// Emits a jump to the label `kind` with the number `id`.
    fn put_jump(&mut self, kind: LabelKind, id: u64)
        requires
            old(self).wf(),
        ensures
            final(self).wf(),
            final(self).lines() == old(self).lines().push(
                Line::Jump(Label { kind, id: id as nat }),
            ),
    {
        let mut stem = String::from_str("  jmp ");
        stem.append(stem_text(&kind));
        proof {
            reveal_strlit("");
            assert(stem@ + decimal(id as nat) + ""@ =~= "  jmp "@ + label_text(
                Label { kind, id: id as nat },
            ));
        }
        self.put_numbered(
            stem.as_str(),
            id,
            "",
            Ghost(Line::Jump(Label { kind, id: id as nat })),
        );
    }

    /// Emits a jump to the label `kind` with the number `id` that is taken
    /// after a comparison of equal values.
    fn put_jump_if_equal(&mut self, kind: LabelKind, id: u64)
        requires
            old(self).wf(),
        ensures
            final(self).wf(),
            final(self).lines() == old(self).lines().push(
                Line::JumpIfEqual(Label { kind, id: id as nat }),
            ),
    {
        let mut stem = String::from_str("  je ");
        stem.append(stem_text(&kind));
        proof {
            reveal_strlit("");
            assert(stem@ + decimal(id as nat) + ""@ =~= "  je "@ + label_text(
                Label { kind, id: id as nat },
            ));
        }
        self.put_numbered(
            stem.as_str(),
            id,
            "",
            Ghost(Line::JumpIfEqual(Label { kind, id: id as nat })),
        );
    }

    /// Hands out the text.
    pub fn finish(self) -> (text: String)
        requires
            self.wf(),
        ensures
            text@ == render(self.lines()),
    {
        self.text
    }
}

/// The name of a label in the text, without its number.
fn stem_text(kind: &LabelKind) -> (text: &'static str)
    ensures
        text@ == label_stem(*kind),
{
    match kind {
        LabelKind::Begin => ".L.begin.",
        LabelKind::Else => ".L.else.",
        LabelKind::End => ".L.end.",
    }
}

/// The generator: it numbers the conditionals and loops of a whole
/// generation pass, so that no two of them share a label.
pub struct CodeGen {
    jmp_counter: u64,
}

impl CodeGen {
    /// The first number that no conditional or loop has taken yet.
    pub closed spec fn counter(&self) -> nat {
        self.jmp_counter as nat
    }

    /// A generator that has numbered nothing yet.
    pub fn init() -> (generator: CodeGen)
        ensures
            generator.counter() == 0,
    {
        CodeGen { jmp_counter: 0 }
    }

    /// Takes the next number for a conditional or a loop.
    fn fresh(&mut self) -> (id: u64)
        requires
            old(self).counter() < u64::MAX,
        ensures
            id == old(self).counter(),
            final(self).counter() == old(self).counter() + 1,
    {
        let id = self.jmp_counter;
        self.jmp_counter = id + 1;
        id
    }

    /// Emits the lines that push the address of the variable `node`; fails
    /// where `node` is no variable.
    fn gen_lval(node: &Node, out: &mut Listing) -> (r: Result<(), CompileError>)
        requires
            old(out).wf(),
        ensures
            final(out).wf(),
            match node@ {
                Tree::LVar { offset } => r is Ok && final(out).lines() == old(out).lines()
                    + address(offset),
                _ => r matches Err(e) && e.kind == ErrorKind::Codegen && e.message@
                    == not_a_variable(),
            },
    {
        match node {
            Node::LVar { offset } => {
                out.put_address(*offset);
                Ok(())
            },
            _ => Err(
                CompileError::new(ErrorKind::Codegen, "left side of assignment is not a variable"),
            ),
        }
    }

    /// Emits the lines that pop a condition and jump to the end `kind` of
    /// the conditional or loop `id` where it is zero.
    fn gen_branch(out: &mut Listing, kind: LabelKind, id: u64)
        requires
            old(out).wf(),
        ensures
            final(out).wf(),
            final(out).lines() == old(out).lines() + branch_if_zero(target(kind, id)),
    {
        out.put("  pop rax", Ghost(Line::PopRax));
        out.put("  cmp rax, 0", Ghost(Line::CompareZero));
        out.put_jump_if_equal(kind, id);
        assert(out.lines() =~= old(out).lines() + branch_if_zero(target(kind, id)));
    }

    /// Emits the lines that apply the operator `kind`.
    fn gen_operation(out: &mut Listing, kind: NodeKind)
        requires
            old(out).wf(),
        ensures
            final(out).wf(),
            final(out).lines() == old(out).lines() + operation(kind),
    {
        match kind {
            NodeKind::NodeAdd => {
                out.put("  add rax, rdi", Ghost(Line::Add));
            },
            NodeKind::NodeSub => {
                out.put("  sub rax, rdi", Ghost(Line::Sub));
            },
            NodeKind::NodeMul => {
                out.put("  imul rax, rdi", Ghost(Line::Mul));
            },
            NodeKind::NodeDiv => {
                out.put("  cqo", Ghost(Line::SignExtend));
                out.put("  idiv rdi", Ghost(Line::Div));
            },
            NodeKind::NodeEQ => {
                out.put("  cmp rax, rdi", Ghost(Line::Compare));
                out.put("  sete al", Ghost(Line::SetEq));
                out.put("  movzb rax, al", Ghost(Line::Widen));
            },
            NodeKind::NodeNE => {
                out.put("  cmp rax, rdi", Ghost(Line::Compare));
                out.put("  setne al", Ghost(Line::SetNe));
                out.put("  movzb rax, al", Ghost(Line::Widen));
            },
            NodeKind::NodeLT => {
                out.put("  cmp rax, rdi", Ghost(Line::Compare));
                out.put("  setl al", Ghost(Line::SetLt));
                out.put("  movzb rax, al", Ghost(Line::Widen));
            },
            NodeKind::NodeLE => {
                out.put("  cmp rax, rdi", Ghost(Line::Compare));
                out.put("  setle al", Ghost(Line::SetLe));
                out.put("  movzb rax, al", Ghost(Line::Widen));
            },
        }
        assert(out.lines() =~= old(out).lines() + operation(kind));
    }

    /// Emits the lines for `node`, numbering its conditionals and loops from
    /// the generator's counter on. Fails at the first assignment whose left
    /// side is no variable.
    fn gen_stmt(&mut self, node: &Node, out: &mut Listing, Ghost(slots): Ghost<int>) -> (r: Result<
        (),
        CompileError,
    >)
        requires
            old(out).wf(),
            well_formed(node@, slots),
            old(self).counter() + branches(node@) <= u64::MAX,
        ensures
            generated(*old(self), *final(self), node@, *old(out), *final(out), r),
        decreases node, 2int,
    {
        let ghost start = out.lines();
        let ghost next = self.counter();
        match node {
            Node::Num(text) => {
                out.put_number(text.as_str());
                assert(out.lines() =~= start + gen(node@, next));
                Ok(())
            },
            Node::LVar { offset } => {
                out.put_address(*offset);
                out.put("  pop rax", Ghost(Line::PopRax));
                out.put("  mov rax, [rax]", Ghost(Line::Load));
                out.put("  push rax", Ghost(Line::PushRax));
                assert(out.lines() =~= start + gen(node@, next));
                Ok(())
            },
            Node::Assign { .. } => self.gen_assign(node, out, Ghost(slots)),
            Node::Binary { .. } => self.gen_binary(node, out, Ghost(slots)),
            Node::Return(_) => self.gen_return(node, out, Ghost(slots)),
            Node::Block(_) => self.gen_compound(node, out, Ghost(slots)),
            Node::If { .. } => self.gen_if(node, out, Ghost(slots)),
            Node::For { .. } => self.gen_for(node, out, Ghost(slots)),
        }
    }

    /// [`CodeGen::gen_stmt`] for an assignment.
    fn gen_assign(&mut self, node: &Node, out: &mut Listing, Ghost(slots): Ghost<int>) -> (r:
        Result<(), CompileError>)
        requires
            node is Assign,
            old(out).wf(),
            well_formed(node@, slots),
            old(self).counter() + branches(node@) <= u64::MAX,
        ensures
            generated(*old(self), *final(self), node@, *old(out), *final(out), r),
        decreases node, 0int,
    {
        let ghost start = out.lines();
        let ghost next = self.counter();
        if let Node::Assign { lhs, rhs } = node {
            match CodeGen::gen_lval(lhs, out) {
                Ok(()) => {},
                Err(e) => {
                    return Err(e);
                },
            }
            match self.gen_stmt(rhs, out, Ghost(slots)) {
                Ok(()) => {},
                Err(e) => {
                    return Err(e);
                },
            }
            out.put("  pop rdi", Ghost(Line::PopRdi));
            out.put("  pop rax", Ghost(Line::PopRax));
            out.put("  mov [rax], rdi", Ghost(Line::Store));
            out.put("  push rdi", Ghost(Line::PushRdi));
            assert(branches(lhs@) == 0);
            assert(out.lines() =~= start + gen(node@, next));
        }
        Ok(())
    }

    /// [`CodeGen::gen_stmt`] for an operator with two operands: the left
    /// operand is evaluated first.
    fn gen_binary(&mut self, node: &Node, out: &mut Listing, Ghost(slots): Ghost<int>) -> (r:
        Result<(), CompileError>)
        requires
            node is Binary,
            old(out).wf(),
            well_formed(node@, slots),
            old(self).counter() + branches(node@) <= u64::MAX,
        ensures
            generated(*old(self), *final(self), node@, *old(out), *final(out), r),
        decreases node, 0int,
    {
        let ghost start = out.lines();
        let ghost next = self.counter();
        if let Node::Binary { kind, lhs, rhs } = node {
            match self.gen_stmt(lhs, out, Ghost(slots)) {
                Ok(()) => {},
                Err(e) => {
                    return Err(e);
                },
            }
            match self.gen_stmt(rhs, out, Ghost(slots)) {
                Ok(()) => {},
                Err(e) => {
                    return Err(e);
                },
            }
            out.put("  pop rdi", Ghost(Line::PopRdi));
            out.put("  pop rax", Ghost(Line::PopRax));
            CodeGen::gen_operation(out, *kind);
            out.put("  push rax", Ghost(Line::PushRax));
            assert(out.lines() =~= start + gen(node@, next));
        }
        Ok(())
    }

    /// [`CodeGen::gen_stmt`] for a return: the value is popped into `rax`
    /// and the frame is left at once.
    fn gen_return(&mut self, node: &Node, out: &mut Listing, Ghost(slots): Ghost<int>) -> (r:
        Result<(), CompileError>)
        requires
            node is Return,
            old(out).wf(),
            well_formed(node@, slots),
            old(self).counter() + branches(node@) <= u64::MAX,
        ensures
            generated(*old(self), *final(self), node@, *old(out), *final(out), r),
        decreases node, 0int,
    {
        let ghost start = out.lines();
        let ghost next = self.counter();
        if let Node::Return(operand) = node {
            match self.gen_stmt(operand, out, Ghost(slots)) {
                Ok(()) => {},
                Err(e) => {
                    return Err(e);
                },
            }
            out.put("  pop rax", Ghost(Line::PopRax));
            CodeGen::gen_epilogue(out);
            assert(out.lines() =~= start + gen(node@, next));
        }
        Ok(())
    }

    /// [`CodeGen::gen_stmt`] for a block: the value of every statement is
    /// popped, and the last one is pushed again for the block.
    fn gen_compound(&mut self, node: &Node, out: &mut Listing, Ghost(slots): Ghost<int>) -> (r:
        Result<(), CompileError>)
        requires
            node is Block,
            old(out).wf(),
            well_formed(node@, slots),
            old(self).counter() + branches(node@) <= u64::MAX,
        ensures
            generated(*old(self), *final(self), node@, *old(out), *final(out), r),
        decreases node, 0int,
    {
        let ghost start = out.lines();
        let ghost next = self.counter();
        if let Node::Block(body) = node {
            proof {
                lemma_block(*node);
            }
            match self.gen_block(body, out, Ghost(slots)) {
                Ok(()) => {},
                Err(e) => {
                    return Err(e);
                },
            }
            out.put("  push rax", Ghost(Line::PushRax));
            assert(out.lines() =~= start + gen(node@, next));
        }
        Ok(())
    }

    /// [`CodeGen::gen_stmt`] for a conditional.
    fn gen_if(&mut self, node: &Node, out: &mut Listing, Ghost(slots): Ghost<int>) -> (r: Result<
        (),
        CompileError,
    >)
        requires
            node is If,
            old(out).wf(),
            well_formed(node@, slots),
            old(self).counter() + branches(node@) <= u64::MAX,
        ensures
            generated(*old(self), *final(self), node@, *old(out), *final(out), r),
        decreases node, 1int,
    {
        let ghost start = out.lines();
        let ghost next = self.counter();
        let id = self.fresh();
        match self.gen_if_head(node, id, out, Ghost(slots)) {
            Ok(()) => {},
            Err(e) => {
                return Err(e);
            },
        }
        if let Node::If { cond, then, els } = node {
            match self.gen_child(els, out, Ghost(slots)) {
                Ok(()) => {},
                Err(e) => {
                    return Err(e);
                },
            }
        }
        out.put_place(LabelKind::End, id);
        proof {
            let tree = node@;
            let head = branch_head(*tree->If_cond, *tree->If_then, next);
            let after_then = next + 1 + branches(*tree->If_cond) + branches(*tree->If_then);
            assert(gen(tree, next) =~= head + gen_in(tree->els, after_then) + seq![
                Line::Place(target(LabelKind::End, id)),
            ]);
            assert(out.lines() =~= start + gen(tree, next));
        }
        Ok(())
    }

    /// The first part of [`CodeGen::gen_if`]: the test of the condition and
    /// the branch that is taken where it holds, up to the label of the other
    /// branch.
    fn gen_if_head(&mut self, node: &Node, id: u64, out: &mut Listing, Ghost(slots): Ghost<int>)
        -> (r: Result<(), CompileError>)
        requires
            node is If,
            old(out).wf(),
            well_formed(node@, slots),
            old(self).counter() == id + 1,
            id + branches(node@) <= u64::MAX,
        ensures
            final(out).wf(),
            r is Ok <==> assignable(*node@->If_cond) && assignable(*node@->If_then),
            r is Ok ==> final(out).lines() == old(out).lines() + branch_head(
                *node@->If_cond,
                *node@->If_then,
                id as nat,
            ),
            r is Ok ==> final(self).counter() == old(self).counter() + branches(
                *node@->If_cond,
            ) + branches(*node@->If_then),
            r matches Err(e) ==> e.kind == ErrorKind::Codegen && e.message@ == not_a_variable(),
        decreases node, 0int,
    {
        let ghost start = out.lines();
        if let Node::If { cond, then, els } = node {
            match self.gen_stmt(cond, out, Ghost(slots)) {
                Ok(()) => {},
                Err(e) => {
                    return Err(e);
                },
            }
            CodeGen::gen_branch(out, LabelKind::Else, id);
            match self.gen_stmt(then, out, Ghost(slots)) {
                Ok(()) => {},
                Err(e) => {
                    return Err(e);
                },
            }
            out.put_jump(LabelKind::End, id);
            out.put_place(LabelKind::Else, id);
            assert(out.lines() =~= start + branch_head(
                *node@->If_cond,
                *node@->If_then,
                id as nat,
            ));
        }
        Ok(())
    }

    /// [`CodeGen::gen_stmt`] for a loop.
    fn gen_for(&mut self, node: &Node, out: &mut Listing, Ghost(slots): Ghost<int>) -> (r: Result<
        (),
        CompileError,
    >)
        requires
            node is For,
            old(out).wf(),
            well_formed(node@, slots),
            old(self).counter() + branches(node@) <= u64::MAX,
        ensures
            generated(*old(self), *final(self), node@, *old(out), *final(out), r),
        decreases node, 1int,
    {
        let ghost start = out.lines();
        let ghost next = self.counter();
        let id = self.fresh();
        match self.gen_for_head(node, id, out, Ghost(slots)) {
            Ok(()) => {},
            Err(e) => {
                return Err(e);
            },
        }
        match self.gen_for_tail(node, id, out, Ghost(slots)) {
            Ok(()) => {},
            Err(e) => {
                return Err(e);
            },
        }
        proof {
            let tree = node@;
            let head = loop_head(tree->For_init, tree->For_cond, next);
            let tail = loop_tail(
                *tree->For_then,
                tree->For_inc,
                next,
                next + 1 + branches_in(tree->For_init) + branches_in(tree->For_cond),
            );
            assert(gen(tree, next) =~= head + tail);
            assert(out.lines() =~= start + gen(tree, next));
        }
        Ok(())
    }

    /// The first half of [`CodeGen::gen_for`]: what is done once, the head
    /// of the loop, and the test of the condition.
    fn gen_for_head(&mut self, node: &Node, id: u64, out: &mut Listing, Ghost(slots): Ghost<int>)
        -> (r: Result<(), CompileError>)
        requires
            node is For,
            old(out).wf(),
            well_formed(node@, slots),
            old(self).counter() == id + 1,
            id + branches(node@) <= u64::MAX,
        ensures
            final(out).wf(),
            r is Ok <==> assignable_in(node@->For_init) && assignable_in(node@->For_cond),
            r is Ok ==> final(out).lines() == old(out).lines() + loop_head(
                node@->For_init,
                node@->For_cond,
                id as nat,
            ),
            r is Ok ==> final(self).counter() == old(self).counter() + branches_in(
                node@->For_init,
            ) + branches_in(node@->For_cond),
            r matches Err(e) ==> e.kind == ErrorKind::Codegen && e.message@ == not_a_variable(),
        decreases node, 0int,
    {
        let ghost start = out.lines();
        if let Node::For { init, cond, inc, then } = node {
            match self.gen_child(init, out, Ghost(slots)) {
                Ok(()) => {},
                Err(e) => {
                    return Err(e);
                },
            }
            out.put_place(LabelKind::Begin, id);
            match self.gen_child(cond, out, Ghost(slots)) {
                Ok(()) => {},
                Err(e) => {
                    return Err(e);
                },
            }
            if cond.is_some() {
                CodeGen::gen_branch(out, LabelKind::End, id);
            }
            assert(out.lines() =~= start + loop_head(
                node@->For_init,
                node@->For_cond,
                id as nat,
            ));
        }
        Ok(())
    }

    /// The second half of [`CodeGen::gen_for`]: the body, the step, and the
    /// jump back to the head.
    fn gen_for_tail(&mut self, node: &Node, id: u64, out: &mut Listing, Ghost(slots): Ghost<int>)
        -> (r: Result<(), CompileError>)
        requires
            node is For,
            old(out).wf(),
            well_formed(node@, slots),
            old(self).counter() + branches(*node@->For_then) + branches_in(node@->For_inc)
                <= u64::MAX,
        ensures
            final(out).wf(),
            r is Ok <==> assignable(*node@->For_then) && assignable_in(node@->For_inc),
            r is Ok ==> final(out).lines() == old(out).lines() + loop_tail(
                *node@->For_then,
                node@->For_inc,
                id as nat,
                old(self).counter(),
            ),
            r is Ok ==> final(self).counter() == old(self).counter() + branches(
                *node@->For_then,
            ) + branches_in(node@->For_inc),
            r matches Err(e) ==> e.kind == ErrorKind::Codegen && e.message@ == not_a_variable(),
        decreases node, 0int,
    {
        let ghost start = out.lines();
        let ghost first = self.counter();
        if let Node::For { init, cond, inc, then } = node {
            match self.gen_stmt(then, out, Ghost(slots)) {
                Ok(()) => {},
                Err(e) => {
                    return Err(e);
                },
            }
            match self.gen_child(inc, out, Ghost(slots)) {
                Ok(()) => {},
                Err(e) => {
                    return Err(e);
                },
            }
            out.put_jump(LabelKind::Begin, id);
            out.put_place(LabelKind::End, id);
            assert(out.lines() =~= start + loop_tail(
                *node@->For_then,
                node@->For_inc,
                id as nat,
                first,
            ));
        }
        Ok(())
    }

    /// [`CodeGen::gen_stmt`] for a child that may be missing; nothing is
    /// emitted for a missing one.
    fn gen_child(&mut self, child: &Option<Box<Node>>, out: &mut Listing, Ghost(slots): Ghost<
        int,
    >) -> (r: Result<(), CompileError>)
        requires
            old(out).wf(),
            child matches Some(node) ==> well_formed(node@, slots) && old(self).counter()
                + branches(node@) <= u64::MAX,
        ensures
            match child {
                Some(node) => generated(
                    *old(self),
                    *final(self),
                    node@,
                    *old(out),
                    *final(out),
                    r,
                ),
                None => r is Ok && *final(self) == *old(self) && *final(out) == *old(out),
            },
        decreases child, 3int,
    {
        match child {
            Some(node) => self.gen_stmt(node, out, Ghost(slots)),
            None => Ok(()),
        }
    }

    /// Emits the lines for the statements `body`, in order, each followed by
    /// the pop of its value. Fails at the first statement that
    /// [`CodeGen::gen_stmt`] fails for.
    fn gen_block(&mut self, body: &Vec<Node>, out: &mut Listing, Ghost(slots): Ghost<int>) -> (r:
        Result<(), CompileError>)
        requires
            old(out).wf(),
            forall|i: int|
                0 <= i < body.len() ==> well_formed(#[trigger] trees_of(body@)[i], slots),
            old(self).counter() + branches_of(trees_of(body@)) <= u64::MAX,
        ensures
            final(out).wf(),
            r is Ok <==> all_assignable(trees_of(body@)),
            r is Ok ==> final(out).lines() == old(out).lines() + statements(
                trees_of(body@),
                old(self).counter(),
            ),
            r is Ok ==> final(self).counter() == old(self).counter() + branches_of(
                trees_of(body@),
            ),
            r matches Err(e) ==> e.kind == ErrorKind::Codegen && e.message@ == not_a_variable(),
        decreases body, 0int,
    {
        let ghost start = out.lines();
        let ghost next = self.counter();
        let ghost code = trees_of(body@);
        let mut i: usize = 0;
        assert(code.take(0) =~= Seq::<Tree>::empty());
        while i < body.len()
            invariant
                0 <= i <= body.len(),
                code == trees_of(body@),
                out.wf(),
                forall|j: int| 0 <= j < body.len() ==> well_formed(#[trigger] code[j], slots),
                next + branches_of(code) <= u64::MAX,
                out.lines() == start + statements(code.take(i as int), next),
                self.counter() == next + branches_of(code.take(i as int)),
                forall|j: int| 0 <= j < i ==> assignable(#[trigger] code[j]),
            decreases body.len() - i,
        {
            proof {
                lemma_statements_step(code, i as int, next);
                lemma_branches_prefix(code, i + 1);
                assert(code[i as int] == body[i as int]@);
            }
            match self.gen_stmt(&body[i], out, Ghost(slots)) {
                Ok(()) => {},
                Err(e) => {
                    return Err(e);
                },
            }
            out.put("  pop rax", Ghost(Line::PopRax));
            assert(out.lines() =~= start + statements(code.take(i + 1), next));
            i = i + 1;
        }
        assert(code.take(i as int) =~= code);
        Ok(())
    }

    /// Compiles the statements of `parser` to assembly text: a frame for its
    /// variables is opened, the statements follow in source order, each with
    /// the pop of its value, and the frame is left. Conditionals and loops
    /// are numbered from the generator's counter on.
    ///
    /// Fails, with no text, if the left side of an assignment is no
    /// variable.
    pub fn generate(&mut self, parser: &Parser) -> (r: Result<String, CompileError>)
        requires
            crate::parser::table_ok(parser.locals@),
            forall|i: int|
                0 <= i < parser.code.len() ==> well_formed(
                    #[trigger] trees_of(parser.code@)[i],
                    parser.locals.len() as int,
                ),
            old(self).counter() + branches_of(trees_of(parser.code@)) <= u64::MAX,
        ensures
            r is Ok <==> all_assignable(trees_of(parser.code@)),
            r matches Ok(text) ==> {
                &&& text@ == render(
                    program_lines(
                        trees_of(parser.code@),
                        parser.locals.len() as nat,
                        old(self).counter(),
                    ),
                )
                &&& final(self).counter() == old(self).counter() + branches_of(
                    trees_of(parser.code@),
                )
            },
            r matches Err(e) ==> e.kind == ErrorKind::Codegen && e.message@ == not_a_variable(),
    {
        let mut out = Listing::new();
        out.put(".intel_syntax noprefix", Ghost(Line::IntelSyntax));
        let stack_size = CodeGen::calculate_total_offsets(parser);
        out.put(".global main", Ghost(Line::GlobalMain));
        out.put("main:", Ghost(Line::Main));
        out.put("  push rbp", Ghost(Line::PushRbp));
        out.put("  mov rbp, rsp", Ghost(Line::EnterFrame));
        out.put_reserve(stack_size);
        assert(out.lines() =~= prologue(parser.locals.len() as nat));
        match self.gen_block(&parser.code, &mut out, Ghost(parser.locals.len() as int)) {
            Ok(()) => {},
            Err(e) => {
                return Err(e);
            },
        }
        CodeGen::gen_epilogue(&mut out);
        Ok(out.finish())
    }

    /// `n` rounded up to the nearest multiple of `align`.
    pub fn align_to(n: usize, align: usize) -> (r: usize)
        requires
            align > 0,
            n + align - 1 <= usize::MAX,
        ensures
            r == align_up(n as nat, align as nat),
    {
        let padded = n + (align - 1);
        assert((padded / align) * align <= padded) by (nonlinear_arith)
            requires
                align > 0,
                padded >= 0,
        ;
        padded / align * align
    }

    /// The size of the frame that holds the variables of `parser`.
    pub fn calculate_total_offsets(parser: &Parser) -> (size: usize)
        requires
            crate::parser::table_ok(parser.locals@),
        ensures
            size == frame_size(parser.locals.len() as nat),
    {
        proof {
            crate::grammar::lemma_names_bounded(crate::parser::names_of(parser.locals@));
        }
        let offset = parser.locals.len() * SLOT_SIZE;
        CodeGen::align_to(offset, 16)
    }

    /// Emits the lines that leave the frame and return.
    fn gen_epilogue(out: &mut Listing)
        requires
            old(out).wf(),
        ensures
            final(out).wf(),
            final(out).lines() == old(out).lines() + epilogue(),
    {
        out.put("  mov rsp, rbp", Ghost(Line::LeaveFrame));
        out.put("  pop rbp", Ghost(Line::PopRbp));
        out.put("  ret", Ghost(Line::Ret));
        assert(out.lines() =~= old(out).lines() + epilogue());
    }
}

/// What the generation of code for `tree` owes: it succeeds if and only if
/// `tree` is assignable, and then the lines of `tree` were emitted with the
/// numbers from the generator's counter on, and the counter stands behind
/// them. The one failure is an assignment to something that is no variable.
pub open spec fn generated(
    before: CodeGen,
    after: CodeGen,
    tree: Tree,
    out_before: Listing,
    out_after: Listing,
    r: Result<(), CompileError>,
) -> bool {
    &&& out_after.wf()
    &&& r is Ok <==> assignable(tree)
    &&& r is Ok ==> out_after.lines() == out_before.lines() + gen(tree, before.counter())
    &&& r is Ok ==> after.counter() == before.counter() + branches(tree)
    &&& r matches Err(e) ==> e.kind == ErrorKind::Codegen && e.message@ == not_a_variable()
}

/// The label `kind` of the conditional or loop `id`.
pub open spec fn target(kind: LabelKind, id: u64) -> Label {
    Label { kind, id: id as nat }
}

/// The tree of a block holds the trees of its statements.
pub proof fn lemma_block(node: Node)
    requires
        node is Block,
    ensures
        node@ == Tree::Block(trees_of(node->Block_0@)),
{
    let body = node->Block_0;
    assert(node@->Block_0 =~= trees_of(body@));
}

} // verus!
