//! The emitted code computes what the program means.
//!
//! The theorems of this file say that the lines of an expression, of
//! statements and of a whole program, run on the machine of
//! [`crate::machine`], compute exactly what [`crate::meaning`] says, and trap
//! exactly where the program has no value.

use vstd::prelude::*;
use crate::ast::{NodeKind, Tree, branches, branches_of, is_offset, well_formed};
use crate::lines::{
    Line, address, epilogue, frame_size, gen, lemma_align_up, operation, program_lines, prologue,
    statements,
};
use crate::machine::{
    Machine, after, aligned, fits, greatest_immediate, lemma_aligned, lemma_aligned_apart,
    lemma_low_byte, lemma_run_concat,
    lemma_run_four, lemma_run_one, lemma_run_returned, lemma_run_three, lemma_run_two,
    lemma_wrap, run,
};
use crate::meaning::{
    Outcome, Progress, advance, apply_operator, eval, execute, expression, result, slot,
    statement,
};
use crate::numeral::number_value;

verus! {

/// The variables of a frame of `slots` variables below `rbp`, as `memory`
/// holds them: the variable at index `k` is the cell at `rbp - 8 * (k + 1)`.
pub open spec fn frame_of(memory: Map<int, int>, rbp: int, slots: nat) -> Seq<int> {
    Seq::new(slots, |k: int| memory[rbp - 8 * (k + 1)])
}

/// Whether the machine is inside `main`, between two instructions of an
/// expression: the stack is aligned and lies below the frame of `slots`
/// variables, and the addresses of the frame fit a register.
pub open spec fn steady(m: Machine, slots: nat) -> bool {
    &&& !m.returned
    &&& aligned(m.rsp)
    &&& aligned(m.rbp)
    &&& m.rsp <= m.rbp - 8 * slots
    &&& fits(m.rbp)
    &&& fits(m.rbp - 8 * slots)
}

/// Whether `address` is the address of one of the `slots` variables below
/// `rbp`.
pub open spec fn in_frame(address: int, rbp: int, slots: nat) -> bool {
    rbp - 8 * slots <= address < rbp
}

/// Whether `now` holds what `before` held in every cell from `low` upwards
/// that is no variable of the frame.
#[verifier::opaque]
pub open spec fn kept(
    before: Map<int, int>,
    now: Map<int, int>,
    low: int,
    rbp: int,
    slots: nat,
) -> bool {
    forall|a: int| a >= low && !in_frame(a, rbp, slots) ==> now[a] == before[a]
}

/// What is kept can be read.
proof fn lemma_kept_at(
    before: Map<int, int>,
    now: Map<int, int>,
    low: int,
    rbp: int,
    slots: nat,
    a: int,
)
    requires
        kept(before, now, low, rbp, slots),
        a >= low,
        !in_frame(a, rbp, slots),
    ensures
        now[a] == before[a],
{
    reveal(kept);
}

/// A memory keeps what it holds.
proof fn lemma_kept_same(memory: Map<int, int>, low: int, rbp: int, slots: nat)
    ensures
        kept(memory, memory, low, rbp, slots),
{
    reveal(kept);
}

/// A write below `low`, or to a variable of the frame, keeps what was kept.
proof fn lemma_kept_write(
    before: Map<int, int>,
    now: Map<int, int>,
    low: int,
    rbp: int,
    slots: nat,
    address: int,
    value: int,
)
    requires
        kept(before, now, low, rbp, slots),
        address < low || in_frame(address, rbp, slots),
    ensures
        kept(before, now.insert(address, value), low, rbp, slots),
{
    reveal(kept);
}

/// What is kept twice is kept, from the higher of the two bounds upwards.
proof fn lemma_kept_chain(
    before: Map<int, int>,
    between: Map<int, int>,
    now: Map<int, int>,
    low: int,
    lower: int,
    rbp: int,
    slots: nat,
)
    requires
        kept(before, between, low, rbp, slots),
        kept(between, now, lower, rbp, slots),
        lower <= low,
    ensures
        kept(before, now, low, rbp, slots),
{
    reveal(kept);
}

/// A write outside the frame leaves the variables alone.
proof fn lemma_frame_kept(memory: Map<int, int>, rbp: int, slots: nat, address: int, value: int)
    requires
        !in_frame(address, rbp, slots),
    ensures
        frame_of(memory.insert(address, value), rbp, slots) == frame_of(memory, rbp, slots),
{
    assert(frame_of(memory.insert(address, value), rbp, slots) =~= frame_of(memory, rbp, slots));
}

/// The variable at a good offset is the cell at that distance below `rbp`.
proof fn lemma_slot(memory: Map<int, int>, rbp: int, slots: nat, offset: int)
    requires
        is_offset(offset, slots as int),
    ensures
        0 <= slot(offset) < slots,
        8 * (slot(offset) + 1) == offset,
        frame_of(memory, rbp, slots)[slot(offset)] == memory[rbp - offset],
        in_frame(rbp - offset, rbp, slots),
{
}

/// A write to a variable of the frame changes that variable.
proof fn lemma_frame_written(
    memory: Map<int, int>,
    rbp: int,
    slots: nat,
    offset: int,
    value: int,
)
    requires
        is_offset(offset, slots as int),
    ensures
        frame_of(memory.insert(rbp - offset, value), rbp, slots) == frame_of(
            memory,
            rbp,
            slots,
        ).update(slot(offset), value),
{
    let written = frame_of(memory.insert(rbp - offset, value), rbp, slots);
    let updated = frame_of(memory, rbp, slots).update(slot(offset), value);
    lemma_slot(memory, rbp, slots, offset);
    assert forall|k: int| 0 <= k < slots implies written[k] == updated[k] by {
        if k != slot(offset) {
            assert(rbp - 8 * (k + 1) != rbp - offset);
        }
    }
    assert(written =~= updated);
}

/// Whether `now` is `before` with one value more on the stack: the value of
/// `outcome` is on top, the variables hold the frame of `outcome`, and
/// nothing else from the old top of the stack upwards has changed.
pub open spec fn pushed(before: Machine, now: Machine, slots: nat, outcome: Outcome) -> bool {
    &&& !now.returned
    &&& now.rbp == before.rbp
    &&& now.rsp == before.rsp - 8
    &&& now.memory[now.rsp] == outcome.value
    &&& frame_of(now.memory, now.rbp, slots) == outcome.frame
    &&& kept(before.memory, now.memory, before.rsp, before.rbp, slots)
}

/// Whether the machine computes what `expected` says: it pushes the value
/// and leaves the variables, where there is an outcome, and traps where there
/// is none.
pub open spec fn computes(
    before: Machine,
    after_run: Option<Machine>,
    slots: nat,
    expected: Option<Outcome>,
) -> bool {
    match expected {
        Some(outcome) => after_run matches Some(m) && pushed(before, m, slots, outcome),
        None => after_run is None,
    }
}

/// The machine after `value` was pushed.
pub open spec fn with_pushed(m: Machine, value: int) -> Machine {
    Machine { rsp: m.rsp - 8, memory: m.memory.insert(m.rsp - 8, value), ..m }
}

/// A push in a steady state pushes: the frame and what lies above the stack
/// are kept.
proof fn lemma_push(m: Machine, now: Machine, slots: nat, value: int)
    requires
        steady(m, slots),
        now.rbp == m.rbp,
        now.rsp == m.rsp - 8,
        !now.returned,
        now.memory == m.memory.insert(m.rsp - 8, value),
    ensures
        pushed(m, now, slots, Outcome { value, frame: frame_of(m.memory, m.rbp, slots) }),
{
    lemma_frame_kept(m.memory, m.rbp, slots, m.rsp - 8, value);
    lemma_kept_same(m.memory, m.rsp, m.rbp, slots);
    lemma_kept_write(m.memory, m.memory, m.rsp, m.rbp, slots, m.rsp - 8, value);
}

/// A value more on the stack leaves the machine steady.
proof fn lemma_steady(m: Machine, now: Machine, slots: nat, outcome: Outcome)
    requires
        steady(m, slots),
        pushed(m, now, slots, outcome),
    ensures
        steady(now, slots),
{
    lemma_aligned(m.rsp);
}

/// The lines of a number push it.
proof fn lemma_number_runs(text: Seq<char>, next: nat, slots: nat, m: Machine)
    requires
        steady(m, slots),
    ensures
        computes(
            m,
            run(gen(Tree::Num(text), next), m),
            slots,
            eval(Tree::Num(text), frame_of(m.memory, m.rbp, slots)),
        ),
{
    let n = number_value(text);
    lemma_run_one(Line::PushNum(n), m);
    if n <= greatest_immediate() {
        lemma_push(m, with_pushed(m, n as int), slots, n as int);
    }
}

/// The machine after the lines of [`address`].
pub open spec fn addressed(m: Machine, offset: int) -> Machine {
    Machine {
        rax: m.rbp - offset,
        flags: None,
        rsp: m.rsp - 8,
        memory: m.memory.insert(m.rsp - 8, m.rbp - offset),
        ..m
    }
}

/// The lines of [`address`] push the address of the variable.
proof fn lemma_address_runs(offset: int, slots: nat, m: Machine)
    requires
        steady(m, slots),
        is_offset(offset, slots as int),
    ensures
        run(address(offset), m) == Some(addressed(m, offset)),
        pushed(
            m,
            addressed(m, offset),
            slots,
            Outcome { value: m.rbp - offset, frame: frame_of(m.memory, m.rbp, slots) },
        ),
{
    lemma_run_three(Line::FrameToRax, Line::SubRax(offset as nat), Line::PushRax, m);
    lemma_wrap(m.rbp - offset);
    lemma_push(m, addressed(m, offset), slots, m.rbp - offset);
}

/// The lines that follow the address of a variable pop the address, load
/// the cell there, and push what it holds.
proof fn lemma_load_steps(m: Machine, place: int, value: int)
    requires
        !m.returned,
        aligned(m.rsp),
        aligned(place),
        m.memory[m.rsp] == place,
        m.memory[place] == value,
    ensures
        run(seq![Line::PopRax, Line::Load, Line::PushRax], m) == Some(
            Machine { rax: value, memory: m.memory.insert(m.rsp, value), ..m },
        ),
{
    lemma_aligned(m.rsp);
    let s1 = Machine { rax: place, rsp: m.rsp + 8, ..m };
    assert(after(Some(m), Line::PopRax) == Some(s1));
    let s2 = Machine { rax: value, ..s1 };
    assert(after(Some(s1), Line::Load) == Some(s2));
    assert(after(Some(s2), Line::PushRax) == Some(
        Machine { rax: value, memory: m.memory.insert(m.rsp, value), ..m },
    ));
    lemma_run_three(Line::PopRax, Line::Load, Line::PushRax, m);
}

/// The lines of a variable push what it holds.
proof fn lemma_variable_runs(offset: int, next: nat, slots: nat, m: Machine)
    requires
        steady(m, slots),
        is_offset(offset, slots as int),
    ensures
        computes(
            m,
            run(gen(Tree::LVar { offset }, next), m),
            slots,
            eval(Tree::LVar { offset }, frame_of(m.memory, m.rbp, slots)),
        ),
{
    let place = m.rbp - offset;
    let value = m.memory[place];
    let m1 = addressed(m, offset);
    let done = Machine { rax: value, memory: m1.memory.insert(m1.rsp, value), ..m1 };
    lemma_slot(m.memory, m.rbp, slots, offset);
    lemma_address_runs(offset, slots, m);
    lemma_aligned_apart(m.rbp, offset);
    lemma_aligned(m.rsp);
    assert(m1.memory[place] == value);
    lemma_load_steps(m1, place, value);
    lemma_run_concat(address(offset), seq![Line::PopRax, Line::Load, Line::PushRax], m);
    lemma_frame_kept(m1.memory, m.rbp, slots, m1.rsp, value);
    lemma_kept_write(m.memory, m1.memory, m.rsp, m.rbp, slots, m1.rsp, value);
}

/// The lines of an operator compute its value from `rax` and `rdi`, and
/// change nothing but registers and flags.
proof fn lemma_operation_runs(kind: NodeKind, m: Machine)
    requires
        !m.returned,
    ensures
        match apply_operator(kind, m.rax, m.rdi) {
            Some(value) => run(operation(kind), m) matches Some(done) && done.rax == value
                && done.rsp == m.rsp && done.rbp == m.rbp && done.memory == m.memory
                && !done.returned,
            None => run(operation(kind), m) is None,
        },
{
    match kind {
        NodeKind::NodeAdd => {
            lemma_run_one(Line::Add, m);
        },
        NodeKind::NodeSub => {
            lemma_run_one(Line::Sub, m);
        },
        NodeKind::NodeMul => {
            lemma_run_one(Line::Mul, m);
        },
        NodeKind::NodeDiv => {
            lemma_run_two(Line::SignExtend, Line::Div, m);
        },
        NodeKind::NodeEQ => {
            lemma_run_three(Line::Compare, Line::SetEq, Line::Widen, m);
            lemma_low_byte(m.rax, m.rax == m.rdi);
        },
        NodeKind::NodeNE => {
            lemma_run_three(Line::Compare, Line::SetNe, Line::Widen, m);
            lemma_low_byte(m.rax, m.rax != m.rdi);
        },
        NodeKind::NodeLT => {
            lemma_run_three(Line::Compare, Line::SetLt, Line::Widen, m);
            lemma_low_byte(m.rax, m.rax < m.rdi);
        },
        NodeKind::NodeLE => {
            lemma_run_three(Line::Compare, Line::SetLe, Line::Widen, m);
            lemma_low_byte(m.rax, m.rax <= m.rdi);
        },
    }
}

/// The two pops that follow the operands of an operator bring the operands
/// to `rax` and `rdi` and the stack to where it was.
proof fn lemma_operands_popped(
    slots: nat,
    m: Machine,
    m1: Machine,
    m2: Machine,
    left: Outcome,
    right: Outcome,
)
    requires
        steady(m, slots),
        pushed(m, m1, slots, left),
        pushed(m1, m2, slots, right),
    ensures
        run(seq![Line::PopRdi, Line::PopRax], m2) == Some(
            Machine { rdi: right.value, rax: left.value, rsp: m.rsp, ..m2 },
        ),
        kept(m.memory, m2.memory, m.rsp, m.rbp, slots),
{
    lemma_kept_at(m1.memory, m2.memory, m1.rsp, m.rbp, slots, m1.rsp);
    lemma_aligned(m.rsp);
    let s1 = Machine { rdi: right.value, rsp: m1.rsp, ..m2 };
    assert(after(Some(m2), Line::PopRdi) == Some(s1));
    let s2 = Machine { rax: left.value, rsp: m.rsp, ..s1 };
    assert(after(Some(s1), Line::PopRax) == Some(s2));
    lemma_run_two(Line::PopRdi, Line::PopRax, m2);
    lemma_kept_chain(m.memory, m1.memory, m2.memory, m.rsp, m1.rsp, m.rbp, slots);
}

/// The lines that close an operator pop its operands, compute, and push
/// the value.
proof fn lemma_binary_tail(
    kind: NodeKind,
    slots: nat,
    m: Machine,
    m1: Machine,
    m2: Machine,
    left: Outcome,
    right: Outcome,
)
    requires
        steady(m, slots),
        pushed(m, m1, slots, left),
        pushed(m1, m2, slots, right),
    ensures
        computes(
            m,
            run(seq![Line::PopRdi, Line::PopRax] + operation(kind) + seq![Line::PushRax], m2),
            slots,
            match apply_operator(kind, left.value, right.value) {
                Some(value) => Some(Outcome { value, frame: right.frame }),
                None => None,
            },
        ),
{
    let pops = seq![Line::PopRdi, Line::PopRax];
    let close = seq![Line::PushRax];
    lemma_operands_popped(slots, m, m1, m2, left, right);
    let m3 = Machine { rdi: right.value, rax: left.value, rsp: m.rsp, ..m2 };
    lemma_operation_runs(kind, m3);
    lemma_run_concat(pops, operation(kind), m2);
    lemma_run_concat(pops + operation(kind), close, m2);
    if let Some(value) = apply_operator(kind, left.value, right.value) {
        let m4 = run(operation(kind), m3)->Some_0;
        lemma_run_one(Line::PushRax, m4);
        let done = Machine { rsp: m.rsp - 8, memory: m2.memory.insert(m.rsp - 8, value), ..m4 };
        assert(run(close, m4) == Some(done));
        lemma_frame_kept(m2.memory, m.rbp, slots, m.rsp - 8, value);
        lemma_kept_write(m.memory, m2.memory, m.rsp, m.rbp, slots, m.rsp - 8, value);
    }
}

/// The machine after the lines that close an assignment to the cell at
/// `place`.
pub open spec fn assigned_to(m: Machine, place: int, value: int) -> Machine {
    Machine {
        rdi: value,
        rax: place,
        rsp: m.rsp + 8,
        memory: m.memory.insert(place, value).insert(m.rsp + 8, value),
        ..m
    }
}

/// The lines that close an assignment pop the value and the address, store
/// the value there, and push it.
proof fn lemma_assign_steps(m: Machine, place: int, value: int)
    requires
        !m.returned,
        aligned(m.rsp),
        aligned(place),
        m.memory[m.rsp] == value,
        m.memory[m.rsp + 8] == place,
    ensures
        run(seq![Line::PopRdi, Line::PopRax, Line::Store, Line::PushRdi], m) == Some(
            assigned_to(m, place, value),
        ),
{
    lemma_aligned(m.rsp);
    let s1 = Machine { rdi: value, rsp: m.rsp + 8, ..m };
    assert(after(Some(m), Line::PopRdi) == Some(s1));
    let s2 = Machine { rax: place, rsp: m.rsp + 16, ..s1 };
    assert(after(Some(s1), Line::PopRax) == Some(s2));
    let s3 = Machine { memory: m.memory.insert(place, value), ..s2 };
    assert(after(Some(s2), Line::Store) == Some(s3));
    assert(after(Some(s3), Line::PushRdi) == Some(assigned_to(m, place, value)));
    lemma_run_four(Line::PopRdi, Line::PopRax, Line::Store, Line::PushRdi, m);
}

/// The lines that close an assignment store the value and push it.
proof fn lemma_assign_tail(offset: int, slots: nat, m: Machine, m2: Machine, assigned: Outcome)
    requires
        steady(m, slots),
        is_offset(offset, slots as int),
        pushed(addressed(m, offset), m2, slots, assigned),
    ensures
        computes(
            m,
            run(seq![Line::PopRdi, Line::PopRax, Line::Store, Line::PushRdi], m2),
            slots,
            Some(
                Outcome {
                    value: assigned.value,
                    frame: assigned.frame.update(slot(offset), assigned.value),
                },
            ),
        ),
{
    let m1 = addressed(m, offset);
    let place = m.rbp - offset;
    let value = assigned.value;
    let stored = m2.memory.insert(place, value);
    lemma_aligned_apart(m.rbp, offset);
    lemma_aligned(m.rsp);
    assert(in_frame(place, m.rbp, slots));
    lemma_kept_at(m1.memory, m2.memory, m1.rsp, m.rbp, slots, m1.rsp);
    lemma_assign_steps(m2, place, value);
    lemma_frame_written(m2.memory, m.rbp, slots, offset, value);
    lemma_frame_kept(stored, m.rbp, slots, m.rsp - 8, value);
    lemma_address_runs(offset, slots, m);
    lemma_kept_chain(m.memory, m1.memory, m2.memory, m.rsp, m1.rsp, m.rbp, slots);
    lemma_kept_write(m.memory, m2.memory, m.rsp, m.rbp, slots, place, value);
    lemma_kept_write(m.memory, stored, m.rsp, m.rbp, slots, m.rsp - 8, value);
}

/// The lines of an assignment compute it, if the lines of its right side
/// compute that.
proof fn lemma_assign_runs(tree: Tree, next: nat, slots: nat, m: Machine)
    requires
        tree is Assign,
        *tree->Assign_lhs is LVar,
        is_offset(tree->Assign_lhs->offset, slots as int),
        steady(m, slots),
        computes(
            addressed(m, tree->Assign_lhs->offset),
            run(gen(*tree->Assign_rhs, next), addressed(m, tree->Assign_lhs->offset)),
            slots,
            eval(*tree->Assign_rhs, frame_of(m.memory, m.rbp, slots)),
        ),
    ensures
        computes(m, run(gen(tree, next), m), slots, eval(tree, frame_of(m.memory, m.rbp, slots))),
{
    let frame = frame_of(m.memory, m.rbp, slots);
    let offset = tree->Assign_lhs->offset;
    let rhs = *tree->Assign_rhs;
    let close = seq![Line::PopRdi, Line::PopRax, Line::Store, Line::PushRdi];
    let m1 = addressed(m, offset);
    lemma_address_runs(offset, slots, m);
    lemma_run_concat(address(offset), gen(rhs, next), m);
    lemma_run_concat(address(offset) + gen(rhs, next), close, m);
    assert(gen(tree, next) =~= address(offset) + gen(rhs, next) + close);
    if let Some(assigned) = eval(rhs, frame) {
        let m2 = run(gen(rhs, next), m1)->Some_0;
        lemma_assign_tail(offset, slots, m, m2, assigned);
    }
}

/// The lines of an operator compute it, if the lines of its operands
/// compute them.
proof fn lemma_binary_runs(tree: Tree, next: nat, slots: nat, m: Machine)
    requires
        tree is Binary,
        steady(m, slots),
        computes(
            m,
            run(gen(*tree->Binary_lhs, next), m),
            slots,
            eval(*tree->Binary_lhs, frame_of(m.memory, m.rbp, slots)),
        ),
        run(gen(*tree->Binary_lhs, next), m) matches Some(m1) ==> computes(
            m1,
            run(gen(*tree->Binary_rhs, next + branches(*tree->Binary_lhs)), m1),
            slots,
            eval(*tree->Binary_rhs, frame_of(m1.memory, m1.rbp, slots)),
        ),
    ensures
        computes(m, run(gen(tree, next), m), slots, eval(tree, frame_of(m.memory, m.rbp, slots))),
{
    let frame = frame_of(m.memory, m.rbp, slots);
    let kind = tree->kind;
    let lhs = *tree->Binary_lhs;
    let rhs = *tree->Binary_rhs;
    let second = next + branches(lhs);
    let close = seq![Line::PopRdi, Line::PopRax] + operation(kind) + seq![Line::PushRax];
    lemma_run_concat(gen(lhs, next), gen(rhs, second), m);
    lemma_run_concat(gen(lhs, next) + gen(rhs, second), close, m);
    assert(gen(tree, next) =~= gen(lhs, next) + gen(rhs, second) + close);
    if let Some(left) = eval(lhs, frame) {
        let m1 = run(gen(lhs, next), m)->Some_0;
        if let Some(right) = eval(rhs, left.frame) {
            let m2 = run(gen(rhs, second), m1)->Some_0;
            lemma_binary_tail(kind, slots, m, m1, m2, left, right);
        }
    }
}

/// **The lines of an expression compute it.** Run in a steady state of the
/// machine, the lines of an expression that is fit for the frame push its
/// value, leave in the variables what the expression leaves in them, and
/// change nothing else at or above the old top of the stack. Where the
/// expression has no value, the machine traps.
pub proof fn lemma_expression_runs(tree: Tree, next: nat, slots: nat, m: Machine)
    requires
        expression(tree),
        well_formed(tree, slots as int),
        steady(m, slots),
    ensures
        computes(m, run(gen(tree, next), m), slots, eval(tree, frame_of(m.memory, m.rbp, slots))),
    decreases tree, 1int,
{
    match tree {
        Tree::Num(text) => {
            lemma_number_runs(text, next, slots, m);
        },
        Tree::LVar { offset } => {
            lemma_variable_runs(offset, next, slots, m);
        },
        Tree::Assign { lhs, rhs } => {
            lemma_assign_case(tree, next, slots, m);
        },
        Tree::Binary { kind, lhs, rhs } => {
            lemma_binary_case(tree, next, slots, m);
        },
        _ => {},
    }
}

/// [`lemma_expression_runs`] for an assignment.
proof fn lemma_assign_case(tree: Tree, next: nat, slots: nat, m: Machine)
    requires
        tree is Assign,
        expression(tree),
        well_formed(tree, slots as int),
        steady(m, slots),
    ensures
        computes(m, run(gen(tree, next), m), slots, eval(tree, frame_of(m.memory, m.rbp, slots))),
    decreases tree, 0int,
{
    let lhs = *tree->Assign_lhs;
    let rhs = *tree->Assign_rhs;
    let offset = lhs->offset;
    assert(well_formed(lhs, slots as int));
    assert(well_formed(rhs, slots as int));
    assert(expression(rhs));
    let m1 = addressed(m, offset);
    lemma_address_runs(offset, slots, m);
    lemma_steady(
        m,
        m1,
        slots,
        Outcome { value: m.rbp - offset, frame: frame_of(m.memory, m.rbp, slots) },
    );
    lemma_expression_runs(rhs, next, slots, m1);
    lemma_assign_runs(tree, next, slots, m);
}

/// [`lemma_expression_runs`] for an operator.
proof fn lemma_binary_case(tree: Tree, next: nat, slots: nat, m: Machine)
    requires
        tree is Binary,
        expression(tree),
        well_formed(tree, slots as int),
        steady(m, slots),
    ensures
        computes(m, run(gen(tree, next), m), slots, eval(tree, frame_of(m.memory, m.rbp, slots))),
    decreases tree, 0int,
{
    let lhs = *tree->Binary_lhs;
    let rhs = *tree->Binary_rhs;
    let second = next + branches(lhs);
    assert(well_formed(lhs, slots as int) && well_formed(rhs, slots as int));
    assert(expression(lhs) && expression(rhs));
    lemma_expression_runs(lhs, next, slots, m);
    if let Some(left) = eval(lhs, frame_of(m.memory, m.rbp, slots)) {
        let m1 = run(gen(lhs, next), m)->Some_0;
        lemma_steady(m, m1, slots, left);
        lemma_expression_runs(rhs, second, slots, m1);
    }
    lemma_binary_runs(tree, next, slots, m);
}

/// Whether the machine has come as far as `expected` says. Between two
/// statements the stack is as it was, `rax` holds the last value and the
/// variables hold the frame; after a return the frame of the caller is
/// restored and `rax` holds the value. Where `expected` is nothing, the
/// machine has trapped.
pub open spec fn follows(
    before: Machine,
    after_run: Option<Machine>,
    slots: nat,
    expected: Option<Progress>,
) -> bool {
    match expected {
        Some(Progress::Running { frame, rax }) => {
            &&& after_run matches Some(m)
            &&& !m.returned
            &&& m.rax == rax
            &&& m.rsp == before.rsp
            &&& m.rbp == before.rbp
            &&& frame_of(m.memory, m.rbp, slots) == frame
            &&& kept(before.memory, m.memory, before.rsp, before.rbp, slots)
        },
        Some(Progress::Returned { value }) => {
            &&& after_run matches Some(m)
            &&& m.returned
            &&& m.rax == value
            &&& m.rbp == before.memory[before.rbp]
            &&& m.rsp == before.rbp + 16
        },
        None => after_run is None,
    }
}

/// The machine after the lines of [`epilogue`].
pub open spec fn left(m: Machine) -> Machine {
    Machine { rsp: m.rbp + 16, rbp: m.memory[m.rbp], returned: true, ..m }
}

/// The lines that leave the frame restore the caller's and return.
proof fn lemma_epilogue_runs(m: Machine)
    requires
        !m.returned,
        aligned(m.rbp),
    ensures
        run(epilogue(), m) == Some(left(m)),
{
    lemma_aligned(m.rbp);
    let s1 = Machine { rsp: m.rbp, ..m };
    assert(after(Some(m), Line::LeaveFrame) == Some(s1));
    let s2 = Machine { rsp: m.rbp + 8, rbp: m.memory[m.rbp], ..s1 };
    assert(after(Some(s1), Line::PopRbp) == Some(s2));
    assert(after(Some(s2), Line::Ret) == Some(left(m)));
    lemma_run_three(Line::LeaveFrame, Line::PopRbp, Line::Ret, m);
}

/// The pop that follows an expression leaves its value in `rax` and the
/// stack where it was.
proof fn lemma_value_popped(slots: nat, m: Machine, m1: Machine, outcome: Outcome)
    requires
        steady(m, slots),
        pushed(m, m1, slots, outcome),
    ensures
        run(seq![Line::PopRax], m1) == Some(Machine { rax: outcome.value, rsp: m.rsp, ..m1 }),
{
    lemma_aligned(m.rsp);
    lemma_run_one(Line::PopRax, m1);
}

/// The lines of a return compute the value and leave `main` with it.
proof fn lemma_return_runs(tree: Tree, next: nat, slots: nat, m: Machine)
    requires
        tree is Return,
        expression(*tree->Return_0),
        well_formed(tree, slots as int),
        steady(m, slots),
    ensures
        follows(
            m,
            run(gen(tree, next) + seq![Line::PopRax], m),
            slots,
            advance(tree, frame_of(m.memory, m.rbp, slots)),
        ),
{
    let operand = *tree->Return_0;
    let frame = frame_of(m.memory, m.rbp, slots);
    let pop = seq![Line::PopRax];
    let value_lines = gen(operand, next);
    assert(well_formed(operand, slots as int));
    lemma_expression_runs(operand, next, slots, m);
    lemma_run_concat(value_lines, pop, m);
    lemma_run_concat(value_lines + pop, epilogue(), m);
    lemma_run_concat(gen(tree, next), pop, m);
    assert(gen(tree, next) =~= value_lines + pop + epilogue());
    if let Some(outcome) = eval(operand, frame) {
        let m1 = run(value_lines, m)->Some_0;
        lemma_value_popped(slots, m, m1, outcome);
        let m2 = Machine { rax: outcome.value, rsp: m.rsp, ..m1 };
        lemma_epilogue_runs(m2);
        lemma_run_returned(pop, left(m2));
        lemma_kept_at(m.memory, m1.memory, m.rsp, m.rbp, slots, m.rbp);
    }
}

/// The lines of a statement, with the pop that follows them, take the
/// machine as far as the statement takes the program.
proof fn lemma_statement_runs(tree: Tree, next: nat, slots: nat, m: Machine)
    requires
        statement(tree),
        well_formed(tree, slots as int),
        steady(m, slots),
    ensures
        follows(
            m,
            run(gen(tree, next) + seq![Line::PopRax], m),
            slots,
            advance(tree, frame_of(m.memory, m.rbp, slots)),
        ),
{
    let frame = frame_of(m.memory, m.rbp, slots);
    if tree is Return {
        lemma_return_runs(tree, next, slots, m);
    } else {
        lemma_expression_runs(tree, next, slots, m);
        lemma_run_concat(gen(tree, next), seq![Line::PopRax], m);
        if let Some(outcome) = eval(tree, frame) {
            let m1 = run(gen(tree, next), m)->Some_0;
            lemma_value_popped(slots, m, m1, outcome);
        }
    }
}

/// One statement more takes the machine as far as it takes the program.
proof fn lemma_statements_step(
    tail: Seq<Line>,
    tree: Tree,
    slots: nat,
    m: Machine,
    mid: Option<Machine>,
    so_far: Option<Progress>,
)
    requires
        steady(m, slots),
        follows(m, mid, slots, so_far),
        so_far matches Some(Progress::Running { frame, rax }) ==> follows(
            mid->Some_0,
            run(tail, mid->Some_0),
            slots,
            advance(tree, frame),
        ),
    ensures
        follows(
            m,
            crate::machine::then_run(mid, tail),
            slots,
            match so_far {
                Some(Progress::Running { frame, rax }) => advance(tree, frame),
                other => other,
            },
        ),
{
    match so_far {
        Some(Progress::Running { frame, rax }) => {
            let middle = mid->Some_0;
            match advance(tree, frame) {
                Some(Progress::Running { frame: f, rax: r }) => {
                    let done = run(tail, middle)->Some_0;
                    lemma_kept_chain(
                        m.memory,
                        middle.memory,
                        done.memory,
                        m.rsp,
                        m.rsp,
                        m.rbp,
                        slots,
                    );
                },
                Some(Progress::Returned { value }) => {
                    lemma_kept_at(m.memory, middle.memory, m.rsp, m.rbp, slots, m.rbp);
                },
                None => {},
            }
        },
        Some(Progress::Returned { value }) => {
            lemma_run_returned(tail, mid->Some_0);
        },
        None => {},
    }
}

/// **The lines of statements execute them.** Run in a steady state of the
/// machine, the lines of statements that are fit for the frame take the
/// machine as far as the statements take the program, and trap where a
/// statement has no value.
pub proof fn lemma_statements_run(code: Seq<Tree>, next: nat, slots: nat, m: Machine)
    requires
        forall|i: int| 0 <= i < code.len() ==> statement(#[trigger] code[i]),
        forall|i: int| 0 <= i < code.len() ==> well_formed(#[trigger] code[i], slots as int),
        steady(m, slots),
    ensures
        follows(
            m,
            run(statements(code, next), m),
            slots,
            execute(code, frame_of(m.memory, m.rbp, slots), m.rax),
        ),
    decreases code.len(),
{
    if code.len() == 0 {
        lemma_kept_same(m.memory, m.rsp, m.rbp, slots);
    } else {
        let front = code.drop_last();
        let last = code.last();
        let second = next + branches_of(front);
        let tail = gen(last, second) + seq![Line::PopRax];
        assert forall|i: int| 0 <= i < front.len() implies statement(#[trigger] front[i])
            && well_formed(front[i], slots as int) by {
            assert(front[i] == code[i]);
        }
        lemma_statements_run(front, next, slots, m);
        lemma_run_concat(statements(front, next), tail, m);
        assert(statements(code, next) =~= statements(front, next) + tail);
        let mid = run(statements(front, next), m);
        let so_far = execute(front, frame_of(m.memory, m.rbp, slots), m.rax);
        if let Some(Progress::Running { frame, rax }) = so_far {
            assert(statement(last) && well_formed(last, slots as int));
            lemma_statement_runs(last, second, slots, mid->Some_0);
        }
        lemma_statements_step(tail, last, slots, m, mid, so_far);
    }
}

/// The machine inside `main`, after the lines that open the frame.
pub open spec fn entered(m: Machine, slots: nat) -> Machine {
    Machine {
        rbp: m.rsp - 8,
        rsp: m.rsp - 8 - frame_size(slots),
        memory: m.memory.insert(m.rsp - 8, m.rbp),
        flags: None,
        ..m
    }
}

/// The lines that open the frame save the caller's frame and reserve the
/// room of the variables.
proof fn lemma_prologue_runs(slots: nat, m: Machine)
    requires
        !m.returned,
        aligned(m.rsp),
    ensures
        run(prologue(slots), m) == Some(entered(m, slots)),
{
    let first = seq![Line::IntelSyntax, Line::GlobalMain, Line::Main];
    let second = seq![Line::PushRbp, Line::EnterFrame, Line::Reserve(frame_size(slots))];
    lemma_run_three(Line::IntelSyntax, Line::GlobalMain, Line::Main, m);
    let s1 = Machine { rsp: m.rsp - 8, memory: m.memory.insert(m.rsp - 8, m.rbp), ..m };
    assert(after(Some(m), Line::PushRbp) == Some(s1));
    let s2 = Machine { rbp: m.rsp - 8, ..s1 };
    assert(after(Some(s1), Line::EnterFrame) == Some(s2));
    assert(after(Some(s2), Line::Reserve(frame_size(slots))) == Some(entered(m, slots)));
    lemma_run_three(Line::PushRbp, Line::EnterFrame, Line::Reserve(frame_size(slots)), m);
    lemma_run_concat(first, second, m);
    assert(prologue(slots) =~= first + second);
}

/// Whether the machine is about to enter `main`: the stack is aligned, and
/// the addresses of a frame of `slots` variables fit a register.
pub open spec fn calling(m: Machine, slots: nat) -> bool {
    &&& !m.returned
    &&& aligned(m.rsp)
    &&& fits(m.rsp - 8)
    &&& fits(m.rsp - 8 - 8 * slots)
}

/// The variables of `main` as they are when it is entered: what the memory
/// holds where the frame will be.
pub open spec fn first_frame(m: Machine, slots: nat) -> Seq<int> {
    frame_of(m.memory, m.rsp - 8, slots)
}

/// Inside `main` the machine is steady, and the variables hold what the
/// memory held.
proof fn lemma_entered(slots: nat, m: Machine)
    requires
        calling(m, slots),
    ensures
        steady(entered(m, slots), slots),
        frame_of(entered(m, slots).memory, entered(m, slots).rbp, slots) == first_frame(m, slots),
        entered(m, slots).memory[m.rsp - 8] == m.rbp,
        entered(m, slots).rax == m.rax,
{
    lemma_align_up(slots * 8, 16);
    let size = frame_size(slots) as int;
    assert(size % 8 == 0) by (nonlinear_arith)
        requires
            size % 16 == 0,
    ;
    lemma_aligned(m.rsp);
    lemma_aligned_apart(m.rsp - 8, size);
    lemma_frame_kept(m.memory, m.rsp - 8, slots, m.rsp - 8, m.rbp);
}

/// Whether `after_run` is the return from `main` to the caller of `before`
/// with `value` in `rax`: the frame of the caller is restored and the return
/// address is popped.
pub open spec fn returns_with(before: Machine, after_run: Option<Machine>, value: int) -> bool {
    &&& after_run matches Some(done)
    &&& done.returned
    &&& done.rax == value
    &&& done.rbp == before.rbp
    &&& done.rsp == before.rsp + 8
}

/// **The emitted program computes what the program means.** Called in a
/// state of the machine with an aligned stack, the lines of a program whose
/// statements are fit for its frame return with the [`result`] of the
/// program in `rax`, with the frame of the caller restored and the return
/// address popped. Where the program has no result, the machine traps.
pub proof fn lemma_program_runs(code: Seq<Tree>, slots: nat, next: nat, m: Machine)
    requires
        forall|i: int| 0 <= i < code.len() ==> statement(#[trigger] code[i]),
        forall|i: int| 0 <= i < code.len() ==> well_formed(#[trigger] code[i], slots as int),
        calling(m, slots),
    ensures
        match result(code, first_frame(m, slots), m.rax) {
            Some(value) => returns_with(m, run(program_lines(code, slots, next), m), value),
            None => run(program_lines(code, slots, next), m) is None,
        },
{
    let inside = entered(m, slots);
    lemma_prologue_runs(slots, m);
    lemma_entered(slots, m);
    lemma_statements_run(code, next, slots, inside);
    lemma_run_concat(prologue(slots), statements(code, next), m);
    lemma_run_concat(prologue(slots) + statements(code, next), epilogue(), m);
    match execute(code, first_frame(m, slots), m.rax) {
        Some(Progress::Running { frame, rax }) => {
            let mid = run(statements(code, next), inside)->Some_0;
            lemma_epilogue_runs(mid);
            lemma_kept_at(inside.memory, mid.memory, inside.rsp, inside.rbp, slots, inside.rbp);
        },
        Some(Progress::Returned { value }) => {
            let mid = run(statements(code, next), inside)->Some_0;
            lemma_run_returned(epilogue(), mid);
        },
        None => {},
    }
}

} // verus!
