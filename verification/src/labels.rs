//! The labels of the emitted lines: every conditional and every loop places
//! two labels under a number of its own, so no label is placed twice and no
//! jump can reach the label of another construct by accident.

use vstd::prelude::*;
use crate::ast::{Tree, branches, branches_of};
use crate::lines::{
    Label, LabelKind, Line, address, all_assignable, assignable, branch_if_zero, branches_in,
    epilogue, gen, gen_in, operation, program_lines, prologue, statements,
};

verus! {

/// The lines among `lines` that place any label.
pub open spec fn any_place() -> spec_fn(Line) -> bool {
    |line: Line| line is Place
}

/// The lines among `lines` that place `label`.
pub open spec fn place_of(label: Label) -> spec_fn(Line) -> bool {
    |line: Line| line == Line::Place(label)
}

/// How many lines of `lines` place a label.
pub open spec fn label_count(lines: Seq<Line>) -> nat {
    lines.filter(any_place()).len()
}

/// How many lines of `lines` place `label`.
pub open spec fn placed(lines: Seq<Line>, label: Label) -> nat {
    lines.filter(place_of(label)).len()
}

/// How many lines of `lines` place the label that opens the second part of
/// the construct `id`: the head of a loop or the else branch of a
/// conditional.
pub open spec fn heads(lines: Seq<Line>, id: nat) -> nat {
    placed(lines, Label { kind: LabelKind::Begin, id }) + placed(
        lines,
        Label { kind: LabelKind::Else, id },
    )
}

/// How many lines of `lines` place the end label of the construct `id`.
pub open spec fn ends(lines: Seq<Line>, id: nat) -> nat {
    placed(lines, Label { kind: LabelKind::End, id })
}

/// 1 where `id` is one of the `count` numbers from `next` on, else 0.
pub open spec fn taken(id: nat, next: nat, count: nat) -> nat {
    if next <= id < next + count {
        1
    } else {
        0
    }
}

/// Whether the labels of `lines` are those of `count` constructs numbered
/// from `next` on, as far as the number `id` can tell: there are two labels
/// for each construct, and `id` has one label of each sort if it is one of
/// the numbers, and none if it is not.
pub open spec fn numbered(lines: Seq<Line>, next: nat, count: nat, id: nat) -> bool {
    &&& label_count(lines) == 2 * count
    &&& heads(lines, id) == taken(id, next, count)
    &&& ends(lines, id) == taken(id, next, count)
}

/// Counting the lines that meet `pred`, one line more.
proof fn lemma_count_push(lines: Seq<Line>, line: Line, pred: spec_fn(Line) -> bool)
    ensures
        lines.push(line).filter(pred).len() == lines.filter(pred).len() + if pred(line) {
            1int
        } else {
            0int
        },
{
    reveal(Seq::filter);
    assert(lines.push(line).drop_last() =~= lines);
}

/// Lines that follow one another are numbered one after the other.
proof fn lemma_numbered_concat(
    a: Seq<Line>,
    b: Seq<Line>,
    next: nat,
    count_a: nat,
    count_b: nat,
    id: nat,
)
    requires
        numbered(a, next, count_a, id),
        numbered(b, next + count_a, count_b, id),
    ensures
        numbered(a + b, next, count_a + count_b, id),
{
    Seq::filter_distributes_over_add(a, b, any_place());
    Seq::filter_distributes_over_add(a, b, place_of(Label { kind: LabelKind::Begin, id }));
    Seq::filter_distributes_over_add(a, b, place_of(Label { kind: LabelKind::Else, id }));
    Seq::filter_distributes_over_add(a, b, place_of(Label { kind: LabelKind::End, id }));
}

/// Lines that place no label number nothing.
proof fn lemma_numbered_plain(lines: Seq<Line>, next: nat, id: nat)
    requires
        forall|i: int| 0 <= i < lines.len() ==> !(#[trigger] lines[i] is Place),
    ensures
        numbered(lines, next, 0, id),
    decreases lines.len(),
{
    reveal(Seq::filter);
    if lines.len() > 0 {
        let front = lines.drop_last();
        assert forall|i: int| 0 <= i < front.len() implies !(#[trigger] front[i] is Place) by {
            assert(front[i] == lines[i]);
        }
        lemma_numbered_plain(front, next, id);
        assert(!(lines.last() is Place));
    } else {
        assert(lines.filter(any_place()) =~= Seq::<Line>::empty());
    }
}

/// The line that places `label`, counted for `id`.
proof fn lemma_numbered_place(label: Label, id: nat)
    ensures
        label_count(seq![Line::Place(label)]) == 1,
        heads(seq![Line::Place(label)], id) == if label.id == id && !(label.kind is End) {
            1int
        } else {
            0int
        },
        ends(seq![Line::Place(label)], id) == if label.id == id && label.kind is End {
            1int
        } else {
            0int
        },
{
    let none = Seq::<Line>::empty();
    let line = Line::Place(label);
    assert(seq![line] =~= none.push(line));
    reveal(Seq::filter);
    lemma_count_push(none, line, any_place());
    lemma_count_push(none, line, place_of(Label { kind: LabelKind::Begin, id }));
    lemma_count_push(none, line, place_of(Label { kind: LabelKind::Else, id }));
    lemma_count_push(none, line, place_of(Label { kind: LabelKind::End, id }));
}

/// Lines without a label can stand before numbered lines, and behind them.
proof fn lemma_numbered_around(
    before: Seq<Line>,
    lines: Seq<Line>,
    behind: Seq<Line>,
    next: nat,
    count: nat,
    id: nat,
)
    requires
        forall|i: int| 0 <= i < before.len() ==> !(#[trigger] before[i] is Place),
        forall|i: int| 0 <= i < behind.len() ==> !(#[trigger] behind[i] is Place),
        numbered(lines, next, count, id),
    ensures
        numbered(before + lines + behind, next, count, id),
{
    lemma_numbered_plain(before, next, id);
    lemma_numbered_plain(behind, next + count, id);
    lemma_numbered_concat(before, lines, next, 0, count, id);
    lemma_numbered_concat(before + lines, behind, next, count, 0, id);
}

/// The lines of an optional child are numbered like those of a child.
proof fn lemma_child_numbered(child: Option<Box<Tree>>, next: nat, id: nat)
    requires
        child matches Some(tree) ==> numbered(gen(*tree, next), next, branches(*tree), id),
    ensures
        numbered(gen_in(child, next), next, branches_in(child), id),
{
    if child is None {
        lemma_numbered_plain(Seq::empty(), next, id);
    }
}

/// A construct: lines, the label that opens its second part, more lines,
/// and its end label. If the lines are numbered from the number behind that
/// of the labels on, the whole is numbered from the number of the labels on.
proof fn lemma_construct(
    first: Seq<Line>,
    head: Label,
    second: Seq<Line>,
    end: Label,
    next: nat,
    count_first: nat,
    count_second: nat,
    id: nat,
)
    requires
        head.id == next,
        end.id == next,
        !(head.kind is End),
        end.kind is End,
        numbered(first, next + 1, count_first, id),
        numbered(second, next + 1 + count_first, count_second, id),
    ensures
        numbered(
            first + seq![Line::Place(head)] + second + seq![Line::Place(end)],
            next,
            1 + count_first + count_second,
            id,
        ),
{
    lemma_numbered_place(head, id);
    lemma_numbered_place(end, id);
    lemma_split(first, seq![Line::Place(head)], id);
    lemma_split(first + seq![Line::Place(head)], second, id);
    lemma_split(first + seq![Line::Place(head)] + second, seq![Line::Place(end)], id);
}

/// The lines of a conditional, in the parts of a construct.
proof fn lemma_if_shape(tree: Tree, next: nat)
    requires
        tree is If,
    ensures
        gen(tree, next) == gen(*tree->If_cond, next + 1) + branch_if_zero(
            Label { kind: LabelKind::Else, id: next },
        ) + gen(*tree->If_then, next + 1 + branches(*tree->If_cond)) + seq![
            Line::Jump(Label { kind: LabelKind::End, id: next }),
        ] + seq![Line::Place(Label { kind: LabelKind::Else, id: next })] + gen_in(
            tree->els,
            next + 1 + branches(*tree->If_cond) + branches(*tree->If_then),
        ) + seq![Line::Place(Label { kind: LabelKind::End, id: next })],
        branches(tree) == 1 + branches(*tree->If_cond) + branches(*tree->If_then) + branches_in(
            tree->els,
        ),
{
    let to_else = Label { kind: LabelKind::Else, id: next };
    let to_end = Label { kind: LabelKind::End, id: next };
    let after_cond = next + 1 + branches(*tree->If_cond);
    let after_then = after_cond + branches(*tree->If_then);
    assert(gen(tree, next) =~= gen(*tree->If_cond, next + 1) + branch_if_zero(to_else) + gen(
        *tree->If_then,
        after_cond,
    ) + seq![Line::Jump(to_end)] + seq![Line::Place(to_else)] + gen_in(tree->els, after_then)
        + seq![Line::Place(to_end)]);
}

/// The lines of a conditional are numbered, if those of its children are.
proof fn lemma_if_numbered(tree: Tree, next: nat, id: nat)
    requires
        tree is If,
        numbered(gen(*tree->If_cond, next + 1), next + 1, branches(*tree->If_cond), id),
        numbered(
            gen(*tree->If_then, next + 1 + branches(*tree->If_cond)),
            next + 1 + branches(*tree->If_cond),
            branches(*tree->If_then),
            id,
        ),
        numbered(
            gen_in(tree->els, next + 1 + branches(*tree->If_cond) + branches(*tree->If_then)),
            next + 1 + branches(*tree->If_cond) + branches(*tree->If_then),
            branches_in(tree->els),
            id,
        ),
    ensures
        numbered(gen(tree, next), next, branches(tree), id),
{
    let none = Seq::<Line>::empty();
    let to_else = Label { kind: LabelKind::Else, id: next };
    let to_end = Label { kind: LabelKind::End, id: next };
    let count_cond = branches(*tree->If_cond);
    let count_then = branches(*tree->If_then);
    let after_cond = next + 1 + count_cond;
    let after_then = after_cond + count_then;
    let test = gen(*tree->If_cond, next + 1) + branch_if_zero(to_else);
    lemma_numbered_around(
        none,
        gen(*tree->If_cond, next + 1),
        branch_if_zero(to_else),
        next + 1,
        count_cond,
        id,
    );
    assert(test =~= none + gen(*tree->If_cond, next + 1) + branch_if_zero(to_else));
    let taken_branch = gen(*tree->If_then, after_cond) + seq![Line::Jump(to_end)];
    lemma_numbered_around(
        none,
        gen(*tree->If_then, after_cond),
        seq![Line::Jump(to_end)],
        after_cond,
        count_then,
        id,
    );
    assert(taken_branch =~= none + gen(*tree->If_then, after_cond) + seq![Line::Jump(to_end)]);
    lemma_numbered_concat(test, taken_branch, next + 1, count_cond, count_then, id);
    lemma_construct(
        test + taken_branch,
        to_else,
        gen_in(tree->els, after_then),
        to_end,
        next,
        count_cond + count_then,
        branches_in(tree->els),
        id,
    );
    lemma_if_shape(tree, next);
    assert(gen(tree, next) =~= test + taken_branch + seq![Line::Place(to_else)] + gen_in(
        tree->els,
        after_then,
    ) + seq![Line::Place(to_end)]);
}

/// What a loop does at every turn: the test of its condition, its body, its
/// step, and the jump back.
pub open spec fn turn(tree: Tree, next: nat) -> Seq<Line>
    recommends
        tree is For,
{
    let to_begin = Label { kind: LabelKind::Begin, id: next };
    let to_end = Label { kind: LabelKind::End, id: next };
    let after_init = next + 1 + branches_in(tree->init);
    let after_cond = after_init + branches_in(tree->For_cond);
    let after_then = after_cond + branches(*tree->For_then);
    (match tree->For_cond {
        Some(child) => gen(*child, after_init) + branch_if_zero(to_end),
        None => Seq::empty(),
    }) + gen(*tree->For_then, after_cond) + gen_in(tree->inc, after_then) + seq![
        Line::Jump(to_begin),
    ]
}

/// The lines of a loop, in the parts of a construct.
proof fn lemma_for_shape(tree: Tree, next: nat)
    requires
        tree is For,
    ensures
        gen(tree, next) == gen_in(tree->init, next + 1) + seq![
            Line::Place(Label { kind: LabelKind::Begin, id: next }),
        ] + turn(tree, next) + seq![Line::Place(Label { kind: LabelKind::End, id: next })],
        branches(tree) == 1 + branches_in(tree->init) + branches_in(tree->For_cond) + branches(
            *tree->For_then,
        ) + branches_in(tree->inc),
{
    assert(gen(tree, next) =~= gen_in(tree->init, next + 1) + seq![
        Line::Place(Label { kind: LabelKind::Begin, id: next }),
    ] + turn(tree, next) + seq![Line::Place(Label { kind: LabelKind::End, id: next })]);
}

/// The lines of a turn of a loop are numbered, if those of its children are.
proof fn lemma_turn_numbered(tree: Tree, next: nat, id: nat)
    requires
        tree is For,
        numbered(
            gen_in(tree->For_cond, next + 1 + branches_in(tree->init)),
            next + 1 + branches_in(tree->init),
            branches_in(tree->For_cond),
            id,
        ),
        numbered(
            gen(
                *tree->For_then,
                next + 1 + branches_in(tree->init) + branches_in(tree->For_cond),
            ),
            next + 1 + branches_in(tree->init) + branches_in(tree->For_cond),
            branches(*tree->For_then),
            id,
        ),
        numbered(
            gen_in(
                tree->inc,
                next + 1 + branches_in(tree->init) + branches_in(tree->For_cond) + branches(
                    *tree->For_then,
                ),
            ),
            next + 1 + branches_in(tree->init) + branches_in(tree->For_cond) + branches(
                *tree->For_then,
            ),
            branches_in(tree->inc),
            id,
        ),
    ensures
        numbered(
            turn(tree, next),
            next + 1 + branches_in(tree->init),
            branches_in(tree->For_cond) + branches(*tree->For_then) + branches_in(tree->inc),
            id,
        ),
{
    let none = Seq::<Line>::empty();
    let to_begin = Label { kind: LabelKind::Begin, id: next };
    let to_end = Label { kind: LabelKind::End, id: next };
    let cond = tree->For_cond;
    let after_init = next + 1 + branches_in(tree->init);
    let after_cond = after_init + branches_in(cond);
    let after_then = after_cond + branches(*tree->For_then);
    let test = match cond {
        Some(child) => gen(*child, after_init) + branch_if_zero(to_end),
        None => none,
    };
    let check = if cond is Some {
        branch_if_zero(to_end)
    } else {
        none
    };
    lemma_numbered_around(none, gen_in(cond, after_init), check, after_init, branches_in(cond), id);
    assert(test =~= none + gen_in(cond, after_init) + check);
    let body = gen(*tree->For_then, after_cond);
    let step = gen_in(tree->inc, after_then);
    lemma_numbered_concat(test, body, after_init, branches_in(cond), branches(*tree->For_then), id);
    lemma_numbered_around(
        none,
        step,
        seq![Line::Jump(to_begin)],
        after_then,
        branches_in(tree->inc),
        id,
    );
    lemma_numbered_concat(
        test + body,
        none + step + seq![Line::Jump(to_begin)],
        after_init,
        branches_in(cond) + branches(*tree->For_then),
        branches_in(tree->inc),
        id,
    );
    assert(turn(tree, next) =~= test + body + (none + step + seq![Line::Jump(to_begin)]));
}

/// The lines of a loop are numbered, if those of its children are.
proof fn lemma_for_numbered(tree: Tree, next: nat, id: nat)
    requires
        tree is For,
        numbered(gen_in(tree->init, next + 1), next + 1, branches_in(tree->init), id),
        numbered(
            gen_in(tree->For_cond, next + 1 + branches_in(tree->init)),
            next + 1 + branches_in(tree->init),
            branches_in(tree->For_cond),
            id,
        ),
        numbered(
            gen(
                *tree->For_then,
                next + 1 + branches_in(tree->init) + branches_in(tree->For_cond),
            ),
            next + 1 + branches_in(tree->init) + branches_in(tree->For_cond),
            branches(*tree->For_then),
            id,
        ),
        numbered(
            gen_in(
                tree->inc,
                next + 1 + branches_in(tree->init) + branches_in(tree->For_cond) + branches(
                    *tree->For_then,
                ),
            ),
            next + 1 + branches_in(tree->init) + branches_in(tree->For_cond) + branches(
                *tree->For_then,
            ),
            branches_in(tree->inc),
            id,
        ),
    ensures
        numbered(gen(tree, next), next, branches(tree), id),
{
    lemma_turn_numbered(tree, next, id);
    lemma_for_shape(tree, next);
    lemma_construct(
        gen_in(tree->init, next + 1),
        Label { kind: LabelKind::Begin, id: next },
        turn(tree, next),
        Label { kind: LabelKind::End, id: next },
        next,
        branches_in(tree->init),
        branches_in(tree->For_cond) + branches(*tree->For_then) + branches_in(tree->inc),
        id,
    );
}

/// The lines of an operator with two operands are numbered, if those of its
/// operands are.
proof fn lemma_binary_numbered(tree: Tree, next: nat, id: nat)
    requires
        tree is Binary,
        numbered(gen(*tree->Binary_lhs, next), next, branches(*tree->Binary_lhs), id),
        numbered(
            gen(*tree->Binary_rhs, next + branches(*tree->Binary_lhs)),
            next + branches(*tree->Binary_lhs),
            branches(*tree->Binary_rhs),
            id,
        ),
    ensures
        numbered(gen(tree, next), next, branches(tree), id),
{
    let none = Seq::<Line>::empty();
    let lhs = tree->Binary_lhs;
    let rhs = tree->Binary_rhs;
    lemma_numbered_concat(
        gen(*lhs, next),
        gen(*rhs, next + branches(*lhs)),
        next,
        branches(*lhs),
        branches(*rhs),
        id,
    );
    let close = seq![Line::PopRdi, Line::PopRax] + operation(tree->kind) + seq![Line::PushRax];
    lemma_numbered_around(
        none,
        gen(*lhs, next) + gen(*rhs, next + branches(*lhs)),
        close,
        next,
        branches(tree),
        id,
    );
    assert(gen(tree, next) =~= none + (gen(*lhs, next) + gen(*rhs, next + branches(*lhs)))
        + close);
}

/// **Every construct has its own labels.** The lines of a tree for which
/// code can be generated place two labels for each conditional and each loop
/// in it. Each number from `next` on, as many as there are such constructs,
/// is the number of exactly one end label and of exactly one other label, and
/// no other number is the number of any label. So no label is placed twice.
pub proof fn lemma_gen_numbered(tree: Tree, next: nat, id: nat)
    requires
        assignable(tree),
    ensures
        numbered(gen(tree, next), next, branches(tree), id),
    decreases tree,
{
    let none = Seq::<Line>::empty();
    match tree {
        Tree::Num(text) => {
            lemma_numbered_plain(gen(tree, next), next, id);
        },
        Tree::LVar { offset } => {
            lemma_numbered_plain(gen(tree, next), next, id);
        },
        Tree::Assign { lhs, rhs } => {
            let offset = lhs->offset;
            lemma_gen_numbered(*rhs, next, id);
            lemma_numbered_around(
                address(offset),
                gen(*rhs, next),
                seq![Line::PopRdi, Line::PopRax, Line::Store, Line::PushRdi],
                next,
                branches(*rhs),
                id,
            );
            assert(branches(*lhs) == 0);
        },
        Tree::Binary { kind, lhs, rhs } => {
            lemma_gen_numbered(*lhs, next, id);
            lemma_gen_numbered(*rhs, next + branches(*lhs), id);
            lemma_binary_numbered(tree, next, id);
        },
        Tree::Return(operand) => {
            lemma_gen_numbered(*operand, next, id);
            let close = seq![Line::PopRax] + epilogue();
            lemma_numbered_around(none, gen(*operand, next), close, next, branches(tree), id);
            assert(gen(tree, next) =~= none + gen(*operand, next) + close);
        },
        Tree::Block(body) => {
            lemma_statements_numbered(body, next, id);
            lemma_numbered_around(
                none,
                statements(body, next),
                seq![Line::PushRax],
                next,
                branches(tree),
                id,
            );
            assert(gen(tree, next) =~= none + statements(body, next) + seq![Line::PushRax]);
        },
        Tree::If { cond, then, els } => {
            let after_cond = next + 1 + branches(*cond);
            let after_then = after_cond + branches(*then);
            lemma_gen_numbered(*cond, next + 1, id);
            lemma_gen_numbered(*then, after_cond, id);
            if let Some(child) = els {
                lemma_gen_numbered(*child, after_then, id);
            }
            lemma_child_numbered(els, after_then, id);
            lemma_if_numbered(tree, next, id);
        },
        Tree::For { init, cond, inc, then } => {
            let after_init = next + 1 + branches_in(init);
            let after_cond = after_init + branches_in(cond);
            let after_then = after_cond + branches(*then);
            if let Some(child) = init {
                lemma_gen_numbered(*child, next + 1, id);
            }
            lemma_child_numbered(init, next + 1, id);
            if let Some(child) = cond {
                lemma_gen_numbered(*child, after_init, id);
            }
            lemma_child_numbered(cond, after_init, id);
            lemma_gen_numbered(*then, after_cond, id);
            if let Some(child) = inc {
                lemma_gen_numbered(*child, after_then, id);
            }
            lemma_child_numbered(inc, after_then, id);
            lemma_for_numbered(tree, next, id);
        },
    }
}

/// The labels of lines that follow one another are counted together.
proof fn lemma_split(a: Seq<Line>, b: Seq<Line>, id: nat)
    ensures
        label_count(a + b) == label_count(a) + label_count(b),
        heads(a + b, id) == heads(a, id) + heads(b, id),
        ends(a + b, id) == ends(a, id) + ends(b, id),
{
    Seq::filter_distributes_over_add(a, b, any_place());
    Seq::filter_distributes_over_add(a, b, place_of(Label { kind: LabelKind::Begin, id }));
    Seq::filter_distributes_over_add(a, b, place_of(Label { kind: LabelKind::Else, id }));
    Seq::filter_distributes_over_add(a, b, place_of(Label { kind: LabelKind::End, id }));
}

/// [`lemma_gen_numbered`] for statements that follow one another.
pub proof fn lemma_statements_numbered(code: Seq<Tree>, next: nat, id: nat)
    requires
        all_assignable(code),
    ensures
        numbered(statements(code, next), next, branches_of(code), id),
    decreases code,
{
    if code.len() == 0 {
        lemma_numbered_plain(Seq::empty(), next, id);
    } else {
        let front = code.drop_last();
        assert forall|i: int| 0 <= i < front.len() implies assignable(#[trigger] front[i]) by {
            assert(front[i] == code[i]);
        }
        lemma_statements_numbered(front, next, id);
        let here = next + branches_of(front);
        lemma_gen_numbered(code.last(), here, id);
        lemma_numbered_around(
            Seq::empty(),
            gen(code.last(), here),
            seq![Line::PopRax],
            here,
            branches(code.last()),
            id,
        );
        assert(gen(code.last(), here) + seq![Line::PopRax] =~= Seq::<Line>::empty() + gen(
            code.last(),
            here,
        ) + seq![Line::PopRax]);
        lemma_numbered_concat(
            statements(front, next),
            gen(code.last(), here) + seq![Line::PopRax],
            next,
            branches_of(front),
            branches(code.last()),
            id,
        );
        assert(statements(code, next) =~= statements(front, next) + (gen(code.last(), here)
            + seq![Line::PopRax]));
    }
}

/// **Every construct of a program has its own labels.** What
/// [`lemma_gen_numbered`] says of a tree holds of the lines of a whole
/// program, numbered from `next` on.
pub proof fn lemma_program_numbered(code: Seq<Tree>, slots: nat, next: nat, id: nat)
    requires
        all_assignable(code),
    ensures
        numbered(program_lines(code, slots, next), next, branches_of(code), id),
{
    lemma_statements_numbered(code, next, id);
    lemma_numbered_around(
        prologue(slots),
        statements(code, next),
        epilogue(),
        next,
        branches_of(code),
        id,
    );
}

/// **No label is placed twice.** In the lines of a program for which code
/// can be generated, no two lines place the same label.
pub proof fn lemma_no_label_twice(code: Seq<Tree>, slots: nat, next: nat, label: Label)
    requires
        all_assignable(code),
    ensures
        placed(program_lines(code, slots, next), label) <= 1,
{
    lemma_program_numbered(code, slots, next, label.id);
    match label.kind {
        LabelKind::Begin => {},
        LabelKind::Else => {},
        LabelKind::End => {},
    }
}

} // verus!
