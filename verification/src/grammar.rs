//! The grammar: which trees a token sequence stands for.
//!
//! The rules, lowest precedence first:
//!
//! ```text
//! program    = statement*
//! statement  = "return" expr ";" | expr ";"
//! expr       = assign
//! assign     = equality ("=" assign)?
//! equality   = relational (("==" | "!=") relational)*
//! relational = add (("<" | "<=" | ">" | ">=") add)*
//! add        = mul (("+" | "-") mul)*
//! mul        = unary (("*" | "/") unary)*
//! unary      = ("+" | "-")? primary
//! primary    = number | identifier | "(" expr ")"
//! ```
//!
//! Each `spec_*` function is one rule, as a function from a position among
//! the tokens and the table of variables to the tree, the position behind it
//! and the table afterwards. The lemmas say what holds of every tree that the
//! rules give.

use vstd::prelude::*;
use crate::ast::{
    NodeKind, Tree, branches_of, flat, is_offset, lemma_simple_statements,
    lemma_well_formed_grows, simple_statement, well_formed,
};
use crate::lexer::{
    Lexeme, TokenKind, complete_tokens, eof_lexeme, is_name, is_number_text, proper,
    proper_lexeme, reserved,
};

verus! {

/// Where `name` stands in `names`: the index of its first occurrence, or the
/// length of `names` where it has none.
pub open spec fn slot_of(names: Seq<Seq<char>>, name: Seq<char>) -> int
    decreases names.len(),
{
    if names.len() == 0 {
        0
    } else if names[0] == name {
        0
    } else {
        1 + slot_of(names.drop_first(), name)
    }
}

/// The table after `name` was looked up in it: a name that is new is added
/// at the end, and one that is known changes nothing.
pub open spec fn intern(names: Seq<Seq<char>>, name: Seq<char>) -> Seq<Seq<char>> {
    if names.contains(name) {
        names
    } else {
        names.push(name)
    }
}

/// The offset of the variable `name`, by the table `names`: its slot,
/// counted from one, times the width of a slot.
pub open spec fn offset_of(names: Seq<Seq<char>>, name: Seq<char>) -> int {
    (slot_of(names, name) + 1) * 8
}

/// A finished parse of one rule: the tree, the position behind it, and the
/// table of variables as it stands then.
pub struct Parsed {
    pub tree: Tree,
    pub pos: int,
    pub names: Seq<Seq<char>>,
}

/// Why a token sequence is no program.
pub enum ParseFault {
    /// The grammar asks for the reserved token `wanted`, and `found` stands
    /// there.
    Expected { wanted: Seq<char>, found: Seq<char> },
    /// The grammar asks for a number, a variable or `(`.
    ExpectedNumber,
}

/// The token at `pos`; behind the last token, the end of input.
pub open spec fn token_at(tokens: Seq<Lexeme>, pos: int) -> Lexeme {
    if 0 <= pos < tokens.len() {
        tokens[pos]
    } else {
        eof_lexeme()
    }
}

/// How many tokens stand at `pos` and behind it.
pub open spec fn remaining(tokens: Seq<Lexeme>, pos: int) -> nat {
    if pos <= tokens.len() {
        (tokens.len() - pos) as nat
    } else {
        0
    }
}

/// The four levels of operators with two operands, loosest first.
pub open spec fn level_equality() -> int {
    0
}

pub open spec fn level_relational() -> int {
    1
}

pub open spec fn level_add() -> int {
    2
}

pub open spec fn level_mul() -> int {
    3
}

/// An operator of the grammar: the kind of node it makes, and whether its
/// operands change places in the node.
pub struct Operator {
    pub kind: NodeKind,
    pub swapped: bool,
}

/// The operator that `token` is at `level`, if it is one there.
pub open spec fn operator_at(level: int, token: Lexeme) -> Option<Operator> {
    if token.kind != TokenKind::TkReserved {
        None
    } else if level == level_equality() {
        if token.text == "=="@ {
            Some(Operator { kind: NodeKind::NodeEQ, swapped: false })
        } else if token.text == "!="@ {
            Some(Operator { kind: NodeKind::NodeNE, swapped: false })
        } else {
            None
        }
    } else if level == level_relational() {
        if token.text == "<"@ {
            Some(Operator { kind: NodeKind::NodeLT, swapped: false })
        } else if token.text == "<="@ {
            Some(Operator { kind: NodeKind::NodeLE, swapped: false })
        } else if token.text == ">"@ {
            Some(Operator { kind: NodeKind::NodeLT, swapped: true })
        } else if token.text == ">="@ {
            Some(Operator { kind: NodeKind::NodeLE, swapped: true })
        } else {
            None
        }
    } else if level == level_add() {
        if token.text == "+"@ {
            Some(Operator { kind: NodeKind::NodeAdd, swapped: false })
        } else if token.text == "-"@ {
            Some(Operator { kind: NodeKind::NodeSub, swapped: false })
        } else {
            None
        }
    } else if level == level_mul() {
        if token.text == "*"@ {
            Some(Operator { kind: NodeKind::NodeMul, swapped: false })
        } else if token.text == "/"@ {
            Some(Operator { kind: NodeKind::NodeDiv, swapped: false })
        } else {
            None
        }
    } else {
        None
    }
}

/// The node that `operator` makes of what stands before it and what stands
/// behind it.
pub open spec fn apply(operator: Operator, before: Tree, behind: Tree) -> Tree {
    if operator.swapped {
        Tree::Binary { kind: operator.kind, lhs: Box::new(behind), rhs: Box::new(before) }
    } else {
        Tree::Binary { kind: operator.kind, lhs: Box::new(before), rhs: Box::new(behind) }
    }
}

/// The number zero, as `-x` has it for its left operand.
pub open spec fn zero() -> Tree {
    Tree::Num(seq!['0'])
}

/// `primary = number | identifier | "(" expr ")"`
///
/// A variable is looked up in the table, and added to it where it is new.
pub open spec fn spec_primary(tokens: Seq<Lexeme>, pos: int, names: Seq<Seq<char>>) -> Result<
    Parsed,
    ParseFault,
>
    decreases remaining(tokens, pos), 1int,
{
    let token = token_at(tokens, pos);
    if token == reserved("("@) {
        match spec_expr(tokens, pos + 1, names) {
            Ok(inner) => {
                let closing = token_at(tokens, inner.pos);
                if closing == reserved(")"@) {
                    Ok(Parsed { tree: inner.tree, pos: inner.pos + 1, names: inner.names })
                } else {
                    Err(ParseFault::Expected { wanted: ")"@, found: closing.text })
                }
            },
            Err(fault) => Err(fault),
        }
    } else if token.kind == TokenKind::TkIdent {
        Ok(
            Parsed {
                tree: Tree::LVar { offset: offset_of(names, token.text) },
                pos: pos + 1,
                names: intern(names, token.text),
            },
        )
    } else if token.kind == TokenKind::TkNum {
        Ok(Parsed { tree: Tree::Num(token.text), pos: pos + 1, names })
    } else {
        Err(ParseFault::ExpectedNumber)
    }
}

/// `unary = ("+" | "-")? primary`
///
/// `+x` is `x`, and `-x` is `0 - x`.
pub open spec fn spec_unary(tokens: Seq<Lexeme>, pos: int, names: Seq<Seq<char>>) -> Result<
    Parsed,
    ParseFault,
>
    decreases remaining(tokens, pos), 2int,
{
    let token = token_at(tokens, pos);
    if token == reserved("+"@) {
        spec_primary(tokens, pos + 1, names)
    } else if token == reserved("-"@) {
        match spec_primary(tokens, pos + 1, names) {
            Ok(operand) => Ok(
                Parsed {
                    tree: Tree::Binary {
                        kind: NodeKind::NodeSub,
                        lhs: Box::new(zero()),
                        rhs: Box::new(operand.tree),
                    },
                    pos: operand.pos,
                    names: operand.names,
                },
            ),
            Err(fault) => Err(fault),
        }
    } else {
        spec_primary(tokens, pos, names)
    }
}

/// An operand of the operators at `level`: a chain of the next tighter
/// level, or a unary expression under the tightest.
pub open spec fn spec_operand(
    tokens: Seq<Lexeme>,
    pos: int,
    names: Seq<Seq<char>>,
    level: int,
) -> Result<Parsed, ParseFault>
    decreases remaining(tokens, pos), 2 * (level_mul() - level) + 3,
{
    if level_equality() <= level < level_mul() {
        spec_binary(tokens, pos, names, level + 1)
    } else if level == level_mul() {
        spec_unary(tokens, pos, names)
    } else {
        Err(ParseFault::ExpectedNumber)
    }
}

/// A chain of operands joined by the operators at `level`, grouped from the
/// left: `operand (operator operand)*`.
///
/// The comparisons of positions, here and in the other rules, are there for
/// the termination measure. On the tokens that the lexer hands out every
/// finished parse of a rule is [`good`], so it has passed at least one token,
/// and none of the comparisons fails.
pub open spec fn spec_binary(
    tokens: Seq<Lexeme>,
    pos: int,
    names: Seq<Seq<char>>,
    level: int,
) -> Result<Parsed, ParseFault>
    decreases remaining(tokens, pos), 2 * (level_mul() - level) + 4,
{
    if level_equality() <= level <= level_mul() {
        match spec_operand(tokens, pos, names, level) {
            Ok(first) => if first.pos >= pos {
                spec_binary_rest(tokens, first, level)
            } else {
                Ok(first)
            },
            Err(fault) => Err(fault),
        }
    } else {
        Err(ParseFault::ExpectedNumber)
    }
}

/// The rest of a chain at `level`, of which `left` has been parsed.
pub open spec fn spec_binary_rest(tokens: Seq<Lexeme>, left: Parsed, level: int) -> Result<
    Parsed,
    ParseFault,
>
    decreases remaining(tokens, left.pos), 0int,
{
    match operator_at(level, token_at(tokens, left.pos)) {
        Some(operator) => {
            if 0 <= left.pos < tokens.len() {
                match spec_operand(tokens, left.pos + 1, left.names, level) {
                    Ok(right) => if right.pos > left.pos {
                        spec_binary_rest(
                            tokens,
                            Parsed {
                                tree: apply(operator, left.tree, right.tree),
                                pos: right.pos,
                                names: right.names,
                            },
                            level,
                        )
                    } else {
                        Ok(right)
                    },
                    Err(fault) => Err(fault),
                }
            } else {
                Ok(left)
            }
        },
        None => Ok(left),
    }
}

/// `assign = equality ("=" assign)?`: assignment groups from the right.
pub open spec fn spec_assign(tokens: Seq<Lexeme>, pos: int, names: Seq<Seq<char>>) -> Result<
    Parsed,
    ParseFault,
>
    decreases remaining(tokens, pos), 2 * level_mul() + 5,
{
    match spec_binary(tokens, pos, names, level_equality()) {
        Ok(target) => if token_at(tokens, target.pos) == reserved("="@) && target.pos >= pos {
            match spec_assign(tokens, target.pos + 1, target.names) {
                Ok(value) => Ok(
                    Parsed {
                        tree: Tree::Assign {
                            lhs: Box::new(target.tree),
                            rhs: Box::new(value.tree),
                        },
                        pos: value.pos,
                        names: value.names,
                    },
                ),
                Err(fault) => Err(fault),
            }
        } else {
            Ok(target)
        },
        Err(fault) => Err(fault),
    }
}

/// `expr = assign`
pub open spec fn spec_expr(tokens: Seq<Lexeme>, pos: int, names: Seq<Seq<char>>) -> Result<
    Parsed,
    ParseFault,
>
    decreases remaining(tokens, pos), 2 * level_mul() + 6,
{
    spec_assign(tokens, pos, names)
}

/// `statement = "return" expr ";" | expr ";"`
pub open spec fn spec_stmt(tokens: Seq<Lexeme>, pos: int, names: Seq<Seq<char>>) -> Result<
    Parsed,
    ParseFault,
> {
    let is_return = token_at(tokens, pos) == reserved("return"@);
    match spec_expr(tokens, if is_return { pos + 1 } else { pos }, names) {
        Ok(value) => {
            let closing = token_at(tokens, value.pos);
            if closing == reserved(";"@) {
                Ok(
                    Parsed {
                        tree: if is_return {
                            Tree::Return(Box::new(value.tree))
                        } else {
                            value.tree
                        },
                        pos: value.pos + 1,
                        names: value.names,
                    },
                )
            } else {
                Err(ParseFault::Expected { wanted: ";"@, found: closing.text })
            }
        },
        Err(fault) => Err(fault),
    }
}

/// A parsed program: its statements in source order, and the names of its
/// variables in the order of their first use.
pub struct Program {
    pub code: Seq<Tree>,
    pub names: Seq<Seq<char>>,
}

/// `program = statement*`, from `pos` to the end of input, behind the
/// statements `code` that were parsed before.
pub open spec fn spec_program(
    tokens: Seq<Lexeme>,
    pos: int,
    code: Seq<Tree>,
    names: Seq<Seq<char>>,
) -> Result<Program, ParseFault>
    decreases remaining(tokens, pos),
{
    if token_at(tokens, pos).kind == TokenKind::TkEOF {
        Ok(Program { code, names })
    } else {
        match spec_stmt(tokens, pos, names) {
            Ok(statement) => if statement.pos > pos {
                spec_program(tokens, statement.pos, code.push(statement.tree), statement.names)
            } else {
                Ok(Program { code, names })
            },
            Err(fault) => Err(fault),
        }
    }
}

/// The program that the token sequence `tokens` stands for, or the first
/// reason why it stands for none.
pub open spec fn spec_parse(tokens: Seq<Lexeme>) -> Result<Program, ParseFault> {
    spec_program(tokens, 0, Seq::empty(), Seq::empty())
}

/// The message that reports a fault.
pub open spec fn fault_message(fault: ParseFault) -> Seq<char> {
    match fault {
        ParseFault::Expected { wanted, found } => crate::lexer::expect_message(wanted, found),
        ParseFault::ExpectedNumber => "expected number"@,
    }
}

/// Whether `names` can be a table of variables: every entry is a name, and
/// none stands twice.
pub open spec fn names_ok(names: Seq<Seq<char>>) -> bool {
    &&& names.no_duplicates()
    &&& forall|i: int| 0 <= i < names.len() ==> is_name(#[trigger] names[i])
}

/// A name stands in a table at a slot below the table's length if it stands
/// in it at all, and at the length itself if it does not.
pub proof fn lemma_slot_of(names: Seq<Seq<char>>, name: Seq<char>)
    ensures
        0 <= slot_of(names, name) <= names.len(),
        names.contains(name) <==> slot_of(names, name) < names.len(),
        names.contains(name) ==> names[slot_of(names, name)] == name,
        forall|i: int| 0 <= i < slot_of(names, name) ==> names[i] != name,
    decreases names.len(),
{
    if names.len() > 0 {
        let rest = names.drop_first();
        lemma_slot_of(rest, name);
        if names[0] != name {
            if names.contains(name) {
                let i = choose|i: int| 0 <= i < names.len() && names[i] == name;
                assert(rest[i - 1] == name);
            }
            if rest.contains(name) {
                let i = choose|i: int| 0 <= i < rest.len() && rest[i] == name;
                assert(names[i + 1] == name);
            }
            assert forall|i: int| 0 <= i < slot_of(names, name) implies names[i] != name by {
                if i > 0 {
                    assert(names[i] == rest[i - 1]);
                }
            }
        }
    }
}

/// A table stays a table when a name is looked up in it, and the name then
/// has one of its offsets.
pub proof fn lemma_intern(names: Seq<Seq<char>>, name: Seq<char>)
    requires
        names_ok(names),
        is_name(name),
    ensures
        names_ok(intern(names, name)),
        names.len() <= intern(names, name).len() <= names.len() + 1,
        is_offset(offset_of(names, name), intern(names, name).len() as int),
        intern(names, name).contains(name),
        names.contains(name) ==> intern(names, name) == names,
        offset_of(intern(names, name), name) == offset_of(names, name),
{
    lemma_slot_of(names, name);
    let after = intern(names, name);
    lemma_slot_of(after, name);
    if !names.contains(name) {
        assert(after[names.len() as int] == name);
        assert forall|i: int, j: int|
            0 <= i < after.len() && 0 <= j < after.len() && i != j implies after[i]
            != after[j] by {
            if i < names.len() && j < names.len() {
                assert(after[i] == names[i] && after[j] == names[j]);
            } else if i < names.len() {
                assert(names.contains(names[i]));
            } else {
                assert(names.contains(names[j]));
            }
        }
        assert forall|i: int| 0 <= i < names.len() implies after[i] != name by {
            assert(names.contains(names[i]));
        }
    }
}

/// The names of the variables among the tokens from `from` up to, and
/// without, `to`.
pub open spec fn idents(tokens: Seq<Lexeme>, from: int, to: int) -> Set<Seq<char>>
    decreases to - from,
{
    if to <= from {
        Set::empty()
    } else if token_at(tokens, to - 1).kind == TokenKind::TkIdent {
        idents(tokens, from, to - 1).insert(token_at(tokens, to - 1).text)
    } else {
        idents(tokens, from, to - 1)
    }
}

/// A name is among [`idents`] if and only if one of the tokens in the range
/// is a variable of that name.
pub proof fn lemma_idents_contains(tokens: Seq<Lexeme>, from: int, to: int, name: Seq<char>)
    ensures
        idents(tokens, from, to).contains(name) <==> exists|i: int|
            from <= i < to && (#[trigger] token_at(tokens, i)).kind == TokenKind::TkIdent
                && token_at(tokens, i).text == name,
    decreases to - from,
{
    if to > from {
        lemma_idents_contains(tokens, from, to - 1, name);
        let last = token_at(tokens, to - 1);
        if idents(tokens, from, to).contains(name) {
            if !idents(tokens, from, to - 1).contains(name) {
                assert(last.kind == TokenKind::TkIdent && last.text == name);
            }
        }
        if exists|i: int|
            from <= i < to && (#[trigger] token_at(tokens, i)).kind == TokenKind::TkIdent
                && token_at(tokens, i).text == name {
            let i = choose|i: int|
                from <= i < to && (#[trigger] token_at(tokens, i)).kind == TokenKind::TkIdent
                    && token_at(tokens, i).text == name;
            if i < to - 1 {
                assert(idents(tokens, from, to - 1).contains(name));
            }
        }
    }
}

/// The names of two ranges that meet are the names of the whole.
pub proof fn lemma_idents_join(tokens: Seq<Lexeme>, from: int, mid: int, to: int)
    requires
        from <= mid <= to,
    ensures
        idents(tokens, from, to) == idents(tokens, from, mid).union(idents(tokens, mid, to)),
    decreases to - mid,
{
    if to > mid {
        lemma_idents_join(tokens, from, mid, to - 1);
    }
    assert(idents(tokens, from, to) =~= idents(tokens, from, mid).union(idents(tokens, mid, to)));
}

/// Whether a rule that went from `pos` with the table `names` to `end` with
/// the table `table` has collected the names it passed: the table holds what
/// it held before and the variables among the tokens passed, and no more.
pub open spec fn collected(
    tokens: Seq<Lexeme>,
    pos: int,
    names: Seq<Seq<char>>,
    end: int,
    table: Seq<Seq<char>>,
) -> bool {
    table.to_set() == names.to_set().union(idents(tokens, pos, end))
}

/// A token that is no variable can be passed without a change to the table.
proof fn lemma_collected_skip(tokens: Seq<Lexeme>, pos: int, names: Seq<Seq<char>>)
    requires
        token_at(tokens, pos).kind != TokenKind::TkIdent,
    ensures
        collected(tokens, pos, names, pos + 1, names),
{
    assert(idents(tokens, pos, pos) =~= Set::<Seq<char>>::empty());
    assert(names.to_set() =~= names.to_set().union(idents(tokens, pos, pos + 1)));
}

/// A variable that is passed is in the table afterwards.
proof fn lemma_collected_name(tokens: Seq<Lexeme>, pos: int, names: Seq<Seq<char>>)
    requires
        token_at(tokens, pos).kind == TokenKind::TkIdent,
    ensures
        collected(tokens, pos, names, pos + 1, intern(names, token_at(tokens, pos).text)),
{
    let name = token_at(tokens, pos).text;
    let table = intern(names, name);
    assert(idents(tokens, pos, pos) =~= Set::<Seq<char>>::empty());
    assert forall|n: Seq<char>| table.to_set().contains(n) <==> names.to_set().union(
        idents(tokens, pos, pos + 1),
    ).contains(n) by {
        if table.to_set().contains(n) {
            let i = choose|i: int| 0 <= i < table.len() && table[i] == n;
            if i < names.len() {
                assert(names.contains(n));
            }
        }
        if names.to_set().contains(n) {
            let i = choose|i: int| 0 <= i < names.len() && names[i] == n;
            assert(table[i] == n);
        }
        if n == name {
            if !names.contains(name) {
                assert(table[names.len() as int] == name);
            }
            assert(table.contains(name));
        }
    }
    assert(table.to_set() =~= names.to_set().union(idents(tokens, pos, pos + 1)));
}

/// What two rules collect one after the other, they collect together.
proof fn lemma_collected_chain(
    tokens: Seq<Lexeme>,
    pos: int,
    names: Seq<Seq<char>>,
    mid: int,
    between: Seq<Seq<char>>,
    end: int,
    table: Seq<Seq<char>>,
)
    requires
        pos <= mid <= end,
        collected(tokens, pos, names, mid, between),
        collected(tokens, mid, between, end, table),
    ensures
        collected(tokens, pos, names, end, table),
{
    lemma_idents_join(tokens, pos, mid, end);
    assert(table.to_set() =~= names.to_set().union(idents(tokens, pos, end)));
}

/// What holds of every finished parse of a rule that began at `pos` with the
/// table `names`: it passed a token, its table is a table, has lost no entry
/// and has [`collected`] the names it passed, and its tree is fit for that
/// table.
pub open spec fn good(tokens: Seq<Lexeme>, pos: int, names: Seq<Seq<char>>, parsed: Parsed) -> bool {
    &&& 0 <= pos < parsed.pos <= tokens.len()
    &&& names_ok(parsed.names)
    &&& names.len() <= parsed.names.len()
    &&& collected(tokens, pos, names, parsed.pos, parsed.names)
    &&& well_formed(parsed.tree, parsed.names.len() as int)
}

/// What holds of every finished parse of an expression: it is [`good`], and
/// its tree is [`flat`].
pub open spec fn fine(tokens: Seq<Lexeme>, pos: int, names: Seq<Seq<char>>, parsed: Parsed) -> bool {
    good(tokens, pos, names, parsed) && flat(parsed.tree)
}

/// Every parse of `primary` is [`fine`].
pub proof fn lemma_primary(tokens: Seq<Lexeme>, pos: int, names: Seq<Seq<char>>)
    requires
        proper(tokens),
        names_ok(names),
    ensures
        spec_primary(tokens, pos, names) matches Ok(parsed) ==> fine(tokens, pos, names, parsed),
    decreases remaining(tokens, pos), 1int,
{
    let token = token_at(tokens, pos);
    if token == reserved("("@) {
        lemma_expr(tokens, pos + 1, names);
        if let Ok(inner) = spec_expr(tokens, pos + 1, names) {
            lemma_collected_skip(tokens, pos, names);
            lemma_collected_chain(tokens, pos, names, pos + 1, names, inner.pos, inner.names);
            if token_at(tokens, inner.pos) == reserved(")"@) {
                lemma_collected_skip(tokens, inner.pos, inner.names);
                lemma_collected_chain(
                    tokens,
                    pos,
                    names,
                    inner.pos,
                    inner.names,
                    inner.pos + 1,
                    inner.names,
                );
            }
        }
    } else if token.kind == TokenKind::TkIdent {
        assert(proper_lexeme(tokens[pos]));
        lemma_intern(names, token.text);
        lemma_collected_name(tokens, pos, names);
    } else if token.kind == TokenKind::TkNum {
        assert(proper_lexeme(tokens[pos]));
        lemma_collected_skip(tokens, pos, names);
    }
}

/// Every parse of `unary` is [`fine`].
pub proof fn lemma_unary(tokens: Seq<Lexeme>, pos: int, names: Seq<Seq<char>>)
    requires
        proper(tokens),
        names_ok(names),
    ensures
        spec_unary(tokens, pos, names) matches Ok(parsed) ==> fine(tokens, pos, names, parsed),
    decreases remaining(tokens, pos), 2int,
{
    let token = token_at(tokens, pos);
    if token == reserved("+"@) {
        lemma_primary(tokens, pos + 1, names);
        if let Ok(operand) = spec_primary(tokens, pos + 1, names) {
            lemma_collected_skip(tokens, pos, names);
            lemma_collected_chain(tokens, pos, names, pos + 1, names, operand.pos, operand.names);
        }
    } else if token == reserved("-"@) {
        lemma_primary(tokens, pos + 1, names);
        if let Ok(operand) = spec_primary(tokens, pos + 1, names) {
            lemma_collected_skip(tokens, pos, names);
            lemma_collected_chain(tokens, pos, names, pos + 1, names, operand.pos, operand.names);
            assert(is_number_text(seq!['0']));
            assert(well_formed(zero(), operand.names.len() as int));
            assert(flat(zero()));
        }
    } else {
        lemma_primary(tokens, pos, names);
    }
}

/// Every parse of an operand is [`fine`].
pub proof fn lemma_operand(tokens: Seq<Lexeme>, pos: int, names: Seq<Seq<char>>, level: int)
    requires
        proper(tokens),
        names_ok(names),
    ensures
        spec_operand(tokens, pos, names, level) matches Ok(parsed) ==> fine(
            tokens,
            pos,
            names,
            parsed,
        ),
    decreases remaining(tokens, pos), 2 * (level_mul() - level) + 3,
{
    if level_equality() <= level < level_mul() {
        lemma_binary(tokens, pos, names, level + 1);
    } else if level == level_mul() {
        lemma_unary(tokens, pos, names);
    }
}

/// Every parse of a chain is [`fine`].
pub proof fn lemma_binary(tokens: Seq<Lexeme>, pos: int, names: Seq<Seq<char>>, level: int)
    requires
        proper(tokens),
        names_ok(names),
    ensures
        spec_binary(tokens, pos, names, level) matches Ok(parsed) ==> fine(
            tokens,
            pos,
            names,
            parsed,
        ),
    decreases remaining(tokens, pos), 2 * (level_mul() - level) + 4,
{
    if level_equality() <= level <= level_mul() {
        lemma_operand(tokens, pos, names, level);
        if let Ok(first) = spec_operand(tokens, pos, names, level) {
            lemma_binary_rest(tokens, first, level, pos, names);
        }
    }
}

/// A chain that is continued from a [`fine`] parse is [`fine`].
pub proof fn lemma_binary_rest(
    tokens: Seq<Lexeme>,
    left: Parsed,
    level: int,
    pos: int,
    names: Seq<Seq<char>>,
)
    requires
        proper(tokens),
        fine(tokens, pos, names, left),
    ensures
        spec_binary_rest(tokens, left, level) matches Ok(parsed) ==> fine(
            tokens,
            pos,
            names,
            parsed,
        ),
    decreases remaining(tokens, left.pos), 0int,
{
    if let Some(operator) = operator_at(level, token_at(tokens, left.pos)) {
        if 0 <= left.pos < tokens.len() {
            lemma_operand(tokens, left.pos + 1, left.names, level);
            if let Ok(right) = spec_operand(tokens, left.pos + 1, left.names, level) {
                let joined = Parsed {
                    tree: apply(operator, left.tree, right.tree),
                    pos: right.pos,
                    names: right.names,
                };
                lemma_well_formed_grows(
                    left.tree,
                    left.names.len() as int,
                    right.names.len() as int,
                );
                lemma_collected_skip(tokens, left.pos, left.names);
                lemma_collected_chain(
                    tokens,
                    pos,
                    names,
                    left.pos,
                    left.names,
                    left.pos + 1,
                    left.names,
                );
                lemma_collected_chain(
                    tokens,
                    pos,
                    names,
                    left.pos + 1,
                    left.names,
                    right.pos,
                    right.names,
                );
                lemma_binary_rest(tokens, joined, level, pos, names);
            }
        }
    }
}

/// Every parse of `assign` is [`fine`].
pub proof fn lemma_assign(tokens: Seq<Lexeme>, pos: int, names: Seq<Seq<char>>)
    requires
        proper(tokens),
        names_ok(names),
    ensures
        spec_assign(tokens, pos, names) matches Ok(parsed) ==> fine(tokens, pos, names, parsed),
    decreases remaining(tokens, pos), 2 * level_mul() + 5,
{
    lemma_binary(tokens, pos, names, level_equality());
    if let Ok(target) = spec_binary(tokens, pos, names, level_equality()) {
        if token_at(tokens, target.pos) == reserved("="@) {
            lemma_assign(tokens, target.pos + 1, target.names);
            if let Ok(value) = spec_assign(tokens, target.pos + 1, target.names) {
                lemma_well_formed_grows(
                    target.tree,
                    target.names.len() as int,
                    value.names.len() as int,
                );
                lemma_collected_skip(tokens, target.pos, target.names);
                lemma_collected_chain(
                    tokens,
                    pos,
                    names,
                    target.pos,
                    target.names,
                    target.pos + 1,
                    target.names,
                );
                lemma_collected_chain(
                    tokens,
                    pos,
                    names,
                    target.pos + 1,
                    target.names,
                    value.pos,
                    value.names,
                );
            }
        }
    }
}

/// Every parse of `expr` is [`fine`].
pub proof fn lemma_expr(tokens: Seq<Lexeme>, pos: int, names: Seq<Seq<char>>)
    requires
        proper(tokens),
        names_ok(names),
    ensures
        spec_expr(tokens, pos, names) matches Ok(parsed) ==> fine(tokens, pos, names, parsed),
    decreases remaining(tokens, pos), 2 * level_mul() + 6,
{
    lemma_assign(tokens, pos, names);
}

/// Every parse of a statement is [`good`], and its tree is a statement.
pub proof fn lemma_stmt(tokens: Seq<Lexeme>, pos: int, names: Seq<Seq<char>>)
    requires
        proper(tokens),
        names_ok(names),
    ensures
        spec_stmt(tokens, pos, names) matches Ok(parsed) ==> good(tokens, pos, names, parsed)
            && simple_statement(parsed.tree),
{
    let start = if token_at(tokens, pos) == reserved("return"@) {
        pos + 1
    } else {
        pos
    };
    lemma_expr(tokens, start, names);
    if let Ok(value) = spec_expr(tokens, start, names) {
        if start > pos {
            lemma_collected_skip(tokens, pos, names);
            lemma_collected_chain(tokens, pos, names, start, names, value.pos, value.names);
        }
        if token_at(tokens, value.pos) == reserved(";"@) {
            lemma_collected_skip(tokens, value.pos, value.names);
            lemma_collected_chain(
                tokens,
                pos,
                names,
                value.pos,
                value.names,
                value.pos + 1,
                value.names,
            );
        }
    }
}

/// A table of variables has at most 128 entries: no name stands twice in
/// it, and there are no more letters than that.
pub proof fn lemma_names_bounded(names: Seq<Seq<char>>)
    requires
        names_ok(names),
    ensures
        names.len() <= 128,
{
    let codes = Seq::new(names.len(), |i: int| names[i][0] as int);
    assert forall|i: int, j: int|
        0 <= i < codes.len() && 0 <= j < codes.len() && i != j implies codes[i] != codes[j] by {
        if codes[i] == codes[j] {
            assert(is_name(names[i]) && is_name(names[j]));
            assert(names[i] =~= names[j]);
        }
    }
    codes.unique_seq_to_set();
    let range = vstd::set_lib::set_int_range(0, 128);
    vstd::set_lib::lemma_int_range(0, 128);
    assert forall|code: int| codes.to_set().contains(code) implies range.contains(code) by {
        let i = choose|i: int| 0 <= i < codes.len() && codes[i] == code;
        assert(is_name(names[i]));
    }
    vstd::set_lib::lemma_len_subset(codes.to_set(), range);
}

/// Whether every statement of `program` is a statement of the grammar and
/// fit for its table; none then holds a conditional or a loop.
pub open spec fn fit(program: Program) -> bool {
    &&& names_ok(program.names)
    &&& forall|i: int|
        0 <= i < program.code.len() ==> well_formed(
            #[trigger] program.code[i],
            program.names.len() as int,
        )
    &&& forall|i: int| 0 <= i < program.code.len() ==> simple_statement(#[trigger] program.code[i])
    &&& branches_of(program.code) == 0
}

/// Every parsed program is [`fit`], if the statements that stood before were.
pub proof fn lemma_program(
    tokens: Seq<Lexeme>,
    pos: int,
    code: Seq<Tree>,
    names: Seq<Seq<char>>,
)
    requires
        proper(tokens),
        fit(Program { code, names }),
    ensures
        spec_program(tokens, pos, code, names) matches Ok(program) ==> fit(program),
    decreases remaining(tokens, pos),
{
    if token_at(tokens, pos).kind != TokenKind::TkEOF {
        lemma_stmt(tokens, pos, names);
        if let Ok(statement) = spec_stmt(tokens, pos, names) {
            let longer = code.push(statement.tree);
            assert forall|i: int| 0 <= i < longer.len() implies well_formed(
                #[trigger] longer[i],
                statement.names.len() as int,
            ) by {
                if i < code.len() {
                    lemma_well_formed_grows(
                        code[i],
                        names.len() as int,
                        statement.names.len() as int,
                    );
                }
            }
            assert(longer.drop_last() =~= code);
            assert forall|i: int| 0 <= i < longer.len() implies simple_statement(
                #[trigger] longer[i],
            ) by {
                if i < code.len() {
                    assert(longer[i] == code[i]);
                }
            }
            lemma_simple_statements(longer);
            lemma_program(tokens, statement.pos, longer, statement.names);
        }
    }
}

/// A parsed program has [`collected`] the names of all the tokens from `pos`
/// on.
pub proof fn lemma_program_names(
    tokens: Seq<Lexeme>,
    pos: int,
    code: Seq<Tree>,
    names: Seq<Seq<char>>,
)
    requires
        complete_tokens(tokens),
        names_ok(names),
        0 <= pos <= tokens.len(),
    ensures
        spec_program(tokens, pos, code, names) matches Ok(program) ==> names_ok(program.names)
            && collected(tokens, pos, names, tokens.len() as int, program.names),
    decreases remaining(tokens, pos),
{
    let end = tokens.len() as int;
    if token_at(tokens, pos).kind == TokenKind::TkEOF {
        if pos < end {
            assert(tokens[pos].kind == TokenKind::TkEOF);
            lemma_collected_skip(tokens, pos, names);
        } else {
            assert(idents(tokens, pos, end) =~= Set::<Seq<char>>::empty());
            assert(names.to_set() =~= names.to_set().union(idents(tokens, pos, end)));
        }
    } else {
        lemma_stmt(tokens, pos, names);
        if let Ok(statement) = spec_stmt(tokens, pos, names) {
            let longer = code.push(statement.tree);
            lemma_program_names(tokens, statement.pos, longer, statement.names);
            if let Ok(program) = spec_program(tokens, statement.pos, longer, statement.names) {
                lemma_collected_chain(
                    tokens,
                    pos,
                    names,
                    statement.pos,
                    statement.names,
                    end,
                    program.names,
                );
            }
        }
    }
}

/// **The table holds the names that the program uses, each once.** Where a
/// token sequence is a program, the table of its variables has no name twice,
/// and its names are those of the variables among the tokens. So a program
/// that uses `n` different names has a table of `n` entries, however often it
/// uses each.
pub proof fn lemma_table_is_names_used(tokens: Seq<Lexeme>)
    requires
        complete_tokens(tokens),
    ensures
        spec_parse(tokens) matches Ok(program) ==> {
            &&& program.names.no_duplicates()
            &&& program.names.to_set() == idents(tokens, 0, tokens.len() as int)
            &&& program.names.len() == idents(tokens, 0, tokens.len() as int).len()
        },
{
    let none = Seq::<Seq<char>>::empty();
    lemma_program_names(tokens, 0, Seq::empty(), none);
    if let Ok(program) = spec_parse(tokens) {
        assert(none.to_set() =~= Set::<Seq<char>>::empty());
        assert(program.names.to_set() =~= idents(tokens, 0, tokens.len() as int));
        program.names.unique_seq_to_set();
    }
}

} // verus!
