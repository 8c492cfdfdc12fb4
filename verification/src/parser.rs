//! The parser: recursive descent from tokens to one tree per statement, with
//! the table of variables filled on the way.
//!
//! Every method of [`Parser`] that stands for a rule of the grammar is proved
//! to build the tree that the rule of [`crate::grammar`] gives.

use vstd::prelude::*;
use vstd::string::*;
pub use crate::ast::{Node, NodeKind};
use crate::ast::{Tree, flat, lemma_well_formed_grows, trees_of, well_formed};
use crate::error::{CompileError, ErrorKind};
use crate::grammar::{
    ParseFault, Parsed, fault_message, fit, intern, lemma_binary, lemma_intern,
    lemma_names_bounded, lemma_operand, lemma_program, lemma_slot_of, lemma_stmt, level_add,
    level_equality, level_mul, level_relational, names_ok, offset_of, remaining,
    spec_assign, spec_binary, spec_binary_rest, spec_expr, spec_primary, spec_program, spec_stmt,
    spec_unary,
};
use crate::lexer::{Lexeme, Tokenizer, is_name, proper_lexeme};

verus! {

/// The width of a variable's slot in the stack frame, in bytes.
pub const SLOT_SIZE: usize = 8;

/// A variable: its name and the distance of its slot below the frame
/// pointer.
#[derive(Debug, Clone, PartialEq, Eq)]
pub struct LVar {
    pub name: String,
    pub offset: usize,
}

/// The names of `locals`, in order.
pub open spec fn names_of(locals: Seq<LVar>) -> Seq<Seq<char>> {
    Seq::new(locals.len(), |i: int| locals[i].name@)
}

/// Whether `locals` is a table of variables: no name stands twice, and the
/// variable at index `i` has the offset `(i + 1) * 8`.
pub open spec fn table_ok(locals: Seq<LVar>) -> bool {
    &&& names_ok(names_of(locals))
    &&& forall|i: int| 0 <= i < locals.len() ==> (#[trigger] locals[i]).offset == (i + 1) * 8
}

/// The parser: the tokens with its place among them, the statements parsed
/// so far, and the table of variables.
#[derive(Debug, Clone)]
pub struct Parser {
    pub lexer: Tokenizer,
    pub code: Vec<Node>,
    pub locals: Vec<LVar>,
}

/// What a rule of the grammar owes: the parser moved as `expected` says and
/// returns the tree that `expected` holds, or fails with the message of the
/// fault that `expected` holds. Tokens and statements are untouched.
pub open spec fn agrees(
    before: Parser,
    after: Parser,
    r: Result<Node, CompileError>,
    expected: Result<Parsed, ParseFault>,
) -> bool {
    &&& after.tokens() == before.tokens()
    &&& after.code == before.code
    &&& match expected {
        Ok(parsed) => {
            &&& r matches Ok(node)
            &&& node@ == parsed.tree
            &&& after.cursor() == parsed.pos
            &&& after.names() == parsed.names
            &&& after.wf()
        },
        Err(fault) => {
            &&& r matches Err(e)
            &&& e.kind == ErrorKind::Parse
            &&& e.message@ == fault_message(fault)
        },
    }
}

impl Parser {
    /// The tokens of the program.
    pub open spec fn tokens(&self) -> Seq<Lexeme> {
        self.lexer.lexemes()
    }

    /// How many tokens have been parsed.
    pub open spec fn cursor(&self) -> int {
        self.lexer.cursor()
    }

    /// The names of the variables met so far, in the order of their first
    /// use.
    pub open spec fn names(&self) -> Seq<Seq<char>> {
        names_of(self.locals@)
    }

    /// The tokens are a whole sequence with the parser on one of them, and
    /// the variables are a table.
    pub open spec fn wf(&self) -> bool {
        self.lexer.wf() && table_ok(self.locals@)
    }

    /// A node for the operator `kind` with the operands `lhs` and `rhs`.
    pub fn new_node(kind: NodeKind, lhs: Node, rhs: Node) -> (node: Node)
        ensures
            node@ == (Tree::Binary { kind, lhs: Box::new(lhs@), rhs: Box::new(rhs@) }),
    {
        Node::Binary { kind, lhs: Box::new(lhs), rhs: Box::new(rhs) }
    }

    /// A node for the number with the digits `val`.
    pub fn new_node_num(val: String) -> (node: Node)
        ensures
            node@ == Tree::Num(val@),
    {
        Node::Num(val)
    }

    /// Looks `val` up in the table of variables, adds it at the end where it
    /// is new, and returns its offset. A name that is known leaves the table
    /// as it is.
    pub fn find_var(&mut self, val: String) -> (offset: usize)
        requires
            old(self).wf(),
            is_name(val@),
        ensures
            final(self).wf(),
            final(self).tokens() == old(self).tokens(),
            final(self).cursor() == old(self).cursor(),
            final(self).code == old(self).code,
            final(self).names() == intern(old(self).names(), val@),
            offset == offset_of(old(self).names(), val@),
    {
        let ghost names = self.names();
        let mut i: usize = 0;
        while i < self.locals.len()
            invariant
                *self == *old(self),
                self.wf(),
                names == self.names(),
                0 <= i <= self.locals.len(),
                forall|j: int| 0 <= j < i ==> names[j] != val@,
            decreases self.locals.len() - i,
        {
            if self.locals[i].name == val {
                proof {
                    lemma_slot_of(names, val@);
                    assert(names[i as int] == val@);
                    assert(names.contains(val@));
                }
                return self.locals[i].offset;
            }
            i = i + 1;
        }
        proof {
            lemma_slot_of(names, val@);
            lemma_intern(names, val@);
            lemma_names_bounded(names);
            assert(!names.contains(val@));
        }
        let offset = (self.locals.len() + 1) * SLOT_SIZE;
        let ghost before = self.locals@;
        self.locals.push(LVar { name: val, offset });
        assert(names_of(self.locals@) =~= names.push(val@));
        offset
    }

    /// `primary = number | identifier | "(" expr ")"`
    fn primary(&mut self) -> (r: Result<Node, CompileError>)
        requires
            old(self).wf(),
        ensures
            agrees(
                *old(self),
                *final(self),
                r,
                spec_primary(old(self).tokens(), old(self).cursor(), old(self).names()),
            ),
        decreases remaining(old(self).tokens(), old(self).cursor()), 1int,
    {
        if self.lexer.consume("(") {
            let node = match self.expr() {
                Ok(node) => node,
                Err(e) => {
                    return Err(e);
                },
            };
            match self.lexer.expect(")") {
                Ok(()) => Ok(node),
                Err(e) => Err(e),
            }
        } else if let Some(val) = self.lexer.is_ident_token() {
            assert(proper_lexeme(old(self).tokens()[old(self).cursor()]));
            let offset = self.find_var(val);
            Ok(Node::LVar { offset })
        } else {
            match self.lexer.expect_number() {
                Some(val) => Ok(Parser::new_node_num(val)),
                None => Err(CompileError::new(ErrorKind::Parse, "expected number")),
            }
        }
    }

    /// `unary = ("+" | "-")? primary`
    fn unary(&mut self) -> (r: Result<Node, CompileError>)
        requires
            old(self).wf(),
        ensures
            agrees(
                *old(self),
                *final(self),
                r,
                spec_unary(old(self).tokens(), old(self).cursor(), old(self).names()),
            ),
        decreases remaining(old(self).tokens(), old(self).cursor()), 2int,
    {
        if self.lexer.consume("+") {
            return self.primary();
        }
        if self.lexer.consume("-") {
            proof {
                reveal_strlit("0");
                assert("0"@ =~= seq!['0']);
            }
            let zero = Parser::new_node_num(String::from_str("0"));
            return match self.primary() {
                Ok(rhs) => Ok(Parser::new_node(NodeKind::NodeSub, zero, rhs)),
                Err(e) => Err(e),
            };
        }
        self.primary()
    }

    /// `mul = unary (("*" | "/") unary)*`
    fn mul(&mut self) -> (r: Result<Node, CompileError>)
        requires
            old(self).wf(),
        ensures
            agrees(
                *old(self),
                *final(self),
                r,
                spec_binary(
                    old(self).tokens(),
                    old(self).cursor(),
                    old(self).names(),
                    level_mul(),
                ),
            ),
        decreases remaining(old(self).tokens(), old(self).cursor()), 4int,
    {
        let ghost tokens = self.tokens();
        let ghost level = level_mul();
        proof {
            lemma_operand(tokens, self.cursor(), self.names(), level);
        }
        let mut node = match self.unary() {
            Ok(node) => node,
            Err(e) => {
                return Err(e);
            },
        };
        loop
            invariant
                self.wf(),
                self.tokens() == tokens,
                old(self).tokens() == tokens,
                self.code == old(self).code,
                level == level_mul(),
                remaining(tokens, self.cursor()) < remaining(tokens, old(self).cursor()),
                good_here(*self, node@),
                spec_binary(tokens, old(self).cursor(), old(self).names(), level)
                    == spec_binary_rest(tokens, here(*self, node@), level),
            decreases remaining(tokens, self.cursor()),
        {
            let ghost left = here(*self, node@);
            let kind = if self.lexer.consume("*") {
                NodeKind::NodeMul
            } else if self.lexer.consume("/") {
                NodeKind::NodeDiv
            } else {
                return Ok(node);
            };
            proof {
                lemma_operand(tokens, self.cursor(), self.names(), level);
            }
            let rhs = match self.unary() {
                Ok(rhs) => rhs,
                Err(e) => {
                    return Err(e);
                },
            };
            proof {
                lemma_well_formed_grows(
                    left.tree,
                    left.names.len() as int,
                    self.names().len() as int,
                );
            }
            node = Parser::new_node(kind, node, rhs);
        }
    }

    /// `add = mul (("+" | "-") mul)*`
    fn add(&mut self) -> (r: Result<Node, CompileError>)
        requires
            old(self).wf(),
        ensures
            agrees(
                *old(self),
                *final(self),
                r,
                spec_binary(
                    old(self).tokens(),
                    old(self).cursor(),
                    old(self).names(),
                    level_add(),
                ),
            ),
        decreases remaining(old(self).tokens(), old(self).cursor()), 6int,
    {
        let ghost tokens = self.tokens();
        let ghost level = level_add();
        proof {
            lemma_operand(tokens, self.cursor(), self.names(), level);
        }
        let mut node = match self.mul() {
            Ok(node) => node,
            Err(e) => {
                return Err(e);
            },
        };
        loop
            invariant
                self.wf(),
                self.tokens() == tokens,
                old(self).tokens() == tokens,
                self.code == old(self).code,
                level == level_add(),
                remaining(tokens, self.cursor()) < remaining(tokens, old(self).cursor()),
                good_here(*self, node@),
                spec_binary(tokens, old(self).cursor(), old(self).names(), level)
                    == spec_binary_rest(tokens, here(*self, node@), level),
            decreases remaining(tokens, self.cursor()),
        {
            let ghost left = here(*self, node@);
            let kind = if self.lexer.consume("+") {
                NodeKind::NodeAdd
            } else if self.lexer.consume("-") {
                NodeKind::NodeSub
            } else {
                return Ok(node);
            };
            proof {
                lemma_operand(tokens, self.cursor(), self.names(), level);
            }
            let rhs = match self.mul() {
                Ok(rhs) => rhs,
                Err(e) => {
                    return Err(e);
                },
            };
            proof {
                lemma_well_formed_grows(
                    left.tree,
                    left.names.len() as int,
                    self.names().len() as int,
                );
            }
            node = Parser::new_node(kind, node, rhs);
        }
    }

    /// `relational = add (("<" | "<=" | ">" | ">=") add)*`
    ///
    /// `a > b` becomes `b < a`, and `a >= b` becomes `b <= a`.
    fn relational(&mut self) -> (r: Result<Node, CompileError>)
        requires
            old(self).wf(),
        ensures
            agrees(
                *old(self),
                *final(self),
                r,
                spec_binary(
                    old(self).tokens(),
                    old(self).cursor(),
                    old(self).names(),
                    level_relational(),
                ),
            ),
        decreases remaining(old(self).tokens(), old(self).cursor()), 8int,
    {
        let ghost tokens = self.tokens();
        let ghost level = level_relational();
        proof {
            lemma_operand(tokens, self.cursor(), self.names(), level);
        }
        let mut node = match self.add() {
            Ok(node) => node,
            Err(e) => {
                return Err(e);
            },
        };
        loop
            invariant
                self.wf(),
                self.tokens() == tokens,
                old(self).tokens() == tokens,
                self.code == old(self).code,
                level == level_relational(),
                remaining(tokens, self.cursor()) < remaining(tokens, old(self).cursor()),
                good_here(*self, node@),
                spec_binary(tokens, old(self).cursor(), old(self).names(), level)
                    == spec_binary_rest(tokens, here(*self, node@), level),
            decreases remaining(tokens, self.cursor()),
        {
            let ghost left = here(*self, node@);
            let (kind, swapped) = if self.lexer.consume("<") {
                (NodeKind::NodeLT, false)
            } else if self.lexer.consume("<=") {
                (NodeKind::NodeLE, false)
            } else if self.lexer.consume(">") {
                (NodeKind::NodeLT, true)
            } else if self.lexer.consume(">=") {
                (NodeKind::NodeLE, true)
            } else {
                return Ok(node);
            };
            proof {
                lemma_operand(tokens, self.cursor(), self.names(), level);
            }
            let other = match self.add() {
                Ok(other) => other,
                Err(e) => {
                    return Err(e);
                },
            };
            proof {
                lemma_well_formed_grows(
                    left.tree,
                    left.names.len() as int,
                    self.names().len() as int,
                );
            }
            node = if swapped {
                Parser::new_node(kind, other, node)
            } else {
                Parser::new_node(kind, node, other)
            };
        }
    }

    /// `equality = relational (("==" | "!=") relational)*`
    fn equality(&mut self) -> (r: Result<Node, CompileError>)
        requires
            old(self).wf(),
        ensures
            agrees(
                *old(self),
                *final(self),
                r,
                spec_binary(
                    old(self).tokens(),
                    old(self).cursor(),
                    old(self).names(),
                    level_equality(),
                ),
            ),
        decreases remaining(old(self).tokens(), old(self).cursor()), 10int,
    {
        let ghost tokens = self.tokens();
        let ghost level = level_equality();
        proof {
            lemma_operand(tokens, self.cursor(), self.names(), level);
        }
        let mut node = match self.relational() {
            Ok(node) => node,
            Err(e) => {
                return Err(e);
            },
        };
        loop
            invariant
                self.wf(),
                self.tokens() == tokens,
                old(self).tokens() == tokens,
                self.code == old(self).code,
                level == level_equality(),
                remaining(tokens, self.cursor()) < remaining(tokens, old(self).cursor()),
                good_here(*self, node@),
                spec_binary(tokens, old(self).cursor(), old(self).names(), level)
                    == spec_binary_rest(tokens, here(*self, node@), level),
            decreases remaining(tokens, self.cursor()),
        {
            let ghost left = here(*self, node@);
            let kind = if self.lexer.consume("==") {
                NodeKind::NodeEQ
            } else if self.lexer.consume("!=") {
                NodeKind::NodeNE
            } else {
                return Ok(node);
            };
            proof {
                lemma_operand(tokens, self.cursor(), self.names(), level);
            }
            let rhs = match self.relational() {
                Ok(rhs) => rhs,
                Err(e) => {
                    return Err(e);
                },
            };
            proof {
                lemma_well_formed_grows(
                    left.tree,
                    left.names.len() as int,
                    self.names().len() as int,
                );
            }
            node = Parser::new_node(kind, node, rhs);
        }
    }

    /// `assign = equality ("=" assign)?`
    fn assign(&mut self) -> (r: Result<Node, CompileError>)
        requires
            old(self).wf(),
        ensures
            agrees(
                *old(self),
                *final(self),
                r,
                spec_assign(old(self).tokens(), old(self).cursor(), old(self).names()),
            ),
        decreases remaining(old(self).tokens(), old(self).cursor()), 11int,
    {
        proof {
            lemma_binary(self.tokens(), self.cursor(), self.names(), level_equality());
        }
        let node = match self.equality() {
            Ok(node) => node,
            Err(e) => {
                return Err(e);
            },
        };
        if self.lexer.consume("=") {
            match self.assign() {
                Ok(rhs) => Ok(Node::Assign { lhs: Box::new(node), rhs: Box::new(rhs) }),
                Err(e) => Err(e),
            }
        } else {
            Ok(node)
        }
    }

    /// `expr = assign`
    fn expr(&mut self) -> (r: Result<Node, CompileError>)
        requires
            old(self).wf(),
        ensures
            agrees(
                *old(self),
                *final(self),
                r,
                spec_expr(old(self).tokens(), old(self).cursor(), old(self).names()),
            ),
        decreases remaining(old(self).tokens(), old(self).cursor()), 12int,
    {
        self.assign()
    }

    /// `statement = "return" expr ";" | expr ";"`
    fn stmt(&mut self) -> (r: Result<Node, CompileError>)
        requires
            old(self).wf(),
        ensures
            agrees(
                *old(self),
                *final(self),
                r,
                spec_stmt(old(self).tokens(), old(self).cursor(), old(self).names()),
            ),
    {
        if self.lexer.consume("return") {
            let lhs = match self.expr() {
                Ok(lhs) => lhs,
                Err(e) => {
                    return Err(e);
                },
            };
            let node = Node::Return(Box::new(lhs));
            return match self.lexer.expect(";") {
                Ok(()) => Ok(node),
                Err(e) => Err(e),
            };
        }
        let node = match self.expr() {
            Ok(node) => node,
            Err(e) => {
                return Err(e);
            },
        };
        match self.lexer.expect(";") {
            Ok(()) => Ok(node),
            Err(e) => Err(e),
        }
    }

    /// `program = statement*`: parses statements up to the end of input and
    /// appends them to the statements parsed before.
    fn program(&mut self) -> (r: Result<(), CompileError>)
        requires
            old(self).wf(),
        ensures
            final(self).tokens() == old(self).tokens(),
            match spec_program(
                old(self).tokens(),
                old(self).cursor(),
                trees_of(old(self).code@),
                old(self).names(),
            ) {
                Ok(program) => {
                    &&& r is Ok
                    &&& final(self).wf()
                    &&& trees_of(final(self).code@) == program.code
                    &&& final(self).names() == program.names
                    &&& final(self).cursor() == final(self).tokens().len() - 1
                },
                Err(fault) => {
                    &&& r matches Err(e)
                    &&& e.kind == ErrorKind::Parse
                    &&& e.message@ == fault_message(fault)
                },
            },
    {
        let ghost tokens = self.tokens();
        loop
            invariant
                self.wf(),
                self.tokens() == tokens,
                old(self).tokens() == tokens,
                spec_program(
                    tokens,
                    old(self).cursor(),
                    trees_of(old(self).code@),
                    old(self).names(),
                ) == spec_program(tokens, self.cursor(), trees_of(self.code@), self.names()),
            decreases remaining(tokens, self.cursor()),
        {
            if self.lexer.at_eof() {
                return Ok(());
            }
            proof {
                lemma_stmt(tokens, self.cursor(), self.names());
            }
            let ghost before = self.code@;
            let node = match self.stmt() {
                Ok(node) => node,
                Err(e) => {
                    return Err(e);
                },
            };
            self.code.push(node);
            assert(trees_of(self.code@) =~= trees_of(before).push(node@));
        }
    }

    /// Parses the whole token sequence of `lexer` into statements and a
    /// table of variables. Fails at the first token that the grammar does not
    /// allow where it stands; what follows the last statement must be the end
    /// of input.
    ///
    /// On success every statement is fit for the table, so every variable in
    /// it has an offset of the table, and no statement holds a conditional or
    /// a loop.
    pub fn parse(lexer: Tokenizer) -> (r: Result<Parser, CompileError>)
        requires
            lexer.wf(),
        ensures
            match spec_program(lexer.lexemes(), lexer.cursor(), Seq::empty(), Seq::empty()) {
                Ok(program) => {
                    &&& r matches Ok(parser)
                    &&& parser.wf()
                    &&& parser.tokens() == lexer.lexemes()
                    &&& parser.cursor() == lexer.lexemes().len() - 1
                    &&& trees_of(parser.code@) == program.code
                    &&& parser.names() == program.names
                    &&& fit(program)
                },
                Err(fault) => {
                    &&& r matches Err(e)
                    &&& e.kind == ErrorKind::Parse
                    &&& e.message@ == fault_message(fault)
                },
            },
    {
        let mut parser = Parser { lexer, code: Vec::new(), locals: Vec::new() };
        proof {
            assert(trees_of(parser.code@) =~= Seq::<Tree>::empty());
            assert(parser.names() =~= Seq::<Seq<char>>::empty());
            lemma_program(parser.tokens(), parser.cursor(), Seq::empty(), Seq::empty());
        }
        match parser.program() {
            Ok(()) => Ok(parser),
            Err(e) => Err(e),
        }
    }
}

/// The parse that stands for the parser's place and table, with `tree` for
/// what it has built.
pub open spec fn here(parser: Parser, tree: Tree) -> Parsed {
    Parsed { tree, pos: parser.cursor(), names: parser.names() }
}

/// Whether `tree` is fit for the parser's table and flat.
pub open spec fn good_here(parser: Parser, tree: Tree) -> bool {
    well_formed(tree, parser.names().len() as int) && flat(tree)
}

} // verus!
