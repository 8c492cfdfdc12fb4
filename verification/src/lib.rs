//! A small ahead-of-time compiler: source text is split into tokens, the
//! tokens are parsed into one tree per statement, and the trees are emitted
//! as assembly text for a stack machine.
//!
//! [`compile`] runs the three stages on one source text. Each stage stops at
//! its first error, and an error of any stage is a [`CompileError`].
//!
//! The stages, each with a description of what it computes and a proof that
//! it computes that:
//!
//! - [`lexer`]: from characters to tokens;
//! - [`grammar`] and [`parser`]: from tokens to the trees of [`ast`] and the
//!   table of variables;
//! - [`lines`] and [`codegen`]: from trees to lines of assembly, and their
//!   text.
//!
//! What is proved of the compiler as a whole:
//!
//! - [`labels`]: every conditional and every loop has labels of its own;
//! - [`lemma_frame`]: the frame has room for the variables that the program
//!   uses, however often it uses each;
//! - [`meaning`], [`machine`] and [`correctness`]: the emitted code, run on a
//!   model of the target machine, computes what the program means
//!   ([`lemma_compiled_runs`]).

use vstd::prelude::*;

pub mod ast;
pub mod codegen;
pub mod correctness;
pub mod error;
pub mod grammar;
pub mod labels;
pub mod lexer;
pub mod lines;
pub mod machine;
pub mod meaning;
pub mod numeral;
pub mod parser;

use crate::ast::Tree;
use crate::codegen::CodeGen;
use crate::correctness::{calling, first_frame, returns_with};
use crate::error::{CompileError, ErrorKind};
use crate::grammar::{Program, spec_parse};
use crate::lexer::{Tokenizer, spec_tokenize};
use crate::lines::{Line, align_up, all_assignable, not_a_variable, program_lines, render};
use crate::machine::Machine;
use crate::meaning::{result, statement};
use crate::parser::Parser;

verus! {

/// Why a compilation failed: the stage and the message.
pub struct Failure {
    pub kind: ErrorKind,
    pub message: Seq<char>,
}

/// The assembly text that the source text `source` is compiled to, or the
/// first failure on the way: of the lexer, then of the parser, then of the
/// generator.
pub open spec fn spec_compile(source: Seq<char>) -> Result<Seq<char>, Failure> {
    match spec_tokenize(source) {
        Err(fault) => Err(
            Failure { kind: ErrorKind::Lex, message: crate::lexer::fault_message(fault) },
        ),
        Ok(tokens) => match spec_parse(tokens) {
            Err(fault) => Err(
                Failure { kind: ErrorKind::Parse, message: crate::grammar::fault_message(fault) },
            ),
            Ok(program) => if all_assignable(program.code) {
                Ok(render(program_lines(program.code, program.names.len(), 0)))
            } else {
                Err(Failure { kind: ErrorKind::Codegen, message: not_a_variable() })
            },
        },
    }
}

/// Whether `r` is the outcome that `expected` describes.
pub open spec fn is_outcome(r: Result<String, CompileError>, expected: Result<Seq<char>, Failure>)
    -> bool {
    match expected {
        Ok(text) => r matches Ok(t) && t@ == text,
        Err(failure) => r matches Err(e) && e.kind == failure.kind && e.message@
            == failure.message,
    }
}

/// Compiles `source` to assembly text.
pub fn compile(source: &str) -> (r: Result<String, CompileError>)
    ensures
        is_outcome(r, spec_compile(source@)),
{
    let tokenizer = match Tokenizer::tokenize(source) {
        Ok(tokenizer) => tokenizer,
        Err(e) => {
            return Err(e);
        },
    };
    let parser = match Parser::parse(tokenizer) {
        Ok(parser) => parser,
        Err(e) => {
            return Err(e);
        },
    };
    let mut generator = CodeGen::init();
    generator.generate(&parser)
}

/// The message for a wrong number of arguments.
pub open spec fn usage_message() -> Seq<char> {
    "wrong arguments number"@
}

/// Compiles the program that a command line holds. `args` is the command
/// line as the system hands it over: the name of the compiler, then the
/// source text as the one argument. With any other number of arguments
/// nothing is read and the usage error is returned.
pub fn run(args: &Vec<String>) -> (r: Result<String, CompileError>)
    ensures
        args.len() != 2 ==> (r matches Err(e) && e.kind == ErrorKind::Usage && e.message@
            == usage_message()),
        args.len() == 2 ==> is_outcome(r, spec_compile(args[1]@)),
{
    if args.len() != 2 {
        return Err(CompileError::new(ErrorKind::Usage, "wrong arguments number"));
    }
    compile(args[1].as_str())
}

/// **The frame has room for the names that the program uses.** Where a
/// source text is a program, the sixth line of its assembly text reserves
/// eight bytes for each different name among its variables, rounded up to a
/// multiple of sixteen.
pub proof fn lemma_frame(source: Seq<char>)
    ensures
        ({
            let tokens = spec_tokenize(source);
            tokens is Ok ==> {
                let program = spec_parse(tokens->Ok_0);
                let used = crate::grammar::idents(tokens->Ok_0, 0, tokens->Ok_0.len() as int);
                program is Ok ==> program_lines(
                    program->Ok_0.code,
                    program->Ok_0.names.len(),
                    0,
                )[5] == Line::Reserve(align_up(used.len() * 8, 16))
            }
        }),
{
    if let Ok(tokens) = spec_tokenize(source) {
        crate::lexer::lemma_lex_complete(source, 0);
        crate::lexer::lemma_lex_proper(source, 0);
        crate::grammar::lemma_table_is_names_used(tokens);
    }
}

/// The program that a source text stands for, if it stands for one.
pub open spec fn program_of(source: Seq<char>) -> Option<Program> {
    match spec_tokenize(source) {
        Ok(tokens) => match spec_parse(tokens) {
            Ok(program) => Some(program),
            Err(_) => None,
        },
        Err(_) => None,
    }
}

/// **A compiled program computes what it means.** Where a source text is
/// compiled, the text is that of lines which, called on the machine with an
/// aligned stack, return the [`result`] of the program in `rax`, or trap
/// where the program has none: at a division that has no quotient, or a
/// number that no `push` can hold.
pub proof fn lemma_compiled_runs(source: Seq<char>, m: Machine)
    ensures
        spec_compile(source) is Ok ==> {
            let program = program_of(source)->Some_0;
            let slots = program.names.len();
            let lines = program_lines(program.code, slots, 0);
            &&& program_of(source) is Some
            &&& spec_compile(source) == Ok::<Seq<char>, Failure>(render(lines))
            &&& calling(m, slots) ==> match result(program.code, first_frame(m, slots), m.rax) {
                Some(value) => returns_with(m, crate::machine::run(lines, m), value),
                None => crate::machine::run(lines, m) is None,
            }
        },
{
    if spec_compile(source) is Ok {
        let tokens = spec_tokenize(source)->Ok_0;
        let program = spec_parse(tokens)->Ok_0;
        let slots = program.names.len();
        crate::lexer::lemma_lex_proper(source, 0);
        crate::grammar::lemma_program(tokens, 0, Seq::empty(), Seq::empty());
        assert forall|i: int| 0 <= i < program.code.len() implies statement(
            #[trigger] program.code[i],
        ) by {
            let tree = program.code[i];
            assert(crate::ast::simple_statement(tree));
            assert(crate::lines::assignable(tree));
            match tree {
                Tree::Return(operand) => {
                    crate::meaning::lemma_flat_expression(*operand);
                },
                _ => {
                    crate::meaning::lemma_flat_expression(tree);
                },
            }
        }
        if calling(m, slots) {
            crate::correctness::lemma_program_runs(program.code, slots, 0, m);
        }
    }
}

} // verus!
