use std::collections::HashMap;

use tinyc::codegen::CodeGen;
use tinyc::compile;
use tinyc::lexer::Tokenizer;
use tinyc::parser::{Node, NodeKind, Parser};

/// Runs the emitted text on a model of the target machine and returns what
/// `rax` holds when `main` returns.
fn execute(text: &str) -> i64 {
    let lines: Vec<&str> = text.lines().collect();
    let mut labels: HashMap<&str, usize> = HashMap::new();
    for (i, line) in lines.iter().enumerate() {
        if let Some(name) = line.strip_suffix(':') {
            assert!(labels.insert(name, i).is_none(), "label {name} is placed twice");
        }
    }
    let mut memory: HashMap<i64, i64> = HashMap::new();
    let (mut rax, mut rdi, mut rbp, mut zero_flag, mut less_flag) = (0i64, 0i64, 0i64, false, false);
    let mut rsp: i64 = 1 << 20;
    let return_address = -1;
    rsp -= 8;
    memory.insert(rsp, return_address);
    let mut pc = labels["main"];
    let mut steps = 0;
    loop {
        steps += 1;
        assert!(steps < 1_000_000, "the program does not end");
        let line = lines[pc];
        pc += 1;
        if line.starts_with('.') || line.ends_with(':') {
            continue;
        }
        let line = line.strip_prefix("  ").unwrap();
        let (op, operands) = match line.split_once(' ') {
            Some((op, operands)) => (op, operands),
            None => (line, ""),
        };
        match (op, operands) {
            ("push", operand) => {
                let value = match operand {
                    "rax" => rax,
                    "rdi" => rdi,
                    "rbp" => rbp,
                    number => number.parse().unwrap(),
                };
                rsp -= 8;
                memory.insert(rsp, value);
            }
            ("pop", register) => {
                let value = memory[&rsp];
                rsp += 8;
                match register {
                    "rax" => rax = value,
                    "rdi" => rdi = value,
                    "rbp" => rbp = value,
                    other => panic!("pop {other}"),
                }
            }
            ("mov", "rbp, rsp") => rbp = rsp,
            ("mov", "rsp, rbp") => rsp = rbp,
            ("mov", "rax, rbp") => rax = rbp,
            ("mov", "rax, [rax]") => rax = memory[&rax],
            ("mov", "[rax], rdi") => {
                memory.insert(rax, rdi);
            }
            ("add", "rax, rdi") => rax = rax.wrapping_add(rdi),
            ("sub", "rax, rdi") => rax = rax.wrapping_sub(rdi),
            ("imul", "rax, rdi") => rax = rax.wrapping_mul(rdi),
            ("cqo", "") => {}
            ("idiv", "rdi") => rax = rax / rdi,
            ("cmp", "rax, rdi") => {
                zero_flag = rax == rdi;
                less_flag = rax < rdi;
            }
            ("cmp", "rax, 0") => {
                zero_flag = rax == 0;
                less_flag = rax < 0;
            }
            ("sete", "al") => rax = (rax & !0xff) | zero_flag as i64,
            ("setne", "al") => rax = (rax & !0xff) | !zero_flag as i64,
            ("setl", "al") => rax = (rax & !0xff) | less_flag as i64,
            ("setle", "al") => rax = (rax & !0xff) | (less_flag || zero_flag) as i64,
            ("movzb", "rax, al") => rax &= 0xff,
            ("je", label) => {
                if zero_flag {
                    pc = labels[label];
                }
            }
            ("jmp", label) => pc = labels[label],
            ("ret", "") => {
                assert_eq!(memory[&rsp], return_address);
                return rax;
            }
            ("sub", operands) => {
                let (register, amount) = operands.split_once(", ").unwrap();
                let amount: i64 = amount.parse().unwrap();
                match register {
                    "rsp" => rsp -= amount,
                    "rax" => rax -= amount,
                    other => panic!("sub {other}"),
                }
            }
            other => panic!("unknown instruction {other:?}"),
        }
    }
}

fn run(source: &str) -> i64 {
    execute(&compile(source).unwrap())
}

fn num(text: &str) -> Node {
    Node::Num(text.to_string())
}

fn var(offset: usize) -> Node {
    Node::LVar { offset }
}

fn binary(kind: NodeKind, lhs: Node, rhs: Node) -> Node {
    Node::Binary { kind, lhs: Box::new(lhs), rhs: Box::new(rhs) }
}

fn assign(lhs: Node, rhs: Node) -> Node {
    Node::Assign { lhs: Box::new(lhs), rhs: Box::new(rhs) }
}

fn run_trees(code: Vec<Node>, names: &[&str]) -> i64 {
    let mut parser = Parser::parse(Tokenizer::tokenize("").unwrap()).unwrap();
    for name in names {
        parser.find_var(name.to_string());
    }
    parser.code = code;
    execute(&CodeGen::init().generate(&parser).unwrap())
}

#[test]
fn arithmetic_follows_precedence_and_grouping() {
    assert_eq!(run("1+2*3;"), 7);
    assert_eq!(run("(1+2)*3;"), 9);
    assert_eq!(run("10-2-3;"), 5);
    assert_eq!(run("0;"), 0);
    assert_eq!(run("42;"), 42);
    assert_eq!(run("5+20-4;"), 21);
    assert_eq!(run(" 12 + 34 - 5 ;"), 41);
    assert_eq!(run("5+6*7;"), 47);
    assert_eq!(run("5*(9-6);"), 15);
    assert_eq!(run("(3+5)/2;"), 4);
    assert_eq!(run("100/10/5;"), 2);
    assert_eq!(run("2*3*4;"), 24);
    assert_eq!(run("7/2;"), 3);
}

#[test]
fn unary_signs() {
    assert_eq!(run("-10+20;"), 10);
    assert_eq!(run("-(3+4);"), -7);
    assert_eq!(run("+5;"), 5);
    assert_eq!(run("-7/2;"), -3);
    assert_eq!(run("3*-2;"), -6);
}

#[test]
fn both_variables_of_a_chained_assignment_hold_the_value() {
    assert_eq!(run("a=b=3;a+b;"), 6);
    assert_eq!(run("a=b=3;a;"), 3);
    assert_eq!(run("a=b=3;b;"), 3);
    assert_eq!(run("a=b=3;return a+b;"), 6);
}

#[test]
fn comparisons_give_zero_or_one() {
    assert_eq!(run("1<2;"), 1);
    assert_eq!(run("2<1;"), 0);
    assert_eq!(run("2>=2;"), 1);
    assert_eq!(run("2<2;"), 0);
    assert_eq!(run("2<=2;"), 1);
    assert_eq!(run("3<=2;"), 0);
    assert_eq!(run("2>1;"), 1);
    assert_eq!(run("1>2;"), 0);
    assert_eq!(run("1>=2;"), 0);
    assert_eq!(run("1==1;"), 1);
    assert_eq!(run("1==2;"), 0);
    assert_eq!(run("1!=2;"), 1);
    assert_eq!(run("1!=1;"), 0);
    assert_eq!(run("-1<0;"), 1);
    assert_eq!(run("(1<2)+(2<3)+(3<3);"), 2);
    assert_eq!(run("1000==1000;"), 1);
}

#[test]
fn a_loop_sums_the_numbers_below_five() {
    // j=0; i=0; for (i=0; i<5; i=i+1) j=j+i; return j;
    let (i, j) = (8, 16);
    let code = vec![
        assign(var(j), num("0")),
        assign(var(i), num("0")),
        Node::For {
            init: Some(Box::new(assign(var(i), num("0")))),
            cond: Some(Box::new(binary(NodeKind::NodeLT, var(i), num("5")))),
            inc: Some(Box::new(assign(var(i), binary(NodeKind::NodeAdd, var(i), num("1"))))),
            then: Box::new(assign(var(j), binary(NodeKind::NodeAdd, var(j), var(i)))),
        },
        Node::Return(Box::new(var(j))),
    ];
    assert_eq!(run_trees(code, &["i", "j"]), 10);
}

#[test]
fn a_loop_whose_condition_fails_at_once_runs_no_step() {
    let (i, j) = (8, 16);
    let code = vec![
        assign(var(j), num("7")),
        Node::For {
            init: Some(Box::new(assign(var(i), num("9")))),
            cond: Some(Box::new(num("0"))),
            inc: None,
            then: Box::new(assign(var(j), num("1"))),
        },
        Node::Return(Box::new(binary(NodeKind::NodeAdd, var(j), var(i)))),
    ];
    assert_eq!(run_trees(code, &["i", "j"]), 16);
}

#[test]
fn a_loop_without_a_condition_ends_with_a_return() {
    let i = 8;
    let code = vec![
        assign(var(i), num("0")),
        Node::For {
            init: None,
            cond: None,
            inc: Some(Box::new(assign(var(i), binary(NodeKind::NodeAdd, var(i), num("3"))))),
            then: Box::new(Node::If {
                cond: Box::new(binary(NodeKind::NodeLT, num("10"), var(i))),
                then: Box::new(Node::Return(Box::new(var(i)))),
                els: None,
            }),
        },
    ];
    assert_eq!(run_trees(code, &["i"]), 12);
}

#[test]
fn a_conditional_takes_one_branch() {
    let choose = |cond: &str| Node::If {
        cond: Box::new(num(cond)),
        then: Box::new(Node::Return(Box::new(num("10")))),
        els: Some(Box::new(Node::Return(Box::new(num("20"))))),
    };
    assert_eq!(run_trees(vec![choose("1")], &[]), 10);
    assert_eq!(run_trees(vec![choose("0")], &[]), 20);
    assert_eq!(run_trees(vec![choose("5")], &[]), 10);
}

#[test]
fn nested_conditionals_jump_to_their_own_labels() {
    let pick = |outer: &str, inner: &str| {
        let leaf = |n: &str| Node::Return(Box::new(num(n)));
        Node::If {
            cond: Box::new(num(outer)),
            then: Box::new(Node::If {
                cond: Box::new(num(inner)),
                then: Box::new(leaf("1")),
                els: Some(Box::new(leaf("2"))),
            }),
            els: Some(Box::new(Node::If {
                cond: Box::new(num(inner)),
                then: Box::new(leaf("3")),
                els: Some(Box::new(leaf("4"))),
            })),
        }
    };
    assert_eq!(run_trees(vec![pick("1", "1")], &[]), 1);
    assert_eq!(run_trees(vec![pick("1", "0")], &[]), 2);
    assert_eq!(run_trees(vec![pick("0", "1")], &[]), 3);
    assert_eq!(run_trees(vec![pick("0", "0")], &[]), 4);
}

#[test]
fn a_block_runs_its_statements_in_order() {
    let a = 8;
    let code = vec![
        Node::Block(vec![
            assign(var(a), num("1")),
            assign(var(a), binary(NodeKind::NodeMul, var(a), num("5"))),
            assign(var(a), binary(NodeKind::NodeAdd, var(a), num("2"))),
        ]),
        Node::Return(Box::new(var(a))),
    ];
    assert_eq!(run_trees(code, &["a"]), 7);
}

#[test]
fn the_first_return_that_runs_gives_the_value() {
    assert_eq!(run("return 1; return 2;"), 1);
    assert_eq!(run("a=5; return a*2; a=7; a;"), 10);
    assert_eq!(run("1; 2; 3;"), 3);
}

#[test]
fn assignments_inside_operands_happen_from_left_to_right() {
    assert_eq!(run("a=1; (a=2)+a;"), 4);
    assert_eq!(run("a=1; a+(a=2);"), 3);
    assert_eq!(run("a=1; b=(a=a+1)*(a=a+1); b;"), 6);
}

#[test]
fn variables_keep_apart() {
    assert_eq!(run("a=1;b=2;c=3;d=4;a+b*c-d;"), 3);
    assert_eq!(run("a=3; z=5; return a+z;"), 8);
    assert_eq!(run("a=1; A=2; a*10+A;"), 12);
}
