use tinyc::codegen::CodeGen;
use tinyc::error::ErrorKind;
use tinyc::lexer::Tokenizer;
use tinyc::parser::{LVar, Node, NodeKind, Parser};

fn parse(source: &str) -> Parser {
    Parser::parse(Tokenizer::tokenize(source).unwrap()).unwrap()
}

fn generate(source: &str) -> String {
    CodeGen::init().generate(&parse(source)).unwrap()
}

fn program(code: Vec<Node>, names: &[&str]) -> Parser {
    let mut parser = parse("");
    for name in names {
        parser.find_var(name.to_string());
    }
    parser.code = code;
    parser
}

fn num(text: &str) -> Node {
    Node::Num(text.to_string())
}

fn var(offset: usize) -> Node {
    Node::LVar { offset }
}

fn binary(kind: NodeKind, lhs: Node, rhs: Node) -> Node {
    Node::Binary { kind, lhs: Box::new(lhs), rhs: Box::new(rhs) }
}

fn assign(lhs: Node, rhs: Node) -> Node {
    Node::Assign { lhs: Box::new(lhs), rhs: Box::new(rhs) }
}

fn if_node(cond: Node, then: Node, els: Option<Node>) -> Node {
    Node::If { cond: Box::new(cond), then: Box::new(then), els: els.map(Box::new) }
}

fn for_node(init: Option<Node>, cond: Option<Node>, inc: Option<Node>, then: Node) -> Node {
    Node::For {
        init: init.map(Box::new),
        cond: cond.map(Box::new),
        inc: inc.map(Box::new),
        then: Box::new(then),
    }
}

fn body_lines(text: &str) -> Vec<String> {
    let lines: Vec<String> = text.lines().map(|l| l.to_string()).collect();
    assert!(lines.len() >= 9);
    assert_eq!(
        lines[..5],
        [".intel_syntax noprefix", ".global main", "main:", "  push rbp", "  mov rbp, rsp"]
    );
    assert!(lines[5].starts_with("  sub rsp, "));
    assert_eq!(lines[lines.len() - 3..], ["  mov rsp, rbp", "  pop rbp", "  ret"]);
    lines[6..lines.len() - 3].to_vec()
}

fn frame_size(text: &str) -> usize {
    let line = text.lines().nth(5).unwrap();
    line.strip_prefix("  sub rsp, ").unwrap().parse().unwrap()
}

fn placed_labels(text: &str) -> Vec<String> {
    text.lines()
        .filter(|l| l.starts_with(".L.") && l.ends_with(':'))
        .map(|l| l.trim_end_matches(':').to_string())
        .collect()
}

#[test]
fn the_whole_text_of_an_addition() {
    let expected = "\
.intel_syntax noprefix
.global main
main:
  push rbp
  mov rbp, rsp
  sub rsp, 0
  push 1
  push 2
  pop rdi
  pop rax
  add rax, rdi
  push rax
  pop rax
  mov rsp, rbp
  pop rbp
  ret
";
    assert_eq!(generate("1+2;"), expected);
}

#[test]
fn the_whole_text_of_an_empty_program() {
    let expected = "\
.intel_syntax noprefix
.global main
main:
  push rbp
  mov rbp, rsp
  sub rsp, 0
  mov rsp, rbp
  pop rbp
  ret
";
    assert_eq!(generate(""), expected);
}

#[test]
fn the_whole_text_of_an_assignment_and_a_return() {
    let expected = "\
.intel_syntax noprefix
.global main
main:
  push rbp
  mov rbp, rsp
  sub rsp, 16
  mov rax, rbp
  sub rax, 8
  push rax
  push 3
  pop rdi
  pop rax
  mov [rax], rdi
  push rdi
  pop rax
  mov rax, rbp
  sub rax, 8
  push rax
  pop rax
  mov rax, [rax]
  push rax
  pop rax
  mov rsp, rbp
  pop rbp
  ret
  pop rax
  mov rsp, rbp
  pop rbp
  ret
";
    assert_eq!(generate("a=3;return a;"), expected);
}

#[test]
fn every_line_ends_with_a_line_break_and_instructions_are_indented() {
    let text = generate("a=1;b=a*2;return b/a;");
    assert!(text.ends_with('\n'));
    for line in text.lines() {
        if line == ".intel_syntax noprefix" || line == ".global main" || line == "main:" {
            continue;
        }
        assert!(line.starts_with("  "), "{line}");
        assert!(!line.starts_with("   "), "{line}");
    }
}

#[test]
fn each_operator_has_its_instructions() {
    let cases: [(&str, &[&str]); 10] = [
        ("1+2;", &["  add rax, rdi"]),
        ("1-2;", &["  sub rax, rdi"]),
        ("1*2;", &["  imul rax, rdi"]),
        ("1/2;", &["  cqo", "  idiv rdi"]),
        ("1==2;", &["  cmp rax, rdi", "  sete al", "  movzb rax, al"]),
        ("1!=2;", &["  cmp rax, rdi", "  setne al", "  movzb rax, al"]),
        ("1<2;", &["  cmp rax, rdi", "  setl al", "  movzb rax, al"]),
        ("1<=2;", &["  cmp rax, rdi", "  setle al", "  movzb rax, al"]),
        ("2>1;", &["  cmp rax, rdi", "  setl al", "  movzb rax, al"]),
        ("2>=1;", &["  cmp rax, rdi", "  setle al", "  movzb rax, al"]),
    ];
    for (source, operation) in cases {
        let mut expected = vec!["  push 1", "  push 2", "  pop rdi", "  pop rax"];
        expected.extend_from_slice(operation);
        expected.push("  push rax");
        expected.push("  pop rax");
        assert_eq!(body_lines(&generate(source)), expected, "{source}");
    }
}

#[test]
fn the_left_operand_is_evaluated_first() {
    assert_eq!(
        body_lines(&generate("7-5;"))[..2],
        ["  push 7".to_string(), "  push 5".to_string()]
    );
}

#[test]
fn a_number_is_pushed_by_its_value() {
    assert_eq!(body_lines(&generate("007;")), ["  push 7", "  pop rax"]);
    assert_eq!(body_lines(&generate("000;")), ["  push 0", "  pop rax"]);
    assert_eq!(body_lines(&generate("0;")), ["  push 0", "  pop rax"]);
    assert_eq!(body_lines(&generate("1 0 0;")), ["  push 100", "  pop rax"]);
    assert_eq!(
        body_lines(&generate("00123456789012345678901234567890;")),
        ["  push 123456789012345678901234567890", "  pop rax"]
    );
}

#[test]
fn the_frame_holds_eight_bytes_for_each_name_rounded_up_to_sixteen() {
    assert_eq!(frame_size(&generate("1;")), 0);
    assert_eq!(frame_size(&generate("a;")), 16);
    assert_eq!(frame_size(&generate("a;b;")), 16);
    assert_eq!(frame_size(&generate("a;b;c;")), 32);
    assert_eq!(frame_size(&generate("a;b;c;d;")), 32);
    assert_eq!(frame_size(&generate("a;b;c;d;e;")), 48);
}

#[test]
fn a_name_that_is_used_again_takes_no_more_room() {
    assert_eq!(frame_size(&generate("a;a;a=a+a;return a;")), 16);
    assert_eq!(frame_size(&generate("a=1;b=2;a=b;b=a;a=a+b+a+b;")), 16);
    assert_eq!(
        frame_size(&generate("a;b;c;")),
        frame_size(&generate("a;b;c;c;b;a;a=b=c;"))
    );
}

#[test]
fn align_to_rounds_up_to_a_multiple() {
    assert_eq!(CodeGen::align_to(0, 16), 0);
    assert_eq!(CodeGen::align_to(1, 16), 16);
    assert_eq!(CodeGen::align_to(8, 16), 16);
    assert_eq!(CodeGen::align_to(16, 16), 16);
    assert_eq!(CodeGen::align_to(17, 16), 32);
    assert_eq!(CodeGen::align_to(24, 16), 32);
    assert_eq!(CodeGen::align_to(7, 1), 7);
    assert_eq!(CodeGen::align_to(10, 3), 12);
    assert_eq!(CodeGen::align_to(usize::MAX, 1), usize::MAX);
}

#[test]
fn calculate_total_offsets_is_the_frame_size() {
    assert_eq!(CodeGen::calculate_total_offsets(&parse("")), 0);
    assert_eq!(CodeGen::calculate_total_offsets(&parse("a;")), 16);
    assert_eq!(CodeGen::calculate_total_offsets(&parse("a;b;c;")), 32);
}

#[test]
fn an_assignment_to_a_number_is_a_codegen_error() {
    for source in ["1=2;", "a+1=2;", "a=1;(a)=2;3=a;", "a=1=2;", "return 1=2;", "(1=2)+3;"] {
        let error = CodeGen::init().generate(&parse(source)).unwrap_err();
        assert_eq!(error.kind, ErrorKind::Codegen, "{source}");
        assert_eq!(error.message, "left side of assignment is not a variable", "{source}");
    }
    assert!(CodeGen::init().generate(&parse("(a)=2;")).is_ok());
}

#[test]
fn an_assignment_inside_a_conditional_is_checked_too() {
    let bad = || assign(num("1"), num("2"));
    let trees = vec![
        if_node(bad(), num("1"), None),
        if_node(num("1"), bad(), None),
        if_node(num("1"), num("1"), Some(bad())),
        for_node(Some(bad()), None, None, num("1")),
        for_node(None, Some(bad()), None, num("1")),
        for_node(None, None, Some(bad()), num("1")),
        for_node(None, None, None, bad()),
        Node::Block(vec![num("1"), bad()]),
        Node::Return(Box::new(bad())),
    ];
    for tree in trees {
        let error = CodeGen::init().generate(&program(vec![tree], &[])).unwrap_err();
        assert_eq!(error.kind, ErrorKind::Codegen);
        assert_eq!(error.message, "left side of assignment is not a variable");
    }
}

#[test]
fn a_conditional_with_both_branches() {
    let tree = if_node(num("1"), num("2"), Some(num("3")));
    let text = CodeGen::init().generate(&program(vec![tree], &[])).unwrap();
    assert_eq!(
        body_lines(&text),
        [
            "  push 1",
            "  pop rax",
            "  cmp rax, 0",
            "  je .L.else.0",
            "  push 2",
            "  jmp .L.end.0",
            ".L.else.0:",
            "  push 3",
            ".L.end.0:",
            "  pop rax",
        ]
    );
}

#[test]
fn a_conditional_without_an_else_branch() {
    let tree = if_node(num("1"), num("2"), None);
    let text = CodeGen::init().generate(&program(vec![tree], &[])).unwrap();
    assert_eq!(
        body_lines(&text),
        [
            "  push 1",
            "  pop rax",
            "  cmp rax, 0",
            "  je .L.else.0",
            "  push 2",
            "  jmp .L.end.0",
            ".L.else.0:",
            ".L.end.0:",
            "  pop rax",
        ]
    );
}

#[test]
fn a_loop_with_all_its_parts() {
    let tree = for_node(Some(num("1")), Some(num("2")), Some(num("3")), num("4"));
    let text = CodeGen::init().generate(&program(vec![tree], &[])).unwrap();
    assert_eq!(
        body_lines(&text),
        [
            "  push 1",
            ".L.begin.0:",
            "  push 2",
            "  pop rax",
            "  cmp rax, 0",
            "  je .L.end.0",
            "  push 4",
            "  push 3",
            "  jmp .L.begin.0",
            ".L.end.0:",
            "  pop rax",
        ]
    );
}

#[test]
fn a_loop_without_a_condition_is_not_tested() {
    let tree = for_node(None, None, None, num("4"));
    let text = CodeGen::init().generate(&program(vec![tree], &[])).unwrap();
    assert_eq!(
        body_lines(&text),
        [".L.begin.0:", "  push 4", "  jmp .L.begin.0", ".L.end.0:", "  pop rax"]
    );
}

#[test]
fn a_block_pops_every_statement_and_pushes_once() {
    let tree = Node::Block(vec![num("1"), num("2")]);
    let text = CodeGen::init().generate(&program(vec![tree], &[])).unwrap();
    assert_eq!(
        body_lines(&text),
        ["  push 1", "  pop rax", "  push 2", "  pop rax", "  push rax", "  pop rax"]
    );
    let empty = Node::Block(vec![]);
    let text = CodeGen::init().generate(&program(vec![empty], &[])).unwrap();
    assert_eq!(body_lines(&text), ["  push rax", "  pop rax"]);
}

#[test]
fn nested_and_neighbouring_conditionals_share_no_label() {
    let inner = || if_node(num("1"), num("2"), Some(num("3")));
    let tree = if_node(
        inner(),
        for_node(Some(inner()), Some(inner()), Some(inner()), inner()),
        Some(Node::Block(vec![inner(), for_node(None, None, None, inner())])),
    );
    let code = vec![tree, inner(), for_node(None, Some(num("0")), None, num("1"))];
    let text = CodeGen::init().generate(&program(code, &[])).unwrap();
    let labels = placed_labels(&text);
    // 1 outer if, 1 for with 4 ifs and 1 if as condition of the outer, a block
    // with an if and a for that holds an if, then an if and a for
    let constructs = 1 + 1 + (1 + 4) + (1 + 1 + 1) + 1 + 1;
    assert_eq!(labels.len(), 2 * constructs);
    let mut sorted = labels.clone();
    sorted.sort();
    sorted.dedup();
    assert_eq!(sorted.len(), labels.len());
    for id in 0..constructs {
        let with_id: Vec<&String> =
            labels.iter().filter(|l| l.rsplit('.').next().unwrap() == id.to_string()).collect();
        assert_eq!(with_id.len(), 2, "{id}");
        assert!(with_id.iter().any(|l| l.starts_with(".L.end.")));
    }
    for line in text.lines() {
        let target = line.strip_prefix("  je ").or_else(|| line.strip_prefix("  jmp "));
        if let Some(target) = target {
            assert!(labels.iter().any(|l| l == target), "{line}");
        }
    }
}

#[test]
fn the_counter_goes_on_from_one_pass_to_the_next() {
    let mut generator = CodeGen::init();
    let first = generator.generate(&program(vec![if_node(num("1"), num("2"), None)], &[]));
    assert_eq!(placed_labels(&first.unwrap()), [".L.else.0", ".L.end.0"]);
    let second = generator
        .generate(&program(vec![for_node(None, None, None, if_node(num("1"), num("2"), None))], &[]));
    assert_eq!(
        placed_labels(&second.unwrap()),
        [".L.begin.1", ".L.else.2", ".L.end.2", ".L.end.1"]
    );
}

#[test]
fn a_parser_built_by_hand_is_generated_like_a_parsed_one() {
    let mut by_hand = parse("");
    by_hand.locals = vec![
        LVar { name: "a".to_string(), offset: 8 },
        LVar { name: "b".to_string(), offset: 16 },
    ];
    by_hand.code = vec![
        assign(var(8), assign(var(16), num("3"))),
        binary(NodeKind::NodeAdd, var(8), var(16)),
    ];
    assert_eq!(CodeGen::init().generate(&by_hand).unwrap(), generate("a=b=3;a+b;"));
}
