use tinyc::error::ErrorKind;
use tinyc::lexer::Tokenizer;
use tinyc::parser::{LVar, Node, NodeKind, Parser};

fn parse(source: &str) -> Parser {
    Parser::parse(Tokenizer::tokenize(source).unwrap()).unwrap()
}

fn parse_error(source: &str) -> String {
    let error = Parser::parse(Tokenizer::tokenize(source).unwrap()).unwrap_err();
    assert_eq!(error.kind, ErrorKind::Parse);
    error.message
}

fn num(text: &str) -> Node {
    Node::Num(text.to_string())
}

fn var(offset: usize) -> Node {
    Node::LVar { offset }
}

fn binary(kind: NodeKind, lhs: Node, rhs: Node) -> Node {
    Node::Binary { kind, lhs: Box::new(lhs), rhs: Box::new(rhs) }
}

fn assign(lhs: Node, rhs: Node) -> Node {
    Node::Assign { lhs: Box::new(lhs), rhs: Box::new(rhs) }
}

fn names(parser: &Parser) -> Vec<(String, usize)> {
    parser.locals.iter().map(|v| (v.name.clone(), v.offset)).collect()
}

#[test]
fn an_empty_program_has_no_statements() {
    let parser = parse("");
    assert!(parser.code.is_empty());
    assert!(parser.locals.is_empty());
}

#[test]
fn multiplication_binds_tighter_than_addition() {
    let parser = parse("1+2*3;");
    assert_eq!(
        parser.code,
        vec![binary(
            NodeKind::NodeAdd,
            num("1"),
            binary(NodeKind::NodeMul, num("2"), num("3"))
        )]
    );
}

#[test]
fn brackets_group() {
    let parser = parse("(1+2)*3;");
    assert_eq!(
        parser.code,
        vec![binary(
            NodeKind::NodeMul,
            binary(NodeKind::NodeAdd, num("1"), num("2")),
            num("3")
        )]
    );
}

#[test]
fn subtraction_groups_from_the_left() {
    let parser = parse("10-2-3;");
    assert_eq!(
        parser.code,
        vec![binary(
            NodeKind::NodeSub,
            binary(NodeKind::NodeSub, num("10"), num("2")),
            num("3")
        )]
    );
}

#[test]
fn division_groups_from_the_left() {
    let parser = parse("8/4/2;");
    assert_eq!(
        parser.code,
        vec![binary(
            NodeKind::NodeDiv,
            binary(NodeKind::NodeDiv, num("8"), num("4")),
            num("2")
        )]
    );
}

#[test]
fn greater_than_swaps_its_operands() {
    assert_eq!(parse("1<2;").code, vec![binary(NodeKind::NodeLT, num("1"), num("2"))]);
    assert_eq!(parse("1<=2;").code, vec![binary(NodeKind::NodeLE, num("1"), num("2"))]);
    assert_eq!(parse("1>2;").code, vec![binary(NodeKind::NodeLT, num("2"), num("1"))]);
    assert_eq!(parse("1>=2;").code, vec![binary(NodeKind::NodeLE, num("2"), num("1"))]);
}

#[test]
fn comparisons_chain_from_the_left() {
    assert_eq!(
        parse("1<2>3;").code,
        vec![binary(
            NodeKind::NodeLT,
            num("3"),
            binary(NodeKind::NodeLT, num("1"), num("2"))
        )]
    );
}

#[test]
fn equality_is_looser_than_comparison() {
    assert_eq!(
        parse("1==2<3;").code,
        vec![binary(
            NodeKind::NodeEQ,
            num("1"),
            binary(NodeKind::NodeLT, num("2"), num("3"))
        )]
    );
    assert_eq!(
        parse("1!=2==3;").code,
        vec![binary(
            NodeKind::NodeEQ,
            binary(NodeKind::NodeNE, num("1"), num("2")),
            num("3")
        )]
    );
}

#[test]
fn unary_minus_subtracts_from_zero() {
    assert_eq!(parse("-5;").code, vec![binary(NodeKind::NodeSub, num("0"), num("5"))]);
    assert_eq!(parse("+5;").code, vec![num("5")]);
    assert_eq!(
        parse("2*-3;").code,
        vec![binary(
            NodeKind::NodeMul,
            num("2"),
            binary(NodeKind::NodeSub, num("0"), num("3"))
        )]
    );
    assert_eq!(
        parse("-(1+2);").code,
        vec![binary(
            NodeKind::NodeSub,
            num("0"),
            binary(NodeKind::NodeAdd, num("1"), num("2"))
        )]
    );
}

#[test]
fn a_sign_takes_one_primary_only() {
    assert_eq!(parse_error("--5;"), "expected number");
    assert_eq!(parse_error("+-5;"), "expected number");
}

#[test]
fn assignment_groups_from_the_right() {
    let parser = parse("a=b=3;a+b;");
    assert_eq!(
        parser.code,
        vec![
            assign(var(8), assign(var(16), num("3"))),
            binary(NodeKind::NodeAdd, var(8), var(16)),
        ]
    );
    assert_eq!(names(&parser), vec![("a".to_string(), 8), ("b".to_string(), 16)]);
}

#[test]
fn a_name_has_one_offset_for_the_whole_program() {
    let parser = parse("a=1;b=2;a=a+b;c=a;b;");
    assert_eq!(
        names(&parser),
        vec![("a".to_string(), 8), ("b".to_string(), 16), ("c".to_string(), 24)]
    );
    assert_eq!(parser.code.len(), 5);
    assert_eq!(parser.code[4], var(16));
}

#[test]
fn upper_and_lower_case_are_different_names() {
    let parser = parse("a=A;");
    assert_eq!(names(&parser), vec![("a".to_string(), 8), ("A".to_string(), 16)]);
}

#[test]
fn return_wraps_its_expression() {
    assert_eq!(parse("return 1+2;").code, vec![Node::Return(Box::new(binary(
        NodeKind::NodeAdd,
        num("1"),
        num("2")
    )))]);
    assert_eq!(
        parse("a=1;return a;").code,
        vec![assign(var(8), num("1")), Node::Return(Box::new(var(8)))]
    );
}

#[test]
fn an_assignment_to_a_number_is_parsed() {
    assert_eq!(parse("1=2;").code, vec![assign(num("1"), num("2"))]);
    assert_eq!(
        parse("a+1=2;").code,
        vec![assign(binary(NodeKind::NodeAdd, var(8), num("1")), num("2"))]
    );
}

#[test]
fn a_missing_operand_is_an_expected_number() {
    assert_eq!(parse_error("1+"), "expected number");
    assert_eq!(parse_error("1+;"), "expected number");
    assert_eq!(parse_error(";"), "expected number");
    assert_eq!(parse_error("()"), "expected number");
    assert_eq!(parse_error("return;"), "expected number");
    assert_eq!(parse_error("a="), "expected number");
    assert_eq!(parse_error("1*/2;"), "expected number");
}

#[test]
fn a_missing_terminator_names_what_was_found() {
    assert_eq!(parse_error("1"), "expected `;`, found ``");
    assert_eq!(parse_error("1 2"), "expected `;`, found ``");
    assert_eq!(parse_error("1;2"), "expected `;`, found ``");
    assert_eq!(parse_error("1)"), "expected `;`, found `)`");
    assert_eq!(parse_error("a b;"), "expected `;`, found `b`");
    assert_eq!(parse_error("1 return"), "expected `;`, found `return`");
}

#[test]
fn a_missing_bracket_names_what_was_found() {
    assert_eq!(parse_error("(1+2;"), "expected `)`, found `;`");
    assert_eq!(parse_error("(1"), "expected `)`, found ``");
    assert_eq!(parse_error("((1)"), "expected `)`, found ``");
}

#[test]
fn the_program_ends_at_the_end_of_input_only() {
    assert_eq!(parse_error("1;)"), "expected number");
    assert_eq!(parse_error("1;2;+"), "expected number");
}

#[test]
fn find_var_adds_a_new_name_and_finds_a_known_one() {
    let mut parser = parse("");
    assert_eq!(parser.find_var("x".to_string()), 8);
    assert_eq!(parser.find_var("y".to_string()), 16);
    assert_eq!(parser.find_var("x".to_string()), 8);
    assert_eq!(parser.find_var("z".to_string()), 24);
    assert_eq!(parser.find_var("y".to_string()), 16);
    assert_eq!(
        parser.locals,
        vec![
            LVar { name: "x".to_string(), offset: 8 },
            LVar { name: "y".to_string(), offset: 16 },
            LVar { name: "z".to_string(), offset: 24 },
        ]
    );
}

#[test]
fn node_builders() {
    assert_eq!(Parser::new_node_num("7".to_string()), num("7"));
    assert_eq!(
        Parser::new_node(NodeKind::NodeLE, num("1"), var(8)),
        binary(NodeKind::NodeLE, num("1"), var(8))
    );
}

#[test]
fn all_the_letters_fit_the_table() {
    let mut source = String::new();
    for c in ('a'..='z').chain('A'..='Z') {
        source.push(c);
        source.push(';');
    }
    let parser = parse(&source);
    assert_eq!(parser.locals.len(), 52);
    assert_eq!(parser.locals[51].offset, 416);
    assert_eq!(parser.locals[51].name, "Z");
}

#[test]
fn a_copy_of_a_tree_is_equal_to_it() {
    let tree = Node::If {
        cond: Box::new(binary(NodeKind::NodeLT, var(8), num("5"))),
        then: Box::new(Node::Block(vec![
            assign(var(8), num("1")),
            Node::Return(Box::new(var(8))),
        ])),
        els: Some(Box::new(Node::For {
            init: None,
            cond: Some(Box::new(num("0"))),
            inc: None,
            then: Box::new(Node::Block(vec![])),
        })),
    };
    assert_eq!(tree.clone(), tree);
    let parser = parse("a=b=3;return a+b;");
    let copy = parser.clone();
    assert_eq!(copy.code, parser.code);
    assert_eq!(copy.locals, parser.locals);
}
