use tinyc::error::{CompileError, ErrorKind};
use tinyc::{compile, run};

fn args(list: &[&str]) -> Vec<String> {
    list.iter().map(|s| s.to_string()).collect()
}

#[test]
fn a_missing_operand_gives_a_parse_error_and_no_text() {
    let error = compile("1+").unwrap_err();
    assert_eq!(error.kind, ErrorKind::Parse);
    assert_eq!(error.message, "expected number");
}

#[test]
fn each_stage_reports_its_own_kind() {
    assert_eq!(compile("1 # 2;").unwrap_err().kind, ErrorKind::Lex);
    assert_eq!(compile("1 ! 2;").unwrap_err().kind, ErrorKind::Lex);
    assert_eq!(compile("1 2").unwrap_err().kind, ErrorKind::Parse);
    assert_eq!(compile("(1;").unwrap_err().kind, ErrorKind::Parse);
    assert_eq!(compile("1=2;").unwrap_err().kind, ErrorKind::Codegen);
    assert!(compile("a=2;").is_ok());
}

#[test]
fn an_earlier_stage_fails_first() {
    // the lexer sees the whole text before the parser sees a token
    let error = compile("1+ #").unwrap_err();
    assert_eq!(error.kind, ErrorKind::Lex);
    // the parser sees the whole program before any code is generated
    let error = compile("1=2; 3+").unwrap_err();
    assert_eq!(error.kind, ErrorKind::Parse);
}

#[test]
fn a_wrong_number_of_arguments_is_a_usage_error() {
    for list in [
        args(&[]),
        args(&["tinyc"]),
        args(&["tinyc", "1;", "2;"]),
        args(&["tinyc", "1+", "#"]),
    ] {
        let error = run(&list).unwrap_err();
        assert_eq!(error.kind, ErrorKind::Usage);
        assert_eq!(error.message, "wrong arguments number");
    }
}

#[test]
fn one_argument_is_compiled() {
    assert_eq!(run(&args(&["tinyc", "1+2;"])), compile("1+2;"));
    assert_eq!(run(&args(&["tinyc", "1+"])), compile("1+"));
    assert_eq!(run(&args(&["tinyc", ""])), compile(""));
    assert!(run(&args(&["tinyc", "return 0;"])).is_ok());
}

#[test]
fn an_error_is_its_message() {
    let error = CompileError::new(ErrorKind::Parse, "expected number");
    assert_eq!(error.to_string(), "expected number");
    assert_eq!(error, compile("1+").unwrap_err());
}
