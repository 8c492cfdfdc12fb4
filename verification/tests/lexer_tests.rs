use tinyc::error::ErrorKind;
use tinyc::lexer::{Token, TokenKind, Tokenizer};

fn kinds_and_texts(source: &str) -> Vec<(TokenKind, String)> {
    let tokenizer = Tokenizer::tokenize(source).unwrap();
    tokenizer.tokens().iter().map(|t| (t.kind, t.string.clone())).collect()
}

fn reserved(text: &str) -> (TokenKind, String) {
    (TokenKind::TkReserved, text.to_string())
}

fn num(text: &str) -> (TokenKind, String) {
    (TokenKind::TkNum, text.to_string())
}

fn ident(text: &str) -> (TokenKind, String) {
    (TokenKind::TkIdent, text.to_string())
}

fn eof() -> (TokenKind, String) {
    (TokenKind::TkEOF, String::new())
}

#[test]
fn test_parse_int() {
    let mut tokenizer = Tokenizer::new_empty("42");
    assert_eq!(tokenizer.parse_int().unwrap(), String::from("42"));
}

#[test]
fn parse_int_stops_at_the_first_other_character() {
    let mut tokenizer = Tokenizer::new_empty("12+3");
    assert_eq!(tokenizer.parse_int().unwrap(), String::from("12"));
    assert_eq!(tokenizer.parse_int().unwrap(), String::from(""));
}

#[test]
fn parse_int_skips_spaces_inside_the_run() {
    let mut tokenizer = Tokenizer::new_empty("1 2  3 +");
    assert_eq!(tokenizer.parse_int().unwrap(), String::from("123"));
}

#[test]
fn empty_source_is_the_end_of_input_alone() {
    assert_eq!(kinds_and_texts(""), vec![eof()]);
    assert_eq!(kinds_and_texts("   "), vec![eof()]);
}

#[test]
fn single_character_operators() {
    assert_eq!(
        kinds_and_texts("+-*/();"),
        vec![
            reserved("+"),
            reserved("-"),
            reserved("*"),
            reserved("/"),
            reserved("("),
            reserved(")"),
            reserved(";"),
            eof()
        ]
    );
}

#[test]
fn the_longest_operator_wins() {
    assert_eq!(
        kinds_and_texts("== = <= < >= > !="),
        vec![
            reserved("=="),
            reserved("="),
            reserved("<="),
            reserved("<"),
            reserved(">="),
            reserved(">"),
            reserved("!="),
            eof()
        ]
    );
    assert_eq!(kinds_and_texts("==="), vec![reserved("=="), reserved("="), eof()]);
    assert_eq!(kinds_and_texts("<=="), vec![reserved("<="), reserved("="), eof()]);
    assert_eq!(kinds_and_texts("= ="), vec![reserved("="), reserved("="), eof()]);
}

#[test]
fn numbers_keep_their_digits() {
    assert_eq!(kinds_and_texts("007"), vec![num("007"), eof()]);
    assert_eq!(kinds_and_texts("12+34"), vec![num("12"), reserved("+"), num("34"), eof()]);
}

#[test]
fn spaces_inside_a_number_are_skipped() {
    assert_eq!(kinds_and_texts("1 2"), vec![num("12"), eof()]);
    assert_eq!(kinds_and_texts("1 2 + 3 "), vec![num("12"), reserved("+"), num("3"), eof()]);
}

#[test]
fn letters_are_variables_one_by_one() {
    assert_eq!(kinds_and_texts("a"), vec![ident("a"), eof()]);
    assert_eq!(kinds_and_texts("ab Z"), vec![ident("a"), ident("b"), ident("Z"), eof()]);
    assert_eq!(kinds_and_texts("a1"), vec![ident("a"), num("1"), eof()]);
}

#[test]
fn the_word_return_is_reserved() {
    assert_eq!(kinds_and_texts("return 1;"), vec![
        reserved("return"),
        num("1"),
        reserved(";"),
        eof()
    ]);
    assert_eq!(kinds_and_texts("returnx"), vec![reserved("return"), ident("x"), eof()]);
    assert_eq!(
        kinds_and_texts("retur"),
        vec![ident("r"), ident("e"), ident("t"), ident("u"), ident("r"), eof()]
    );
}

#[test]
fn a_statement_with_everything() {
    assert_eq!(
        kinds_and_texts("a=b=3;a+b;"),
        vec![
            ident("a"),
            reserved("="),
            ident("b"),
            reserved("="),
            num("3"),
            reserved(";"),
            ident("a"),
            reserved("+"),
            ident("b"),
            reserved(";"),
            eof()
        ]
    );
}

#[test]
fn a_lone_bang_is_a_lexical_error() {
    for source in ["!", "1 ! 2", "!!", "! =", "a!"] {
        let error = Tokenizer::tokenize(source).unwrap_err();
        assert_eq!(error.kind, ErrorKind::Lex);
        assert_eq!(error.message, "unexpected token `!`");
        assert_eq!(error.to_string(), "unexpected token `!`");
    }
}

#[test]
fn any_other_character_is_a_lexical_error() {
    for source in ["#", "1 $ 2", "a\tb", "1\n", "{", "}", "_", "é", "1.5", "a&b"] {
        let error = Tokenizer::tokenize(source).unwrap_err();
        assert_eq!(error.kind, ErrorKind::Lex);
        assert_eq!(error.message, "not implemented");
    }
}

#[test]
fn the_first_error_is_the_one_reported() {
    let error = Tokenizer::tokenize("1 # !").unwrap_err();
    assert_eq!(error.message, "not implemented");
    let error = Tokenizer::tokenize("1 ! #").unwrap_err();
    assert_eq!(error.message, "unexpected token `!`");
}

#[test]
fn the_cursor_passes_what_is_asked_for() {
    let mut tokenizer = Tokenizer::tokenize("(12+a)").unwrap();
    assert!(!tokenizer.at_eof());
    assert!(!tokenizer.consume(")"));
    assert!(!tokenizer.consume("12"));
    assert!(tokenizer.consume("("));
    assert_eq!(tokenizer.is_ident_token(), None);
    assert_eq!(tokenizer.expect_number(), Some("12".to_string()));
    assert_eq!(tokenizer.expect_number(), None);
    assert!(tokenizer.expect("+").is_ok());
    assert_eq!(tokenizer.expect_number(), None);
    assert_eq!(tokenizer.is_ident_token(), Some("a".to_string()));
    let error = tokenizer.expect(";").unwrap_err();
    assert_eq!(error.kind, ErrorKind::Parse);
    assert_eq!(error.message, "expected `;`, found `)`");
    assert!(tokenizer.consume(")"));
    assert!(tokenizer.at_eof());
    assert!(!tokenizer.consume(""));
    assert_eq!(tokenizer.expect_number(), None);
    let error = tokenizer.expect(")").unwrap_err();
    assert_eq!(error.message, "expected `)`, found ``");
    assert!(tokenizer.at_eof());
}

#[test]
fn a_variable_named_like_an_operator_text_is_not_consumed_as_one() {
    let mut tokenizer = Tokenizer::tokenize("a").unwrap();
    assert!(!tokenizer.consume("a"));
    assert_eq!(
        tokenizer.tokens()[0],
        Token { kind: TokenKind::TkIdent, string: "a".to_string() }
    );
}
