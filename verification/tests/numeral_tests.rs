use tinyc::numeral::{append_decimal, append_number, digit_text};

fn decimal(n: u64) -> String {
    let mut out = String::new();
    append_decimal(&mut out, n);
    out
}

fn number(text: &str) -> String {
    let mut out = String::new();
    append_number(&mut out, text);
    out
}

#[test]
fn each_digit_has_its_text() {
    let texts: Vec<&str> = (0..10).map(digit_text).collect();
    assert_eq!(texts, ["0", "1", "2", "3", "4", "5", "6", "7", "8", "9"]);
}

#[test]
fn a_numeral_has_no_leading_zero() {
    assert_eq!(decimal(0), "0");
    assert_eq!(decimal(7), "7");
    assert_eq!(decimal(10), "10");
    assert_eq!(decimal(16), "16");
    assert_eq!(decimal(109), "109");
    assert_eq!(decimal(1_000_000), "1000000");
    assert_eq!(decimal(u64::MAX), "18446744073709551615");
}

#[test]
fn a_numeral_is_appended_to_what_is_there() {
    let mut out = String::from("  sub rsp, ");
    append_decimal(&mut out, 32);
    assert_eq!(out, "  sub rsp, 32");
    append_number(&mut out, "0048");
    assert_eq!(out, "  sub rsp, 3248");
}

#[test]
fn digits_lose_their_leading_zeros() {
    assert_eq!(number("0"), "0");
    assert_eq!(number("00"), "0");
    assert_eq!(number("0000000"), "0");
    assert_eq!(number("5"), "5");
    assert_eq!(number("05"), "5");
    assert_eq!(number("50"), "50");
    assert_eq!(number("0050"), "50");
    assert_eq!(number("100200"), "100200");
    assert_eq!(number("000100200"), "100200");
    assert_eq!(
        number("0340282366920938463463374607431768211456"),
        "340282366920938463463374607431768211456"
    );
}
