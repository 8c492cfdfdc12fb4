//! Decimal numerals: from digits to the number they stand for, and back.

use vstd::prelude::*;
use vstd::string::*;
use crate::lexer::{is_digit, is_number_text};

verus! {

/// The ten digits, in order.
pub open spec fn digits() -> Seq<char> {
    seq!['0', '1', '2', '3', '4', '5', '6', '7', '8', '9']
}

/// The digit that stands for `d`, for `d` below ten.
pub open spec fn digit_char(d: nat) -> char
    recommends
        d < 10,
{
    digits()[d as int]
}

/// The number that the digit `c` stands for.
pub open spec fn digit_value(c: char) -> nat
    recommends
        is_digit(c),
{
    (c as int - '0' as int) as nat
}

/// The number that the digits `text` stand for in base ten; leading zeros
/// count for nothing.
pub open spec fn number_value(text: Seq<char>) -> nat
    decreases text.len(),
{
    if text.len() == 0 {
        0
    } else {
        number_value(text.drop_last()) * 10 + digit_value(text.last())
    }
}

/// The numeral of `n` in base ten: no leading zero, and `0` for zero.
pub open spec fn decimal(n: nat) -> Seq<char>
    decreases n,
{
    if n < 10 {
        seq![digit_char(n)]
    } else {
        decimal(n / 10).push(digit_char(n % 10))
    }
}

/// How many zeros stand before the numeral in `text`: the zeros at its
/// front, but for the last character, which is a digit of the numeral even
/// where it is a zero.
pub open spec fn leading_zeros(text: Seq<char>) -> nat
    decreases text.len(),
{
    if text.len() > 1 && text[0] == '0' {
        1 + leading_zeros(text.drop_first())
    } else {
        0
    }
}

/// A zero in front of digits does not change their value.
pub proof fn lemma_zero_in_front(text: Seq<char>)
    ensures
        number_value(seq!['0'] + text) == number_value(text),
    decreases text.len(),
{
    let longer = seq!['0'] + text;
    if text.len() == 0 {
        assert(longer.drop_last() =~= Seq::<char>::empty());
        assert(number_value(longer.drop_last()) == 0);
    } else {
        lemma_zero_in_front(text.drop_last());
        assert(longer.drop_last() =~= seq!['0'] + text.drop_last());
        assert(longer.last() == text.last());
    }
}

/// Digits without a zero in front are the numeral of their value.
pub proof fn lemma_numeral(text: Seq<char>)
    requires
        is_number_text(text),
        text.len() == 1 || text[0] != '0',
    ensures
        decimal(number_value(text)) == text,
        text[0] != '0' ==> number_value(text) >= 1,
    decreases text.len(),
{
    let front = text.drop_last();
    let last = text.last();
    assert(is_digit(last));
    let d = digit_value(last);
    assert(d < 10 && digit_char(d) == last);
    if front.len() == 0 {
        assert(number_value(front) == 0);
        assert(decimal(d) =~= text);
    } else {
        assert(front[0] == text[0]);
        assert forall|i: int| 0 <= i < front.len() implies is_digit(#[trigger] front[i]) by {
            assert(front[i] == text[i]);
        }
        lemma_numeral(front);
        let high = number_value(front);
        let n = number_value(text);
        assert(n == high * 10 + d);
        assert(n / 10 == high && n % 10 == d);
        assert(decimal(n) =~= text);
    }
}

/// The numeral of the value of digits is the digits without their leading
/// zeros.
pub proof fn lemma_decimal_of_value(text: Seq<char>)
    requires
        is_number_text(text),
    ensures
        leading_zeros(text) < text.len(),
        decimal(number_value(text)) == text.skip(leading_zeros(text) as int),
    decreases text.len(),
{
    if text.len() > 1 && text[0] == '0' {
        let rest = text.drop_first();
        assert forall|i: int| 0 <= i < rest.len() implies is_digit(#[trigger] rest[i]) by {
            assert(rest[i] == text[i + 1]);
        }
        lemma_decimal_of_value(rest);
        lemma_zero_in_front(rest);
        assert(seq!['0'] + rest =~= text);
        assert(text.skip(leading_zeros(text) as int) =~= rest.skip(leading_zeros(rest) as int));
    } else {
        lemma_numeral(text);
        assert(text.skip(0) =~= text);
    }
}

/// The text of the digit for `d`.
pub fn digit_text(d: u8) -> (text: &'static str)
    requires
        d < 10,
    ensures
        text@ == seq![digit_char(d as nat)],
{
    let table = "0123456789";
    proof {
        reveal_strlit("0123456789");
    }
    let k: usize = d as usize;
    let text = table.substring_ascii(k, k + 1);
    assert(text@ =~= seq![digit_char(d as nat)]);
    text
}

/// Appends the numeral of `n` to `out`.
pub fn append_decimal(out: &mut String, n: u64)
    ensures
        final(out)@ == old(out)@ + decimal(n as nat),
    decreases n,
{
    if n >= 10 {
        append_decimal(out, n / 10);
    }
    let ghost before = out@;
    out.append(digit_text((n % 10) as u8));
    assert(out@ =~= old(out)@ + decimal(n as nat));
}

/// Appends to `out` the numeral of the number that the digits `text` stand
/// for: the digits without their leading zeros.
pub fn append_number(out: &mut String, text: &str)
    requires
        is_number_text(text@),
    ensures
        final(out)@ == old(out)@ + decimal(number_value(text@)),
{
    assert(text.is_ascii()) by {
        assert forall|i: int| 0 <= i < text@.len() implies '\0' <= #[trigger] text@[i]
            <= '\u{7f}' by {
            assert(is_digit(text@[i]));
        }
    }
    let n = text.unicode_len();
    let mut k: usize = 0;
    assert(text@.skip(0) =~= text@);
    while k + 1 < n && text.get_ascii(k) == 48u8
        invariant
            k < n,
            n == text@.len(),
            text.is_ascii(),
            leading_zeros(text@) == k + leading_zeros(text@.skip(k as int)),
        decreases n - k,
    {
        proof {
            let here = text@.skip(k as int);
            assert(here[0] == text@[k as int]);
            assert(here.drop_first() =~= text@.skip(k + 1));
        }
        k = k + 1;
    }
    proof {
        let here = text@.skip(k as int);
        assert(here[0] == text@[k as int]);
        assert(leading_zeros(here) == 0);
        lemma_decimal_of_value(text@);
        assert(text@.skip(k as int) =~= text@.subrange(k as int, n as int));
    }
    out.append(text.substring_ascii(k, n));
}

} // verus!
