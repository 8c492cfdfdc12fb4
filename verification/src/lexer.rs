//! The lexer: a single left-to-right scan from characters to tokens.
//!
//! The scan is described twice. [`spec_tokenize`] says, as a function on
//! sequences of characters, which tokens a source text consists of;
//! [`Tokenizer::tokenize`] computes them and is proved to agree with it.

use vstd::prelude::*;
use vstd::string::*;
use crate::error::{CompileError, ErrorKind};

verus! {

/// The classes of tokens.
#[derive(Debug, Clone, Copy, PartialEq, Eq, Structural)]
pub enum TokenKind {
    /// An operator, a bracket, `;` or the word `return`.
    TkReserved,
    /// A run of decimal digits.
    TkNum,
    /// The name of a variable.
    TkIdent,
    /// The end of the source text.
    TkEOF,
}

/// A token: its class and its text (empty for the end of input).
#[derive(Debug, Clone, PartialEq, Eq)]
pub struct Token {
    pub kind: TokenKind,
    pub string: String,
}

/// What a token is in contracts: its class and the characters of its text.
pub struct Lexeme {
    pub kind: TokenKind,
    pub text: Seq<char>,
}

impl View for Token {
    type V = Lexeme;

    open spec fn view(&self) -> Lexeme {
        Lexeme { kind: self.kind, text: self.string@ }
    }
}

/// The lexemes of a sequence of tokens, one for one.
pub open spec fn lexemes_of(tokens: Seq<Token>) -> Seq<Lexeme> {
    tokens.map_values(|t: Token| t@)
}

/// The two ways in which a source text can fail to be a sequence of tokens.
pub enum LexFault {
    /// A `!` that is not followed by `=`.
    LoneBang,
    /// A character that starts no token.
    UnknownChar,
}

/// Whether `c` is a decimal digit.
pub open spec fn is_digit(c: char) -> bool {
    '0' <= c && c <= '9'
}

/// Whether `c` can name a variable: an ASCII letter.
pub open spec fn is_letter(c: char) -> bool {
    ('a' <= c && c <= 'z') || ('A' <= c && c <= 'Z')
}

/// Whether `c` alone is always a whole token.
pub open spec fn is_single(c: char) -> bool {
    c == '+' || c == '-' || c == '*' || c == '/' || c == '(' || c == ')' || c == ';'
}

/// Whether `c` is a token by itself and, when `=` follows, the start of a
/// two-character token.
pub open spec fn is_extensible(c: char) -> bool {
    c == '=' || c == '<' || c == '>'
}

/// Whether `c` occurs in an operator.
pub open spec fn is_operator_char(c: char) -> bool {
    is_single(c) || is_extensible(c) || c == '!'
}

/// The characters of the word `return`.
pub open spec fn return_word() -> Seq<char> {
    seq!['r', 'e', 't', 'u', 'r', 'n']
}

/// Whether `word` stands in `s` at `pos`.
pub open spec fn stands_at(s: Seq<char>, pos: int, word: Seq<char>) -> bool {
    0 <= pos && pos + word.len() <= s.len() && s.subrange(pos, pos + word.len()) == word
}

/// Where the run of digits and spaces that holds `pos` ends: the first
/// position from `pos` on whose character is neither a digit nor a space.
pub open spec fn run_end(s: Seq<char>, pos: int) -> int
    decreases s.len() - pos,
{
    if 0 <= pos < s.len() && (is_digit(s[pos]) || s[pos] == ' ') {
        run_end(s, pos + 1)
    } else {
        pos
    }
}

/// The digits among `s`, in order.
pub open spec fn digits_of(s: Seq<char>) -> Seq<char> {
    s.filter(|c: char| is_digit(c))
}

/// A reserved token with the given text.
pub open spec fn reserved(text: Seq<char>) -> Lexeme {
    Lexeme { kind: TokenKind::TkReserved, text }
}

/// The token that ends every token sequence.
pub open spec fn eof_lexeme() -> Lexeme {
    Lexeme { kind: TokenKind::TkEOF, text: Seq::empty() }
}

/// What the scan finds at one position.
pub enum Scan {
    /// A space: nothing is produced.
    Space,
    /// A token, and the position behind it.
    Found { lexeme: Lexeme, next: int },
    /// No token starts here.
    Fault(LexFault),
}

/// What stands at `pos` in `s`. The longest token wins: `==` over `=`, and
/// `return` over the variable `r`. A number takes the whole run of digits and
/// spaces that it starts, and keeps the digits.
pub open spec fn scan_at(s: Seq<char>, pos: int) -> Scan
    recommends
        0 <= pos < s.len(),
{
    let c = s[pos];
    let eq_follows = pos + 1 < s.len() && s[pos + 1] == '=';
    if c == ' ' {
        Scan::Space
    } else if is_single(c) {
        Scan::Found { lexeme: reserved(seq![c]), next: pos + 1 }
    } else if is_extensible(c) {
        if eq_follows {
            Scan::Found { lexeme: reserved(seq![c, '=']), next: pos + 2 }
        } else {
            Scan::Found { lexeme: reserved(seq![c]), next: pos + 1 }
        }
    } else if c == '!' {
        if eq_follows {
            Scan::Found { lexeme: reserved(seq!['!', '=']), next: pos + 2 }
        } else {
            Scan::Fault(LexFault::LoneBang)
        }
    } else if is_digit(c) {
        Scan::Found {
            lexeme: Lexeme {
                kind: TokenKind::TkNum,
                text: digits_of(s.subrange(pos, run_end(s, pos))),
            },
            next: run_end(s, pos),
        }
    } else if stands_at(s, pos, return_word()) {
        Scan::Found { lexeme: reserved(return_word()), next: pos + 6 }
    } else if is_letter(c) {
        Scan::Found { lexeme: Lexeme { kind: TokenKind::TkIdent, text: seq![c] }, next: pos + 1 }
    } else {
        Scan::Fault(LexFault::UnknownChar)
    }
}

/// A run ends at or behind the position it is asked from, and inside `s`.
pub proof fn lemma_run_end_bounds(s: Seq<char>, pos: int)
    requires
        0 <= pos <= s.len(),
    ensures
        pos <= run_end(s, pos) <= s.len(),
        pos < s.len() && is_digit(s[pos]) ==> pos < run_end(s, pos),
    decreases s.len() - pos,
{
    if pos < s.len() && (is_digit(s[pos]) || s[pos] == ' ') {
        lemma_run_end_bounds(s, pos + 1);
    }
}

/// Every token is at least one character long.
pub proof fn lemma_scan_advances(s: Seq<char>, pos: int)
    requires
        0 <= pos < s.len(),
    ensures
        scan_at(s, pos) matches Scan::Found { next, .. } ==> pos < next <= s.len(),
{
    lemma_run_end_bounds(s, pos);
}

/// The tokens of `s` from `pos` on, the end of input included, or the first
/// fault from there on.
pub open spec fn lex_from(s: Seq<char>, pos: int) -> Result<Seq<Lexeme>, LexFault>
    decreases s.len() - pos,
{
    if pos < 0 || pos >= s.len() {
        Ok(seq![eof_lexeme()])
    } else {
        match scan_at(s, pos) {
            Scan::Space => lex_from(s, pos + 1),
            Scan::Found { lexeme, next } => {
                proof {
                    lemma_scan_advances(s, pos);
                }
                match lex_from(s, next) {
                    Ok(rest) => Ok(seq![lexeme] + rest),
                    Err(fault) => Err(fault),
                }
            },
            Scan::Fault(fault) => Err(fault),
        }
    }
}

/// The tokens that the source text `s` consists of, or the reason why it
/// consists of none.
pub open spec fn spec_tokenize(s: Seq<char>) -> Result<Seq<Lexeme>, LexFault> {
    lex_from(s, 0)
}

/// The message that reports a fault.
pub open spec fn fault_message(fault: LexFault) -> Seq<char> {
    match fault {
        LexFault::LoneBang => "unexpected token `!`"@,
        LexFault::UnknownChar => "not implemented"@,
    }
}

/// `done`, then what `rest` holds; the fault of `rest`, where it holds one.
pub open spec fn join(done: Seq<Lexeme>, rest: Result<Seq<Lexeme>, LexFault>) -> Result<
    Seq<Lexeme>,
    LexFault,
> {
    match rest {
        Ok(more) => Ok(done + more),
        Err(fault) => Err(fault),
    }
}

/// Whether `tokens` is a whole token sequence: the end of input stands at its
/// end and nowhere else.
pub open spec fn complete(tokens: Seq<Lexeme>) -> bool {
    &&& tokens.len() > 0
    &&& forall|i: int|
        0 <= i < tokens.len() ==> (#[trigger] tokens[i].kind == TokenKind::TkEOF <==> i
            == tokens.len() - 1)
}

/// Whether `text` is the text of a number: decimal digits, at least one.
pub open spec fn is_number_text(text: Seq<char>) -> bool {
    &&& text.len() > 0
    &&& forall|i: int| 0 <= i < text.len() ==> is_digit(#[trigger] text[i])
}

/// Whether `text` is the name of a variable: one letter.
pub open spec fn is_name(text: Seq<char>) -> bool {
    text.len() == 1 && is_letter(text[0])
}

/// Whether the text of `lexeme` fits its class, for the classes that the
/// parser reads the text of.
pub open spec fn proper_lexeme(lexeme: Lexeme) -> bool {
    &&& lexeme.kind == TokenKind::TkNum ==> is_number_text(lexeme.text)
    &&& lexeme.kind == TokenKind::TkIdent ==> is_name(lexeme.text)
}

/// Whether every number among `tokens` is made of digits and every name of
/// one letter.
pub open spec fn proper(tokens: Seq<Lexeme>) -> bool {
    forall|i: int| 0 <= i < tokens.len() ==> proper_lexeme(#[trigger] tokens[i])
}

/// The digits of a run that starts with a digit are a number.
pub proof fn lemma_run_is_number(s: Seq<char>, pos: int)
    requires
        0 <= pos < s.len(),
        is_digit(s[pos]),
    ensures
        is_number_text(digits_of(s.subrange(pos, run_end(s, pos)))),
{
    lemma_run_end_bounds(s, pos);
    let run = s.subrange(pos, run_end(s, pos));
    let digits = digits_of(run);
    let pred = |c: char| is_digit(c);
    assert(run[0] == s[pos]);
    run.lemma_filter_contains(pred, 0);
    assert forall|i: int| 0 <= i < digits.len() implies is_digit(#[trigger] digits[i]) by {
        run.lemma_filter_pred(pred, i);
    }
}

/// Whatever the scan produces is proper.
pub proof fn lemma_lex_proper(s: Seq<char>, pos: int)
    ensures
        lex_from(s, pos) matches Ok(tokens) ==> proper(tokens),
    decreases s.len() - pos,
{
    if 0 <= pos < s.len() {
        match scan_at(s, pos) {
            Scan::Space => {
                lemma_lex_proper(s, pos + 1);
            },
            Scan::Found { lexeme, next } => {
                lemma_scan_advances(s, pos);
                lemma_lex_proper(s, next);
                if is_digit(s[pos]) {
                    lemma_run_is_number(s, pos);
                }
                if let Ok(rest) = lex_from(s, next) {
                    let tokens = seq![lexeme] + rest;
                    assert forall|i: int| 0 <= i < tokens.len() implies proper_lexeme(
                        #[trigger] tokens[i],
                    ) by {
                        if i > 0 {
                            assert(tokens[i] == rest[i - 1]);
                        }
                    }
                }
            },
            Scan::Fault(_) => {},
        }
    }
}

/// Whether `tokens` is what the lexer hands out: a whole sequence in which
/// every text fits its class.
pub open spec fn complete_tokens(tokens: Seq<Lexeme>) -> bool {
    complete(tokens) && proper(tokens)
}

/// Whatever the scan produces is a whole token sequence.
pub proof fn lemma_lex_complete(s: Seq<char>, pos: int)
    ensures
        lex_from(s, pos) matches Ok(tokens) ==> complete(tokens),
    decreases s.len() - pos,
{
    if 0 <= pos < s.len() {
        match scan_at(s, pos) {
            Scan::Space => {
                lemma_lex_complete(s, pos + 1);
            },
            Scan::Found { lexeme, next } => {
                lemma_scan_advances(s, pos);
                lemma_lex_complete(s, next);
                if let Ok(rest) = lex_from(s, next) {
                    let tokens = seq![lexeme] + rest;
                    assert forall|i: int| 0 <= i < tokens.len() implies (#[trigger] tokens[i].kind
                        == TokenKind::TkEOF <==> i == tokens.len() - 1) by {
                        if i > 0 {
                            assert(tokens[i] == rest[i - 1]);
                        }
                    }
                }
            },
            Scan::Fault(_) => {},
        }
    }
}

/// The text of a character that occurs in an operator.
fn operator_text(c: char) -> (text: &'static str)
    requires
        is_operator_char(c),
    ensures
        text@ == seq![c],
{
    let text = match c {
        '+' => "+",
        '-' => "-",
        '*' => "*",
        '/' => "/",
        '(' => "(",
        ')' => ")",
        ';' => ";",
        '=' => "=",
        '<' => "<",
        '>' => ">",
        _ => "!",
    };
    proof {
        reveal_strlit("+");
        reveal_strlit("-");
        reveal_strlit("*");
        reveal_strlit("/");
        reveal_strlit("(");
        reveal_strlit(")");
        reveal_strlit(";");
        reveal_strlit("=");
        reveal_strlit("<");
        reveal_strlit(">");
        reveal_strlit("!");
    }
    assert(text@ =~= seq![c]);
    text
}

/// The text of a decimal digit.
fn digit_text(c: char) -> (text: &'static str)
    requires
        is_digit(c),
    ensures
        text@ == seq![c],
{
    let text = crate::numeral::digit_text(c as u8 - '0' as u8);
    assert(text@ =~= seq![c]);
    text
}

/// The text of an ASCII letter.
fn letter_text(c: char) -> (text: &'static str)
    requires
        is_letter(c),
    ensures
        text@ == seq![c],
{
    let table = "abcdefghijklmnopqrstuvwxyzABCDEFGHIJKLMNOPQRSTUVWXYZ";
    proof {
        reveal_strlit("abcdefghijklmnopqrstuvwxyzABCDEFGHIJKLMNOPQRSTUVWXYZ");
    }
    let k: usize = if c >= 'a' {
        (c as u8 - 'a' as u8) as usize
    } else {
        (c as u8 - 'A' as u8) as usize + 26
    };
    let text = table.substring_ascii(k, k + 1);
    assert(text@ =~= seq![c]);
    text
}

/// The characters of `source`, in order.
fn source_chars(source: &str) -> (chars: Vec<char>)
    ensures
        chars@ == source@,
{
    let mut chars: Vec<char> = Vec::new();
    let it = source.chars();
    for c in iter: it
        invariant
            iter.seq() == source@,
            chars@ == iter.history(),
    {
        chars.push(c);
    }
    assert(chars@ =~= source@);
    chars
}

/// A source text under the scan, the tokens found in it so far, and the
/// parser's place among them.
///
/// The scan only moves forward through the source, and the parser only moves
/// forward through the tokens.
#[derive(Debug, Clone)]
pub struct Tokenizer {
    chars: Vec<char>,
    next: usize,
    tokens: Vec<Token>,
    head: usize,
}

impl Tokenizer {
    /// The source text.
    pub closed spec fn source(&self) -> Seq<char> {
        self.chars@
    }

    /// How many characters of the source the scan has passed.
    pub closed spec fn scanned(&self) -> int {
        self.next as int
    }

    /// The tokens found so far.
    pub closed spec fn lexemes(&self) -> Seq<Lexeme> {
        lexemes_of(self.tokens@)
    }

    /// How many tokens the parser has passed.
    pub closed spec fn cursor(&self) -> int {
        self.head as int
    }

    /// The scan is within the source.
    pub open spec fn inv(&self) -> bool {
        0 <= self.scanned() <= self.source().len()
    }

    /// The tokens are a whole sequence, each with a text that fits its class,
    /// and the parser stands on one of them.
    pub open spec fn wf(&self) -> bool {
        &&& complete_tokens(self.lexemes())
        &&& 0 <= self.cursor() < self.lexemes().len()
    }

    /// The token on which the parser stands.
    pub open spec fn current(&self) -> Lexeme
        recommends
            self.wf(),
    {
        self.lexemes()[self.cursor()]
    }

    /// A scan of `source` that has not begun.
    pub fn new_empty(source: &str) -> (tokenizer: Tokenizer)
        ensures
            tokenizer.inv(),
            tokenizer.source() == source@,
            tokenizer.scanned() == 0,
            tokenizer.lexemes() == Seq::<Lexeme>::empty(),
            tokenizer.cursor() == 0,
    {
        let tokenizer = Tokenizer {
            chars: source_chars(source),
            next: 0,
            tokens: Vec::new(),
            head: 0,
        };
        assert(tokenizer.lexemes() =~= Seq::<Lexeme>::empty());
        tokenizer
    }

    /// Scans the run of digits and spaces at the scan's position and returns
    /// its digits. The result is never `None`.
    pub fn parse_int(&mut self) -> (text: Option<String>)
        requires
            old(self).inv(),
        ensures
            final(self).inv(),
            final(self).source() == old(self).source(),
            final(self).lexemes() == old(self).lexemes(),
            final(self).cursor() == old(self).cursor(),
            final(self).scanned() == run_end(old(self).source(), old(self).scanned()),
            text matches Some(t) && t@ == digits_of(
                old(self).source().subrange(old(self).scanned(), final(self).scanned()),
            ),
    {
        let ghost start = self.next as int;
        let mut integer = String::new();
        proof {
            reveal(Seq::filter);
            assert(self.chars@.subrange(start, start) =~= Seq::<char>::empty());
        }
        while self.next < self.chars.len() && (is_digit_char(self.chars[self.next])
            || self.chars[self.next] == ' ')
            invariant
                0 <= start <= self.next <= self.chars.len(),
                self.chars == old(self).chars,
                self.tokens == old(self).tokens,
                self.head == old(self).head,
                run_end(self.chars@, self.next as int) == run_end(self.chars@, start),
                integer@ == digits_of(self.chars@.subrange(start, self.next as int)),
            decreases self.chars.len() - self.next,
        {
            let c = self.chars[self.next];
            proof {
                let before = self.chars@.subrange(start, self.next as int);
                let after = self.chars@.subrange(start, self.next as int + 1);
                assert(after.drop_last() =~= before);
                assert(after.last() == c);
                reveal(Seq::filter);
            }
            if is_digit_char(c) {
                integer.append(digit_text(c));
            }
            self.next = self.next + 1;
        }
        Some(integer)
    }

    /// Appends a token of class `kind`. The text of a number is scanned from
    /// the source, as [`Tokenizer::parse_int`] does it; any other token has
    /// the text `string`.
    fn new_token(&mut self, kind: TokenKind, string: String)
        requires
            old(self).inv(),
        ensures
            final(self).inv(),
            final(self).source() == old(self).source(),
            final(self).cursor() == old(self).cursor(),
            kind == TokenKind::TkNum ==> {
                &&& final(self).scanned() == run_end(old(self).source(), old(self).scanned())
                &&& final(self).lexemes() == old(self).lexemes().push(
                    Lexeme {
                        kind,
                        text: digits_of(
                            old(self).source().subrange(
                                old(self).scanned(),
                                final(self).scanned(),
                            ),
                        ),
                    },
                )
            },
            kind != TokenKind::TkNum ==> {
                &&& final(self).scanned() == old(self).scanned()
                &&& final(self).lexemes() == old(self).lexemes().push(
                    Lexeme { kind, text: string@ },
                )
            },
    {
        let string = match kind {
            TokenKind::TkNum => {
                match self.parse_int() {
                    Some(digits) => digits,
                    None => string,
                }
            },
            _ => string,
        };
        let token = Token { kind, string };
        let ghost before = self.tokens@;
        self.tokens.push(token);
        assert(lexemes_of(self.tokens@) =~= lexemes_of(before).push(token@));
    }

    /// Where `expected` is the next character of the source, passes it and
    /// appends it to `string`.
    fn peek_and_append_char(&mut self, string: String, expected: char) -> (longer: String)
        requires
            old(self).inv(),
            is_operator_char(expected),
        ensures
            final(self).inv(),
            final(self).source() == old(self).source(),
            final(self).lexemes() == old(self).lexemes(),
            final(self).cursor() == old(self).cursor(),
            old(self).scanned() < old(self).source().len() && old(self).source()[old(
                self,
            ).scanned()] == expected ==> {
                &&& final(self).scanned() == old(self).scanned() + 1
                &&& longer@ == string@.push(expected)
            },
            !(old(self).scanned() < old(self).source().len() && old(self).source()[old(
                self,
            ).scanned()] == expected) ==> {
                &&& final(self).scanned() == old(self).scanned()
                &&& longer@ == string@
            },
    {
        let mut string = string;
        if self.next < self.chars.len() && self.chars[self.next] == expected {
            let ghost before = string@;
            string.append(operator_text(expected));
            assert(string@ =~= before.push(expected));
            self.next = self.next + 1;
        }
        string
    }

    /// Whether the word `return` stands at the scan's position.
    fn at_return(&self) -> (b: bool)
        requires
            self.inv(),
        ensures
            b == stands_at(self.source(), self.scanned(), return_word()),
    {
        let i = self.next;
        if self.chars.len() - i < 6 {
            return false;
        }
        let b = self.chars[i] == 'r' && self.chars[i + 1] == 'e' && self.chars[i + 2] == 't'
            && self.chars[i + 3] == 'u' && self.chars[i + 4] == 'r' && self.chars[i + 5] == 'n';
        proof {
            let found = self.chars@.subrange(i as int, i + 6);
            if b {
                assert(found =~= return_word());
            } else {
                assert(found[0] == self.chars@[i as int]);
                assert(found[1] == self.chars@[i + 1]);
                assert(found[2] == self.chars@[i + 2]);
                assert(found[3] == self.chars@[i + 3]);
                assert(found[4] == self.chars@[i + 4]);
                assert(found[5] == self.chars@[i + 5]);
            }
        }
        b
    }

    /// Splits `source` into tokens, the end of input last, and puts the
    /// parser on the first of them. Fails at the first character that starts
    /// no token; nothing of the tokens before it is handed out.
    pub fn tokenize(source: &str) -> (r: Result<Tokenizer, CompileError>)
        ensures
            match spec_tokenize(source@) {
                Ok(tokens) => r matches Ok(t) && t.lexemes() == tokens && t.cursor() == 0
                    && t.wf() && t.source() == source@,
                Err(fault) => r matches Err(e) && e.kind == ErrorKind::Lex && e.message@
                    == fault_message(fault),
            },
    {
        let mut tokenizer = Tokenizer::new_empty(source);
        loop
            invariant
                tokenizer.inv(),
                tokenizer.source() == source@,
                tokenizer.cursor() == 0,
                join(tokenizer.lexemes(), lex_from(source@, tokenizer.scanned())) == lex_from(
                    source@,
                    0,
                ),
            decreases tokenizer.source().len() - tokenizer.scanned(),
        {
            let ghost done = tokenizer.lexemes();
            let ghost pos = tokenizer.scanned();
            if tokenizer.next >= tokenizer.chars.len() {
                tokenizer.new_token(TokenKind::TkEOF, String::new());
                proof {
                    assert(tokenizer.lexemes() =~= done + seq![eof_lexeme()]);
                    lemma_lex_complete(source@, 0);
                    lemma_lex_proper(source@, 0);
                }
                return Ok(tokenizer);
            }
            let c = tokenizer.chars[tokenizer.next];
            proof {
                lemma_scan_advances(source@, pos);
            }
            if c == ' ' {
                tokenizer.next = tokenizer.next + 1;
            } else if c == '+' || c == '-' || c == '*' || c == '/' || c == '(' || c == ')' || c
                == ';' {
                tokenizer.next = tokenizer.next + 1;
                tokenizer.new_token(TokenKind::TkReserved, String::from_str(operator_text(c)));
            } else if c == '=' || c == '<' || c == '>' {
                tokenizer.next = tokenizer.next + 1;
                let string = String::from_str(operator_text(c));
                let string = tokenizer.peek_and_append_char(string, '=');
                assert(string@ =~= seq![c] || string@ =~= seq![c, '=']);
                tokenizer.new_token(TokenKind::TkReserved, string);
            } else if c == '!' {
                tokenizer.next = tokenizer.next + 1;
                let after_bang = tokenizer.next;
                let string = String::from_str(operator_text(c));
                let string = tokenizer.peek_and_append_char(string, '=');
                if tokenizer.next == after_bang {
                    return Err(CompileError::new(ErrorKind::Lex, "unexpected token `!`"));
                }
                assert(string@ =~= seq!['!', '=']);
                tokenizer.new_token(TokenKind::TkReserved, string);
            } else if is_digit_char(c) {
                tokenizer.new_token(TokenKind::TkNum, String::new());
            } else if tokenizer.at_return() {
                tokenizer.next = tokenizer.next + 6;
                proof {
                    reveal_strlit("return");
                    assert("return"@ =~= return_word());
                }
                tokenizer.new_token(TokenKind::TkReserved, String::from_str("return"));
            } else if is_letter_char(c) {
                tokenizer.next = tokenizer.next + 1;
                tokenizer.new_token(TokenKind::TkIdent, String::from_str(letter_text(c)));
            } else {
                return Err(CompileError::new(ErrorKind::Lex, "not implemented"));
            }
            proof {
                if c != ' ' {
                    let lexeme = scan_at(source@, pos)->lexeme;
                    assert(tokenizer.lexemes() == done.push(lexeme));
                    if let Ok(rest) = lex_from(source@, tokenizer.scanned()) {
                        assert(done.push(lexeme) + rest =~= done + (seq![lexeme] + rest));
                    }
                }
            }
        }
    }

    /// The token under the parser is the one that the token list holds
    /// there, and the end of input if and only if it is the last.
    proof fn lemma_current(&self)
        requires
            self.wf(),
        ensures
            self.head < self.tokens.len(),
            self.current() == self.tokens@[self.head as int]@,
            self.current().kind == TokenKind::TkEOF <==> self.head == self.tokens.len() - 1,
    {
        assert(self.lexemes()[self.head as int].kind == self.current().kind);
    }

    /// The tokens found so far, in order.
    pub fn tokens(&self) -> (tokens: &Vec<Token>)
        ensures
            lexemes_of(tokens@) == self.lexemes(),
    {
        &self.tokens
    }

    /// Whether the parser stands on the end of input.
    pub fn at_eof(&self) -> (b: bool)
        requires
            self.wf(),
        ensures
            b == (self.current().kind == TokenKind::TkEOF),
            b == (self.cursor() == self.lexemes().len() - 1),
    {
        matches!(self.tokens[self.head].kind, TokenKind::TkEOF)
    }

    /// Where the parser stands on the reserved token `op`, passes it.
    pub fn consume(&mut self, op: &str) -> (b: bool)
        requires
            old(self).wf(),
        ensures
            final(self).wf(),
            final(self).lexemes() == old(self).lexemes(),
            final(self).source() == old(self).source(),
            final(self).scanned() == old(self).scanned(),
            b == (old(self).current() == reserved(op@)),
            final(self).cursor() == old(self).cursor() + if b { 1int } else { 0int },
    {
        let wanted = String::from_str(op);
        let token = &self.tokens[self.head];
        let b = matches!(token.kind, TokenKind::TkReserved) && token.string == wanted;
        proof {
            self.lemma_current();
        }
        if b {
            self.head = self.head + 1;
        }
        b
    }

    /// Passes the reserved token `op`, or fails where the parser stands on
    /// anything else; the failure names `op` and what was found.
    pub fn expect(&mut self, op: &str) -> (r: Result<(), CompileError>)
        requires
            old(self).wf(),
        ensures
            final(self).wf(),
            final(self).lexemes() == old(self).lexemes(),
            final(self).source() == old(self).source(),
            final(self).scanned() == old(self).scanned(),
            r is Ok <==> old(self).current() == reserved(op@),
            r is Ok ==> final(self).cursor() == old(self).cursor() + 1,
            r matches Err(e) ==> {
                &&& final(self).cursor() == old(self).cursor()
                &&& e.kind == ErrorKind::Parse
                &&& e.message@ == expect_message(op@, old(self).current().text)
            },
    {
        if self.consume(op) {
            return Ok(());
        }
        let mut message = String::from_str("expected `");
        message.append(op);
        message.append("`, found `");
        message.append(self.tokens[self.head].string.as_str());
        message.append("`");
        Err(CompileError { kind: ErrorKind::Parse, message })
    }

    /// Where the parser stands on a number, passes it and returns its digits.
    pub fn expect_number(&mut self) -> (text: Option<String>)
        requires
            old(self).wf(),
        ensures
            final(self).wf(),
            final(self).lexemes() == old(self).lexemes(),
            final(self).source() == old(self).source(),
            final(self).scanned() == old(self).scanned(),
            text is Some <==> old(self).current().kind == TokenKind::TkNum,
            text matches Some(t) ==> t@ == old(self).current().text,
            final(self).cursor() == old(self).cursor() + if text is Some { 1int } else { 0int },
    {
        let token = &self.tokens[self.head];
        proof {
            self.lemma_current();
        }
        if matches!(token.kind, TokenKind::TkNum) {
            let text = token.string.clone();
            self.head = self.head + 1;
            Some(text)
        } else {
            None
        }
    }

    /// Where the parser stands on the name of a variable, passes it and
    /// returns the name.
    pub fn is_ident_token(&mut self) -> (name: Option<String>)
        requires
            old(self).wf(),
        ensures
            final(self).wf(),
            final(self).lexemes() == old(self).lexemes(),
            final(self).source() == old(self).source(),
            final(self).scanned() == old(self).scanned(),
            name is Some <==> old(self).current().kind == TokenKind::TkIdent,
            name matches Some(n) ==> n@ == old(self).current().text,
            final(self).cursor() == old(self).cursor() + if name is Some { 1int } else { 0int },
    {
        let token = &self.tokens[self.head];
        proof {
            self.lemma_current();
        }
        if matches!(token.kind, TokenKind::TkIdent) {
            let name = token.string.clone();
            self.head = self.head + 1;
            Some(name)
        } else {
            None
        }
    }
}

/// The message of a failed [`Tokenizer::expect`].
pub open spec fn expect_message(wanted: Seq<char>, found: Seq<char>) -> Seq<char> {
    "expected `"@ + wanted + "`, found `"@ + found + "`"@
}

/// Whether `c` is a decimal digit.
pub fn is_digit_char(c: char) -> (b: bool)
    ensures
        b == is_digit(c),
{
    '0' <= c && c <= '9'
}

/// Whether `c` is an ASCII letter.
pub fn is_letter_char(c: char) -> (b: bool)
    ensures
        b == is_letter(c),
{
    ('a' <= c && c <= 'z') || ('A' <= c && c <= 'Z')
}

} // verus!
