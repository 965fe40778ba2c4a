//! The lexer: a scanner over ASCII source text that hands out one token at a
//! time.

use vstd::prelude::*;
use vstd::string::*;
use vstd::utf8::is_ascii_chars;
use ascii::{AsciiString, FromAsciiError};
use crate::token::{Token, TokenView};

verus! {

/// `ascii::AsciiString`, a string of ASCII characters. Contracts see what it
/// holds through `ascii_codes`.
#[verifier::external_type_specification]
#[verifier::external_body]
pub struct ExAsciiString(AsciiString);

/// `ascii::FromAsciiError`, the error of `AsciiString::from_ascii`. Nothing
/// is said of what it holds.
#[verifier::external_type_specification]
#[verifier::external_body]
#[verifier::reject_recursive_types(O)]
pub struct ExFromAsciiError<O>(FromAsciiError<O>);

/// The character codes that an ASCII string holds, in order.
pub uninterp spec fn ascii_codes(s: AsciiString) -> Seq<u8>;

/// The code of each character of a text.
pub open spec fn chars_to_codes(chars: Seq<char>) -> Seq<u8> {
    Seq::new(chars.len(), |i: int| chars[i] as u8)
}

/// The character of each code.
pub open spec fn codes_to_chars(codes: Seq<u8>) -> Seq<char> {
    Seq::new(codes.len(), |i: int| codes[i] as char)
}

/// Calls `AsciiString::from_ascii` on a `String`. Not proved, taken from
/// the crate's source: the call succeeds exactly when every character of the
/// text is ASCII, and the string it makes then holds the code of each
/// character, in order.
#[verifier::external_body]
fn ascii_from_string(input: String) -> (r: Result<AsciiString, FromAsciiError<String>>)
    ensures
        r is Ok <==> is_ascii_chars(input@),
        r matches Ok(s) ==> ascii_codes(s) == chars_to_codes(input@),
{
    AsciiString::from_ascii(input)
}

/// Calls `as_bytes` on an `AsciiString`. Not proved, taken from the crate's
/// source: the bytes are the codes of the characters held, in order.
#[verifier::external_body]
fn ascii_bytes(s: &AsciiString) -> (r: &[u8])
    ensures
        r@ == ascii_codes(*s),
{
    s.as_bytes()
}

/// Indexes an `AsciiString` by the range from `from` to `to` and calls
/// `to_string` on the slice. Not proved, taken from the crate's source: the
/// result holds the characters from index `from` up to, not including, index
/// `to`. The range has to lie inside the string, or the indexing panics.
#[verifier::external_body]
fn ascii_substring(s: &AsciiString, from: usize, to: usize) -> (r: String)
    requires
        from <= to <= ascii_codes(*s).len(),
    ensures
        r@ == codes_to_chars(ascii_codes(*s).subrange(from as int, to as int)),
{
    s[from..to].to_string()
}

/// Letters and the underscore: what an identifier is made of.
pub open spec fn is_letter(c: u8) -> bool {
    (97 <= c <= 122) || (65 <= c <= 90) || c == 95
}

/// The decimal digits.
pub open spec fn is_digit(c: u8) -> bool {
    48 <= c <= 57
}

/// Space, tab, line feed and carriage return.
pub open spec fn is_space(c: u8) -> bool {
    c == 32 || c == 9 || c == 10 || c == 13
}

/// The code at `pos`, or 0 where the text has no such position.
pub open spec fn code_at(input: Seq<u8>, pos: int) -> u8 {
    if 0 <= pos < input.len() {
        input[pos]
    } else {
        0
    }
}

/// The first position at or after `pos` that does not hold white space.
pub open spec fn spaces_end(input: Seq<u8>, pos: int) -> int
    decreases input.len() - pos,
{
    if 0 <= pos < input.len() && is_space(input[pos]) {
        spaces_end(input, pos + 1)
    } else {
        pos
    }
}

/// The first position at or after `pos` that does not hold a letter.
pub open spec fn letters_end(input: Seq<u8>, pos: int) -> int
    decreases input.len() - pos,
{
    if 0 <= pos < input.len() && is_letter(input[pos]) {
        letters_end(input, pos + 1)
    } else {
        pos
    }
}

/// The first position at or after `pos` that does not hold a digit.
pub open spec fn digits_end(input: Seq<u8>, pos: int) -> int
    decreases input.len() - pos,
{
    if 0 <= pos < input.len() && is_digit(input[pos]) {
        digits_end(input, pos + 1)
    } else {
        pos
    }
}

/// The number that a run of decimal digits writes.
pub open spec fn digits_value(digits: Seq<u8>) -> nat
    decreases digits.len(),
{
    if digits.len() == 0 {
        0
    } else {
        digits_value(digits.drop_last()) * 10 + (digits.last() - 48) as nat
    }
}

/// The token for a run of letters: a keyword, or else an identifier.
pub open spec fn word_token(word: Seq<char>) -> TokenView {
    if word == "fn"@ {
        TokenView::FUNCTION
    } else if word == "let"@ {
        TokenView::LET
    } else if word == "true"@ {
        TokenView::TRUE
    } else if word == "false"@ {
        TokenView::FALSE
    } else if word == "if"@ {
        TokenView::IF
    } else if word == "else"@ {
        TokenView::ELSE
    } else if word == "return"@ {
        TokenView::RETURN
    } else {
        TokenView::IDENT(word)
    }
}

/// The token for a run of digits: the integer it writes, or `ILLEGAL` when
/// that number is greater than the largest `i64`.
pub open spec fn number_token(digits: Seq<u8>) -> TokenView {
    if digits_value(digits) <= i64::MAX {
        TokenView::INT(digits_value(digits) as i64)
    } else {
        TokenView::ILLEGAL
    }
}

/// A token together with the position at which scanning goes on.
pub struct Lexed {
    pub token: TokenView,
    pub next: int,
}

/// The token that starts at or after `pos`, white space skipped. A character
/// that starts no token, and the end of the text, give `EOF`.
pub open spec fn lex_at(input: Seq<u8>, pos: int) -> Lexed {
    let p = spaces_end(input, pos);
    let c = code_at(input, p);
    let follow = code_at(input, p + 1);
    if c == 61 {
        if follow == 61 {
            Lexed { token: TokenView::EQ, next: p + 2 }
        } else {
            Lexed { token: TokenView::ASSIGN, next: p + 1 }
        }
    } else if c == 59 {
        Lexed { token: TokenView::SEMICOLON, next: p + 1 }
    } else if c == 40 {
        Lexed { token: TokenView::LPAREN, next: p + 1 }
    } else if c == 41 {
        Lexed { token: TokenView::RPAREN, next: p + 1 }
    } else if c == 44 {
        Lexed { token: TokenView::COMMA, next: p + 1 }
    } else if c == 123 {
        Lexed { token: TokenView::LBRACE, next: p + 1 }
    } else if c == 125 {
        Lexed { token: TokenView::RBRACE, next: p + 1 }
    } else if c == 43 {
        Lexed { token: TokenView::PLUS, next: p + 1 }
    } else if c == 45 {
        Lexed { token: TokenView::MINUS, next: p + 1 }
    } else if c == 33 {
        if follow == 61 {
            Lexed { token: TokenView::NOTEQ, next: p + 2 }
        } else {
            Lexed { token: TokenView::BANG, next: p + 1 }
        }
    } else if c == 47 {
        Lexed { token: TokenView::SLASH, next: p + 1 }
    } else if c == 42 {
        Lexed { token: TokenView::ASTERISK, next: p + 1 }
    } else if c == 60 {
        Lexed { token: TokenView::LT, next: p + 1 }
    } else if c == 62 {
        Lexed { token: TokenView::GT, next: p + 1 }
    } else if is_letter(c) {
        let end = letters_end(input, p);
        Lexed { token: word_token(codes_to_chars(input.subrange(p, end))), next: end }
    } else if is_digit(c) {
        let end = digits_end(input, p);
        Lexed { token: number_token(input.subrange(p, end)), next: end }
    } else if p < input.len() {
        Lexed { token: TokenView::EOF, next: p + 1 }
    } else {
        Lexed { token: TokenView::EOF, next: p }
    }
}

/// Scanning never moves backwards, stays within the text, and moves forward
/// while there is text left.
pub proof fn lemma_lex_at_advances(input: Seq<u8>, pos: int)
    requires
        0 <= pos <= input.len(),
    ensures
        pos <= lex_at(input, pos).next <= input.len(),
        pos < input.len() ==> pos < lex_at(input, pos).next,
{
    lemma_spaces_end(input, pos);
    let p = spaces_end(input, pos);
    lemma_letters_end(input, p);
    lemma_digits_end(input, p);
}

proof fn lemma_spaces_end(input: Seq<u8>, pos: int)
    requires
        0 <= pos <= input.len(),
    ensures
        pos <= spaces_end(input, pos) <= input.len(),
        forall|i: int| pos <= i < spaces_end(input, pos) ==> is_space(input[i]),
        spaces_end(input, pos) < input.len() ==> !is_space(input[spaces_end(input, pos)]),
    decreases input.len() - pos,
{
    if pos < input.len() && is_space(input[pos]) {
        lemma_spaces_end(input, pos + 1);
    }
}

proof fn lemma_letters_end(input: Seq<u8>, pos: int)
    requires
        0 <= pos <= input.len(),
    ensures
        pos <= letters_end(input, pos) <= input.len(),
        pos < input.len() && is_letter(input[pos]) ==> pos < letters_end(input, pos),
    decreases input.len() - pos,
{
    if pos < input.len() && is_letter(input[pos]) {
        lemma_letters_end(input, pos + 1);
    }
}

proof fn lemma_digits_end(input: Seq<u8>, pos: int)
    requires
        0 <= pos <= input.len(),
    ensures
        pos <= digits_end(input, pos) <= input.len(),
        pos < input.len() && is_digit(input[pos]) ==> pos < digits_end(input, pos),
    decreases input.len() - pos,
{
    if pos < input.len() && is_digit(input[pos]) {
        lemma_digits_end(input, pos + 1);
    }
}

/// The tokens that scanning from `pos` gives until the text is used up.
pub open spec fn tokens_from(input: Seq<u8>, pos: int) -> Seq<TokenView>
    decreases input.len() - pos,
{
    if 0 <= pos < input.len() {
        let step = lex_at(input, pos);
        if pos < step.next <= input.len() {
            seq![step.token] + tokens_from(input, step.next)
        } else {
            seq![step.token]
        }
    } else {
        Seq::empty()
    }
}

/// The first token of `tokens`, or `EOF` when there is none.
pub open spec fn first_or_eof(tokens: Seq<TokenView>) -> TokenView {
    if tokens.len() > 0 {
        tokens[0]
    } else {
        TokenView::EOF
    }
}

/// `tokens` without its first token; nothing where there is none.
pub open spec fn without_first(tokens: Seq<TokenView>) -> Seq<TokenView> {
    if tokens.len() > 0 {
        tokens.drop_first()
    } else {
        tokens
    }
}

/// One step of scanning takes the first of the tokens still to come; when
/// none is left it gives `EOF` and stays where it is.
pub proof fn lemma_upcoming_step(input: Seq<u8>, pos: int)
    requires
        0 <= pos <= input.len(),
    ensures
        lex_at(input, pos).token == first_or_eof(tokens_from(input, pos)),
        tokens_from(input, lex_at(input, pos).next) == without_first(tokens_from(input, pos)),
{
    lemma_lex_at_advances(input, pos);
    let step = lex_at(input, pos);
    if pos < input.len() {
        assert(without_first(tokens_from(input, pos)) =~= tokens_from(input, step.next));
    } else {
        lemma_spaces_end(input, pos);
        assert(without_first(tokens_from(input, pos)) =~= tokens_from(input, step.next));
    }
}

/// Why a text cannot be scanned.
#[derive(PartialEq, Eq, Debug, Clone, Copy)]
pub enum LexerError {
    /// The text holds a character outside ASCII.
    NotAscii,
}

/// The state of a lexer as contracts see it.
pub struct LexerView {
    /// The codes of the source text.
    pub input: Seq<u8>,
    /// The position of the character under the cursor.
    pub position: int,
}

impl LexerView {
    /// The tokens still to come, up to the end of the text.
    pub open spec fn upcoming(self) -> Seq<TokenView> {
        tokens_from(self.input, self.position)
    }
}

/// A scanner over an ASCII text.
#[derive(Debug)]
pub struct Lexer {
    input: AsciiString,
    position: usize,
    read_position: usize,
    ch: u8,
}

impl View for Lexer {
    type V = LexerView;

    closed spec fn view(&self) -> LexerView {
        LexerView { input: ascii_codes(self.input), position: self.position as int }
    }
}

impl Lexer {
    /// The cursor is inside the text or just behind it, and the character
    /// under it is the one held.
    pub closed spec fn wf(&self) -> bool {
        let input = ascii_codes(self.input);
        &&& self.position <= input.len()
        &&& self.ch == code_at(input, self.position as int)
        &&& self.read_position == if self.position < input.len() {
            self.position + 1
        } else {
            self.position as int
        }
    }

    /// A lexer at the start of `input`, or `NotAscii` when `input` holds a
    /// character outside ASCII.
    pub fn new(input: String) -> (r: Result<Lexer, LexerError>)
        ensures
            r is Ok <==> is_ascii_chars(input@),
            r matches Ok(lexer) ==> lexer.wf() && lexer@ == (LexerView {
                input: chars_to_codes(input@),
                position: 0,
            }),
            r matches Err(e) ==> e == LexerError::NotAscii,
    {
        match ascii_from_string(input) {
            Ok(text) => {
                let mut lexer = Lexer { input: text, position: 0, read_position: 0, ch: 0 };
                lexer.read_char();
                Ok(lexer)
            },
            Err(_) => Err(LexerError::NotAscii),
        }
    }

    fn read_char(&mut self)
        requires
            old(self).read_position <= ascii_codes(old(self).input).len(),
        ensures
            final(self).input == old(self).input,
            final(self).position == old(self).read_position,
            final(self).wf(),
    {
        let bytes = ascii_bytes(&self.input);
        let next = self.read_position;
        self.position = next;
        if next < bytes.len() {
            self.ch = bytes[next];
            self.read_position = next + 1;
        } else {
            self.ch = 0;
        }
    }

    fn peek_char(&self) -> (c: u8)
        requires
            self.wf(),
        ensures
            c == code_at(self@.input, self@.position + 1),
    {
        let bytes = ascii_bytes(&self.input);
        if self.position < bytes.len() && self.read_position < bytes.len() {
            bytes[self.read_position]
        } else {
            0
        }
    }

    fn char_is_letter(&self) -> (r: bool)
        ensures
            r == is_letter(self.ch),
    {
        let c = self.ch;
        (97 <= c && c <= 122) || (65 <= c && c <= 90) || c == 95
    }

    fn char_is_digit(&self) -> (r: bool)
        ensures
            r == is_digit(self.ch),
    {
        let c = self.ch;
        48 <= c && c <= 57
    }

    fn skip_whitespace(&mut self)
        requires
            old(self).wf(),
        ensures
            final(self).wf(),
            final(self)@.input == old(self)@.input,
            final(self)@.position == spaces_end(old(self)@.input, old(self)@.position),
    {
        while self.ch == 32 || self.ch == 9 || self.ch == 10 || self.ch == 13
            invariant
                self.wf(),
                self.input == old(self).input,
                spaces_end(self@.input, self@.position) == spaces_end(
                    old(self)@.input,
                    old(self)@.position,
                ),
            decreases ascii_codes(self.input).len() - self.position,
        {
            self.read_char();
        }
    }

    fn read_identifier(&mut self) -> (word: String)
        requires
            old(self).wf(),
        ensures
            final(self).wf(),
            final(self)@.input == old(self)@.input,
            final(self)@.position == letters_end(old(self)@.input, old(self)@.position),
            word@ == codes_to_chars(
                old(self)@.input.subrange(old(self)@.position, final(self)@.position),
            ),
    {
        let start = self.position;
        while self.char_is_letter()
            invariant
                self.wf(),
                self.input == old(self).input,
                start <= self.position,
                start == old(self).position,
                letters_end(self@.input, self@.position) == letters_end(
                    old(self)@.input,
                    old(self)@.position,
                ),
            decreases ascii_codes(self.input).len() - self.position,
        {
            self.read_char();
        }
        ascii_substring(&self.input, start, self.position)
    }

    fn read_number(&mut self) -> (tok: Token)
        requires
            old(self).wf(),
        ensures
            final(self).wf(),
            final(self)@.input == old(self)@.input,
            final(self)@.position == digits_end(old(self)@.input, old(self)@.position),
            tok@ == number_token(
                old(self)@.input.subrange(old(self)@.position, final(self)@.position),
            ),
    {
        let ghost input = ascii_codes(self.input);
        let ghost start = self.position as int;
        let mut value: u64 = 0;
        let mut fits = true;
        while self.char_is_digit()
            invariant
                self.wf(),
                self.input == old(self).input,
                input == ascii_codes(self.input),
                start == old(self).position,
                start <= self.position,
                digits_end(input, self.position as int) == digits_end(input, start),
                fits ==> value == digits_value(input.subrange(start, self.position as int)),
                fits ==> value <= i64::MAX,
                !fits ==> digits_value(input.subrange(start, self.position as int)) > i64::MAX,
            decreases input.len() - self.position,
        {
            let digit: u64 = (self.ch - 48) as u64;
            proof {
                let longer = input.subrange(start, self.position + 1);
                assert(longer.drop_last() =~= input.subrange(start, self.position as int));
                assert(longer.last() == self.ch);
            }
            if fits {
                let wide: u128 = (value as u128) * 10 + (digit as u128);
                if wide <= 0x7fff_ffff_ffff_ffffu128 {
                    value = wide as u64;
                } else {
                    fits = false;
                }
            }
            self.read_char();
        }
        if fits {
            Token::INT(value as i64)
        } else {
            Token::ILLEGAL
        }
    }

    /// The next token of the text. At the end of the text, and for a
    /// character that starts no token, this is `EOF`.
    pub fn next_token(&mut self) -> (tok: Token)
        requires
            old(self).wf(),
        ensures
            final(self).wf(),
            final(self)@.input == old(self)@.input,
            tok@ == lex_at(old(self)@.input, old(self)@.position).token,
            final(self)@.position == lex_at(old(self)@.input, old(self)@.position).next,
            tok@ == first_or_eof(old(self)@.upcoming()),
            final(self)@.upcoming() == without_first(old(self)@.upcoming()),
    {
        proof {
            lemma_upcoming_step(self@.input, self@.position);
        }
        self.skip_whitespace();
        let c = self.ch;
        let tok = if c == 61 {
            if self.peek_char() == 61 {
                self.read_char();
                Token::EQ
            } else {
                Token::ASSIGN
            }
        } else if c == 59 {
            Token::SEMICOLON
        } else if c == 40 {
            Token::LPAREN
        } else if c == 41 {
            Token::RPAREN
        } else if c == 44 {
            Token::COMMA
        } else if c == 123 {
            Token::LBRACE
        } else if c == 125 {
            Token::RBRACE
        } else if c == 43 {
            Token::PLUS
        } else if c == 45 {
            Token::MINUS
        } else if c == 33 {
            if self.peek_char() == 61 {
                self.read_char();
                Token::NOTEQ
            } else {
                Token::BANG
            }
        } else if c == 47 {
            Token::SLASH
        } else if c == 42 {
            Token::ASTERISK
        } else if c == 60 {
            Token::LT
        } else if c == 62 {
            Token::GT
        } else if self.char_is_letter() {
            let word = self.read_identifier();
            return keyword_or_identifier(word);
        } else if self.char_is_digit() {
            return self.read_number();
        } else {
            Token::EOF
        };
        self.read_char();
        tok
    }
}

fn is_word(word: &String, literal: &str) -> (r: bool)
    ensures
        r == (word@ == literal@),
{
    let other = String::from_str(literal);
    *word == other
}

fn keyword_or_identifier(word: String) -> (tok: Token)
    ensures
        tok@ == word_token(word@),
{
    if is_word(&word, "fn") {
        Token::FUNCTION
    } else if is_word(&word, "let") {
        Token::LET
    } else if is_word(&word, "true") {
        Token::TRUE
    } else if is_word(&word, "false") {
        Token::FALSE
    } else if is_word(&word, "if") {
        Token::IF
    } else if is_word(&word, "else") {
        Token::ELSE
    } else if is_word(&word, "return") {
        Token::RETURN
    } else {
        Token::IDENT(word)
    }
}

} // verus!
