//! Turning Frothy source text into [`Token`]s.

use vstd::prelude::*;
use vstd::string::*;
use vstd::utf8::{decode_utf8, encode_utf8_decode_utf8, encode_utf8_valid_utf8, is_ascii_chars_encode_utf8, valid_utf8};

verus! {

/// The classes of bytes that the lexer consumes in runs.
#[derive(Clone, Copy, PartialEq, Eq, Debug)]
pub enum ByteClass {
    /// ASCII whitespace, as `u8::is_ascii_whitespace` decides it.
    Whitespace,
    /// `0` to `9`.
    Digit,
    /// What may follow the first letter of an identifier.
    IdentTail,
    /// Anything but a line feed: the rest of a comment.
    NotNewline,
}

pub open spec fn is_space(b: u8) -> bool {
    b == 0x20 || b == 0x09 || b == 0x0a || b == 0x0c || b == 0x0d
}

pub open spec fn is_digit(b: u8) -> bool {
    0x30 <= b <= 0x39
}

pub open spec fn is_letter(b: u8) -> bool {
    (0x41 <= b <= 0x5a) || (0x61 <= b <= 0x7a)
}

pub open spec fn is_ident_tail(b: u8) -> bool {
    is_letter(b) || is_digit(b) || b == 0x5f
}

pub open spec fn in_class(c: ByteClass, b: u8) -> bool {
    match c {
        ByteClass::Whitespace => is_space(b),
        ByteClass::Digit => is_digit(b),
        ByteClass::IdentTail => is_ident_tail(b),
        ByteClass::NotNewline => b != 0x0a,
    }
}

/// Decides whether `b` belongs to class `c`.
pub fn class_contains(c: ByteClass, b: u8) -> (r: bool)
    ensures
        r == in_class(c, b),
{
    match c {
        ByteClass::Whitespace => b == 0x20 || b == 0x09 || b == 0x0a || b == 0x0c || b == 0x0d,
        ByteClass::Digit => 0x30 <= b && b <= 0x39,
        ByteClass::IdentTail => (0x41 <= b && b <= 0x5a) || (0x61 <= b && b <= 0x7a) || (0x30 <= b
            && b <= 0x39) || b == 0x5f,
        ByteClass::NotNewline => b != 0x0a,
    }
}

/// The end of the run of class `c` that starts at `pos`: the first position at or
/// after `pos` whose byte is not in the class, or the end of the input.
pub open spec fn run_end(s: Seq<u8>, pos: int, c: ByteClass) -> int
    decreases s.len() - pos,
{
    if 0 <= pos < s.len() && in_class(c, s[pos]) {
        run_end(s, pos + 1, c)
    } else {
        pos
    }
}

pub proof fn lemma_run_end(s: Seq<u8>, pos: int, c: ByteClass)
    requires
        0 <= pos <= s.len(),
    ensures
        pos <= run_end(s, pos, c) <= s.len(),
        forall|i: int| pos <= i < run_end(s, pos, c) ==> in_class(c, #[trigger] s[i]),
        run_end(s, pos, c) < s.len() ==> !in_class(c, s[run_end(s, pos, c)]),
    decreases s.len() - pos,
{
    if pos < s.len() && in_class(c, s[pos]) {
        lemma_run_end(s, pos + 1, c);
    }
}

/// Where the next token starts: whitespace and `#` comments skipped.
pub open spec fn skip_trivia(s: Seq<u8>, pos: int) -> int
    decreases s.len() - pos,
{
    let p = run_end(s, pos, ByteClass::Whitespace);
    if 0 <= p < s.len() && s[p] == 0x23 {
        let q = run_end(s, p + 1, ByteClass::NotNewline);
        if pos < q <= s.len() {
            skip_trivia(s, q)
        } else {
            q
        }
    } else {
        p
    }
}

/// The characters that the ASCII bytes `b` stand for.
pub open spec fn ascii_text(b: Seq<u8>) -> Seq<char> {
    Seq::new(b.len(), |i: int| b[i] as char)
}


/// Each byte of `b` is ASCII.
pub open spec fn all_ascii(b: Seq<u8>) -> bool {
    forall|i: int| 0 <= i < b.len() ==> #[trigger] b[i] < 0x80
}

/// ASCII bytes are valid UTF-8, one character per byte.
pub proof fn lemma_ascii_utf8(b: Seq<u8>)
    requires
        all_ascii(b),
    ensures
        valid_utf8(b),
        decode_utf8(b) == ascii_text(b),
{
    let c = ascii_text(b);
    assert forall|i: int| 0 <= i < c.len() implies '\0' <= #[trigger] c[i] <= '\u{7f}' by {
        assert(b[i] < 0x80);
    }
    is_ascii_chars_encode_utf8(c);
    assert(vstd::utf8::encode_utf8(c) =~= b) by {
        assert forall|i: int| 0 <= i < b.len() implies vstd::utf8::encode_utf8(c)[i] == b[i] by {
            assert(c[i] as u8 == vstd::utf8::encode_utf8(c)[i]);
        }
    }
    encode_utf8_valid_utf8(c);
    encode_utf8_decode_utf8(c);
}

/// Relies on `std::str::from_utf8`: it accepts a byte run exactly when the run is
/// valid UTF-8, and then yields the characters it encodes.
#[verifier::external_body]
fn utf8_text(b: &[u8]) -> (r: Option<String>)
    ensures
        r is Some <==> valid_utf8(b@),
        r is Some ==> r->0@ == decode_utf8(b@),
{
    std::str::from_utf8(b).ok().map(|s| s.to_string())
}

/// A literal number as written: an optional minus sign and a run of decimal digits.
#[derive(Clone, Debug, PartialEq)]
pub struct Numeral {
    pub negative: bool,
    pub digits: String,
}

impl View for Numeral {
    type V = (bool, Seq<char>);

    open spec fn view(&self) -> (bool, Seq<char>) {
        (self.negative, self.digits@)
    }
}

/// A Frothy token.
#[derive(Clone, Debug, PartialEq)]
pub enum Token {
    Ident(String),
    Number(Numeral),
    Plus,
    Minus,
    Multiply,
    Divide,
    Assign,
    OpenBrace,
    CloseBrace,
}

/// What a [`Token`] stands for, with its text as characters.
pub enum SpecToken {
    Ident(Seq<char>),
    Number((bool, Seq<char>)),
    Plus,
    Minus,
    Multiply,
    Divide,
    Assign,
    OpenBrace,
    CloseBrace,
}

impl View for Token {
    type V = SpecToken;

    open spec fn view(&self) -> SpecToken {
        match self {
            Token::Ident(s) => SpecToken::Ident(s@),
            Token::Number(n) => SpecToken::Number(n@),
            Token::Plus => SpecToken::Plus,
            Token::Minus => SpecToken::Minus,
            Token::Multiply => SpecToken::Multiply,
            Token::Divide => SpecToken::Divide,
            Token::Assign => SpecToken::Assign,
            Token::OpenBrace => SpecToken::OpenBrace,
            Token::CloseBrace => SpecToken::CloseBrace,
        }
    }
}

/// The text of a token as it is written.
pub open spec fn token_text(t: SpecToken) -> Seq<char> {
    match t {
        SpecToken::Ident(name) => name,
        SpecToken::Number((negative, digits)) => if negative {
            "-"@ + digits
        } else {
            digits
        },
        SpecToken::Plus => "+"@,
        SpecToken::Minus => "-"@,
        SpecToken::Multiply => "*"@,
        SpecToken::Divide => "/"@,
        SpecToken::Assign => "="@,
        SpecToken::OpenBrace => "{"@,
        SpecToken::CloseBrace => "}"@,
    }
}

impl Token {
    /// The text of this token as it is written.
    pub fn text(&self) -> (r: String)
        ensures
            r@ == token_text(self@),
    {
        match self {
            Token::Ident(name) => name.clone(),
            Token::Number(n) => {
                if n.negative {
                    let mut r = String::from_str("-");
                    r.append(n.digits.as_str());
                    r
                } else {
                    n.digits.clone()
                }
            },
            Token::Plus => String::from_str("+"),
            Token::Minus => String::from_str("-"),
            Token::Multiply => String::from_str("*"),
            Token::Divide => String::from_str("/"),
            Token::Assign => String::from_str("="),
            Token::OpenBrace => String::from_str("{"),
            Token::CloseBrace => String::from_str("}"),
        }
    }
}

/// Errors produced whilst reading tokens.
#[derive(Clone, Copy, Debug, PartialEq, Eq, Structural)]
pub enum TokenError {
    /// A byte that starts no token.
    Unexpected(u8),
    /// An identifier or number whose bytes are not UTF-8.
    InvalidUtf8,
}

/// The lower-case hexadecimal digit for `n`, as an ASCII byte.
pub open spec fn hex_digit(n: u8) -> u8 {
    if n < 10 {
        (0x30 + n) as u8
    } else {
        (0x57 + n) as u8
    }
}

/// The text of a token error, as ASCII bytes: an unexpected ASCII byte is shown as
/// itself, any other as `0x` and two hexadecimal digits.
pub open spec fn token_error_text(e: TokenError) -> Seq<u8> {
    match e {
        TokenError::Unexpected(b) => if b < 0x80 {
            seq![0x75u8, 0x6e, 0x65, 0x78, 0x70, 0x65, 0x63, 0x74, 0x65, 0x64, 0x20, 0x27, b, 0x27]
        } else {
            seq![
                0x75u8,
                0x6e,
                0x65,
                0x78,
                0x70,
                0x65,
                0x63,
                0x74,
                0x65,
                0x64,
                0x20,
                0x30,
                0x78,
                hex_digit(b / 16),
                hex_digit(b % 16),
            ]
        },
        TokenError::InvalidUtf8 => seq![
            0x69u8,
            0x6e,
            0x76,
            0x61,
            0x6c,
            0x69,
            0x64,
            0x20,
            0x75,
            0x74,
            0x66,
            0x2d,
            0x38,
        ],
    }
}

impl TokenError {
    /// A description of this error: `unexpected '$'`, `unexpected 0xc3`, or
    /// `invalid utf-8`.
    pub fn message(&self) -> (r: String)
        ensures
            r@ == ascii_text(token_error_text(*self)),
    {
        let mut bytes: Vec<u8> = match self {
            TokenError::Unexpected(_) => vec![0x75, 0x6e, 0x65, 0x78, 0x70, 0x65, 0x63, 0x74, 0x65, 0x64, 0x20],
            TokenError::InvalidUtf8 => vec![0x69, 0x6e, 0x76, 0x61, 0x6c, 0x69, 0x64, 0x20, 0x75, 0x74, 0x66, 0x2d, 0x38],
        };
        match self {
            TokenError::Unexpected(b) => {
                if *b < 0x80 {
                    bytes.push(0x27);
                    bytes.push(*b);
                    bytes.push(0x27);
                } else {
                    let hi = *b / 16;
                    let lo = *b % 16;
                    bytes.push(0x30);
                    bytes.push(0x78);
                    bytes.push(if hi < 10 { 0x30 + hi } else { 0x57 + hi });
                    bytes.push(if lo < 10 { 0x30 + lo } else { 0x57 + lo });
                }
            },
            TokenError::InvalidUtf8 => {},
        }
        proof {
            assert(bytes@ =~= token_error_text(*self));
            lemma_ascii_utf8(bytes@);
        }
        match utf8_text(bytes.as_slice()) {
            Some(text) => text,
            None => String::new(),
        }
    }
}

pub open spec fn token_result_view(r: Result<Token, TokenError>) -> Result<SpecToken, TokenError> {
    match r {
        Ok(t) => Ok(t@),
        Err(e) => Err(e),
    }
}

/// The number that starts at `p` (a digit, or a minus sign followed by a digit),
/// and where it ends.
pub open spec fn lex_number(s: Seq<u8>, p: int) -> (Result<SpecToken, TokenError>, int) {
    let negative = s[p] == 0x2d;
    let d = if negative {
        p + 1
    } else {
        p
    };
    let e = run_end(s, d, ByteClass::Digit);
    (Ok(SpecToken::Number((negative, ascii_text(s.subrange(d, e))))), e)
}

/// The token that starts at `p`, where it ends, or the error met there.
pub open spec fn lex_at(s: Seq<u8>, p: int) -> (Result<SpecToken, TokenError>, int) {
    let b = s[p];
    if b == 0x2d {
        if p + 1 < s.len() && is_digit(s[p + 1]) {
            lex_number(s, p)
        } else {
            (Ok(SpecToken::Minus), p + 1)
        }
    } else if is_digit(b) {
        lex_number(s, p)
    } else if is_letter(b) {
        let e = run_end(s, p + 1, ByteClass::IdentTail);
        (Ok(SpecToken::Ident(ascii_text(s.subrange(p, e)))), e)
    } else if b == 0x2b {
        (Ok(SpecToken::Plus), p + 1)
    } else if b == 0x2a {
        (Ok(SpecToken::Multiply), p + 1)
    } else if b == 0x2f {
        (Ok(SpecToken::Divide), p + 1)
    } else if b == 0x7b {
        (Ok(SpecToken::OpenBrace), p + 1)
    } else if b == 0x7d {
        (Ok(SpecToken::CloseBrace), p + 1)
    } else if b == 0x3d {
        (Ok(SpecToken::Assign), p + 1)
    } else {
        (Err(TokenError::Unexpected(b)), p + 1)
    }
}

/// The next token after position `pos` and the position after it; `None` once only
/// whitespace and comments are left.
pub open spec fn next_token(s: Seq<u8>, pos: int) -> Option<(Result<SpecToken, TokenError>, int)> {
    let p = skip_trivia(s, pos);
    if 0 <= p < s.len() {
        Some(lex_at(s, p))
    } else {
        None
    }
}

pub proof fn lemma_skip_trivia(s: Seq<u8>, pos: int)
    requires
        0 <= pos <= s.len(),
    ensures
        pos <= skip_trivia(s, pos) <= s.len(),
    decreases s.len() - pos,
{
    lemma_run_end(s, pos, ByteClass::Whitespace);
    let p = run_end(s, pos, ByteClass::Whitespace);
    if 0 <= p < s.len() && s[p] == 0x23 {
        lemma_run_end(s, p + 1, ByteClass::NotNewline);
        let q = run_end(s, p + 1, ByteClass::NotNewline);
        lemma_skip_trivia(s, q);
    }
}

/// A token ends after the position it was looked for at, and within the input.
pub proof fn lemma_next_token_advances(s: Seq<u8>, pos: int)
    requires
        0 <= pos <= s.len(),
    ensures
        next_token(s, pos) matches Some((_, e)) ==> pos < e <= s.len(),
{
    lemma_skip_trivia(s, pos);
    let p = skip_trivia(s, pos);
    if 0 <= p < s.len() {
        lemma_run_end(s, p, ByteClass::Digit);
        lemma_run_end(s, p + 1, ByteClass::Digit);
        lemma_run_end(s, p + 1, ByteClass::IdentTail);
    }
}


/// Reads the tokens of a Frothy program one at a time.
pub struct Tokens<'a> {
    input: &'a [u8],
    pos: usize,
}

impl<'a> Tokens<'a> {
    /// The bytes being read.
    pub closed spec fn bytes(&self) -> Seq<u8> {
        self.input@
    }

    /// How many bytes have been consumed.
    pub closed spec fn position(&self) -> int {
        self.pos as int
    }

    pub open spec fn wf(&self) -> bool {
        0 <= self.position() <= self.bytes().len()
    }

    /// Creates a reader positioned at the start of `input`.
    pub fn new(input: &'a str) -> (r: Tokens<'a>)
        ensures
            r.wf(),
            r.bytes() == vstd::utf8::encode_utf8(input@),
            r.position() == 0,
    {
        Tokens { input: input.as_bytes(), pos: 0 }
    }

    /// The byte at the current position, if any.
    fn peek(&self) -> (r: Option<u8>)
        requires
            self.wf(),
        ensures
            r == (if self.position() < self.bytes().len() {
                Some(self.bytes()[self.position()])
            } else {
                None::<u8>
            }),
    {
        if self.pos < self.input.len() {
            Some(self.input[self.pos])
        } else {
            None
        }
    }

    /// Steps back one byte, if not at the start, and returns the byte stepped onto.
    fn back(&mut self) -> (r: Option<u8>)
        requires
            old(self).wf(),
        ensures
            final(self).wf(),
            final(self).bytes() == old(self).bytes(),
            old(self).position() > 0 ==> final(self).position() == old(self).position() - 1
                && r == Some(old(self).bytes()[old(self).position() - 1]),
            old(self).position() == 0 ==> final(self).position() == 0 && r is None,
    {
        if self.pos > 0 {
            self.pos = self.pos - 1;
            Some(self.input[self.pos])
        } else {
            None
        }
    }

    /// Consumes and returns the byte at the current position, if any.
    fn next_byte(&mut self) -> (r: Option<u8>)
        requires
            old(self).wf(),
        ensures
            final(self).wf(),
            final(self).bytes() == old(self).bytes(),
            old(self).position() < old(self).bytes().len() ==> final(self).position()
                == old(self).position() + 1 && r == Some(old(self).bytes()[old(self).position()]),
            old(self).position() == old(self).bytes().len() ==> final(self).position()
                == old(self).position() && r is None,
    {
        if self.pos < self.input.len() {
            let byte = self.input[self.pos];
            self.pos = self.pos + 1;
            Some(byte)
        } else {
            None
        }
    }

    /// Consumes and returns the byte at the current position if it is of class `c`.
    fn next_byte_if(&mut self, c: ByteClass) -> (r: Option<u8>)
        requires
            old(self).wf(),
        ensures
            final(self).wf(),
            final(self).bytes() == old(self).bytes(),
            ({
                let s = old(self).bytes();
                let p = old(self).position();
                if p < s.len() && in_class(c, s[p]) {
                    final(self).position() == p + 1 && r == Some(s[p])
                } else {
                    final(self).position() == p && r is None
                }
            }),
    {
        match self.peek() {
            Some(b) => {
                if class_contains(c, b) {
                    self.next_byte();
                    Some(b)
                } else {
                    None
                }
            },
            None => None,
        }
    }

    /// Consumes the run of bytes of class `c` at the current position and returns it.
    fn next_byte_while(&mut self, c: ByteClass) -> (r: &'a [u8])
        requires
            old(self).wf(),
        ensures
            final(self).wf(),
            final(self).bytes() == old(self).bytes(),
            final(self).position() == run_end(old(self).bytes(), old(self).position(), c),
            r@ == old(self).bytes().subrange(old(self).position(), final(self).position()),
    {
        let start = self.pos;
        let ghost s = self.bytes();
        while self.next_byte_if(c).is_some()
            invariant
                self.wf(),
                self.bytes() == s,
                start <= self.position(),
                run_end(s, start as int, c) == run_end(s, self.position(), c),
            decreases s.len() - self.position(),
        {
        }
        let input: &'a [u8] = self.input;
        &input[start..self.pos]
    }

    /// Reads a number: an optional minus sign, then digits.
    fn next_number(&mut self) -> (r: Result<Numeral, TokenError>)
        requires
            old(self).wf(),
            old(self).position() < old(self).bytes().len(),
            is_digit(old(self).bytes()[old(self).position()]) || (old(self).bytes()[old(
                self,
            ).position()] == 0x2d && old(self).position() + 1 < old(self).bytes().len()
                && is_digit(old(self).bytes()[old(self).position() + 1])),
        ensures
            final(self).wf(),
            final(self).bytes() == old(self).bytes(),
            ({
                let (t, e) = lex_number(old(self).bytes(), old(self).position());
                &&& r matches Ok(n) && t == Ok::<SpecToken, TokenError>(SpecToken::Number(n@))
                &&& final(self).position() == e
            }),
    {
        let ghost s = self.bytes();
        let ghost p = self.position();
        let negative = match self.peek() {
            Some(b) => b == 0x2d,
            None => false,
        };
        if negative {
            self.next_byte();
        }
        let ghost d = self.position();
        let digits = self.next_byte_while(ByteClass::Digit);
        proof {
            lemma_run_end(s, d, ByteClass::Digit);
            lemma_ascii_utf8(digits@);
        }
        match utf8_text(digits) {
            Some(text) => Ok(Numeral { negative, digits: text }),
            None => Err(TokenError::InvalidUtf8),
        }
    }

    /// Reads an identifier: a letter, then letters, digits and underscores.
    fn next_ident(&mut self) -> (r: Result<String, TokenError>)
        requires
            old(self).wf(),
            old(self).position() < old(self).bytes().len(),
            is_letter(old(self).bytes()[old(self).position()]),
        ensures
            final(self).wf(),
            final(self).bytes() == old(self).bytes(),
            ({
                let s = old(self).bytes();
                let p = old(self).position();
                let e = run_end(s, p + 1, ByteClass::IdentTail);
                &&& r matches Ok(t) && t@ == ascii_text(s.subrange(p, e))
                &&& final(self).position() == e
            }),
    {
        let ghost s = self.bytes();
        let ghost p = self.position();
        let text = self.next_byte_while(ByteClass::IdentTail);
        proof {
            lemma_run_end(s, p, ByteClass::IdentTail);
            lemma_ascii_utf8(text@);
        }
        match utf8_text(text) {
            Some(t) => Ok(t),
            None => Err(TokenError::InvalidUtf8),
        }
    }

    /// Skips whitespace and comments.
    fn skip_trivia(&mut self)
        requires
            old(self).wf(),
        ensures
            final(self).wf(),
            final(self).bytes() == old(self).bytes(),
            final(self).position() == skip_trivia(old(self).bytes(), old(self).position()),
    {
        let ghost s = self.bytes();
        let ghost target = skip_trivia(s, self.position());
        loop
            invariant
                self.wf(),
                self.bytes() == s,
                s == old(self).bytes(),
                target == skip_trivia(old(self).bytes(), old(self).position()),
                skip_trivia(s, self.position()) == target,
            decreases s.len() - self.position(),
        {
            let ghost before = self.position();
            self.next_byte_while(ByteClass::Whitespace);
            proof {
                lemma_run_end(s, before, ByteClass::Whitespace);
            }
            match self.peek() {
                Some(b) => {
                    if b == 0x23 {
                        self.next_byte();
                        let ghost at = self.position();
                        self.next_byte_while(ByteClass::NotNewline);
                        proof {
                            lemma_run_end(s, at, ByteClass::NotNewline);
                        }
                    } else {
                        return;
                    }
                },
                None => {
                    return;
                },
            }
        }
    }

    /// The next token, left unconsumed: reading it again gives the same token.
    pub fn peek_token(&self) -> (r: Option<Result<Token, TokenError>>)
        requires
            self.wf(),
        ensures
            match next_token(self.bytes(), self.position()) {
                Some((t, _)) => r matches Some(x) && token_result_view(x) == t,
                None => r is None,
            },
    {
        let mut ahead = Tokens { input: self.input, pos: self.pos };
        ahead.next()
    }

    /// Reads the next token; `None` once only whitespace and comments are left.
    pub fn next(&mut self) -> (r: Option<Result<Token, TokenError>>)
        requires
            old(self).wf(),
        ensures
            final(self).wf(),
            final(self).bytes() == old(self).bytes(),
            match next_token(old(self).bytes(), old(self).position()) {
                Some((t, e)) => r matches Some(x) && token_result_view(x) == t
                    && final(self).position() == e,
                None => r is None && final(self).position() == old(self).bytes().len(),
            },
    {
        self.skip_trivia();
        let ghost s = self.bytes();
        let ghost p = self.position();
        let b = match self.next_byte() {
            Some(b) => b,
            None => {
                return None;
            },
        };
        if b == 0x2d {
            match self.peek() {
                Some(d) => {
                    if 0x30 <= d && d <= 0x39 {
                        self.back();
                        return match self.next_number() {
                            Ok(n) => Some(Ok(Token::Number(n))),
                            Err(e) => Some(Err(e)),
                        };
                    }
                },
                None => {},
            }
            Some(Ok(Token::Minus))
        } else if 0x30 <= b && b <= 0x39 {
            self.back();
            match self.next_number() {
                Ok(n) => Some(Ok(Token::Number(n))),
                Err(e) => Some(Err(e)),
            }
        } else if (0x61 <= b && b <= 0x7a) || (0x41 <= b && b <= 0x5a) {
            self.back();
            match self.next_ident() {
                Ok(t) => Some(Ok(Token::Ident(t))),
                Err(e) => Some(Err(e)),
            }
        } else if b == 0x2b {
            Some(Ok(Token::Plus))
        } else if b == 0x2a {
            Some(Ok(Token::Multiply))
        } else if b == 0x2f {
            Some(Ok(Token::Divide))
        } else if b == 0x7b {
            Some(Ok(Token::OpenBrace))
        } else if b == 0x7d {
            Some(Ok(Token::CloseBrace))
        } else if b == 0x3d {
            Some(Ok(Token::Assign))
        } else {
            Some(Err(TokenError::Unexpected(b)))
        }
    }
}

} // verus!
