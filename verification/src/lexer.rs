//! The lexer: turns source text into tokens with their byte spans.
//!
//! Whitespace and `//` comments separate tokens. At each position the longest
//! token wins, and a keyword wins over an identifier of the same text. A
//! character that starts no token is an error; the error swallows the
//! tokens glued to it, up to the next whitespace or comment.
use vstd::prelude::*;

use crate::error::{Error, ErrorS, Span, SyntaxError};

verus! {

broadcast use vstd::seq_lib::group_seq_properties;

#[derive(Debug, PartialEq)]
pub enum Token {
    // Single-character tokens.
    LtParen,
    RtParen,
    LtBrace,
    RtBrace,
    Comma,
    Dot,
    Minus,
    Plus,
    Semicolon,
    Slash,
    Asterisk,
    // One or two character tokens.
    Bang,
    BangEqual,
    Equal,
    EqualEqual,
    Greater,
    GreaterEqual,
    Less,
    LessEqual,
    // Literals.
    Identifier(String),
    String(String),
    /// The text of a number literal.
    Number(String),
    // Keywords.
    And,
    Class,
    Else,
    False,
    For,
    Fun,
    If,
    Nil,
    Or,
    Print,
    Return,
    Super,
    This,
    True,
    Var,
    While,
    Error,
}

/// The kind of a token, without its text.
#[derive(Clone, Copy, Debug, PartialEq, Eq, Structural)]
pub enum TokenKind {
    LtParen,
    RtParen,
    LtBrace,
    RtBrace,
    Comma,
    Dot,
    Minus,
    Plus,
    Semicolon,
    Slash,
    Asterisk,
    Bang,
    BangEqual,
    Equal,
    EqualEqual,
    Greater,
    GreaterEqual,
    Less,
    LessEqual,
    Identifier,
    String,
    Number,
    And,
    Class,
    Else,
    False,
    For,
    Fun,
    If,
    Nil,
    Or,
    Print,
    Return,
    Super,
    This,
    True,
    Var,
    While,
    Error,
}

/// A token with the characters of its text.
pub enum TokenView {
    Plain(TokenKind),
    Identifier(Seq<char>),
    String(Seq<char>),
    Number(Seq<char>),
}

impl Token {
    pub open spec fn view_token(&self) -> TokenView {
        match self {
            Token::Identifier(s) => TokenView::Identifier(s@),
            Token::String(s) => TokenView::String(s@),
            Token::Number(s) => TokenView::Number(s@),
            Token::LtParen => TokenView::Plain(TokenKind::LtParen),
            Token::RtParen => TokenView::Plain(TokenKind::RtParen),
            Token::LtBrace => TokenView::Plain(TokenKind::LtBrace),
            Token::RtBrace => TokenView::Plain(TokenKind::RtBrace),
            Token::Comma => TokenView::Plain(TokenKind::Comma),
            Token::Dot => TokenView::Plain(TokenKind::Dot),
            Token::Minus => TokenView::Plain(TokenKind::Minus),
            Token::Plus => TokenView::Plain(TokenKind::Plus),
            Token::Semicolon => TokenView::Plain(TokenKind::Semicolon),
            Token::Slash => TokenView::Plain(TokenKind::Slash),
            Token::Asterisk => TokenView::Plain(TokenKind::Asterisk),
            Token::Bang => TokenView::Plain(TokenKind::Bang),
            Token::BangEqual => TokenView::Plain(TokenKind::BangEqual),
            Token::Equal => TokenView::Plain(TokenKind::Equal),
            Token::EqualEqual => TokenView::Plain(TokenKind::EqualEqual),
            Token::Greater => TokenView::Plain(TokenKind::Greater),
            Token::GreaterEqual => TokenView::Plain(TokenKind::GreaterEqual),
            Token::Less => TokenView::Plain(TokenKind::Less),
            Token::LessEqual => TokenView::Plain(TokenKind::LessEqual),
            Token::And => TokenView::Plain(TokenKind::And),
            Token::Class => TokenView::Plain(TokenKind::Class),
            Token::Else => TokenView::Plain(TokenKind::Else),
            Token::False => TokenView::Plain(TokenKind::False),
            Token::For => TokenView::Plain(TokenKind::For),
            Token::Fun => TokenView::Plain(TokenKind::Fun),
            Token::If => TokenView::Plain(TokenKind::If),
            Token::Nil => TokenView::Plain(TokenKind::Nil),
            Token::Or => TokenView::Plain(TokenKind::Or),
            Token::Print => TokenView::Plain(TokenKind::Print),
            Token::Return => TokenView::Plain(TokenKind::Return),
            Token::Super => TokenView::Plain(TokenKind::Super),
            Token::This => TokenView::Plain(TokenKind::This),
            Token::True => TokenView::Plain(TokenKind::True),
            Token::Var => TokenView::Plain(TokenKind::Var),
            Token::While => TokenView::Plain(TokenKind::While),
            Token::Error => TokenView::Plain(TokenKind::Error),
        }
    }
}

pub open spec fn is_space(c: char) -> bool {
    c == ' ' || c == '\r' || c == '\n' || c == '\t' || c == '\x0c'
}

pub open spec fn is_alpha(c: char) -> bool {
    ('a' <= c && c <= 'z') || ('A' <= c && c <= 'Z') || c == '_'
}

pub open spec fn is_digit(c: char) -> bool {
    '0' <= c && c <= '9'
}

pub open spec fn is_ident_char(c: char) -> bool {
    is_alpha(c) || is_digit(c)
}

/// The end of a line comment that goes on at `i`: the first newline at or
/// after `i`, or the end of the text.
pub open spec fn line_end(cs: Seq<char>, i: int) -> int
    decreases cs.len() - i,
{
    if i < 0 || i >= cs.len() || cs[i] == '\n' {
        i
    } else {
        line_end(cs, i + 1)
    }
}

pub proof fn lemma_line_end(cs: Seq<char>, i: int)
    requires
        0 <= i <= cs.len(),
    ensures
        i <= line_end(cs, i) <= cs.len(),
    decreases cs.len() - i,
{
    if i < cs.len() && cs[i] != '\n' {
        lemma_line_end(cs, i + 1);
    }
}

/// The position of the next token at or after `i`: whitespace and comments
/// skipped.
pub open spec fn skip_trivia(cs: Seq<char>, i: int) -> int
    decreases cs.len() - i,
{
    if 0 <= i < cs.len() && is_space(cs[i]) {
        skip_trivia(cs, i + 1)
    } else if 0 <= i && i + 1 < cs.len() && cs[i] == '/' && cs[i + 1] == '/' {
        let e = line_end(cs, i + 2);
        if i < e <= cs.len() {
            skip_trivia(cs, e)
        } else {
            i
        }
    } else {
        i
    }
}

pub proof fn lemma_skip_trivia(cs: Seq<char>, i: int)
    requires
        0 <= i <= cs.len(),
    ensures
        i <= skip_trivia(cs, i) <= cs.len(),
    decreases cs.len() - i,
{
    if i < cs.len() && is_space(cs[i]) {
        lemma_skip_trivia(cs, i + 1);
    } else if i + 1 < cs.len() && cs[i] == '/' && cs[i + 1] == '/' {
        lemma_line_end(cs, i + 2);
        lemma_skip_trivia(cs, line_end(cs, i + 2));
    }
}

/// The end of the identifier characters that start at `i`.
pub open spec fn ident_end(cs: Seq<char>, i: int) -> int
    decreases cs.len() - i,
{
    if 0 <= i < cs.len() && is_ident_char(cs[i]) {
        ident_end(cs, i + 1)
    } else {
        i
    }
}

/// The end of the digits that start at `i`.
pub open spec fn digits_end(cs: Seq<char>, i: int) -> int
    decreases cs.len() - i,
{
    if 0 <= i < cs.len() && is_digit(cs[i]) {
        digits_end(cs, i + 1)
    } else {
        i
    }
}

/// The end of the number literal that starts at `i`: digits, then a dot and
/// digits when a digit follows the dot.
pub open spec fn number_end(cs: Seq<char>, i: int) -> int {
    let d = digits_end(cs, i);
    if 0 <= d && d + 1 < cs.len() && cs[d] == '.' && is_digit(cs[d + 1]) {
        digits_end(cs, d + 1)
    } else {
        d
    }
}

/// The first double quote at or after `i`, or the end of the text.
pub open spec fn quote_end(cs: Seq<char>, i: int) -> int
    decreases cs.len() - i,
{
    if 0 <= i < cs.len() && cs[i] != '"' {
        quote_end(cs, i + 1)
    } else {
        i
    }
}

pub proof fn lemma_scan_ends(cs: Seq<char>, i: int)
    requires
        0 <= i <= cs.len(),
    ensures
        i <= ident_end(cs, i) <= cs.len(),
        i <= digits_end(cs, i) <= cs.len(),
        i <= quote_end(cs, i) <= cs.len(),
        i <= number_end(cs, i) <= cs.len(),
    decreases cs.len() - i,
{
    if i < cs.len() {
        lemma_scan_ends(cs, i + 1);
    }
    let d = digits_end(cs, i);
    if d + 1 < cs.len() && cs[d] == '.' && is_digit(cs[d + 1]) {
        lemma_scan_ends(cs, d + 1);
    }
}

/// The keyword that `text` spells, if any.
pub open spec fn keyword(text: Seq<char>) -> Option<TokenKind> {
    if text == seq!['a', 'n', 'd'] {
        Some(TokenKind::And)
    } else if text == seq!['c', 'l', 'a', 's', 's'] {
        Some(TokenKind::Class)
    } else if text == seq!['e', 'l', 's', 'e'] {
        Some(TokenKind::Else)
    } else if text == seq!['f', 'a', 'l', 's', 'e'] {
        Some(TokenKind::False)
    } else if text == seq!['f', 'o', 'r'] {
        Some(TokenKind::For)
    } else if text == seq!['f', 'u', 'n'] {
        Some(TokenKind::Fun)
    } else if text == seq!['i', 'f'] {
        Some(TokenKind::If)
    } else if text == seq!['n', 'i', 'l'] {
        Some(TokenKind::Nil)
    } else if text == seq!['o', 'r'] {
        Some(TokenKind::Or)
    } else if text == seq!['p', 'r', 'i', 'n', 't'] {
        Some(TokenKind::Print)
    } else if text == seq!['r', 'e', 't', 'u', 'r', 'n'] {
        Some(TokenKind::Return)
    } else if text == seq!['s', 'u', 'p', 'e', 'r'] {
        Some(TokenKind::Super)
    } else if text == seq!['t', 'h', 'i', 's'] {
        Some(TokenKind::This)
    } else if text == seq!['t', 'r', 'u', 'e'] {
        Some(TokenKind::True)
    } else if text == seq!['v', 'a', 'r'] {
        Some(TokenKind::Var)
    } else if text == seq!['w', 'h', 'i', 'l', 'e'] {
        Some(TokenKind::While)
    } else {
        None
    }
}

/// One or two characters: the longer form when `second` follows.
pub open spec fn one_or_two(cs: Seq<char>, i: int, second: char, one: TokenKind, two: TokenKind) -> (TokenKind, int) {
    if i + 1 < cs.len() && cs[i + 1] == second {
        (two, i + 2)
    } else {
        (one, i + 1)
    }
}

/// The kind and end of the token that starts at `i`, which is not
/// whitespace or a comment. An unterminated string is an error that runs to
/// the end of the text; any other character that starts no token is an error
/// of its own.
pub open spec fn raw_token(cs: Seq<char>, i: int) -> (TokenKind, int) {
    let c = cs[i];
    if c == '(' {
        (TokenKind::LtParen, i + 1)
    } else if c == ')' {
        (TokenKind::RtParen, i + 1)
    } else if c == '{' {
        (TokenKind::LtBrace, i + 1)
    } else if c == '}' {
        (TokenKind::RtBrace, i + 1)
    } else if c == ',' {
        (TokenKind::Comma, i + 1)
    } else if c == '.' {
        (TokenKind::Dot, i + 1)
    } else if c == '-' {
        (TokenKind::Minus, i + 1)
    } else if c == '+' {
        (TokenKind::Plus, i + 1)
    } else if c == ';' {
        (TokenKind::Semicolon, i + 1)
    } else if c == '/' {
        (TokenKind::Slash, i + 1)
    } else if c == '*' {
        (TokenKind::Asterisk, i + 1)
    } else if c == '!' {
        one_or_two(cs, i, '=', TokenKind::Bang, TokenKind::BangEqual)
    } else if c == '=' {
        one_or_two(cs, i, '=', TokenKind::Equal, TokenKind::EqualEqual)
    } else if c == '>' {
        one_or_two(cs, i, '=', TokenKind::Greater, TokenKind::GreaterEqual)
    } else if c == '<' {
        one_or_two(cs, i, '=', TokenKind::Less, TokenKind::LessEqual)
    } else if c == '"' {
        let q = quote_end(cs, i + 1);
        if q < cs.len() {
            (TokenKind::String, q + 1)
        } else {
            (TokenKind::Error, cs.len() as int)
        }
    } else if is_digit(c) {
        (TokenKind::Number, number_end(cs, i))
    } else if is_alpha(c) {
        let e = ident_end(cs, i + 1);
        match keyword(cs.subrange(i, e)) {
            Some(k) => (k, e),
            None => (TokenKind::Identifier, e),
        }
    } else {
        (TokenKind::Error, i + 1)
    }
}

pub proof fn lemma_raw_token(cs: Seq<char>, i: int)
    requires
        0 <= i < cs.len(),
    ensures
        i < raw_token(cs, i).1 <= cs.len(),
{
    lemma_scan_ends(cs, i);
    lemma_scan_ends(cs, i + 1);
}

/// The token that a kind and the text of its span make.
pub open spec fn token_view_of(kind: TokenKind, cs: Seq<char>, s: int, e: int) -> TokenView {
    match kind {
        TokenKind::Identifier => TokenView::Identifier(cs.subrange(s, e)),
        TokenKind::String => TokenView::String(cs.subrange(s + 1, e - 1)),
        TokenKind::Number => TokenView::Number(cs.subrange(s, e)),
        _ => TokenView::Plain(kind),
    }
}

/// The number of bytes in the UTF-8 encoding of `c`.
pub open spec fn utf8_len(c: char) -> nat {
    if (c as u32) < 0x80 {
        1
    } else if (c as u32) < 0x800 {
        2
    } else if (c as u32) < 0x10000 {
        3
    } else {
        4
    }
}

/// The byte offset of the character at index `i`.
pub open spec fn byte_offset(cs: Seq<char>, i: int) -> nat
    decreases i,
{
    if i <= 0 || i > cs.len() {
        0
    } else {
        byte_offset(cs, i - 1) + utf8_len(cs[i - 1])
    }
}

pub proof fn lemma_byte_offset_mono(cs: Seq<char>, i: int, j: int)
    requires
        0 <= i <= j <= cs.len(),
    ensures
        byte_offset(cs, i) <= byte_offset(cs, j),
    decreases j - i,
{
    if i < j {
        lemma_byte_offset_mono(cs, i, j - 1);
    }
}

/// The end of the error that starts before `e`: the error swallows every
/// token glued to it.
pub open spec fn merge_end(cs: Seq<char>, e: int) -> int
    decreases cs.len() - e,
{
    if 0 < e < cs.len() && skip_trivia(cs, e) == e && e < raw_token(cs, e).1 <= cs.len() {
        merge_end(cs, raw_token(cs, e).1)
    } else {
        e
    }
}

pub proof fn lemma_merge_end(cs: Seq<char>, e: int)
    requires
        0 < e <= cs.len(),
    ensures
        e <= merge_end(cs, e) <= cs.len(),
    decreases cs.len() - e,
{
    if e < cs.len() && skip_trivia(cs, e) == e && e < raw_token(cs, e).1 <= cs.len() {
        lemma_raw_token(cs, e);
        lemma_merge_end(cs, raw_token(cs, e).1);
    }
}

/// `chars().collect()`: the characters of `s`; the byte length of a `str` is
/// the sum of the UTF-8 lengths of its characters, and fits in `usize`.
#[verifier::external_body]
fn str_chars(s: &str) -> (r: Vec<char>)
    ensures
        r@ == s@,
        byte_offset(r@, r@.len() as int) <= usize::MAX,
{
    s.chars().collect()
}

/// `iter().collect()` over `cs[start..end]`: a string of those characters.
#[verifier::external_body]
fn string_from_chars(cs: &Vec<char>, start: usize, end: usize) -> (r: String)
    requires
        start <= end <= cs@.len(),
    ensures
        r@ == cs@.subrange(start as int, end as int),
{
    cs[start..end].iter().collect()
}

/// A lexed token with its byte span, as the parser consumes it.
pub type Spanned = (usize, Token, usize);

pub struct Lexer {
    pub chars: Vec<char>,
    /// The character index where lexing goes on.
    pub pos: usize,
    /// The byte offset of `pos`.
    pub byte_pos: usize,
    /// A token read while recovering from an error, to be handed out next.
    pub pending: Option<Spanned>,
}

impl Lexer {
    pub open spec fn text(&self) -> Seq<char> {
        self.chars@
    }

    pub open spec fn position(&self) -> int {
        self.pos as int
    }

    pub open spec fn pending_token(&self) -> Option<Spanned> {
        self.pending
    }

    pub open spec fn wf(&self) -> bool {
        &&& self.pos <= self.chars@.len()
        &&& self.byte_pos == byte_offset(self.chars@, self.pos as int)
        &&& byte_offset(self.chars@, self.chars@.len() as int) <= usize::MAX
    }

    pub fn new(source: &str) -> (l: Lexer)
        ensures
            l.wf(),
            l.text() == source@,
            l.position() == 0,
            l.pending_token() is None,
    {
        Lexer { chars: str_chars(source), pos: 0, byte_pos: 0, pending: None }
    }

    /// Advances from `from` to `to`, returning the byte offset of `to`.
    fn bytes_to(&self, from: usize, from_bytes: usize, to: usize) -> (r: usize)
        requires
            self.wf(),
            from <= to <= self.chars@.len(),
            from_bytes == byte_offset(self.chars@, from as int),
        ensures
            r == byte_offset(self.chars@, to as int),
    {
        let mut i = from;
        let mut b = from_bytes;
        while i < to
            invariant
                self.wf(),
                from <= i <= to <= self.chars@.len(),
                b == byte_offset(self.chars@, i as int),
            decreases to - i,
        {
            let c = self.chars[i];
            proof {
                lemma_byte_offset_mono(self.chars@, i as int + 1, self.chars@.len() as int);
            }
            let w: usize = if (c as u32) < 0x80 {
                1
            } else if (c as u32) < 0x800 {
                2
            } else if (c as u32) < 0x10000 {
                3
            } else {
                4
            };
            b = b + w;
            i = i + 1;
        }
        b
    }

    fn skip_trivia_from(&self, start: usize) -> (r: usize)
        requires
            start <= self.chars@.len(),
        ensures
            r == skip_trivia(self.chars@, start as int),
    {
        let n = self.chars.len();
        let mut i = start;
        proof {
            lemma_skip_trivia(self.chars@, start as int);
        }
        while i < n
            invariant
                n == self.chars@.len(),
                start <= i <= n,
                skip_trivia(self.chars@, i as int) == skip_trivia(self.chars@, start as int),
            decreases n - i,
        {
            let c = self.chars[i];
            if c == ' ' || c == '\r' || c == '\n' || c == '\t' || c == '\x0c' {
                i = i + 1;
            } else if i + 1 < n && c == '/' && self.chars[i + 1] == '/' {
                let mut j = i + 2;
                while j < n && self.chars[j] != '\n'
                    invariant
                        n == self.chars@.len(),
                        i + 2 <= j <= n,
                        line_end(self.chars@, j as int) == line_end(self.chars@, i + 2),
                    decreases n - j,
                {
                    j = j + 1;
                }
                i = j;
            } else {
                return i;
            }
        }
        i
    }

    fn scan_while_ident(&self, start: usize) -> (r: usize)
        requires
            start <= self.chars@.len(),
        ensures
            r == ident_end(self.chars@, start as int),
    {
        let n = self.chars.len();
        let mut i = start;
        while i < n
            invariant
                n == self.chars@.len(),
                start <= i <= n,
                ident_end(self.chars@, i as int) == ident_end(self.chars@, start as int),
            decreases n - i,
        {
            let c = self.chars[i];
            if ('a' <= c && c <= 'z') || ('A' <= c && c <= 'Z') || c == '_' || ('0' <= c && c <= '9') {
                i = i + 1;
            } else {
                return i;
            }
        }
        i
    }

    fn scan_digits(&self, start: usize) -> (r: usize)
        requires
            start <= self.chars@.len(),
        ensures
            r == digits_end(self.chars@, start as int),
    {
        let n = self.chars.len();
        let mut i = start;
        while i < n
            invariant
                n == self.chars@.len(),
                start <= i <= n,
                digits_end(self.chars@, i as int) == digits_end(self.chars@, start as int),
            decreases n - i,
        {
            let c = self.chars[i];
            if '0' <= c && c <= '9' {
                i = i + 1;
            } else {
                return i;
            }
        }
        i
    }

    fn scan_quote(&self, start: usize) -> (r: usize)
        requires
            start <= self.chars@.len(),
        ensures
            r == quote_end(self.chars@, start as int),
    {
        let n = self.chars.len();
        let mut i = start;
        while i < n
            invariant
                n == self.chars@.len(),
                start <= i <= n,
                quote_end(self.chars@, i as int) == quote_end(self.chars@, start as int),
            decreases n - i,
        {
            if self.chars[i] != '"' {
                i = i + 1;
            } else {
                return i;
            }
        }
        i
    }

    /// The keyword spelled by `cs[s..e]`, if any.
    fn keyword_at(&self, s: usize, e: usize) -> (r: Option<TokenKind>)
        requires
            s <= e <= self.chars@.len(),
        ensures
            r == keyword(self.chars@.subrange(s as int, e as int)),
    {
        let ghost text = self.chars@.subrange(s as int, e as int);
        let len = e - s;
        let cs = &self.chars;
        if len == 2 {
            if cs[s] == 'i' && cs[s + 1] == 'f' {
                assert(text =~= seq!['i', 'f']);
                return Some(TokenKind::If);
            }
            if cs[s] == 'o' && cs[s + 1] == 'r' {
                assert(text =~= seq!['o', 'r']);
                return Some(TokenKind::Or);
            }
        } else if len == 3 {
            if cs[s] == 'a' && cs[s + 1] == 'n' && cs[s + 2] == 'd' {
                assert(text =~= seq!['a', 'n', 'd']);
                return Some(TokenKind::And);
            }
            if cs[s] == 'f' && cs[s + 1] == 'o' && cs[s + 2] == 'r' {
                assert(text =~= seq!['f', 'o', 'r']);
                return Some(TokenKind::For);
            }
            if cs[s] == 'f' && cs[s + 1] == 'u' && cs[s + 2] == 'n' {
                assert(text =~= seq!['f', 'u', 'n']);
                return Some(TokenKind::Fun);
            }
            if cs[s] == 'n' && cs[s + 1] == 'i' && cs[s + 2] == 'l' {
                assert(text =~= seq!['n', 'i', 'l']);
                return Some(TokenKind::Nil);
            }
            if cs[s] == 'v' && cs[s + 1] == 'a' && cs[s + 2] == 'r' {
                assert(text =~= seq!['v', 'a', 'r']);
                return Some(TokenKind::Var);
            }
        } else if len == 4 {
            if cs[s] == 'e' && cs[s + 1] == 'l' && cs[s + 2] == 's' && cs[s + 3] == 'e' {
                assert(text =~= seq!['e', 'l', 's', 'e']);
                return Some(TokenKind::Else);
            }
            if cs[s] == 't' && cs[s + 1] == 'h' && cs[s + 2] == 'i' && cs[s + 3] == 's' {
                assert(text =~= seq!['t', 'h', 'i', 's']);
                return Some(TokenKind::This);
            }
            if cs[s] == 't' && cs[s + 1] == 'r' && cs[s + 2] == 'u' && cs[s + 3] == 'e' {
                assert(text =~= seq!['t', 'r', 'u', 'e']);
                return Some(TokenKind::True);
            }
        } else if len == 5 {
            if cs[s] == 'c' && cs[s + 1] == 'l' && cs[s + 2] == 'a' && cs[s + 3] == 's' && cs[s + 4] == 's' {
                assert(text =~= seq!['c', 'l', 'a', 's', 's']);
                return Some(TokenKind::Class);
            }
            if cs[s] == 'f' && cs[s + 1] == 'a' && cs[s + 2] == 'l' && cs[s + 3] == 's' && cs[s + 4] == 'e' {
                assert(text =~= seq!['f', 'a', 'l', 's', 'e']);
                return Some(TokenKind::False);
            }
            if cs[s] == 'p' && cs[s + 1] == 'r' && cs[s + 2] == 'i' && cs[s + 3] == 'n' && cs[s + 4] == 't' {
                assert(text =~= seq!['p', 'r', 'i', 'n', 't']);
                return Some(TokenKind::Print);
            }
            if cs[s] == 's' && cs[s + 1] == 'u' && cs[s + 2] == 'p' && cs[s + 3] == 'e' && cs[s + 4] == 'r' {
                assert(text =~= seq!['s', 'u', 'p', 'e', 'r']);
                return Some(TokenKind::Super);
            }
            if cs[s] == 'w' && cs[s + 1] == 'h' && cs[s + 2] == 'i' && cs[s + 3] == 'l' && cs[s + 4] == 'e' {
                assert(text =~= seq!['w', 'h', 'i', 'l', 'e']);
                return Some(TokenKind::While);
            }
        } else if len == 6 {
            if cs[s] == 'r' && cs[s + 1] == 'e' && cs[s + 2] == 't' && cs[s + 3] == 'u' && cs[s + 4] == 'r' && cs[s + 5] == 'n' {
                assert(text =~= seq!['r', 'e', 't', 'u', 'r', 'n']);
                return Some(TokenKind::Return);
            }
        }
        proof {
            assert(keyword(text) is None) by {
                if text.len() == 2 {
                    assert(text[0] == self.chars@[s as int] && text[1] == self.chars@[s + 1]);
                } else if text.len() == 3 {
                    assert(text[0] == self.chars@[s as int] && text[1] == self.chars@[s + 1] && text[2] == self.chars@[s + 2]);
                } else if text.len() == 4 {
                    assert(text[0] == self.chars@[s as int] && text[1] == self.chars@[s + 1] && text[2] == self.chars@[s + 2] && text[3] == self.chars@[s + 3]);
                } else if text.len() == 5 {
                    assert(text[0] == self.chars@[s as int] && text[1] == self.chars@[s + 1] && text[2] == self.chars@[s + 2] && text[3] == self.chars@[s + 3] && text[4] == self.chars@[s + 4]);
                } else if text.len() == 6 {
                    assert(text[0] == self.chars@[s as int] && text[1] == self.chars@[s + 1] && text[2] == self.chars@[s + 2] && text[3] == self.chars@[s + 3] && text[4] == self.chars@[s + 4] && text[5] == self.chars@[s + 5]);
                }
            }
        }
        None
    }
}

/// What the lexer hands out for the token that starts at `s`, with its kind
/// and end.
pub open spec fn spanned_view(cs: Seq<char>, s: int, kind: TokenKind, e: int, t: Spanned) -> bool {
    t.0 == byte_offset(cs, s) && t.2 == byte_offset(cs, e) && t.1.view_token() == token_view_of(
        kind,
        cs,
        s,
        e,
    )
}

impl Lexer {
    fn raw_token_at(&self, i: usize) -> (r: (TokenKind, usize))
        requires
            i < self.chars@.len(),
        ensures
            r.0 == raw_token(self.chars@, i as int).0,
            r.1 == raw_token(self.chars@, i as int).1,
            i < r.1 <= self.chars@.len(),
            r.0 == TokenKind::String ==> r.1 >= i + 2,
    {
        proof {
            lemma_raw_token(self.chars@, i as int);
            lemma_scan_ends(self.chars@, i as int + 1);
        }
        let n = self.chars.len();
        let c = self.chars[i];
        if c == '(' {
            (TokenKind::LtParen, i + 1)
        } else if c == ')' {
            (TokenKind::RtParen, i + 1)
        } else if c == '{' {
            (TokenKind::LtBrace, i + 1)
        } else if c == '}' {
            (TokenKind::RtBrace, i + 1)
        } else if c == ',' {
            (TokenKind::Comma, i + 1)
        } else if c == '.' {
            (TokenKind::Dot, i + 1)
        } else if c == '-' {
            (TokenKind::Minus, i + 1)
        } else if c == '+' {
            (TokenKind::Plus, i + 1)
        } else if c == ';' {
            (TokenKind::Semicolon, i + 1)
        } else if c == '/' {
            (TokenKind::Slash, i + 1)
        } else if c == '*' {
            (TokenKind::Asterisk, i + 1)
        } else if c == '!' || c == '=' || c == '>' || c == '<' {
            let two = i + 1 < n && self.chars[i + 1] == '=';
            if c == '!' {
                if two { (TokenKind::BangEqual, i + 2) } else { (TokenKind::Bang, i + 1) }
            } else if c == '=' {
                if two { (TokenKind::EqualEqual, i + 2) } else { (TokenKind::Equal, i + 1) }
            } else if c == '>' {
                if two { (TokenKind::GreaterEqual, i + 2) } else { (TokenKind::Greater, i + 1) }
            } else {
                if two { (TokenKind::LessEqual, i + 2) } else { (TokenKind::Less, i + 1) }
            }
        } else if c == '"' {
            let q = self.scan_quote(i + 1);
            if q < n {
                (TokenKind::String, q + 1)
            } else {
                (TokenKind::Error, n)
            }
        } else if '0' <= c && c <= '9' {
            let d = self.scan_digits(i);
            proof {
                lemma_scan_ends(self.chars@, i as int);
            }
            if d < n && d + 1 < n && self.chars[d] == '.' && '0' <= self.chars[d + 1] && self.chars[d + 1] <= '9' {
                proof {
                    lemma_scan_ends(self.chars@, d as int + 1);
                }
                (TokenKind::Number, self.scan_digits(d + 1))
            } else {
                (TokenKind::Number, d)
            }
        } else if ('a' <= c && c <= 'z') || ('A' <= c && c <= 'Z') || c == '_' {
            let e = self.scan_while_ident(i + 1);
            match self.keyword_at(i, e) {
                Some(k) => (k, e),
                None => (TokenKind::Identifier, e),
            }
        } else {
            (TokenKind::Error, i + 1)
        }
    }

    /// The token of a kind with the text `cs[s..e]`.
    fn make_token(&self, kind: TokenKind, s: usize, e: usize) -> (t: Token)
        requires
            s < e <= self.chars@.len(),
            kind == TokenKind::String ==> e >= s + 2,
        ensures
            t.view_token() == token_view_of(kind, self.chars@, s as int, e as int),
    {
        match kind {
            TokenKind::LtParen => Token::LtParen,
            TokenKind::RtParen => Token::RtParen,
            TokenKind::LtBrace => Token::LtBrace,
            TokenKind::RtBrace => Token::RtBrace,
            TokenKind::Comma => Token::Comma,
            TokenKind::Dot => Token::Dot,
            TokenKind::Minus => Token::Minus,
            TokenKind::Plus => Token::Plus,
            TokenKind::Semicolon => Token::Semicolon,
            TokenKind::Slash => Token::Slash,
            TokenKind::Asterisk => Token::Asterisk,
            TokenKind::Bang => Token::Bang,
            TokenKind::BangEqual => Token::BangEqual,
            TokenKind::Equal => Token::Equal,
            TokenKind::EqualEqual => Token::EqualEqual,
            TokenKind::Greater => Token::Greater,
            TokenKind::GreaterEqual => Token::GreaterEqual,
            TokenKind::Less => Token::Less,
            TokenKind::LessEqual => Token::LessEqual,
            TokenKind::Identifier => Token::Identifier(string_from_chars(&self.chars, s, e)),
            TokenKind::String => Token::String(string_from_chars(&self.chars, s + 1, e - 1)),
            TokenKind::Number => Token::Number(string_from_chars(&self.chars, s, e)),
            TokenKind::And => Token::And,
            TokenKind::Class => Token::Class,
            TokenKind::Else => Token::Else,
            TokenKind::False => Token::False,
            TokenKind::For => Token::For,
            TokenKind::Fun => Token::Fun,
            TokenKind::If => Token::If,
            TokenKind::Nil => Token::Nil,
            TokenKind::Or => Token::Or,
            TokenKind::Print => Token::Print,
            TokenKind::Return => Token::Return,
            TokenKind::Super => Token::Super,
            TokenKind::This => Token::This,
            TokenKind::True => Token::True,
            TokenKind::Var => Token::Var,
            TokenKind::While => Token::While,
            TokenKind::Error => Token::Error,
        }
    }

    /// The next token, or the next error, or `None` at the end of the text.
    ///
    /// A token read while recovering from an error is handed out first. An
    /// unterminated string is an error that runs to the end of the text. Any
    /// other error takes in the tokens glued to it; the first token after
    /// whitespace or a comment is read ahead and handed out next.
    pub fn next(&mut self) -> (r: Option<Result<Spanned, ErrorS>>)
        requires
            old(self).wf(),
        ensures
            final(self).wf(),
            final(self).text() == old(self).text(),
            old(self).pending_token() matches Some(t) ==> r == Some(Ok::<Spanned, ErrorS>(t))
                && final(self).pending_token() is None && final(self).position() == old(self).position(),
            old(self).pending_token() is None ==> {
                let cs = old(self).text();
                let s = skip_trivia(cs, old(self).position());
                let k = raw_token(cs, s).0;
                let e = raw_token(cs, s).1;
                &&& s == cs.len() ==> r is None && final(self).pending_token() is None && final(self).position() == s
                &&& (s < cs.len() && k != TokenKind::Error) ==> {
                    &&& r matches Some(Ok(t)) && spanned_view(cs, s, k, e, t)
                    &&& final(self).pending_token() is None
                    &&& final(self).position() == e
                }
                &&& (s < cs.len() && k == TokenKind::Error && cs[s] == '"') ==> {
                    &&& r == Some(Err::<Spanned, ErrorS>((Error::SyntaxError(SyntaxError::UnterminatedString),
                        Span { start: byte_offset(cs, s) as usize, end: byte_offset(cs, e) as usize })))
                    &&& final(self).pending_token() is None
                    &&& final(self).position() == e
                }
                &&& (s < cs.len() && k == TokenKind::Error && cs[s] != '"') ==> {
                    let m = merge_end(cs, e);
                    let t = skip_trivia(cs, m);
                    &&& r matches Some(Err((Error::SyntaxError(SyntaxError::UnexpectedInput { token }), span)))
                    &&& token@ == cs.subrange(s, m)
                    &&& span == Span { start: byte_offset(cs, s) as usize, end: byte_offset(cs, m) as usize }
                    &&& t == cs.len() ==> final(self).pending_token() is None && final(self).position() == t
                    &&& t < cs.len() ==> {
                        &&& final(self).pending_token() matches Some(p) && spanned_view(cs, t, raw_token(cs, t).0, raw_token(cs, t).1, p)
                        &&& final(self).position() == raw_token(cs, t).1
                    }
                }
            },
    {
        if self.pending.is_some() {
            let t = self.pending.take();
            return Some(Ok(t.unwrap()));
        }
        let ghost cs = self.chars@;
        let n = self.chars.len();
        proof {
            lemma_skip_trivia(cs, self.pos as int);
            lemma_byte_offset_mono(cs, 0, cs.len() as int);
        }
        let s = self.skip_trivia_from(self.pos);
        let bs = self.bytes_to(self.pos, self.byte_pos, s);
        if s == n {
            self.pos = s;
            self.byte_pos = bs;
            return None;
        }
        let (k, e) = self.raw_token_at(s);
        let be = self.bytes_to(s, bs, e);
        self.pos = e;
        self.byte_pos = be;
        proof {
            lemma_byte_offset_mono(cs, s as int, e as int);
            lemma_byte_offset_mono(cs, e as int, cs.len() as int);
        }
        if k != TokenKind::Error {
            return Some(Ok((bs, self.make_token(k, s, e), be)));
        }
        if self.chars[s] == '"' {
            return Some(Err((Error::SyntaxError(SyntaxError::UnterminatedString), Span { start: bs, end: be })));
        }
        let mut m = e;
        let mut bm = be;
        proof {
            lemma_merge_end(cs, e as int);
        }
        loop
            invariant_except_break
                self.pending is None,
                bm == byte_offset(cs, m as int),
                merge_end(cs, m as int) == merge_end(cs, e as int),
                self.pos == m,
                bs == byte_offset(cs, s as int),
            invariant
                self.chars@ == cs,
                n == cs.len(),
                self.wf(),
                s < e <= m <= n,
            ensures
                self.chars@ == cs,
                self.wf(),
                m == merge_end(cs, e as int),
                bm == byte_offset(cs, m as int),
                bs == byte_offset(cs, s as int),
                s < m,
                skip_trivia(cs, m as int) == n ==> self.pending is None && self.pos == n,
                skip_trivia(cs, m as int) < n ==> {
                    let t = skip_trivia(cs, m as int);
                    &&& self.pending matches Some(p) && spanned_view(cs, t, raw_token(cs, t).0, raw_token(cs, t).1, p)
                    &&& self.pos == raw_token(cs, t).1
                },
            decreases n - m,
        {
            proof {
                lemma_skip_trivia(cs, m as int);
            }
            let t = self.skip_trivia_from(m);
            if t == n {
                let bt = self.bytes_to(m, bm, t);
                self.pos = t;
                self.byte_pos = bt;
                break;
            }
            let (k2, e2) = self.raw_token_at(t);
            proof {
                lemma_byte_offset_mono(cs, m as int, t as int);
                lemma_byte_offset_mono(cs, t as int, e2 as int);
                lemma_byte_offset_mono(cs, e2 as int, cs.len() as int);
            }
            let bt = self.bytes_to(m, bm, t);
            let be2 = self.bytes_to(t, bt, e2);
            if t == m {
                m = e2;
                bm = be2;
                self.pos = m;
                self.byte_pos = bm;
            } else {
                let tok = self.make_token(k2, t, e2);
                self.pending = Some((bt, tok, be2));
                self.pos = e2;
                self.byte_pos = be2;
                break;
            }
        }
        proof {
            lemma_byte_offset_mono(cs, m as int, cs.len() as int);
            lemma_byte_offset_mono(cs, s as int, m as int);
        }
        let text = string_from_chars(&self.chars, s, m);
        Some(Err((Error::SyntaxError(SyntaxError::UnexpectedInput { token: text }), Span { start: bs, end: bm })))
    }
}

} // verus!
