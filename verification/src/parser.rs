//! The parser: a recursive-descent parser for the Lox grammar.
//!
//! ```text
//! program     → declaration* EOF
//! declaration → classDecl | funDecl | varDecl | statement
//! classDecl   → "class" IDENT ( "<" IDENT )? "{" function* "}"
//! funDecl     → "fun" function
//! function    → IDENT "(" ( IDENT ( "," IDENT )* )? ")" block
//! varDecl     → "var" IDENT ( "=" expression )? ";"
//! statement   → exprStmt | forStmt | ifStmt | printStmt | returnStmt
//!             | whileStmt | block
//! forStmt     → "for" "(" ( varDecl | exprStmt | ";" ) expression? ";"
//!               expression? ")" statement
//! ifStmt      → "if" "(" expression ")" statement ( "else" statement )?
//! printStmt   → "print" expression ";"
//! returnStmt  → "return" expression? ";"
//! whileStmt   → "while" "(" expression ")" statement
//! block       → "{" declaration* "}"
//! expression  → assignment
//! assignment  → ( call "." )? IDENT "=" assignment | logic_or
//! logic_or    → logic_and ( "or" logic_and )*
//! logic_and   → equality ( "and" equality )*
//! equality    → comparison ( ( "!=" | "==" ) comparison )*
//! comparison  → term ( ( ">" | ">=" | "<" | "<=" ) term )*
//! term        → factor ( ( "-" | "+" ) factor )*
//! factor      → unary ( ( "/" | "*" ) unary )*
//! unary       → ( "!" | "-" ) unary | call
//! call        → primary ( "(" arguments? ")" | "." IDENT )*
//! primary     → "true" | "false" | "nil" | "this" | NUMBER | STRING
//!             | IDENT | "(" expression ")" | "super" "." IDENT
//! ```
//!
//! The first error ends the parse.
use vstd::prelude::*;

use crate::ast::{Expr, ExprAssign, ExprCall, ExprGet, ExprInfix, ExprLiteral, ExprPrefix, ExprS, ExprSet, ExprSuper, ExprVar, OpInfix, OpPrefix, Program, Spanned, Stmt, StmtBlock, StmtClass, StmtExpr, StmtFor, StmtFun, StmtIf, StmtPrint, StmtReturn, StmtS, StmtVar, StmtWhile, Var};
use crate::error::{Error, ErrorS, Span, SyntaxError};
use crate::lexer::{lemma_raw_token, lemma_skip_trivia, raw_token, skip_trivia, spanned_view, Lexer, Spanned as Lexed, Token, TokenKind};

verus! {

pub struct Parser {
    pub tokens: Vec<Lexed>,
    pub pos: usize,
    /// The byte length of the source: where the end of input is.
    pub eof: usize,
}

/// `str::to_string`: an owned copy of a literal.
fn owned(s: &str) -> (r: String)
    ensures
        r@ == s@,
{
    String::from_str(s)
}

/// The source text of a token, as errors quote it.
pub open spec fn token_text_spec(t: Token) -> Seq<char> {
    match t {
        Token::LtParen => "("@,
        Token::RtParen => ")"@,
        Token::LtBrace => "{"@,
        Token::RtBrace => "}"@,
        Token::Comma => ","@,
        Token::Dot => "."@,
        Token::Minus => "-"@,
        Token::Plus => "+"@,
        Token::Semicolon => ";"@,
        Token::Slash => "/"@,
        Token::Asterisk => "*"@,
        Token::Bang => "!"@,
        Token::BangEqual => "!="@,
        Token::Equal => "="@,
        Token::EqualEqual => "=="@,
        Token::Greater => ">"@,
        Token::GreaterEqual => ">="@,
        Token::Less => "<"@,
        Token::LessEqual => "<="@,
        Token::And => "and"@,
        Token::Class => "class"@,
        Token::Else => "else"@,
        Token::False => "false"@,
        Token::For => "for"@,
        Token::Fun => "fun"@,
        Token::If => "if"@,
        Token::Nil => "nil"@,
        Token::Or => "or"@,
        Token::Print => "print"@,
        Token::Return => "return"@,
        Token::Super => "super"@,
        Token::This => "this"@,
        Token::True => "true"@,
        Token::Var => "var"@,
        Token::While => "while"@,
        Token::Error => ""@,
        Token::Identifier(s) => s@,
        Token::String(s) => "\""@ + s@ + "\""@,
        Token::Number(s) => s@,
    }
}

/// The source text of a token.
fn token_text(t: &Token) -> (r: String)
    ensures
        r@ == token_text_spec(*t),
{
    match t {
        Token::LtParen => owned("("),
        Token::RtParen => owned(")"),
        Token::LtBrace => owned("{"),
        Token::RtBrace => owned("}"),
        Token::Comma => owned(","),
        Token::Dot => owned("."),
        Token::Minus => owned("-"),
        Token::Plus => owned("+"),
        Token::Semicolon => owned(";"),
        Token::Slash => owned("/"),
        Token::Asterisk => owned("*"),
        Token::Bang => owned("!"),
        Token::BangEqual => owned("!="),
        Token::Equal => owned("="),
        Token::EqualEqual => owned("=="),
        Token::Greater => owned(">"),
        Token::GreaterEqual => owned(">="),
        Token::Less => owned("<"),
        Token::LessEqual => owned("<="),
        Token::Identifier(s) => s.clone(),
        Token::String(s) => {
            let mut r = owned("\"");
            r.append(s.as_str());
            r.append("\"");
            r
        },
        Token::Number(s) => s.clone(),
        Token::And => owned("and"),
        Token::Class => owned("class"),
        Token::Else => owned("else"),
        Token::False => owned("false"),
        Token::For => owned("for"),
        Token::Fun => owned("fun"),
        Token::If => owned("if"),
        Token::Nil => owned("nil"),
        Token::Or => owned("or"),
        Token::Print => owned("print"),
        Token::Return => owned("return"),
        Token::Super => owned("super"),
        Token::This => owned("this"),
        Token::True => owned("true"),
        Token::Var => owned("var"),
        Token::While => owned("while"),
        Token::Error => owned(""),
    }
}

/// `e` is the error for the next token of `p`, which the grammar does not
/// allow: the token's text and span, or, past the last token, the end of the
/// input at the end of the last token read.
pub open spec fn unexpected_error(p: Parser, e: ErrorS) -> bool {
    let ts = p.tokens@;
    if p.pos < ts.len() {
        &&& e.1 == Span { start: ts[p.pos as int].0, end: ts[p.pos as int].2 }
        &&& match e.0 {
            Error::SyntaxError(SyntaxError::UnrecognizedToken { token, .. }) => token@ == token_text_spec(ts[p.pos as int].1),
            _ => false,
        }
    } else {
        let loc = if p.pos > 0 {
            ts[p.pos - 1].2
        } else {
            0
        };
        &&& e.1 == Span { start: loc, end: loc }
        &&& e.0 is SyntaxError && e.0->SyntaxError_0 is UnrecognizedEOF
    }
}

/// `r` is the error for the next token of `p`.
pub open spec fn fails_at<T>(p: Parser, r: Result<T, ErrorS>) -> bool {
    match r {
        Err(e) => unexpected_error(p, e),
        Ok(_) => false,
    }
}

/// The token is a whole primary expression on its own: a literal, a name or
/// `this`.
pub open spec fn simple_operand(t: Option<Token>) -> bool {
    match t {
        Some(Token::True) | Some(Token::False) | Some(Token::Nil) | Some(Token::Number(_)) | Some(Token::String(_))
        | Some(Token::Identifier(_)) | Some(Token::This) => true,
        _ => false,
    }
}

/// The token can begin a primary expression.
pub open spec fn starts_primary(t: Option<Token>) -> bool {
    simple_operand(t) || t == Some(Token::LtParen) || t == Some(Token::Super)
}

/// The token can begin an expression.
pub open spec fn starts_expression(t: Option<Token>) -> bool {
    starts_primary(t) || t == Some(Token::Bang) || t == Some(Token::Minus)
}

/// The token cannot continue an expression: it is no operator, call,
/// property access or assignment.
pub open spec fn ends_expression(t: Option<Token>) -> bool {
    match t {
        Some(Token::Or) | Some(Token::And) | Some(Token::EqualEqual) | Some(Token::BangEqual) | Some(Token::Greater)
        | Some(Token::GreaterEqual) | Some(Token::Less) | Some(Token::LessEqual) | Some(Token::Plus) | Some(Token::Minus)
        | Some(Token::Asterisk) | Some(Token::Slash) | Some(Token::LtParen) | Some(Token::Dot) | Some(Token::Equal) => false,
        _ => true,
    }
}

/// The tokens from `i` on begin with an expression of a single token.
pub open spec fn simple_at(ts: Seq<Lexed>, i: int) -> bool {
    simple_operand(tok(ts, i)) && ends_expression(tok(ts, i + 1))
}

/// The tokens from `i` on begin with the empty block `{ }`.
pub open spec fn empty_block_at(ts: Seq<Lexed>, i: int) -> bool {
    tok(ts, i) == Some(Token::LtBrace) && tok(ts, i + 1) == Some(Token::RtBrace)
}

/// The tokens from `i` on begin with a statement of one of the shortest
/// forms, which ends at `j`: a single-token expression and `;`, `print`, a
/// single-token expression and `;`, or the empty block.
pub open spec fn short_stmt_at(ts: Seq<Lexed>, i: int, j: int) -> bool {
    ||| simple_at(ts, i) && tok(ts, i + 1) == Some(Token::Semicolon) && j == i + 2
    ||| tok(ts, i) == Some(Token::Print) && simple_at(ts, i + 1) && tok(ts, i + 2) == Some(Token::Semicolon) && j == i + 3
    ||| empty_block_at(ts, i) && j == i + 2
}

/// The tokens from `i` on, after `var`, begin with a name and `;`, or a
/// name, `=`, a single-token expression and `;`, which end at `j`.
pub open spec fn short_var_at(ts: Seq<Lexed>, i: int, j: int) -> bool {
    &&& tok(ts, i) is Some && tok(ts, i)->Some_0 is Identifier
    &&& {
        ||| tok(ts, i + 1) == Some(Token::Semicolon) && j == i + 2
        ||| tok(ts, i + 1) == Some(Token::Equal) && simple_at(ts, i + 2) && tok(ts, i + 3) == Some(Token::Semicolon) && j
            == i + 4
    }
}

/// One expected terminal, quoted as the grammar writes it.
fn expected(s: &str) -> (r: Vec<String>)
    ensures
        r@.len() == 1,
{
    let mut q = owned("\"");
    q.append(s);
    q.append("\"");
    let mut v = Vec::new();
    v.push(q);
    v
}

pub open spec fn same_token(a: &Token, b: &Token) -> bool {
    match (a, b) {
        (Token::LtParen, Token::LtParen) => true,
        (Token::RtParen, Token::RtParen) => true,
        (Token::LtBrace, Token::LtBrace) => true,
        (Token::RtBrace, Token::RtBrace) => true,
        (Token::Comma, Token::Comma) => true,
        (Token::Dot, Token::Dot) => true,
        (Token::Semicolon, Token::Semicolon) => true,
        (Token::Equal, Token::Equal) => true,
        (Token::Less, Token::Less) => true,
        _ => false,
    }
}

impl Parser {
    pub open spec fn wf(&self) -> bool {
        self.pos <= self.tokens@.len()
    }

    pub open spec fn remaining(&self) -> int {
        self.tokens@.len() - self.pos
    }

    pub open spec fn advanced_from(&self, old: &Parser) -> bool {
        &&& self.tokens@ == old.tokens@
        &&& self.eof == old.eof
        &&& old.pos <= self.pos <= self.tokens@.len()
    }

    fn at_end(&self) -> (r: bool)
        requires
            self.wf(),
        ensures
            r == (self.pos == self.tokens@.len()),
    {
        self.pos == self.tokens.len()
    }

    fn peek(&self) -> (r: Option<&Token>)
        requires
            self.wf(),
        ensures
            r is Some <==> self.pos < self.tokens@.len(),
            r matches Some(t) ==> *t == self.tokens@[self.pos as int].1,
    {
        if self.pos < self.tokens.len() {
            Some(&self.tokens[self.pos].1)
        } else {
            None
        }
    }

    /// The span of the next token.
    fn next_start(&self) -> (r: usize)
        requires
            self.wf(),
        ensures
            self.pos < self.tokens@.len() ==> r == self.tokens@[self.pos as int].0,
    {
        if self.pos < self.tokens.len() {
            self.tokens[self.pos].0
        } else {
            self.eof
        }
    }

    /// The end of the last token read.
    fn last_end(&self) -> (r: usize)
        requires
            self.wf(),
        ensures
            self.pos > 0 ==> r == self.tokens@[self.pos - 1].2,
            self.pos == 0 ==> r == 0,
    {
        if self.pos > 0 {
            self.tokens[self.pos - 1].2
        } else {
            0
        }
    }

    /// The error for the next token, which the grammar does not allow here.
    fn unexpected(&self, exp: Vec<String>) -> (e: ErrorS)
        requires
            self.wf(),
        ensures
            unexpected_error(*self, e),
            e.0 matches Error::SyntaxError(SyntaxError::UnrecognizedToken { expected, .. }) ==> expected == exp,
            e.0 matches Error::SyntaxError(SyntaxError::UnrecognizedEOF { expected }) ==> expected == exp,
    {
        if self.pos < self.tokens.len() {
            let t = &self.tokens[self.pos];
            (Error::SyntaxError(SyntaxError::UnrecognizedToken { token: token_text(&t.1), expected: exp }), Span { start: t.0, end: t.2 })
        } else {
            let loc = self.last_end();
            (Error::SyntaxError(SyntaxError::UnrecognizedEOF { expected: exp }), Span { start: loc, end: loc })
        }
    }

    fn advance(&mut self)
        requires
            old(self).wf(),
            old(self).pos < old(self).tokens@.len(),
        ensures
            final(self).wf(),
            final(self).tokens@ == old(self).tokens@,
            final(self).eof == old(self).eof,
            final(self).pos == old(self).pos + 1,
    {
        let n = self.tokens.len();
        self.pos = self.pos + 1;
    }

    /// Consumes the next token when it is `t` (a punctuation token).
    fn eat(&mut self, t: &Token) -> (r: bool)
        requires
            old(self).wf(),
        ensures
            final(self).wf(),
            final(self).tokens@ == old(self).tokens@,
            final(self).eof == old(self).eof,
            r ==> old(self).pos < old(self).tokens@.len() && final(self).pos == old(self).pos + 1,
            !r ==> final(self).pos == old(self).pos,
            r == (old(self).pos < old(self).tokens@.len() && same_token(&old(self).tokens@[old(self).pos as int].1, t)),
    {
        let p = self.pos;
        let n = self.tokens.len();
        if p < n {
            let same = match (&self.tokens[p].1, t) {
                (Token::LtParen, Token::LtParen) => true,
                (Token::RtParen, Token::RtParen) => true,
                (Token::LtBrace, Token::LtBrace) => true,
                (Token::RtBrace, Token::RtBrace) => true,
                (Token::Comma, Token::Comma) => true,
                (Token::Dot, Token::Dot) => true,
                (Token::Semicolon, Token::Semicolon) => true,
                (Token::Equal, Token::Equal) => true,
                (Token::Less, Token::Less) => true,
                _ => false,
            };
            if same {
                self.pos = p + 1;
                return true;
            }
        }
        false
    }

    /// Consumes the next token, which must be `t`.
    fn expect(&mut self, t: &Token, name: &str) -> (r: Result<(), ErrorS>)
        requires
            old(self).wf(),
        ensures
            final(self).wf(),
            final(self).tokens@ == old(self).tokens@,
            final(self).eof == old(self).eof,
            r is Ok ==> old(self).pos < old(self).tokens@.len() && final(self).pos == old(self).pos + 1,
            r is Err ==> final(self).pos == old(self).pos,
            r is Ok ==> same_token(&old(self).tokens@[old(self).pos as int].1, t),
            r is Ok <==> (old(self).pos < old(self).tokens@.len() && same_token(&old(self).tokens@[old(self).pos as int].1, t)),
            r matches Err(e) ==> unexpected_error(*old(self), e),
    {
        if self.eat(t) {
            Ok(())
        } else {
            Err(self.unexpected(expected(name)))
        }
    }

    /// Consumes an identifier and returns its name.
    fn identifier(&mut self) -> (r: Result<String, ErrorS>)
        requires
            old(self).wf(),
        ensures
            final(self).wf(),
            final(self).tokens@ == old(self).tokens@,
            final(self).eof == old(self).eof,
            r is Ok ==> old(self).pos < old(self).tokens@.len() && final(self).pos == old(self).pos + 1,
            r is Err ==> final(self).pos == old(self).pos,
            r matches Ok(n) ==> tok(old(self).tokens@, old(self).pos as int) == Some(Token::Identifier(n)),
            r is Ok <==> (old(self).pos < old(self).tokens@.len() && old(self).tokens@[old(self).pos as int].1 is Identifier),
            r matches Err(e) ==> unexpected_error(*old(self), e),
    {
        if self.pos < self.tokens.len() {
            match &self.tokens[self.pos].1 {
                Token::Identifier(name) => {
                    let name = name.clone();
                    self.pos = self.pos + 1;
                    return Ok(name);
                },
                _ => {},
            }
        }
        let mut exp = Vec::new();
        exp.push(owned("identifier"));
        Err(self.unexpected(exp))
    }
}

/// The token at `i`, if there is one.
pub open spec fn tok(ts: Seq<Lexed>, i: int) -> Option<Token> {
    if 0 <= i < ts.len() {
        Some(ts[i].1)
    } else {
        None
    }
}

/// The span from the start of token `i` to the end of token `j - 1`.
pub open spec fn tspan(ts: Seq<Lexed>, i: int, j: int) -> Span {
    Span { start: ts[i].0, end: ts[j - 1].2 }
}

/// The operator that the token at `k` stands for at a binary precedence
/// level: 10 `or`, 9 `and`, 8 equality, 7 comparison, 6 sums, 5 products.
pub open spec fn level_op(ts: Seq<Lexed>, level: nat, k: int) -> Option<OpInfix> {
    match tok(ts, k) {
        Some(Token::Or) => if level == 10 { Some(OpInfix::LogicOr) } else { None },
        Some(Token::And) => if level == 9 { Some(OpInfix::LogicAnd) } else { None },
        Some(Token::EqualEqual) => if level == 8 { Some(OpInfix::Equal) } else { None },
        Some(Token::BangEqual) => if level == 8 { Some(OpInfix::NotEqual) } else { None },
        Some(Token::Greater) => if level == 7 { Some(OpInfix::Greater) } else { None },
        Some(Token::GreaterEqual) => if level == 7 { Some(OpInfix::GreaterEqual) } else { None },
        Some(Token::Less) => if level == 7 { Some(OpInfix::Less) } else { None },
        Some(Token::LessEqual) => if level == 7 { Some(OpInfix::LessEqual) } else { None },
        Some(Token::Plus) => if level == 6 { Some(OpInfix::Add) } else { None },
        Some(Token::Minus) => if level == 6 { Some(OpInfix::Subtract) } else { None },
        Some(Token::Asterisk) => if level == 5 { Some(OpInfix::Multiply) } else { None },
        Some(Token::Slash) => if level == 5 { Some(OpInfix::Divide) } else { None },
        _ => None,
    }
}

/// The prefix operator that the token at `k` stands for.
pub open spec fn prefix_op(ts: Seq<Lexed>, k: int) -> Option<OpPrefix> {
    match tok(ts, k) {
        Some(Token::Bang) => Some(OpPrefix::Not),
        Some(Token::Minus) => Some(OpPrefix::Negate),
        _ => None,
    }
}

/// The tokens `i..j` form the expression `e` at precedence level `level`:
/// 12 and 11 an assignment, 10 to 5 the binary levels, 4 a unary
/// expression, 3 a call and 2 a primary expression. Each level takes as
/// much as it can: the token after it cannot continue it.
pub open spec fn parsed(ts: Seq<Lexed>, level: nat, i: int, e: ExprS, j: int) -> bool
    decreases j - i, level, 1int,
{
    if !(0 <= i < j <= ts.len()) {
        false
    } else if level >= 11 {
        ||| parsed(ts, 10, i, e, j) && tok(ts, j) != Some(Token::Equal)
        ||| assigned(ts, i, e, j)
    } else if 5 <= level <= 10 {
        chain(ts, level, i, e, j) && level_op(ts, level, j) is None
    } else if level == 4 {
        match prefix_op(ts, i) {
            Some(op) => match e.0 {
                Expr::Prefix(p) => p.op == op && parsed(ts, 4, i + 1, p.rt, j) && e.1 == Span {
                    start: ts[i].0,
                    end: p.rt.1.end,
                },
                _ => false,
            },
            None => parsed(ts, 3, i, e, j),
        }
    } else if level == 3 {
        call_chain(ts, i, e, j) && tok(ts, j) != Some(Token::LtParen) && tok(ts, j) != Some(Token::Dot)
    } else if level == 2 {
        primary(ts, i, e, j)
    } else {
        false
    }
}

/// The assignment target `var`, spanning `sp`.
pub open spec fn var_target(var: Var, sp: Span) -> ExprS {
    (Expr::Var(ExprVar { var }), sp)
}

/// The assignment target `object.name`, spanning `sp`.
pub open spec fn get_target(object: ExprS, name: String, sp: Span) -> ExprS {
    (Expr::Get(Box::new(ExprGet { object, name })), sp)
}

/// The expression `e` with the span `sp`.
pub open spec fn with_span(e: Expr, sp: Span) -> ExprS {
    (e, sp)
}

/// The tokens `i..j` form an assignment `e`: a target, `=` and a value.
pub open spec fn assigned(ts: Seq<Lexed>, i: int, e: ExprS, j: int) -> bool
    decreases j - i, 11int, 0int,
{
    match e.0 {
        Expr::Assign(a) => exists|k: int, sp: Span|
            #![trigger tok(ts, k), var_target(a.var, sp)]
            i < k && k + 1 < j && tok(ts, k) == Some(Token::Equal) && parsed(ts, 10, i, var_target(a.var, sp), k)
                && parsed(ts, 11, k + 1, a.value, j) && e.1 == Span { start: sp.start, end: a.value.1.end },
        Expr::SetProperty(st) => exists|k: int, sp: Span|
            #![trigger tok(ts, k), get_target(st.object, st.name, sp)]
            i < k && k + 1 < j && tok(ts, k) == Some(Token::Equal) && parsed(
                ts,
                10,
                i,
                get_target(st.object, st.name, sp),
                k,
            ) && parsed(ts, 11, k + 1, st.value, j) && e.1 == Span { start: sp.start, end: st.value.1.end },
        _ => false,
    }
}

/// The tokens `i..j` form `e` at a binary level, before the check that it
/// cannot go on: an operand, or a shorter chain, an operator and an operand.
pub open spec fn chain(ts: Seq<Lexed>, level: nat, i: int, e: ExprS, j: int) -> bool
    decreases j - i, level, 0int,
{
    &&& level > 0
    &&& {
    ||| parsed(ts, (level - 1) as nat, i, e, j)
    ||| match e.0 {
        Expr::Infix(x) => exists|k: int|
            i < k && k + 1 < j && #[trigger] level_op(ts, level, k) == Some(x.op) && chain(ts, level, i, x.lt, k)
                && parsed(ts, (level - 1) as nat, k + 1, x.rt, j) && e.1 == Span { start: x.lt.1.start, end: x.rt.1.end },
        _ => false,
    }
    }
}

/// The tokens `i..j` form `e` as a primary expression followed by calls and
/// property reads, before the check that it cannot go on.
pub open spec fn call_chain(ts: Seq<Lexed>, i: int, e: ExprS, j: int) -> bool
    decreases j - i, 3int, 0int,
{
    ||| primary(ts, i, e, j)
    ||| match e.0 {
        Expr::Call(c) => exists|k: int|
            i < k && k + 1 < j && #[trigger] tok(ts, k) == Some(Token::LtParen) && tok(ts, j - 1) == Some(Token::RtParen)
                && call_chain(ts, i, c.callee, k) && args_parsed(ts, k + 1, c.args@, j - 1) && e.1 == Span {
                start: c.callee.1.start,
                end: ts[j - 1].2,
            },
        Expr::Get(g) => i < j - 2 && tok(ts, j - 2) == Some(Token::Dot) && tok(ts, j - 1) == Some(
            Token::Identifier(g.name),
        ) && call_chain(ts, i, g.object, j - 2) && e.1 == Span { start: g.object.1.start, end: ts[j - 1].2 },
        _ => false,
    }
}

/// The tokens `i..j` are the arguments of a call, separated by commas.
pub open spec fn args_parsed(ts: Seq<Lexed>, i: int, args: Seq<ExprS>, j: int) -> bool
    decreases j - i, 13int, 0int,
{
    if args.len() == 0 {
        i == j
    } else if args.len() == 1 {
        parsed(ts, 12, i, args[0], j)
    } else {
        exists|k: int|
            i < k && k + 1 < j && #[trigger] tok(ts, k) == Some(Token::Comma) && args_parsed(ts, i, args.drop_last(), k)
                && parsed(ts, 12, k + 1, args.last(), j)
    }
}

/// The tokens `i..j` form the primary expression `e`.
pub open spec fn primary(ts: Seq<Lexed>, i: int, e: ExprS, j: int) -> bool
    decreases j - i, 2int, 0int,
{
    match tok(ts, i) {
        Some(Token::True) => j == i + 1 && e == (Expr::Literal(ExprLiteral::Bool(true)), tspan(ts, i, j)),
        Some(Token::False) => j == i + 1 && e == (Expr::Literal(ExprLiteral::Bool(false)), tspan(ts, i, j)),
        Some(Token::Nil) => j == i + 1 && e == (Expr::Literal(ExprLiteral::Nil), tspan(ts, i, j)),
        Some(Token::Number(n)) => j == i + 1 && e == (Expr::Literal(ExprLiteral::Number(n)), tspan(ts, i, j)),
        Some(Token::String(t)) => j == i + 1 && e == (Expr::Literal(ExprLiteral::String(t)), tspan(ts, i, j)),
        Some(Token::Identifier(n)) => j == i + 1 && e == (
            Expr::Var(ExprVar { var: Var { name: n, depth: None } }),
            tspan(ts, i, j),
        ),
        Some(Token::This) => j == i + 1 && e.1 == tspan(ts, i, j) && match e.0 {
            Expr::Var(v) => v.var.name@ == "this"@ && v.var.depth is None,
            _ => false,
        },
        Some(Token::LtParen) => i + 2 < j && tok(ts, j - 1) == Some(Token::RtParen) && e.1 == tspan(ts, i, j) && exists|sp: Span|
            parsed(ts, 12, i + 1, #[trigger] with_span(e.0, sp), j - 1),
        Some(Token::Super) => j == i + 3 && tok(ts, i + 1) == Some(Token::Dot) && e.1 == tspan(ts, i, j) && match (
            tok(ts, i + 2),
            e.0,
        ) {
            (Some(Token::Identifier(n)), Expr::Super(sup)) => sup.name == n && sup.super_.name@ == "super"@
                && sup.super_.depth is None,
            _ => false,
        },
        _ => false,
    }
}

/// A chain, an operator of its level and an operand make a longer chain.
proof fn lemma_chain_step(
    ts: Seq<Lexed>,
    level: nat,
    i: int,
    lt: ExprS,
    k: int,
    op: OpInfix,
    rt: ExprS,
    j: int,
)
    requires
        level > 0,
        i < k,
        chain(ts, level, i, lt, k),
        level_op(ts, level, k) == Some(op),
        parsed(ts, (level - 1) as nat, k + 1, rt, j),
    ensures
        chain(
            ts,
            level,
            i,
            (Expr::Infix(Box::new(ExprInfix { lt, op, rt })), Span { start: lt.1.start, end: rt.1.end }),
            j,
        ),
{
    assert(k + 1 < j);
    assert(level_op(ts, level, k) == Some(op));
}

/// The token that `Parser::kind_is` tests for, by its number.
pub open spec fn kind_token(f: u8) -> Token {
    if f == 0 {
        Token::Class
    } else if f == 1 {
        Token::Fun
    } else if f == 2 {
        Token::Var
    } else if f == 3 {
        Token::For
    } else if f == 4 {
        Token::If
    } else if f == 5 {
        Token::Print
    } else if f == 6 {
        Token::Return
    } else if f == 7 {
        Token::While
    } else if f == 8 {
        Token::LtBrace
    } else if f == 9 {
        Token::RtBrace
    } else if f == 10 {
        Token::Semicolon
    } else if f == 11 {
        Token::RtParen
    } else {
        Token::Else
    }
}

/// The tokens `i..j` are the names `params`, separated by commas.
pub open spec fn params_parsed(ts: Seq<Lexed>, i: int, params: Seq<String>, j: int) -> bool
    decreases params.len(),
{
    if params.len() == 0 {
        i == j
    } else if params.len() == 1 {
        j == i + 1 && tok(ts, i) == Some(Token::Identifier(params[0]))
    } else {
        i < j - 2 && tok(ts, j - 1) == Some(Token::Identifier(params.last())) && tok(ts, j - 2) == Some(Token::Comma)
            && params_parsed(ts, i, params.drop_last(), j - 2)
    }
}

/// The tokens `i..k` are an optional expression, and token `k` is `t`.
pub open spec fn opt_until(ts: Seq<Lexed>, i: int, e: Option<ExprS>, k: int, t: Token) -> bool {
    &&& tok(ts, k) == Some(t)
    &&& match e {
        Some(x) => i < k && parsed(ts, 12, i, x, k),
        None => k == i,
    }
}

/// The tokens `i..j` are a variable declaration `s`, from `var` to `;`.
pub open spec fn var_parsed(ts: Seq<Lexed>, i: int, s: StmtS, j: int) -> bool {
    &&& 0 <= i < j <= ts.len()
    &&& tok(ts, i) == Some(Token::Var)
    &&& s.1 == tspan(ts, i, j)
    &&& tok(ts, j - 1) == Some(Token::Semicolon)
    &&& match s.0 {
        Stmt::Var(v) => tok(ts, i + 1) == Some(Token::Identifier(v.var.name)) && v.var.depth is None && match v.value {
            Some(e) => tok(ts, i + 2) == Some(Token::Equal) && i + 3 < j - 1 && parsed(ts, 12, i + 3, e, j - 1),
            None => j == i + 3,
        },
        _ => false,
    }
}

/// The tokens `i..a` are the initializer of a `for` loop, with its `;`.
pub open spec fn for_init_parsed(ts: Seq<Lexed>, i: int, init: Option<StmtS>, a: int) -> bool {
    match init {
        None => tok(ts, i) == Some(Token::Semicolon) && a == i + 1,
        Some(s) => if tok(ts, i) == Some(Token::Var) {
            var_parsed(ts, i, s, a)
        } else {
            &&& i < a - 1
            &&& tok(ts, a - 1) == Some(Token::Semicolon)
            &&& s.1 == tspan(ts, i, a)
            &&& match s.0 {
                Stmt::Expr(x) => parsed(ts, 12, i, x.value, a - 1),
                _ => false,
            }
        },
    }
}

/// The tokens `i..j` are the declarations `stmts`, one after another.
pub open spec fn decls_parsed(ts: Seq<Lexed>, i: int, stmts: Seq<StmtS>, j: int) -> bool
    decreases j - i, 6int,
{
    if stmts.len() == 0 {
        i == j
    } else {
        exists|k: int|
            i <= k < j && #[trigger] tok(ts, k) is Some && decls_parsed(ts, i, stmts.drop_last(), k) && decl_parsed(
                ts,
                k,
                stmts.last(),
                j,
            )
    }
}

/// The tokens `i..j` are the methods `ms` of a class body.
pub open spec fn methods_parsed(ts: Seq<Lexed>, i: int, ms: Seq<Spanned<StmtFun>>, j: int) -> bool
    decreases j - i, 5int,
{
    if ms.len() == 0 {
        i == j
    } else {
        exists|k: int|
            i <= k < j && #[trigger] tok(ts, k) is Some && methods_parsed(ts, i, ms.drop_last(), k) && fun_parsed(
                ts,
                k,
                ms.last().0,
                j,
            ) && ms.last().1 == tspan(ts, k, j)
    }
}

/// The tokens `i..j` form the declaration `s`: a class, a function, a
/// variable or a statement.
pub open spec fn decl_parsed(ts: Seq<Lexed>, i: int, s: StmtS, j: int) -> bool
    decreases j - i, 4int,
{
    if !(0 <= i < j <= ts.len()) {
        false
    } else if tok(ts, i) == Some(Token::Class) {
        class_parsed(ts, i, s, j)
    } else if tok(ts, i) == Some(Token::Fun) {
        s.1 == tspan(ts, i, j) && match s.0 {
            Stmt::Fun(f) => fun_parsed(ts, i + 1, f, j),
            _ => false,
        }
    } else if tok(ts, i) == Some(Token::Var) {
        var_parsed(ts, i, s, j)
    } else {
        stmt_parsed(ts, i, s, j)
    }
}

/// The tokens `i..j` form the class declaration `s`: `class`, its name,
/// optionally `<` and its superclass, and its methods between braces.
pub open spec fn class_parsed(ts: Seq<Lexed>, i: int, s: StmtS, j: int) -> bool
    decreases j - i, 3int,
{
    &&& 0 <= i < j <= ts.len()
    &&& s.1 == tspan(ts, i, j)
    &&& tok(ts, j - 1) == Some(Token::RtBrace)
    &&& match s.0 {
        Stmt::Class(c) => {
            &&& tok(ts, i + 1) == Some(Token::Identifier(c.name))
            &&& if tok(ts, i + 2) == Some(Token::Less) {
                &&& tok(ts, i + 4) == Some(Token::LtBrace)
                &&& i + 5 < j
                &&& match tok(ts, i + 3) {
                    Some(Token::Identifier(n)) => c.super_ == Some(
                        (Expr::Var(ExprVar { var: Var { name: n, depth: None } }), tspan(ts, i + 3, i + 4)),
                    ),
                    _ => false,
                }
                &&& methods_parsed(ts, i + 5, c.methods@, j - 1)
            } else {
                &&& tok(ts, i + 2) == Some(Token::LtBrace)
                &&& i + 3 < j
                &&& c.super_ is None
                &&& methods_parsed(ts, i + 3, c.methods@, j - 1)
            }
        },
        _ => false,
    }
}

/// The tokens `i..j` form the function `f` after `fun`, or a method: its
/// name, its parameters in parentheses and its body.
pub open spec fn fun_parsed(ts: Seq<Lexed>, i: int, f: StmtFun, j: int) -> bool
    decreases j - i, 1int,
{
    &&& tok(ts, i) == Some(Token::Identifier(f.name))
    &&& tok(ts, i + 1) == Some(Token::LtParen)
    &&& exists|k: int|
        i + 2 <= k && k + 1 < j && #[trigger] tok(ts, k) == Some(Token::RtParen) && params_parsed(ts, i + 2, f.params@, k)
            && block_parsed(ts, k + 1, f.body, j)
}

/// The tokens `i..j` form the block `b`: declarations between braces.
pub open spec fn block_parsed(ts: Seq<Lexed>, i: int, b: StmtBlock, j: int) -> bool
    decreases j - i, 0int,
{
    &&& 0 <= i < j - 1
    &&& j <= ts.len()
    &&& tok(ts, i) == Some(Token::LtBrace)
    &&& tok(ts, j - 1) == Some(Token::RtBrace)
    &&& decls_parsed(ts, i + 1, b.stmts@, j - 1)
}

/// The tokens `i..j` form the statement `s`.
pub open spec fn stmt_parsed(ts: Seq<Lexed>, i: int, s: StmtS, j: int) -> bool
    decreases j - i, 2int,
{
    if !(0 <= i < j <= ts.len()) {
        false
    } else {
        &&& s.1 == tspan(ts, i, j)
        &&& match (tok(ts, i), s.0) {
            (Some(Token::For), Stmt::For(f)) => tok(ts, i + 1) == Some(Token::LtParen) && exists|a: int, b: int, c: int|
                #![trigger tok(ts, a), tok(ts, b), tok(ts, c)]
                i + 2 < a <= b < c && c + 1 < j && for_init_parsed(ts, i + 2, f.init, a) && opt_until(
                    ts,
                    a,
                    f.cond,
                    b,
                    Token::Semicolon,
                ) && opt_until(ts, b + 1, f.incr, c, Token::RtParen) && stmt_parsed(ts, c + 1, f.body, j),
            (Some(Token::If), Stmt::If(x)) => {
                let StmtIf { cond, then, else_ } = *x;
                tok(ts, i + 1) == Some(Token::LtParen) && exists|a: int, b: int|
                    #![trigger tok(ts, a), tok(ts, b)]
                    i + 2 < a && a + 1 < b <= j && parsed(ts, 12, i + 2, cond, a) && tok(ts, a) == Some(Token::RtParen)
                        && stmt_parsed(ts, a + 1, then, b) && match else_ {
                        Some(e) => b < j && tok(ts, b) == Some(Token::Else) && stmt_parsed(ts, b + 1, e, j),
                        None => b == j && tok(ts, j) != Some(Token::Else),
                    }
            },
            (Some(Token::Print), Stmt::Print(p)) => i + 1 < j - 1 && tok(ts, j - 1) == Some(Token::Semicolon) && parsed(
                ts,
                12,
                i + 1,
                p.value,
                j - 1,
            ),
            (Some(Token::Return), Stmt::Return(x)) => tok(ts, j - 1) == Some(Token::Semicolon) && match x.value {
                Some(e) => i + 1 < j - 1 && parsed(ts, 12, i + 1, e, j - 1),
                None => j == i + 2,
            },
            (Some(Token::While), Stmt::While(w)) => tok(ts, i + 1) == Some(Token::LtParen) && exists|a: int|
                i + 2 < a && a + 1 < j && #[trigger] tok(ts, a) == Some(Token::RtParen) && parsed(ts, 12, i + 2, w.cond, a)
                    && stmt_parsed(ts, a + 1, w.body, j),
            (Some(Token::LtBrace), Stmt::Block(b)) => block_parsed(ts, i, b, j),
            (Some(t), Stmt::Expr(x)) => !(t is For || t is If || t is Print || t is Return || t is While || t is LtBrace)
                && i < j - 1 && tok(ts, j - 1) == Some(Token::Semicolon) && parsed(ts, 12, i, x.value, j - 1),
            _ => false,
        }
    }
}

/// The parse went forward over the same tokens.
pub open spec fn advanced(before: Parser, after: Parser) -> bool {
    &&& after.tokens@ == before.tokens@
    &&& after.eof == before.eof
    &&& before.pos <= after.pos <= after.tokens@.len()
}

pub open spec fn span_of(e: ExprS) -> Span {
    e.1
}

fn infix(lt: ExprS, op: OpInfix, rt: ExprS) -> (r: ExprS)
    ensures
        r == (Expr::Infix(Box::new(ExprInfix { lt, op, rt })), Span { start: lt.1.start, end: rt.1.end }),
{
    let span = Span { start: lt.1.start, end: rt.1.end };
    (Expr::Infix(Box::new(ExprInfix { lt, op, rt })), span)
}

impl Parser {
    pub fn expression(&mut self) -> (r: Result<ExprS, ErrorS>)
        requires
            old(self).wf(),
        ensures
            simple_at(old(self).tokens@, old(self).pos as int) ==> r is Ok && final(self).pos == old(self).pos + 1,
            !starts_expression(tok(old(self).tokens@, old(self).pos as int)) ==> fails_at(*old(self), r),
            advanced(*old(self), *final(self)),
            r is Ok ==> final(self).pos > old(self).pos,
            r matches Ok(e) ==> parsed(old(self).tokens@, 12, old(self).pos as int, e, final(self).pos as int),
        decreases old(self).remaining(), 12int,
    {
        self.assignment()
    }

    fn assignment(&mut self) -> (r: Result<ExprS, ErrorS>)
        requires
            old(self).wf(),
        ensures
            simple_at(old(self).tokens@, old(self).pos as int) ==> r is Ok && final(self).pos == old(self).pos + 1,
            !starts_expression(tok(old(self).tokens@, old(self).pos as int)) ==> fails_at(*old(self), r),
            advanced(*old(self), *final(self)),
            r is Ok ==> final(self).pos > old(self).pos,
            r matches Ok(e) ==> parsed(old(self).tokens@, 11, old(self).pos as int, e, final(self).pos as int),
        decreases old(self).remaining(), 11int,
    {
        let ghost ts = self.tokens@;
        let ghost i = self.pos as int;
        let lhs = self.logic_or()?;
        let eq_pos = self.pos;
        if !self.eat(&Token::Equal) {
            proof {
                assert(tok(ts, self.pos as int) != Some(Token::Equal));
                assert(parsed(ts, 11, i, lhs, self.pos as int));
            }
            return Ok(lhs);
        }
        let eq_span = Span { start: self.tokens[eq_pos].0, end: self.tokens[eq_pos].2 };
        let rhs = self.assignment()?;
        let span = Span { start: lhs.1.start, end: rhs.1.end };
        proof {
            assert(tok(ts, eq_pos as int) == Some(Token::Equal));
        }
        match lhs.0 {
            Expr::Var(v) => {
                proof {
                    assert(lhs == var_target(v.var, lhs.1));
                }
                let e = (Expr::Assign(Box::new(ExprAssign { var: v.var, value: rhs })), span);
                proof {
                    assert(assigned(ts, i, e, self.pos as int));
                }
                Ok(e)
            },
            Expr::Get(g) => {
                let g = *g;
                proof {
                    assert(lhs == get_target(g.object, g.name, lhs.1));
                }
                let ghost lhs_sp = lhs.1;
                let e = (Expr::SetProperty(Box::new(ExprSet { object: g.object, name: g.name, value: rhs })), span);
                proof {
                    assert(get_target(e.0->SetProperty_0.object, e.0->SetProperty_0.name, lhs_sp) == lhs);
                    assert(assigned(ts, i, e, self.pos as int));
                }
                Ok(e)
            },
            _ => Err((Error::SyntaxError(SyntaxError::UnrecognizedToken { token: owned("="), expected: Vec::new() }), eq_span)),
        }
    }

    fn logic_or(&mut self) -> (r: Result<ExprS, ErrorS>)
        requires
            old(self).wf(),
        ensures
            simple_at(old(self).tokens@, old(self).pos as int) ==> r is Ok && final(self).pos == old(self).pos + 1,
            !starts_expression(tok(old(self).tokens@, old(self).pos as int)) ==> fails_at(*old(self), r),
            advanced(*old(self), *final(self)),
            r is Ok ==> final(self).pos > old(self).pos,
            r matches Ok(e) ==> parsed(old(self).tokens@, 10, old(self).pos as int, e, final(self).pos as int),
        decreases old(self).remaining(), 10int,
    {
        let mut lt = self.logic_and()?;
        loop
            invariant
                advanced(*old(self), *self),
                self.pos > old(self).pos,
                chain(old(self).tokens@, 10, old(self).pos as int, lt, self.pos as int),
                simple_at(old(self).tokens@, old(self).pos as int) ==> self.pos == old(self).pos + 1,
                starts_expression(tok(old(self).tokens@, old(self).pos as int)),
            decreases self.tokens@.len() - self.pos,
        {
            let matched = match self.peek() {
                Some(Token::Or) => true,
                _ => false,
            };
            if !matched {
                return Ok(lt);
            }
            let ghost k = self.pos;
            self.advance();
            let rt = self.logic_and()?;
            let ghost lt0 = lt;
            lt = infix(lt, OpInfix::LogicOr, rt);
            proof {
                lemma_chain_step(old(self).tokens@, 10, old(self).pos as int, lt0, k as int, OpInfix::LogicOr, rt, self.pos as int);
            }
        }
    }

    fn logic_and(&mut self) -> (r: Result<ExprS, ErrorS>)
        requires
            old(self).wf(),
        ensures
            simple_at(old(self).tokens@, old(self).pos as int) ==> r is Ok && final(self).pos == old(self).pos + 1,
            !starts_expression(tok(old(self).tokens@, old(self).pos as int)) ==> fails_at(*old(self), r),
            advanced(*old(self), *final(self)),
            r is Ok ==> final(self).pos > old(self).pos,
            r matches Ok(e) ==> parsed(old(self).tokens@, 9, old(self).pos as int, e, final(self).pos as int),
        decreases old(self).remaining(), 9int,
    {
        let mut lt = self.equality()?;
        loop
            invariant
                advanced(*old(self), *self),
                self.pos > old(self).pos,
                chain(old(self).tokens@, 9, old(self).pos as int, lt, self.pos as int),
                simple_at(old(self).tokens@, old(self).pos as int) ==> self.pos == old(self).pos + 1,
                starts_expression(tok(old(self).tokens@, old(self).pos as int)),
            decreases self.tokens@.len() - self.pos,
        {
            let matched = match self.peek() {
                Some(Token::And) => true,
                _ => false,
            };
            if !matched {
                return Ok(lt);
            }
            let ghost k = self.pos;
            self.advance();
            let rt = self.equality()?;
            let ghost lt0 = lt;
            lt = infix(lt, OpInfix::LogicAnd, rt);
            proof {
                lemma_chain_step(old(self).tokens@, 9, old(self).pos as int, lt0, k as int, OpInfix::LogicAnd, rt, self.pos as int);
            }
        }
    }

    fn equality(&mut self) -> (r: Result<ExprS, ErrorS>)
        requires
            old(self).wf(),
        ensures
            simple_at(old(self).tokens@, old(self).pos as int) ==> r is Ok && final(self).pos == old(self).pos + 1,
            !starts_expression(tok(old(self).tokens@, old(self).pos as int)) ==> fails_at(*old(self), r),
            advanced(*old(self), *final(self)),
            r is Ok ==> final(self).pos > old(self).pos,
            r matches Ok(e) ==> parsed(old(self).tokens@, 8, old(self).pos as int, e, final(self).pos as int),
        decreases old(self).remaining(), 8int,
    {
        let mut lt = self.comparison()?;
        loop
            invariant
                advanced(*old(self), *self),
                self.pos > old(self).pos,
                chain(old(self).tokens@, 8, old(self).pos as int, lt, self.pos as int),
                simple_at(old(self).tokens@, old(self).pos as int) ==> self.pos == old(self).pos + 1,
                starts_expression(tok(old(self).tokens@, old(self).pos as int)),
            decreases self.tokens@.len() - self.pos,
        {
            let op = match self.peek() {
                Some(Token::EqualEqual) => OpInfix::Equal,
                Some(Token::BangEqual) => OpInfix::NotEqual,
                _ => {
                    return Ok(lt);
                },
            };
            let ghost k = self.pos;
            self.advance();
            let rt = self.comparison()?;
            let ghost lt0 = lt;
            lt = infix(lt, op, rt);
            proof {
                lemma_chain_step(old(self).tokens@, 8, old(self).pos as int, lt0, k as int, op, rt, self.pos as int);
            }
        }
    }

    fn comparison(&mut self) -> (r: Result<ExprS, ErrorS>)
        requires
            old(self).wf(),
        ensures
            simple_at(old(self).tokens@, old(self).pos as int) ==> r is Ok && final(self).pos == old(self).pos + 1,
            !starts_expression(tok(old(self).tokens@, old(self).pos as int)) ==> fails_at(*old(self), r),
            advanced(*old(self), *final(self)),
            r is Ok ==> final(self).pos > old(self).pos,
            r matches Ok(e) ==> parsed(old(self).tokens@, 7, old(self).pos as int, e, final(self).pos as int),
        decreases old(self).remaining(), 7int,
    {
        let mut lt = self.term()?;
        loop
            invariant
                advanced(*old(self), *self),
                self.pos > old(self).pos,
                chain(old(self).tokens@, 7, old(self).pos as int, lt, self.pos as int),
                simple_at(old(self).tokens@, old(self).pos as int) ==> self.pos == old(self).pos + 1,
                starts_expression(tok(old(self).tokens@, old(self).pos as int)),
            decreases self.tokens@.len() - self.pos,
        {
            let op = match self.peek() {
                Some(Token::Greater) => OpInfix::Greater,
                Some(Token::GreaterEqual) => OpInfix::GreaterEqual,
                Some(Token::Less) => OpInfix::Less,
                Some(Token::LessEqual) => OpInfix::LessEqual,
                _ => {
                    return Ok(lt);
                },
            };
            let ghost k = self.pos;
            self.advance();
            let rt = self.term()?;
            let ghost lt0 = lt;
            lt = infix(lt, op, rt);
            proof {
                lemma_chain_step(old(self).tokens@, 7, old(self).pos as int, lt0, k as int, op, rt, self.pos as int);
            }
        }
    }

    fn term(&mut self) -> (r: Result<ExprS, ErrorS>)
        requires
            old(self).wf(),
        ensures
            simple_at(old(self).tokens@, old(self).pos as int) ==> r is Ok && final(self).pos == old(self).pos + 1,
            !starts_expression(tok(old(self).tokens@, old(self).pos as int)) ==> fails_at(*old(self), r),
            advanced(*old(self), *final(self)),
            r is Ok ==> final(self).pos > old(self).pos,
            r matches Ok(e) ==> parsed(old(self).tokens@, 6, old(self).pos as int, e, final(self).pos as int),
        decreases old(self).remaining(), 6int,
    {
        let mut lt = self.factor()?;
        loop
            invariant
                advanced(*old(self), *self),
                self.pos > old(self).pos,
                chain(old(self).tokens@, 6, old(self).pos as int, lt, self.pos as int),
                simple_at(old(self).tokens@, old(self).pos as int) ==> self.pos == old(self).pos + 1,
                starts_expression(tok(old(self).tokens@, old(self).pos as int)),
            decreases self.tokens@.len() - self.pos,
        {
            let op = match self.peek() {
                Some(Token::Plus) => OpInfix::Add,
                Some(Token::Minus) => OpInfix::Subtract,
                _ => {
                    return Ok(lt);
                },
            };
            let ghost k = self.pos;
            self.advance();
            let rt = self.factor()?;
            let ghost lt0 = lt;
            lt = infix(lt, op, rt);
            proof {
                lemma_chain_step(old(self).tokens@, 6, old(self).pos as int, lt0, k as int, op, rt, self.pos as int);
            }
        }
    }

    fn factor(&mut self) -> (r: Result<ExprS, ErrorS>)
        requires
            old(self).wf(),
        ensures
            simple_at(old(self).tokens@, old(self).pos as int) ==> r is Ok && final(self).pos == old(self).pos + 1,
            !starts_expression(tok(old(self).tokens@, old(self).pos as int)) ==> fails_at(*old(self), r),
            advanced(*old(self), *final(self)),
            r is Ok ==> final(self).pos > old(self).pos,
            r matches Ok(e) ==> parsed(old(self).tokens@, 5, old(self).pos as int, e, final(self).pos as int),
        decreases old(self).remaining(), 5int,
    {
        let mut lt = self.unary()?;
        loop
            invariant
                advanced(*old(self), *self),
                self.pos > old(self).pos,
                chain(old(self).tokens@, 5, old(self).pos as int, lt, self.pos as int),
                simple_at(old(self).tokens@, old(self).pos as int) ==> self.pos == old(self).pos + 1,
                starts_expression(tok(old(self).tokens@, old(self).pos as int)),
            decreases self.tokens@.len() - self.pos,
        {
            let op = match self.peek() {
                Some(Token::Asterisk) => OpInfix::Multiply,
                Some(Token::Slash) => OpInfix::Divide,
                _ => {
                    return Ok(lt);
                },
            };
            let ghost k = self.pos;
            self.advance();
            let rt = self.unary()?;
            let ghost lt0 = lt;
            lt = infix(lt, op, rt);
            proof {
                lemma_chain_step(old(self).tokens@, 5, old(self).pos as int, lt0, k as int, op, rt, self.pos as int);
            }
        }
    }

    fn unary(&mut self) -> (r: Result<ExprS, ErrorS>)
        requires
            old(self).wf(),
        ensures
            simple_at(old(self).tokens@, old(self).pos as int) ==> r is Ok && final(self).pos == old(self).pos + 1,
            !starts_expression(tok(old(self).tokens@, old(self).pos as int)) ==> fails_at(*old(self), r),
            advanced(*old(self), *final(self)),
            r is Ok ==> final(self).pos > old(self).pos,
            r matches Ok(e) ==> parsed(old(self).tokens@, 4, old(self).pos as int, e, final(self).pos as int),
        decreases old(self).remaining(), 4int,
    {
        let op = match self.peek() {
            Some(Token::Bang) => OpPrefix::Not,
            Some(Token::Minus) => OpPrefix::Negate,
            _ => {
                return self.call();
            },
        };
        let start = self.tokens[self.pos].0;
        self.advance();
        let rt = self.unary()?;
        let span = Span { start, end: rt.1.end };
        Ok((Expr::Prefix(Box::new(ExprPrefix { op, rt })), span))
    }

    fn call(&mut self) -> (r: Result<ExprS, ErrorS>)
        requires
            old(self).wf(),
        ensures
            simple_at(old(self).tokens@, old(self).pos as int) ==> r is Ok && final(self).pos == old(self).pos + 1,
            !starts_primary(tok(old(self).tokens@, old(self).pos as int)) ==> fails_at(*old(self), r),
            advanced(*old(self), *final(self)),
            r is Ok ==> final(self).pos > old(self).pos,
            r matches Ok(e) ==> parsed(old(self).tokens@, 3, old(self).pos as int, e, final(self).pos as int),
        decreases old(self).remaining(), 3int,
    {
        let ghost ts = self.tokens@;
        let ghost i = self.pos as int;
        let mut callee = self.primary()?;
        loop
            invariant
                advanced(*old(self), *self),
                self.pos > old(self).pos,
                ts == old(self).tokens@,
                i == old(self).pos,
                call_chain(ts, i, callee, self.pos as int),
                simple_at(ts, i) ==> self.pos == i + 1,
                starts_primary(tok(ts, i)),
            decreases self.tokens@.len() - self.pos,
        {
            let ghost k = self.pos as int;
            if self.eat(&Token::LtParen) {
                proof {
                    assert(tok(ts, k) == Some(Token::LtParen));
                }
                let mut args: Vec<ExprS> = Vec::new();
                if !self.eat(&Token::RtParen) {
                    let mut more = true;
                    while more
                        invariant
                            advanced(*old(self), *self),
                            ts == old(self).tokens@,
                            k > old(self).pos,
                            self.pos > k,
                            i == old(self).pos,
                            !simple_at(ts, i),
                            starts_primary(tok(ts, i)),
                            more ==> (args@.len() == 0 && self.pos == k + 1) || (args@.len() > 0 && self.pos
                                > k + 2 && tok(ts, self.pos - 1) == Some(Token::Comma) && args_parsed(
                                ts,
                                k + 1,
                                args@,
                                self.pos - 1,
                            )),
                            !more ==> args@.len() > 0 && args_parsed(ts, k + 1, args@, self.pos as int),
                        decreases self.tokens@.len() - self.pos,
                    {
                        let ghost p = self.pos as int;
                        let ghost before = args@;
                        let arg = self.expression()?;
                        args.push(arg);
                        proof {
                            if before.len() > 0 {
                                assert(args@.drop_last() == before);
                                assert(tok(ts, p - 1) == Some(Token::Comma));
                            }
                        }
                        if !self.eat(&Token::Comma) {
                            more = false;
                        } else {
                            proof {
                                assert(tok(ts, self.pos - 1) == Some(Token::Comma));
                            }
                        }
                    }
                    self.expect(&Token::RtParen, ")")?;
                }
                let span = Span { start: callee.1.start, end: self.last_end() };
                proof {
                    assert(tok(ts, self.pos - 1) == Some(Token::RtParen));
                }
                let ghost args_seq = args@;
                callee = (Expr::Call(Box::new(ExprCall { callee, args })), span);
                proof {
                    assert(args_parsed(ts, k + 1, args_seq, self.pos - 1));
                    assert(call_chain(ts, i, callee, self.pos as int));
                }
            } else if self.eat(&Token::Dot) {
                proof {
                    assert(tok(ts, k) == Some(Token::Dot));
                }
                let name = self.identifier()?;
                let span = Span { start: callee.1.start, end: self.last_end() };
                callee = (Expr::Get(Box::new(ExprGet { object: callee, name })), span);
                proof {
                    assert(call_chain(ts, i, callee, self.pos as int));
                }
            } else {
                return Ok(callee);
            }
        }
    }

    fn primary(&mut self) -> (r: Result<ExprS, ErrorS>)
        requires
            old(self).wf(),
        ensures
            simple_at(old(self).tokens@, old(self).pos as int) ==> r is Ok && final(self).pos == old(self).pos + 1,
            !starts_primary(tok(old(self).tokens@, old(self).pos as int)) ==> fails_at(*old(self), r),
            advanced(*old(self), *final(self)),
            r is Ok ==> final(self).pos > old(self).pos,
            r matches Ok(e) ==> parsed(old(self).tokens@, 2, old(self).pos as int, e, final(self).pos as int),
        decreases old(self).remaining(), 2int,
    {
        if self.pos >= self.tokens.len() {
            return Err(self.unexpected(Vec::new()));
        }
        let start = self.tokens[self.pos].0;
        let end = self.tokens[self.pos].2;
        let span = Span { start, end };
        let ghost ts = self.tokens@;
        let ghost i = self.pos as int;
        let lit = match &self.tokens[self.pos].1 {
            Token::True => Some(Expr::Literal(ExprLiteral::Bool(true))),
            Token::False => Some(Expr::Literal(ExprLiteral::Bool(false))),
            Token::Nil => Some(Expr::Literal(ExprLiteral::Nil)),
            Token::Number(s) => Some(Expr::Literal(ExprLiteral::Number(s.clone()))),
            Token::String(s) => Some(Expr::Literal(ExprLiteral::String(s.clone()))),
            Token::Identifier(s) => Some(Expr::Var(ExprVar { var: Var { name: s.clone(), depth: None } })),
            Token::This => Some(Expr::Var(ExprVar { var: Var { name: owned("this"), depth: None } })),
            _ => None,
        };
        match lit {
            Some(e) => {
                self.advance();
                proof {
                    assert(tok(ts, i) == Some(ts[i].1));
                    assert(tspan(ts, i, i + 1) == span);
                    assert(primary(ts, i, (e, span), i + 1));
                }
                return Ok((e, span));
            },
            None => {},
        }
        let is_paren = match &self.tokens[self.pos].1 {
            Token::LtParen => true,
            _ => false,
        };
        if is_paren {
            self.advance();
            let ghost p1 = self.pos;
            let inner = self.expression()?;
            self.expect(&Token::RtParen, ")")?;
            let e = (inner.0, Span { start, end: self.last_end() });
            proof {
                assert(inner == with_span(e.0, inner.1));
                assert(tok(ts, self.pos - 1) == Some(Token::RtParen));
                assert(tok(ts, i) == Some(Token::LtParen));
                assert(primary(ts, i, e, self.pos as int));
            }
            return Ok(e);
        }
        let is_super = match &self.tokens[self.pos].1 {
            Token::Super => true,
            _ => false,
        };
        if is_super {
            self.advance();
            self.expect(&Token::Dot, ".")?;
            let name = self.identifier()?;
            let span = Span { start, end: self.last_end() };
            let ghost n = name;
            let e = (Expr::Super(ExprSuper { super_: Var { name: owned("super"), depth: None }, name }), span);
            proof {
                assert(tok(ts, i) == Some(Token::Super));
                assert(tok(ts, i + 1) == Some(Token::Dot));
                assert(tok(ts, i + 2) == Some(Token::Identifier(n)));
                assert(self.pos == i + 3);
                assert(e.1 == tspan(ts, i, i + 3));
                assert(primary(ts, i, e, self.pos as int));
            }
            return Ok(e);
        }
        Err(self.unexpected(Vec::new()))
    }
}

impl Parser {
    fn kind_is(&self, f: u8) -> (r: bool)
        requires
            self.wf(),
            f <= 12,
        ensures
            r ==> self.pos < self.tokens@.len(),
            r == (tok(self.tokens@, self.pos as int) == Some(kind_token(f))),
    {
        if self.pos >= self.tokens.len() {
            return false;
        }
        match (&self.tokens[self.pos].1, f) {
            (Token::Class, 0) => true,
            (Token::Fun, 1) => true,
            (Token::Var, 2) => true,
            (Token::For, 3) => true,
            (Token::If, 4) => true,
            (Token::Print, 5) => true,
            (Token::Return, 6) => true,
            (Token::While, 7) => true,
            (Token::LtBrace, 8) => true,
            (Token::RtBrace, 9) => true,
            (Token::Semicolon, 10) => true,
            (Token::RtParen, 11) => true,
            (Token::Else, 12) => true,
            _ => false,
        }
    }

    pub fn declaration(&mut self) -> (r: Result<StmtS, ErrorS>)
        requires
            old(self).wf(),
        ensures
            forall|j: int| #[trigger] short_stmt_at(old(self).tokens@, old(self).pos as int, j) ==> r is Ok && final(self).pos == j,
            forall|j: int| tok(old(self).tokens@, old(self).pos as int) == Some(Token::Var) && #[trigger] short_var_at(old(self).tokens@, old(self).pos as int + 1, j) ==> r is Ok && final(self).pos == j,
            advanced(*old(self), *final(self)),
            r is Ok ==> final(self).pos > old(self).pos,
            r matches Ok(s) ==> decl_parsed(old(self).tokens@, old(self).pos as int, s, final(self).pos as int),
        decreases old(self).remaining(), 40int,
    {
        let ghost ts = self.tokens@;
        let ghost i = self.pos as int;
        let start = self.next_start();
        if self.kind_is(0) {
            self.advance();
            let name = self.identifier()?;
            let mut super_ = None;
            if self.eat(&Token::Less) {
                let s0 = self.next_start();
                let sname = self.identifier()?;
                let s1 = self.last_end();
                proof {
                    assert(tok(ts, i + 2) == Some(Token::Less));
                }
                super_ = Some((Expr::Var(ExprVar { var: Var { name: sname, depth: None } }), Span { start: s0, end: s1 }));
            }
            self.expect(&Token::LtBrace, "{")?;
            let ghost m0 = self.pos as int;
            proof {
                assert(tok(ts, m0 - 1) == Some(Token::LtBrace));
                if tok(ts, i + 2) != Some(Token::Less) {
                    assert(m0 == i + 3);
                }
            }
            let mut methods: Vec<Spanned<StmtFun>> = Vec::new();
            let mut done = false;
            while !done
                invariant
                    advanced(*old(self), *self),
                    self.pos >= m0,
                    m0 > old(self).pos,
                    ts == old(self).tokens@,
                    i == old(self).pos,
                    tok(ts, i) == Some(Token::Class),
                    !done ==> methods_parsed(ts, m0, methods@, self.pos as int),
                    done ==> methods_parsed(ts, m0, methods@, self.pos - 1) && tok(ts, self.pos - 1) == Some(Token::RtBrace)
                        && self.pos - 1 >= m0,
                decreases self.tokens@.len() - self.pos,
            {
                if self.eat(&Token::RtBrace) {
                    proof {
                        assert(tok(ts, self.pos - 1) == Some(Token::RtBrace));
                    }
                    done = true;
                } else {
                    let ghost k = self.pos as int;
                    let ghost before = methods@;
                    let m_start = self.next_start();
                    let method = self.function()?;
                    let m_end = self.last_end();
                    methods.push((method, Span { start: m_start, end: m_end }));
                    proof {
                        assert(methods@.drop_last() == before);
                        assert(tok(ts, k) is Some);
                    }
                }
            }
            let span = Span { start, end: self.last_end() };
            return Ok((Stmt::Class(StmtClass { name, super_, methods }), span));
        }
        if self.kind_is(1) {
            self.advance();
            let fun = self.function()?;
            let span = Span { start, end: self.last_end() };
            return Ok((Stmt::Fun(fun), span));
        }
        if self.kind_is(2) {
            self.advance();
            return self.var_rest(start);
        }
        self.statement()
    }

    /// The rest of a variable declaration, after `var`.
    fn var_rest(&mut self, start: usize) -> (r: Result<StmtS, ErrorS>)
        requires
            old(self).wf(),
            old(self).pos > 0,
            tok(old(self).tokens@, old(self).pos - 1) == Some(Token::Var),
            start == old(self).tokens@[old(self).pos - 1].0,
        ensures
            forall|j: int| #[trigger] short_var_at(old(self).tokens@, old(self).pos as int, j) ==> r is Ok && final(self).pos == j,
            !(tok(old(self).tokens@, old(self).pos as int) is Some && tok(old(self).tokens@, old(self).pos as int)->Some_0 is Identifier) ==> fails_at(*old(self), r),
            advanced(*old(self), *final(self)),
            r is Ok ==> final(self).pos > old(self).pos,
            r matches Ok(s) ==> var_parsed(old(self).tokens@, old(self).pos - 1, s, final(self).pos as int),
        decreases old(self).remaining(), 38int,
    {
        let ghost ts = self.tokens@;
        let ghost i = self.pos - 1;
        let name = self.identifier()?;
        let mut value = None;
        if self.eat(&Token::Equal) {
            proof {
                assert(tok(ts, i + 2) == Some(Token::Equal));
            }
            value = Some(self.expression()?);
        }
        self.expect(&Token::Semicolon, ";")?;
        let span = Span { start, end: self.last_end() };
        proof {
            assert(tok(ts, self.pos - 1) == Some(Token::Semicolon));
        }
        Ok((Stmt::Var(StmtVar { var: Var { name, depth: None }, value }), span))
    }

    /// A function after `fun`, or a method: its name, parameters and body.
    fn function(&mut self) -> (r: Result<StmtFun, ErrorS>)
        requires
            old(self).wf(),
        ensures
            (tok(old(self).tokens@, old(self).pos as int) is Some && tok(old(self).tokens@, old(self).pos as int)->Some_0 is Identifier && tok(old(self).tokens@, old(self).pos as int + 1) == Some(Token::LtParen)
                && tok(old(self).tokens@, old(self).pos as int + 2) == Some(Token::RtParen) && empty_block_at(old(self).tokens@, old(self).pos as int + 3)) ==> r is Ok
                && r->Ok_0.params@.len() == 0 && final(self).pos == old(self).pos + 5,
            !(tok(old(self).tokens@, old(self).pos as int) is Some && tok(old(self).tokens@, old(self).pos as int)->Some_0 is Identifier) ==> fails_at(*old(self), r),
            advanced(*old(self), *final(self)),
            r is Ok ==> final(self).pos > old(self).pos,
            r matches Ok(f) ==> fun_parsed(old(self).tokens@, old(self).pos as int, f, final(self).pos as int),
        decreases old(self).remaining(), 38int,
    {
        let ghost ts = self.tokens@;
        let ghost i = self.pos as int;
        let name = self.identifier()?;
        self.expect(&Token::LtParen, "(")?;
        proof {
            assert(tok(ts, i + 1) == Some(Token::LtParen));
        }
        let mut params: Vec<String> = Vec::new();
        let ghost p2 = self.pos;
        if !self.eat(&Token::RtParen) {
            proof {
                assert(p2 == i + 2);
                assert(tok(ts, i + 2) != Some(Token::RtParen));
            }
            let mut more = true;
            while more
                invariant
                    advanced(*old(self), *self),
                    ts == old(self).tokens@,
                    i == old(self).pos,
                    self.pos >= i + 2,
                    tok(ts, i) is Some && tok(ts, i)->Some_0 is Identifier,
                    tok(ts, i + 2) != Some(Token::RtParen),
                    more ==> (params@.len() == 0 && self.pos == i + 2) || (params@.len() > 0 && self.pos > i + 3 && tok(
                        ts,
                        self.pos - 1,
                    ) == Some(Token::Comma) && params_parsed(ts, i + 2, params@, self.pos - 1)),
                    !more ==> params@.len() > 0 && params_parsed(ts, i + 2, params@, self.pos as int),
                decreases self.tokens@.len() - self.pos,
            {
                let ghost before = params@;
                let p = self.identifier()?;
                params.push(p);
                proof {
                    assert(params@.drop_last() == before);
                }
                if !self.eat(&Token::Comma) {
                    more = false;
                } else {
                    proof {
                        assert(tok(ts, self.pos - 1) == Some(Token::Comma));
                    }
                }
            }
            self.expect(&Token::RtParen, ")")?;
        }
        let k = self.pos - 1;
        proof {
            assert(tok(ts, k as int) == Some(Token::RtParen));
        }
        let body = self.block()?;
        Ok(StmtFun { name, params, body })
    }

    /// A block: declarations between braces.
    fn block(&mut self) -> (r: Result<StmtBlock, ErrorS>)
        requires
            old(self).wf(),
        ensures
            empty_block_at(old(self).tokens@, old(self).pos as int) ==> r is Ok && r->Ok_0.stmts@.len() == 0 && final(self).pos == old(self).pos + 2,
            tok(old(self).tokens@, old(self).pos as int) != Some(Token::LtBrace) ==> fails_at(*old(self), r),
            advanced(*old(self), *final(self)),
            r is Ok ==> final(self).pos > old(self).pos,
            r matches Ok(b) ==> block_parsed(old(self).tokens@, old(self).pos as int, b, final(self).pos as int),
        decreases old(self).remaining(), 37int,
    {
        let ghost ts = self.tokens@;
        let ghost i = self.pos as int;
        self.expect(&Token::LtBrace, "{")?;
        proof {
            assert(tok(ts, i) == Some(Token::LtBrace));
        }
        let mut stmts: Vec<StmtS> = Vec::new();
        let mut done = false;
        while !done
            invariant
                advanced(*old(self), *self),
                self.pos > old(self).pos,
                ts == old(self).tokens@,
                i == old(self).pos,
                !done ==> decls_parsed(ts, i + 1, stmts@, self.pos as int),
                done ==> decls_parsed(ts, i + 1, stmts@, self.pos - 1) && tok(ts, self.pos - 1) == Some(Token::RtBrace)
                    && self.pos - 1 >= i + 1,
                empty_block_at(ts, i) ==> stmts@.len() == 0 && self.pos == i + 1 + (if done { 1int } else { 0int }),
                tok(ts, i) == Some(Token::LtBrace),
            decreases self.tokens@.len() - self.pos,
        {
            if self.eat(&Token::RtBrace) {
                proof {
                    assert(tok(ts, self.pos - 1) == Some(Token::RtBrace));
                }
                done = true;
            } else {
                if self.at_end() {
                    return Err(self.unexpected(expected("}")));
                }
                let ghost k = self.pos as int;
                let ghost before = stmts@;
                let stmt = self.declaration()?;
                stmts.push(stmt);
                proof {
                    assert(stmts@.drop_last() == before);
                    assert(tok(ts, k) is Some);
                }
            }
        }
        Ok(StmtBlock { stmts })
    }

    fn statement(&mut self) -> (r: Result<StmtS, ErrorS>)
        requires
            old(self).wf(),
        ensures
            forall|j: int| #[trigger] short_stmt_at(old(self).tokens@, old(self).pos as int, j) ==> r is Ok && final(self).pos == j,
            advanced(*old(self), *final(self)),
            r is Ok ==> final(self).pos > old(self).pos,
            r matches Ok(s) ==> stmt_parsed(old(self).tokens@, old(self).pos as int, s, final(self).pos as int),
        decreases old(self).remaining(), 39int,
    {
        let ghost ts = self.tokens@;
        let ghost i = self.pos as int;
        let start = self.next_start();
        if self.kind_is(3) {
            self.advance();
            return self.for_rest(start);
        }
        if self.kind_is(4) {
            self.advance();
            return self.if_rest(start);
        }
        if self.kind_is(5) {
            self.advance();
            let value = self.expression()?;
            self.expect(&Token::Semicolon, ";")?;
            let span = Span { start, end: self.last_end() };
            proof {
                assert(tok(ts, self.pos - 1) == Some(Token::Semicolon));
            }
            return Ok((Stmt::Print(StmtPrint { value }), span));
        }
        if self.kind_is(6) {
            self.advance();
            let value = if self.kind_is(10) {
                None
            } else {
                Some(self.expression()?)
            };
            self.expect(&Token::Semicolon, ";")?;
            let span = Span { start, end: self.last_end() };
            proof {
                assert(tok(ts, self.pos - 1) == Some(Token::Semicolon));
            }
            return Ok((Stmt::Return(StmtReturn { value }), span));
        }
        if self.kind_is(7) {
            self.advance();
            self.expect(&Token::LtParen, "(")?;
            let cond = self.expression()?;
            let ghost a = self.pos as int;
            self.expect(&Token::RtParen, ")")?;
            proof {
                assert(tok(ts, i + 1) == Some(Token::LtParen));
                assert(tok(ts, a) == Some(Token::RtParen));
            }
            let body = self.statement()?;
            let span = Span { start, end: self.last_end() };
            return Ok((Stmt::While(Box::new(StmtWhile { cond, body })), span));
        }
        if self.kind_is(8) {
            let block = self.block()?;
            let span = Span { start, end: self.last_end() };
            return Ok((Stmt::Block(block), span));
        }
        let value = self.expression()?;
        self.expect(&Token::Semicolon, ";")?;
        let span = Span { start, end: self.last_end() };
        proof {
            assert(tok(ts, self.pos - 1) == Some(Token::Semicolon));
        }
        Ok((Stmt::Expr(StmtExpr { value }), span))
    }

    /// The rest of a `for` statement, after `for`.
    fn for_rest(&mut self, start: usize) -> (r: Result<StmtS, ErrorS>)
        requires
            old(self).wf(),
            old(self).pos > 0,
            tok(old(self).tokens@, old(self).pos - 1) == Some(Token::For),
            start == old(self).tokens@[old(self).pos - 1].0,
        ensures
            (tok(old(self).tokens@, old(self).pos as int) == Some(Token::LtParen) && tok(old(self).tokens@, old(self).pos as int + 1) == Some(Token::Semicolon) && tok(old(self).tokens@, old(self).pos as int + 2) == Some(
                Token::Semicolon,
            ) && tok(old(self).tokens@, old(self).pos as int + 3) == Some(Token::RtParen) && empty_block_at(old(self).tokens@, old(self).pos as int + 4)) ==> r is Ok && final(self).pos
                == old(self).pos + 6,
            tok(old(self).tokens@, old(self).pos as int) != Some(Token::LtParen) ==> fails_at(*old(self), r),
            advanced(*old(self), *final(self)),
            r is Ok ==> final(self).pos > old(self).pos,
            r matches Ok(s) ==> stmt_parsed(old(self).tokens@, old(self).pos - 1, s, final(self).pos as int),
        decreases old(self).remaining(), 39int,
    {
        let ghost ts = self.tokens@;
        let ghost i = self.pos - 1;
        self.expect(&Token::LtParen, "(")?;
        proof {
            assert(tok(ts, i + 1) == Some(Token::LtParen));
        }
        let init = if self.eat(&Token::Semicolon) {
            proof {
                assert(tok(ts, i + 2) == Some(Token::Semicolon));
            }
            None
        } else if self.kind_is(2) {
            let vstart = self.next_start();
            self.advance();
            Some(self.var_rest(vstart)?)
        } else {
            let estart = self.next_start();
            let e = self.expression()?;
            self.expect(&Token::Semicolon, ";")?;
            proof {
                assert(tok(ts, self.pos - 1) == Some(Token::Semicolon));
            }
            Some((Stmt::Expr(StmtExpr { value: e }), Span { start: estart, end: self.last_end() }))
        };
        let ghost a = self.pos as int;
        let cond = if self.kind_is(10) {
            None
        } else {
            Some(self.expression()?)
        };
        let ghost b = self.pos as int;
        self.expect(&Token::Semicolon, ";")?;
        proof {
            assert(tok(ts, b) == Some(Token::Semicolon));
        }
        let incr = if self.kind_is(11) {
            None
        } else {
            Some(self.expression()?)
        };
        let ghost c = self.pos as int;
        self.expect(&Token::RtParen, ")")?;
        proof {
            assert(tok(ts, c) == Some(Token::RtParen));
            assert(tok(ts, a) is Some);
            if empty_block_at(ts, c + 1) {
                assert(short_stmt_at(ts, c + 1, c + 3));
            }
        }
        let body = self.statement()?;
        let span = Span { start, end: self.last_end() };
        Ok((Stmt::For(Box::new(StmtFor { init, cond, incr, body })), span))
    }

    /// The rest of an `if` statement, after `if`.
    fn if_rest(&mut self, start: usize) -> (r: Result<StmtS, ErrorS>)
        requires
            old(self).wf(),
            old(self).pos > 0,
            tok(old(self).tokens@, old(self).pos - 1) == Some(Token::If),
            start == old(self).tokens@[old(self).pos - 1].0,
        ensures
            (tok(old(self).tokens@, old(self).pos as int) == Some(Token::LtParen) && simple_at(old(self).tokens@, old(self).pos as int + 1) && tok(old(self).tokens@, old(self).pos as int + 2) == Some(Token::RtParen)
                && empty_block_at(old(self).tokens@, old(self).pos as int + 3) && tok(old(self).tokens@, old(self).pos as int + 5) != Some(Token::Else)) ==> r is Ok && final(self).pos
                == old(self).pos + 5,
            tok(old(self).tokens@, old(self).pos as int) != Some(Token::LtParen) ==> fails_at(*old(self), r),
            advanced(*old(self), *final(self)),
            r is Ok ==> final(self).pos > old(self).pos,
            r matches Ok(s) ==> stmt_parsed(old(self).tokens@, old(self).pos - 1, s, final(self).pos as int),
        decreases old(self).remaining(), 39int,
    {
        let ghost ts = self.tokens@;
        let ghost i = self.pos - 1;
        self.expect(&Token::LtParen, "(")?;
        let cond = self.expression()?;
        let ghost a = self.pos as int;
        self.expect(&Token::RtParen, ")")?;
        proof {
            assert(tok(ts, i + 1) == Some(Token::LtParen));
            assert(tok(ts, a) == Some(Token::RtParen));
            if empty_block_at(ts, a + 1) {
                assert(short_stmt_at(ts, a + 1, a + 3));
            }
        }
        let then = self.statement()?;
        let ghost b = self.pos as int;
        let else_ = if self.kind_is(12) {
            self.advance();
            Some(self.statement()?)
        } else {
            None
        };
        proof {
            assert(tok(ts, b) == Some(kind_token(12)) || tok(ts, b) != Some(Token::Else));
        }
        let span = Span { start, end: self.last_end() };
        Ok((Stmt::If(Box::new(StmtIf { cond, then, else_ })), span))
    }

    /// Declarations up to the end of the tokens.
    pub fn program(&mut self) -> (r: Result<Program, ErrorS>)
        requires
            old(self).wf(),
        ensures
            old(self).pos == old(self).tokens@.len() ==> r is Ok && r->Ok_0.stmts@.len() == 0,
            advanced(*old(self), *final(self)),
            r is Ok ==> final(self).pos == final(self).tokens@.len(),
            r matches Ok(p) ==> decls_parsed(old(self).tokens@, old(self).pos as int, p.stmts@, final(self).pos as int),
    {
        let ghost ts = self.tokens@;
        let ghost i = self.pos as int;
        let mut stmts: Vec<StmtS> = Vec::new();
        while !self.at_end()
            invariant
                advanced(*old(self), *self),
                ts == old(self).tokens@,
                i == old(self).pos,
                decls_parsed(ts, i, stmts@, self.pos as int),
            decreases self.tokens@.len() - self.pos,
        {
            let ghost k = self.pos as int;
            let ghost before = stmts@;
            let stmt = self.declaration()?;
            stmts.push(stmt);
            proof {
                assert(stmts@.drop_last() == before);
                assert(tok(ts, k) is Some);
            }
        }
        Ok(Program { stmts })
    }
}

/// The tokens that lexing `cs` from position `i` on yields, each as its
/// start, kind and end; `None` where lexing meets an error first.
pub open spec fn tokens_from(cs: Seq<char>, i: int) -> Option<Seq<(int, TokenKind, int)>>
    decreases cs.len() - i,
{
    let s = skip_trivia(cs, i);
    if !(0 <= i <= s <= cs.len()) {
        None
    } else if s == cs.len() {
        Some(Seq::empty())
    } else {
        let k = raw_token(cs, s).0;
        let e = raw_token(cs, s).1;
        if k == TokenKind::Error || !(s < e <= cs.len()) {
            None
        } else {
            match tokens_from(cs, e) {
                Some(rest) => Some(seq![(s, k, e)] + rest),
                None => None,
            }
        }
    }
}

/// The operators that a character starts: alone, and followed by `=`.
pub open spec fn operator_kinds(c: char) -> Option<(TokenKind, TokenKind)> {
    if c == '>' {
        Some((TokenKind::Greater, TokenKind::GreaterEqual))
    } else if c == '<' {
        Some((TokenKind::Less, TokenKind::LessEqual))
    } else if c == '=' {
        Some((TokenKind::Equal, TokenKind::EqualEqual))
    } else if c == '!' {
        Some((TokenKind::Bang, TokenKind::BangEqual))
    } else {
        None
    }
}

/// Maximal munch: where a token starts with `>`, `<`, `=` or `!` and an `=`
/// follows, lexing yields the two-character operator over both characters,
/// then lexes on after them; otherwise the one-character operator, then the
/// rest.
pub proof fn lemma_operator_tokens(cs: Seq<char>, i: int)
    requires
        0 <= i < cs.len(),
        operator_kinds(cs[i]) is Some,
    ensures
        (i + 1 < cs.len() && cs[i + 1] == '=') ==> tokens_from(cs, i) == (match tokens_from(cs, i + 2) {
            Some(rest) => Some(seq![(i, operator_kinds(cs[i])->Some_0.1, i + 2)] + rest),
            None => None,
        }),
        !(i + 1 < cs.len() && cs[i + 1] == '=') ==> tokens_from(cs, i) == (match tokens_from(cs, i + 1) {
            Some(rest) => Some(seq![(i, operator_kinds(cs[i])->Some_0.0, i + 1)] + rest),
            None => None,
        }),
{
    assert(skip_trivia(cs, i) == i);
}

/// The token that a punctuation character makes on its own.
pub open spec fn punctuation_kind(c: char) -> Option<TokenKind> {
    if c == '(' {
        Some(TokenKind::LtParen)
    } else if c == ')' {
        Some(TokenKind::RtParen)
    } else if c == '{' {
        Some(TokenKind::LtBrace)
    } else if c == '}' {
        Some(TokenKind::RtBrace)
    } else if c == ',' {
        Some(TokenKind::Comma)
    } else if c == '.' {
        Some(TokenKind::Dot)
    } else if c == '-' {
        Some(TokenKind::Minus)
    } else if c == '+' {
        Some(TokenKind::Plus)
    } else if c == ';' {
        Some(TokenKind::Semicolon)
    } else if c == '*' {
        Some(TokenKind::Asterisk)
    } else {
        None
    }
}

/// A punctuation character is a token of one character, whatever follows
/// it; `/` is one too unless another `/` follows and starts a comment.
pub proof fn lemma_punctuation_tokens(cs: Seq<char>, i: int)
    requires
        0 <= i < cs.len(),
        punctuation_kind(cs[i]) is Some || (cs[i] == '/' && !(i + 1 < cs.len() && cs[i + 1] == '/')),
    ensures
        tokens_from(cs, i) == (match tokens_from(cs, i + 1) {
            Some(rest) => Some(
                seq![(i, if cs[i] == '/' { TokenKind::Slash } else { punctuation_kind(cs[i])->Some_0 }, i + 1)] + rest,
            ),
            None => None,
        }),
{
    assert(skip_trivia(cs, i) == i);
}

/// Whether the lexer's tokens are those of `expected`, one for one.
pub open spec fn tokens_match(cs: Seq<char>, tokens: Seq<Lexed>, expected: Seq<(int, TokenKind, int)>) -> bool {
    &&& tokens.len() == expected.len()
    &&& forall|j: int|
        0 <= j < tokens.len() ==> spanned_view(cs, expected[j].0, expected[j].1, expected[j].2, #[trigger] tokens[j])
}

/// Lexes the whole source: the tokens, or the first lexing error.
pub fn lex(source: &str) -> (r: Result<Vec<Lexed>, ErrorS>)
    ensures
        r is Err <==> tokens_from(source@, 0) is None,
        r matches Ok(tokens) ==> tokens_from(source@, 0) matches Some(expected) && tokens_match(
            source@,
            tokens@,
            expected,
        ),
        r matches Err(e) ==> !is_eof_error(e),
{
    let mut lexer = Lexer::new(source);
    let mut tokens: Vec<Lexed> = Vec::new();
    let ghost cs = source@;
    let ghost mut done: Seq<(int, TokenKind, int)> = Seq::empty();
    loop
        invariant
            lexer.wf(),
            lexer.text() == cs,
            cs == source@,
            lexer.pending_token() is None,
            tokens_match(cs, tokens@, done),
            tokens_from(cs, 0) == (match tokens_from(cs, lexer.position()) {
                Some(rest) => Some(done + rest),
                None => None,
            }),
        decreases lexer.chars@.len() - lexer.pos,
    {
        let ghost before = lexer;
        proof {
            lemma_skip_trivia(before.chars@, before.pos as int);
            let s = skip_trivia(before.chars@, before.pos as int);
            if s < before.chars@.len() {
                lemma_raw_token(before.chars@, s);
            }
        }
        match lexer.next() {
            None => {
                proof {
                    assert(done + Seq::<(int, TokenKind, int)>::empty() =~= done);
                }
                return Ok(tokens);
            },
            Some(Ok(t)) => {
                proof {
                    let s = skip_trivia(cs, before.pos as int);
                    let k = raw_token(cs, s).0;
                    let e = raw_token(cs, s).1;
                    let step = seq![(s, k, e)];
                    match tokens_from(cs, e) {
                        Some(rest) => {
                            assert(done + (step + rest) =~= done.push((s, k, e)) + rest);
                        },
                        None => {},
                    }
                    done = done.push((s, k, e));
                }
                tokens.push(t);
            },
            Some(Err(e)) => {
                return Err(e);
            },
        }
    }
}

/// The program `p` is what the grammar reads from the source's tokens.
pub open spec fn parses_to(source: Seq<char>, p: Program) -> bool {
    match tokens_from(source, 0) {
        Some(expected) => exists|tokens: Seq<Lexed>|
            #[trigger] tokens_match(source, tokens, expected) && decls_parsed(tokens, 0, p.stmts@, tokens.len() as int),
        None => false,
    }
}

/// Parses a whole source text. The errors are those of lexing and parsing;
/// the first one ends the parse, so an `Err` holds exactly one.
pub fn parse(source: &str) -> (r: Result<Program, Vec<ErrorS>>)
    ensures
        r matches Err(errs) ==> errs@.len() == 1,
        r matches Ok(p) ==> parses_to(source@, p),
        tokens_from(source@, 0) is None ==> r is Err,
        tokens_from(source@, 0) == Some(Seq::<(int, TokenKind, int)>::empty()) ==> r is Ok,
        r matches Err(errs) ==> (tokens_from(source@, 0) is None ==> !is_eof_error(errs@[0])),
{
    let tokens = match lex(source) {
        Ok(tokens) => tokens,
        Err(e) => {
            let mut errs = Vec::new();
            errs.push(e);
            return Err(errs);
        },
    };
    let eof = if tokens.len() > 0 {
        tokens[tokens.len() - 1].2
    } else {
        0
    };
    let ghost ts = tokens@;
    let mut parser = Parser { tokens, pos: 0, eof };
    match parser.program() {
        Ok(program) => {
            proof {
                assert(tokens_match(source@, ts, tokens_from(source@, 0)->Some_0));
            }
            Ok(program)
        },
        Err(e) => {
            let mut errs = Vec::new();
            errs.push(e);
            Err(errs)
        },
    }
}

pub open spec fn is_eof_error(e: ErrorS) -> bool {
    e.0 matches Error::SyntaxError(SyntaxError::UnrecognizedEOF { .. })
}

/// Whether the source could be a whole program: false when its text stops
/// where the grammar expects more, such as inside an open block.
pub fn is_complete(source: &str) -> (r: bool)
    ensures
        tokens_from(source@, 0) is None ==> r,
        tokens_from(source@, 0) == Some(Seq::<(int, TokenKind, int)>::empty()) ==> r,
{
    match parse(source) {
        Ok(_) => true,
        Err(errs) => {
            let mut i: usize = 0;
            while i < errs.len()
                invariant
                    i <= errs@.len(),
                    forall|j: int| 0 <= j < i ==> !is_eof_error(#[trigger] errs@[j]),
                    errs@.len() == 1,
                    tokens_from(source@, 0) is None ==> !is_eof_error(errs@[0]),
                    tokens_from(source@, 0) != Some(Seq::<(int, TokenKind, int)>::empty()),
                decreases errs@.len() - i,
            {
                let eof = match &errs[i].0 {
                    Error::SyntaxError(SyntaxError::UnrecognizedEOF { .. }) => true,
                    _ => false,
                };
                if eof {
                    return false;
                }
                i = i + 1;
            }
            true
        },
    }
}

} // verus!
