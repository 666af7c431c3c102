//! The syntax tree of a Lox program.
//!
//! Number literals hold their text as written in the source; the compiler
//! asks for the double it denotes.
use vstd::prelude::*;

use crate::error::Span;

verus! {

pub type Spanned<T> = (T, Span);

pub type StmtS = Spanned<Stmt>;

pub type ExprS = Spanned<Expr>;

#[derive(Debug, PartialEq)]
pub struct Program {
    pub stmts: Vec<StmtS>,
}

impl Program {
    /// The program with no statements.
    pub fn empty() -> (p: Program)
        ensures
            p.stmts@.len() == 0,
    {
        Program { stmts: Vec::new() }
    }
}

#[derive(Debug, PartialEq)]
pub enum Stmt {
    Block(StmtBlock),
    Class(StmtClass),
    Expr(StmtExpr),
    For(Box<StmtFor>),
    Fun(StmtFun),
    If(Box<StmtIf>),
    Print(StmtPrint),
    Return(StmtReturn),
    Var(StmtVar),
    While(Box<StmtWhile>),
    Error,
}

#[derive(Debug, PartialEq)]
pub struct StmtBlock {
    pub stmts: Vec<StmtS>,
}

#[derive(Debug, PartialEq)]
pub struct StmtClass {
    pub name: String,
    pub super_: Option<ExprS>,
    pub methods: Vec<Spanned<StmtFun>>,
}

/// An expression statement evaluates an expression and discards the result.
#[derive(Debug, PartialEq)]
pub struct StmtExpr {
    pub value: ExprS,
}

#[derive(Debug, PartialEq)]
pub struct StmtFor {
    pub init: Option<StmtS>,
    pub cond: Option<ExprS>,
    pub incr: Option<ExprS>,
    pub body: StmtS,
}

#[derive(Debug, PartialEq)]
pub struct StmtFun {
    pub name: String,
    pub params: Vec<String>,
    pub body: StmtBlock,
}

#[derive(Debug, PartialEq)]
pub struct StmtIf {
    pub cond: ExprS,
    pub then: StmtS,
    pub else_: Option<StmtS>,
}

#[derive(Debug, PartialEq)]
pub struct StmtPrint {
    pub value: ExprS,
}

#[derive(Debug, PartialEq)]
pub struct StmtReturn {
    pub value: Option<ExprS>,
}

#[derive(Debug, PartialEq)]
pub struct StmtVar {
    pub var: Var,
    pub value: Option<ExprS>,
}

#[derive(Debug, PartialEq)]
pub struct StmtWhile {
    pub cond: ExprS,
    pub body: StmtS,
}

#[derive(Debug, PartialEq)]
pub enum Expr {
    Assign(Box<ExprAssign>),
    Call(Box<ExprCall>),
    Get(Box<ExprGet>),
    Literal(ExprLiteral),
    Infix(Box<ExprInfix>),
    Prefix(Box<ExprPrefix>),
    SetProperty(Box<ExprSet>),
    Super(ExprSuper),
    Var(ExprVar),
}

#[derive(Debug, PartialEq)]
pub struct ExprAssign {
    pub var: Var,
    pub value: ExprS,
}

#[derive(Debug, PartialEq)]
pub struct ExprCall {
    pub callee: ExprS,
    pub args: Vec<ExprS>,
}

#[derive(Debug, PartialEq)]
pub struct ExprGet {
    pub object: ExprS,
    pub name: String,
}

#[derive(Debug, PartialEq)]
pub enum ExprLiteral {
    Nil,
    Bool(bool),
    /// The text of the literal, as written in the source.
    Number(String),
    String(String),
}

#[derive(Debug, PartialEq)]
pub struct ExprInfix {
    pub lt: ExprS,
    pub op: OpInfix,
    pub rt: ExprS,
}

#[derive(Debug, Clone, Copy, PartialEq, Eq, Structural)]
pub enum OpInfix {
    /// Short-circuiting logical OR.
    LogicOr,
    /// Short-circuiting logical AND.
    LogicAnd,
    Equal,
    NotEqual,
    Greater,
    GreaterEqual,
    Less,
    LessEqual,
    Add,
    Subtract,
    Multiply,
    Divide,
}

/// The source text of an infix operator.
pub open spec fn infix_text(op: OpInfix) -> Seq<char> {
    match op {
        OpInfix::Add => seq!['+'],
        OpInfix::Subtract => seq!['-'],
        OpInfix::Multiply => seq!['*'],
        OpInfix::Divide => seq!['/'],
        OpInfix::Less => seq!['<'],
        OpInfix::LessEqual => seq!['<', '='],
        OpInfix::Greater => seq!['>'],
        OpInfix::GreaterEqual => seq!['>', '='],
        OpInfix::Equal => seq!['=', '='],
        OpInfix::NotEqual => seq!['!', '='],
        OpInfix::LogicAnd => seq!['a', 'n', 'd'],
        OpInfix::LogicOr => seq!['o', 'r'],
    }
}

impl OpInfix {
    /// The operator as it is written in source text.
    pub fn as_str(&self) -> (s: &'static str)
        ensures
            s@ == infix_text(*self),
    {
        proof {
            reveal_strlit("+");
            reveal_strlit("-");
            reveal_strlit("*");
            reveal_strlit("/");
            reveal_strlit("<");
            reveal_strlit("<=");
            reveal_strlit(">");
            reveal_strlit(">=");
            reveal_strlit("==");
            reveal_strlit("!=");
            reveal_strlit("and");
            reveal_strlit("or");
        }
        match self {
            OpInfix::Add => "+",
            OpInfix::Subtract => "-",
            OpInfix::Multiply => "*",
            OpInfix::Divide => "/",
            OpInfix::Less => "<",
            OpInfix::LessEqual => "<=",
            OpInfix::Greater => ">",
            OpInfix::GreaterEqual => ">=",
            OpInfix::Equal => "==",
            OpInfix::NotEqual => "!=",
            OpInfix::LogicAnd => "and",
            OpInfix::LogicOr => "or",
        }
    }
}

#[derive(Debug, PartialEq)]
pub struct ExprPrefix {
    pub op: OpPrefix,
    pub rt: ExprS,
}

#[derive(Debug, Clone, Copy, PartialEq, Eq, Structural)]
pub enum OpPrefix {
    Negate,
    Not,
}

/// The source text of a prefix operator.
pub open spec fn prefix_text(op: OpPrefix) -> Seq<char> {
    match op {
        OpPrefix::Negate => seq!['-'],
        OpPrefix::Not => seq!['!'],
    }
}

impl OpPrefix {
    /// The operator as it is written in source text.
    pub fn as_str(&self) -> (s: &'static str)
        ensures
            s@ == prefix_text(*self),
    {
        proof {
            reveal_strlit("-");
            reveal_strlit("!");
        }
        match self {
            OpPrefix::Negate => "-",
            OpPrefix::Not => "!",
        }
    }
}

#[derive(Debug, PartialEq)]
pub struct ExprSet {
    pub object: ExprS,
    pub name: String,
    pub value: ExprS,
}

#[derive(Debug, PartialEq)]
pub struct ExprSuper {
    pub super_: Var,
    pub name: String,
}

#[derive(Debug, PartialEq, Eq)]
pub struct ExprVar {
    pub var: Var,
}

#[derive(Debug, PartialEq, Eq)]
pub struct Var {
    pub name: String,
    /// This field is initialized as [`None`] by the parser, and is later filled
    /// by the resolver.
    pub depth: Option<usize>,
}

} // verus!
