//! Errors reported by the lexer, parser, resolver, compiler and virtual
//! machine, each paired with the span of source text that it concerns.
use vstd::prelude::*;

verus! {

/// A range of byte offsets into the source text, `start` included and `end`
/// excluded.
#[derive(Clone, Copy, PartialEq, Eq, Structural, Debug)]
pub struct Span {
    pub start: usize,
    pub end: usize,
}

impl Span {
    pub fn new(start: usize, end: usize) -> (s: Span)
        ensures
            s.start == start,
            s.end == end,
    {
        Span { start, end }
    }
}

/// The empty span at the start of the source, for code the compiler adds on
/// its own.
pub fn no_span() -> (s: Span)
    ensures
        s.start == 0,
        s.end == 0,
{
    Span { start: 0, end: 0 }
}

#[derive(Debug, PartialEq, Eq)]
pub enum Error {
    AttributeError(AttributeError),
    IoError(IoError),
    NameError(NameError),
    OverflowError(OverflowError),
    SyntaxError(SyntaxError),
    TypeError(TypeError),
}

/// An error together with the span of source text it concerns.
pub type ErrorS = (Error, Span);

#[derive(Debug, PartialEq, Eq)]
pub enum AttributeError {
    NoSuchAttribute { type_: String, name: String },
}

#[derive(Debug, PartialEq, Eq)]
pub enum IoError {
    WriteError { file: String },
}

#[derive(Debug, PartialEq, Eq)]
pub enum NameError {
    AccessInsideInitializer { name: String },
    AlreadyDefined { name: String },
    ClassInheritFromSelf { name: String },
    NotDefined { name: String },
}

#[derive(Debug, PartialEq, Eq)]
pub enum OverflowError {
    JumpTooLarge,
    /// The heap holds as many objects as it can index.
    OutOfMemory,
    StackOverflow,
    TooManyArgs,
    TooManyConstants,
    TooManyLocals,
    TooManyParams,
    TooManyUpvalues,
}

#[derive(Debug, PartialEq, Eq)]
pub enum SyntaxError {
    ExtraToken { token: String },
    InvalidToken,
    UnexpectedInput { token: String },
    UnrecognizedEOF { expected: Vec<String> },
    UnrecognizedToken { token: String, expected: Vec<String> },
    UnterminatedString,
    ReturnInInitializer,
    ReturnOutsideFunction,
    SuperOutsideClass,
    SuperWithoutSuperclass,
    ThisOutsideClass,
}

#[derive(Debug, PartialEq, Eq)]
pub enum TypeError {
    ArityMismatch { name: String, exp_args: usize, got_args: usize },
    InitInvalidReturnType { type_: String },
    NotCallable { type_: String },
    SuperclassInvalidType { type_: String },
    UnsupportedOperandPrefix { op: String, rt_type: String },
    UnsupportedOperandInfix { op: String, lt_type: String, rt_type: String },
}

/// The text `", "`.
pub open spec fn comma_sep() -> Seq<char> {
    seq![',', ' ']
}

/// Every token but the last, each followed by `", "`.
pub open spec fn comma_prefix(tokens: Seq<Seq<char>>) -> Seq<char>
    decreases tokens.len(),
{
    if tokens.len() == 0 {
        Seq::empty()
    } else {
        comma_prefix(tokens.drop_last()) + tokens.last() + comma_sep()
    }
}

/// A list of alternatives in prose: `"nothing"` for none, the token itself for
/// one, and `"a, b, or c"` for more.
pub open spec fn one_of_spec(tokens: Seq<Seq<char>>) -> Seq<char> {
    if tokens.len() == 0 {
        seq!['n', 'o', 't', 'h', 'i', 'n', 'g']
    } else if tokens.len() == 1 {
        tokens[0]
    } else {
        comma_prefix(tokens.drop_last()) + seq!['o', 'r', ' '] + tokens.last()
    }
}

pub open spec fn strings_view(tokens: Seq<String>) -> Seq<Seq<char>> {
    tokens.map_values(|t: String| t@)
}

/// Describes a list of expected tokens in prose, as the notes of syntax
/// errors show it.
pub fn one_of(tokens: &[String]) -> (r: String)
    ensures
        r@ == one_of_spec(strings_view(tokens@)),
{
    let n = tokens.len();
    if n == 0 {
        let r = String::from_str("nothing");
        proof {
            reveal_strlit("nothing");
        }
        return r;
    }
    if n == 1 {
        return tokens[0].clone();
    }
    let ghost views = strings_view(tokens@);
    let mut output = String::new();
    let mut i: usize = 0;
    proof {
        reveal_strlit(", ");
        reveal_strlit("or ");
        assert(views.take(0) =~= Seq::<Seq<char>>::empty());
    }
    while i < n - 1
        invariant
            n == tokens@.len(),
            n >= 2,
            i <= n - 1,
            views == strings_view(tokens@),
            output@ == comma_prefix(views.take(i as int)),
            ", "@ == comma_sep(),
        decreases n - 1 - i,
    {
        output.append(tokens[i].as_str());
        output.append(", ");
        proof {
            assert(views.take(i + 1).drop_last() =~= views.take(i as int));
        }
        i = i + 1;
    }
    output.append("or ");
    output.append(tokens[n - 1].as_str());
    proof {
        assert(views.take((n - 1) as int) =~= views.drop_last());
    }
    output
}

} // verus!
