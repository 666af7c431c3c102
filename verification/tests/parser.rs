use loxcraft::ast::{Expr, ExprLiteral, OpInfix, Stmt};
use loxcraft::error::{Error, SyntaxError};
use loxcraft::parser::{is_complete, parse};

#[test]
fn parses_precedence() {
    let program = parse("print 1 + 2 * 3;").unwrap();
    assert_eq!(program.stmts.len(), 1);
    match &program.stmts[0].0 {
        Stmt::Print(p) => match &p.value.0 {
            Expr::Infix(i) => {
                assert_eq!(i.op, OpInfix::Add);
                assert_eq!(i.lt.0, Expr::Literal(ExprLiteral::Number("1".to_string())));
                match &i.rt.0 {
                    Expr::Infix(r) => assert_eq!(r.op, OpInfix::Multiply),
                    other => panic!("unexpected {:?}", other),
                }
            }
            other => panic!("unexpected {:?}", other),
        },
        other => panic!("unexpected {:?}", other),
    }
}

#[test]
fn reports_unexpected_end_of_input() {
    let errs = parse("print 1").unwrap_err();
    assert_eq!(errs.len(), 1);
    assert!(matches!(errs[0].0, Error::SyntaxError(SyntaxError::UnrecognizedEOF { .. })));
}

#[test]
fn reports_unrecognized_token() {
    let errs = parse("print );").unwrap_err();
    assert!(matches!(&errs[0].0, Error::SyntaxError(SyntaxError::UnrecognizedToken { token, .. }) if token == ")"));
}

#[test]
fn incomplete_source_waits_for_more() {
    assert!(!is_complete("fun f() {"));
    assert!(is_complete("print 1;"));
    assert!(is_complete("print );"));
}

#[test]
fn empty_and_unlexable_sources_are_complete() {
    assert!(is_complete(""));
    assert!(is_complete("  // only a comment"));
    assert!(is_complete("\"open string"));
    assert!(parse("").unwrap().stmts.is_empty());
}

#[test]
fn unexpected_token_is_reported_with_its_text() {
    let errs = parse("var 1;").unwrap_err();
    assert_eq!(errs.len(), 1);
    match &errs[0].0 {
        Error::SyntaxError(SyntaxError::UnrecognizedToken { token, .. }) => assert_eq!(token, "1"),
        e => panic!("unexpected error {:?}", e),
    }
}
