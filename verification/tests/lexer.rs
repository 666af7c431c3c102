use loxcraft::error::{Error, Span, SyntaxError};
use loxcraft::lexer::{Lexer, Token};

fn collect(source: &str) -> Vec<Result<(usize, Token, usize), (Error, Span)>> {
    let mut lexer = Lexer::new(source);
    let mut out = Vec::new();
    while let Some(t) = lexer.next() {
        out.push(t);
    }
    out
}

#[test]
fn lex_invalid_token() {
    let exp = vec![
        Err((
            Error::SyntaxError(SyntaxError::UnexpectedInput { token: "@foo".to_string() }),
            Span::new(0, 4),
        )),
        Ok((5, Token::Identifier("bar".to_string()), 8)),
    ];
    let got = collect("@foo bar");
    assert_eq!(exp, got);
}

#[test]
fn lex_unterminated_string() {
    let exp = vec![Err((Error::SyntaxError(SyntaxError::UnterminatedString), Span::new(0, 5)))];
    let got = collect("\"\nfoo");
    assert_eq!(exp, got);
}

#[test]
fn lex_tokens_with_spans() {
    let got = collect("var x = 1.5; // note\nprint x;");
    let exp = vec![
        Ok((0, Token::Var, 3)),
        Ok((4, Token::Identifier("x".to_string()), 5)),
        Ok((6, Token::Equal, 7)),
        Ok((8, Token::Number("1.5".to_string()), 11)),
        Ok((11, Token::Semicolon, 12)),
        Ok((21, Token::Print, 26)),
        Ok((27, Token::Identifier("x".to_string()), 28)),
        Ok((28, Token::Semicolon, 29)),
    ];
    assert_eq!(exp, got);
}

#[test]
fn lex_two_char_operators_and_strings() {
    let got = collect("a <= \"hi\" != b");
    let exp = vec![
        Ok((0, Token::Identifier("a".to_string()), 1)),
        Ok((2, Token::LessEqual, 4)),
        Ok((5, Token::String("hi".to_string()), 9)),
        Ok((10, Token::BangEqual, 12)),
        Ok((13, Token::Identifier("b".to_string()), 14)),
    ];
    assert_eq!(exp, got);
}

#[test]
fn lex_multibyte_spans_are_in_bytes() {
    let got = collect("\"é\" x");
    let exp = vec![
        Ok((0, Token::String("é".to_string()), 4)),
        Ok((5, Token::Identifier("x".to_string()), 6)),
    ];
    assert_eq!(exp, got);
}
