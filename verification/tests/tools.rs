use loxcraft::allocator::Allocator;
use loxcraft::ast::{Expr, Stmt};
use loxcraft::chunk::Chunk;
use loxcraft::debug::{op_name, pad_left_exec, pad_right_exec, to_decimal};
use loxcraft::error::{no_span, one_of, Error, NameError, OverflowError, Span};
use loxcraft::gc::{Gc, InternState};
use loxcraft::html::{escape, Color, ColorSpec, HtmlWriter, Theme};
use loxcraft::op;
use loxcraft::parser::parse;
use loxcraft::playground::{guess_mime, mime_for_extension};
use loxcraft::resolver::resolve;
use loxcraft::value::Value;

fn plain() -> ColorSpec {
    ColorSpec { fg: None, bg: None, bold: false, dimmed: false, italic: false, underline: false, reset: false }
}

#[test]
fn html_set_color_opens_a_span_with_classes() {
    let mut w = HtmlWriter::new();
    let spec = ColorSpec { fg: Some(Color::Red), bold: true, ..plain() };
    assert_eq!(w.set_color(&spec), "<span class=\"text-danger fw-bold\">");
    assert_eq!(w.span_count, 1);
    let spec = ColorSpec { bg: Some(Color::Blue), underline: true, ..plain() };
    assert_eq!(w.set_color(&spec), "<span class=\"bg-primary text-decoration-underline\">");
    assert_eq!(w.span_count, 2);
}

#[test]
fn html_set_color_without_classes_opens_nothing() {
    let mut w = HtmlWriter::new();
    let spec = ColorSpec { fg: Some(Color::Cyan), ..plain() };
    assert_eq!(w.set_color(&spec), "");
    assert_eq!(w.span_count, 0);
}

#[test]
fn html_reset_closes_every_span() {
    let mut w = HtmlWriter::new();
    let spec = ColorSpec { italic: true, dimmed: true, ..plain() };
    assert_eq!(w.set_color(&spec), "<span class=\"opacity-75 fst-italic\">");
    assert_eq!(w.set_color(&spec), "<span class=\"opacity-75 fst-italic\">");
    let reset = ColorSpec { fg: Some(Color::Green), reset: true, ..plain() };
    assert_eq!(w.set_color(&reset), "</span></span><span class=\"text-success\">");
    assert_eq!(w.reset(), "</span>");
    assert_eq!(w.span_count, 0);
    assert_eq!(w.reset(), "");
}

#[test]
fn html_tailwind_theme_classes() {
    let mut w = HtmlWriter::with_theme(Theme::Tailwind);
    let spec = ColorSpec { fg: Some(Color::Cyan), bg: Some(Color::Yellow), bold: true, ..plain() };
    assert_eq!(w.set_color(&spec), "<span class=\"text-zinc-50 bg-amber-300 font-bold\">");
    let spec = ColorSpec { fg: Some(Color::Red), dimmed: true, italic: true, underline: true, reset: true, ..plain() };
    assert_eq!(w.set_color(&spec), "</span><span class=\"text-red-500 text-opacity-75 italic underline\">");
    assert_eq!(w.span_count, 1);
    assert_eq!(w.theme, Theme::Tailwind);
}

#[test]
fn html_escape_replaces_special_characters() {
    assert_eq!(escape("a < b && \"c\" > 'd'"), "a &lt; b &amp;&amp; &quot;c&quot; &gt; &#x27;d&#x27;");
    assert_eq!(escape("plain"), "plain");
}

#[test]
fn playground_guesses_mime_types() {
    assert_eq!(guess_mime("index.html"), Some("text/html"));
    assert_eq!(guess_mime("assets/app.js"), Some("text/javascript"));
    assert_eq!(guess_mime("logo.png"), Some("image/png"));
    assert_eq!(guess_mime("lox.wasm"), Some("application/wasm"));
    assert_eq!(guess_mime("notes.txt"), None);
    assert_eq!(guess_mime("Makefile"), None);
    assert_eq!(mime_for_extension(None), None);
    assert_eq!(mime_for_extension(Some("html")), Some("text/html"));
}

#[test]
fn allocator_counts_bytes_and_wraps() {
    let mut a = Allocator::new(7u8);
    assert_eq!(a.allocated_bytes(), 0);
    a.record_alloc(100);
    a.record_realloc(100, 40);
    assert_eq!(a.allocated_bytes(), 40);
    a.record_dealloc(50);
    assert_eq!(a.allocated_bytes(), usize::MAX - 9);
    assert_eq!(*a.inner(), 7);
}

#[test]
fn debug_formats_numbers() {
    assert_eq!(to_decimal(0), "0");
    assert_eq!(to_decimal(1234567890), "1234567890");
    assert_eq!(pad_left_exec("7", 4, '0'), "0007");
    assert_eq!(pad_left_exec("12345", 4, '0'), "12345");
    assert_eq!(pad_right_exec("ab", 4), "ab  ");
    assert_eq!(op_name(op::NIL), Some("OP_NIL"));
    assert_eq!(op_name(255), None);
}

#[test]
fn debug_disassembles_a_chunk() {
    let gc = Gc::new();
    let mut chunk = Chunk::new();
    chunk.write_u8(op::NIL, Span::new(0, 3));
    chunk.write_u8(op::POP, Span::new(0, 3));
    let host = NoHost;
    let (lines, next) = chunk.debug_op(0, &gc, &host);
    assert_eq!(next, 1);
    assert!(lines[0].starts_with("0000"));
    assert!(lines[0].contains("OP_NIL"));
    let all = chunk.debug("script", &gc, &host);
    assert_eq!(all[0], "== script ==");
    assert_eq!(all.len(), 3);
    assert!(all[2].starts_with("0001"));
}

#[test]
fn chunk_constants_are_shared() {
    let mut chunk = Chunk::new();
    let a = chunk.write_constant(Value::from_bool(true), no_span());
    let b = chunk.write_constant(Value::nil(), no_span());
    let c = chunk.write_constant(Value::from_bool(true), no_span());
    assert_eq!((a, b, c), (Ok(0), Ok(1), Ok(0)));
}

#[test]
fn chunk_refuses_constant_after_limit() {
    let mut chunk = Chunk::new();
    for _ in 0..256 {
        assert!(chunk.write_constant(Value::nil(), no_span()).is_ok());
    }
    assert_eq!(chunk.write_constant(Value::nil(), no_span()), Ok(0));
    match chunk.write_constant(Value::from_bool(true), Span::new(4, 5)) {
        Err((Error::OverflowError(OverflowError::TooManyConstants), span)) => assert_eq!(span, Span::new(4, 5)),
        other => panic!("{:?}", other),
    }
}

#[test]
fn gc_interns_strings_once() {
    let mut gc = Gc::new();
    let (a, first) = gc.insert_str("hello");
    let (b, second) = gc.insert_str("hello");
    let (c, third) = gc.insert_str("world");
    assert_eq!(first, InternState::Owned);
    assert_eq!(second, InternState::Borrowed);
    assert_eq!(third, InternState::Owned);
    assert_eq!(a, b);
    assert_ne!(a, c);
    assert_eq!(gc.string_at(a).map(|s| s.as_str()), Some("hello"));
}

#[test]
fn gc_reuses_freed_slots() {
    let mut gc = Gc::new();
    let a = gc.alloc_str("a");
    let b = gc.alloc_str("b");
    gc.collect(&vec![b]);
    assert_eq!(gc.string_at(a), None);
    assert_eq!(gc.free, vec![a]);
    let c = gc.alloc_str("c");
    assert_eq!(c, a);
    assert_eq!(gc.objects.len(), 2);
    assert!(gc.free.is_empty());
    let d = gc.alloc_str("d");
    assert_eq!(d, 2);
}

#[test]
fn gc_interns_again_after_collection() {
    let mut gc = Gc::new();
    let a = gc.alloc_str("same");
    gc.collect(&vec![a]);
    let (again, state) = gc.insert_str("same");
    assert_eq!(again, a);
    assert_eq!(state, InternState::Borrowed);
    gc.collect(&Vec::new());
    let (fresh, state) = gc.insert_str("same");
    assert_eq!(state, InternState::Owned);
    assert_eq!(fresh, a);
    assert_eq!(gc.string_at(fresh).map(|s| s.as_str()), Some("same"));
}

#[test]
fn error_one_of_lists_alternatives() {
    let tokens: Vec<String> = vec!["a".to_string(), "b".to_string(), "c".to_string()];
    assert_eq!(one_of(&tokens), "a, b, or c");
    assert_eq!(one_of(&tokens[..1]), "a");
    assert_eq!(one_of(&Vec::<String>::new()), "nothing");
}

fn resolve_source(source: &str) -> (Vec<(Error, Span)>, loxcraft::ast::Program) {
    let mut program = parse(source).unwrap();
    let errs = resolve(&mut program);
    (errs, program)
}

#[test]
fn resolver_reports_redefinition_in_a_scope() {
    let (errs, _) = resolve_source("{ var a = 1; var a = 2; }");
    match &errs[..] {
        [(Error::NameError(NameError::AlreadyDefined { name }), _)] => assert_eq!(name, "a"),
        other => panic!("{:?}", other),
    }
    let (errs, _) = resolve_source("var a = 1; var a = 2;");
    assert!(errs.is_empty());
}

#[test]
fn resolver_accepts_shadowing_in_nested_scopes() {
    let src = "var a = 1; { var a = 2; { var a = 3; } fun f(a, b) { var c; } class C { m(x) {} n() {} } } for (var i = 0; i < 1; i = i + 1) { var i = 2; }";
    let (errs, _) = resolve_source(src);
    assert!(errs.is_empty());
}

#[test]
fn resolver_refuses_repeated_parameters_and_methods() {
    let (errs, _) = resolve_source("fun f(a, a) {}");
    match &errs[..] {
        [(Error::NameError(NameError::AlreadyDefined { name }), _)] => assert_eq!(name, "a"),
        other => panic!("{:?}", other),
    }
    let (errs, _) = resolve_source("class C { m() {} m() {} }");
    match &errs[..] {
        [(Error::NameError(NameError::AlreadyDefined { name }), _)] => assert_eq!(name, "m"),
        other => panic!("{:?}", other),
    }
}

#[test]
fn resolver_leaves_returns_to_the_run() {
    let (errs, program) = resolve_source("return 1;");
    assert!(errs.is_empty());
    assert_eq!(program.stmts.len(), 1);
}

#[test]
fn resolver_fills_depths() {
    let (errs, program) = resolve_source("var g = 1; { var a = 1; { print a; print g; } }");
    assert!(errs.is_empty());
    let Stmt::Block(outer) = &program.stmts[1].0 else { panic!() };
    let Stmt::Block(inner) = &outer.stmts[1].0 else { panic!() };
    let depth = |i: usize| match &inner.stmts[i].0 {
        Stmt::Print(p) => match &p.value.0 {
            Expr::Var(v) => v.var.depth,
            _ => panic!(),
        },
        _ => panic!(),
    };
    assert_eq!(depth(0), Some(1));
    assert_eq!(depth(1), None);
}

struct NoHost;

impl loxcraft::host::Host for NoHost {
    fn parse_number(&self, _text: &str) -> u64 {
        0
    }
    fn add(&self, a: u64, _b: u64) -> u64 {
        a
    }
    fn subtract(&self, a: u64, _b: u64) -> u64 {
        a
    }
    fn multiply(&self, a: u64, _b: u64) -> u64 {
        a
    }
    fn divide(&self, a: u64, _b: u64) -> u64 {
        a
    }
    fn negate(&self, a: u64) -> u64 {
        a
    }
    fn numbers_equal(&self, a: u64, b: u64) -> bool {
        a == b
    }
    fn greater(&self, a: u64, b: u64) -> bool {
        a > b
    }
    fn greater_equal(&self, a: u64, b: u64) -> bool {
        a >= b
    }
    fn less(&self, a: u64, b: u64) -> bool {
        a < b
    }
    fn less_equal(&self, a: u64, b: u64) -> bool {
        a <= b
    }
    fn display_number(&self, a: u64) -> String {
        a.to_string()
    }
    fn now(&self) -> u64 {
        0
    }
    fn write_line(&mut self, _line: &str) -> bool {
        true
    }
}
