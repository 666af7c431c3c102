use loxcraft::error::{AttributeError, Error, NameError, SyntaxError, TypeError};
use loxcraft::host::Host;
use loxcraft::interpreter::{Interpreter, Object, Outcome};

#[derive(Default)]
struct TreeHost {
    out: Vec<String>,
}

impl Host for TreeHost {
    fn parse_number(&self, text: &str) -> u64 {
        text.parse::<f64>().unwrap().to_bits()
    }
    fn add(&self, a: u64, b: u64) -> u64 {
        (f64::from_bits(a) + f64::from_bits(b)).to_bits()
    }
    fn subtract(&self, a: u64, b: u64) -> u64 {
        (f64::from_bits(a) - f64::from_bits(b)).to_bits()
    }
    fn multiply(&self, a: u64, b: u64) -> u64 {
        (f64::from_bits(a) * f64::from_bits(b)).to_bits()
    }
    fn divide(&self, a: u64, b: u64) -> u64 {
        (f64::from_bits(a) / f64::from_bits(b)).to_bits()
    }
    fn negate(&self, a: u64) -> u64 {
        (-f64::from_bits(a)).to_bits()
    }
    fn numbers_equal(&self, a: u64, b: u64) -> bool {
        f64::from_bits(a) == f64::from_bits(b)
    }
    fn greater(&self, a: u64, b: u64) -> bool {
        f64::from_bits(a) > f64::from_bits(b)
    }
    fn greater_equal(&self, a: u64, b: u64) -> bool {
        f64::from_bits(a) >= f64::from_bits(b)
    }
    fn less(&self, a: u64, b: u64) -> bool {
        f64::from_bits(a) < f64::from_bits(b)
    }
    fn less_equal(&self, a: u64, b: u64) -> bool {
        f64::from_bits(a) <= f64::from_bits(b)
    }
    fn display_number(&self, a: u64) -> String {
        format!("{}", f64::from_bits(a))
    }
    fn now(&self) -> u64 {
        2.5f64.to_bits()
    }
    fn write_line(&mut self, line: &str) -> bool {
        self.out.push(line.to_string());
        true
    }
}

fn interpret(source: &str) -> (Vec<String>, Outcome) {
    let mut host = TreeHost::default();
    let outcome = Interpreter::run(source, &mut host, 100_000);
    (host.out, outcome)
}

fn output(source: &str) -> Vec<String> {
    let (out, outcome) = interpret(source);
    assert!(matches!(outcome, Outcome::Done), "{:?}", out);
    out
}

fn error(source: &str) -> Error {
    match interpret(source).1 {
        Outcome::Errors(mut errs) => errs.remove(0).0,
        _ => panic!("the run did not fail"),
    }
}

#[test]
fn tree_prints_values() {
    assert_eq!(output("print 1 + 2 * 3; print nil; print true; print \"hi\";"), vec!["7", "nil", "true", "hi"]);
}

#[test]
fn tree_concatenates_strings() {
    assert_eq!(output("var a = \"foo\"; var b = \"bar\"; print a + b;"), vec!["foobar"]);
}

#[test]
fn tree_scopes_and_assignment() {
    let source = "var a = 1; { var a = 2; print a; a = 3; print a; } print a; a = 4; print a;";
    assert_eq!(output(source), vec!["2", "3", "1", "4"]);
}

#[test]
fn tree_control_flow() {
    let source = "var s = 0; for (var i = 0; i < 5; i = i + 1) { if (i == 2) s = s + 10; else s = s + i; } print s;
                  var n = 3; while (n > 0) { print n; n = n - 1; }";
    assert_eq!(output(source), vec!["18", "3", "2", "1"]);
}

#[test]
fn tree_logic_short_circuits() {
    assert_eq!(output("print nil or \"x\"; print false and 1; print 1 and 2; print !nil;"), vec!["x", "false", "2", "true"]);
}

#[test]
fn tree_closures_share_environments() {
    let source = "fun counter() { var n = 0; fun inc() { n = n + 1; return n; } return inc; }
                  var c = counter(); print c(); print c(); var d = counter(); print d();";
    assert_eq!(output(source), vec!["1", "2", "1"]);
}

#[test]
fn tree_recursion() {
    let source = "fun fib(n) { if (n < 2) return n; return fib(n - 1) + fib(n - 2); } print fib(10);";
    assert_eq!(output(source), vec!["55"]);
}

#[test]
fn tree_classes_fields_and_methods() {
    let source = "class Point { init(x, y) { this.x = x; this.y = y; } sum() { return this.x + this.y; } }
                  var p = Point(1, 2); print p.sum(); p.x = 10; print p.sum(); print p; print Point;";
    assert_eq!(output(source), vec!["3", "12", "<object Point>", "<class Point>"]);
}

#[test]
fn tree_inheritance_and_super() {
    let source = "class A { hi() { return \"A\"; } who() { return this.hi(); } }
                  class B < A { hi() { return \"B\" + super.hi(); } }
                  print B().who(); print A().who();";
    assert_eq!(output(source), vec!["BA", "A"]);
}

#[test]
fn tree_init_returns_this() {
    let source = "class C { init() { this.v = 1; return; } } var c = C(); print c.init().v;";
    assert_eq!(output(source), vec!["1"]);
}

#[test]
fn tree_displays_functions() {
    assert_eq!(output("fun f() {} print f; print clock; print clock();"), vec!["<function f>", "<native clock>", "2.5"]);
}

#[test]
fn tree_equality() {
    let source = "class A {} var a = A(); print a == a; print a == A(); print 1 == 1; print \"a\" == \"a\"; print nil == false; print 1 != 2;";
    assert_eq!(output(source), vec!["true", "false", "true", "true", "false", "true"]);
}

#[test]
fn tree_undefined_global() {
    match error("print x;") {
        Error::NameError(NameError::NotDefined { name }) => assert_eq!(name, "x"),
        e => panic!("{:?}", e),
    }
    match error("x = 1;") {
        Error::NameError(NameError::NotDefined { name }) => assert_eq!(name, "x"),
        e => panic!("{:?}", e),
    }
}

#[test]
fn tree_unsupported_operands() {
    match error("print 1 + \"a\";") {
        Error::TypeError(TypeError::UnsupportedOperandInfix { op, lt_type, rt_type }) => {
            assert_eq!((op.as_str(), lt_type.as_str(), rt_type.as_str()), ("+", "number", "string"))
        }
        e => panic!("{:?}", e),
    }
    match error("print -\"a\";") {
        Error::TypeError(TypeError::UnsupportedOperandPrefix { op, rt_type }) => {
            assert_eq!((op.as_str(), rt_type.as_str()), ("-", "string"))
        }
        e => panic!("{:?}", e),
    }
}

#[test]
fn tree_call_errors() {
    match error("fun f(a) {} f();") {
        Error::TypeError(TypeError::ArityMismatch { name, exp_args, got_args }) => {
            assert_eq!((name.as_str(), exp_args, got_args), ("f", 1, 0))
        }
        e => panic!("{:?}", e),
    }
    match error("class A { init(x) {} } A(1, 2);") {
        Error::TypeError(TypeError::ArityMismatch { name, exp_args, got_args }) => {
            assert_eq!((name.as_str(), exp_args, got_args), ("A", 1, 2))
        }
        e => panic!("{:?}", e),
    }
    match error("\"s\"();") {
        Error::TypeError(TypeError::NotCallable { type_ }) => assert_eq!(type_, "string"),
        e => panic!("{:?}", e),
    }
}

#[test]
fn tree_attribute_errors() {
    match error("class A {} A().missing;") {
        Error::AttributeError(AttributeError::NoSuchAttribute { type_, name }) => {
            assert_eq!((type_.as_str(), name.as_str()), ("A", "missing"))
        }
        e => panic!("{:?}", e),
    }
    match error("var n = 1; n.x = 2;") {
        Error::AttributeError(AttributeError::NoSuchAttribute { type_, name }) => {
            assert_eq!((type_.as_str(), name.as_str()), ("number", "x"))
        }
        e => panic!("{:?}", e),
    }
}

#[test]
fn tree_superclass_must_be_class() {
    match error("var x = 1; class A < x {}") {
        Error::TypeError(TypeError::SuperclassInvalidType { type_ }) => assert_eq!(type_, "number"),
        e => panic!("{:?}", e),
    }
}

#[test]
fn tree_init_cannot_return_value() {
    match error("class A { init() { return 1; } } A();") {
        Error::TypeError(TypeError::InitInvalidReturnType { type_ }) => assert_eq!(type_, "number"),
        Error::SyntaxError(SyntaxError::ReturnInInitializer) => {}
        e => panic!("{:?}", e),
    }
}

#[test]
fn tree_stops_when_fuel_runs_out() {
    let mut host = TreeHost::default();
    let outcome = Interpreter::run("while (true) {}", &mut host, 1000);
    assert!(matches!(outcome, Outcome::OutOfFuel));
}

#[test]
fn tree_env_read_after_write() {
    let mut it = Interpreter::new();
    let globals = it.globals;
    assert!(!it.contains(globals, "x"));
    assert!(!it.set(globals, "x", Object::Nil));
    it.insert_var(globals, "x", Object::Bool(true));
    assert!(matches!(it.get(globals, "x"), Some(Object::Bool(true))));
    assert!(it.set(globals, "x", Object::Bool(false)));
    assert!(matches!(it.get(globals, "x"), Some(Object::Bool(false))));
    assert!(matches!(it.get(globals, "clock"), Some(Object::Native(_))));
    let inner = it.with_parent(globals);
    assert!(matches!(it.get_at(inner, "x", 1), Some(Object::Bool(false))));
    assert!(it.get_at(inner, "x", 0).is_none());
    assert!(it.set_at(inner, "x", Object::Nil, 1));
    assert!(matches!(it.get(globals, "x"), Some(Object::Nil)));
}

#[test]
fn tree_return_outside_function() {
    assert!(matches!(error("return 1;"), Error::SyntaxError(SyntaxError::ReturnOutsideFunction)));
}

#[test]
fn tree_logic_on_nil_and_booleans() {
    let src = "print true and nil; print !nil == true; print false or false; print nil != false; if (nil) print 1; while (false) print 2;";
    assert_eq!(output(src), vec!["nil", "true", "false", "true"]);
}

#[test]
fn tree_empty_functions_return_nil_or_this() {
    let src = "fun f(a, b) {} print f(1, 2); class A { init() {} } var a = A(); print a.init();";
    assert_eq!(output(src), vec!["nil", "<object A>"]);
}
