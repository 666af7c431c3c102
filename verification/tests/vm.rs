use loxcraft::error::{Error, NameError, OverflowError, SyntaxError, TypeError};
use loxcraft::host::Host;
use loxcraft::compiler::Compiler;
use loxcraft::gc::Gc;
use loxcraft::object::ObjectData;
use loxcraft::op;
use loxcraft::vm::{Step, Stop, VM};

#[derive(Default)]
struct TestHost {
    out: Vec<String>,
}

impl Host for TestHost {
    fn parse_number(&self, text: &str) -> u64 {
        text.parse::<f64>().unwrap().to_bits()
    }
    fn add(&self, a: u64, b: u64) -> u64 {
        (f64::from_bits(a) + f64::from_bits(b)).to_bits()
    }
    fn subtract(&self, a: u64, b: u64) -> u64 {
        (f64::from_bits(a) - f64::from_bits(b)).to_bits()
    }
    fn multiply(&self, a: u64, b: u64) -> u64 {
        (f64::from_bits(a) * f64::from_bits(b)).to_bits()
    }
    fn divide(&self, a: u64, b: u64) -> u64 {
        (f64::from_bits(a) / f64::from_bits(b)).to_bits()
    }
    fn negate(&self, a: u64) -> u64 {
        (-f64::from_bits(a)).to_bits()
    }
    fn numbers_equal(&self, a: u64, b: u64) -> bool {
        f64::from_bits(a) == f64::from_bits(b)
    }
    fn greater(&self, a: u64, b: u64) -> bool {
        f64::from_bits(a) > f64::from_bits(b)
    }
    fn greater_equal(&self, a: u64, b: u64) -> bool {
        f64::from_bits(a) >= f64::from_bits(b)
    }
    fn less(&self, a: u64, b: u64) -> bool {
        f64::from_bits(a) < f64::from_bits(b)
    }
    fn less_equal(&self, a: u64, b: u64) -> bool {
        f64::from_bits(a) <= f64::from_bits(b)
    }
    fn display_number(&self, a: u64) -> String {
        format!("{}", f64::from_bits(a))
    }
    fn now(&self) -> u64 {
        1.5f64.to_bits()
    }
    fn write_line(&mut self, line: &str) -> bool {
        self.out.push(line.to_string());
        true
    }
}

fn run(source: &str) -> (Vec<String>, Option<Error>) {
    let mut vm = VM::new();
    let mut host = TestHost::default();
    if let Err(mut errs) = vm.load(source, &host) {
        return (host.out, Some(errs.remove(0).0));
    }
    loop {
        match vm.run_function(&mut host, 1000) {
            Ok(Step::Finished) => return (host.out, None),
            Ok(Step::Running) => {}
            Err(Stop::Error(e)) => return (host.out, Some(e.0)),
            Err(Stop::Fault) => panic!("the machine faulted"),
        }
    }
}

fn output(source: &str) -> Vec<String> {
    let (out, err) = run(source);
    assert_eq!(err, None);
    out
}

#[test]
fn prints_arithmetic() {
    assert_eq!(output("print 1 + 2 * 3;"), vec!["7"]);
    assert_eq!(output("print (1 + 2) * 3 - 4 / 8;"), vec!["8.5"]);
    assert_eq!(output("print -(3);"), vec!["-3"]);
}

#[test]
fn prints_literals_and_comparisons() {
    assert_eq!(output("print nil; print true; print !nil; print 1 < 2; print 2 <= 1;"), vec!["nil", "true", "true", "true", "false"]);
    assert_eq!(output("print 1 == 1; print \"a\" == \"a\"; print nil != false;"), vec!["true", "true", "true"]);
}

#[test]
fn concatenates_interned_strings() {
    assert_eq!(output("var a = \"foo\"; var b = a + \"bar\"; print b; print b == \"foobar\";"), vec!["foobar", "true"]);
}

#[test]
fn globals_locals_and_blocks() {
    let src = "var a = 1; { var a = 2; { var a = 3; print a; } print a; } print a; a = 4; print a;";
    assert_eq!(output(src), vec!["3", "2", "1", "4"]);
}

#[test]
fn control_flow() {
    let src = "var s = 0; for (var i = 0; i < 5; i = i + 1) { if (i == 2) s = s + 10; else s = s + 1; } print s;\
               var n = 0; while (n < 3) n = n + 1; print n; print nil or \"x\"; print false and 1;";
    assert_eq!(output(src), vec!["14", "3", "x", "false"]);
}

#[test]
fn closures_capture_variables() {
    let src = "fun counter() { var n = 0; fun inc() { n = n + 1; return n; } return inc; }\
               var c = counter(); c(); c(); print c();";
    assert_eq!(output(src), vec!["3"]);
}

#[test]
fn closed_upvalues_survive_their_scope() {
    let src = "var f; { var x = \"kept\"; fun g() { print x; } f = g; } f();";
    assert_eq!(output(src), vec!["kept"]);
}

#[test]
fn classes_methods_and_initializers() {
    let src = "class Point { init(x, y) { this.x = x; this.y = y; } sum() { return this.x + this.y; } }\
               var p = Point(1, 2); print p.sum(); p.x = 10; print p.sum(); print p; print Point;";
    assert_eq!(output(src), vec!["3", "12", "<object Point>", "<class Point>"]);
}

#[test]
fn inheritance_and_super() {
    let src = "class A { hi() { return \"A\"; } } class B < A { hi() { return \"B\" + super.hi(); } }\
               print B().hi();";
    assert_eq!(output(src), vec!["BA"]);
}

#[test]
fn functions_print_their_names() {
    assert_eq!(output("fun f() {} print f; print clock;"), vec!["<function f>", "<native fn>"]);
}

#[test]
fn clock_asks_the_host() {
    assert_eq!(output("print clock();"), vec!["1.5"]);
}

#[test]
fn undefined_variable_is_a_name_error() {
    let (out, err) = run("print 1; print x;");
    assert_eq!(out, vec!["1"]);
    assert_eq!(err, Some(Error::NameError(NameError::NotDefined { name: "x".to_string() })));
}

#[test]
fn adding_a_number_to_a_string_is_a_type_error() {
    let (_, err) = run("print 1 + \"a\";");
    assert_eq!(
        err,
        Some(Error::TypeError(TypeError::UnsupportedOperandInfix {
            op: "+".to_string(),
            lt_type: "number".to_string(),
            rt_type: "string".to_string()
        }))
    );
}

#[test]
fn negating_a_bool_is_a_type_error() {
    let (_, err) = run("print -true;");
    assert_eq!(err, Some(Error::TypeError(TypeError::UnsupportedOperandPrefix { op: "-".to_string(), rt_type: "bool".to_string() })));
}

#[test]
fn wrong_argument_count_is_an_arity_error() {
    let (_, err) = run("fun f(a) {} f(1, 2);");
    assert_eq!(err, Some(Error::TypeError(TypeError::ArityMismatch { name: "f".to_string(), exp_args: 1, got_args: 2 })));
}

#[test]
fn calling_a_number_is_not_callable() {
    let (_, err) = run("var x = 1; x();");
    assert_eq!(err, Some(Error::TypeError(TypeError::NotCallable { type_: "number".to_string() })));
}

#[test]
fn deep_recursion_overflows_the_stack() {
    let (_, err) = run("fun f() { f(); } f();");
    assert_eq!(err, Some(Error::OverflowError(OverflowError::StackOverflow)));
}

#[test]
fn return_at_top_level_is_a_syntax_error() {
    let (_, err) = run("return 1;");
    assert_eq!(err, Some(Error::SyntaxError(SyntaxError::ReturnOutsideFunction)));
}

#[test]
fn return_value_from_initializer_is_a_syntax_error() {
    let (_, err) = run("class A { init() { return 1; } }");
    assert_eq!(err, Some(Error::SyntaxError(SyntaxError::ReturnInInitializer)));
}

#[test]
fn this_outside_class_is_a_syntax_error() {
    let (_, err) = run("print this;");
    assert_eq!(err, Some(Error::SyntaxError(SyntaxError::ThisOutsideClass)));
}

#[test]
fn super_outside_class_is_a_syntax_error() {
    let (_, err) = run("fun f() { super.x(); }");
    assert_eq!(err, Some(Error::SyntaxError(SyntaxError::SuperOutsideClass)));
}

#[test]
fn class_cannot_inherit_from_itself() {
    let (_, err) = run("class A < A {}");
    assert_eq!(err, Some(Error::NameError(NameError::ClassInheritFromSelf { name: "A".to_string() })));
}

#[test]
fn redeclared_local_is_a_name_error() {
    let (_, err) = run("{ var a = 1; var a = 2; }");
    assert_eq!(err, Some(Error::NameError(NameError::AlreadyDefined { name: "a".to_string() })));
}

#[test]
fn local_read_in_its_own_initializer_is_a_name_error() {
    let (_, err) = run("{ var a = a; }");
    assert_eq!(err, Some(Error::NameError(NameError::AccessInsideInitializer { name: "a".to_string() })));
}

#[test]
fn missing_attribute_is_an_attribute_error() {
    let (_, err) = run("class A {} print A().x;");
    assert_eq!(
        err,
        Some(Error::AttributeError(loxcraft::error::AttributeError::NoSuchAttribute {
            type_: "A".to_string(),
            name: "x".to_string()
        }))
    );
}

#[test]
fn superclass_must_be_a_class() {
    let (_, err) = run("var x = 1; class A < x {}");
    assert_eq!(err, Some(Error::TypeError(TypeError::SuperclassInvalidType { type_: "number".to_string() })));
}

#[test]
fn garbage_collection_keeps_live_objects() {
    let src = "var keep = \"k\"; for (var i = 0; i < 3000; i = i + 1) { var s = \"x\" + \"y\"; } print keep;";
    assert_eq!(output(src), vec!["k"]);
}

#[test]
fn collected_slots_are_reused() {
    let src = "class P {} var keep = P(); for (var i = 0; i < 5000; i = i + 1) { var p = P(); } print keep;";
    let mut vm = VM::new();
    let mut host = TestHost::default();
    assert!(vm.load(src, &host).is_ok());
    loop {
        match vm.run_function(&mut host, 1000) {
            Ok(Step::Finished) => break,
            Ok(Step::Running) => {}
            Err(_) => panic!("the program failed"),
        }
    }
    assert_eq!(host.out, vec!["<object P>"]);
    assert!(vm.gc.objects.len() < 5000);
}

#[test]
fn concatenation_survives_collections() {
    let src = "var s = \"\"; for (var i = 0; i < 1500; i = i + 1) { s = s + \"a\"; } print s;";
    assert_eq!(output(src), vec!["a".repeat(1500)]);
}

#[test]
fn field_holding_a_function_is_called() {
    let src = "fun hi() { return \"hi\"; } class C {} var c = C(); c.f = hi; print c.f();";
    assert_eq!(output(src), vec!["hi"]);
}

#[test]
fn class_without_init_takes_no_arguments() {
    let (_, err) = run("class C {} C(1);");
    assert_eq!(err, Some(Error::TypeError(TypeError::ArityMismatch { name: "init".to_string(), exp_args: 0, got_args: 1 })));
}

#[test]
fn bound_method_keeps_its_receiver() {
    let src = "class A { init(n) { this.n = n; } get() { return this.n; } } var m = A(7).get; print m();";
    assert_eq!(output(src), vec!["7"]);
}

#[test]
fn closures_share_a_captured_local() {
    let src = "var get; var set; { var x = 1; fun g() { return x; } fun s(v) { x = v; } get = g; set = s; } set(5); print get();";
    assert_eq!(output(src), vec!["5"]);
}

fn script_ops(source: &str) -> Vec<u8> {
    let mut gc = Gc::new();
    let host = TestHost::default();
    let idx = Compiler::compile(source, &mut gc, &host).unwrap();
    match &gc.objects[idx].as_ref().unwrap().data {
        ObjectData::Function(f) => f.chunk.ops.clone(),
        _ => panic!("not a function"),
    }
}

#[test]
fn logical_and_compiles_to_a_conditional_jump() {
    assert_eq!(
        script_ops("print true and false;"),
        vec![op::TRUE, op::JUMP_IF_FALSE, 2, 0, op::POP, op::FALSE, op::PRINT, op::NIL, op::RETURN]
    );
}

#[test]
fn logical_or_compiles_to_two_jumps() {
    assert_eq!(
        script_ops("nil or !true;"),
        vec![op::NIL, op::JUMP_IF_FALSE, 3, 0, op::JUMP, 3, 0, op::POP, op::TRUE, op::NOT, op::POP, op::NIL, op::RETURN]
    );
}

#[test]
fn infix_operands_come_before_the_operator() {
    assert_eq!(script_ops("print nil == false;"), vec![op::NIL, op::FALSE, op::EQUAL, op::PRINT, op::NIL, op::RETURN]);
    assert_eq!(output("print nil == false; print !nil; print true and nil; print false or true;"), vec!["false", "true", "nil", "true"]);
}
