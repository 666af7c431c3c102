use loxcraft::gc::Gc;
use loxcraft::object::ObjectType;
use loxcraft::value::{Value, ValueType};

fn num(x: f64) -> Value {
    Value::from_bits(x.to_bits())
}

fn object(idx: u64) -> Value {
    Value::from_object(idx)
}

#[test]
fn convert_to_and_from_values() {
    let value = false;
    assert_eq!(Value::from_bool(value).as_bool(), value);

    let value = true;
    assert_eq!(Value::from_bool(value).as_bool(), value);

    let value = 0.0;
    assert_eq!(f64::from_bits(num(value).to_bits()), value);

    let value = f64::NAN;
    assert!(f64::from_bits(num(value).to_bits()).is_nan());

    let value = 0;
    assert_eq!(object(value).as_object(), value);
}

#[test]
fn value_is_nil() {
    assert!(Value::nil().is_nil());
    assert!(!Value::from_bool(false).is_nil());
    assert!(!Value::from_bool(true).is_nil());
    assert!(!num(0.0).is_nil());
    assert!(!num(f64::NAN).is_nil());
    assert!(!object(0).is_nil());
}

#[test]
fn value_is_bool() {
    assert!(!Value::nil().is_bool());
    assert!(Value::from_bool(false).is_bool());
    assert!(Value::from_bool(true).is_bool());
    assert!(!num(0.0).is_bool());
    assert!(!num(f64::NAN).is_bool());
    assert!(!object(0).is_bool());
}

#[test]
fn value_is_number() {
    assert!(!Value::nil().is_number());
    assert!(!Value::from_bool(false).is_number());
    assert!(!Value::from_bool(true).is_number());
    assert!(num(0.0).is_number());
    assert!(num(f64::NAN).is_number());
    assert!(!object(0).is_number());
}

#[test]
fn value_is_object() {
    assert!(!Value::nil().is_object());
    assert!(!Value::from_bool(false).is_object());
    assert!(!Value::from_bool(true).is_object());
    assert!(!num(0.0).is_object());
    assert!(!num(f64::NAN).is_object());
    assert!(object(0).is_object());
}

#[test]
fn value_to_bool() {
    // Falsey
    assert!(!Value::nil().to_bool());
    assert!(!Value::false_().to_bool());

    // Truthy
    assert!(Value::true_().to_bool());
    assert!(num(0.0).to_bool());
    assert!(num(f64::NAN).to_bool());
    assert!(object(0).to_bool());
}

#[test]
fn value_type() {
    let mut gc = Gc::new();
    let string = gc.alloc_str("foo");
    assert_eq!(Value::nil().type_(&gc), ValueType::Nil);
    assert_eq!(Value::false_().type_(&gc), ValueType::Bool);
    assert_eq!(Value::true_().type_(&gc), ValueType::Bool);
    assert_eq!(num(0.0).type_(&gc), ValueType::Number);
    assert_eq!(num(f64::NAN).type_(&gc), ValueType::Number);
    assert_eq!(object(string as u64).type_(&gc), ValueType::Object(ObjectType::String));
}

#[test]
fn value_not_negates_truthiness() {
    assert_eq!(Value::nil().not(), Value::true_());
    assert_eq!(Value::false_().not(), Value::true_());
    assert_eq!(num(0.0).not(), Value::false_());
    assert_eq!(object(3).not(), Value::false_());
}

#[test]
fn value_type_names() {
    assert_eq!(ValueType::Nil.name(), "nil");
    assert_eq!(ValueType::Number.name(), "number");
    assert_eq!(ValueType::Object(ObjectType::Closure).name(), "function");
}
