//! NaN-boxed runtime values of the virtual machine.
//!
//! A [`Value`] is a 64-bit word. Numbers are stored as the raw bits of an
//! IEEE-754 double; every other value lives inside the quiet-NaN space:
//! `nil`, `false` and `true` use the low bits, and heap objects additionally
//! set the sign bit and keep the index of the object in the payload.
use vstd::prelude::*;

use crate::gc::{live, Gc};
use crate::object::{data_type, ObjectType};

verus! {

/// The sign bit of a double.
pub const SIGN_BIT: u64 = 0x8000000000000000;
/// The bits that make a double a quiet NaN (plus one more payload bit).
pub const QNAN: u64 = 0x7ffc000000000000;
/// Bits of `nil`.
pub const NIL_BITS: u64 = 0x7ffc000000000001;
/// Bits of `false`.
pub const FALSE_BITS: u64 = 0x7ffc000000000002;
/// Bits of `true`.
pub const TRUE_BITS: u64 = 0x7ffc000000000003;
/// Object payloads (heap indices) must stay below this bound.
pub const OBJECT_PAYLOAD_LIMIT: u64 = 0x4000000000000;

#[derive(Clone, Copy, PartialEq, Eq, Structural, Debug)]
pub struct Value(pub u64);

/// The classification of a value, as the bits decide it.
pub open spec fn bits_is_nil(b: u64) -> bool {
    b == NIL_BITS
}

pub open spec fn bits_is_bool(b: u64) -> bool {
    (b | 1u64) == TRUE_BITS
}

pub open spec fn bits_is_number(b: u64) -> bool {
    (b & QNAN) != QNAN
}

pub open spec fn bits_is_object(b: u64) -> bool {
    (b & (QNAN | SIGN_BIT)) == (QNAN | SIGN_BIT)
}

/// The heap index carried by an object value.
pub open spec fn bits_payload(b: u64) -> u64 {
    b & !(SIGN_BIT | QNAN)
}

/// The value is one of nil, a boolean, a number or an object.
pub open spec fn bits_well_formed(b: u64) -> bool {
    bits_is_nil(b) || bits_is_bool(b) || bits_is_number(b) || bits_is_object(b)
}

/// Lox truthiness: everything is true except `nil` and `false`.
pub open spec fn bits_truthy(b: u64) -> bool {
    !(b == FALSE_BITS || b == NIL_BITS)
}

impl Value {
    /// The `nil` value.
    pub fn nil() -> (v: Value)
        ensures
            v.0 == NIL_BITS,
    {
        Value(0x7ffc000000000001u64)
    }

    /// The `false` value.
    pub fn false_() -> (v: Value)
        ensures
            v.0 == FALSE_BITS,
    {
        Value(0x7ffc000000000002u64)
    }

    /// The `true` value.
    pub fn true_() -> (v: Value)
        ensures
            v.0 == TRUE_BITS,
    {
        Value(0x7ffc000000000003u64)
    }

    pub open spec fn bits(self) -> u64 {
        self.0
    }

    pub open spec fn spec_object(idx: u64) -> Value {
        Value(idx | SIGN_BIT | QNAN)
    }

    /// The value whose bits are those of a double.
    pub fn from_bits(bits: u64) -> (v: Value)
        ensures
            v.0 == bits,
    {
        Value(bits)
    }

    /// The raw bits of the value.
    pub fn to_bits(self) -> (b: u64)
        ensures
            b == self.0,
    {
        self.0
    }

    pub open spec fn from_bool_spec(b: bool) -> Value {
        Value(if b { TRUE_BITS } else { FALSE_BITS })
    }

    /// The boolean value `b`.
    pub fn from_bool(b: bool) -> (v: Value)
        ensures
            v == Value::from_bool_spec(b),
            v.0 == (if b { TRUE_BITS } else { FALSE_BITS }),
            v.0 == ((b as u64) | FALSE_BITS),
    {
        let r = Value((b as u64) | 0x7ffc000000000002u64);
        assert(((true as u64) | FALSE_BITS) == TRUE_BITS) by (bit_vector);
        assert(((false as u64) | FALSE_BITS) == FALSE_BITS) by (bit_vector);
        r
    }

    /// The value that refers to the heap object at index `idx`.
    pub fn from_object(idx: u64) -> (v: Value)
        requires
            idx < OBJECT_PAYLOAD_LIMIT,
        ensures
            v == Value::spec_object(idx),
            v.is_object_spec(),
            bits_payload(v.0) == idx,
    {
        let r = Value(idx | 0x8000000000000000u64 | 0x7ffc000000000000u64);
        assert(bits_is_object(idx | SIGN_BIT | QNAN)) by (bit_vector);
        assert(idx < 0x4000000000000u64 ==> ((idx | SIGN_BIT | QNAN) & !(SIGN_BIT | QNAN)) == idx)
            by (bit_vector);
        r
    }

    pub open spec fn is_nil_spec(self) -> bool {
        bits_is_nil(self.0)
    }

    pub open spec fn is_bool_spec(self) -> bool {
        bits_is_bool(self.0)
    }

    pub open spec fn is_number_spec(self) -> bool {
        bits_is_number(self.0)
    }

    pub open spec fn is_object_spec(self) -> bool {
        bits_is_object(self.0)
    }

    pub open spec fn well_formed(self) -> bool {
        bits_well_formed(self.0)
    }

    pub open spec fn truthy(self) -> bool {
        bits_truthy(self.0)
    }

    pub open spec fn payload(self) -> u64 {
        bits_payload(self.0)
    }

    pub fn is_nil(self) -> (r: bool)
        ensures
            r == self.is_nil_spec(),
    {
        self.0 == 0x7ffc000000000001u64
    }

    pub fn is_bool(self) -> (r: bool)
        ensures
            r == self.is_bool_spec(),
    {
        (self.0 | 1u64) == 0x7ffc000000000003u64
    }

    pub fn is_number(self) -> (r: bool)
        ensures
            r == self.is_number_spec(),
    {
        (self.0 & 0x7ffc000000000000u64) != 0x7ffc000000000000u64
    }

    pub fn is_object(self) -> (r: bool)
        ensures
            r == self.is_object_spec(),
    {
        let b = self.0;
        assert(((b & 0xfffc000000000000u64) == 0xfffc000000000000u64) == ((b & (QNAN | SIGN_BIT))
            == (QNAN | SIGN_BIT))) by (bit_vector);
        (b & 0xfffc000000000000u64) == 0xfffc000000000000u64
    }

    pub fn is_false(self) -> (r: bool)
        ensures
            r == (self.0 == FALSE_BITS),
    {
        self.0 == 0x7ffc000000000002u64
    }

    pub fn is_true(self) -> (r: bool)
        ensures
            r == (self.0 == TRUE_BITS),
    {
        self.0 == 0x7ffc000000000003u64
    }

    /// The boolean a boolean value holds.
    pub fn as_bool(self) -> (r: bool)
        requires
            self.is_bool_spec(),
        ensures
            r == (self.0 == TRUE_BITS),
    {
        self.0 == 0x7ffc000000000003u64
    }

    /// The heap index an object value refers to.
    pub fn as_object(self) -> (r: u64)
        requires
            self.is_object_spec(),
        ensures
            r == self.payload(),
            r < OBJECT_PAYLOAD_LIMIT,
    {
        let b = self.0;
        let r = b & 0x0003ffffffffffffu64;
        assert(r == (b & !(SIGN_BIT | QNAN)) && r < 0x4000000000000u64) by (bit_vector)
            requires
                r == b & 0x0003ffffffffffffu64,
        ;
        r
    }

    /// Lox truthiness.
    pub fn to_bool(self) -> (r: bool)
        ensures
            r == self.truthy(),
    {
        !(self.0 == 0x7ffc000000000002u64 || self.0 == 0x7ffc000000000001u64)
    }

    /// Logical negation: the boolean opposite of the value's truthiness.
    pub fn not(self) -> (r: Value)
        ensures
            r.0 == (if self.truthy() { FALSE_BITS } else { TRUE_BITS }),
    {
        Value::from_bool(!self.to_bool())
    }
}

impl Default for Value {
    fn default() -> (v: Value)
        ensures
            v.0 == NIL_BITS,
    {
        Value::nil()
    }
}

/// Exactly one classification holds of a well-formed value, and the
/// classifications never overlap.
pub proof fn lemma_classification_disjoint(b: u64)
    ensures
        bits_is_nil(b) ==> !bits_is_bool(b) && !bits_is_number(b) && !bits_is_object(b),
        bits_is_bool(b) ==> !bits_is_number(b) && !bits_is_object(b),
        bits_is_number(b) ==> !bits_is_object(b),
        bits_is_bool(b) <==> (b == TRUE_BITS || b == FALSE_BITS),
{
    assert(b == NIL_BITS ==> !((b | 1u64) == TRUE_BITS) && !((b & QNAN) != QNAN) && !((b & (
    QNAN | SIGN_BIT)) == (QNAN | SIGN_BIT))) by (bit_vector);
    assert((b | 1u64) == TRUE_BITS ==> !((b & QNAN) != QNAN) && !((b & (QNAN | SIGN_BIT)) == (QNAN
        | SIGN_BIT))) by (bit_vector);
    assert((b & QNAN) != QNAN ==> !((b & (QNAN | SIGN_BIT)) == (QNAN | SIGN_BIT))) by (bit_vector);
    assert((b | 1u64) == TRUE_BITS <==> (b == TRUE_BITS || b == FALSE_BITS)) by (bit_vector);
}

/// Converting a boolean to a value and back gives the boolean.
pub proof fn lemma_bool_roundtrip(b: bool)
    ensures
        bits_is_bool(if b { TRUE_BITS } else { FALSE_BITS }),
        bits_truthy(if b { TRUE_BITS } else { FALSE_BITS }) == b,
{
    lemma_classification_disjoint(if b { TRUE_BITS } else { FALSE_BITS });
}

/// Converting a heap index to a value and back gives the index.
pub proof fn lemma_object_roundtrip(idx: u64)
    requires
        idx < OBJECT_PAYLOAD_LIMIT,
    ensures
        bits_is_object(Value::spec_object(idx).0),
        bits_payload(Value::spec_object(idx).0) == idx,
        bits_truthy(Value::spec_object(idx).0),
{
    assert(bits_is_object(idx | SIGN_BIT | QNAN)) by (bit_vector);
    assert(idx < 0x4000000000000u64 ==> ((idx | SIGN_BIT | QNAN) & !(SIGN_BIT | QNAN)) == idx)
        by (bit_vector);
    assert(((idx | SIGN_BIT | QNAN) & (QNAN | SIGN_BIT)) == (QNAN | SIGN_BIT) ==> (idx | SIGN_BIT
        | QNAN) != FALSE_BITS && (idx | SIGN_BIT | QNAN) != NIL_BITS) by (bit_vector);
}

/// An object value is fixed by the heap index it carries.
pub proof fn lemma_object_payload_determines(a: u64, b: u64)
    requires
        bits_is_object(a),
        bits_is_object(b),
        bits_payload(a) == bits_payload(b),
    ensures
        a == b,
{
    assert(a == b) by (bit_vector)
        requires
            (a & (QNAN | SIGN_BIT)) == (QNAN | SIGN_BIT),
            (b & (QNAN | SIGN_BIT)) == (QNAN | SIGN_BIT),
            (a & !(SIGN_BIT | QNAN)) == (b & !(SIGN_BIT | QNAN)),
    ;
}

/// Lox truthiness: only `nil` and `false` are falsey; every number (NaN and
/// zero included) and every object is truthy.
pub proof fn lemma_truthiness(b: u64)
    ensures
        bits_is_number(b) ==> bits_truthy(b),
        bits_is_object(b) ==> bits_truthy(b),
        bits_is_nil(b) ==> !bits_truthy(b),
        bits_is_bool(b) ==> (bits_truthy(b) <==> b == TRUE_BITS),
{
    lemma_classification_disjoint(b);
}


/// The type of a value; an object's type is that of the object it refers to.
#[derive(Clone, Copy, Debug, PartialEq, Eq, Structural)]
pub enum ValueType {
    Nil,
    Bool,
    Number,
    Object(ObjectType),
}

/// The name of a value type: `nil`, `bool`, `number`, or the object
/// type's name.
pub open spec fn value_type_name(t: ValueType) -> Seq<char> {
    match t {
        ValueType::Nil => "nil"@,
        ValueType::Bool => "bool"@,
        ValueType::Number => "number"@,
        ValueType::Object(o) => crate::object::object_type_name(o),
    }
}

impl ValueType {
    /// The type's name: `nil`, `bool`, `number`, or the object type's name.
    pub fn name(&self) -> (s: &'static str)
        ensures
            s@ == value_type_name(*self),
    {
        match self {
            ValueType::Nil => "nil",
            ValueType::Bool => "bool",
            ValueType::Number => "number",
            ValueType::Object(t) => t.name(),
        }
    }
}

impl Value {
    /// The type of the value; the object of an object value must be live on
    /// the heap.
    pub fn type_(self, gc: &Gc) -> (t: ValueType)
        requires
            self.well_formed(),
            self.is_object_spec() ==> self.payload() <= usize::MAX && live(gc.objects@, self.payload() as usize as int),
        ensures
            self.is_nil_spec() ==> t == ValueType::Nil,
            self.is_bool_spec() ==> t == ValueType::Bool,
            self.is_number_spec() ==> t == ValueType::Number,
            self.is_object_spec() ==> t == ValueType::Object(data_type(gc.objects@[self.payload() as usize as int]->Some_0.data)),
    {
        proof {
            crate::value::lemma_classification_disjoint(self.0);
        }
        if self.is_nil() {
            ValueType::Nil
        } else if self.is_bool() {
            ValueType::Bool
        } else if self.is_number() {
            ValueType::Number
        } else {
            let idx = self.as_object() as usize;
            match &gc.objects[idx] {
                Some(h) => ValueType::Object(h.data.type_()),
                None => ValueType::Nil,
            }
        }
    }
}

} // verus!
