//! Heap objects of the virtual machine.
//!
//! Objects live in the slots of the heap ([`crate::gc::Gc`]) and refer to one
//! another by slot index; a [`crate::value::Value`] refers to an object by
//! carrying its index.
use vstd::prelude::*;

use crate::chunk::Chunk;
use crate::collections::{constant_pool, value_table_contents, ValueTable};
use crate::value::{Value, bits_is_object, bits_payload};

verus! {

broadcast use vstd::seq_lib::group_seq_properties;

/// A handle on a heap object: its slot index.
#[derive(Clone, Copy, PartialEq, Eq, Structural, Debug)]
pub struct Object(pub usize);

#[derive(Clone, Copy, Debug, PartialEq, Eq, Structural)]
pub enum ObjectType {
    BoundMethod,
    Class,
    Closure,
    Function,
    Instance,
    Native,
    String,
    Upvalue,
}

/// The part every object has: its type and whether the collector has
/// reached it.
#[derive(Clone, Copy, Debug, PartialEq, Eq, Structural)]
pub struct ObjectCommon {
    pub type_: ObjectType,
    pub is_marked: bool,
}

/// Functions that the virtual machine provides.
#[derive(Clone, Copy, Debug, PartialEq, Eq, Structural)]
pub enum Native {
    Clock,
}

impl Native {
    /// The number of arguments the function takes.
    pub fn arity(&self) -> (n: usize)
        ensures
            n == 0,
    {
        match self {
            Native::Clock => 0,
        }
    }

    /// The name under which the function is a global.
    pub fn name(&self) -> (s: &'static str)
        ensures
            s@ == seq!['c', 'l', 'o', 'c', 'k'],
    {
        proof {
            reveal_strlit("clock");
        }
        match self {
            Native::Clock => "clock",
        }
    }
}

/// The name of an object type, as errors show it.
pub open spec fn object_type_name(t: ObjectType) -> Seq<char> {
    match t {
        ObjectType::BoundMethod => "bound method"@,
        ObjectType::Class => "class"@,
        ObjectType::Closure => "function"@,
        ObjectType::Function => "raw function"@,
        ObjectType::Instance => "instance"@,
        ObjectType::Native => "native function"@,
        ObjectType::String => "string"@,
        ObjectType::Upvalue => "upvalue"@,
    }
}

impl ObjectType {
    /// The type's name, as errors and `print` show it.
    pub fn name(&self) -> (s: &'static str)
        ensures
            s@ == object_type_name(*self),
    {
        match self {
            ObjectType::BoundMethod => "bound method",
            ObjectType::Class => "class",
            ObjectType::Closure => "function",
            ObjectType::Function => "raw function",
            ObjectType::Instance => "instance",
            ObjectType::Native => "native function",
            ObjectType::String => "string",
            ObjectType::Upvalue => "upvalue",
        }
    }
}

/// A method together with the instance it was looked up on.
pub struct ObjectBoundMethod {
    pub this: usize,
    pub closure: usize,
}

impl ObjectBoundMethod {
    pub fn new(this: usize, method: usize) -> (o: ObjectBoundMethod)
        ensures
            o.this == this,
            o.closure == method,
    {
        ObjectBoundMethod { this, closure: method }
    }
}

/// A class: its name (a string object) and its methods, keyed by the
/// string object of the method's name, each a closure value.
pub struct ObjectClass {
    pub name: usize,
    pub methods: ValueTable,
}

impl ObjectClass {
    pub fn new(name: usize) -> (o: ObjectClass)
        ensures
            o.name == name,
            value_table_contents(o.methods) == Map::<usize, Value>::empty(),
    {
        ObjectClass { name, methods: ValueTable::new() }
    }
}

/// A function together with the variables it captured.
pub struct ObjectClosure {
    pub function: usize,
    pub upvalues: Vec<usize>,
}

impl ObjectClosure {
    pub fn new(function: usize, upvalues: Vec<usize>) -> (o: ObjectClosure)
        ensures
            o.function == function,
            o.upvalues == upvalues,
    {
        ObjectClosure { function, upvalues }
    }
}

/// Compiled code: the name (a string object, empty for the script), the
/// number of parameters and of captured variables, and the bytecode.
pub struct ObjectFunction {
    pub name: usize,
    pub arity: u8,
    pub upvalue_count: u16,
    pub chunk: Chunk,
}

impl ObjectFunction {
    pub fn new(name: usize, arity: u8) -> (o: ObjectFunction)
        ensures
            o.name == name,
            o.arity == arity,
            o.upvalue_count == 0,
            o.chunk.wf(),
            o.chunk.ops@.len() == 0,
            o.chunk.constants_view().len() == 0,
            o.chunk.constant_count == 0,
    {
        ObjectFunction { name, arity, upvalue_count: 0, chunk: Chunk::new() }
    }
}

/// An instance: its class and its fields, keyed by the string object of the
/// field's name.
pub struct ObjectInstance {
    pub class: usize,
    pub fields: ValueTable,
}

impl ObjectInstance {
    pub fn new(class: usize) -> (o: ObjectInstance)
        ensures
            o.class == class,
            value_table_contents(o.fields) == Map::<usize, Value>::empty(),
    {
        ObjectInstance { class, fields: ValueTable::new() }
    }
}

pub struct ObjectNative {
    pub native: Native,
}

impl ObjectNative {
    pub fn new(native: Native) -> (o: ObjectNative)
        ensures
            o.native == native,
    {
        ObjectNative { native }
    }
}

pub struct ObjectString {
    pub value: String,
}

impl ObjectString {
    pub fn new(value: String) -> (o: ObjectString)
        ensures
            o.value@ == value@,
    {
        ObjectString { value }
    }
}

/// A captured variable. While it is open, it is the stack slot
/// `location`; once closed, it holds its value in `closed`.
pub struct ObjectUpvalue {
    pub location: Option<usize>,
    pub closed: Value,
}

impl ObjectUpvalue {
    pub fn new(location: usize) -> (o: ObjectUpvalue)
        ensures
            o.location == Some(location),
            o.closed.0 == crate::value::NIL_BITS,
    {
        ObjectUpvalue { location: Some(location), closed: Value::nil() }
    }
}

pub enum ObjectData {
    BoundMethod(ObjectBoundMethod),
    Class(ObjectClass),
    Closure(ObjectClosure),
    Function(ObjectFunction),
    Instance(ObjectInstance),
    Native(ObjectNative),
    String(ObjectString),
    Upvalue(ObjectUpvalue),
}

/// An object in a heap slot.
pub struct HeapObject {
    pub is_marked: bool,
    pub data: ObjectData,
}

pub open spec fn data_type(data: ObjectData) -> ObjectType {
    match data {
        ObjectData::BoundMethod(_) => ObjectType::BoundMethod,
        ObjectData::Class(_) => ObjectType::Class,
        ObjectData::Closure(_) => ObjectType::Closure,
        ObjectData::Function(_) => ObjectType::Function,
        ObjectData::Instance(_) => ObjectType::Instance,
        ObjectData::Native(_) => ObjectType::Native,
        ObjectData::String(_) => ObjectType::String,
        ObjectData::Upvalue(_) => ObjectType::Upvalue,
    }
}

impl ObjectData {
    pub fn type_(&self) -> (t: ObjectType)
        ensures
            t == data_type(*self),
    {
        match self {
            ObjectData::BoundMethod(_) => ObjectType::BoundMethod,
            ObjectData::Class(_) => ObjectType::Class,
            ObjectData::Closure(_) => ObjectType::Closure,
            ObjectData::Function(_) => ObjectType::Function,
            ObjectData::Instance(_) => ObjectType::Instance,
            ObjectData::Native(_) => ObjectType::Native,
            ObjectData::String(_) => ObjectType::String,
            ObjectData::Upvalue(_) => ObjectType::Upvalue,
        }
    }
}

/// The value refers to the object in slot `j`.
pub open spec fn value_refers(v: Value, j: usize) -> bool {
    bits_is_object(v.0) && bits_payload(v.0) == j as u64
}

/// A table refers to `j` through a key or an object value.
pub open spec fn table_refers(t: ValueTable, j: usize) -> bool {
    let m = value_table_contents(t);
    m.contains_key(j) || exists|k: usize| m.contains_key(k) && value_refers(m[k], j)
}

/// The object refers to the object in slot `j`: these are the edges that the
/// collector follows.
pub open spec fn points_to(data: ObjectData, j: usize) -> bool {
    match data {
        ObjectData::BoundMethod(b) => b.this == j || b.closure == j,
        ObjectData::Class(c) => c.name == j || table_refers(c.methods, j),
        ObjectData::Closure(c) => c.function == j || c.upvalues@.contains(j),
        ObjectData::Function(f) => f.name == j || exists|i: int|
            0 <= i < constant_pool(f.chunk.constants).len() && value_refers(
                constant_pool(f.chunk.constants)[i],
                j,
            ),
        ObjectData::Instance(o) => o.class == j || table_refers(o.fields, j),
        ObjectData::Native(_) => false,
        ObjectData::String(_) => false,
        ObjectData::Upvalue(u) => value_refers(u.closed, j),
    }
}

/// Pushes the slot that `v` refers to, if it refers to one.
fn push_value_ref(out: Vec<usize>, v: Value) -> (r: Vec<usize>)
    ensures
        forall|j: usize| #[trigger] r@.contains(j) <==> (out@.contains(j) || value_refers(v, j)),
{
    let mut out = out;
    if v.is_object() {
        let idx = v.as_object();
        if idx <= usize::MAX as u64 {
            out.push(idx as usize);
        }
    }
    out
}

/// Pushes every slot that the table refers to.
fn push_table_refs(start: Vec<usize>, t: &ValueTable) -> (r: Vec<usize>)
    ensures
        forall|j: usize| #[trigger] r@.contains(j) <==> (start@.contains(j) || table_refers(*t, j)),
{
    let mut out = start;
    let entries = t.entries();
    let n = entries.len();
    let mut i: usize = 0;
    let ghost m = value_table_contents(*t);
    while i < n
        invariant
            n == entries@.len(),
            i <= n,
            m == value_table_contents(*t),
            forall|k: int|
                0 <= k < entries@.len() ==> m.contains_key(entries@[k].0) && m[entries@[k].0]
                    == entries@[k].1,
            forall|k: usize|
                m.contains_key(k) ==> exists|e: int| 0 <= e < entries@.len() && entries@[e].0 == k,
            forall|j: usize|
                out@.contains(j) <==> (start@.contains(j) || exists|e: int|
                    0 <= e < i && #[trigger] entry_refers(entries@[e], j)),
        decreases n - i,
    {
        let (k, v) = entries[i];
        out.push(k);
        out = push_value_ref(out, v);
        proof {
            assert forall|j: usize|
                out@.contains(j) <==> (start@.contains(j) || exists|e: int|
                    0 <= e < i + 1 && #[trigger] entry_refers(entries@[e], j)) by {
                if entry_refers(entries@[i as int], j) {
                    assert(k == j || value_refers(v, j));
                }
            }
        }
        i = i + 1;
    }
    proof {
        assert forall|j: usize|
            out@.contains(j) <==> (start@.contains(j) || table_refers(*t, j)) by {
            if table_refers(*t, j) {
                if m.contains_key(j) {
                    let e = choose|e: int| 0 <= e < entries@.len() && entries@[e].0 == j;
                    assert(entry_refers(entries@[e], j));
                } else {
                    let k = choose|k: usize| m.contains_key(k) && value_refers(m[k], j);
                    let e = choose|e: int| 0 <= e < entries@.len() && entries@[e].0 == k;
                    assert(entry_refers(entries@[e], j));
                }
            }
            if exists|e: int| 0 <= e < n && #[trigger] entry_refers(entries@[e], j) {
                let e = choose|e: int| 0 <= e < n && #[trigger] entry_refers(entries@[e], j);
                if entries@[e].0 != j {
                    assert(m.contains_key(entries@[e].0) && value_refers(m[entries@[e].0], j));
                }
            }
        }
    }
    out
}

pub open spec fn entry_refers(e: (usize, Value), j: usize) -> bool {
    e.0 == j || value_refers(e.1, j)
}

/// The slots that an object refers to, each at least once.
pub fn children(data: &ObjectData) -> (r: Vec<usize>)
    ensures
        forall|j: usize| #[trigger] r@.contains(j) <==> points_to(*data, j),
{
    let mut out: Vec<usize> = Vec::new();
    match data {
        ObjectData::BoundMethod(b) => {
            out.push(b.this);
            out.push(b.closure);
            proof {
                assert forall|j: usize| out@.contains(j) <==> points_to(*data, j) by {
                    if j == b.this { assert(out@[0] == j); }
                    if j == b.closure { assert(out@[1] == j); }
                }
            }
        },
        ObjectData::Class(c) => {
            out.push(c.name);
            let ghost before = out@;
            out = push_table_refs(out, &c.methods);
            proof {
                assert forall|j: usize| out@.contains(j) <==> points_to(*data, j) by {
                    if j == c.name {
                        assert(before[0] == j);
                    }
                    assert(before.contains(j) <==> j == c.name);
                    assert(points_to(*data, j) == (j == c.name || table_refers(c.methods, j)));
                    assert(out@.contains(j) <==> (before.contains(j) || table_refers(c.methods, j)));
                }
            }
        },
        ObjectData::Closure(c) => {
            out.push(c.function);
            let n = c.upvalues.len();
            let mut i: usize = 0;
            while i < n
                invariant
                    n == c.upvalues@.len(),
                    i <= n,
                    forall|j: usize|
                        out@.contains(j) <==> (j == c.function || c.upvalues@.take(
                            i as int,
                        ).contains(j)),
                decreases n - i,
            {
                out.push(c.upvalues[i]);
                proof {
                    assert(c.upvalues@.take(i + 1) =~= c.upvalues@.take(i as int).push(
                        c.upvalues@[i as int],
                    ));
                }
                i = i + 1;
            }
            proof {
                assert(c.upvalues@.take(n as int) =~= c.upvalues@);
            }
        },
        ObjectData::Function(f) => {
            out.push(f.name);
            let pool = crate::collections::constant_pool_slice(&f.chunk.constants);
            let n = pool.len();
            let mut i: usize = 0;
            while i < n
                invariant
                    n == pool@.len(),
                    pool@ == constant_pool(f.chunk.constants),
                    i <= n,
                    forall|j: usize|
                        out@.contains(j) <==> (j == f.name || exists|q: int|
                            0 <= q < i && #[trigger] value_refers(pool@[q], j)),
                decreases n - i,
            {
                let ghost before = out@;
                let v = pool[i];
                if v.is_object() {
                    let idx = v.as_object();
                    if idx <= usize::MAX as u64 {
                        out.push(idx as usize);
                    }
                }
                proof {
                    assert forall|j: usize|
                        out@.contains(j) <==> (j == f.name || exists|q: int|
                            0 <= q < i + 1 && #[trigger] value_refers(pool@[q], j)) by {
                        assert(out@.contains(j) <==> (before.contains(j) || value_refers(pool@[i as int], j)));
                        if exists|q: int| 0 <= q < i + 1 && #[trigger] value_refers(pool@[q], j) {
                            let q = choose|q: int| 0 <= q < i + 1 && #[trigger] value_refers(pool@[q], j);
                            if q < i {
                                assert(exists|q2: int| 0 <= q2 < i && #[trigger] value_refers(pool@[q2], j));
                            }
                        }
                    }
                }
                i = i + 1;
            }
            proof {
                assert forall|j: usize| out@.contains(j) <==> points_to(*data, j) by {
                    if points_to(*data, j) && j != f.name {
                        let q = choose|q: int| 0 <= q < constant_pool(f.chunk.constants).len() && value_refers(
                            constant_pool(f.chunk.constants)[q], j);
                        assert(value_refers(pool@[q], j));
                    }
                }
            }
        },
        ObjectData::Instance(o) => {
            out.push(o.class);
            let ghost before = out@;
            out = push_table_refs(out, &o.fields);
            proof {
                assert forall|j: usize| out@.contains(j) <==> points_to(*data, j) by {
                    if j == o.class {
                        assert(before[0] == j);
                    }
                    assert(before.contains(j) <==> j == o.class);
                }
            }
        },
        ObjectData::Native(_) => {},
        ObjectData::String(_) => {},
        ObjectData::Upvalue(u) => {
            out = push_value_ref(out, u.closed);
        },
    }
    out
}

} // verus!
