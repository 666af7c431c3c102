//! The virtual machine: runs compiled functions over a stack of values, with
//! a garbage-collected heap.
//!
//! The machine runs a bounded number of instructions per call, so that a
//! program that never stops can still be driven, and interrupted, by its
//! host. Where the code or the heap is not what the machine expects (an
//! operand out of range, a handle that names no object), it stops with a
//! fault instead of an error of the program.
use vstd::prelude::*;

use crate::collections::{string_table_contents, value_table_contents, ValueTable};
use crate::compiler::Compiler;
use crate::double::{double_less, double_less_equal, negated};
use crate::error::{no_span, AttributeError, Error, ErrorS, IoError, NameError, OverflowError, Span, TypeError};
use crate::gc::{lemma_reach_mono, live, others_same, reach_n, reachable, roots_set, Gc, MAX_OBJECTS};
use crate::host::Host;
use crate::object::{
    HeapObject, Native, ObjectBoundMethod, ObjectClass, ObjectClosure, ObjectData, ObjectFunction, ObjectInstance, ObjectNative,
    ObjectType, ObjectUpvalue,
};
use crate::op;
use crate::value::{bits_is_number, bits_payload, Value, OBJECT_PAYLOAD_LIMIT};

verus! {

broadcast use vstd::seq_lib::group_seq_properties;

/// The deepest nesting of calls.
pub const FRAMES_MAX: usize = 64;

/// After a collection, the next one comes when the heap holds this many
/// times as many objects as survived it.
pub const GC_HEAP_GROW_FACTOR: usize = 2;

/// The first collection comes when the heap holds this many objects.
pub const GC_FIRST: usize = 1024;

/// A function being run: its closure, the next instruction, and where its
/// slots begin on the stack (slot 0 holds the callee or the receiver).
#[derive(Clone, Copy, Debug, PartialEq, Eq, Structural)]
pub struct CallFrame {
    pub closure: usize,
    pub ip: usize,
    pub base: usize,
}

/// What a run of instructions ended with.
#[derive(Clone, Copy, Debug, PartialEq, Eq, Structural)]
pub enum Step {
    /// There is more to run.
    Running,
    /// The script returned.
    Finished,
}

/// Why the machine stopped.
#[derive(Debug, PartialEq, Eq)]
pub enum Stop {
    /// The program made an error.
    Error(ErrorS),
    /// The code or the heap is not what the compiler produces.
    Fault,
}

/// The heap slot a value refers to, when it is an object.
pub open spec fn object_slot(v: Value) -> Option<usize> {
    if v.is_object_spec() && v.payload() <= usize::MAX {
        Some(v.payload() as usize)
    } else {
        None
    }
}

pub fn slot_of(v: Value) -> (r: Option<usize>)
    ensures
        r == object_slot(v),
{
    if v.is_object() {
        let p = v.as_object();
        if p <= usize::MAX as u64 {
            return Some(p as usize);
        }
    }
    None
}

pub struct VM {
    /// The global variables, keyed by the string object of their names.
    pub globals: ValueTable,
    /// The upvalues that still refer to stack slots.
    pub open_upvalues: Vec<usize>,
    pub gc: Gc,
    /// The number of objects held at which the next collection comes.
    pub next_gc: usize,
    pub frames: Vec<CallFrame>,
    pub stack: Vec<Value>,
    /// The string object `init`, the name of initializers.
    pub init_string: usize,
    /// The source text of everything run so far.
    pub source: String,
    /// The lines that `print` has handed to the host, in order.
    pub written: Ghost<Seq<Seq<char>>>,
}

impl VM {
    /// The heap is well formed, and calls nest no deeper than the limit:
    /// the frames of `FRAMES_MAX` callers and that of the running function.
    pub open spec fn wf(&self) -> bool {
        &&& self.gc.wf()
        &&& self.frames@.len() <= FRAMES_MAX + 1
    }

    /// A machine with an empty stack, whose globals hold the native
    /// functions.
    pub fn new() -> (vm: VM)
        ensures
            vm.wf(),
            vm.stack@.len() == 0,
            vm.frames@.len() == 0,
            vm.open_upvalues@.len() == 0,
            vm.written@.len() == 0,
            vm.gc.is_string(vm.init_string as int, seq!['i', 'n', 'i', 't']),
            value_table_contents(vm.globals).len() == 1,
    {
        let mut gc = Gc::new();
        proof {
            reveal_strlit("clock");
            reveal_strlit("init");
        }
        let clock = gc.alloc_str("clock");
        let native = gc.alloc_object(ObjectData::Native(ObjectNative::new(Native::Clock)));
        let mut globals = ValueTable::new();
        globals.insert(clock, Value::from_object(native as u64));
        let init_string = gc.alloc_str("init");
        proof {
            assert("init"@ =~= seq!['i', 'n', 'i', 't']);
            assert(value_table_contents(globals) =~= crate::collections::empty_value_map().insert(clock, Value::spec_object(native as u64)));
            assert(value_table_contents(globals).dom() =~= set![clock]);
        }
        VM {
            globals,
            open_upvalues: Vec::new(),
            gc,
            next_gc: GC_FIRST,
            frames: Vec::new(),
            stack: Vec::new(),
            init_string,
            source: String::new(),
            written: Ghost(Seq::empty()),
        }
    }

    /// The data of the live object in slot `idx`.
    pub fn object(&self, idx: usize) -> (r: Option<&ObjectData>)
        ensures
            r matches Some(d) ==> idx < self.gc.objects@.len() && (self.gc.objects@[idx as int] matches Some(h) && h.data == *d),
            r is None ==> !live(self.gc.objects@, idx as int),
            (match r {
                Some(d) => Some(*d),
                None => None,
            }) == data_in(self.gc, idx as int),
    {
        if idx < self.gc.objects.len() {
            match &self.gc.objects[idx] {
                Some(h) => Some(&h.data),
                None => None,
            }
        } else {
            None
        }
    }

    /// The text of the string object in slot `idx`.
    fn string(&self, idx: usize) -> (r: Option<String>)
        ensures
            r matches Some(s) ==> self.gc.is_string(idx as int, s@),
            text_of(r) == text_in(self.gc, idx as int),
    {
        match self.gc.string_at(idx) {
            Some(s) => Some(s.clone()),
            None => None,
        }
    }

    /// A value as `print` shows it.
    pub fn display<H: Host>(&self, v: Value, host: &H) -> (r: Option<String>)
        ensures
            v.is_number_spec() ==> r is Some,
            !v.is_number_spec() ==> text_of(r) == display_spec(self.gc, v),
    {
        display_value(&self.gc, v, host)
    }

    /// The name of a value's type, as errors show it: `None` for a handle
    /// that names no object.
    pub open spec fn kind_spec(&self, v: Value) -> Option<Seq<char>> {
        value_kind(self.gc, self.stack@, v)
    }

    /// The name of a value's type, as errors show it: an instance is named
    /// by its class, an upvalue by the type of the value it holds.
    pub fn kind_name(&self, v: Value) -> (r: Option<String>)
        ensures
            text_of(r) == self.kind_spec(v),
    {
        if !v.is_object() {
            return scalar_kind_name(v);
        }
        let idx = match slot_of(v) {
            Some(i) => i,
            None => return None,
        };
        match object_in(&self.gc, idx) {
            Some(ObjectData::BoundMethod(_)) => Some(String::from_str("bound method")),
            Some(ObjectData::Class(_)) => Some(String::from_str("class")),
            Some(ObjectData::Closure(_)) => Some(String::from_str("function")),
            Some(ObjectData::Function(_)) => Some(String::from_str("raw function")),
            Some(ObjectData::Instance(inst)) => match object_in(&self.gc, inst.class) {
                Some(ObjectData::Class(c)) => string_in(&self.gc, c.name),
                _ => None,
            },
            Some(ObjectData::Native(_)) => Some(String::from_str("native function")),
            Some(ObjectData::String(_)) => Some(String::from_str("string")),
            Some(ObjectData::Upvalue(u)) => {
                let inner = match u.location {
                    Some(slot) => {
                        if slot < self.stack.len() {
                            self.stack[slot]
                        } else {
                            return None;
                        }
                    },
                    None => u.closed,
                };
                scalar_kind_name(inner)
            },
            None => None,
        }
    }
}

/// The data of the live object in slot `idx`.
pub open spec fn data_in(gc: Gc, idx: int) -> Option<ObjectData> {
    if 0 <= idx < gc.objects@.len() {
        match gc.objects@[idx] {
            Some(h) => Some(h.data),
            None => None,
        }
    } else {
        None
    }
}

/// The text of the string object in slot `idx`.
pub open spec fn text_in(gc: Gc, idx: int) -> Option<Seq<char>> {
    match data_in(gc, idx) {
        Some(ObjectData::String(s)) => Some(s.value@),
        _ => None,
    }
}

/// The name of the function object in slot `idx`.
pub open spec fn function_name_in(gc: Gc, idx: int) -> Option<Seq<char>> {
    match data_in(gc, idx) {
        Some(ObjectData::Function(f)) => text_in(gc, f.name as int),
        _ => None,
    }
}

/// `before`, the text, then `after`, where there is a text.
pub open spec fn framed(before: Seq<char>, text: Option<Seq<char>>, after: Seq<char>) -> Option<Seq<char>> {
    match text {
        Some(t) => Some(before + t + after),
        None => None,
    }
}

/// A function object as `print` shows it: the script has the empty name.
pub open spec fn function_text(gc: Gc, idx: int) -> Option<Seq<char>> {
    match function_name_in(gc, idx) {
        Some(n) => if n.len() == 0 {
            Some("<script>"@)
        } else {
            Some("<function "@ + n + ">"@)
        },
        None => None,
    }
}

/// The name of the class object in slot `idx`.
pub open spec fn class_name_in(gc: Gc, idx: int) -> Option<Seq<char>> {
    match data_in(gc, idx) {
        Some(ObjectData::Class(c)) => text_in(gc, c.name as int),
        _ => None,
    }
}

/// A value other than a number as `print` shows it; `None` for a handle
/// that names no object that can be shown.
pub open spec fn display_spec(gc: Gc, v: Value) -> Option<Seq<char>> {
    if v.is_nil_spec() {
        Some("nil"@)
    } else if v.0 == crate::value::TRUE_BITS {
        Some("true"@)
    } else if v.0 == crate::value::FALSE_BITS {
        Some("false"@)
    } else {
        match object_slot(v) {
            Some(idx) => match data_in(gc, idx as int) {
                Some(ObjectData::BoundMethod(b)) => match data_in(gc, b.closure as int) {
                    Some(ObjectData::Closure(c)) => framed(
                        "<bound method "@,
                        function_name_in(gc, c.function as int),
                        ">"@,
                    ),
                    _ => None,
                },
                Some(ObjectData::Class(c)) => framed("<class "@, text_in(gc, c.name as int), ">"@),
                Some(ObjectData::Closure(c)) => function_text(gc, c.function as int),
                Some(ObjectData::Function(_)) => function_text(gc, idx as int),
                Some(ObjectData::Instance(inst)) => framed("<object "@, class_name_in(gc, inst.class as int), ">"@),
                Some(ObjectData::Native(_)) => Some("<native fn>"@),
                Some(ObjectData::String(s)) => Some(s.value@),
                Some(ObjectData::Upvalue(_)) => Some("<upvalue>"@),
                None => None,
            },
            None => None,
        }
    }
}

/// The instance that a value refers to, if it refers to one.
pub open spec fn instance_of(gc: Gc, v: Value) -> Option<crate::object::ObjectInstance> {
    match object_slot(v) {
        Some(i) => match data_in(gc, i as int) {
            Some(ObjectData::Instance(o)) => Some(o),
            _ => None,
        },
        None => None,
    }
}

/// The methods of the class in slot `c`, if it holds one.
pub open spec fn methods_at(gc: Gc, c: int) -> Option<Map<usize, Value>> {
    match data_in(gc, c) {
        Some(ObjectData::Class(k)) => Some(value_table_contents(k.methods)),
        _ => None,
    }
}

/// The methods of the class that a value refers to, if it refers to one.
pub open spec fn class_methods(gc: Gc, v: Value) -> Option<Map<usize, Value>> {
    match object_slot(v) {
        Some(c) => methods_at(gc, c as int),
        None => None,
    }
}

/// The text of the string that a value refers to, if it refers to one.
pub open spec fn string_value(gc: Gc, v: Value) -> Option<Seq<char>> {
    match object_slot(v) {
        Some(i) => text_in(gc, i as int),
        None => None,
    }
}

/// Strings are interned: two string values are the same value exactly when
/// they have the same characters, however many collections came before.
pub proof fn lemma_string_values_equal(vm: &VM, a: Value, b: Value)
    requires
        vm.wf(),
        string_value(vm.gc, a) is Some,
        string_value(vm.gc, b) is Some,
    ensures
        (a == b) <==> (string_value(vm.gc, a) == string_value(vm.gc, b)),
{
    if string_value(vm.gc, a) == string_value(vm.gc, b) {
        let i = object_slot(a)->Some_0;
        let j = object_slot(b)->Some_0;
        let k = string_value(vm.gc, a)->Some_0;
        assert(vm.gc.is_string(i as int, k));
        assert(vm.gc.is_string(j as int, k));
        crate::gc::lemma_one_object_per_text(&vm.gc, i as int, j as int, k);
        crate::value::lemma_object_payload_determines(a.0, b.0);
    }
}

/// The value refers to a class named `name` that has no methods yet.
pub open spec fn new_class(gc: Gc, v: Value, name: usize) -> bool {
    match object_slot(v) {
        Some(c) => match data_in(gc, c as int) {
            Some(ObjectData::Class(k)) => k.name == name && value_table_contents(k.methods) == Map::<usize, Value>::empty(),
            _ => false,
        },
        None => false,
    }
}

/// The value refers to the method `closure` bound to the instance `this`.
pub open spec fn bound_to(gc: Gc, v: Value, this: usize, closure: usize) -> bool {
    match object_slot(v) {
        Some(b) => data_in(gc, b as int) == Some(ObjectData::BoundMethod(ObjectBoundMethod { this, closure })),
        None => false,
    }
}

/// The number of parameters of the closure in slot `c`.
pub open spec fn closure_arity(gc: Gc, c: int) -> Option<int> {
    match data_in(gc, c) {
        Some(ObjectData::Closure(cl)) => match data_in(gc, cl.function as int) {
            Some(ObjectData::Function(f)) => Some(f.arity as int),
            _ => None,
        },
        _ => None,
    }
}

/// The name of the function that the closure in slot `c` runs.
pub open spec fn closure_name(gc: Gc, c: int) -> Option<Seq<char>> {
    match data_in(gc, c) {
        Some(ObjectData::Closure(cl)) => function_name_in(gc, cl.function as int),
        _ => None,
    }
}

/// Whether `r` is the error that the function named `name`, of `exp`
/// parameters, got `got` arguments; a fault where it has no name.
pub open spec fn wrong_arity(r: Result<Step, Stop>, name: Option<Seq<char>>, exp: int, got: int) -> bool {
    match name {
        Some(n) => match r {
            Err(Stop::Error((Error::TypeError(TypeError::ArityMismatch { name, exp_args, got_args }), _))) => name@ == n
                && exp_args == exp && got_args == got,
            _ => false,
        },
        None => r == Err::<Step, Stop>(Stop::Fault),
    }
}

/// Whether `r` is the error that too many calls are running.
pub open spec fn stack_overflow(r: Result<Step, Stop>) -> bool {
    match r {
        Err(Stop::Error(e)) => e.0 == Error::OverflowError(OverflowError::StackOverflow),
        _ => false,
    }
}

/// Calling the closure in slot `c` with `argc` arguments on the stack `st`,
/// under the frames `fs`, ended in `after` with `r`: a new frame runs it,
/// whose slots start at the callee; too deep a call or the wrong number of
/// arguments is an error.
pub open spec fn closure_call(gc: Gc, st: Seq<Value>, fs: Seq<CallFrame>, after: VM, r: Result<Step, Stop>, c: int, argc: int) -> bool {
    &&& r != Ok::<Step, Stop>(Step::Finished)
    &&& fs.len() > FRAMES_MAX ==> stack_overflow(r) && after.frames@ == fs
    &&& r is Ok ==> argc < st.len() && after.stack@ == st && after.frames@ == fs.push(
        CallFrame { closure: c as usize, ip: 0, base: (st.len() - argc - 1) as usize },
    )
    &&& r is Err ==> after.frames@ == fs
    &&& (fs.len() <= FRAMES_MAX && closure_arity(gc, c) is Some && closure_arity(gc, c)->Some_0 != argc) ==> wrong_arity(
        r,
        closure_name(gc, c),
        closure_arity(gc, c)->Some_0,
        argc,
    )
    &&& (fs.len() <= FRAMES_MAX && closure_arity(gc, c) == Some(argc) && argc < st.len()) ==> r is Ok
}

/// The value refers to a new instance of the class in slot `class`.
pub open spec fn new_instance(gc: Gc, v: Value, class: usize) -> bool {
    match object_slot(v) {
        Some(o) => match data_in(gc, o as int) {
            Some(ObjectData::Instance(x)) => x.class == class && value_table_contents(x.fields) == Map::<usize, Value>::empty(),
            _ => false,
        },
        None => false,
    }
}

/// The name of a value's type, as errors show it, on the heap `gc` with the
/// stack `stack`: `None` for a handle that names no object.
pub open spec fn value_kind(gc: Gc, stack: Seq<Value>, v: Value) -> Option<Seq<char>> {
    if !v.is_object_spec() {
        scalar_kind(v)
    } else {
        match object_slot(v) {
            Some(idx) => match data_in(gc, idx as int) {
                Some(ObjectData::BoundMethod(_)) => Some("bound method"@),
                Some(ObjectData::Class(_)) => Some("class"@),
                Some(ObjectData::Closure(_)) => Some("function"@),
                Some(ObjectData::Function(_)) => Some("raw function"@),
                Some(ObjectData::Instance(inst)) => class_name_in(gc, inst.class as int),
                Some(ObjectData::Native(_)) => Some("native function"@),
                Some(ObjectData::String(_)) => Some("string"@),
                Some(ObjectData::Upvalue(u)) => match u.location {
                    Some(slot) => if slot < stack.len() {
                        scalar_kind(stack[slot as int])
                    } else {
                        None
                    },
                    None => scalar_kind(u.closed),
                },
                None => None,
            },
            None => None,
        }
    }
}

/// Whether `r` is the error that a value of kind `kind` cannot be called;
/// a fault where the value names no object.
pub open spec fn not_callable(r: Result<Step, Stop>, kind: Option<Seq<char>>) -> bool {
    match kind {
        Some(t) => match r {
            Err(Stop::Error((Error::TypeError(TypeError::NotCallable { type_ }), _))) => type_@ == t,
            _ => false,
        },
        None => r == Err::<Step, Stop>(Stop::Fault),
    }
}

/// Calling `callee` with the `argc` values on top of the stack `st` as its
/// arguments, under the frames `fs`, ended in `after` with `r`. A closure
/// gets a frame; a bound method puts its receiver in the callee's slot and
/// calls its closure; a class puts a new instance there and runs its
/// initializer `init`, if it has one; the native clock replaces the callee
/// by the time; anything else cannot be called.
pub open spec fn call_effect(
    gc: Gc,
    st: Seq<Value>,
    fs: Seq<CallFrame>,
    init: usize,
    after: VM,
    r: Result<Step, Stop>,
    callee: Value,
    argc: int,
) -> bool {
    let base = st.len() - argc - 1;
    match object_slot(callee) {
        Some(i) => match data_in(gc, i as int) {
            Some(ObjectData::Closure(_)) => closure_call(gc, st, fs, after, r, i as int, argc),
            Some(ObjectData::BoundMethod(b)) => if argc < st.len() && (b.this as u64) < OBJECT_PAYLOAD_LIMIT {
                closure_call(gc, st.update(base, Value::spec_object(b.this as u64)), fs, after, r, b.closure as int, argc)
            } else {
                r == Err::<Step, Stop>(Stop::Fault)
            },
            Some(ObjectData::Class(k)) => if argc < st.len() {
                let ms = value_table_contents(k.methods);
                let inst = after.stack@[base];
                out_of_memory(r) || {
                    &&& new_instance(after.gc, inst, i)
                    &&& after.stack@ == st.update(base, inst)
                    &&& ms.contains_key(init) ==> match object_slot(ms[init]) {
                        Some(c) => closure_call(after.gc, st.update(base, inst), fs, after, r, c as int, argc),
                        None => r == Err::<Step, Stop>(Stop::Fault),
                    }
                    &&& (!ms.contains_key(init) && argc == 0) ==> r == Ok::<Step, Stop>(Step::Running) && after.frames@ == fs
                    &&& (!ms.contains_key(init) && argc != 0) ==> wrong_arity(r, Some("init"@), 0, argc)
                }
            } else {
                r == Err::<Step, Stop>(Stop::Fault)
            },
            Some(ObjectData::Native(_)) => {
                &&& argc != 0 ==> wrong_arity(r, Some("clock"@), 0, argc)
                &&& (argc == 0 && st.len() > 0) ==> r == Ok::<Step, Stop>(Step::Running) && after.stack@.len() == st.len()
                    && after.stack@.drop_last() == st.drop_last() && after.frames@ == fs
            },
            Some(_) => not_callable(r, value_kind(gc, st, callee)),
            None => r == Err::<Step, Stop>(Stop::Fault),
        },
        None => not_callable(r, value_kind(gc, st, callee)),
    }
}

/// Calling the method `name` of the class in slot `class` with `argc`
/// arguments: an error when the class has no such method.
pub open spec fn class_invoke_effect(
    gc: Gc,
    st: Seq<Value>,
    fs: Seq<CallFrame>,
    after: VM,
    r: Result<Step, Stop>,
    class: int,
    name: usize,
    argc: int,
) -> bool {
    match methods_at(gc, class) {
        Some(ms) => if ms.contains_key(name) {
            match object_slot(ms[name]) {
                Some(c) => closure_call(gc, st, fs, after, r, c as int, argc),
                None => r == Err::<Step, Stop>(Stop::Fault),
            }
        } else {
            no_attribute(r)
        },
        None => r == Err::<Step, Stop>(Stop::Fault),
    }
}

/// Calling the method `name` of the receiver below the `argc` arguments: a
/// field of that name is called as a value; else the method of its class.
pub open spec fn invoke_effect(
    gc: Gc,
    st: Seq<Value>,
    fs: Seq<CallFrame>,
    init: usize,
    after: VM,
    r: Result<Step, Stop>,
    name: usize,
    argc: int,
) -> bool {
    argc < st.len() ==> match instance_of(gc, st[st.len() - 1 - argc]) {
        Some(o) => if value_table_contents(o.fields).contains_key(name) {
            call_effect(gc, st, fs, init, after, r, value_table_contents(o.fields)[name], argc)
        } else {
            class_invoke_effect(gc, st, fs, after, r, o.class as int, name, argc)
        },
        None => no_attribute(r),
    }
}

/// The stack slot that the open upvalue in slot `up` refers to.
pub open spec fn open_slot(gc: Gc, up: int) -> Option<usize> {
    match data_in(gc, up) {
        Some(ObjectData::Upvalue(u)) => u.location,
        _ => None,
    }
}

/// The upvalue in slot `up` is open on a stack slot at `last` or above,
/// below `len`.
pub open spec fn closable(gc: Gc, up: int, last: int, len: int) -> bool {
    match open_slot(gc, up) {
        Some(l) => last <= l < len,
        None => false,
    }
}

/// Capture `m` of the `CLOSURE` about to run in `vm` is described by `c`:
/// a local slot of the running frame, or an upvalue of its closure, as the
/// operand bytes say.
pub open spec fn capture_described(vm: VM, m: int, c: (bool, usize)) -> bool {
    let is_local = vm.code_at(1 + 2 * m);
    let idx = vm.code_at(2 + 2 * m);
    &&& is_local is Some && idx is Some
    &&& c.0 == (is_local->Some_0 != 0)
    &&& c.0 ==> c.1 == vm.frames@.last().base + idx->Some_0 && c.1 < vm.stack@.len()
    &&& !c.0 ==> vm.frame_upvalue_spec(idx->Some_0) == Some(c.1)
}

/// The upvalue `up` is what capture `c` asks for: an open upvalue of the
/// stack slot, or the given upvalue itself.
pub open spec fn capture_holds(gc: Gc, open: Seq<usize>, c: (bool, usize), up: usize) -> bool {
    if c.0 {
        open_slot(gc, up as int) == Some(c.1) && open.contains(up)
    } else {
        up == c.1
    }
}

/// Upvalue `m` of the closure that the `CLOSURE` about to run in `vm`
/// makes is `up`: for a local, an open upvalue of the running frame's slot
/// that the operand bytes name; else the running closure's upvalue that they
/// name.
pub open spec fn capture_ok(vm: VM, o: int, gc: Gc, open: Seq<usize>, m: int, up: usize) -> bool {
    let is_local = vm.code_at(o + 1 + 2 * m);
    let idx = vm.code_at(o + 2 + 2 * m);
    &&& is_local is Some && idx is Some
    &&& is_local->Some_0 != 0 ==> open_slot(gc, up as int) == Some((vm.frames@.last().base + idx->Some_0) as usize)
        && open.contains(up)
    &&& is_local->Some_0 == 0 ==> vm.frame_upvalue_spec(idx->Some_0) == Some(up)
}

/// The `CLOSURE` instruction `o` bytes after the instruction pointer of
/// `before` ran and ended in `after`: the
/// closure of the function constant is on top of the stack, with one
/// upvalue for each pair of operand bytes, each as the bytes describe.
pub open spec fn closure_made(before: VM, o: int, after: VM) -> bool {
    let st = before.stack@;
    match before.constant_at(o) {
        Some(fv) => match object_slot(fv) {
            Some(func) => match data_in(before.gc, func as int) {
                Some(ObjectData::Function(f)) => {
                    let count = f.upvalue_count as int;
                    &&& after.stack@.len() == st.len() + 1
                    &&& after.stack@.drop_last() == st
                    &&& after.frames@ == advanced_frames(before.frames@, o + 1 + 2 * count)
                    &&& match object_slot(after.stack@.last()) {
                        Some(c) => match data_in(after.gc, c as int) {
                            Some(ObjectData::Closure(cl)) => {
                                &&& cl.function == func
                                &&& cl.upvalues@.len() == count
                                &&& forall|m: int|
                                    0 <= m < count ==> capture_ok(before, o, after.gc, after.open_upvalues@, m, #[trigger] cl.upvalues@[m])
                            },
                            _ => false,
                        },
                        None => false,
                    }
                },
                _ => false,
            },
            None => false,
        },
        None => false,
    }
}

/// What a `CLOSURE` made, seen from one byte of code earlier.
pub proof fn lemma_closure_made_shift(before: VM, mid: VM, after: VM)
    requires
        mid.gc == before.gc,
        mid.stack == before.stack,
        before.frames@.len() > 0,
        before.code_at(0) is Some,
        mid.frames@ == advanced_frames(before.frames@, 1),
        closure_made(mid, 0, after),
    ensures
        closure_made(before, 1, after),
{
    lemma_advance_code(before, mid);
    let n = before.frames@.len();
    assert(mid.frames@.len() == n);
    assert(mid.frames@.last().closure == before.frames@.last().closure);
    assert forall|i: u8| mid.frame_upvalue_spec(i) == before.frame_upvalue_spec(i) by {}
    assert(mid.constant_at(0) == before.constant_at(1));
    let fv = before.constant_at(1)->Some_0;
    let func = object_slot(fv)->Some_0;
    let f = data_in(before.gc, func as int)->Some_0->Function_0;
    let count = f.upvalue_count as int;
    let mf = advanced_frames(mid.frames@, 1 + 2 * count);
    let c = object_slot(after.stack@.last())->Some_0;
    let cl = data_in(after.gc, c as int)->Some_0->Closure_0;
    let rf = mid.running_function()->Some_0;
    assert(rf.chunk.ops@.len() == rf.chunk.ops.len());
    if count > 0 {
        assert(capture_ok(mid, 0, after.gc, after.open_upvalues@, count - 1, cl.upvalues@[count - 1]));
        assert(mid.code_at(2 * count) is Some);
    } else {
        assert(mid.code_at(0) is Some);
    }
    assert(mid.frames@.last().ip + 1 + 2 * count <= usize::MAX);
    assert(mf[n - 1].ip == before.frames@.last().ip + 2 + 2 * count);
    assert forall|q: int| 0 <= q < n - 1 implies mf[q] == before.frames@[q] by {
        assert(mf[q] == mid.frames@[q]);
    }
    assert(mf =~= advanced_frames(before.frames@, 2 + 2 * count));
    assert forall|m: int| 0 <= m < count implies capture_ok(before, 1, after.gc, after.open_upvalues@, m, #[trigger] cl.upvalues@[m]) by {
        assert(capture_ok(mid, 0, after.gc, after.open_upvalues@, m, cl.upvalues@[m]));
        assert(mid.code_at(1 + 2 * m) == before.code_at(2 + 2 * m));
        assert(mid.code_at(2 + 2 * m) == before.code_at(3 + 2 * m));
    }
}

/// A `print` in `before` ended in `after`: when the value on top of the
/// stack can be shown, its line was handed to the host, after the lines
/// before; else no line was.
pub open spec fn printed(before: VM, after: VM) -> bool {
    let st = before.stack@;
    if st.len() > 0 && (st.last().is_number_spec() || display_spec(before.gc, st.last()) is Some) {
        &&& after.written@.len() == before.written@.len() + 1
        &&& after.written@.drop_last() == before.written@
        &&& !st.last().is_number_spec() ==> after.written@.last() == display_spec(before.gc, st.last())->Some_0
    } else {
        after.written == before.written
    }
}

/// The answer to a global `name` that is not defined: a `NotDefined` error
/// that names it, at `span`, or a fault when `name` is no string.
pub open spec fn not_defined(gc: Gc, name: usize, span: Span, r: Result<Step, Stop>) -> bool {
    match text_in(gc, name as int) {
        Some(t) => match r {
            Err(Stop::Error(e)) => e.1 == span && match e.0 {
                Error::NameError(NameError::NotDefined { name: n }) => n@ == t,
                _ => false,
            },
            _ => false,
        },
        None => r == Err::<Step, Stop>(Stop::Fault),
    }
}

/// One instruction ran in `a` and ended in `b` with `r`: what each
/// opcode does to the stack, the frames, the globals, the heap and the
/// lines handed to the host.
pub open spec fn step_effect(a: VM, b: VM, r: Result<Step, Stop>) -> bool {
    &&& b.wf()
    &&& r == Ok::<Step, Stop>(Step::Finished) ==> b.frames@.len() == 0
    &&& a.code_at(0) is None ==> r == Err::<Step, Stop>(Stop::Fault)
    &&& ({
                let st = a.stack@;
                let op = a.code_at(0);
                let b1 = a.code_at(1);
                let b2 = a.code_at(2);
                let slot = a.frames@.last().base + b1->Some_0;
                let off = b2->Some_0 * 256 + b1->Some_0;
                let globals = value_table_contents(a.globals);
                let name = match a.constant_at(1) {
                    Some(v) => object_slot(v),
                    None => None,
                };
                &&& (op == Some(op::NIL) || op == Some(op::TRUE) || op == Some(op::FALSE)) ==> r == Ok::<Step, Stop>(Step::Running)
                    && b.stack@ == st.push(Value(if op == Some(op::NIL) {
                        crate::value::NIL_BITS
                    } else if op == Some(op::TRUE) {
                        crate::value::TRUE_BITS
                    } else {
                        crate::value::FALSE_BITS
                    })) && b.frames@ == advanced_frames(a.frames@, 1) && b.gc == a.gc
                    && b.globals == a.globals
                &&& (op == Some(op::CONSTANT) && a.constant_at(1) is Some) ==> r == Ok::<Step, Stop>(Step::Running)
                    && b.stack@ == st.push(a.constant_at(1)->Some_0)
                    && b.frames@ == advanced_frames(a.frames@, 2) && b.globals == a.globals
                &&& (op == Some(op::DEFINE_GLOBAL) && name is Some && st.len() > 0) ==> r == Ok::<Step, Stop>(Step::Running)
                    && b.stack@ == st.drop_last()
                    && value_table_contents(b.globals) == globals.insert(name->Some_0, st.last())
                    && b.frames@ == advanced_frames(a.frames@, 2)
                &&& (op == Some(op::GET_GLOBAL) && name is Some && globals.contains_key(name->Some_0)) ==> r == Ok::<Step, Stop>(Step::Running)
                    && b.stack@ == st.push(globals[name->Some_0])
                    && b.frames@ == advanced_frames(a.frames@, 2)
                &&& (op == Some(op::GET_GLOBAL) && name is Some && !globals.contains_key(name->Some_0)) ==> not_defined(a.gc, name->Some_0, b.span_spec(), r)
                &&& (op == Some(op::SET_GLOBAL) && name is Some && st.len() > 0 && globals.contains_key(name->Some_0)) ==> r
                    == Ok::<Step, Stop>(Step::Running) && b.stack@ == st
                    && value_table_contents(b.globals) == globals.insert(name->Some_0, st.last())
                    && b.frames@ == advanced_frames(a.frames@, 2)
                &&& (op == Some(op::SET_GLOBAL) && name is Some && st.len() > 0 && !globals.contains_key(name->Some_0)) ==> not_defined(
                    a.gc, name->Some_0, b.span_spec(), r) && b.globals == a.globals
                &&& ((numeric_opcode(op) || op == Some(op::ADD)) && st.len() >= 2 && st[st.len() - 2].is_number_spec()
                    && st.last().is_number_spec()) ==> r == Ok::<Step, Stop>(Step::Running)
                    && b.stack@.len() == st.len() - 1 && b.stack@.drop_last() == st.drop_last().drop_last()
                    && b.frames@ == advanced_frames(a.frames@, 1) && b.globals == a.globals
                    && (compared(op, st[st.len() - 2].0, st.last().0) is Some ==> b.stack@.last() == Value::from_bool_spec(
                    compared(op, st[st.len() - 2].0, st.last().0)->Some_0,
                ))
                &&& (numeric_opcode(op) && st.len() >= 2 && !(st[st.len() - 2].is_number_spec() && st.last().is_number_spec()))
                    ==> (r matches Err(Stop::Error(e)) && e.0 is TypeError && e.0->TypeError_0 is UnsupportedOperandInfix)
                    || r == Err::<Step, Stop>(Stop::Fault)
                &&& (op == Some(op::NEGATE) && st.len() > 0 && st.last().is_number_spec()) ==> r == Ok::<Step, Stop>(Step::Running)
                    && b.stack@ == st.drop_last().push(Value(negated(st.last().0)))
                    && b.frames@ == advanced_frames(a.frames@, 1)
                &&& (op == Some(op::NEGATE) && st.len() > 0 && !st.last().is_number_spec()) ==> (r matches Err(Stop::Error(e))
                    && e.0 is TypeError && e.0->TypeError_0 is UnsupportedOperandPrefix) || r == Err::<Step, Stop>(Stop::Fault)
                &&& (op == Some(op::GET_PROPERTY) && name is Some && st.len() > 0 && instance_of(a.gc, st.last()) is Some
                    && value_table_contents(instance_of(a.gc, st.last())->Some_0.fields).contains_key(name->Some_0))
                    ==> r == Ok::<Step, Stop>(Step::Running) && b.stack@ == st.drop_last().push(
                    value_table_contents(instance_of(a.gc, st.last())->Some_0.fields)[name->Some_0],
                ) && b.frames@ == advanced_frames(a.frames@, 2) && b.gc == a.gc
                &&& ((op == Some(op::GET_PROPERTY) && name is Some && st.len() > 0) || (op == Some(op::SET_PROPERTY) && name is Some
                    && st.len() >= 2)) && instance_of(a.gc, st.last()) is None ==> no_attribute(r)
                &&& (op == Some(op::SET_PROPERTY) && name is Some && st.len() >= 2 && instance_of(a.gc, st.last()) is Some)
                    ==> r == Ok::<Step, Stop>(Step::Running) && b.stack@ == st.drop_last()
                    && b.frames@ == advanced_frames(a.frames@, 2) && instance_of(b.gc, st.last()) is Some
                    && value_table_contents(instance_of(b.gc, st.last())->Some_0.fields) == value_table_contents(
                    instance_of(a.gc, st.last())->Some_0.fields,
                ).insert(name->Some_0, st[st.len() - 2])
                &&& (op == Some(op::GET_UPVALUE) && b1 is Some && a.frame_upvalue_spec(b1->Some_0) is Some
                    && a.upvalue_value(a.frame_upvalue_spec(b1->Some_0)->Some_0 as int) is Some) ==> r == Ok::<
                    Step,
                    Stop,
                >(Step::Running) && b.stack@ == st.push(
                    a.upvalue_value(a.frame_upvalue_spec(b1->Some_0)->Some_0 as int)->Some_0,
                ) && b.frames@ == advanced_frames(a.frames@, 2) && b.gc == a.gc
                &&& (op == Some(op::SET_UPVALUE) && b1 is Some && st.len() > 0 && a.frame_upvalue_spec(b1->Some_0) is Some
                    && a.upvalue_value(a.frame_upvalue_spec(b1->Some_0)->Some_0 as int) is Some) ==> r == Ok::<
                    Step,
                    Stop,
                >(Step::Running) && b.upvalue_value(a.frame_upvalue_spec(b1->Some_0)->Some_0 as int) == Some(
                    st.last(),
                ) && b.frames@ == advanced_frames(a.frames@, 2)
                &&& (op == Some(op::PRINT) && st.len() > 0) ==> b.stack@ == st.drop_last() && (r == Ok::<Step, Stop>(
                    Step::Running,
                ) ==> b.frames@ == advanced_frames(a.frames@, 1))
                &&& (op == Some(op::CALL) && b1 is Some && b1->Some_0 < st.len()) ==> call_effect(
                    a.gc,
                    st,
                    advanced_frames(a.frames@, 2),
                    a.init_string,
                    b,
                    r,
                    st[st.len() - 1 - b1->Some_0],
                    b1->Some_0 as int,
                )
                &&& (op == Some(op::RETURN) && st.len() > 0 && a.frames@.last().base <= st.len() - 1) ==> {
                    let base = a.frames@.last().base as int;
                    &&& b.frames@ == a.frames@.drop_last()
                    &&& forall|j: int|
                        0 <= j < a.open_upvalues@.len() && closable(
                            a.gc,
                            #[trigger] a.open_upvalues@[j] as int,
                            base,
                            st.len() - 1,
                        ) ==> data_in(b.gc, a.open_upvalues@[j] as int) == Some(
                            ObjectData::Upvalue(ObjectUpvalue {
                                location: None,
                                closed: st[open_slot(a.gc, a.open_upvalues@[j] as int)->Some_0 as int],
                            }),
                        )
                    &&& a.frames@.len() == 1 ==> r == Ok::<Step, Stop>(Step::Finished) && b.stack@ == st.take(base)
                    &&& a.frames@.len() > 1 ==> r == Ok::<Step, Stop>(Step::Running) && b.stack@ == st.take(
                        base,
                    ).push(st.last())
                }
                &&& (op == Some(op::ADD) && st.len() >= 2 && string_value(a.gc, st[st.len() - 2]) is Some && string_value(
                    a.gc,
                    st.last(),
                ) is Some) ==> out_of_memory(r) || (r == Ok::<Step, Stop>(Step::Running) && b.stack@.len() == st.len() - 1
                    && b.stack@.drop_last() == st.drop_last().drop_last() && string_value(
                    b.gc,
                    b.stack@.last(),
                ) == Some(string_value(a.gc, st[st.len() - 2])->Some_0 + string_value(a.gc, st.last())->Some_0)
                    && b.frames@ == advanced_frames(a.frames@, 1))
                &&& (op == Some(op::ADD) && st.len() >= 2 && !(st[st.len() - 2].is_number_spec() && st.last().is_number_spec())
                    && !(string_value(a.gc, st[st.len() - 2]) is Some && string_value(a.gc, st.last()) is Some)) ==> (
                match r {
                    Err(Stop::Error(e)) => e.0 is TypeError && e.0->TypeError_0 is UnsupportedOperandInfix,
                    _ => r == Err::<Step, Stop>(Stop::Fault),
                })
                &&& (op == Some(op::GET_PROPERTY) && name is Some && st.len() > 0 && instance_of(a.gc, st.last()) is Some
                    && !value_table_contents(instance_of(a.gc, st.last())->Some_0.fields).contains_key(name->Some_0)) ==> {
                    let ms = methods_at(a.gc, instance_of(a.gc, st.last())->Some_0.class as int);
                    &&& (ms is Some && ms->Some_0.contains_key(name->Some_0) && object_slot(ms->Some_0[name->Some_0]) is Some)
                        ==> out_of_memory(r) || (r == Ok::<Step, Stop>(Step::Running) && b.stack@.len() == st.len()
                        && b.stack@.drop_last() == st.drop_last() && bound_to(
                        b.gc,
                        b.stack@.last(),
                        object_slot(st.last())->Some_0,
                        object_slot(ms->Some_0[name->Some_0])->Some_0,
                    ) && b.frames@ == advanced_frames(a.frames@, 2))
                    &&& (ms is Some && !ms->Some_0.contains_key(name->Some_0)) ==> no_attribute(r)
                }
                &&& (op == Some(op::GET_SUPER) && name is Some && st.len() >= 2 && class_methods(a.gc, st.last()) is Some) ==> {
                    let ms = class_methods(a.gc, st.last())->Some_0;
                    &&& (ms.contains_key(name->Some_0) && object_slot(st[st.len() - 2]) is Some && object_slot(ms[name->Some_0]) is Some)
                        ==> out_of_memory(r) || (r == Ok::<Step, Stop>(Step::Running) && b.stack@.len() == st.len() - 1
                        && b.stack@.drop_last() == st.drop_last().drop_last() && bound_to(
                        b.gc,
                        b.stack@.last(),
                        object_slot(st[st.len() - 2])->Some_0,
                        object_slot(ms[name->Some_0])->Some_0,
                    ) && b.frames@ == advanced_frames(a.frames@, 2))
                    &&& !ms.contains_key(name->Some_0) ==> no_attribute(r)
                }
                &&& (op == Some(op::INVOKE) && name is Some && b2 is Some) ==> invoke_effect(
                    a.gc,
                    st,
                    advanced_frames(a.frames@, 3),
                    a.init_string,
                    b,
                    r,
                    name->Some_0,
                    b2->Some_0 as int,
                )
                &&& (op == Some(op::SUPER_INVOKE) && name is Some && b2 is Some && st.len() > 0 && object_slot(st.last()) is Some)
                    ==> class_invoke_effect(
                    a.gc,
                    st.drop_last(),
                    advanced_frames(a.frames@, 3),
                    b,
                    r,
                    object_slot(st.last())->Some_0 as int,
                    name->Some_0,
                    b2->Some_0 as int,
                )
                &&& op == Some(op::CLOSURE) ==> (r is Err ==> out_of_memory(r) || r == Err::<Step, Stop>(Stop::Fault)) && (r is Ok
                    ==> closure_made(a, 1, b))
                &&& (op == Some(op::CLASS) && name is Some) ==> out_of_memory(r) || (r == Ok::<Step, Stop>(Step::Running)
                    && b.stack@.len() == st.len() + 1 && b.stack@.drop_last() == st
                    && new_class(b.gc, b.stack@.last(), name->Some_0)
                    && b.frames@ == advanced_frames(a.frames@, 2))
                &&& (op == Some(op::METHOD) && name is Some && st.len() >= 2 && class_methods(a.gc, st[st.len() - 2]) is Some)
                    ==> r == Ok::<Step, Stop>(Step::Running) && b.stack@ == st.drop_last() && class_methods(
                    b.gc,
                    st[st.len() - 2],
                ) == Some(class_methods(a.gc, st[st.len() - 2])->Some_0.insert(name->Some_0, st.last()))
                    && b.frames@ == advanced_frames(a.frames@, 2)
                &&& (op == Some(op::INHERIT) && st.len() >= 2 && class_methods(a.gc, st.last()) is Some && class_methods(
                    a.gc,
                    st[st.len() - 2],
                ) is Some) ==> r == Ok::<Step, Stop>(Step::Running) && b.stack@ == st.drop_last() && class_methods(
                    b.gc,
                    st.last(),
                ) == class_methods(a.gc, st[st.len() - 2]) && b.frames@ == advanced_frames(a.frames@, 1)
                &&& (op == Some(op::INHERIT) && st.len() >= 2 && class_methods(a.gc, st[st.len() - 2]) is None) ==> r is Err
                &&& (op == Some(op::CLOSE_UPVALUE) && st.len() > 0) ==> r == Ok::<Step, Stop>(Step::Running)
                    && b.stack@ == st.drop_last() && b.frames@ == advanced_frames(a.frames@, 1)
                    && forall|j: int|
                    0 <= j < a.open_upvalues@.len() && closable(
                        a.gc,
                        #[trigger] a.open_upvalues@[j] as int,
                        st.len() - 1,
                        st.len() as int,
                    ) ==> data_in(b.gc, a.open_upvalues@[j] as int) == Some(
                        ObjectData::Upvalue(ObjectUpvalue { location: None, closed: st.last() }),
                    )
                &&& (op == Some(op::POP) && st.len() > 0) ==> r == Ok::<Step, Stop>(Step::Running)
                    && b.stack@ == st.drop_last() && b.frames@ == advanced_frames(a.frames@, 1)
                &&& (op == Some(op::NOT) && st.len() > 0) ==> r == Ok::<Step, Stop>(Step::Running)
                    && b.stack@ == st.drop_last().push(Value(if st.last().truthy() {
                        crate::value::FALSE_BITS
                    } else {
                        crate::value::TRUE_BITS
                    })) && b.frames@ == advanced_frames(a.frames@, 1)
                &&& ((op == Some(op::EQUAL) || op == Some(op::NOT_EQUAL)) && st.len() >= 2) ==> r == Ok::<Step, Stop>(Step::Running)
                    && b.stack@ == st.drop_last().drop_last().push(
                        Value::from_bool_spec((st[st.len() - 2].0 == st.last().0) == (op == Some(op::EQUAL))),
                    ) && b.frames@ == advanced_frames(a.frames@, 1)
                &&& (op == Some(op::GET_LOCAL) && b1 is Some && slot < st.len()) ==> r == Ok::<Step, Stop>(Step::Running)
                    && b.stack@ == st.push(st[slot])
                    && b.frames@ == advanced_frames(a.frames@, 2)
                &&& (op == Some(op::SET_LOCAL) && b1 is Some && slot < st.len()) ==> r == Ok::<Step, Stop>(Step::Running)
                    && b.stack@ == st.update(slot, st.last())
                    && b.frames@ == advanced_frames(a.frames@, 2)
                &&& (op == Some(op::JUMP) && b1 is Some && b2 is Some
                    && a.frames@.last().ip + 3 + off <= usize::MAX) ==> r == Ok::<Step, Stop>(Step::Running)
                    && b.stack@ == st && b.frames@ == advanced_frames(a.frames@, 3 + off)
                &&& (op == Some(op::LOOP) && b1 is Some && b2 is Some
                    && off <= a.frames@.last().ip + 3) ==> r == Ok::<Step, Stop>(Step::Running)
                    && b.stack@ == st && b.frames@ == advanced_frames(a.frames@, 3 - off)
                &&& (op == Some(op::JUMP_IF_FALSE) && b1 is Some && b2 is Some
                    && st.len() > 0 && a.frames@.last().ip + 3 + off <= usize::MAX) ==> r == Ok::<Step, Stop>(Step::Running)
                    && b.stack@ == st && b.frames@ == advanced_frames(
                        a.frames@,
                        if st.last().truthy() { 3 } else { 3 + off },
                    )
            })
    &&& a.code_at(0) == Some(op::PRINT) ==> printed(a, b)
    &&& a.code_at(0) != Some(op::PRINT) ==> b.written == a.written
    &&& heap_untouched(a.code_at(0)) ==> b.gc == a.gc
}

/// Opcodes that leave the heap as it was.
pub open spec fn heap_untouched(op: Option<u8>) -> bool {
    op == Some(op::NIL) || op == Some(op::TRUE) || op == Some(op::FALSE) || op == Some(op::POP) || op == Some(op::NOT)
        || op == Some(op::EQUAL) || op == Some(op::NOT_EQUAL) || op == Some(op::JUMP) || op == Some(op::JUMP_IF_FALSE)
        || op == Some(op::PRINT)
}

/// `n` instructions ran from `a` to `b`, each ending with more to run.
pub open spec fn ran(a: VM, b: VM, n: nat) -> bool
    decreases n,
{
    if n == 0 {
        a == b
    } else {
        exists|m: VM| #[trigger] step_effect(m, b, Ok(Step::Running)) && ran(a, m, (n - 1) as nat)
    }
}

/// At most `n` instructions ran from `a` to `b`, each ending with more to
/// run.
pub open spec fn ran_upto(a: VM, b: VM, n: nat) -> bool
    decreases n,
{
    ran(a, b, n) || (n > 0 && ran_upto(a, b, (n - 1) as nat))
}

/// Running fewer instructions is running at most more.
pub proof fn lemma_ran_upto(a: VM, b: VM, k: nat, n: nat)
    requires
        ran(a, b, k),
        k <= n,
    ensures
        ran_upto(a, b, n),
    decreases n - k,
{
    if k < n {
        lemma_ran_upto(a, b, k, (n - 1) as nat);
    }
}

/// Whether `r` is the error that the heap is full.
pub open spec fn out_of_memory(r: Result<Step, Stop>) -> bool {
    match r {
        Err(Stop::Error(e)) => e.0 == Error::OverflowError(OverflowError::OutOfMemory),
        _ => false,
    }
}

/// Whether `r` is the error that a value has no attribute, or a fault.
pub open spec fn no_attribute(r: Result<Step, Stop>) -> bool {
    (r matches Err(Stop::Error(e)) && e.0 is AttributeError) || r == Err::<Step, Stop>(Stop::Fault)
}

/// The view of an optional string.
pub open spec fn text_of(r: Option<String>) -> Option<Seq<char>> {
    match r {
        Some(s) => Some(s@),
        None => None,
    }
}

/// A value as `print` shows it; a number's text comes from the host.
pub fn display_value<H: Host>(gc: &Gc, v: Value, host: &H) -> (r: Option<String>)
    ensures
        v.is_number_spec() ==> r is Some,
        !v.is_number_spec() ==> text_of(r) == display_spec(*gc, v),
{
    proof {
        crate::value::lemma_classification_disjoint(v.0);
    }
    if v.is_nil() {
        return Some(String::from_str("nil"));
    }
    if v.is_true() {
        return Some(String::from_str("true"));
    }
    if v.is_false() {
        return Some(String::from_str("false"));
    }
    if v.is_number() {
        return Some(host.display_number(v.to_bits()));
    }
    let idx = match slot_of(v) {
        Some(i) => i,
        None => return None,
    };
    match object_in(gc, idx) {
        Some(ObjectData::BoundMethod(b)) => match object_in(gc, b.closure) {
            Some(ObjectData::Closure(c)) => match function_name(gc, c.function) {
                Some(name) => Some(wrap("<bound method ", name.as_str(), ">")),
                None => None,
            },
            _ => None,
        },
        Some(ObjectData::Class(c)) => match string_in(gc, c.name) {
            Some(name) => Some(wrap("<class ", name.as_str(), ">")),
            None => None,
        },
        Some(ObjectData::Closure(c)) => display_function(gc, c.function),
        Some(ObjectData::Function(_)) => display_function(gc, idx),
        Some(ObjectData::Instance(inst)) => match object_in(gc, inst.class) {
            Some(ObjectData::Class(c)) => match string_in(gc, c.name) {
                Some(name) => Some(wrap("<object ", name.as_str(), ">")),
                None => None,
            },
            _ => None,
        },
        Some(ObjectData::Native(_)) => Some(String::from_str("<native fn>")),
        Some(ObjectData::String(s)) => Some(s.value.clone()),
        Some(ObjectData::Upvalue(_)) => Some(String::from_str("<upvalue>")),
        None => None,
    }
}

/// A function as `print` shows it: the script has the empty name.
fn display_function(gc: &Gc, idx: usize) -> (r: Option<String>)
    ensures
        text_of(r) == function_text(*gc, idx as int),
{
    match function_name(gc, idx) {
        Some(name) => {
            if name.as_str().is_empty() {
                Some(String::from_str("<script>"))
            } else {
                Some(wrap("<function ", name.as_str(), ">"))
            }
        },
        None => None,
    }
}

/// The name of the function in slot `idx`, or `None`.
fn function_name(gc: &Gc, idx: usize) -> (r: Option<String>)
    ensures
        text_of(r) == function_name_in(*gc, idx as int),
{
    match object_in(gc, idx) {
        Some(ObjectData::Function(f)) => string_in(gc, f.name),
        _ => None,
    }
}

/// The data of the live object in slot `idx`.
pub fn object_in(gc: &Gc, idx: usize) -> (r: Option<&ObjectData>)
    ensures
        r matches Some(d) ==> idx < gc.objects@.len() && (gc.objects@[idx as int] matches Some(h) && h.data == *d),
        r is None ==> !live(gc.objects@, idx as int),
        (match r {
            Some(d) => Some(*d),
            None => None,
        }) == data_in(*gc, idx as int),
{
    if idx < gc.objects.len() {
        match &gc.objects[idx] {
            Some(h) => Some(&h.data),
            None => None,
        }
    } else {
        None
    }
}

/// The text of the string object in slot `idx`.
fn string_in(gc: &Gc, idx: usize) -> (r: Option<String>)
    ensures
        r matches Some(s) ==> gc.is_string(idx as int, s@),
        text_of(r) == text_in(*gc, idx as int),
{
    match gc.string_at(idx) {
        Some(s) => Some(s.clone()),
        None => None,
    }
}

/// The name of the type of a value that is not an object.
pub open spec fn scalar_kind(v: Value) -> Option<Seq<char>> {
    if v.is_nil_spec() {
        Some("nil"@)
    } else if v.is_bool_spec() {
        Some("bool"@)
    } else if v.is_number_spec() {
        Some("number"@)
    } else {
        None
    }
}

/// The name of the type of a value that is not an object.
fn scalar_kind_name(v: Value) -> (r: Option<String>)
    ensures
        text_of(r) == scalar_kind(v),
{
    if v.is_nil() {
        Some(String::from_str("nil"))
    } else if v.is_bool() {
        Some(String::from_str("bool"))
    } else if v.is_number() {
        Some(String::from_str("number"))
    } else {
        None
    }
}

/// Whether an opcode subtracts, multiplies, divides or compares two numbers.
/// What a comparison opcode answers on the numbers `x` (below the top of
/// the stack) and `y` (on top); `None` for the other opcodes.
pub open spec fn compared(op: Option<u8>, x: u64, y: u64) -> Option<bool> {
    if op == Some(op::GREATER) {
        Some(double_less(y, x))
    } else if op == Some(op::GREATER_EQUAL) {
        Some(double_less_equal(y, x))
    } else if op == Some(op::LESS) {
        Some(double_less(x, y))
    } else if op == Some(op::LESS_EQUAL) {
        Some(double_less_equal(x, y))
    } else {
        None
    }
}

pub open spec fn numeric_opcode(op: Option<u8>) -> bool {
    op == Some(op::SUBTRACT) || op == Some(op::MULTIPLY) || op == Some(op::DIVIDE) || op == Some(op::GREATER)
        || op == Some(op::GREATER_EQUAL) || op == Some(op::LESS) || op == Some(op::LESS_EQUAL)
}

/// `before`, then `s`, then `after`.
pub(crate) fn wrap(before: &str, s: &str, after: &str) -> (r: String)
    ensures
        r@ == before@ + s@ + after@,
{
    let mut r = String::from_str(before);
    r.append(s);
    r.append(after);
    r
}


impl VM {
    /// The slots that the machine itself refers to: the `init` string, the
    /// objects on the stack, the globals' names and object values, the
    /// running closures and the open upvalues.
    pub open spec fn vm_roots(&self) -> Set<int> {
        Set::new(|j: int| 0 <= j <= usize::MAX && {
            let s = j as usize;
            ||| s == self.init_string
            ||| (exists|q: int| 0 <= q < self.stack@.len() && object_slot(#[trigger] self.stack@[q]) == Some(s))
            ||| value_table_contents(self.globals).contains_key(s)
            ||| (exists|k: usize| #[trigger] value_table_contents(self.globals).contains_key(k)
                && object_slot(value_table_contents(self.globals)[k]) == Some(s))
            ||| (exists|q: int| 0 <= q < self.frames@.len() && (#[trigger] self.frames@[q]).closure == s)
            ||| (exists|q: int| 0 <= q < self.open_upvalues@.len() && #[trigger] self.open_upvalues@[q] == s)
        })
    }

    /// Frees every object that the machine cannot reach. Whatever it can
    /// reach keeps its slot and its contents; the machine's own state is
    /// untouched.
    pub fn collect_garbage(&mut self)
        requires
            old(self).wf(),
        ensures
            final(self).written == old(self).written,
            final(self).wf(),
            final(self).stack == old(self).stack,
            final(self).globals == old(self).globals,
            final(self).frames == old(self).frames,
            final(self).open_upvalues == old(self).open_upvalues,
            final(self).init_string == old(self).init_string,
            final(self).gc.objects@.len() == old(self).gc.objects@.len(),
            forall|j: int| #[trigger] reachable(old(self).gc.objects@, old(self).vm_roots(), j) ==> live(final(self).gc.objects@, j)
                && final(self).gc.objects@[j]->Some_0.data == old(self).gc.objects@[j]->Some_0.data,
            forall|i: int| #[trigger] live(final(self).gc.objects@, i) ==> live(old(self).gc.objects@, i)
                && final(self).gc.objects@[i]->Some_0.data == old(self).gc.objects@[i]->Some_0.data,
            forall|i: int| #[trigger] live(final(self).gc.objects@, i) ==> reachable(old(self).gc.objects@, old(self).vm_roots(), i),
            forall|k: Seq<char>|
                #[trigger] string_table_contents(final(self).gc.strings).contains_key(k) ==> string_table_contents(
                    old(self).gc.strings,
                ).contains_key(k) && string_table_contents(final(self).gc.strings)[k] == string_table_contents(
                    old(self).gc.strings,
                )[k],
            forall|k: Seq<char>|
                #[trigger] string_table_contents(old(self).gc.strings).contains_key(k) && reachable(
                    old(self).gc.objects@,
                    old(self).vm_roots(),
                    string_table_contents(old(self).gc.strings)[k] as int,
                ) ==> string_table_contents(final(self).gc.strings).contains_key(k),
    {
        let mut roots: Vec<usize> = Vec::new();
        roots.push(self.init_string);
        let mut q: usize = 0;
        while q < self.stack.len()
            invariant
                q <= self.stack@.len(),
                roots@.contains(self.init_string),
                forall|q: int| 0 <= q < roots@.len() ==> self.vm_roots().contains(#[trigger] roots@[q] as int),
                forall|r: int| 0 <= r < q && object_slot(self.stack@[r]) is Some ==> roots@.contains(#[trigger] object_slot(self.stack@[r])->Some_0),
            decreases self.stack@.len() - q,
        {
            match slot_of(self.stack[q]) {
                Some(s) => roots.push(s),
                None => {},
            }
            q = q + 1;
        }
        let entries = self.globals.entries();
        let mut e: usize = 0;
        while e < entries.len()
            invariant
                e <= entries@.len(),
                roots@.contains(self.init_string),
                forall|q: int| 0 <= q < roots@.len() ==> self.vm_roots().contains(#[trigger] roots@[q] as int),
                forall|r: int| 0 <= r < self.stack@.len() && object_slot(self.stack@[r]) is Some ==> roots@.contains(#[trigger] object_slot(self.stack@[r])->Some_0),
                forall|r: int| 0 <= r < e ==> roots@.contains(#[trigger] entries@[r].0),
                forall|i: int| 0 <= i < entries@.len() ==> value_table_contents(self.globals).contains_key(#[trigger] entries@[i].0)
                    && value_table_contents(self.globals)[entries@[i].0] == entries@[i].1,
                forall|r: int| 0 <= r < e && object_slot(entries@[r].1) is Some ==> roots@.contains(#[trigger] object_slot(entries@[r].1)->Some_0),
            decreases entries@.len() - e,
        {
            let (k, v) = entries[e];
            proof {
                assert(value_table_contents(self.globals).contains_key(k));
            }
            roots.push(k);
            match slot_of(v) {
                Some(s) => roots.push(s),
                None => {},
            }
            e = e + 1;
        }
        let mut f: usize = 0;
        while f < self.frames.len()
            invariant
                f <= self.frames@.len(),
                roots@.contains(self.init_string),
                forall|q: int| 0 <= q < roots@.len() ==> self.vm_roots().contains(#[trigger] roots@[q] as int),
                forall|r: int| 0 <= r < self.stack@.len() && object_slot(self.stack@[r]) is Some ==> roots@.contains(#[trigger] object_slot(self.stack@[r])->Some_0),
                forall|r: int| 0 <= r < entries@.len() ==> roots@.contains(#[trigger] entries@[r].0),
                forall|r: int| 0 <= r < entries@.len() && object_slot(entries@[r].1) is Some ==> roots@.contains(#[trigger] object_slot(entries@[r].1)->Some_0),
                forall|r: int| 0 <= r < f ==> roots@.contains(#[trigger] self.frames@[r].closure),
            decreases self.frames@.len() - f,
        {
            roots.push(self.frames[f].closure);
            f = f + 1;
        }
        let mut u: usize = 0;
        while u < self.open_upvalues.len()
            invariant
                u <= self.open_upvalues@.len(),
                roots@.contains(self.init_string),
                forall|q: int| 0 <= q < roots@.len() ==> self.vm_roots().contains(#[trigger] roots@[q] as int),
                forall|r: int| 0 <= r < self.stack@.len() && object_slot(self.stack@[r]) is Some ==> roots@.contains(#[trigger] object_slot(self.stack@[r])->Some_0),
                forall|r: int| 0 <= r < entries@.len() ==> roots@.contains(#[trigger] entries@[r].0),
                forall|r: int| 0 <= r < entries@.len() && object_slot(entries@[r].1) is Some ==> roots@.contains(#[trigger] object_slot(entries@[r].1)->Some_0),
                forall|r: int| 0 <= r < self.frames@.len() ==> roots@.contains(#[trigger] self.frames@[r].closure),
                forall|r: int| 0 <= r < u ==> roots@.contains(#[trigger] self.open_upvalues@[r]),
            decreases self.open_upvalues@.len() - u,
        {
            roots.push(self.open_upvalues[u]);
            u = u + 1;
        }
        proof {
            let m = value_table_contents(self.globals);
            assert forall|j: int| #[trigger] self.vm_roots().contains(j) implies roots_set(roots@).contains(j) by {
                let s = j as usize;
                if s == self.init_string {
                    assert(roots@.contains(s));
                } else if exists|q: int| 0 <= q < self.stack@.len() && object_slot(#[trigger] self.stack@[q]) == Some(s) {
                    let q = choose|q: int| 0 <= q < self.stack@.len() && object_slot(#[trigger] self.stack@[q]) == Some(s);
                    assert(roots@.contains(object_slot(self.stack@[q])->Some_0));
                } else if m.contains_key(s) {
                    let r = choose|r: int| 0 <= r < entries@.len() && entries@[r].0 == s;
                    assert(roots@.contains(entries@[r].0));
                } else if exists|k: usize| #[trigger] m.contains_key(k) && object_slot(m[k]) == Some(s) {
                    let k = choose|k: usize| #[trigger] m.contains_key(k) && object_slot(m[k]) == Some(s);
                    let r = choose|r: int| 0 <= r < entries@.len() && entries@[r].0 == k;
                    assert(entries@[r].1 == m[k]);
                    assert(roots@.contains(object_slot(entries@[r].1)->Some_0));
                } else if exists|q: int| 0 <= q < self.frames@.len() && (#[trigger] self.frames@[q]).closure == s {
                    let q = choose|q: int| 0 <= q < self.frames@.len() && (#[trigger] self.frames@[q]).closure == s;
                    assert(roots@.contains(self.frames@[q].closure));
                } else {
                    let q = choose|q: int| 0 <= q < self.open_upvalues@.len() && #[trigger] self.open_upvalues@[q] == s;
                    assert(roots@.contains(self.open_upvalues@[q]));
                }
                let q = choose|q: int| 0 <= q < roots@.len() && roots@[q] == s;
                assert(roots@[q] as int == j);
            }
            assert(self.vm_roots().subset_of(roots_set(roots@)));
            assert forall|j: int| #[trigger] roots_set(roots@).contains(j) implies self.vm_roots().contains(j) by {
                let q = choose|q: int| 0 <= q < roots@.len() && roots@[q] as int == j;
                assert(self.vm_roots().contains(roots@[q] as int));
            }
            assert(roots_set(roots@).subset_of(self.vm_roots()));
        }
        let ghost objs = self.gc.objects@;
        let ghost vr = self.vm_roots();
        self.gc.collect(&roots);
        proof {
            assert forall|j: int| #[trigger] reachable(objs, vr, j) implies live(self.gc.objects@, j)
                && self.gc.objects@[j]->Some_0.data == objs[j]->Some_0.data by {
                let n = choose|n: nat| #[trigger] reach_n(objs, vr, n).contains(j);
                lemma_reach_mono(objs, vr, roots_set(roots@), n);
                assert(reach_n(objs, roots_set(roots@), n).contains(j));
                assert(reachable(objs, roots_set(roots@), j));
            }
            assert forall|i: int| #[trigger] live(self.gc.objects@, i) implies reachable(objs, vr, i) by {
                assert(reachable(objs, roots_set(roots@), i));
                let n = choose|n: nat| #[trigger] reach_n(objs, roots_set(roots@), n).contains(i);
                lemma_reach_mono(objs, roots_set(roots@), vr, n);
                assert(reach_n(objs, vr, n).contains(i));
            }
        }
    }
}


/// The data of the live object in slot `i`.
pub open spec fn data_at(objs: Seq<Option<HeapObject>>, i: int) -> Option<ObjectData> {
    if 0 <= i < objs.len() && objs[i] is Some {
        Some(objs[i]->Some_0.data)
    } else {
        None
    }
}

/// The running frame with its instruction pointer moved by `delta`.
pub open spec fn advanced_frames(frames: Seq<CallFrame>, delta: int) -> Seq<CallFrame> {
    frames.update(frames.len() - 1, CallFrame { ip: (frames.last().ip + delta) as usize, ..frames.last() })
}

/// After moving past a byte of code, the code ahead is what was one byte
/// further ahead before.
pub proof fn lemma_advance_code(before: VM, after: VM)
    requires
        after.gc == before.gc,
        before.frames@.len() > 0,
        before.code_at(0) is Some,
        after.frames@ == advanced_frames(before.frames@, 1),
    ensures
        after.running_function() == before.running_function(),
        after.frames@.last().base == before.frames@.last().base,
        after.frames@.last().ip == before.frames@.last().ip + 1,
        forall|k: int| 0 <= k ==> #[trigger] after.code_at(k) == before.code_at(k + 1),
{
    let n = before.frames@.len();
    assert(after.frames@[n - 1] == CallFrame { ip: (before.frames@.last().ip + 1) as usize, ..before.frames@.last() });
    let f = before.running_function()->Some_0;
    assert(f.chunk.ops@.len() == f.chunk.ops.len());
}

/// The machine's state apart from its frames: what reading code leaves as it
/// was.
pub open spec fn same_data(a: &VM, b: &VM) -> bool {
    &&& b.gc == a.gc
    &&& b.stack == a.stack
    &&& b.globals == a.globals
    &&& b.open_upvalues == a.open_upvalues
    &&& b.init_string == a.init_string
    &&& b.next_gc == a.next_gc
    &&& b.written == a.written
}

impl VM {
    /// The function that the running frame executes.
    pub open spec fn running_function(&self) -> Option<ObjectFunction> {
        if self.frames@.len() == 0 {
            None
        } else {
            match data_at(self.gc.objects@, self.frames@.last().closure as int) {
                Some(ObjectData::Closure(c)) => match data_at(self.gc.objects@, c.function as int) {
                    Some(ObjectData::Function(f)) => Some(f),
                    _ => None,
                },
                _ => None,
            }
        }
    }

    /// The span of the instruction being run: that of the byte of code
    /// before the instruction pointer, or the empty span at the start.
    pub open spec fn span_spec(&self) -> Span {
        match self.running_function() {
            Some(f) => {
                let ip = self.frames@.last().ip;
                if ip > 0 && ip - 1 < f.chunk.spans.view_seq().len() {
                    f.chunk.spans.view_seq()[ip - 1]
                } else {
                    Span { start: 0, end: 0 }
                }
            },
            None => Span { start: 0, end: 0 },
        }
    }

    /// The constant that the byte of code `k` places ahead names.
    pub open spec fn constant_at(&self, k: int) -> Option<Value> {
        match (self.running_function(), self.code_at(k)) {
            (Some(f), Some(c)) => {
                let pool = crate::collections::constant_pool(f.chunk.constants);
                if c < pool.len() {
                    Some(pool[c as int])
                } else {
                    None
                }
            },
            _ => None,
        }
    }

    /// The byte of code `k` places after the running frame's instruction
    /// pointer.
    pub open spec fn code_at(&self, k: int) -> Option<u8> {
        match self.running_function() {
            Some(f) => {
                let i = self.frames@.last().ip + k;
                if 0 <= i < f.chunk.ops@.len() {
                    Some(f.chunk.ops@[i])
                } else {
                    None
                }
            },
            None => None,
        }
    }

    /// The slot of the function that the closure in slot `closure` runs.
    fn closure_function(&self, closure: usize) -> (r: Option<usize>)
        ensures
            r == (match data_at(self.gc.objects@, closure as int) {
                Some(ObjectData::Closure(c)) => Some(c.function),
                _ => None,
            }),
    {
        match self.object(closure) {
            Some(ObjectData::Closure(c)) => Some(c.function),
            _ => None,
        }
    }

    /// The running frame and the slot of its function.
    fn current(&self) -> (r: Option<(CallFrame, usize)>)
        ensures
            r matches Some((f, _)) ==> self.frames@.len() > 0 && f == self.frames@.last(),
            r matches Some((f, func)) ==> (data_at(self.gc.objects@, f.closure as int) matches Some(ObjectData::Closure(c)) && c.function == func),
            r is None ==> self.frames@.len() == 0 || !(data_at(self.gc.objects@, self.frames@.last().closure as int) matches Some(ObjectData::Closure(_))),
    {
        let n = self.frames.len();
        if n == 0 {
            return None;
        }
        let f = self.frames[n - 1];
        match self.closure_function(f.closure) {
            Some(func) => Some((f, func)),
            None => None,
        }
    }

    /// The function object in slot `idx`.
    fn function_at(&self, idx: usize) -> (r: Option<&ObjectFunction>)
        ensures
            (match r {
                Some(f) => Some(*f),
                None => None,
            }) == (match data_at(self.gc.objects@, idx as int) {
                Some(ObjectData::Function(f)) => Some(f),
                _ => None,
            }),
    {
        match self.object(idx) {
            Some(ObjectData::Function(f)) => Some(f),
            _ => None,
        }
    }

    /// Reads the next byte of code and moves past it.
    fn read_u8(&mut self) -> (r: Option<u8>)
        requires
            old(self).wf(),
        ensures
            final(self).wf(),
            same_data(old(self), final(self)),
            final(self).frames@.len() == old(self).frames@.len(),
            r == old(self).code_at(0),
            r is Some ==> old(self).frames@.len() > 0 && final(self).frames@ == advanced_frames(old(self).frames@, 1),
            r is None ==> final(self).frames == old(self).frames,
    {
        let (f, func) = match self.current() {
            Some(c) => c,
            None => return None,
        };
        let byte = match self.function_at(func) {
            Some(function) => {
                if f.ip < function.chunk.ops.len() {
                    function.chunk.ops[f.ip]
                } else {
                    return None;
                }
            },
            None => return None,
        };
        let n = self.frames.len();
        self.frames.set(n - 1, CallFrame { ip: f.ip + 1, ..f });
        Some(byte)
    }

    /// Reads a two-byte operand, low byte first.
    fn read_u16(&mut self) -> (r: Option<u16>)
        requires
            old(self).wf(),
        ensures
            final(self).wf(),
            same_data(old(self), final(self)),
            final(self).frames@.len() == old(self).frames@.len(),
            r == (match (old(self).code_at(0), old(self).code_at(1)) {
                (Some(lo), Some(hi)) => Some((hi * 256 + lo) as u16),
                _ => None,
            }),
            r is Some ==> final(self).frames@ == advanced_frames(old(self).frames@, 2),
    {
        let lo = self.read_u8()?;
        let ghost mid = *self;
        proof {
            let n = old(self).frames@.len();
            assert(mid.frames@[n - 1] == CallFrame { ip: (old(self).frames@.last().ip + 1) as usize, ..old(self).frames@.last() });
            assert(mid.frames@.last().closure == old(self).frames@.last().closure);
            assert(mid.running_function() == old(self).running_function());
            let f = old(self).running_function()->Some_0;
            assert(f.chunk.ops@.len() == f.chunk.ops.len());
            assert(old(self).frames@.last().ip < f.chunk.ops@.len());
            assert(mid.code_at(0) == old(self).code_at(1));
        }
        let hi = self.read_u8()?;
        proof {
            let n = old(self).frames@.len();
            let f = old(self).running_function()->Some_0;
            assert(f.chunk.ops@.len() == f.chunk.ops.len());
            assert(self.frames@[n - 1].ip == old(self).frames@.last().ip + 2);
            assert(self.frames@ =~= advanced_frames(old(self).frames@, 2));
        }
        Some((hi as u16) * 256 + (lo as u16))
    }

    /// Reads a constant index and returns the constant.
    fn read_constant(&mut self) -> (r: Option<Value>)
        requires
            old(self).wf(),
        ensures
            final(self).written == old(self).written,
            final(self).wf(),
            same_data(old(self), final(self)),
            final(self).frames@.len() == old(self).frames@.len(),
            r == old(self).constant_at(0),
            r is Some ==> final(self).frames@ == advanced_frames(old(self).frames@, 1),
    {
        let idx = self.read_u8()?;
        proof {
            lemma_advance_code(*old(self), *self);
        }
        let (_, func) = self.current()?;
        match self.function_at(func) {
            Some(function) => {
                let pool = crate::collections::constant_pool_slice(&function.chunk.constants);
                if (idx as usize) < pool.len() {
                    Some(pool[idx as usize])
                } else {
                    None
                }
            },
            None => None,
        }
    }

    /// Reads a constant that names something: the slot of its string object.
    fn read_name(&mut self) -> (r: Option<usize>)
        requires
            old(self).wf(),
        ensures
            final(self).written == old(self).written,
            final(self).wf(),
            same_data(old(self), final(self)),
            final(self).frames@.len() == old(self).frames@.len(),
            r == (match old(self).constant_at(0) {
                Some(v) => object_slot(v),
                None => None,
            }),
            r is Some ==> final(self).frames@ == advanced_frames(old(self).frames@, 1),
    {
        let v = self.read_constant()?;
        slot_of(v)
    }

    /// The span of the instruction being run.
    fn span(&self) -> (r: Span)
        ensures
            r == self.span_spec(),
    {
        match self.current() {
            Some((f, func)) => match self.function_at(func) {
                Some(function) => {
                    if f.ip > 0 {
                        match function.chunk.spans.get(f.ip - 1) {
                            Some(s) => s,
                            None => no_span(),
                        }
                    } else {
                        no_span()
                    }
                },
                None => no_span(),
            },
            None => no_span(),
        }
    }

    /// An error of the program, at the instruction being run.
    fn error(&self, e: Error) -> (r: Stop)
        ensures
            r == Stop::Error((e, self.span_spec())),
    {
        Stop::Error((e, self.span()))
    }

    fn pop(&mut self) -> (r: Option<Value>)
        ensures
            final(self).written == old(self).written,
            old(self).stack@.len() > 0 ==> r == Some(old(self).stack@.last()) && final(self).stack@ == old(self).stack@.drop_last(),
            old(self).stack@.len() == 0 ==> r is None && final(self).stack@ == old(self).stack@,
            final(self).gc == old(self).gc,
            final(self).frames == old(self).frames,
            final(self).globals == old(self).globals,
            final(self).open_upvalues == old(self).open_upvalues,
            final(self).init_string == old(self).init_string,
            final(self).next_gc == old(self).next_gc,
    {
        self.stack.pop()
    }

    /// The value `n` places below the top of the stack.
    fn peek(&self, n: usize) -> (r: Option<Value>)
        ensures
            n < self.stack@.len() ==> r == Some(self.stack@[self.stack@.len() - 1 - n]),
            n >= self.stack@.len() ==> r is None,
    {
        if n < self.stack.len() {
            Some(self.stack[self.stack.len() - 1 - n])
        } else {
            None
        }
    }

    /// Collects garbage when the heap holds as many objects as the last
    /// collection allowed for; what the roots reach stays as it was.
    fn collect_if_due(&mut self)
        requires
            old(self).wf(),
        ensures
            final(self).written == old(self).written,
            final(self).wf(),
            final(self).stack == old(self).stack,
            final(self).frames == old(self).frames,
            final(self).globals == old(self).globals,
            final(self).open_upvalues == old(self).open_upvalues,
            final(self).init_string == old(self).init_string,
            forall|k: int|
                old(self).vm_roots().contains(k) && live(old(self).gc.objects@, k) ==> #[trigger] data_in(final(self).gc, k)
                    == data_in(old(self).gc, k),
    {
        let held = if self.gc.free.len() <= self.gc.objects.len() {
            self.gc.objects.len() - self.gc.free.len()
        } else {
            0
        };
        if held >= self.next_gc {
            self.collect_garbage();
            proof {
                assert forall|k: int|
                    old(self).vm_roots().contains(k) && live(old(self).gc.objects@, k) implies #[trigger] data_in(self.gc, k)
                        == data_in(old(self).gc, k) by {
                    crate::gc::lemma_reachable_root(old(self).gc.objects@, old(self).vm_roots(), k);
                }
            }
            let live = self.gc.live_count();
            let grown = if live <= usize::MAX / GC_HEAP_GROW_FACTOR {
                live * GC_HEAP_GROW_FACTOR
            } else {
                usize::MAX
            };
            self.next_gc = if grown < GC_FIRST { GC_FIRST } else { grown };
        }
    }

    /// Allocates an object other than a string (strings are interned by the
    /// heap), collecting garbage first when the heap holds enough objects.
    fn allocate(&mut self, data: ObjectData) -> (r: Result<usize, Stop>)
        requires
            old(self).wf(),
            !(data is String),
        ensures
            final(self).written == old(self).written,
            final(self).wf(),
            final(self).stack == old(self).stack,
            final(self).frames == old(self).frames,
            final(self).globals == old(self).globals,
            final(self).open_upvalues == old(self).open_upvalues,
            final(self).init_string == old(self).init_string,
            r matches Ok(idx) ==> (idx as u64) < OBJECT_PAYLOAD_LIMIT && idx < final(self).gc.objects@.len(),
            r matches Ok(idx) ==> data_in(final(self).gc, idx as int) == Some(data),
            forall|k: int|
                old(self).vm_roots().contains(k) && live(old(self).gc.objects@, k) ==> #[trigger] data_in(final(self).gc, k)
                    == data_in(old(self).gc, k),
            r is Err ==> (match r {
                Err(Stop::Error(e)) => e.0 == Error::OverflowError(OverflowError::OutOfMemory),
                _ => false,
            }),
    {
        self.collect_if_due();
        if !self.gc.has_room() {
            return Err(self.error(Error::OverflowError(OverflowError::OutOfMemory)));
        }
        let ghost mid = self.gc;
        let idx = self.gc.alloc_object(data);
        proof {
            assert forall|k: int|
                old(self).vm_roots().contains(k) && live(old(self).gc.objects@, k) implies #[trigger] data_in(self.gc, k)
                    == data_in(old(self).gc, k) by {
                assert(data_in(mid, k) == data_in(old(self).gc, k));
                assert(self.gc.objects@[k] == mid.objects@[k]);
            }
        }
        Ok(idx)
    }
}


/// The machine's state that instructions on the stack and the globals leave
/// as they were.
pub open spec fn same_heap(a: &VM, b: &VM) -> bool {
    &&& b.gc == a.gc
    &&& b.open_upvalues == a.open_upvalues
    &&& b.init_string == a.init_string
}

impl VM {
    /// Sets the stack slot `idx`.
    fn set_slot(&mut self, idx: usize, v: Value) -> (ok: bool)
        ensures
            final(self).written == old(self).written,
            ok == (idx < old(self).stack@.len()),
            ok ==> final(self).stack@ == old(self).stack@.update(idx as int, v),
            !ok ==> final(self).stack == old(self).stack,
            final(self).gc == old(self).gc,
            final(self).frames == old(self).frames,
            final(self).globals == old(self).globals,
            final(self).open_upvalues == old(self).open_upvalues,
            final(self).init_string == old(self).init_string,
            final(self).next_gc == old(self).next_gc,
    {
        if idx < self.stack.len() {
            self.stack.set(idx, v);
            true
        } else {
            false
        }
    }

    /// The stack slot where slot `slot` of the running frame is.
    fn local_index(&self, slot: u8) -> (r: Option<usize>)
        ensures
            r matches Some(i) ==> self.frames@.len() > 0 && i == self.frames@.last().base + slot && i < self.stack@.len(),
            (self.frames@.len() > 0 && self.frames@.last().base + slot < self.stack@.len()) ==> r is Some,
    {
        let n = self.frames.len();
        if n == 0 {
            return None;
        }
        let base = self.frames[n - 1].base;
        if base < self.stack.len() && (slot as usize) < self.stack.len() - base {
            Some(base + slot as usize)
        } else {
            None
        }
    }

    /// The text of the string object in slot `name`, for error messages.
    fn name_text(&self, name: usize) -> (r: Result<String, Stop>)
        ensures
            r is Err ==> r == Err::<String, Stop>(Stop::Fault),
            r is Err <==> text_in(self.gc, name as int) is None,
            r matches Ok(s) ==> text_in(self.gc, name as int) == Some(s@),
    {
        match self.string(name) {
            Some(s) => Ok(s),
            None => Err(Stop::Fault),
        }
    }

    /// The kind of a value as errors name it.
    fn kind(&self, v: Value) -> (r: Result<String, Stop>)
        ensures
            r is Err ==> r == Err::<String, Stop>(Stop::Fault),
            r is Err <==> self.kind_spec(v) is None,
            r matches Ok(s) ==> self.kind_spec(v) == Some(s@),
    {
        match self.kind_name(v) {
            Some(s) => Ok(s),
            None => Err(Stop::Fault),
        }
    }

    /// `==` and `!=`: values are equal when their bits are; strings are
    /// interned, so equal strings are one object.
    fn op_equal(&mut self, negate: bool) -> (r: Result<Step, Stop>)
        requires
            old(self).wf(),
        ensures
            final(self).written == old(self).written,
            r != Ok::<Step, Stop>(Step::Finished),
            final(self).wf(),
            same_heap(old(self), final(self)),
            final(self).frames == old(self).frames,
            final(self).globals == old(self).globals,
            old(self).stack@.len() >= 2 ==> r == Ok::<Step, Stop>(Step::Running) && final(self).stack@ == old(self).stack@.drop_last().drop_last().push(
                Value::from_bool_spec((old(self).stack@[old(self).stack@.len() - 2].0 == old(self).stack@.last().0) != negate),
            ),
            old(self).stack@.len() < 2 ==> r == Err::<Step, Stop>(Stop::Fault),
    {
        if self.stack.len() < 2 {
            return Err(Stop::Fault);
        }
        let b = self.pop().unwrap();
        let a = self.pop().unwrap();
        self.stack.push(Value::from_bool((a.to_bits() == b.to_bits()) != negate));
        Ok(Step::Running)
    }

    /// The arithmetic and comparison operators other than `+`, `==` and
    /// `!=`: both operands must be numbers.
    fn op_number<H: Host>(&mut self, opcode: u8, host: &H) -> (r: Result<Step, Stop>)
        requires
            old(self).wf(),
        ensures
            final(self).written == old(self).written,
            r != Ok::<Step, Stop>(Step::Finished),
            final(self).wf(),
            same_heap(old(self), final(self)),
            final(self).frames == old(self).frames,
            final(self).globals == old(self).globals,
            ({
                let st = old(self).stack@;
                let n = st.len();
                &&& n < 2 ==> r == Err::<Step, Stop>(Stop::Fault)
                &&& (n >= 2 && st[n - 2].is_number_spec() && st[n - 1].is_number_spec()) ==> r == Ok::<Step, Stop>(Step::Running)
                    && final(self).stack@.len() == n - 1 && final(self).stack@.drop_last() == st.drop_last().drop_last()
                    && (compared(Some(opcode), st[n - 2].0, st[n - 1].0) is Some ==> final(self).stack@.last()
                    == Value::from_bool_spec(compared(Some(opcode), st[n - 2].0, st[n - 1].0)->Some_0))
                &&& (n >= 2 && !(st[n - 2].is_number_spec() && st[n - 1].is_number_spec())) ==> (r matches Err(Stop::Error(e))
                    && e.0 is TypeError && e.0->TypeError_0 is UnsupportedOperandInfix) || r == Err::<Step, Stop>(Stop::Fault)
            }),
    {
        if self.stack.len() < 2 {
            return Err(Stop::Fault);
        }
        let b = self.pop().unwrap();
        let a = self.pop().unwrap();
        if a.is_number() && b.is_number() {
            let x = a.to_bits();
            let y = b.to_bits();
            let v = if opcode == op::SUBTRACT {
                Value::from_bits(host.subtract(x, y))
            } else if opcode == op::MULTIPLY {
                Value::from_bits(host.multiply(x, y))
            } else if opcode == op::DIVIDE {
                Value::from_bits(host.divide(x, y))
            } else if opcode == op::GREATER {
                Value::from_bool(crate::double::greater(x, y))
            } else if opcode == op::GREATER_EQUAL {
                Value::from_bool(crate::double::greater_equal(x, y))
            } else if opcode == op::LESS {
                Value::from_bool(crate::double::less(x, y))
            } else {
                Value::from_bool(crate::double::less_equal(x, y))
            };
            self.stack.push(v);
            return Ok(Step::Running);
        }
        let sym = if opcode == op::SUBTRACT {
            "-"
        } else if opcode == op::MULTIPLY {
            "*"
        } else if opcode == op::DIVIDE {
            "/"
        } else if opcode == op::GREATER {
            ">"
        } else if opcode == op::GREATER_EQUAL {
            ">="
        } else if opcode == op::LESS {
            "<"
        } else {
            "<="
        };
        let lt_type = self.kind(a)?;
        let rt_type = self.kind(b)?;
        Err(self.error(Error::TypeError(TypeError::UnsupportedOperandInfix { op: String::from_str(sym), lt_type, rt_type })))
    }

    /// `+`: adds numbers, or concatenates strings into an interned string.
    fn op_add<H: Host>(&mut self, host: &H) -> (r: Result<Step, Stop>)
        requires
            old(self).wf(),
        ensures
            final(self).written == old(self).written,
            r != Ok::<Step, Stop>(Step::Finished),
            final(self).wf(),
            final(self).frames == old(self).frames,
            final(self).globals == old(self).globals,
            final(self).open_upvalues == old(self).open_upvalues,
            ({
                let st = old(self).stack@;
                let n = st.len();
                &&& n < 2 ==> r == Err::<Step, Stop>(Stop::Fault)
                &&& (n >= 2 && st[n - 2].is_number_spec() && st[n - 1].is_number_spec()) ==> r == Ok::<Step, Stop>(Step::Running)
                    && final(self).stack@.len() == n - 1 && final(self).stack@.drop_last() == st.drop_last().drop_last()
                    && final(self).gc == old(self).gc
                &&& (n >= 2 && string_value(old(self).gc, st[n - 2]) is Some && string_value(old(self).gc, st[n - 1]) is Some) ==> out_of_memory(r)
                    || (r == Ok::<Step, Stop>(Step::Running) && final(self).stack@.len() == n - 1 && final(self).stack@.drop_last()
                    == st.drop_last().drop_last() && string_value(final(self).gc, final(self).stack@.last()) == Some(
                    string_value(old(self).gc, st[n - 2])->Some_0 + string_value(old(self).gc, st[n - 1])->Some_0,
                ))
                &&& (n >= 2 && !(st[n - 2].is_number_spec() && st[n - 1].is_number_spec()) && !(string_value(old(self).gc, st[n - 2]) is Some
                    && string_value(old(self).gc, st[n - 1]) is Some)) ==> (match r {
                    Err(Stop::Error(e)) => e.0 is TypeError && e.0->TypeError_0 is UnsupportedOperandInfix,
                    _ => r == Err::<Step, Stop>(Stop::Fault),
                })
            }),
    {
        if self.stack.len() < 2 {
            return Err(Stop::Fault);
        }
        let b = self.pop().unwrap();
        let a = self.pop().unwrap();
        if a.is_number() && b.is_number() {
            proof {
                crate::value::lemma_classification_disjoint(a.0);
                crate::value::lemma_classification_disjoint(b.0);
            }
            self.stack.push(Value::from_bits(host.add(a.to_bits(), b.to_bits())));
            return Ok(Step::Running);
        }
        match (slot_of(a), slot_of(b)) {
            (Some(sa), Some(sb)) => {
                match (self.gc.string_at(sa), self.gc.string_at(sb)) {
                    (Some(x), Some(y)) => {
                        let ghost xs = x@;
                        let ghost ys = y@;
                        let mut joined = x.clone();
                        joined.append(y.as_str());
                        proof {
                            assert(text_in(self.gc, sa as int) == Some(xs));
                            assert(text_in(self.gc, sb as int) == Some(ys));
                            assert(joined@ == xs + ys);
                        }
                        self.collect_if_due();
                        if !self.gc.has_room() {
                            return Err(self.error(Error::OverflowError(OverflowError::OutOfMemory)));
                        }
                        let idx = self.gc.alloc_str(joined.as_str());
                        self.stack.push(Value::from_object(idx as u64));
                        proof {
                            assert(text_in(self.gc, idx as int) == Some(xs + ys));
                            assert(object_slot(self.stack@.last()) == Some(idx));
                            assert(string_value(self.gc, self.stack@.last()) == Some(xs + ys));
                        }
                        return Ok(Step::Running);
                    },
                    _ => {},
                }
            },
            _ => {},
        }
        let lt_type = self.kind(a)?;
        let rt_type = self.kind(b)?;
        Err(self.error(Error::TypeError(TypeError::UnsupportedOperandInfix { op: String::from_str("+"), lt_type, rt_type })))
    }

    /// `-` as a prefix: the operand must be a number.
    fn op_negate<H: Host>(&mut self, host: &H) -> (r: Result<Step, Stop>)
        requires
            old(self).wf(),
        ensures
            final(self).written == old(self).written,
            r != Ok::<Step, Stop>(Step::Finished),
            final(self).wf(),
            same_heap(old(self), final(self)),
            final(self).frames == old(self).frames,
            final(self).globals == old(self).globals,
            ({
                let st = old(self).stack@;
                &&& st.len() == 0 ==> r == Err::<Step, Stop>(Stop::Fault)
                &&& (st.len() > 0 && st.last().is_number_spec()) ==> r == Ok::<Step, Stop>(Step::Running)
                    && final(self).stack@ == st.drop_last().push(Value(negated(st.last().0)))
                &&& (st.len() > 0 && !st.last().is_number_spec()) ==> (r matches Err(Stop::Error(e))
                    && e.0 is TypeError && e.0->TypeError_0 is UnsupportedOperandPrefix) || r == Err::<Step, Stop>(Stop::Fault)
            }),
    {
        let v = match self.pop() {
            Some(v) => v,
            None => return Err(Stop::Fault),
        };
        if v.is_number() {
            self.stack.push(Value::from_bits(crate::double::negate(v.to_bits())));
            return Ok(Step::Running);
        }
        let rt_type = self.kind(v)?;
        Err(self.error(Error::TypeError(TypeError::UnsupportedOperandPrefix { op: String::from_str("-"), rt_type })))
    }
}


impl VM {
    /// `GET_GLOBAL`: pushes the global `name`; an error when it is not
    /// defined.
    fn get_global(&mut self, name: usize) -> (r: Result<Step, Stop>)
        requires
            old(self).wf(),
        ensures
            final(self).written == old(self).written,
            r != Ok::<Step, Stop>(Step::Finished),
            final(self).wf(),
            same_heap(old(self), final(self)),
            final(self).frames == old(self).frames,
            final(self).globals == old(self).globals,
            ({
                let m = value_table_contents(old(self).globals);
                &&& m.contains_key(name) ==> r == Ok::<Step, Stop>(Step::Running) && final(self).stack@ == old(self).stack@.push(m[name])
                &&& !m.contains_key(name) ==> not_defined(old(self).gc, name, old(self).span_spec(), r)
            }),
    {
        match self.globals.get(name) {
            Some(v) => {
                self.stack.push(v);
                Ok(Step::Running)
            },
            None => {
                let n = self.name_text(name)?;
                Err(self.error(Error::NameError(NameError::NotDefined { name: n })))
            },
        }
    }

    /// `SET_GLOBAL`: assigns the value on top of the stack to the global
    /// `name`, which must be defined already.
    fn set_global(&mut self, name: usize) -> (r: Result<Step, Stop>)
        requires
            old(self).wf(),
        ensures
            final(self).written == old(self).written,
            r != Ok::<Step, Stop>(Step::Finished),
            final(self).wf(),
            same_heap(old(self), final(self)),
            final(self).frames == old(self).frames,
            final(self).stack == old(self).stack,
            ({
                let m = value_table_contents(old(self).globals);
                let st = old(self).stack@;
                &&& st.len() == 0 ==> r == Err::<Step, Stop>(Stop::Fault)
                &&& (st.len() > 0 && m.contains_key(name)) ==> r == Ok::<Step, Stop>(Step::Running)
                    && value_table_contents(final(self).globals) == m.insert(name, st.last())
                &&& (st.len() > 0 && !m.contains_key(name)) ==> not_defined(old(self).gc, name, old(self).span_spec(), r) && final(self).globals == old(self).globals
            }),
    {
        let v = match self.peek(0) {
            Some(v) => v,
            None => return Err(Stop::Fault),
        };
        match self.globals.get(name) {
            Some(_) => {
                self.globals.insert(name, v);
                Ok(Step::Running)
            },
            None => {
                let n = self.name_text(name)?;
                Err(self.error(Error::NameError(NameError::NotDefined { name: n })))
            },
        }
    }

    /// `DEFINE_GLOBAL`: pops a value into the global `name`.
    fn define_global(&mut self, name: usize) -> (r: Result<Step, Stop>)
        requires
            old(self).wf(),
        ensures
            final(self).written == old(self).written,
            r != Ok::<Step, Stop>(Step::Finished),
            final(self).wf(),
            same_heap(old(self), final(self)),
            final(self).frames == old(self).frames,
            ({
                let st = old(self).stack@;
                &&& st.len() == 0 ==> r == Err::<Step, Stop>(Stop::Fault)
                &&& st.len() > 0 ==> r == Ok::<Step, Stop>(Step::Running) && final(self).stack@ == st.drop_last()
                    && value_table_contents(final(self).globals) == value_table_contents(old(self).globals).insert(name, st.last())
            }),
    {
        let v = match self.pop() {
            Some(v) => v,
            None => return Err(Stop::Fault),
        };
        self.globals.insert(name, v);
        Ok(Step::Running)
    }

    /// The upvalue object at index `i` of the running closure.
    pub open spec fn frame_upvalue_spec(&self, i: u8) -> Option<usize> {
        if self.frames@.len() == 0 {
            None
        } else {
            match data_in(self.gc, self.frames@.last().closure as int) {
                Some(ObjectData::Closure(c)) => if (i as int) < c.upvalues@.len() {
                    Some(c.upvalues@[i as int])
                } else {
                    None
                },
                _ => None,
            }
        }
    }

    /// The value an upvalue holds: its stack slot while open, its own value
    /// once closed.
    pub open spec fn upvalue_value(&self, up: int) -> Option<Value> {
        match data_in(self.gc, up) {
            Some(ObjectData::Upvalue(u)) => match u.location {
                Some(slot) => if slot < self.stack@.len() {
                    Some(self.stack@[slot as int])
                } else {
                    None
                },
                None => Some(u.closed),
            },
            _ => None,
        }
    }

    /// The upvalue object at index `i` of the running closure.
    fn frame_upvalue(&self, i: u8) -> (r: Option<usize>)
        ensures
            r == self.frame_upvalue_spec(i),
    {
        let n = self.frames.len();
        if n == 0 {
            return None;
        }
        match self.object(self.frames[n - 1].closure) {
            Some(ObjectData::Closure(c)) => {
                if (i as usize) < c.upvalues.len() {
                    Some(c.upvalues[i as usize])
                } else {
                    None
                }
            },
            _ => None,
        }
    }

    /// The value an upvalue holds: its stack slot while open, its own value
    /// once closed.
    fn upvalue_get(&self, up: usize) -> (r: Option<Value>)
        ensures
            r == self.upvalue_value(up as int),
    {
        match self.object(up) {
            Some(ObjectData::Upvalue(u)) => match u.location {
                Some(slot) => {
                    if slot < self.stack.len() {
                        Some(self.stack[slot])
                    } else {
                        None
                    }
                },
                None => Some(u.closed),
            },
            _ => None,
        }
    }

    /// Assigns through an upvalue: to its stack slot while open, to itself
    /// once closed.
    fn upvalue_set(&mut self, up: usize, v: Value) -> (ok: bool)
        requires
            old(self).wf(),
        ensures
            final(self).written == old(self).written,
            final(self).wf(),
            final(self).frames == old(self).frames,
            final(self).globals == old(self).globals,
            final(self).open_upvalues == old(self).open_upvalues,
            final(self).init_string == old(self).init_string,
            final(self).stack@.len() == old(self).stack@.len(),
            ok == old(self).upvalue_value(up as int) is Some,
            ok ==> final(self).upvalue_value(up as int) == Some(v),
            !ok ==> final(self).stack == old(self).stack && final(self).gc == old(self).gc,
    {
        let loc = match self.object(up) {
            Some(ObjectData::Upvalue(u)) => u.location,
            _ => return false,
        };
        match loc {
            Some(slot) => self.set_slot(slot, v),
            None => self.gc.close_upvalue(up, v),
        }
    }

    /// `GET_PROPERTY`: replaces the instance on top of the stack by its field
    /// `name`, or else by its class's method `name` bound to it.
    fn get_property(&mut self, name: usize) -> (r: Result<Step, Stop>)
        requires
            old(self).wf(),
        ensures
            final(self).written == old(self).written,
            r != Ok::<Step, Stop>(Step::Finished),
            final(self).wf(),
            final(self).frames == old(self).frames,
            final(self).globals == old(self).globals,
            final(self).open_upvalues == old(self).open_upvalues,
            ({
                let st = old(self).stack@;
                &&& st.len() == 0 ==> r == Err::<Step, Stop>(Stop::Fault)
                &&& (st.len() > 0 && instance_of(old(self).gc, st.last()) is None) ==> no_attribute(r)
                &&& (st.len() > 0 && instance_of(old(self).gc, st.last()) is Some && value_table_contents(
                    instance_of(old(self).gc, st.last())->Some_0.fields,
                ).contains_key(name)) ==> r == Ok::<Step, Stop>(Step::Running) && final(self).stack@ == st.drop_last().push(
                    value_table_contents(instance_of(old(self).gc, st.last())->Some_0.fields)[name],
                ) && final(self).gc == old(self).gc
                &&& (st.len() > 0 && instance_of(old(self).gc, st.last()) is Some && !value_table_contents(
                    instance_of(old(self).gc, st.last())->Some_0.fields,
                ).contains_key(name)) ==> {
                    let o = instance_of(old(self).gc, st.last())->Some_0;
                    let ms = methods_at(old(self).gc, o.class as int);
                    &&& (ms is Some && ms->Some_0.contains_key(name) && object_slot(ms->Some_0[name]) is Some) ==> out_of_memory(r)
                        || (r == Ok::<Step, Stop>(Step::Running) && final(self).stack@.len() == st.len()
                        && final(self).stack@.drop_last() == st.drop_last() && bound_to(
                        final(self).gc,
                        final(self).stack@.last(),
                        object_slot(st.last())->Some_0,
                        object_slot(ms->Some_0[name])->Some_0,
                    ))
                    &&& (ms is Some && !ms->Some_0.contains_key(name)) ==> no_attribute(r)
                }
            }),
    {
        let v = match self.peek(0) {
            Some(v) => v,
            None => return Err(Stop::Fault),
        };
        let inst = match slot_of(v) {
            Some(i) => match self.object(i) {
                Some(ObjectData::Instance(_)) => i,
                _ => {
                    let t = self.kind(v)?;
                    let n = self.name_text(name)?;
                    return Err(self.error(Error::AttributeError(AttributeError::NoSuchAttribute { type_: t, name: n })));
                },
            },
            None => {
                let t = self.kind(v)?;
                let n = self.name_text(name)?;
                return Err(self.error(Error::AttributeError(AttributeError::NoSuchAttribute { type_: t, name: n })));
            },
        };
        let (field, class) = match self.object(inst) {
            Some(ObjectData::Instance(o)) => (o.fields.get(name), o.class),
            _ => return Err(Stop::Fault),
        };
        match field {
            Some(f) => {
                self.pop();
                self.stack.push(f);
                return Ok(Step::Running);
            },
            None => {},
        }
        let (method, class_name) = match self.object(class) {
            Some(ObjectData::Class(c)) => (c.methods.get(name), c.name),
            _ => return Err(Stop::Fault),
        };
        match method {
            Some(m) => {
                let closure = match slot_of(m) {
                    Some(c) => c,
                    None => return Err(Stop::Fault),
                };
                let bound = self.allocate(ObjectData::BoundMethod(ObjectBoundMethod::new(inst, closure)))?;
                self.pop();
                self.stack.push(Value::from_object(bound as u64));
                Ok(Step::Running)
            },
            None => {
                let t = self.name_text(class_name)?;
                let n = self.name_text(name)?;
                Err(self.error(Error::AttributeError(AttributeError::NoSuchAttribute { type_: t, name: n })))
            },
        }
    }

    /// `SET_PROPERTY`: pops the instance, and sets its field `name` to the
    /// value below it, which stays.
    fn set_property(&mut self, name: usize) -> (r: Result<Step, Stop>)
        requires
            old(self).wf(),
        ensures
            final(self).written == old(self).written,
            r != Ok::<Step, Stop>(Step::Finished),
            final(self).wf(),
            final(self).frames == old(self).frames,
            final(self).globals == old(self).globals,
            final(self).open_upvalues == old(self).open_upvalues,
            ({
                let st = old(self).stack@;
                let n = st.len();
                &&& n < 2 ==> r == Err::<Step, Stop>(Stop::Fault)
                &&& (n >= 2 && instance_of(old(self).gc, st.last()) is None) ==> no_attribute(r)
                &&& (n >= 2 && instance_of(old(self).gc, st.last()) is Some) ==> r == Ok::<Step, Stop>(Step::Running)
                    && final(self).stack@ == st.drop_last() && instance_of(final(self).gc, st.last()) is Some
                    && value_table_contents(instance_of(final(self).gc, st.last())->Some_0.fields) == value_table_contents(
                    instance_of(old(self).gc, st.last())->Some_0.fields,
                ).insert(name, st[n - 2])
            }),
    {
        let v = match self.pop() {
            Some(v) => v,
            None => return Err(Stop::Fault),
        };
        let value = match self.peek(0) {
            Some(x) => x,
            None => return Err(Stop::Fault),
        };
        match slot_of(v) {
            Some(i) => {
                if self.gc.set_field(i, name, value) {
                    return Ok(Step::Running);
                }
            },
            None => {},
        }
        let t = self.kind(v)?;
        let n = self.name_text(name)?;
        Err(self.error(Error::AttributeError(AttributeError::NoSuchAttribute { type_: t, name: n })))
    }

    /// `GET_SUPER`: pops the superclass, and replaces the instance below it
    /// by the superclass's method `name` bound to it.
    fn get_super(&mut self, name: usize) -> (r: Result<Step, Stop>)
        requires
            old(self).wf(),
        ensures
            final(self).written == old(self).written,
            r != Ok::<Step, Stop>(Step::Finished),
            final(self).wf(),
            final(self).frames == old(self).frames,
            final(self).globals == old(self).globals,
            final(self).open_upvalues == old(self).open_upvalues,
            ({
                let st = old(self).stack@;
                let n = st.len();
                let ms = class_methods(old(self).gc, st.last());
                &&& (n >= 2 && ms is Some && ms->Some_0.contains_key(name) && object_slot(st[n - 2]) is Some && object_slot(
                    ms->Some_0[name],
                ) is Some) ==> out_of_memory(r) || (r == Ok::<Step, Stop>(Step::Running) && final(self).stack@.len() == n - 1
                    && final(self).stack@.drop_last() == st.drop_last().drop_last() && bound_to(
                    final(self).gc,
                    final(self).stack@.last(),
                    object_slot(st[n - 2])->Some_0,
                    object_slot(ms->Some_0[name])->Some_0,
                ))
                &&& (n >= 1 && ms is Some && !ms->Some_0.contains_key(name)) ==> no_attribute(r)
            }),
    {
        let sup = match self.pop() {
            Some(v) => v,
            None => return Err(Stop::Fault),
        };
        let (method, class_name) = match slot_of(sup) {
            Some(c) => match self.object(c) {
                Some(ObjectData::Class(cl)) => (cl.methods.get(name), cl.name),
                _ => return Err(Stop::Fault),
            },
            None => return Err(Stop::Fault),
        };
        match method {
            Some(m) => {
                let this = match self.peek(0) {
                    Some(v) => v,
                    None => return Err(Stop::Fault),
                };
                let (inst, closure) = match (slot_of(this), slot_of(m)) {
                    (Some(i), Some(c)) => (i, c),
                    _ => return Err(Stop::Fault),
                };
                let bound = self.allocate(ObjectData::BoundMethod(ObjectBoundMethod::new(inst, closure)))?;
                self.pop();
                self.stack.push(Value::from_object(bound as u64));
                Ok(Step::Running)
            },
            None => {
                let t = self.name_text(class_name)?;
                let n = self.name_text(name)?;
                Err(self.error(Error::AttributeError(AttributeError::NoSuchAttribute { type_: t, name: n })))
            },
        }
    }

    /// Moves the running frame's instruction pointer by `delta` bytes,
    /// forward or back.
    fn jump(&mut self, offset: u16, forward: bool) -> (r: Result<Step, Stop>)
        requires
            old(self).wf(),
        ensures
            final(self).written == old(self).written,
            r != Ok::<Step, Stop>(Step::Finished),
            final(self).wf(),
            same_data(old(self), final(self)),
            final(self).frames@.len() == old(self).frames@.len(),
            r is Ok ==> r == Ok::<Step, Stop>(Step::Running) && old(self).frames@.len() > 0 && final(self).frames@ == old(self).frames@.update(
                old(self).frames@.len() - 1,
                CallFrame {
                    ip: (if forward { old(self).frames@.last().ip + offset } else { old(self).frames@.last().ip - offset }) as usize,
                    ..old(self).frames@.last()
                },
            ),
            r is Err ==> r == Err::<Step, Stop>(Stop::Fault) && final(self).frames == old(self).frames,
            r is Ok ==> (if forward {
                old(self).frames@.last().ip + offset <= usize::MAX
            } else {
                offset <= old(self).frames@.last().ip
            }),
            (old(self).frames@.len() > 0 && (if forward {
                old(self).frames@.last().ip + offset <= usize::MAX
            } else {
                offset <= old(self).frames@.last().ip
            })) ==> r is Ok,
    {
        let n = self.frames.len();
        if n == 0 {
            return Err(Stop::Fault);
        }
        let f = self.frames[n - 1];
        let ip = if forward {
            if f.ip > usize::MAX - offset as usize {
                return Err(Stop::Fault);
            }
            f.ip + offset as usize
        } else {
            if (offset as usize) > f.ip {
                return Err(Stop::Fault);
            }
            f.ip - offset as usize
        };
        self.frames.set(n - 1, CallFrame { ip, ..f });
        Ok(Step::Running)
    }

    /// `PRINT`: pops a value and writes it as a line of output.
    fn print<H: Host>(&mut self, host: &mut H) -> (r: Result<Step, Stop>)
        requires
            old(self).wf(),
        ensures
            r != Ok::<Step, Stop>(Step::Finished),
            final(self).wf(),
            same_heap(old(self), final(self)),
            final(self).frames == old(self).frames,
            final(self).globals == old(self).globals,
            old(self).stack@.len() > 0 ==> final(self).stack@ == old(self).stack@.drop_last(),
            old(self).stack@.len() == 0 ==> r == Err::<Step, Stop>(Stop::Fault),
            r is Err ==> r == Err::<Step, Stop>(Stop::Fault) || (r matches Err(Stop::Error(e)) && e.0 is IoError),
            (old(self).stack@.len() > 0 && !old(self).stack@.last().is_number_spec()
                && display_spec(old(self).gc, old(self).stack@.last()) is None) ==> r == Err::<Step, Stop>(Stop::Fault),
            printed(*old(self), *final(self)),
            r is Ok ==> old(self).stack@.len() > 0 && final(self).written@.len() == old(self).written@.len() + 1,
    {
        let v = match self.pop() {
            Some(v) => v,
            None => return Err(Stop::Fault),
        };
        let text = match self.display(v, &*host) {
            Some(t) => t,
            None => return Err(Stop::Fault),
        };
        self.written = Ghost(self.written@.push(text@));
        proof {
            assert(self.written@.drop_last() =~= old(self).written@);
        }
        if !host.write_line(text.as_str()) {
            return Err(self.error(Error::IoError(IoError::WriteError { file: String::from_str("stdout") })));
        }
        Ok(Step::Running)
    }
}


impl VM {
    /// Calls the closure in slot `closure` with the `argc` values on top of
    /// the stack as its arguments; the slot below them holds the callee.
    pub fn call_closure(&mut self, closure: usize, argc: usize) -> (r: Result<Step, Stop>)
        requires
            old(self).wf(),
        ensures
            final(self).written == old(self).written,
            r != Ok::<Step, Stop>(Step::Finished),
            final(self).wf(),
            same_heap(old(self), final(self)),
            final(self).stack == old(self).stack,
            final(self).globals == old(self).globals,
            old(self).frames@.len() > FRAMES_MAX ==> (r matches Err(Stop::Error(e))
                && e.0 == Error::OverflowError(OverflowError::StackOverflow)) && final(self).frames == old(self).frames,
            r is Ok ==> r == Ok::<Step, Stop>(Step::Running) && argc < old(self).stack@.len()
                && final(self).frames@ == old(self).frames@.push(
                    CallFrame { closure, ip: 0, base: (old(self).stack@.len() - argc - 1) as usize },
                ),
            r is Err ==> final(self).frames == old(self).frames,
            closure_call(old(self).gc, old(self).stack@, old(self).frames@, *final(self), r, closure as int, argc as int),
    {
        if self.frames.len() > FRAMES_MAX {
            return Err(self.error(Error::OverflowError(OverflowError::StackOverflow)));
        }
        let func = match self.closure_function(closure) {
            Some(f) => f,
            None => return Err(Stop::Fault),
        };
        let (arity, name) = match self.function_at(func) {
            Some(f) => (f.arity as usize, f.name),
            None => return Err(Stop::Fault),
        };
        if argc != arity {
            let n = self.name_text(name)?;
            return Err(self.error(Error::TypeError(TypeError::ArityMismatch { name: n, exp_args: arity, got_args: argc })));
        }
        if argc >= self.stack.len() {
            return Err(Stop::Fault);
        }
        let base = self.stack.len() - argc - 1;
        self.frames.push(CallFrame { closure, ip: 0, base });
        Ok(Step::Running)
    }

    /// Calls a value with the `argc` values on top of the stack as its
    /// arguments: a closure, a method bound to its receiver, a class, which
    /// makes an instance and runs its initializer, or a native function.
    pub fn call_value<H: Host>(&mut self, callee: Value, argc: usize, host: &H) -> (r: Result<Step, Stop>)
        requires
            old(self).wf(),
        ensures
            final(self).written == old(self).written,
            r != Ok::<Step, Stop>(Step::Finished),
            final(self).wf(),
            final(self).globals == old(self).globals,
            final(self).open_upvalues == old(self).open_upvalues,
            call_effect(
                old(self).gc,
                old(self).stack@,
                old(self).frames@,
                old(self).init_string,
                *final(self),
                r,
                callee,
                argc as int,
            ),
    {
        let idx = match slot_of(callee) {
            Some(i) => i,
            None => {
                let t = self.kind(callee)?;
                return Err(self.error(Error::TypeError(TypeError::NotCallable { type_: t })));
            },
        };
        let t = match self.object(idx) {
            Some(d) => d.type_(),
            None => return Err(Stop::Fault),
        };
        match t {
            ObjectType::BoundMethod => {
                let (this, closure) = match self.object(idx) {
                    Some(ObjectData::BoundMethod(b)) => (b.this, b.closure),
                    _ => return Err(Stop::Fault),
                };
                if argc >= self.stack.len() || (this as u64) >= OBJECT_PAYLOAD_LIMIT {
                    return Err(Stop::Fault);
                }
                let slot = self.stack.len() - argc - 1;
                self.set_slot(slot, Value::from_object(this as u64));
                let r = self.call_closure(closure, argc);
                proof {
                    assert(call_effect(old(self).gc, old(self).stack@, old(self).frames@, old(self).init_string, *self, r, callee, argc as int));
                }
                r
            },
            ObjectType::Class => {
                let init = match self.object(idx) {
                    Some(ObjectData::Class(c)) => c.methods.get(self.init_string),
                    _ => return Err(Stop::Fault),
                };
                if argc >= self.stack.len() {
                    return Err(Stop::Fault);
                }
                let instance = self.allocate(ObjectData::Instance(ObjectInstance::new(idx)))?;
                let slot = self.stack.len() - argc - 1;
                self.set_slot(slot, Value::from_object(instance as u64));
                let ghost mid = *self;
                proof {
                    assert(new_instance(self.gc, self.stack@[slot as int], idx));
                }
                match init {
                    Some(m) => match slot_of(m) {
                        Some(c) => {
                            let r = self.call_closure(c, argc);
                            proof {
                                assert(self.stack@[slot as int] == mid.stack@[slot as int]);
                                assert(call_effect(old(self).gc, old(self).stack@, old(self).frames@, old(self).init_string, *self, r, callee, argc as int));
                            }
                            r
                        },
                        None => Err(Stop::Fault),
                    },
                    None => {
                        if argc != 0 {
                            return Err(self.error(Error::TypeError(TypeError::ArityMismatch {
                                name: String::from_str("init"),
                                exp_args: 0,
                                got_args: argc,
                            })));
                        }
                        Ok(Step::Running)
                    },
                }
            },
            ObjectType::Closure => self.call_closure(idx, argc),
            ObjectType::Native => {
                self.pop();
                if argc != 0 {
                    return Err(self.error(Error::TypeError(TypeError::ArityMismatch {
                        name: String::from_str("clock"),
                        exp_args: 0,
                        got_args: argc,
                    })));
                }
                self.stack.push(Value::from_bits(host.now()));
                proof {
                    assert(self.frames@ == old(self).frames@);
                    assert(old(self).stack@.len() > 0 ==> self.stack@.drop_last() =~= old(self).stack@.drop_last());
                }
                Ok(Step::Running)
            },
            _ => {
                let t = self.kind(callee)?;
                Err(self.error(Error::TypeError(TypeError::NotCallable { type_: t })))
            },
        }
    }

    /// The open upvalue for stack slot `location`: an existing one, or a new
    /// one that joins the open upvalues.
    fn capture_upvalue(&mut self, location: usize) -> (r: Result<usize, Stop>)
        requires
            old(self).wf(),
        ensures
            final(self).written == old(self).written,
            final(self).wf(),
            final(self).stack == old(self).stack,
            final(self).frames == old(self).frames,
            final(self).globals == old(self).globals,
            final(self).init_string == old(self).init_string,
            final(self).open_upvalues@ == old(self).open_upvalues@ || (r matches Ok(up) && final(self).open_upvalues@
                == old(self).open_upvalues@.push(up)),
            r matches Ok(up) ==> open_slot(final(self).gc, up as int) == Some(location) && final(self).open_upvalues@.contains(up),
            r is Err ==> (match r {
                Err(Stop::Error(e)) => e.0 == Error::OverflowError(OverflowError::OutOfMemory),
                _ => false,
            }),
            forall|k: int|
                old(self).vm_roots().contains(k) && live(old(self).gc.objects@, k) ==> #[trigger] data_in(final(self).gc, k)
                    == data_in(old(self).gc, k),
    {
        let mut i: usize = 0;
        while i < self.open_upvalues.len()
            invariant
                self.wf(),
                i <= self.open_upvalues@.len(),
            decreases self.open_upvalues@.len() - i,
        {
            let up = self.open_upvalues[i];
            match self.object(up) {
                Some(ObjectData::Upvalue(u)) => {
                    if u.location == Some(location) {
                        proof {
                            assert(self.open_upvalues@[i as int] == up);
                        }
                        return Ok(up);
                    }
                },
                _ => {},
            }
            i = i + 1;
        }
        let up = self.allocate(ObjectData::Upvalue(ObjectUpvalue::new(location)))?;
        self.open_upvalues.push(up);
        proof {
            assert(self.open_upvalues@.last() == up);
        }
        Ok(up)
    }

    /// Closes every open upvalue whose stack slot is `last` or above: each
    /// keeps the value of its slot, and leaves the open upvalues.
    fn close_upvalues(&mut self, last: usize)
        requires
            old(self).wf(),
        ensures
            final(self).written == old(self).written,
            final(self).wf(),
            final(self).stack == old(self).stack,
            final(self).frames == old(self).frames,
            final(self).globals == old(self).globals,
            final(self).init_string == old(self).init_string,
            final(self).open_upvalues@.len() <= old(self).open_upvalues@.len(),
            final(self).gc.objects@.len() == old(self).gc.objects@.len(),
            forall|j: int|
                0 <= j < old(self).open_upvalues@.len() && closable(
                    old(self).gc,
                    #[trigger] old(self).open_upvalues@[j] as int,
                    last as int,
                    old(self).stack@.len() as int,
                ) ==> data_in(final(self).gc, old(self).open_upvalues@[j] as int) == Some(
                    ObjectData::Upvalue(ObjectUpvalue {
                        location: None,
                        closed: old(self).stack@[open_slot(old(self).gc, old(self).open_upvalues@[j] as int)->Some_0 as int],
                    }),
                ),
            forall|k: int|
                0 <= k < old(self).gc.objects@.len() && !(old(self).open_upvalues@.contains(k as usize) && closable(
                    old(self).gc,
                    k,
                    last as int,
                    old(self).stack@.len() as int,
                )) ==> #[trigger] final(self).gc.objects@[k] == old(self).gc.objects@[k],
            forall|j: int|
                0 <= j < final(self).open_upvalues@.len() ==> old(self).open_upvalues@.contains(
                    #[trigger] final(self).open_upvalues@[j],
                ) && !closable(final(self).gc, final(self).open_upvalues@[j] as int, last as int, old(self).stack@.len() as int),
    {
        let ghost og = old(self).gc;
        let ghost oo = old(self).open_upvalues@;
        let ghost len = old(self).stack@.len() as int;
        let mut i = self.open_upvalues.len();
        while i > 0
            invariant
                self.wf(),
                i <= self.open_upvalues@.len(),
                self.stack == old(self).stack,
                self.frames == old(self).frames,
                self.globals == old(self).globals,
                self.init_string == old(self).init_string,
                self.open_upvalues@.len() <= oo.len(),
                og == old(self).gc,
                oo == old(self).open_upvalues@,
                self.written == old(self).written,
                len == self.stack@.len(),
                self.gc.objects@.len() == og.objects@.len(),
                forall|j: int| 0 <= j < i ==> #[trigger] self.open_upvalues@[j] == oo[j],
                forall|j: int|
                    i <= j < self.open_upvalues@.len() ==> oo.contains(#[trigger] self.open_upvalues@[j]) && !closable(
                        self.gc,
                        self.open_upvalues@[j] as int,
                        last as int,
                        len,
                    ),
                forall|j: int|
                    0 <= j < oo.len() && closable(og, #[trigger] oo[j] as int, last as int, len) ==> j < i || data_in(
                        self.gc,
                        oo[j] as int,
                    ) == Some(
                        ObjectData::Upvalue(ObjectUpvalue {
                            location: None,
                            closed: self.stack@[open_slot(og, oo[j] as int)->Some_0 as int],
                        }),
                    ),
                forall|k: int|
                    0 <= k < og.objects@.len() && !(oo.contains(k as usize) && closable(og, k, last as int, len))
                        ==> #[trigger] self.gc.objects@[k] == og.objects@[k],
                forall|k: int|
                    0 <= k < og.objects@.len() && closable(self.gc, k, last as int, len) ==> #[trigger] self.gc.objects@[k]
                        == og.objects@[k],
                forall|k: int|
                    0 <= k < og.objects@.len() && #[trigger] self.gc.objects@[k] != og.objects@[k] ==> closable(
                        og,
                        k,
                        last as int,
                        len,
                    ) && data_in(self.gc, k) == Some(
                        ObjectData::Upvalue(ObjectUpvalue { location: None, closed: self.stack@[open_slot(og, k)->Some_0 as int] }),
                    ),
            decreases i,
        {
            i = i - 1;
            let up = self.open_upvalues[i];
            let loc = match self.object(up) {
                Some(ObjectData::Upvalue(u)) => u.location,
                _ => None,
            };
            match loc {
                Some(slot) => {
                    if last <= slot && slot < self.stack.len() {
                        let v = self.stack[slot];
                        let ghost before = self.gc;
                        proof {
                            assert(closable(self.gc, up as int, last as int, len));
                            assert(self.gc.objects@[up as int] == og.objects@[up as int]);
                            assert(oo.contains(up));
                        }
                        self.gc.close_upvalue(up, v);
                        proof {
                            assert forall|k: int| 0 <= k < og.objects@.len() && closable(self.gc, k, last as int, len) implies #[trigger] self.gc.objects@[k]
                                == og.objects@[k] by {
                                if k != up as int {
                                    assert(self.gc.objects@[k] == before.objects@[k]);
                                }
                            }
                            assert forall|k: int|
                                0 <= k < og.objects@.len() && !(oo.contains(k as usize) && closable(og, k, last as int, len)) implies #[trigger] self.gc.objects@[k]
                                == og.objects@[k] by {
                                if k != up as int {
                                    assert(self.gc.objects@[k] == before.objects@[k]);
                                }
                            }
                            assert forall|k: int|
                                0 <= k < og.objects@.len() && #[trigger] self.gc.objects@[k] != og.objects@[k] implies closable(
                                og,
                                k,
                                last as int,
                                len,
                            ) && data_in(self.gc, k) == Some(
                                ObjectData::Upvalue(ObjectUpvalue { location: None, closed: self.stack@[open_slot(og, k)->Some_0 as int] }),
                            ) by {
                                if k != up as int {
                                    assert(self.gc.objects@[k] == before.objects@[k]);
                                }
                            }
                        }
                        let ghost before_open = self.open_upvalues@;
                        self.open_upvalues.swap_remove(i);
                        proof {
                            assert forall|j: int| i <= j < self.open_upvalues@.len() implies oo.contains(
                                #[trigger] self.open_upvalues@[j],
                            ) && !closable(self.gc, self.open_upvalues@[j] as int, last as int, len) by {
                                if j == i {
                                    assert(self.open_upvalues@[j] == before_open.last());
                                    assert(before_open.len() - 1 > i);
                                } else {
                                    assert(self.open_upvalues@[j] == before_open[j]);
                                }
                            }
                        }
                    }
                },
                None => {},
            }
        }
    }

    /// `CLOSURE`: makes a closure of the function constant, capturing the
    /// upvalues that the bytes after it describe: a pair of bytes for each,
    /// whether it is a local slot of the running frame, and its index there
    /// or among the running closure's upvalues.
    fn op_closure(&mut self) -> (r: Result<Step, Stop>)
        requires
            old(self).wf(),
        ensures
            final(self).written == old(self).written,
            r != Ok::<Step, Stop>(Step::Finished),
            final(self).wf(),
            final(self).globals == old(self).globals,
            r is Err ==> out_of_memory(r) || r == Err::<Step, Stop>(Stop::Fault),
            r is Ok ==> closure_made(*old(self), 0, *final(self)),
    {
        let fv = match self.read_constant() {
            Some(v) => v,
            None => return Err(Stop::Fault),
        };
        proof {
            lemma_advance_code(*old(self), *self);
        }
        let func = match slot_of(fv) {
            Some(f) => f,
            None => return Err(Stop::Fault),
        };
        let count = match self.function_at(func) {
            Some(f) => f.upvalue_count as usize,
            None => return Err(Stop::Fault),
        };
        let ghost n = old(self).frames@.len();
        let mut captures: Vec<(bool, usize)> = Vec::new();
        let mut k: usize = 0;
        while k < count
            invariant
                self.wf(),
                same_data(old(self), self),
                n == old(self).frames@.len(),
                n > 0,
                k <= count,
                captures@.len() == k,
                self.frames@ == advanced_frames(old(self).frames@, 1 + 2 * k),
                self.frames@.len() == n,
                self.frames@.last().ip == old(self).frames@.last().ip + 1 + 2 * k,
                forall|m: int| 0 <= m ==> #[trigger] self.code_at(m) == old(self).code_at(1 + 2 * k + m),
                forall|m: int| 0 <= m < k ==> #[trigger] capture_described(*old(self), m, captures@[m]),
            decreases count - k,
        {
            let ghost s0 = *self;
            let is_local = match self.read_u8() {
                Some(b) => b,
                None => return Err(Stop::Fault),
            };
            proof {
                lemma_advance_code(s0, *self);
            }
            let ghost s1 = *self;
            let idx = match self.read_u8() {
                Some(b) => b,
                None => return Err(Stop::Fault),
            };
            proof {
                lemma_advance_code(s1, *self);
                assert(self.frames@.last().ip == old(self).frames@.last().ip + 1 + 2 * (k + 1));
                assert forall|q: int| 0 <= q < n - 1 implies self.frames@[q] == old(self).frames@[q] by {
                    assert(self.frames@[q] == s1.frames@[q]);
                    assert(s1.frames@[q] == s0.frames@[q]);
                }
                assert(self.frames@[n - 1] == CallFrame {
                    ip: (old(self).frames@.last().ip + 1 + 2 * (k + 1)) as usize,
                    ..old(self).frames@.last()
                });
                assert(self.frames@ =~= advanced_frames(old(self).frames@, 1 + 2 * (k + 1)));
                assert(self.frames@.last().closure == old(self).frames@.last().closure);
                assert(self.frames@.last().base == old(self).frames@.last().base);
            }
            let c = if is_local != 0 {
                match self.local_index(idx) {
                    Some(l) => (true, l),
                    None => return Err(Stop::Fault),
                }
            } else {
                match self.frame_upvalue(idx) {
                    Some(u) => (false, u),
                    None => return Err(Stop::Fault),
                }
            };
            proof {
                assert(old(self).code_at(1 + 2 * k) == Some(is_local));
                assert(old(self).code_at(2 + 2 * k) == Some(idx));
                assert(self.frame_upvalue_spec(idx) == old(self).frame_upvalue_spec(idx));
            }
            captures.push(c);
            k = k + 1;
        }
        let ghost mid = *self;
        let mut upvalues: Vec<usize> = Vec::new();
        let mut j: usize = 0;
        while j < count
            invariant
                self.wf(),
                self.stack == mid.stack,
                self.frames == mid.frames,
                self.written == old(self).written,
                self.globals == old(self).globals,
                j <= count,
                captures@.len() == count,
                forall|m: int| 0 <= m < count ==> #[trigger] capture_described(*old(self), m, captures@[m]),
                upvalues@.len() == j,
                forall|m: int|
                    0 <= m < j ==> #[trigger] capture_holds(self.gc, self.open_upvalues@, captures@[m], upvalues@[m]),
            decreases count - j,
        {
            let (is_local, v) = captures[j];
            let ghost before = *self;
            let up = if is_local {
                self.capture_upvalue(v)?
            } else {
                v
            };
            proof {
                assert forall|m: int| 0 <= m < j implies #[trigger] capture_holds(
                    self.gc,
                    self.open_upvalues@,
                    captures@[m],
                    upvalues@[m],
                ) by {
                    assert(capture_holds(before.gc, before.open_upvalues@, captures@[m], upvalues@[m]));
                    if captures@[m].0 {
                        let u = upvalues@[m] as int;
                        assert(before.open_upvalues@.contains(u as usize));
                        let q = choose|q: int| 0 <= q < before.open_upvalues@.len() && before.open_upvalues@[q] == u as usize;
                        assert(before.vm_roots().contains(u));
                        assert(self.open_upvalues@.contains(u as usize));
                    }
                }
            }
            upvalues.push(up);
            j = j + 1;
        }
        let ghost ups = upvalues@;
        let ghost before_alloc = *self;
        let closure = self.allocate(ObjectData::Closure(ObjectClosure::new(func, upvalues)))?;
        proof {
            assert forall|m: int| 0 <= m < count implies #[trigger] capture_holds(
                self.gc,
                self.open_upvalues@,
                captures@[m],
                ups[m],
            ) by {
                assert(capture_holds(before_alloc.gc, before_alloc.open_upvalues@, captures@[m], ups[m]));
                if captures@[m].0 {
                    let u = ups[m] as int;
                    assert(before_alloc.open_upvalues@.contains(u as usize));
                    let q = choose|q: int| 0 <= q < before_alloc.open_upvalues@.len() && before_alloc.open_upvalues@[q] == u as usize;
                    assert(before_alloc.vm_roots().contains(u));
                }
            }
        }
        self.stack.push(Value::from_object(closure as u64));
        proof {
            assert(self.stack@.drop_last() == mid.stack@);
            assert(object_slot(self.stack@.last()) == Some(closure));
            let cl = data_in(self.gc, closure as int)->Some_0->Closure_0;
            assert(cl.upvalues@ == ups);
            assert(cl.function == func);
            assert forall|m: int| 0 <= m < count implies capture_ok(*old(self), 0, self.gc, self.open_upvalues@, m, #[trigger] cl.upvalues@[m]) by {
                assert(cl.upvalues@[m] == ups[m]);
                assert(capture_described(*old(self), m, captures@[m]));
                assert(capture_holds(self.gc, self.open_upvalues@, captures@[m], ups[m]));
            }
            assert(self.frames@ == advanced_frames(old(self).frames@, 1 + 2 * count));
            assert(old(self).constant_at(0) == Some(fv));
            assert(data_in(old(self).gc, func as int)->Some_0->Function_0.upvalue_count as int == count);
            assert(closure_made(*old(self), 0, *self));
        }
        Ok(Step::Running)
    }

    /// `RETURN`: leaves the running function, closing its upvalues and
    /// dropping its slots; the returned value replaces the callee. Returning
    /// from the script finishes the program.
    fn op_return(&mut self) -> (r: Result<Step, Stop>)
        requires
            old(self).wf(),
        ensures
            final(self).written == old(self).written,
            final(self).wf(),
            final(self).globals == old(self).globals,
            r == Ok::<Step, Stop>(Step::Finished) ==> final(self).frames@.len() == 0,
            r is Ok ==> final(self).frames@.len() + 1 == old(self).frames@.len(),
            ({
                let st = old(self).stack@;
                let fs = old(self).frames@;
                &&& (st.len() == 0 || fs.len() == 0 || fs.last().base > st.len() - 1) ==> r == Err::<Step, Stop>(Stop::Fault)
                &&& (st.len() > 0 && fs.len() > 0 && fs.last().base <= st.len() - 1) ==> {
                    &&& final(self).frames@ == fs.drop_last()
                    &&& forall|j: int|
                        0 <= j < old(self).open_upvalues@.len() && closable(
                            old(self).gc,
                            #[trigger] old(self).open_upvalues@[j] as int,
                            fs.last().base as int,
                            st.len() - 1,
                        ) ==> data_in(final(self).gc, old(self).open_upvalues@[j] as int) == Some(
                            ObjectData::Upvalue(ObjectUpvalue {
                                location: None,
                                closed: st[open_slot(old(self).gc, old(self).open_upvalues@[j] as int)->Some_0 as int],
                            }),
                        )
                    &&& fs.len() == 1 ==> r == Ok::<Step, Stop>(Step::Finished) && final(self).stack@ == st.take(
                        fs.last().base as int,
                    )
                    &&& fs.len() > 1 ==> r == Ok::<Step, Stop>(Step::Running) && final(self).stack@ == st.take(
                        fs.last().base as int,
                    ).push(st.last())
                }
            }),
    {
        let v = match self.pop() {
            Some(v) => v,
            None => return Err(Stop::Fault),
        };
        let n = self.frames.len();
        if n == 0 {
            return Err(Stop::Fault);
        }
        let base = self.frames[n - 1].base;
        if base > self.stack.len() {
            return Err(Stop::Fault);
        }
        self.close_upvalues(base);
        self.stack.truncate(base);
        self.frames.pop();
        if self.frames.len() == 0 {
            return Ok(Step::Finished);
        }
        self.stack.push(v);
        Ok(Step::Running)
    }

    /// `INHERIT`: pops the subclass, and copies into it the methods of the
    /// superclass below it, which must be a class.
    fn op_inherit(&mut self) -> (r: Result<Step, Stop>)
        requires
            old(self).wf(),
        ensures
            final(self).written == old(self).written,
            r != Ok::<Step, Stop>(Step::Finished),
            final(self).wf(),
            final(self).frames == old(self).frames,
            final(self).globals == old(self).globals,
            ({
                let st = old(self).stack@;
                let n = st.len();
                &&& (n >= 2 && class_methods(old(self).gc, st.last()) is Some && class_methods(old(self).gc, st[n - 2]) is Some)
                    ==> r == Ok::<Step, Stop>(Step::Running) && final(self).stack@ == st.drop_last()
                    && class_methods(final(self).gc, st.last()) == class_methods(old(self).gc, st[n - 2])
                &&& (n >= 2 && class_methods(old(self).gc, st[n - 2]) is None) ==> r is Err
                    && (r == Err::<Step, Stop>(Stop::Fault) || (match r {
                        Err(Stop::Error(e)) => e.0 is TypeError && e.0->TypeError_0 is SuperclassInvalidType,
                        _ => false,
                    }))
            }),
    {
        let cv = match self.pop() {
            Some(v) => v,
            None => return Err(Stop::Fault),
        };
        let class = match slot_of(cv) {
            Some(c) => c,
            None => return Err(Stop::Fault),
        };
        let sv = match self.peek(0) {
            Some(v) => v,
            None => return Err(Stop::Fault),
        };
        let methods = match slot_of(sv) {
            Some(s) => match self.object(s) {
                Some(ObjectData::Class(sc)) => Some(sc.methods.copy()),
                _ => None,
            },
            None => None,
        };
        match methods {
            Some(m) => {
                if self.gc.set_methods(class, m) {
                    Ok(Step::Running)
                } else {
                    Err(Stop::Fault)
                }
            },
            None => {
                let t = self.kind(sv)?;
                Err(self.error(Error::TypeError(TypeError::SuperclassInvalidType { type_: t })))
            },
        }
    }

    /// `METHOD`: pops a closure and adds it to the class below it as the
    /// method `name`.
    fn op_method(&mut self, name: usize) -> (r: Result<Step, Stop>)
        requires
            old(self).wf(),
        ensures
            final(self).written == old(self).written,
            r != Ok::<Step, Stop>(Step::Finished),
            final(self).wf(),
            final(self).frames == old(self).frames,
            final(self).globals == old(self).globals,
            ({
                let st = old(self).stack@;
                let n = st.len();
                &&& (n >= 2 && class_methods(old(self).gc, st[n - 2]) is Some) ==> r == Ok::<Step, Stop>(Step::Running)
                    && final(self).stack@ == st.drop_last() && class_methods(final(self).gc, st[n - 2]) == Some(
                    class_methods(old(self).gc, st[n - 2])->Some_0.insert(name, st.last()),
                )
                &&& (n < 2 || class_methods(old(self).gc, st[n - 2]) is None) ==> r == Err::<Step, Stop>(Stop::Fault)
            }),
    {
        let method = match self.pop() {
            Some(v) => v,
            None => return Err(Stop::Fault),
        };
        let cv = match self.peek(0) {
            Some(v) => v,
            None => return Err(Stop::Fault),
        };
        match slot_of(cv) {
            Some(c) => {
                if self.gc.set_method(c, name, method) {
                    Ok(Step::Running)
                } else {
                    Err(Stop::Fault)
                }
            },
            None => Err(Stop::Fault),
        }
    }
}


impl VM {
    /// `INVOKE`: calls the method `name` of the receiver below the `argc`
    /// arguments; a field holding a callable value is called instead.
    fn op_invoke<H: Host>(&mut self, name: usize, argc: usize, host: &H) -> (r: Result<Step, Stop>)
        requires
            old(self).wf(),
        ensures
            final(self).written == old(self).written,
            r != Ok::<Step, Stop>(Step::Finished),
            final(self).wf(),
            final(self).globals == old(self).globals,
            invoke_effect(
                old(self).gc,
                old(self).stack@,
                old(self).frames@,
                old(self).init_string,
                *final(self),
                r,
                name,
                argc as int,
            ),
    {
        let receiver = match self.peek(argc) {
            Some(v) => v,
            None => return Err(Stop::Fault),
        };
        let fields = match slot_of(receiver) {
            Some(i) => match self.object(i) {
                Some(ObjectData::Instance(o)) => Some((o.fields.get(name), o.class)),
                _ => None,
            },
            None => None,
        };
        let (field, class) = match fields {
            Some(x) => x,
            None => {
                let t = self.kind(receiver)?;
                let n = self.name_text(name)?;
                return Err(self.error(Error::AttributeError(AttributeError::NoSuchAttribute { type_: t, name: n })));
            },
        };
        match field {
            Some(v) => return self.call_value(v, argc, host),
            None => {},
        }
        self.invoke_from_class(class, name, argc)
    }

    /// Calls the method `name` of the class in slot `class`.
    fn invoke_from_class(&mut self, class: usize, name: usize, argc: usize) -> (r: Result<Step, Stop>)
        requires
            old(self).wf(),
        ensures
            final(self).written == old(self).written,
            r != Ok::<Step, Stop>(Step::Finished),
            final(self).wf(),
            final(self).globals == old(self).globals,
            class_invoke_effect(old(self).gc, old(self).stack@, old(self).frames@, *final(self), r, class as int, name, argc as int),
    {
        let (method, class_name) = match self.object(class) {
            Some(ObjectData::Class(c)) => (c.methods.get(name), c.name),
            _ => return Err(Stop::Fault),
        };
        match method {
            Some(m) => match slot_of(m) {
                Some(c) => self.call_closure(c, argc),
                None => Err(Stop::Fault),
            },
            None => {
                let t = self.name_text(class_name)?;
                let n = self.name_text(name)?;
                Err(self.error(Error::AttributeError(AttributeError::NoSuchAttribute { type_: t, name: n })))
            },
        }
    }

    /// Runs one instruction.
    #[verifier::rlimit(50)]
    pub fn step<H: Host>(&mut self, host: &mut H) -> (r: Result<Step, Stop>)
        requires
            old(self).wf(),
        ensures
            final(self).wf(),
            step_effect(*old(self), *final(self), r),
    {
        let opcode = match self.read_u8() {
            Some(b) => b,
            None => return Err(Stop::Fault),
        };
        proof {
            lemma_advance_code(*old(self), *self);
        }
        if opcode == op::CONSTANT {
            let v = match self.read_constant() {
                Some(v) => v,
                None => return Err(Stop::Fault),
            };
            proof {
                assert(self.frames@ =~= advanced_frames(old(self).frames@, 2));
            }
            self.stack.push(v);
            Ok(Step::Running)
        } else if opcode == op::NIL {
            self.stack.push(Value::nil());
            Ok(Step::Running)
        } else if opcode == op::TRUE {
            self.stack.push(Value::true_());
            Ok(Step::Running)
        } else if opcode == op::FALSE {
            self.stack.push(Value::false_());
            Ok(Step::Running)
        } else if opcode == op::POP {
            match self.pop() {
                Some(_) => Ok(Step::Running),
                None => Err(Stop::Fault),
            }
        } else if opcode == op::GET_LOCAL {
            let ghost mid = *self;
            let slot = match self.read_u8() {
                Some(b) => b,
                None => return Err(Stop::Fault),
            };
            proof {
                lemma_advance_code(mid, *self);
                assert(self.frames@ =~= advanced_frames(old(self).frames@, 2));
            }
            match self.local_index(slot) {
                Some(i) => {
                    let v = self.stack[i];
                    self.stack.push(v);
                    Ok(Step::Running)
                },
                None => Err(Stop::Fault),
            }
        } else if opcode == op::SET_LOCAL {
            let ghost mid = *self;
            let slot = match self.read_u8() {
                Some(b) => b,
                None => return Err(Stop::Fault),
            };
            proof {
                lemma_advance_code(mid, *self);
                assert(self.frames@ =~= advanced_frames(old(self).frames@, 2));
            }
            let v = match self.peek(0) {
                Some(v) => v,
                None => return Err(Stop::Fault),
            };
            match self.local_index(slot) {
                Some(i) => {
                    self.set_slot(i, v);
                    Ok(Step::Running)
                },
                None => Err(Stop::Fault),
            }
        } else if opcode == op::GET_GLOBAL || opcode == op::DEFINE_GLOBAL || opcode == op::SET_GLOBAL {
            let name = match self.read_name() {
                Some(n) => n,
                None => return Err(Stop::Fault),
            };
            proof {
                assert(self.frames@ =~= advanced_frames(old(self).frames@, 2));
            }
            if opcode == op::GET_GLOBAL {
                self.get_global(name)
            } else if opcode == op::DEFINE_GLOBAL {
                self.define_global(name)
            } else {
                self.set_global(name)
            }
        } else if opcode == op::GET_UPVALUE {
            let ghost mid = *self;
            let i = match self.read_u8() {
                Some(b) => b,
                None => return Err(Stop::Fault),
            };
            proof {
                lemma_advance_code(mid, *self);
                assert(self.frames@ =~= advanced_frames(old(self).frames@, 2));
            }
            let v = match self.frame_upvalue(i) {
                Some(up) => self.upvalue_get(up),
                None => None,
            };
            match v {
                Some(v) => {
                    self.stack.push(v);
                    Ok(Step::Running)
                },
                None => Err(Stop::Fault),
            }
        } else if opcode == op::SET_UPVALUE {
            let ghost mid = *self;
            let i = match self.read_u8() {
                Some(b) => b,
                None => return Err(Stop::Fault),
            };
            proof {
                lemma_advance_code(mid, *self);
                assert(self.frames@ =~= advanced_frames(old(self).frames@, 2));
            }
            let v = match self.peek(0) {
                Some(v) => v,
                None => return Err(Stop::Fault),
            };
            match self.frame_upvalue(i) {
                Some(up) => {
                    if self.upvalue_set(up, v) {
                        Ok(Step::Running)
                    } else {
                        Err(Stop::Fault)
                    }
                },
                None => Err(Stop::Fault),
            }
        } else if opcode == op::GET_PROPERTY || opcode == op::SET_PROPERTY || opcode == op::GET_SUPER || opcode == op::METHOD {
            let name = match self.read_name() {
                Some(n) => n,
                None => return Err(Stop::Fault),
            };
            proof {
                assert(self.frames@ =~= advanced_frames(old(self).frames@, 2));
            }
            if opcode == op::GET_PROPERTY {
                self.get_property(name)
            } else if opcode == op::SET_PROPERTY {
                self.set_property(name)
            } else if opcode == op::GET_SUPER {
                self.get_super(name)
            } else {
                self.op_method(name)
            }
        } else if opcode == op::EQUAL {
            self.op_equal(false)
        } else if opcode == op::NOT_EQUAL {
            self.op_equal(true)
        } else if opcode == op::ADD {
            self.op_add(&*host)
        } else if opcode == op::SUBTRACT || opcode == op::MULTIPLY || opcode == op::DIVIDE || opcode == op::GREATER
            || opcode == op::GREATER_EQUAL || opcode == op::LESS || opcode == op::LESS_EQUAL {
            self.op_number(opcode, &*host)
        } else if opcode == op::NOT {
            match self.pop() {
                Some(v) => {
                    self.stack.push(v.not());
                    Ok(Step::Running)
                },
                None => Err(Stop::Fault),
            }
        } else if opcode == op::NEGATE {
            self.op_negate(&*host)
        } else if opcode == op::PRINT {
            self.print(host)
        } else if opcode == op::JUMP || opcode == op::JUMP_IF_FALSE || opcode == op::LOOP {
            let ghost mid = *self;
            let offset = match self.read_u16() {
                Some(o) => o,
                None => return Err(Stop::Fault),
            };
            let ghost after = *self;
            proof {
                let n = old(self).frames@.len();
                assert(old(self).code_at(2) is Some);
                let f = old(self).running_function()->Some_0;
                assert(f.chunk.ops@.len() == f.chunk.ops.len());
                assert(old(self).frames@.last().ip + 2 < f.chunk.ops@.len());
                assert(after.frames@[n - 1] == CallFrame { ip: (old(self).frames@.last().ip + 3) as usize, ..old(self).frames@.last() });
                assert(after.frames@ =~= advanced_frames(old(self).frames@, 3));
                assert(after.frames@.len() == n);
                assert(after.frames@.last().ip == old(self).frames@.last().ip + 3);
                assert(offset == old(self).code_at(2)->Some_0 * 256 + old(self).code_at(1)->Some_0);
            }
            let r = if opcode == op::JUMP {
                self.jump(offset, true)
            } else if opcode == op::LOOP {
                let r = self.jump(offset, false);
                proof {
                    let n = old(self).frames@.len();
                    if r is Ok {
                        assert(self.frames@[n - 1].ip == old(self).frames@.last().ip + 3 - offset);
                        assert(self.frames@ =~= advanced_frames(old(self).frames@, 3 - offset));
                    }
                }
                r
            } else {
                match self.peek(0) {
                    Some(v) => {
                        if v.to_bool() {
                            Ok(Step::Running)
                        } else {
                            self.jump(offset, true)
                        }
                    },
                    None => Err(Stop::Fault),
                }
            };
            proof {
                let n = old(self).frames@.len();
                if r is Ok && self.frames@ != after.frames@ {
                    assert(self.frames@ =~= advanced_frames(old(self).frames@, self.frames@[n - 1].ip - old(self).frames@.last().ip));
                }
            }
            r
        } else if opcode == op::CALL {
            let ghost mid = *self;
            let argc = match self.read_u8() {
                Some(b) => b as usize,
                None => return Err(Stop::Fault),
            };
            proof {
                lemma_advance_code(mid, *self);
                assert(self.frames@ =~= advanced_frames(old(self).frames@, 2));
            }
            match self.peek(argc) {
                Some(callee) => self.call_value(callee, argc, &*host),
                None => Err(Stop::Fault),
            }
        } else if opcode == op::INVOKE || opcode == op::SUPER_INVOKE {
            let ghost s1 = *self;
            let name = match self.read_name() {
                Some(n) => n,
                None => return Err(Stop::Fault),
            };
            let ghost s2 = *self;
            proof {
                lemma_advance_code(s1, s2);
            }
            let argc = match self.read_u8() {
                Some(b) => b as usize,
                None => return Err(Stop::Fault),
            };
            proof {
                lemma_advance_code(s2, *self);
                assert(self.frames@ =~= advanced_frames(old(self).frames@, 3));
            }
            if opcode == op::INVOKE {
                self.op_invoke(name, argc, &*host)
            } else {
                let sup = match self.pop() {
                    Some(v) => v,
                    None => return Err(Stop::Fault),
                };
                match slot_of(sup) {
                    Some(c) => self.invoke_from_class(c, name, argc),
                    None => Err(Stop::Fault),
                }
            }
        } else if opcode == op::CLOSURE {
            let ghost mid = *self;
            let r = self.op_closure();
            proof {
                if r is Ok {
                    lemma_closure_made_shift(*old(self), mid, *self);
                }
            }
            r
        } else if opcode == op::CLOSE_UPVALUE {
            if self.stack.len() == 0 {
                return Err(Stop::Fault);
            }
            let last = self.stack.len() - 1;
            self.close_upvalues(last);
            self.pop();
            Ok(Step::Running)
        } else if opcode == op::RETURN {
            self.op_return()
        } else if opcode == op::CLASS {
            let name = match self.read_name() {
                Some(n) => n,
                None => return Err(Stop::Fault),
            };
            proof {
                assert(self.frames@ =~= advanced_frames(old(self).frames@, 2));
            }
            let class = self.allocate(ObjectData::Class(ObjectClass::new(name)))?;
            self.stack.push(Value::from_object(class as u64));
            proof {
                assert(self.stack@.drop_last() =~= old(self).stack@);
            }
            Ok(Step::Running)
        } else if opcode == op::INHERIT {
            self.op_inherit()
        } else {
            Err(Stop::Fault)
        }
    }

    /// Runs at most `budget` instructions, or until the script returns or
    /// the program makes an error.
    #[verifier::loop_isolation(false)]
    pub fn run_function<H: Host>(&mut self, host: &mut H, budget: usize) -> (r: Result<Step, Stop>)
        requires
            old(self).wf(),
        ensures
            final(self).wf(),
            r == Ok::<Step, Stop>(Step::Finished) ==> final(self).frames@.len() == 0,
            budget == 0 ==> r == Ok::<Step, Stop>(Step::Running) && *final(self) == *old(self),
            (budget > 0 && old(self).code_at(0) is None) ==> r == Err::<Step, Stop>(Stop::Fault),
            r == Ok::<Step, Stop>(Step::Running) ==> ran(*old(self), *final(self), budget as nat),
            r != Ok::<Step, Stop>(Step::Running) ==> budget > 0 && exists|m: VM|
                #[trigger] step_effect(m, *final(self), r) && ran_upto(*old(self), m, (budget - 1) as nat),
    {
        let mut n: usize = 0;
        while n < budget
            invariant
                self.wf(),
                n == 0 ==> *self == *old(self),
                n <= budget,
                n > 0 ==> old(self).code_at(0) is Some,
                ran(*old(self), *self, n as nat),
            decreases budget - n,
        {
            let ghost pre = *self;
            let r = self.step(host);
            proof {
                lemma_ran_upto(*old(self), pre, n as nat, (budget - 1) as nat);
            }
            match r {
                Ok(Step::Finished) => return Ok(Step::Finished),
                Ok(Step::Running) => {},
                Err(e) => return Err(e),
            }
            proof {
                assert(step_effect(pre, *self, Ok(Step::Running)));
                assert(ran(*old(self), *self, (n + 1) as nat));
            }
            n = n + 1;
        }
        Ok(Step::Running)
    }

    /// Compiles a program and makes its script the running function, on an
    /// empty stack. The source is kept with everything run before.
    pub fn load<H: Host>(&mut self, source: &str, host: &H) -> (r: Result<(), Vec<ErrorS>>)
        requires
            old(self).wf(),
        ensures
            final(self).written == old(self).written,
            final(self).wf(),
            r is Ok ==> final(self).frames@.len() == 1 && final(self).stack@.len() == 0
                && final(self).frames@[0].ip == 0 && final(self).frames@[0].base == 0,
            r is Err ==> r->Err_0@.len() == 1,
            final(self).source@ == old(self).source@ + source@ + "\n"@,
            crate::parser::tokens_from(source@, 0) is None ==> r is Err,
            (crate::parser::tokens_from(source@, 0) == Some(Seq::<(int, crate::lexer::TokenKind, int)>::empty())
                && old(self).gc.objects@.len() + 3 < MAX_OBJECTS) ==> r is Ok && (match data_in(final(self).gc, final(self).frames@[0].closure as int) {
                Some(ObjectData::Closure(c)) => c.upvalues@.len() == 0 && match data_in(final(self).gc, c.function as int) {
                    Some(ObjectData::Function(f)) => f.chunk.ops@ == seq![op::NIL, op::RETURN],
                    _ => false,
                },
                _ => false,
            }),
    {
        self.source.append(source);
        self.source.append("\n");
        let function = Compiler::compile(source, &mut self.gc, host)?;
        if !self.gc.has_room() {
            let mut errs = Vec::new();
            errs.push((Error::OverflowError(OverflowError::OutOfMemory), no_span()));
            return Err(errs);
        }
        let closure = self.gc.alloc_object(ObjectData::Closure(ObjectClosure::new(function, Vec::new())));
        self.stack.clear();
        self.frames.clear();
        self.frames.push(CallFrame { closure, ip: 0, base: 0 });
        Ok(())
    }
}

impl Default for VM {
    fn default() -> (vm: VM)
        ensures
            vm.wf(),
            vm.stack@.len() == 0,
            vm.frames@.len() == 0,
    {
        VM::new()
    }
}

} // verus!
