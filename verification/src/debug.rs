//! A disassembler for chunks of bytecode: one line per instruction, with its
//! offset, its name and its operands.
use vstd::prelude::*;
use vstd::string::StrSliceExecFns;

use crate::chunk::Chunk;
use crate::collections::{constant_pool, constant_pool_slice};
use crate::gc::Gc;
use crate::host::Host;
use crate::object::ObjectData;
use crate::op;
use crate::value::Value;
use crate::vm::{data_in, display_spec, display_value, object_in, object_slot, slot_of};

verus! {

pub open spec fn digit_char(d: nat) -> char {
    if d == 0 {
        '0'
    } else if d == 1 {
        '1'
    } else if d == 2 {
        '2'
    } else if d == 3 {
        '3'
    } else if d == 4 {
        '4'
    } else if d == 5 {
        '5'
    } else if d == 6 {
        '6'
    } else if d == 7 {
        '7'
    } else if d == 8 {
        '8'
    } else {
        '9'
    }
}

/// The decimal digits of `n`, most significant first.
pub open spec fn decimal(n: nat) -> Seq<char>
    decreases n,
{
    if n < 10 {
        seq![digit_char(n)]
    } else {
        decimal(n / 10).push(digit_char(n % 10))
    }
}

/// `s` preceded by copies of `c` up to `width` characters.
pub open spec fn pad_left(s: Seq<char>, width: nat, c: char) -> Seq<char> {
    if s.len() >= width {
        s
    } else {
        Seq::new((width - s.len()) as nat, |i: int| c) + s
    }
}

/// `s` followed by spaces up to `width` characters.
pub open spec fn pad_right(s: Seq<char>, width: nat) -> Seq<char> {
    if s.len() >= width {
        s
    } else {
        s + Seq::new((width - s.len()) as nat, |i: int| ' ')
    }
}

fn digit(d: u64) -> (c: char)
    requires
        d < 10,
    ensures
        c == digit_char(d as nat),
{
    if d == 0 {
        '0'
    } else if d == 1 {
        '1'
    } else if d == 2 {
        '2'
    } else if d == 3 {
        '3'
    } else if d == 4 {
        '4'
    } else if d == 5 {
        '5'
    } else if d == 6 {
        '6'
    } else if d == 7 {
        '7'
    } else if d == 8 {
        '8'
    } else {
        '9'
    }
}

/// `n` in decimal.
pub fn to_decimal(n: u64) -> (r: String)
    ensures
        r@ == decimal(n as nat),
    decreases n,
{
    if n < 10 {
        let mut s = String::new();
        push_char(&mut s, digit(n));
        return s;
    }
    let mut s = to_decimal(n / 10);
    push_char(&mut s, digit(n % 10));
    s
}

/// `String::push`: the character appended.
#[verifier::external_body]
fn push_char(s: &mut String, c: char)
    ensures
        final(s)@ == old(s)@.push(c),
{
    s.push(c)
}

/// Pads `s` on the left with `c` to `width` characters.
pub fn pad_left_exec(s: &str, width: usize, c: char) -> (r: String)
    ensures
        r@ == pad_left(s@, width as nat, c),
{
    let n = s.unicode_len();
    let mut out = String::new();
    let mut i = n;
    while i < width
        invariant
            n <= i <= width || (n > width && i == n),
            n == s@.len(),
            out@ == Seq::new((i - n) as nat, |k: int| c),
        decreases width - i,
    {
        push_char(&mut out, c);
        proof {
            assert(out@ =~= Seq::new((i + 1 - n) as nat, |k: int| c));
        }
        i = i + 1;
    }
    out.append(s);
    proof {
        if n >= width {
            assert(out@ =~= s@);
        }
    }
    out
}

/// Pads `s` on the right with spaces to `width` characters.
pub fn pad_right_exec(s: &str, width: usize) -> (r: String)
    ensures
        r@ == pad_right(s@, width as nat),
{
    let n = s.unicode_len();
    let mut out = String::from_str(s);
    let mut i = n;
    while i < width
        invariant
            n <= i <= width || (n > width && i == n),
            n == s@.len(),
            out@ == s@ + Seq::new((i - n) as nat, |k: int| ' '),
        decreases width - i,
    {
        push_char(&mut out, ' ');
        proof {
            assert(out@ =~= s@ + Seq::new((i + 1 - n) as nat, |k: int| ' '));
        }
        i = i + 1;
    }
    proof {
        if n >= width {
            assert(out@ =~= s@);
        }
    }
    out
}

/// The name that disassembly gives an opcode.
pub open spec fn op_name_spec(opcode: u8) -> Option<Seq<char>> {
    if opcode == op::CONSTANT {
        Some("OP_CONSTANT"@)
    } else if opcode == op::NIL {
        Some("OP_NIL"@)
    } else if opcode == op::TRUE {
        Some("OP_TRUE"@)
    } else if opcode == op::FALSE {
        Some("OP_FALSE"@)
    } else if opcode == op::POP {
        Some("OP_POP"@)
    } else if opcode == op::GET_LOCAL {
        Some("OP_GET_LOCAL"@)
    } else if opcode == op::SET_LOCAL {
        Some("OP_SET_LOCAL"@)
    } else if opcode == op::GET_GLOBAL {
        Some("OP_GET_GLOBAL"@)
    } else if opcode == op::DEFINE_GLOBAL {
        Some("OP_DEFINE_GLOBAL"@)
    } else if opcode == op::SET_GLOBAL {
        Some("OP_SET_GLOBAL"@)
    } else if opcode == op::GET_UPVALUE {
        Some("OP_GET_UPVALUE"@)
    } else if opcode == op::SET_UPVALUE {
        Some("OP_SET_UPVALUE"@)
    } else if opcode == op::GET_PROPERTY {
        Some("OP_GET_PROPERTY"@)
    } else if opcode == op::SET_PROPERTY {
        Some("OP_SET_PROPERTY"@)
    } else if opcode == op::GET_SUPER {
        Some("OP_GET_SUPER"@)
    } else if opcode == op::EQUAL {
        Some("OP_EQUAL"@)
    } else if opcode == op::NOT_EQUAL {
        Some("OP_NOT_EQUAL"@)
    } else if opcode == op::GREATER {
        Some("OP_GREATER"@)
    } else if opcode == op::GREATER_EQUAL {
        Some("OP_GREATER_EQUAL"@)
    } else if opcode == op::LESS {
        Some("OP_LESS"@)
    } else if opcode == op::LESS_EQUAL {
        Some("OP_LESS_EQUAL"@)
    } else if opcode == op::ADD {
        Some("OP_ADD"@)
    } else if opcode == op::SUBTRACT {
        Some("OP_SUBTRACT"@)
    } else if opcode == op::MULTIPLY {
        Some("OP_MULTIPLY"@)
    } else if opcode == op::DIVIDE {
        Some("OP_DIVIDE"@)
    } else if opcode == op::NOT {
        Some("OP_NOT"@)
    } else if opcode == op::NEGATE {
        Some("OP_NEGATE"@)
    } else if opcode == op::PRINT {
        Some("OP_PRINT"@)
    } else if opcode == op::JUMP {
        Some("OP_JUMP"@)
    } else if opcode == op::JUMP_IF_FALSE {
        Some("OP_JUMP_IF_FALSE"@)
    } else if opcode == op::LOOP {
        Some("OP_LOOP"@)
    } else if opcode == op::CALL {
        Some("OP_CALL"@)
    } else if opcode == op::INVOKE {
        Some("OP_INVOKE"@)
    } else if opcode == op::SUPER_INVOKE {
        Some("OP_SUPER_INVOKE"@)
    } else if opcode == op::CLOSURE {
        Some("OP_CLOSURE"@)
    } else if opcode == op::CLOSE_UPVALUE {
        Some("OP_CLOSE_UPVALUE"@)
    } else if opcode == op::RETURN {
        Some("OP_RETURN"@)
    } else if opcode == op::CLASS {
        Some("OP_CLASS"@)
    } else if opcode == op::INHERIT {
        Some("OP_INHERIT"@)
    } else if opcode == op::METHOD {
        Some("OP_METHOD"@)
    } else {
        None
    }
}


/// The length, fourth character and last character of a name.
pub open spec fn name_key(n: Seq<char>) -> (int, char, char) {
    (n.len() as int, n[3], n[n.len() - 1])
}

/// What `name_key` gives on the name of each opcode.
spec fn name_key_of(opcode: u8) -> (int, char, char) {
    if opcode == op::CONSTANT {
        (11, 'C', 'T')
    } else if opcode == op::NIL {
        (6, 'N', 'L')
    } else if opcode == op::TRUE {
        (7, 'T', 'E')
    } else if opcode == op::FALSE {
        (8, 'F', 'E')
    } else if opcode == op::POP {
        (6, 'P', 'P')
    } else if opcode == op::GET_LOCAL {
        (12, 'G', 'L')
    } else if opcode == op::SET_LOCAL {
        (12, 'S', 'L')
    } else if opcode == op::GET_GLOBAL {
        (13, 'G', 'L')
    } else if opcode == op::DEFINE_GLOBAL {
        (16, 'D', 'L')
    } else if opcode == op::SET_GLOBAL {
        (13, 'S', 'L')
    } else if opcode == op::GET_UPVALUE {
        (14, 'G', 'E')
    } else if opcode == op::SET_UPVALUE {
        (14, 'S', 'E')
    } else if opcode == op::GET_PROPERTY {
        (15, 'G', 'Y')
    } else if opcode == op::SET_PROPERTY {
        (15, 'S', 'Y')
    } else if opcode == op::GET_SUPER {
        (12, 'G', 'R')
    } else if opcode == op::EQUAL {
        (8, 'E', 'L')
    } else if opcode == op::NOT_EQUAL {
        (12, 'N', 'L')
    } else if opcode == op::GREATER {
        (10, 'G', 'R')
    } else if opcode == op::GREATER_EQUAL {
        (16, 'G', 'L')
    } else if opcode == op::LESS {
        (7, 'L', 'S')
    } else if opcode == op::LESS_EQUAL {
        (13, 'L', 'L')
    } else if opcode == op::ADD {
        (6, 'A', 'D')
    } else if opcode == op::SUBTRACT {
        (11, 'S', 'T')
    } else if opcode == op::MULTIPLY {
        (11, 'M', 'Y')
    } else if opcode == op::DIVIDE {
        (9, 'D', 'E')
    } else if opcode == op::NOT {
        (6, 'N', 'T')
    } else if opcode == op::NEGATE {
        (9, 'N', 'E')
    } else if opcode == op::PRINT {
        (8, 'P', 'T')
    } else if opcode == op::JUMP {
        (7, 'J', 'P')
    } else if opcode == op::JUMP_IF_FALSE {
        (16, 'J', 'E')
    } else if opcode == op::LOOP {
        (7, 'L', 'P')
    } else if opcode == op::CALL {
        (7, 'C', 'L')
    } else if opcode == op::INVOKE {
        (9, 'I', 'E')
    } else if opcode == op::SUPER_INVOKE {
        (15, 'S', 'E')
    } else if opcode == op::CLOSURE {
        (10, 'C', 'E')
    } else if opcode == op::CLOSE_UPVALUE {
        (16, 'C', 'E')
    } else if opcode == op::RETURN {
        (9, 'R', 'N')
    } else if opcode == op::CLASS {
        (8, 'C', 'S')
    } else if opcode == op::INHERIT {
        (10, 'I', 'T')
    } else if opcode == op::METHOD {
        (9, 'M', 'D')
    } else {
        (0, ' ', ' ')
    }
}

proof fn lemma_name_key(opcode: u8)
    ensures
        op_name_spec(opcode) is Some ==> name_key(op_name_spec(opcode)->Some_0) == name_key_of(opcode),
{
    reveal_strlit("OP_CONSTANT");
    reveal_strlit("OP_NIL");
    reveal_strlit("OP_TRUE");
    reveal_strlit("OP_FALSE");
    reveal_strlit("OP_POP");
    reveal_strlit("OP_GET_LOCAL");
    reveal_strlit("OP_SET_LOCAL");
    reveal_strlit("OP_GET_GLOBAL");
    reveal_strlit("OP_DEFINE_GLOBAL");
    reveal_strlit("OP_SET_GLOBAL");
    reveal_strlit("OP_GET_UPVALUE");
    reveal_strlit("OP_SET_UPVALUE");
    reveal_strlit("OP_GET_PROPERTY");
    reveal_strlit("OP_SET_PROPERTY");
    reveal_strlit("OP_GET_SUPER");
    reveal_strlit("OP_EQUAL");
    reveal_strlit("OP_NOT_EQUAL");
    reveal_strlit("OP_GREATER");
    reveal_strlit("OP_GREATER_EQUAL");
    reveal_strlit("OP_LESS");
    reveal_strlit("OP_LESS_EQUAL");
    reveal_strlit("OP_ADD");
    reveal_strlit("OP_SUBTRACT");
    reveal_strlit("OP_MULTIPLY");
    reveal_strlit("OP_DIVIDE");
    reveal_strlit("OP_NOT");
    reveal_strlit("OP_NEGATE");
    reveal_strlit("OP_PRINT");
    reveal_strlit("OP_JUMP");
    reveal_strlit("OP_JUMP_IF_FALSE");
    reveal_strlit("OP_LOOP");
    reveal_strlit("OP_CALL");
    reveal_strlit("OP_INVOKE");
    reveal_strlit("OP_SUPER_INVOKE");
    reveal_strlit("OP_CLOSURE");
    reveal_strlit("OP_CLOSE_UPVALUE");
    reveal_strlit("OP_RETURN");
    reveal_strlit("OP_CLASS");
    reveal_strlit("OP_INHERIT");
    reveal_strlit("OP_METHOD");
    if opcode == op::CONSTANT {
        assert(op_name_spec(opcode) == Some("OP_CONSTANT"@));
    } else if opcode == op::NIL {
        assert(op_name_spec(opcode) == Some("OP_NIL"@));
    } else if opcode == op::TRUE {
        assert(op_name_spec(opcode) == Some("OP_TRUE"@));
    } else if opcode == op::FALSE {
        assert(op_name_spec(opcode) == Some("OP_FALSE"@));
    } else if opcode == op::POP {
        assert(op_name_spec(opcode) == Some("OP_POP"@));
    } else if opcode == op::GET_LOCAL {
        assert(op_name_spec(opcode) == Some("OP_GET_LOCAL"@));
    } else if opcode == op::SET_LOCAL {
        assert(op_name_spec(opcode) == Some("OP_SET_LOCAL"@));
    } else if opcode == op::GET_GLOBAL {
        assert(op_name_spec(opcode) == Some("OP_GET_GLOBAL"@));
    } else if opcode == op::DEFINE_GLOBAL {
        assert(op_name_spec(opcode) == Some("OP_DEFINE_GLOBAL"@));
    } else if opcode == op::SET_GLOBAL {
        assert(op_name_spec(opcode) == Some("OP_SET_GLOBAL"@));
    } else if opcode == op::GET_UPVALUE {
        assert(op_name_spec(opcode) == Some("OP_GET_UPVALUE"@));
    } else if opcode == op::SET_UPVALUE {
        assert(op_name_spec(opcode) == Some("OP_SET_UPVALUE"@));
    } else if opcode == op::GET_PROPERTY {
        assert(op_name_spec(opcode) == Some("OP_GET_PROPERTY"@));
    } else if opcode == op::SET_PROPERTY {
        assert(op_name_spec(opcode) == Some("OP_SET_PROPERTY"@));
    } else if opcode == op::GET_SUPER {
        assert(op_name_spec(opcode) == Some("OP_GET_SUPER"@));
    } else if opcode == op::EQUAL {
        assert(op_name_spec(opcode) == Some("OP_EQUAL"@));
    } else if opcode == op::NOT_EQUAL {
        assert(op_name_spec(opcode) == Some("OP_NOT_EQUAL"@));
    } else if opcode == op::GREATER {
        assert(op_name_spec(opcode) == Some("OP_GREATER"@));
    } else if opcode == op::GREATER_EQUAL {
        assert(op_name_spec(opcode) == Some("OP_GREATER_EQUAL"@));
    } else if opcode == op::LESS {
        assert(op_name_spec(opcode) == Some("OP_LESS"@));
    } else if opcode == op::LESS_EQUAL {
        assert(op_name_spec(opcode) == Some("OP_LESS_EQUAL"@));
    } else if opcode == op::ADD {
        assert(op_name_spec(opcode) == Some("OP_ADD"@));
    } else if opcode == op::SUBTRACT {
        assert(op_name_spec(opcode) == Some("OP_SUBTRACT"@));
    } else if opcode == op::MULTIPLY {
        assert(op_name_spec(opcode) == Some("OP_MULTIPLY"@));
    } else if opcode == op::DIVIDE {
        assert(op_name_spec(opcode) == Some("OP_DIVIDE"@));
    } else if opcode == op::NOT {
        assert(op_name_spec(opcode) == Some("OP_NOT"@));
    } else if opcode == op::NEGATE {
        assert(op_name_spec(opcode) == Some("OP_NEGATE"@));
    } else if opcode == op::PRINT {
        assert(op_name_spec(opcode) == Some("OP_PRINT"@));
    } else if opcode == op::JUMP {
        assert(op_name_spec(opcode) == Some("OP_JUMP"@));
    } else if opcode == op::JUMP_IF_FALSE {
        assert(op_name_spec(opcode) == Some("OP_JUMP_IF_FALSE"@));
    } else if opcode == op::LOOP {
        assert(op_name_spec(opcode) == Some("OP_LOOP"@));
    } else if opcode == op::CALL {
        assert(op_name_spec(opcode) == Some("OP_CALL"@));
    } else if opcode == op::INVOKE {
        assert(op_name_spec(opcode) == Some("OP_INVOKE"@));
    } else if opcode == op::SUPER_INVOKE {
        assert(op_name_spec(opcode) == Some("OP_SUPER_INVOKE"@));
    } else if opcode == op::CLOSURE {
        assert(op_name_spec(opcode) == Some("OP_CLOSURE"@));
    } else if opcode == op::CLOSE_UPVALUE {
        assert(op_name_spec(opcode) == Some("OP_CLOSE_UPVALUE"@));
    } else if opcode == op::RETURN {
        assert(op_name_spec(opcode) == Some("OP_RETURN"@));
    } else if opcode == op::CLASS {
        assert(op_name_spec(opcode) == Some("OP_CLASS"@));
    } else if opcode == op::INHERIT {
        assert(op_name_spec(opcode) == Some("OP_INHERIT"@));
    } else if opcode == op::METHOD {
        assert(op_name_spec(opcode) == Some("OP_METHOD"@));
    }
}

/// Disassembly names tell opcodes apart: no two opcodes share a name.
pub proof fn lemma_op_names_distinct(a: u8, b: u8)
    requires
        op_name_spec(a) is Some,
        op_name_spec(a) == op_name_spec(b),
    ensures
        a == b,
{
    lemma_name_key(a);
    lemma_name_key(b);
    assert(name_key_of(a) == name_key_of(b));
}

/// The comparison instructions are named for what the machine does with
/// them: the one named `OP_GREATER` answers whether the number below the
/// top of the stack is larger than the one on top, and so on.
pub proof fn lemma_comparison_names(o: u8, x: u64, y: u64)
    ensures
        op_name_spec(o) == Some("OP_GREATER"@) ==> crate::vm::compared(Some(o), x, y) == Some(crate::double::double_less(y, x)),
        op_name_spec(o) == Some("OP_GREATER_EQUAL"@) ==> crate::vm::compared(Some(o), x, y) == Some(
            crate::double::double_less_equal(y, x),
        ),
        op_name_spec(o) == Some("OP_LESS"@) ==> crate::vm::compared(Some(o), x, y) == Some(crate::double::double_less(x, y)),
        op_name_spec(o) == Some("OP_LESS_EQUAL"@) ==> crate::vm::compared(Some(o), x, y) == Some(
            crate::double::double_less_equal(x, y),
        ),
{
    if op_name_spec(o) == Some("OP_GREATER"@) {
        lemma_op_names_distinct(o, op::GREATER);
    }
    if op_name_spec(o) == Some("OP_GREATER_EQUAL"@) {
        lemma_op_names_distinct(o, op::GREATER_EQUAL);
    }
    if op_name_spec(o) == Some("OP_LESS"@) {
        lemma_op_names_distinct(o, op::LESS);
    }
    if op_name_spec(o) == Some("OP_LESS_EQUAL"@) {
        lemma_op_names_distinct(o, op::LESS_EQUAL);
    }
}

/// The name that disassembly gives an opcode.
pub fn op_name(opcode: u8) -> (r: Option<&'static str>)
    ensures
        (match r {
            Some(n) => Some(n@),
            None => None,
        }) == op_name_spec(opcode),
{
    if opcode == op::CONSTANT {
        Some("OP_CONSTANT")
    } else if opcode == op::NIL {
        Some("OP_NIL")
    } else if opcode == op::TRUE {
        Some("OP_TRUE")
    } else if opcode == op::FALSE {
        Some("OP_FALSE")
    } else if opcode == op::POP {
        Some("OP_POP")
    } else if opcode == op::GET_LOCAL {
        Some("OP_GET_LOCAL")
    } else if opcode == op::SET_LOCAL {
        Some("OP_SET_LOCAL")
    } else if opcode == op::GET_GLOBAL {
        Some("OP_GET_GLOBAL")
    } else if opcode == op::DEFINE_GLOBAL {
        Some("OP_DEFINE_GLOBAL")
    } else if opcode == op::SET_GLOBAL {
        Some("OP_SET_GLOBAL")
    } else if opcode == op::GET_UPVALUE {
        Some("OP_GET_UPVALUE")
    } else if opcode == op::SET_UPVALUE {
        Some("OP_SET_UPVALUE")
    } else if opcode == op::GET_PROPERTY {
        Some("OP_GET_PROPERTY")
    } else if opcode == op::SET_PROPERTY {
        Some("OP_SET_PROPERTY")
    } else if opcode == op::GET_SUPER {
        Some("OP_GET_SUPER")
    } else if opcode == op::EQUAL {
        Some("OP_EQUAL")
    } else if opcode == op::NOT_EQUAL {
        Some("OP_NOT_EQUAL")
    } else if opcode == op::GREATER {
        Some("OP_GREATER")
    } else if opcode == op::GREATER_EQUAL {
        Some("OP_GREATER_EQUAL")
    } else if opcode == op::LESS {
        Some("OP_LESS")
    } else if opcode == op::LESS_EQUAL {
        Some("OP_LESS_EQUAL")
    } else if opcode == op::ADD {
        Some("OP_ADD")
    } else if opcode == op::SUBTRACT {
        Some("OP_SUBTRACT")
    } else if opcode == op::MULTIPLY {
        Some("OP_MULTIPLY")
    } else if opcode == op::DIVIDE {
        Some("OP_DIVIDE")
    } else if opcode == op::NOT {
        Some("OP_NOT")
    } else if opcode == op::NEGATE {
        Some("OP_NEGATE")
    } else if opcode == op::PRINT {
        Some("OP_PRINT")
    } else if opcode == op::JUMP {
        Some("OP_JUMP")
    } else if opcode == op::JUMP_IF_FALSE {
        Some("OP_JUMP_IF_FALSE")
    } else if opcode == op::LOOP {
        Some("OP_LOOP")
    } else if opcode == op::CALL {
        Some("OP_CALL")
    } else if opcode == op::INVOKE {
        Some("OP_INVOKE")
    } else if opcode == op::SUPER_INVOKE {
        Some("OP_SUPER_INVOKE")
    } else if opcode == op::CLOSURE {
        Some("OP_CLOSURE")
    } else if opcode == op::CLOSE_UPVALUE {
        Some("OP_CLOSE_UPVALUE")
    } else if opcode == op::RETURN {
        Some("OP_RETURN")
    } else if opcode == op::CLASS {
        Some("OP_CLASS")
    } else if opcode == op::INHERIT {
        Some("OP_INHERIT")
    } else if opcode == op::METHOD {
        Some("OP_METHOD")
    } else {
        None
    }
}

/// How an instruction's operands are laid out after its opcode.
pub enum Layout {
    /// No operand.
    Simple,
    /// One byte: a slot, an upvalue index or an argument count.
    Byte,
    /// One constant index.
    Constant,
    /// A two-byte jump offset, forward or back.
    Jump(bool),
    /// A constant index and an argument count.
    Invoke,
    /// A function constant, then two bytes per upvalue.
    Closure,
}

pub open spec fn layout_of(opcode: u8) -> Layout {
    if opcode == op::CONSTANT || opcode == op::GET_GLOBAL || opcode == op::DEFINE_GLOBAL || opcode == op::SET_GLOBAL
        || opcode == op::GET_PROPERTY || opcode == op::SET_PROPERTY || opcode == op::GET_SUPER || opcode == op::CLASS
        || opcode == op::METHOD {
        Layout::Constant
    } else if opcode == op::GET_LOCAL || opcode == op::SET_LOCAL || opcode == op::GET_UPVALUE || opcode == op::SET_UPVALUE
        || opcode == op::CALL {
        Layout::Byte
    } else if opcode == op::JUMP || opcode == op::JUMP_IF_FALSE {
        Layout::Jump(true)
    } else if opcode == op::LOOP {
        Layout::Jump(false)
    } else if opcode == op::INVOKE || opcode == op::SUPER_INVOKE {
        Layout::Invoke
    } else if opcode == op::CLOSURE {
        Layout::Closure
    } else {
        Layout::Simple
    }
}

/// The number of bytes an instruction takes, but for a closure's upvalues.
pub open spec fn width(opcode: u8) -> nat {
    match layout_of(opcode) {
        Layout::Simple => 1,
        Layout::Byte => 2,
        Layout::Constant => 2,
        Layout::Jump(_) => 3,
        Layout::Invoke => 3,
        Layout::Closure => 2,
    }
}

fn layout(opcode: u8) -> (r: Layout)
    ensures
        r == layout_of(opcode),
{
    if opcode == op::CONSTANT || opcode == op::GET_GLOBAL || opcode == op::DEFINE_GLOBAL || opcode == op::SET_GLOBAL
        || opcode == op::GET_PROPERTY || opcode == op::SET_PROPERTY || opcode == op::GET_SUPER || opcode == op::CLASS
        || opcode == op::METHOD {
        Layout::Constant
    } else if opcode == op::GET_LOCAL || opcode == op::SET_LOCAL || opcode == op::GET_UPVALUE || opcode == op::SET_UPVALUE
        || opcode == op::CALL {
        Layout::Byte
    } else if opcode == op::JUMP || opcode == op::JUMP_IF_FALSE {
        Layout::Jump(true)
    } else if opcode == op::LOOP {
        Layout::Jump(false)
    } else if opcode == op::INVOKE || opcode == op::SUPER_INVOKE {
        Layout::Invoke
    } else if opcode == op::CLOSURE {
        Layout::Closure
    } else {
        Layout::Simple
    }
}

/// An upper-case hexadecimal digit.
pub open spec fn hex_digit_char(d: nat) -> char {
    if d < 10 {
        digit_char(d)
    } else if d == 10 {
        'A'
    } else if d == 11 {
        'B'
    } else if d == 12 {
        'C'
    } else if d == 13 {
        'D'
    } else if d == 14 {
        'E'
    } else {
        'F'
    }
}

/// `0x` and the byte in upper-case hexadecimal, without leading zeros.
pub open spec fn hex_text(b: u8) -> Seq<char> {
    seq!['0', 'x'] + (if b / 16 > 0 {
        seq![hex_digit_char((b / 16) as nat)]
    } else {
        Seq::empty()
    }) + seq![hex_digit_char((b % 16) as nat)]
}

/// The name that disassembly shows for an opcode, known or not.
pub open spec fn op_label(opcode: u8) -> Seq<char> {
    match op_name_spec(opcode) {
        Some(n) => n,
        None => "OP_UNKNOWN("@ + hex_text(opcode) + ")"@,
    }
}

/// Where a jump of `offset` bytes from the instruction at `idx` lands, as
/// disassembly shows it.
pub open spec fn jump_target(idx: nat, offset: nat, forward: bool) -> Seq<char> {
    if forward {
        if idx + offset + 3 <= u64::MAX {
            decimal(idx + offset + 3)
        } else {
            seq!['?']
        }
    } else if offset <= idx + 3 {
        decimal((idx + 3 - offset) as nat)
    } else {
        seq!['-'] + decimal((offset - idx - 3) as nat)
    }
}

/// `0x` and the byte in upper-case hexadecimal, without leading zeros.
fn hex(b: u8) -> (r: String)
    ensures
        r@ == hex_text(b),
{
    let mut s = String::from_str("0x");
    proof {
        reveal_strlit("0x");
    }
    let hi = b / 16;
    let lo = b % 16;
    if hi > 0 {
        push_char(&mut s, hex_digit(hi));
    }
    push_char(&mut s, hex_digit(lo));
    proof {
        assert(s@ =~= hex_text(b));
    }
    s
}

fn hex_digit(d: u8) -> (c: char)
    requires
        d < 16,
    ensures
        c == hex_digit_char(d as nat),
{
    if d < 10 {
        digit(d as u64)
    } else if d == 10 {
        'A'
    } else if d == 11 {
        'B'
    } else if d == 12 {
        'C'
    } else if d == 13 {
        'D'
    } else if d == 14 {
        'E'
    } else {
        'F'
    }
}

/// The number of upvalues of the function that constant `c` of `pool`
/// holds; 0 when it holds no function.
pub open spec fn upvalue_count_spec(pool: Seq<Value>, c: int, gc: Gc) -> usize {
    if 0 <= c < pool.len() {
        match object_slot(pool[c]) {
            Some(f) => match data_in(gc, f as int) {
                Some(ObjectData::Function(func)) => func.upvalue_count as usize,
                _ => 0,
            },
            None => 0,
        }
    } else {
        0
    }
}

impl Chunk {
    /// The disassembly of the instruction at `idx`, and the offset of the
    /// next one. The first line starts with the offset, zero-padded to four
    /// digits; a closure adds a line for each upvalue it captures.
    #[verifier::rlimit(50)]
    pub fn debug_op<H: Host>(&self, idx: usize, gc: &Gc, host: &H) -> (r: (Vec<String>, usize))
        requires
            idx < self.ops@.len(),
            idx + width(self.ops@[idx as int]) <= self.ops@.len(),
        ensures
            r.0@.len() >= 1,
            r.0@[0]@.take(4) == pad_left(decimal(idx as nat), 4, '0').take(4),
            layout_of(self.ops@[idx as int]) !is Closure ==> r.1 == idx + width(self.ops@[idx as int]),
            (layout_of(self.ops@[idx as int]) is Closure && idx + 2 + 2 * upvalue_count_spec(
                constant_pool(self.constants),
                self.ops@[idx + 1] as int,
                *gc,
            ) <= self.ops@.len()) ==> r.1 == idx + 2 + 2 * upvalue_count_spec(
                constant_pool(self.constants),
                self.ops@[idx + 1] as int,
                *gc,
            ),
            idx < r.1 <= self.ops@.len(),
            ({
                let op = self.ops@[idx as int];
                let head = pad_left(decimal(idx as nat), 4, '0') + seq![' '];
                let label = op_label(op);
                &&& layout_of(op) is Simple ==> r.0@.len() == 1 && r.0@[0]@ == head + label
                &&& layout_of(op) is Byte ==> r.0@.len() == 1 && r.0@[0]@ == head + pad_right(label, 16) + seq![' ']
                    + pad_left(decimal(self.ops@[idx + 1] as nat), 4, ' ')
                &&& (layout_of(op) is Constant || layout_of(op) is Invoke) && self.constant_shown(*gc, self.ops@[idx + 1])
                    is Some ==> r.0@.len() == 1 && r.0@[0]@ == head + pad_right(label, 16) + seq![' '] + pad_left(
                    decimal(self.ops@[idx + 1] as nat),
                    4,
                    ' ',
                ) + " '"@ + self.constant_shown(*gc, self.ops@[idx + 1])->Some_0 + "'"@
                &&& layout_of(op) is Closure && self.constant_shown(*gc, self.ops@[idx + 1]) is Some ==> r.0@[0]@ == head
                    + pad_right(label, 16) + seq![' '] + pad_left(decimal(self.ops@[idx + 1] as nat), 4, ' ') + " '"@
                    + self.constant_shown(*gc, self.ops@[idx + 1])->Some_0 + "'"@
                &&& layout_of(op) matches Layout::Jump(forward) ==> r.0@.len() == 1 && r.0@[0]@ == head + pad_right(
                    label,
                    16,
                ) + seq![' '] + pad_left(decimal(idx as nat), 4, ' ') + " -> "@ + jump_target(
                    idx as nat,
                    (self.ops@[idx + 2] * 256 + self.ops@[idx + 1]) as nat,
                    forward,
                )
            }),
    {
        let n = self.ops.len();
        let opcode = self.ops[idx];
        let mut line = pad_left_exec(to_decimal(idx as u64).as_str(), 4, '0');
        proof {
            lemma_decimal_len(idx as nat);
        }
        proof {
            reveal_strlit(" ");
            reveal_strlit("OP_UNKNOWN(");
            reveal_strlit(")");
            reveal_strlit(" -> ");
            reveal_strlit("?");
            reveal_strlit("-");
        }
        let ghost head = line@ + seq![' '];
        line.append(" ");
        let name = match op_name(opcode) {
            Some(n) => String::from_str(n),
            None => {
                let mut n = String::from_str("OP_UNKNOWN(");
                n.append(hex(opcode).as_str());
                n.append(")");
                n
            },
        };
        assert(name@ == op_label(opcode));
        let mut lines: Vec<String> = Vec::new();
        match layout(opcode) {
            Layout::Simple => {
                line.append(name.as_str());
                lines.push(line);
                (lines, idx + 1)
            },
            Layout::Byte => {
                line.append(pad_right_exec(name.as_str(), 16).as_str());
                line.append(" ");
                line.append(pad_left_exec(to_decimal(self.ops[idx + 1] as u64).as_str(), 4, ' ').as_str());
                lines.push(line);
                (lines, idx + 2)
            },
            Layout::Constant | Layout::Invoke => {
                let c = self.ops[idx + 1];
                let line = self.constant_line(line, name.as_str(), c, gc, host);
                lines.push(line);
                match layout(opcode) {
                    Layout::Invoke => (lines, idx + 3),
                    _ => (lines, idx + 2),
                }
            },
            Layout::Jump(forward) => {
                let offset = (self.ops[idx + 2] as usize) * 256 + self.ops[idx + 1] as usize;
                line.append(pad_right_exec(name.as_str(), 16).as_str());
                line.append(" ");
                line.append(pad_left_exec(to_decimal(idx as u64).as_str(), 4, ' ').as_str());
                line.append(" -> ");
                let ghost before_target = line@;
                if forward {
                    match (idx as u64).checked_add(offset as u64 + 3) {
                        Some(to) => line.append(to_decimal(to).as_str()),
                        None => line.append("?"),
                    }
                } else if offset <= idx + 3 {
                    line.append(to_decimal((idx + 3 - offset) as u64).as_str());
                } else {
                    line.append("-");
                    line.append(to_decimal((offset - idx - 3) as u64).as_str());
                }
                proof {
                    assert(line@ =~= before_target + jump_target(idx as nat, offset as nat, forward));
                }
                lines.push(line);
                (lines, idx + 3)
            },
            Layout::Closure => {
                let c = self.ops[idx + 1];
                let line = self.constant_line(line, name.as_str(), c, gc, host);
                lines.push(line);
                let ghost first = lines@[0]@;
                let count = self.upvalue_count_of(c, gc);
                let mut k: usize = 0;
                let mut at = idx + 1;
                while k < count && n - at > 2
                    invariant
                        idx + 1 <= at < n,
                        n == self.ops@.len(),
                        lines@.len() >= 1,
                        lines@[0]@.take(4) == pad_left(decimal(idx as nat), 4, '0').take(4),
                        lines@[0]@ == first,
                        k <= count,
                        at == idx + 1 + 2 * k,
                        count == upvalue_count_spec(constant_pool(self.constants), c as int, *gc),
                        idx + 2 + 2 * count <= n ==> (k < count ==> n - at > 2),
                    decreases count - k,
                {
                    let offset = at;
                    let is_local = self.ops[at + 1];
                    let upvalue_idx = self.ops[at + 2];
                    let mut l = pad_left_exec(to_decimal(offset as u64).as_str(), 4, '0');
                    l.append(" |                     ");
                    l.append(if is_local == 0 { "upvalue" } else { "local" });
                    l.append(" ");
                    l.append(to_decimal(upvalue_idx as u64).as_str());
                    lines.push(l);
                    at = at + 2;
                    k = k + 1;
                }
                (lines, at + 1)
            },
        }
    }

    /// Constant `c` as disassembly shows it: `?` where there is no such
    /// constant or it cannot be shown; `None` for a number, whose text the
    /// host gives.
    pub open spec fn constant_shown(&self, gc: Gc, c: u8) -> Option<Seq<char>> {
        let pool = constant_pool(self.constants);
        if (c as int) < pool.len() {
            if pool[c as int].is_number_spec() {
                None
            } else {
                match display_spec(gc, pool[c as int]) {
                    Some(t) => Some(t),
                    None => Some(seq!['?']),
                }
            }
        } else {
            Some(seq!['?'])
        }
    }

    /// `line`, then the name padded, the constant's index and the constant.
    fn constant_line<H: Host>(&self, line: String, name: &str, c: u8, gc: &Gc, host: &H) -> (r: String)
        ensures
            self.constant_shown(*gc, c) is Some ==> r@ == line@ + pad_right(name@, 16) + seq![' '] + pad_left(
                decimal(c as nat),
                4,
                ' ',
            ) + " '"@ + self.constant_shown(*gc, c)->Some_0 + "'"@,
            r@.len() >= line@.len(),
            r@.take(line@.len() as int) == line@,
    {
        proof {
            reveal_strlit(" ");
        }
        let ghost start = line@;
        let mut line = line;
        line.append(pad_right_exec(name, 16).as_str());
        line.append(" ");
        line.append(pad_left_exec(to_decimal(c as u64).as_str(), 4, ' ').as_str());
        line.append(" '");
        line.append(self.constant_text(c, gc, host).as_str());
        line.append("'");
        proof {
            assert(line@.take(start.len() as int) =~= start);
        }
        line
    }

    /// A constant as disassembly shows it.
    fn constant_text<H: Host>(&self, c: u8, gc: &Gc, host: &H) -> (r: String)
        ensures
            self.constant_shown(*gc, c) matches Some(t) ==> r@ == t,
    {
        proof {
            reveal_strlit("?");
        }
        let pool = constant_pool_slice(&self.constants);
        if (c as usize) < pool.len() {
            match display_value(gc, pool[c as usize], host) {
                Some(s) => s,
                None => String::from_str("?"),
            }
        } else {
            String::from_str("?")
        }
    }

    /// The number of upvalues of the function that constant `c` holds.
    fn upvalue_count_of(&self, c: u8, gc: &Gc) -> (r: usize)
        ensures
            r == upvalue_count_spec(constant_pool(self.constants), c as int, *gc),
    {
        let pool = constant_pool_slice(&self.constants);
        if (c as usize) < pool.len() {
            let v = pool[c as usize];
            let slot = slot_of(v);
            match slot {
                Some(f) => {
                    let d = object_in(gc, f);
                    match d {
                        Some(ObjectData::Function(func)) => func.upvalue_count as usize,
                        _ => 0,
                    }
                },
                None => 0,
            }
        } else {
            0
        }
    }

    /// The disassembly of the whole chunk, under a header with its name.
    pub fn debug<H: Host>(&self, name: &str, gc: &Gc, host: &H) -> (r: Vec<String>)
        ensures
            r@.len() >= 1,
            r@[0]@ == "== "@ + name@ + " =="@,
    {
        let mut out: Vec<String> = Vec::new();
        let mut header = String::from_str("== ");
        header.append(name);
        header.append(" ==");
        out.push(header);
        let mut idx: usize = 0;
        while idx < self.ops.len()
            invariant
                out@.len() >= 1,
                out@[0]@ == "== "@ + name@ + " =="@,
            decreases self.ops@.len() - idx,
        {
            let opcode = self.ops[idx];
            let w: usize = match layout(opcode) {
                Layout::Simple => 1,
                Layout::Byte | Layout::Constant | Layout::Closure => 2,
                Layout::Jump(_) | Layout::Invoke => 3,
            };
            if self.ops.len() - idx < w {
                break;
            }
            let (lines, next) = self.debug_op(idx, gc, host);
            let mut j: usize = 0;
            while j < lines.len()
                invariant
                    out@.len() >= 1,
                    out@[0]@ == "== "@ + name@ + " =="@,
                decreases lines@.len() - j,
            {
                out.push(lines[j].clone());
                j = j + 1;
            }
            idx = next;
        }
        out
    }
}

/// The decimal digits of a number are at least one.
pub proof fn lemma_decimal_len(n: nat)
    ensures
        decimal(n).len() >= 1,
    decreases n,
{
    if n >= 10 {
        lemma_decimal_len(n / 10);
    }
}

} // verus!
