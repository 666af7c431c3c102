//! The instruction set of the virtual machine: one byte per opcode.
//!
//! Opcodes with operands are followed by them in the chunk: a constant index,
//! a stack slot, an upvalue index or an argument count take one byte, and a
//! jump offset takes two bytes in little-endian order.
use vstd::prelude::*;

verus! {

pub const CONSTANT: u8 = 0;
pub const NIL: u8 = 1;
pub const TRUE: u8 = 2;
pub const FALSE: u8 = 3;
pub const POP: u8 = 4;
pub const GET_LOCAL: u8 = 5;
pub const SET_LOCAL: u8 = 6;
pub const GET_GLOBAL: u8 = 7;
pub const DEFINE_GLOBAL: u8 = 8;
pub const SET_GLOBAL: u8 = 9;
pub const GET_UPVALUE: u8 = 10;
pub const SET_UPVALUE: u8 = 11;
pub const GET_PROPERTY: u8 = 12;
pub const SET_PROPERTY: u8 = 13;
pub const GET_SUPER: u8 = 14;
pub const EQUAL: u8 = 15;
pub const NOT_EQUAL: u8 = 16;
pub const GREATER: u8 = 17;
pub const GREATER_EQUAL: u8 = 18;
pub const LESS: u8 = 19;
pub const LESS_EQUAL: u8 = 20;
pub const ADD: u8 = 21;
pub const SUBTRACT: u8 = 22;
pub const MULTIPLY: u8 = 23;
pub const DIVIDE: u8 = 24;
pub const NOT: u8 = 25;
pub const NEGATE: u8 = 26;
pub const PRINT: u8 = 27;
pub const JUMP: u8 = 28;
pub const JUMP_IF_FALSE: u8 = 29;
pub const LOOP: u8 = 30;
pub const CALL: u8 = 31;
pub const INVOKE: u8 = 32;
pub const SUPER_INVOKE: u8 = 33;
pub const CLOSURE: u8 = 34;
pub const CLOSE_UPVALUE: u8 = 35;
pub const RETURN: u8 = 36;
pub const CLASS: u8 = 37;
pub const INHERIT: u8 = 38;
pub const METHOD: u8 = 39;

} // verus!
