//! What the library leaves to the program that embeds it: the arithmetic of
//! doubles, the clock and the output stream.
//!
//! Numbers travel as the bits of an IEEE-754 double. The library stores and
//! copies those bits, and compares and negates them itself (see `double`);
//! the arithmetic, reading and showing of numbers are the host's.
use vstd::prelude::*;

verus! {

pub trait Host {
    /// The bits of the double that a number literal, as written, denotes.
    fn parse_number(&self, text: &str) -> u64;

    /// `a + b`, `a - b`, `a * b` and `a / b` on doubles.
    fn add(&self, a: u64, b: u64) -> u64;

    fn subtract(&self, a: u64, b: u64) -> u64;

    fn multiply(&self, a: u64, b: u64) -> u64;

    fn divide(&self, a: u64, b: u64) -> u64;

    /// `-a` on a double.
    fn negate(&self, a: u64) -> u64;

    /// `a == b` on doubles.
    fn numbers_equal(&self, a: u64, b: u64) -> bool;

    /// The comparisons `a > b`, `a >= b`, `a < b` and `a <= b` on doubles.
    fn greater(&self, a: u64, b: u64) -> bool;

    fn greater_equal(&self, a: u64, b: u64) -> bool;

    fn less(&self, a: u64, b: u64) -> bool;

    fn less_equal(&self, a: u64, b: u64) -> bool;

    /// A double as `print` shows it.
    fn display_number(&self, a: u64) -> String;

    /// The seconds since the Unix epoch, as a double.
    fn now(&self) -> u64;

    /// Writes one line of program output; false when the write failed.
    fn write_line(&mut self, line: &str) -> bool;
}

} // verus!
