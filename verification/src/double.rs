//! Comparison and negation of IEEE-754 doubles, held as their bits.
//!
//! A double is a sign bit and a magnitude: an 11-bit exponent field above a
//! 52-bit fraction. The magnitudes that are not NaN order the numbers they
//! denote, so the comparisons need no arithmetic on doubles at all.
use vstd::prelude::*;
use vstd::arithmetic::power2::{lemma_pow2_pos, lemma_pow2_strictly_increases, lemma_pow2_unfold, pow2};

verus! {

/// The sign bit.
pub const SIGN: u64 = 0x8000000000000000;
/// The magnitude of the infinities; larger magnitudes are NaNs.
pub const INFINITY_MAGNITUDE: u64 = 0x7ff0000000000000;
/// 2^52: one unit of the exponent field.
pub const FRACTION_UNIT: u64 = 0x10000000000000;

/// The sign bit is set.
pub open spec fn negative(b: u64) -> bool {
    b >= SIGN
}

/// The bits below the sign bit.
pub open spec fn magnitude(b: u64) -> int {
    if negative(b) {
        b - SIGN
    } else {
        b as int
    }
}

/// The double is a NaN: its exponent field is all ones and its fraction is
/// not zero.
pub open spec fn is_nan(b: u64) -> bool {
    magnitude(b) > INFINITY_MAGNITUDE
}

/// The double is a finite number: neither an infinity nor a NaN.
pub open spec fn finite(b: u64) -> bool {
    magnitude(b) < INFINITY_MAGNITUDE
}

/// The number a finite magnitude denotes, in units of 2^-1074, the
/// smallest subnormal: the fraction alone for exponent field 0, else the
/// fraction with its leading one, shifted by the exponent field less one.
pub open spec fn magnitude_value(m: int) -> int {
    let e = m / 0x10000000000000int;
    let f = m % 0x10000000000000int;
    if e == 0 {
        f
    } else {
        (f + 0x10000000000000int) * pow2((e - 1) as nat)
    }
}

/// The number a finite double denotes, in units of 2^-1074.
pub open spec fn number_value(b: u64) -> int {
    if negative(b) {
        -magnitude_value(magnitude(b))
    } else {
        magnitude_value(magnitude(b))
    }
}

/// Where the double stands in the order of doubles: its magnitude, negated
/// when the sign bit is set (so both zeros stand at 0).
pub open spec fn order_key(b: u64) -> int {
    if negative(b) {
        -magnitude(b)
    } else {
        magnitude(b)
    }
}

/// `a < b`: false when either is a NaN.
pub open spec fn double_less(a: u64, b: u64) -> bool {
    !is_nan(a) && !is_nan(b) && order_key(a) < order_key(b)
}

/// `a <= b`: false when either is a NaN.
pub open spec fn double_less_equal(a: u64, b: u64) -> bool {
    !is_nan(a) && !is_nan(b) && order_key(a) <= order_key(b)
}

/// `a == b`: false when either is a NaN; the two zeros are equal.
pub open spec fn double_equal(a: u64, b: u64) -> bool {
    !is_nan(a) && !is_nan(b) && order_key(a) == order_key(b)
}

/// `-b`: the same magnitude with the other sign.
pub open spec fn negated(b: u64) -> u64 {
    if negative(b) {
        (b - SIGN) as u64
    } else {
        (b + SIGN) as u64
    }
}

fn key(b: u64) -> (k: i128)
    ensures
        k == order_key(b),
{
    if b >= SIGN {
        -((b - SIGN) as i128)
    } else {
        b as i128
    }
}

fn nan(b: u64) -> (r: bool)
    ensures
        r == is_nan(b),
{
    let m = if b >= SIGN {
        b - SIGN
    } else {
        b
    };
    m > INFINITY_MAGNITUDE
}

/// `a < b` on doubles.
pub fn less(a: u64, b: u64) -> (r: bool)
    ensures
        r == double_less(a, b),
{
    !nan(a) && !nan(b) && key(a) < key(b)
}

/// `a <= b` on doubles.
pub fn less_equal(a: u64, b: u64) -> (r: bool)
    ensures
        r == double_less_equal(a, b),
{
    !nan(a) && !nan(b) && key(a) <= key(b)
}

/// `a > b` on doubles.
pub fn greater(a: u64, b: u64) -> (r: bool)
    ensures
        r == double_less(b, a),
{
    less(b, a)
}

/// `a >= b` on doubles.
pub fn greater_equal(a: u64, b: u64) -> (r: bool)
    ensures
        r == double_less_equal(b, a),
{
    less_equal(b, a)
}

/// `a == b` on doubles.
pub fn equal(a: u64, b: u64) -> (r: bool)
    ensures
        r == double_equal(a, b),
{
    !nan(a) && !nan(b) && key(a) == key(b)
}

/// `-b` on doubles.
pub fn negate(b: u64) -> (r: u64)
    ensures
        r == negated(b),
{
    if b >= SIGN {
        b - SIGN
    } else {
        b + SIGN
    }
}

/// Larger finite magnitudes denote larger numbers.
pub proof fn lemma_magnitude_value_increases(m1: int, m2: int)
    requires
        0 <= m1 < m2 < INFINITY_MAGNITUDE,
    ensures
        0 <= magnitude_value(m1) < magnitude_value(m2),
{
    let t = 0x10000000000000int;
    let e1 = m1 / t;
    let f1 = m1 % t;
    let e2 = m2 / t;
    let f2 = m2 % t;
    assert(0 <= f1 < t && 0 <= f2 < t && e1 <= e2 && m1 == e1 * t + f1 && m2 == e2 * t + f2) by (nonlinear_arith)
        requires
            t == 0x10000000000000int,
            0 <= m1 < m2,
            e1 == m1 / t,
            f1 == m1 % t,
            e2 == m2 / t,
            f2 == m2 % t,
    ;
    if e2 > 0 {
        lemma_pow2_pos((e2 - 1) as nat);
    }
    if e1 > 0 {
        lemma_pow2_pos((e1 - 1) as nat);
        let p1 = pow2((e1 - 1) as nat) as int;
        assert((f1 + t) * p1 >= 0) by (nonlinear_arith)
            requires
                f1 >= 0,
                p1 > 0,
                t > 0,
        ;
    }
    if e1 == e2 {
        assert(f1 < f2);
        if e1 > 0 {
            let p = pow2((e1 - 1) as nat) as int;
            assert((f1 + t) * p < (f2 + t) * p) by (nonlinear_arith)
                requires
                    f1 < f2,
                    p > 0,
            ;
        }
    } else {
        let p2 = pow2((e2 - 1) as nat) as int;
        assert(t <= (f2 + t) * p2) by (nonlinear_arith)
            requires
                f2 >= 0,
                p2 >= 1,
                t > 0,
        ;
        if e1 > 0 {
            let p1 = pow2((e1 - 1) as nat) as int;
            lemma_pow2_unfold(e1 as nat);
            let q1 = pow2(e1 as nat) as int;
            assert(q1 <= p2) by {
                if e1 < e2 - 1 {
                    lemma_pow2_strictly_increases(e1 as nat, (e2 - 1) as nat);
                } else {
                    assert(e1 as nat == (e2 - 1) as nat);
                }
            }
            assert((f1 + t) * p1 < t * q1) by (nonlinear_arith)
                requires
                    f1 < t,
                    p1 > 0,
                    q1 == 2 * p1,
            ;
            assert(t * q1 <= (f2 + t) * p2) by (nonlinear_arith)
                requires
                    0 < q1 <= p2,
                    f2 >= 0,
                    t > 0,
            ;
        }
    }
}

/// Zero magnitudes denote zero, the others a positive number.
proof fn lemma_magnitude_value_sign(m: int)
    requires
        0 <= m < INFINITY_MAGNITUDE,
    ensures
        m == 0 ==> magnitude_value(m) == 0,
        m > 0 ==> magnitude_value(m) > 0,
{
    if m > 0 {
        lemma_magnitude_value_increases(0, m);
    }
}

/// On finite doubles `<`, `<=` and `==` compare the numbers they denote.
pub proof fn lemma_comparisons_are_numeric(a: u64, b: u64)
    requires
        finite(a),
        finite(b),
    ensures
        double_less(a, b) <==> number_value(a) < number_value(b),
        double_less_equal(a, b) <==> number_value(a) <= number_value(b),
        double_equal(a, b) <==> number_value(a) == number_value(b),
{
    let ma = magnitude(a);
    let mb = magnitude(b);
    lemma_magnitude_value_sign(ma);
    lemma_magnitude_value_sign(mb);
    if ma < mb {
        lemma_magnitude_value_increases(ma, mb);
    } else if mb < ma {
        lemma_magnitude_value_increases(mb, ma);
    }
}

/// Negating a finite double negates the number it denotes; a NaN stays a
/// NaN.
pub proof fn lemma_negation_is_numeric(b: u64)
    ensures
        finite(b) ==> finite(negated(b)) && number_value(negated(b)) == -number_value(b),
        is_nan(b) ==> is_nan(negated(b)),
        negated(negated(b)) == b,
{
}

/// The comparisons are those of a total order on the doubles that are not
/// NaN: `<` is irreflexive and transitive, and any two are related one way
/// or equal.
pub proof fn lemma_order(a: u64, b: u64, c: u64)
    ensures
        !double_less(a, a),
        double_less(a, b) && double_less(b, c) ==> double_less(a, c),
        !is_nan(a) && !is_nan(b) ==> (double_less(a, b) || double_equal(a, b) || double_less(b, a)),
        double_less_equal(a, b) <==> (double_less(a, b) || double_equal(a, b)),
{
}

} // verus!
