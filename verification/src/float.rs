//! Doubles by their IEEE-754 bit patterns: the comparisons that integer
//! arithmetic on the pattern decides. Arithmetic on doubles is left to the
//! host (see `effect::FloatOp`).

use vstd::prelude::*;

verus! {

/// The pattern without its sign bit.
pub open spec fn magnitude(bits: u64) -> u64 {
    bits & 0x7fff_ffff_ffff_ffff
}

/// Whether the pattern is a NaN: exponent all ones, fraction not zero.
pub open spec fn is_nan(bits: u64) -> bool {
    magnitude(bits) > 0x7ff0_0000_0000_0000
}

/// The place of a non-NaN pattern in the order of the doubles: its magnitude,
/// negated where the sign bit is set, so that both zeros have rank 0.
pub open spec fn rank(bits: u64) -> int {
    if bits & 0x8000_0000_0000_0000 != 0 {
        -(magnitude(bits) as int)
    } else {
        magnitude(bits) as int
    }
}

/// IEEE equality: false where either is a NaN, and true of the two zeros.
pub open spec fn float_eq(a: u64, b: u64) -> bool {
    !is_nan(a) && !is_nan(b) && rank(a) == rank(b)
}

/// IEEE less-than: false where either is a NaN.
pub open spec fn float_lt(a: u64, b: u64) -> bool {
    !is_nan(a) && !is_nan(b) && rank(a) < rank(b)
}

/// Whether `bits` is a NaN.
pub fn float_is_nan(bits: u64) -> (r: bool)
    ensures
        r == is_nan(bits),
{
    (bits & 0x7fff_ffff_ffff_ffff) > 0x7ff0_0000_0000_0000
}

/// The rank of `bits`.
pub fn float_rank(bits: u64) -> (r: i64)
    ensures
        r == rank(bits),
{
    let m: u64 = bits & 0x7fff_ffff_ffff_ffff;
    assert(m <= 0x7fff_ffff_ffff_ffff) by (bit_vector)
        requires
            m == bits & 0x7fff_ffff_ffff_ffff,
    ;
    if bits & 0x8000_0000_0000_0000 != 0 {
        -(m as i64)
    } else {
        m as i64
    }
}

/// Whether the doubles `a` and `b` are equal.
pub fn float_equals(a: u64, b: u64) -> (r: bool)
    ensures
        r == float_eq(a, b),
{
    !float_is_nan(a) && !float_is_nan(b) && float_rank(a) == float_rank(b)
}

/// Whether the double `a` is less than the double `b`.
pub fn float_less(a: u64, b: u64) -> (r: bool)
    ensures
        r == float_lt(a, b),
{
    !float_is_nan(a) && !float_is_nan(b) && float_rank(a) < float_rank(b)
}

} // verus!
