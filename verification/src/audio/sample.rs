//! Samples as the bit patterns of IEEE 754 single-precision numbers: what the library needs
//! of their order and sign, exactly, without computing with them.

use vstd::prelude::*;

verus! {

/// The pattern of +0.0, silence.
pub const SILENCE: u32 = 0;

/// The pattern of +infinity, the last one that is not a NaN with the sign clear.
pub const INFINITY_BITS: u32 = 0x7f80_0000;

/// The pattern of -0.0: the sign bit alone.
pub const SIGN_BIT: u32 = 0x8000_0000;

/// Distance of the pattern from zero, without its sign.
pub open spec fn magnitude(bits: u32) -> int {
    if bits >= SIGN_BIT {
        bits - SIGN_BIT
    } else {
        bits as int
    }
}

/// The pattern is not a number.
pub open spec fn is_nan(bits: u32) -> bool {
    magnitude(bits) > INFINITY_BITS
}

/// A number that orders as the pattern's value does; both zeros stand at 0.
pub open spec fn order_key(bits: u32) -> int {
    if bits >= SIGN_BIT {
        -magnitude(bits)
    } else {
        magnitude(bits)
    }
}

/// `a < b` as floating point has it: false wherever a NaN takes part.
pub open spec fn less_than(a: u32, b: u32) -> bool {
    !is_nan(a) && !is_nan(b) && order_key(a) < order_key(b)
}

/// `a >= 0.0` as floating point has it.
pub open spec fn at_least_zero(a: u32) -> bool {
    !is_nan(a) && order_key(a) >= 0
}

/// `a < 0.0` as floating point has it.
pub open spec fn below_zero(a: u32) -> bool {
    less_than(a, SILENCE)
}

pub fn sample_magnitude(bits: u32) -> (m: u32)
    ensures
        m == magnitude(bits),
{
    if bits >= SIGN_BIT {
        bits - SIGN_BIT
    } else {
        bits
    }
}

pub fn sample_less_than(a: u32, b: u32) -> (less: bool)
    ensures
        less == less_than(a, b),
{
    let ma: u32 = sample_magnitude(a);
    let mb: u32 = sample_magnitude(b);
    if ma > INFINITY_BITS || mb > INFINITY_BITS {
        false
    } else if a >= SIGN_BIT {
        if b >= SIGN_BIT {
            ma > mb
        } else {
            ma > 0 || mb > 0
        }
    } else if b >= SIGN_BIT {
        false
    } else {
        ma < mb
    }
}

pub fn sample_at_least_zero(a: u32) -> (r: bool)
    ensures
        r == at_least_zero(a),
{
    a <= INFINITY_BITS || a == SIGN_BIT
}

/// The order on patterns is a strict order: nothing is below itself, and it is transitive.
pub proof fn law_less_than_is_a_strict_order(a: u32, b: u32, c: u32)
    ensures
        !less_than(a, a),
        less_than(a, b) && less_than(b, c) ==> less_than(a, c),
        less_than(a, b) ==> !less_than(b, a),
{
}

/// Numbers without a sign order as their patterns do, numbers with one the other way round,
/// every negative number is below every one that is not, both zeros are equal, and what is not
/// a number is neither below nor above anything.
pub proof fn law_patterns_order_as_their_values(a: u32, b: u32)
    ensures
        a <= 0x7f80_0000 && b <= 0x7f80_0000 ==> (less_than(a, b) <==> a < b),
        0x8000_0000 <= a <= 0xff80_0000 && 0x8000_0000 <= b <= 0xff80_0000 ==> (less_than(a, b)
            <==> b < a),
        0x8000_0000 < a <= 0xff80_0000 && b <= 0x7f80_0000 ==> less_than(a, b) && !less_than(b, a),
        !less_than(0, 0x8000_0000) && !less_than(0x8000_0000, 0),
        0x7f80_0000 < a < 0x8000_0000 || 0xff80_0000 < a ==> !less_than(a, b) && !less_than(b, a),
        at_least_zero(a) <==> a <= 0x7f80_0000 || a == 0x8000_0000,
        below_zero(a) <==> 0x8000_0000 < a <= 0xff80_0000,
        magnitude(a) == a % 0x8000_0000,
{
}

} // verus!
