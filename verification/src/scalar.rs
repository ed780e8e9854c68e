//! Weights and prices.
//!
//! A weight or a price is a real number in IEEE 754 single precision.  The
//! library holds such a number by its 32-bit pattern and orders patterns as
//! the numbers they stand for are ordered: negative before positive, the two
//! zeros equal, and nothing below or above a pattern that is not a number.

use vstd::prelude::*;

verus! {

/// The bit that holds the sign.
pub const SIGN_BIT: u32 = 0x8000_0000;

/// The pattern of positive infinity; a larger magnitude is not a number.
pub const INFINITY_BITS: u32 = 0x7f80_0000;

/// The pattern without its sign.
pub open spec fn magnitude(bits: u32) -> int {
    if bits >= SIGN_BIT {
        bits - SIGN_BIT
    } else {
        bits as int
    }
}

/// Whether the pattern stands for no number (NaN).
pub open spec fn is_nan(bits: u32) -> bool {
    magnitude(bits) > INFINITY_BITS
}

/// The place of a pattern in the order of the numbers: of two patterns that
/// both stand for numbers, the one with the smaller rank stands for the
/// smaller number, and equal ranks stand for equal numbers.
pub open spec fn rank(bits: u32) -> int {
    if bits >= SIGN_BIT {
        -magnitude(bits)
    } else {
        magnitude(bits)
    }
}

/// Whether `a` stands for a number below the number `b` stands for.  A
/// pattern that is not a number is below nothing, and nothing is below it.
pub open spec fn below(a: u32, b: u32) -> bool {
    !is_nan(a) && !is_nan(b) && rank(a) < rank(b)
}

/// The rank of a pattern.
pub fn rank_of(bits: u32) -> (r: i64)
    ensures
        r == rank(bits),
{
    if bits >= SIGN_BIT {
        let m: u32 = bits - SIGN_BIT;
        let wide: i64 = m as i64;
        -wide
    } else {
        bits as i64
    }
}

/// Whether a pattern stands for no number.
pub fn is_not_a_number(bits: u32) -> (b: bool)
    ensures
        b == is_nan(bits),
{
    if bits >= SIGN_BIT {
        bits - SIGN_BIT > INFINITY_BITS
    } else {
        bits > INFINITY_BITS
    }
}

/// Whether `a` stands for a number below the number `b` stands for.
pub fn is_below(a: u32, b: u32) -> (r: bool)
    ensures
        r == below(a, b),
{
    !is_not_a_number(a) && !is_not_a_number(b) && rank_of(a) < rank_of(b)
}

/// The order of the ranks is total: of two patterns one ranks below the
/// other, or they rank equal; and ranks are equal only for equal patterns
/// and for the two zeros.
pub proof fn lemma_rank_order(a: u32, b: u32)
    ensures
        rank(a) < rank(b) || rank(a) == rank(b) || rank(b) < rank(a),
        rank(a) == rank(b) <==> (a == b || (magnitude(a) == 0 && magnitude(b) == 0)),
{
}

} // verus!
