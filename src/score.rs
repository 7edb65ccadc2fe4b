//! Scores as binary32 bit patterns, and the total order used to rank them.
//!
//! Smaller scores are better. A score is handed over as the bit pattern of an
//! `f32`; NaN patterns rank nowhere and are left out of every selection.
//! Every other pattern is mapped to an order key such that comparing keys as
//! unsigned integers compares the floating-point values (with `-0.0` placed
//! just before `+0.0`).

use vstd::prelude::*;

verus! {

/// The sign bit of a binary32 pattern.
pub const SIGN_BIT: u32 = 0x8000_0000;

/// The pattern of positive infinity: all exponent bits set, no mantissa bits.
pub const INFINITY_BITS: u32 = 0x7F80_0000;

/// The magnitude part (exponent and mantissa) of a binary32 pattern.
pub open spec fn magnitude(bits: u32) -> int {
    bits as int % 0x8000_0000
}

/// Whether the sign bit of a pattern is set.
pub open spec fn is_negative_bits(bits: u32) -> bool {
    bits >= 0x8000_0000
}

/// A NaN: all exponent bits set and a non-zero mantissa.
pub open spec fn is_nan_bits(bits: u32) -> bool {
    magnitude(bits) > 0x7F80_0000
}

/// Sign and magnitude read as one integer. For patterns that are not NaN,
/// IEEE-754 orders the values exactly as these integers (both zeros give 0).
pub open spec fn signed_magnitude(bits: u32) -> int {
    if is_negative_bits(bits) {
        -magnitude(bits)
    } else {
        magnitude(bits)
    }
}

/// The order key of a pattern: negative values are reflected below the
/// positive ones.
pub open spec fn order_key_of(bits: u32) -> u32 {
    if is_negative_bits(bits) {
        (0xFFFF_FFFFu32 - bits) as u32
    } else {
        (bits + 0x8000_0000u32) as u32
    }
}

/// The order key of a score, or `None` for a NaN pattern.
pub fn order_key(bits: u32) -> (r: Option<u32>)
    ensures
        r == (if is_nan_bits(bits) {
            None
        } else {
            Some(order_key_of(bits))
        }),
{
    let magnitude_bits: u32 = bits % SIGN_BIT;
    if magnitude_bits > INFINITY_BITS {
        None
    } else if bits >= SIGN_BIT {
        Some(u32::MAX - bits)
    } else {
        Some(bits + SIGN_BIT)
    }
}

/// The score pattern whose order key is `key`.
pub fn bits_of_key(key: u32) -> (r: u32)
    ensures
        order_key_of(r) == key,
{
    if key >= SIGN_BIT {
        key - SIGN_BIT
    } else {
        u32::MAX - key
    }
}

/// Keys order scores as their values: a strictly smaller value has a strictly
/// smaller key, and a smaller key never belongs to a larger value.
pub proof fn lemma_order_key_monotonic(a: u32, b: u32)
    requires
        !is_nan_bits(a),
        !is_nan_bits(b),
    ensures
        signed_magnitude(a) < signed_magnitude(b) ==> order_key_of(a) < order_key_of(b),
        order_key_of(a) < order_key_of(b) ==> signed_magnitude(a) <= signed_magnitude(b),
{
}

} // verus!
