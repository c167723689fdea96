//! Single-precision scores as bit patterns.
//!
//! A score reaches this crate as the IEEE-754 binary32 encoding of a
//! similarity: one sign bit, eight exponent bits, twenty-three fraction bits.
//! The module gives every such pattern a meaning (`scaled_value`), says which
//! patterns carry no value (`is_undefined`), and maps the others to an integer
//! key that orders them exactly as their values do.

use vstd::prelude::*;
use vstd::arithmetic::power2::{pow2, lemma_pow2_pos, lemma_pow2_unfold, lemma_pow2_strictly_increases};

verus! {

/// The pattern whose only set bit is the sign bit.
pub const SIGN_BIT: u32 = 0x8000_0000;

/// The pattern of positive infinity: every exponent bit set, no fraction bit.
pub const INFINITY_BITS: u32 = 0x7f80_0000;

/// Two to the number of fraction bits.
pub const FRACTION_SPAN: u32 = 0x0080_0000;

/// The sign bit of the pattern is set.
pub open spec fn is_negative(bits: u32) -> bool {
    bits >= SIGN_BIT
}

/// The pattern without its sign bit.
pub open spec fn magnitude_bits(bits: u32) -> u32 {
    if bits >= SIGN_BIT {
        (bits - SIGN_BIT) as u32
    } else {
        bits
    }
}

/// The exponent field, `0..=255`.
pub open spec fn exponent_field(bits: u32) -> nat {
    (magnitude_bits(bits) / FRACTION_SPAN) as nat
}

/// The fraction field, `0..2^23`.
pub open spec fn fraction_field(bits: u32) -> nat {
    (magnitude_bits(bits) % FRACTION_SPAN) as nat
}

/// The pattern is not a number: the exponent field is all ones and the
/// fraction field is not zero. A similarity of a vector of zero magnitude
/// arrives as such a pattern.
pub open spec fn is_undefined(bits: u32) -> bool {
    magnitude_bits(bits) > INFINITY_BITS
}

/// The absolute value that the pattern encodes, multiplied by `2^149` so that
/// it is an integer: the fraction alone for a subnormal, the fraction with its
/// implicit leading one, shifted by the exponent, for a normal number.
/// Infinity is read by the same rule and so lies above every finite value.
pub open spec fn scaled_magnitude(bits: u32) -> int {
    let e = exponent_field(bits);
    let f = fraction_field(bits);
    if e == 0 {
        f as int
    } else {
        (FRACTION_SPAN + f) * pow2((e - 1) as nat)
    }
}

/// The value that the pattern encodes, multiplied by `2^149`. Both zeros have
/// the value `0`.
pub open spec fn scaled_value(bits: u32) -> int {
    if is_negative(bits) {
        -scaled_magnitude(bits)
    } else {
        scaled_magnitude(bits)
    }
}

/// The integer by which a defined score is ordered: the magnitude bits, negated
/// where the sign bit is set.
pub open spec fn key_of(bits: u32) -> i32 {
    if is_negative(bits) {
        (-(magnitude_bits(bits) as int)) as i32
    } else {
        magnitude_bits(bits) as i32
    }
}

/// The keys of a sequence of scores, position by position.
pub open spec fn keys_of(scores: Seq<u32>) -> Seq<i32> {
    Seq::new(scores.len(), |i: int| key_of(scores[i]))
}

/// No score of the sequence is undefined.
pub open spec fn all_defined(scores: Seq<u32>) -> bool {
    forall|i: int| 0 <= i < scores.len() ==> !is_undefined(#[trigger] scores[i])
}

/// The ordering key of a score, or `None` for a pattern that is not a number.
pub fn score_key(bits: u32) -> (key: Option<i32>)
    ensures
        key == (if is_undefined(bits) { None } else { Some(key_of(bits)) }),
{
    let magnitude: u32 = if bits >= SIGN_BIT { bits - SIGN_BIT } else { bits };
    if magnitude > INFINITY_BITS {
        None
    } else if bits >= SIGN_BIT {
        Some(-(magnitude as i32))
    } else {
        Some(magnitude as i32)
    }
}

/// A larger magnitude pattern encodes a larger absolute value.
proof fn lemma_scaled_magnitude_increases(a: u32, b: u32)
    requires
        magnitude_bits(a) < magnitude_bits(b),
    ensures
        scaled_magnitude(a) < scaled_magnitude(b),
{
    let ea = exponent_field(a);
    let fa = fraction_field(a);
    let eb = exponent_field(b);
    let fb = fraction_field(b);
    let span = FRACTION_SPAN as int;
    if ea == eb {
        if ea != 0 {
            let p = pow2((ea - 1) as nat);
            lemma_pow2_pos((ea - 1) as nat);
            assert((span + fa) * p < (span + fb) * p) by (nonlinear_arith)
                requires
                    p > 0,
                    fa < fb,
            ;
        }
    } else {
        let pb = pow2((eb - 1) as nat);
        lemma_pow2_pos((eb - 1) as nat);
        if ea == 0 {
            assert((span + fb) * pb >= span) by (nonlinear_arith)
                requires
                    pb >= 1,
                    fb >= 0,
                    span >= 0,
            ;
        } else {
            let pa = pow2((ea - 1) as nat);
            lemma_pow2_pos((ea - 1) as nat);
            lemma_pow2_unfold(ea);
            if ea < eb - 1 {
                lemma_pow2_strictly_increases(ea, (eb - 1) as nat);
            }
            assert((span + fa) * pa < (span + fb) * pb) by (nonlinear_arith)
                requires
                    pa > 0,
                    2 * pa <= pb,
                    0 <= fa < span,
                    fb >= 0,
            ;
        }
    }
}

/// Magnitude patterns and the absolute values they encode are ordered alike.
proof fn lemma_scaled_magnitude_order(a: u32, b: u32)
    ensures
        (magnitude_bits(a) < magnitude_bits(b)) == (scaled_magnitude(a) < scaled_magnitude(b)),
        (magnitude_bits(a) == magnitude_bits(b)) == (scaled_magnitude(a) == scaled_magnitude(b)),
{
    if magnitude_bits(a) < magnitude_bits(b) {
        lemma_scaled_magnitude_increases(a, b);
    } else if magnitude_bits(b) < magnitude_bits(a) {
        lemma_scaled_magnitude_increases(b, a);
    }
}

/// Keys order defined scores exactly as their values do: one score has the
/// smaller key if and only if it has the smaller value, and two scores share a
/// key if and only if they share a value (so the two zeros share a key).
pub proof fn lemma_key_orders_as_value(a: u32, b: u32)
    requires
        !is_undefined(a),
        !is_undefined(b),
    ensures
        (key_of(a) < key_of(b)) == (scaled_value(a) < scaled_value(b)),
        (key_of(a) == key_of(b)) == (scaled_value(a) == scaled_value(b)),
{
    lemma_scaled_magnitude_order(a, b);
    lemma_scaled_magnitude_order(a, 0u32);
    lemma_scaled_magnitude_order(b, 0u32);
}

} // verus!
