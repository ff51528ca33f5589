use vstd::prelude::*;

use crate::bvh::BoxKey;

verus! {

/// Bit pattern of an IEEE-754 single-precision number that is not a number:
/// exponent all ones and a non-zero fraction.
pub open spec fn is_nan_bits(bits: u32) -> bool {
    bits % 0x8000_0000 > 0x7f80_0000
}

/// The bit pattern read as a sign and a magnitude. For two numbers that are not
/// NaN, the order of these integers is the order of the numbers, and both zeros
/// give 0.
pub open spec fn sign_magnitude(bits: u32) -> int {
    if bits >= 0x8000_0000 {
        -((bits % 0x8000_0000) as int)
    } else {
        bits as int
    }
}

/// An unsigned key that orders single-precision numbers as they compare, given
/// their bit patterns; `None` for NaN, which has no place in that order.
pub fn order_key(bits: u32) -> (r: Option<u32>)
    ensures
        r is None <==> is_nan_bits(bits),
        r is Some ==> r->Some_0 == sign_magnitude(bits) + 0x8000_0000,
{
    let mag: u32 = bits % 0x8000_0000;
    if mag > 0x7f80_0000 {
        None
    } else if bits >= 0x8000_0000 {
        Some(0x8000_0000 - mag)
    } else {
        Some(0x8000_0000 + mag)
    }
}

/// Keys compare as the numbers they come from.
pub proof fn lemma_order_key_monotone(a: u32, b: u32, ka: u32, kb: u32)
    requires
        !is_nan_bits(a),
        !is_nan_bits(b),
        ka == sign_magnitude(a) + 0x8000_0000,
        kb == sign_magnitude(b) + 0x8000_0000,
    ensures
        ka <= kb <==> sign_magnitude(a) <= sign_magnitude(b),
        ka == kb <==> sign_magnitude(a) == sign_magnitude(b),
{
}

impl BoxKey {
    /// The key of a box corner given the bit patterns of its coordinates;
    /// `None` if one of them is NaN.
    pub fn from_bits(x: u32, y: u32, z: u32) -> (r: Option<BoxKey>)
        ensures
            r is None <==> (is_nan_bits(x) || is_nan_bits(y) || is_nan_bits(z)),
            r is Some ==> r->Some_0.x == sign_magnitude(x) + 0x8000_0000 && r->Some_0.y
                == sign_magnitude(y) + 0x8000_0000 && r->Some_0.z == sign_magnitude(z)
                + 0x8000_0000,
    {
        match (order_key(x), order_key(y), order_key(z)) {
            (Some(kx), Some(ky), Some(kz)) => Some(BoxKey { x: kx, y: ky, z: kz }),
            _ => None,
        }
    }
}

} // verus!
