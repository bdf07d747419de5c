//! The xorshift32 generator the games draw from.
use vstd::prelude::*;

verus! {

/// One xorshift32 step.
pub open spec fn xorshift(s: u32) -> u32 {
    let a = s ^ (s << 13u32);
    let b = a ^ (a >> 17u32);
    b ^ (b << 5u32)
}

/// One xorshift32 step.
pub fn xorshift32(s: u32) -> (r: u32)
    ensures
        r == xorshift(s),
{
    let a = s ^ (s << 13u32);
    let b = a ^ (a >> 17u32);
    b ^ (b << 5u32)
}

/// A generator seed from a clock reading: the reading times 2654435761,
/// wrapping.
pub fn seed_from_time(time: u32) -> (s: u32)
    ensures
        s == time.wrapping_mul(2654435761),
{
    time.wrapping_mul(2654435761)
}

} // verus!
