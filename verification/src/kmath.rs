//! Small numeric helpers: an integer mixing hash.
use vstd::prelude::*;
use vstd::wrapping::u32_specs;

verus! {

/// Three rounds of xor-shift mixing and wrapping multiplication.
pub open spec fn khash_spec(state: u32) -> u32 {
    let a = u32_specs::wrapping_mul(state ^ 2747636419u32, 2654435769u32);
    let b = u32_specs::wrapping_mul(a ^ (a >> 16u32), 2654435769u32);
    u32_specs::wrapping_mul(b ^ (b >> 16u32), 2654435769u32)
}

/// A fast integer hash over 32-bit state; arithmetic wraps by design.
pub fn khash(state: u32) -> (r: u32)
    ensures
        r == khash_spec(state),
{
    let a = (state ^ 2747636419).wrapping_mul(2654435769);
    let b = (a ^ (a >> 16)).wrapping_mul(2654435769);
    (b ^ (b >> 16)).wrapping_mul(2654435769)
}

} // verus!
