//! Integer lattice hashing behind the terrain's value noise: every
//! lattice point's value derives from the seed and its coordinates alone.

use vstd::prelude::*;
use vstd::wrapping::u64_specs;

use crate::seed::{spec_splitmix64, splitmix64};

verus! {

/// The hash of lattice point `(x, y)` under `seed`.
pub open spec fn spec_hash2(seed: u64, x: i64, y: i64) -> u64 {
    let h = spec_splitmix64(seed ^ u64_specs::wrapping_mul(x as u64, 0x9E37_79B9_7F4A_7C15u64));
    spec_splitmix64(h ^ u64_specs::wrapping_mul(y as u64, 0xC2B2_AE3D_27D4_EB4Fu64))
}

/// Hash of lattice point `(x, y)`: coordinates are scattered by distinct
/// odd multipliers and folded through SplitMix64 one at a time.
pub fn hash2(seed: u64, x: i64, y: i64) -> (r: u64)
    ensures
        r == spec_hash2(seed, x, y),
{
    let mut h = splitmix64(seed ^ (x as u64).wrapping_mul(0x9E37_79B9_7F4A_7C15));
    h = splitmix64(h ^ (y as u64).wrapping_mul(0xC2B2_AE3D_27D4_EB4F));
    h
}

} // verus!
