//! Deterministic pseudo-random numbers: the SplitMix64 finaliser applied to
//! a seed.
use vstd::prelude::*;

verus! {

/// Arithmetic modulo 2⁶⁴.
pub open spec fn wrap64(x: nat) -> u64 {
    (x % 0x1_0000_0000_0000_0000nat) as u64
}

/// The SplitMix64 value of a seed: the seed plus the golden-ratio
/// increment, then three rounds that xor in a right shift, the first two
/// followed by a multiplication, all modulo 2⁶⁴.
pub open spec fn split_mix(seed: u64) -> u64 {
    let x0 = wrap64(seed as nat + 0x9e3779b97f4a7c15nat);
    let x1 = x0 ^ (x0 >> 30u64);
    let x2 = wrap64(x1 as nat * 0xbf58476d1ce4e5b9nat);
    let x3 = x2 ^ (x2 >> 27u64);
    let x4 = wrap64(x3 as nat * 0x94d049bb133111ebnat);
    x4 ^ (x4 >> 31u64)
}

/// A pseudo-random number determined by `seed`.
pub fn simple_random(seed: usize) -> (r: u64)
    ensures
        r == split_mix(seed as u64),
{
    let s: u64 = seed as u64;
    let mut x: u64 = s.wrapping_add(0x9e3779b97f4a7c15);
    assert(x == wrap64(s as nat + 0x9e3779b97f4a7c15nat));
    x ^= x >> 30;
    x = x.wrapping_mul(0xbf58476d1ce4e5b9);
    x ^= x >> 27;
    x = x.wrapping_mul(0x94d049bb133111eb);
    x ^= x >> 31;
    x
}

} // verus!
