//! Random draws.
//!
//! A miner owns a xoroshiro128++ generator. The engine's rules never read
//! the generator: they take the 64-bit draws it hands out, so each rule is
//! stated for every value a draw can have.

use rand::RngCore;
use rand::SeedableRng;
use rand_xoshiro::Xoroshiro128PlusPlus;
use vstd::prelude::*;

verus! {

/// The generator of `rand_xoshiro`; its state is hidden from contracts.
#[verifier::external_type_specification]
#[verifier::external_body]
pub struct ExXoroshiro128PlusPlus(Xoroshiro128PlusPlus);

/// Calls `Xoroshiro128PlusPlus::from_seed` (the `SeedableRng` trait), which
/// accepts every seed. Nothing is claimed of the generator that comes back.
#[verifier::external_body]
pub(crate) fn generator_from_seed(seed: [u8; 16]) -> (rng: Xoroshiro128PlusPlus) {
    Xoroshiro128PlusPlus::from_seed(seed)
}

/// Calls `Xoroshiro128PlusPlus::next_u64` (the `RngCore` trait), which
/// advances the generator and always returns. Nothing is claimed of the
/// number that comes back.
#[verifier::external_body]
pub(crate) fn next_draw(rng: &mut Xoroshiro128PlusPlus) -> (draw: u64) {
    rng.next_u64()
}

/// The position in `0..n` that a draw stands for: the draw, read as a
/// fraction of 2^64, times `n`, rounded down.
pub open spec fn scaled_index(draw: u64, n: int) -> int {
    (draw * n) / 0x1_0000_0000_0000_0000
}

/// The numerator, over 2^53, of the fraction in [0, 1) that a draw stands
/// for: its upper 53 bits.
pub open spec fn unit_numerator(draw: u64) -> int {
    (draw / 2048) as int
}

/// Maps a draw to a position in `0..n` by multiplying and shifting, so that
/// no position is favoured by a remainder.
pub fn index_from_draw(draw: u64, n: usize) -> (i: usize)
    requires
        n > 0,
    ensures
        i == scaled_index(draw, n as int),
        i < n,
{
    assert(draw * n <= 0xffff_ffff_ffff_ffff * 0xffff_ffff_ffff_ffff) by (nonlinear_arith)
        requires
            0 <= draw <= 0xffff_ffff_ffff_ffff,
            0 <= n <= 0xffff_ffff_ffff_ffff,
    ;
    let wide: u128 = (draw as u128) * (n as u128);
    let top: u128 = wide >> 64;
    assert(top == wide / 0x1_0000_0000_0000_0000) by (bit_vector)
        requires
            top == wide >> 64,
    ;
    assert((draw * n) / 0x1_0000_0000_0000_0000 < n) by (nonlinear_arith)
        requires
            0 <= draw < 0x1_0000_0000_0000_0000,
            0 < n,
    ;
    top as usize
}

/// The upper 53 bits of a draw.
pub fn unit_from_draw(draw: u64) -> (x: u64)
    ensures
        x == unit_numerator(draw),
        x < 0x20_0000_0000_0000,
{
    let x = draw >> 11;
    assert(x == draw / 2048 && x < 0x20_0000_0000_0000) by (bit_vector)
        requires
            x == draw >> 11,
    ;
    x
}

} // verus!
