//! The seeded random generator and the draws the optimizer takes from it.

use rand::rngs::StdRng;
use rand::Rng;
use rand::SeedableRng;
use vstd::prelude::*;

verus! {

/// `rand::rngs::StdRng`, the generator of the run. What is inside it is not
/// visible to proofs.
#[verifier::external_type_specification]
#[verifier::external_body]
pub struct ExStdRng(StdRng);

/// One more than the largest unit draw: 2 to the power 24.
pub const UNIT_RANGE: u32 = 0x100_0000;

/// `rand::SeedableRng::seed_from_u64` for `StdRng`: a generator whose state is
/// derived from `seed`. Nothing is claimed of the numbers it will give.
#[verifier::external_body]
pub(crate) fn seeded(seed: u64) -> (rng: StdRng) {
    StdRng::seed_from_u64(seed)
}

/// `Clone::clone` of `StdRng`: a generator in the same state. Nothing is
/// claimed of the numbers it will give.
#[verifier::external_body]
pub(crate) fn forked(rng: &StdRng) -> (copy: StdRng) {
    rng.clone()
}

/// `rand::Rng::random::<u32>` on `StdRng`: the next 32 random bits. Any value
/// may come back.
#[verifier::external_body]
pub(crate) fn next_word(rng: &mut StdRng) -> (word: u32) {
    rng.random::<u32>()
}

/// The unit draw that a random word stands for: its upper 24 bits.
pub open spec fn unit_part(word: u32) -> u32 {
    (word / 256) as u32
}

/// The unit draw that a random word stands for.
pub fn unit_of(word: u32) -> (unit: u32)
    ensures
        unit == unit_part(word),
        unit < UNIT_RANGE,
{
    let unit: u32 = word >> 8;
    assert(word >> 8 == word / 256 && word >> 8 < 0x100_0000u32) by (bit_vector);
    unit
}

/// The numerator of a uniform draw from [0, 1) with 24 bits of precision:
/// the draw is `unit / 2^24`. It is the unit draw that the next random word
/// of the generator stands for; every number below `UNIT_RANGE` may come
/// back.
pub fn next_unit(rng: &mut StdRng) -> (unit: u32)
    ensures
        unit < UNIT_RANGE,
{
    let word: u32 = next_word(rng);
    unit_of(word)
}

} // verus!
