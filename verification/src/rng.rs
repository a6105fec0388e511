//! The random source of the solver: the standard generator of the `rand`
//! crate. Nothing is known of the numbers it gives but their range.

use crate::board::is_color;
use crate::state::{first_color, second_color};
use rand::rngs::StdRng;
use rand::{Rng, SeedableRng};
use vstd::prelude::*;

verus! {

/// `StdRng` of rand, the generator that the solver draws from. Nothing of
/// its state is known here.
#[verifier::external_type_specification]
#[verifier::external_body]
pub struct ExStdRng(StdRng);

/// `balls` holds two colors.
pub open spec fn is_piece(balls: u8) -> bool {
    is_color(first_color(balls)) && is_color(second_color(balls))
}

/// `SeedableRng::seed_from_u64` of rand, for `StdRng`: a generator made from
/// the seed. Nothing is claimed of it.
#[verifier::external_body]
pub(crate) fn seeded(seed: u64) -> StdRng {
    StdRng::seed_from_u64(seed)
}

/// `Rng::gen_range` of rand, on `low..high`: it returns a number of that
/// range, and panics where the range is empty.
#[verifier::external_body]
pub(crate) fn draw(rng: &mut StdRng, low: u8, high: u8) -> (value: u8)
    requires
        low < high,
    ensures
        low <= value < high,
{
    rng.gen_range(low..high)
}

/// A piece of two random colors.
pub fn get_piece(rng: &mut StdRng) -> (balls: u8)
    ensures
        is_piece(balls),
{
    let c1 = draw(rng, 1, 6);
    let c2 = draw(rng, 1, 6);
    assert(((c1 << 4) | c2) >> 4 == c1 && ((c1 << 4) | c2) & 0xF == c2) by (bit_vector)
        requires
            c1 < 6,
            c2 < 6,
    ;
    (c1 << 4) | c2
}

} // verus!
