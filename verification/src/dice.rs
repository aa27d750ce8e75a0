//! The dice roller: a uniform draw plus a modifier.

use vstd::prelude::*;
use rand::rngs::StdRng;

verus! {

#[verifier::external_type_specification]
#[verifier::external_body]
pub struct ExStdRng(StdRng);

/// Relies on rand's `StdRng::from_rng` applied to the thread generator:
/// a freshly seeded generator.  Nothing is promised of its future output.
#[verifier::external_body]
pub(crate) fn fresh_rng() -> StdRng {
    rand::SeedableRng::from_rng(&mut rand::rng())
}

/// Relies on rand's `Rng::random_range` over `1..=sides`: the draw lies in
/// that inclusive range.  The range is non-empty, so the call cannot panic.
#[verifier::external_body]
fn roll_in_range(rng: &mut StdRng, sides: i32) -> (r: i32)
    requires
        sides >= 1,
    ensures
        1 <= r <= sides,
{
    rand::Rng::random_range(rng, 1..=sides)
}

/// One die roll: a draw from `[1, sides]` plus `modifier`.
pub fn roll_dice(rng: &mut StdRng, sides: i32, modifier: i32) -> (r: i32)
    requires
        sides >= 1,
        modifier as int + sides as int <= i32::MAX as int,
    ensures
        modifier as int + 1 <= r as int <= modifier as int + sides as int,
{
    let draw = roll_in_range(rng, sides);
    draw + modifier
}

} // verus!
