//! The source of the jitter that spreads the samples of a pixel over its area.
use vstd::prelude::*;
use rand::rngs::StdRng;
use rand::{Rng, SeedableRng};
use crate::fixed::SCALE;
use crate::vector::{Point, V3};

verus! {

/// `rand::rngs::StdRng`, the generator behind a [`Sampler`]. Nothing inside
/// it is visible to the proofs.
#[verifier::external_type_specification]
#[verifier::external_body]
pub struct ExStdRng(StdRng);

/// A stream of sample offsets, started from a seed.
pub struct Sampler {
    rng: StdRng,
}

/// `offset` lies in the unit square: its first two components are at least
/// zero and less than one.
pub open spec fn in_unit_square(offset: V3) -> bool {
    0 <= offset.x < SCALE && 0 <= offset.y < SCALE
}

impl Sampler {
    /// The sampler that starts from `seed`.
    pub fn seeded(seed: u64) -> (s: Sampler) {
        Sampler { rng: seed_rng(seed) }
    }

    /// The next offset.
    pub fn sample_square(&mut self) -> (p: Point)
        ensures
            in_unit_square(p@),
            p.z == 0,
    {
        let x: i64 = draw_below(&mut self.rng, SCALE);
        let y: i64 = draw_below(&mut self.rng, SCALE);
        let z: i64 = 0;
        Point::new(x, y, z)
    }
}

/// Calls `rand::SeedableRng::seed_from_u64` for `rand::rngs::StdRng`. Nothing
/// is claimed of the generator that comes back.
#[verifier::external_body]
fn seed_rng(seed: u64) -> (rng: StdRng) {
    StdRng::seed_from_u64(seed)
}

/// Calls `rand::Rng::gen_range` on the range from zero up to `bound`, which
/// panics on an empty range and otherwise returns a value of the range. Which
/// value is not claimed.
#[verifier::external_body]
fn draw_below(rng: &mut StdRng, bound: i64) -> (r: i64)
    requires
        bound > 0,
    ensures
        0 <= r < bound,
{
    rng.gen_range(0..bound)
}

} // verus!
