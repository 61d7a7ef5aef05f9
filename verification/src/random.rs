//! Random draws. Nothing is known of a drawn number: whatever is proved of code
//! that draws holds of every sequence of draws.

use rand::rngs::StdRng;
use rand::{RngCore, SeedableRng};
use vstd::prelude::*;

verus! {

/// `rand::rngs::StdRng`, carried as an opaque value.
#[verifier::external_type_specification]
#[verifier::external_body]
pub struct ExStdRng(StdRng);

/// `StdRng::next_u64` (`rand`). Nothing is claimed of the number drawn.
#[verifier::external_body]
fn draw(rng: &mut StdRng) -> (r: u64) {
    rng.next_u64()
}

/// The state that `StdRng` is in once it is seeded with `seed`.
pub uninterp spec fn seeded_state(seed: u64) -> StdRng;

/// `StdRng::seed_from_u64` (`rand`). Claimed: the state of the generator depends
/// on the seed alone. Left unsaid is what it will draw: that is documented as
/// not to be relied on, since the algorithm behind it may be replaced.
#[verifier::external_body]
fn seed_generator(seed: u64) -> (r: StdRng)
    ensures
        r == seeded_state(seed),
{
    StdRng::seed_from_u64(seed)
}

/// A generator together with the number that it was seeded with.
pub struct Prng {
    rng: StdRng,
    seed: u64,
}

impl Prng {
    /// The state of the generator.
    pub closed spec fn state(&self) -> StdRng {
        self.rng
    }

    /// The number that the generator was seeded with.
    pub closed spec fn origin(&self) -> u64 {
        self.seed
    }

    /// A generator seeded with `seed`.
    pub fn seeded(seed: u64) -> (r: Prng)
        ensures
            r.state() == seeded_state(seed),
            r.origin() == seed,
    {
        Prng { rng: seed_generator(seed), seed }
    }

    /// The number that the generator was seeded with.
    pub fn seed(&self) -> (seed: u64)
        ensures
            seed == self.origin(),
    {
        self.seed
    }

    /// The generator, to draw from.
    pub(crate) fn generator(&mut self) -> (g: &mut StdRng)
        ensures
            *g == old(self).state(),
            final(self).state() == *final(g),
            final(self).origin() == old(self).origin(),
    {
        &mut self.rng
    }
}

/// The index below `n` that a draw stands for.
pub fn index_of_draw(r: u64, n: usize) -> (i: usize)
    requires
        n > 0,
    ensures
        i == (r as usize) % n,
        i < n,
{
    r as usize % n
}

/// A random index below `n`.
pub(crate) fn random_index(rng: &mut StdRng, n: usize) -> (i: usize)
    requires
        n > 0,
    ensures
        i < n,
{
    let r: u64 = draw(rng);
    index_of_draw(r, n)
}

} // verus!
