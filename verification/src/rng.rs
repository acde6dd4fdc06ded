use rand::distributions::{Distribution, Uniform};
use rand::rngs::SmallRng;
use rand::seq::SliceRandom;
use rand::SeedableRng;
use vstd::prelude::*;

verus! {

/// The small, fast generator of `rand`.
#[verifier::external_type_specification]
#[verifier::external_body]
pub struct ExSmallRng(rand::rngs::SmallRng);

/// The one stream of random numbers from which every draw of a run is taken.
#[derive(Debug)]
pub struct Rng(pub SmallRng);

impl Rng {
    /// `SmallRng::seed_from_u64`: the stream that starts from `seed`.
    #[verifier::external_body]
    pub fn from_seed(seed: u64) -> (rng: Self) {
        Rng(SmallRng::seed_from_u64(seed))
    }

    /// `Uniform::new(0, max)` sampled once: a number below `max`, which
    /// must not be 0.
    #[verifier::external_body]
    pub fn uniform(&mut self, max: usize) -> (value: usize)
        requires
            max > 0,
        ensures
            value < max,
    {
        Uniform::new(0, max).sample(&mut self.0)
    }

    /// `SliceRandom::shuffle`: the same values in another order.
    #[verifier::external_body]
    pub fn shuffle<T>(&mut self, values: &mut Vec<T>)
        ensures
            final(values)@.to_multiset() == old(values)@.to_multiset(),
    {
        values.shuffle(&mut self.0);
    }
}

} // verus!
