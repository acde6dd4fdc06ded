use crate::active_genome::ActiveGenome;
use crate::either::Either;
use crate::inactive_genome::InactiveGenome;
use vstd::prelude::*;

verus! {

/// What a run reports at its end: the records of the genomes that have had
/// the largest yields.
#[derive(Debug)]
pub struct TrialResult<'a, T> {
    pub top_genomes: Vec<&'a Either<ActiveGenome<T>, InactiveGenome<T>>>,
}

impl<'a, T> TrialResult<'a, T> {
    pub fn new(top_genomes: Vec<&'a Either<ActiveGenome<T>, InactiveGenome<T>>>) -> (result: Self)
        ensures
            result.top_genomes == top_genomes,
    {
        TrialResult { top_genomes }
    }
}

} // verus!
