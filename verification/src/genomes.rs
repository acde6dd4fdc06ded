pub mod doublet_genome;
pub mod triplet_genome;

use crate::active_genome::ActiveGenome;
use crate::either::Either;
use crate::inactive_genome::InactiveGenome;
use vstd::prelude::*;

verus! {

/// Handle of a genome in the registry; never reused.
#[derive(Debug, Clone, Copy, PartialEq, Eq, Structural, Hash, PartialOrd, Ord)]
pub struct GenomeId(pub usize);

impl From<usize> for GenomeId {
    fn from(index: usize) -> (id: Self) {
        GenomeId(index)
    }
}

impl vstd::std_specs::convert::FromSpecImpl<usize> for GenomeId {
    open spec fn obeys_from_spec() -> bool {
        true
    }

    open spec fn from_spec(index: usize) -> Self {
        GenomeId(index)
    }
}

impl From<GenomeId> for usize {
    fn from(id: GenomeId) -> (index: Self) {
        id.0
    }
}

impl vstd::std_specs::convert::FromSpecImpl<GenomeId> for usize {
    open spec fn obeys_from_spec() -> bool {
        true
    }

    open spec fn from_spec(id: GenomeId) -> Self {
        id.0
    }
}

impl Default for GenomeId {
    fn default() -> (id: Self)
        ensures
            id == GenomeId(0),
    {
        GenomeId(0)
    }
}

/// The registry of all genomes, active and archived, in the order of their handles.
#[derive(Debug, Clone)]
pub struct Genomes<T>(pub Vec<Either<ActiveGenome<T>, InactiveGenome<T>>>);

impl<T> View for Genomes<T> {
    type V = Seq<Either<ActiveGenome<T>, InactiveGenome<T>>>;

    open spec fn view(&self) -> Seq<Either<ActiveGenome<T>, InactiveGenome<T>>> {
        self.0@
    }
}

impl<T> Default for Genomes<T> {
    fn default() -> (genomes: Self)
        ensures
            genomes@ == Seq::<Either<ActiveGenome<T>, InactiveGenome<T>>>::empty(),
    {
        Genomes(Vec::new())
    }
}

impl<T> Genomes<T> {
    pub fn len(&self) -> (len: usize)
        ensures
            len == self@.len(),
    {
        self.0.len()
    }

    pub fn push(&mut self, genome: Either<ActiveGenome<T>, InactiveGenome<T>>)
        ensures
            final(self)@ == old(self)@.push(genome),
    {
        self.0.push(genome);
    }

    /// The record of the genome `genome_id`.
    pub fn get(&self, genome_id: GenomeId) -> (genome: &Either<ActiveGenome<T>, InactiveGenome<T>>)
        requires
            genome_id.0 < self@.len(),
        ensures
            *genome == self@[genome_id.0 as int],
    {
        &self.0[genome_id.0]
    }
}

} // verus!
