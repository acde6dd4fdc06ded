use crate::genome::GenomeKind;
use crate::genomes::GenomeId;
use vstd::prelude::*;

verus! {

/// The record of a genome of which no organism is left.
#[derive(Debug, Clone, Copy)]
pub struct InactiveGenome<T> {
    pub id: GenomeId,
    pub genome: GenomeKind<T>,
    pub max_yield: usize,
    pub created_at: usize,
    pub died_at: usize,
    pub parent_genome_id: Option<GenomeId>,
}

impl<T> InactiveGenome<T> {
    pub fn new(
        id: GenomeId,
        genome: GenomeKind<T>,
        max_yield: usize,
        created_at: usize,
        died_at: usize,
        parent_genome_id: Option<GenomeId>,
    ) -> (record: Self)
        ensures
            record == (InactiveGenome {
                id,
                genome,
                max_yield,
                created_at,
                died_at,
                parent_genome_id,
            }),
    {
        InactiveGenome { id, genome, max_yield, created_at, died_at, parent_genome_id }
    }

    pub fn genome(&self) -> (genome: &GenomeKind<T>)
        ensures
            *genome == self.genome,
    {
        &self.genome
    }

    pub fn max_yield(&self) -> (max_yield: usize)
        ensures
            max_yield == self.max_yield,
    {
        self.max_yield
    }
}

} // verus!
