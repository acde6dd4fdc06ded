use crate::genomes::GenomeId;
use crate::plants::PlantId;
use vstd::prelude::*;

verus! {

/// The record of an organism that has died.
#[derive(Debug, Clone, Copy)]
pub struct InactivePlant {
    pub id: PlantId,
    pub genome_id: GenomeId,
}

impl InactivePlant {
    pub fn new(id: PlantId, genome_id: GenomeId) -> (plant: Self)
        ensures
            plant == (InactivePlant { id, genome_id }),
    {
        InactivePlant { id, genome_id }
    }

    pub fn genome_id(&self) -> (genome_id: GenomeId)
        ensures
            genome_id == self.genome_id,
    {
        self.genome_id
    }
}

} // verus!
