use crate::active_plant::ActivePlant;
use crate::either::Either;
use crate::inactive_plant::InactivePlant;
use vstd::prelude::*;

verus! {

/// Handle of an organism in the registry; never reused.
#[derive(Debug, Clone, Copy, PartialEq, Eq, Structural, Hash, PartialOrd, Ord)]
pub struct PlantId(pub usize);

impl From<usize> for PlantId {
    fn from(index: usize) -> (id: Self) {
        PlantId(index)
    }
}

impl vstd::std_specs::convert::FromSpecImpl<usize> for PlantId {
    open spec fn obeys_from_spec() -> bool {
        true
    }

    open spec fn from_spec(index: usize) -> Self {
        PlantId(index)
    }
}

impl From<PlantId> for usize {
    fn from(id: PlantId) -> (index: Self) {
        id.0
    }
}

impl vstd::std_specs::convert::FromSpecImpl<PlantId> for usize {
    open spec fn obeys_from_spec() -> bool {
        true
    }

    open spec fn from_spec(id: PlantId) -> Self {
        id.0
    }
}

impl Default for PlantId {
    fn default() -> (id: Self)
        ensures
            id == PlantId(0),
    {
        PlantId(0)
    }
}

/// The registry of all organisms, living and dead, in the order of their handles.
#[derive(Debug, Clone)]
pub struct Plants(pub Vec<Either<ActivePlant, InactivePlant>>);

impl View for Plants {
    type V = Seq<Either<ActivePlant, InactivePlant>>;

    open spec fn view(&self) -> Seq<Either<ActivePlant, InactivePlant>> {
        self.0@
    }
}

impl Default for Plants {
    fn default() -> (plants: Self)
        ensures
            plants@ == Seq::<Either<ActivePlant, InactivePlant>>::empty(),
    {
        Plants(Vec::new())
    }
}

impl Plants {
    pub fn len(&self) -> (len: usize)
        ensures
            len == self@.len(),
    {
        self.0.len()
    }

    pub fn push(&mut self, plant: Either<ActivePlant, InactivePlant>)
        ensures
            final(self)@ == old(self)@.push(plant),
    {
        self.0.push(plant);
    }

    /// The record of the organism `plant_id`.
    pub fn get(&self, plant_id: PlantId) -> (plant: &Either<ActivePlant, InactivePlant>)
        requires
            plant_id.0 < self@.len(),
        ensures
            *plant == self@[plant_id.0 as int],
    {
        &self.0[plant_id.0]
    }
}

} // verus!
