use vstd::prelude::*;

verus! {

/// What a cell of an organism is made of.
#[derive(Debug, Clone, Copy, PartialEq, Eq, Structural, Hash)]
pub enum CellKind {
    Branch,
}

impl CellKind {
    /// Budget spent to claim an empty tile with a cell of this kind.
    pub fn cost_to_grow(&self) -> (cost: usize)
        ensures
            cost == 1,
    {
        match self {
            CellKind::Branch => 1,
        }
    }

    /// Budget spent, on top of the cost to grow, to take a cell of this kind
    /// from another organism.
    pub fn cost_to_kill(&self) -> (cost: usize)
        ensures
            cost == 1,
    {
        match self {
            CellKind::Branch => 1,
        }
    }

    /// Upkeep of one cell of this kind for one round.
    pub fn cost_per_turn(&self) -> (cost: usize)
        ensures
            cost == 1,
    {
        match self {
            CellKind::Branch => 1,
        }
    }

    /// Energy that one cell of this kind draws from one empty tile next to it.
    pub fn yield_per_empty_tile(&self) -> (energy: usize)
        ensures
            energy == 1,
    {
        match self {
            CellKind::Branch => 1,
        }
    }
}

} // verus!
