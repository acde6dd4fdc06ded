use crate::plants::PlantId;
use vstd::prelude::*;

verus! {

/// Who holds a tile, without the kind of cell.
#[derive(Debug, Clone, Copy, PartialEq, Eq, Structural, Hash)]
pub enum Owner {
    Empty,
    Cell(PlantId),
}

impl Owner {
    pub fn is_empty(&self) -> (empty: bool)
        ensures
            empty == (*self is Empty),
    {
        match self {
            Owner::Empty => true,
            Owner::Cell(_) => false,
        }
    }

    pub fn is_cell(&self) -> (cell: bool)
        ensures
            cell == (*self is Cell),
    {
        match self {
            Owner::Empty => false,
            Owner::Cell(_) => true,
        }
    }
}

} // verus!
