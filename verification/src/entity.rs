use crate::cell_kind::CellKind;
use crate::owner::Owner;
use crate::plants::PlantId;
use vstd::prelude::*;

verus! {

/// What stands on a tile.
#[derive(Debug, Clone, Copy, PartialEq, Eq, Structural, Hash)]
pub enum Entity {
    Empty,
    Cell(PlantId, CellKind),
}

/// What stands on a tile, as one organism sees it.
#[derive(Debug, Clone, Copy, PartialEq, Eq, Structural, Hash)]
pub enum GreedyEntity {
    Empty,
    MyCell(CellKind),
    OtherCell(CellKind),
}

impl Entity {
    /// The tile as the organism `plant_id` sees it.
    pub open spec fn greedy(self, plant_id: PlantId) -> GreedyEntity {
        match self {
            Entity::Empty => GreedyEntity::Empty,
            Entity::Cell(cell_id, cell_kind) => if cell_id == plant_id {
                GreedyEntity::MyCell(cell_kind)
            } else {
                GreedyEntity::OtherCell(cell_kind)
            },
        }
    }

    pub fn into_greedy(self, plant_id: PlantId) -> (seen: GreedyEntity)
        ensures
            seen == self.greedy(plant_id),
    {
        match self {
            Entity::Empty => GreedyEntity::Empty,
            Entity::Cell(cell_id, cell_kind) => {
                if cell_id == plant_id {
                    GreedyEntity::MyCell(cell_kind)
                } else {
                    GreedyEntity::OtherCell(cell_kind)
                }
            },
        }
    }

    pub fn is_empty(&self) -> (empty: bool)
        ensures
            empty == (*self is Empty),
    {
        match self {
            Entity::Empty => true,
            Entity::Cell(_, _) => false,
        }
    }

    pub fn is_cell(&self) -> (cell: bool)
        ensures
            cell == (*self is Cell),
    {
        match self {
            Entity::Empty => false,
            Entity::Cell(_, _) => true,
        }
    }

    /// The owner and the kind of the cell on an occupied tile.
    pub fn unwrap_cell(self) -> (cell: (PlantId, CellKind))
        requires
            self is Cell,
        ensures
            self == Entity::Cell(cell.0, cell.1),
    {
        match self {
            Entity::Cell(plant_id, cell_kind) => (plant_id, cell_kind),
            Entity::Empty => vstd::pervasive::unreached(),
        }
    }

    /// The owner alone.
    pub fn owner(&self) -> (owner: Owner)
        ensures
            owner == match *self {
                Entity::Empty => Owner::Empty,
                Entity::Cell(plant_id, _) => Owner::Cell(plant_id),
            },
    {
        match self {
            Entity::Empty => Owner::Empty,
            Entity::Cell(plant_id, _) => Owner::Cell(*plant_id),
        }
    }
}

impl GreedyEntity {
    pub fn is_empty(&self) -> (empty: bool)
        ensures
            empty == (*self is Empty),
    {
        match self {
            GreedyEntity::Empty => true,
            _ => false,
        }
    }

    pub fn is_my_cell(&self) -> (mine: bool)
        ensures
            mine == (*self is MyCell),
    {
        match self {
            GreedyEntity::MyCell(_) => true,
            _ => false,
        }
    }

    pub fn is_other_cell(&self) -> (other: bool)
        ensures
            other == (*self is OtherCell),
    {
        match self {
            GreedyEntity::OtherCell(_) => true,
            _ => false,
        }
    }
}

} // verus!
