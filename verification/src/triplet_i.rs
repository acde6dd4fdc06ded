use crate::square_grid::{step_tile, SquareGrid};
use crate::step::Step;
use crate::tiles::TileId;
use vstd::prelude::*;

verus! {

/// A tile with the tiles `j`, one step away, and `k`, one more step in the same direction.
#[derive(Debug, Clone, Copy)]
pub struct TripletI(pub TileId, pub TileId);

/// The straight triplet of `tile` in the direction `step`.
pub open spec fn triplet_i_along(tile: int, step: Step, x_size: int, y_size: int) -> TripletI {
    let j = step_tile(tile, step, x_size, y_size);
    TripletI(TileId(j as usize), TileId(step_tile(j, step, x_size, y_size) as usize))
}

/// The straight triplets of `tile`: one for each direction, in the order up, right, down, left.
pub open spec fn triplets_i_of(tile: int, x_size: int, y_size: int) -> Seq<TripletI> {
    seq![
        triplet_i_along(tile, Step::Up, x_size, y_size),
        triplet_i_along(tile, Step::Right, x_size, y_size),
        triplet_i_along(tile, Step::Down, x_size, y_size),
        triplet_i_along(tile, Step::Left, x_size, y_size),
    ]
}

impl TripletI {
    /// The four straight triplets of `tile_id` on `grid`.
    pub fn from(tile_id: TileId, grid: &SquareGrid) -> (triplets: [Self; 4])
        requires
            grid.wf(),
            tile_id.0 < grid.spec_size(),
        ensures
            triplets@ == triplets_i_of(
                tile_id.0 as int,
                grid.spec_x_size() as int,
                grid.spec_y_size() as int,
            ),
    {
        let up = Self::along(tile_id, Step::Up, grid);
        let right = Self::along(tile_id, Step::Right, grid);
        let down = Self::along(tile_id, Step::Down, grid);
        let left = Self::along(tile_id, Step::Left, grid);
        let triplets = [up, right, down, left];
        assert(triplets@ =~= triplets_i_of(
            tile_id.0 as int,
            grid.spec_x_size() as int,
            grid.spec_y_size() as int,
        ));
        triplets
    }

    fn along(tile_id: TileId, step: Step, grid: &SquareGrid) -> (triplet: Self)
        requires
            grid.wf(),
            tile_id.0 < grid.spec_size(),
        ensures
            triplet == triplet_i_along(
                tile_id.0 as int,
                step,
                grid.spec_x_size() as int,
                grid.spec_y_size() as int,
            ),
    {
        TripletI(grid.id_after(tile_id, step), grid.id_after_two(tile_id, step, step))
    }

    /// The tile one step away.
    pub fn j(&self) -> (tile_id: TileId)
        ensures
            tile_id == self.0,
    {
        self.0
    }

    /// The tile two steps away.
    pub fn k(&self) -> (tile_id: TileId)
        ensures
            tile_id == self.1,
    {
        self.1
    }
}

} // verus!
