use crate::square_grid::{step_tile, SquareGrid};
use crate::step::Step;
use crate::tiles::TileId;
use vstd::prelude::*;

verus! {

/// A tile with the tiles `j`, one step away, and `k`, one more step after a quarter turn.
#[derive(Debug, Clone, Copy)]
pub struct TripletL(pub TileId, pub TileId);

/// The bent triplet of `tile` that goes one step `first` and then one step `second`.
pub open spec fn triplet_l_along(
    tile: int,
    first: Step,
    second: Step,
    x_size: int,
    y_size: int,
) -> TripletL {
    let j = step_tile(tile, first, x_size, y_size);
    TripletL(TileId(j as usize), TileId(step_tile(j, second, x_size, y_size) as usize))
}

/// The bent triplets of `tile`: for each direction, in the order up, right,
/// down, left, first the one that turns clockwise and then the one that turns
/// the other way.
pub open spec fn triplets_l_of(tile: int, x_size: int, y_size: int) -> Seq<TripletL> {
    seq![
        triplet_l_along(tile, Step::Up, Step::Right, x_size, y_size),
        triplet_l_along(tile, Step::Up, Step::Left, x_size, y_size),
        triplet_l_along(tile, Step::Right, Step::Down, x_size, y_size),
        triplet_l_along(tile, Step::Right, Step::Up, x_size, y_size),
        triplet_l_along(tile, Step::Down, Step::Left, x_size, y_size),
        triplet_l_along(tile, Step::Down, Step::Right, x_size, y_size),
        triplet_l_along(tile, Step::Left, Step::Up, x_size, y_size),
        triplet_l_along(tile, Step::Left, Step::Down, x_size, y_size),
    ]
}

impl TripletL {
    /// The eight bent triplets of `tile_id` on `grid`.
    pub fn from(tile_id: TileId, grid: &SquareGrid) -> (triplets: [Self; 8])
        requires
            grid.wf(),
            tile_id.0 < grid.spec_size(),
        ensures
            triplets@ == triplets_l_of(
                tile_id.0 as int,
                grid.spec_x_size() as int,
                grid.spec_y_size() as int,
            ),
    {
        let up_right = Self::along(tile_id, Step::Up, Step::Right, grid);
        let up_left = Self::along(tile_id, Step::Up, Step::Left, grid);
        let right_down = Self::along(tile_id, Step::Right, Step::Down, grid);
        let right_up = Self::along(tile_id, Step::Right, Step::Up, grid);
        let down_left = Self::along(tile_id, Step::Down, Step::Left, grid);
        let down_right = Self::along(tile_id, Step::Down, Step::Right, grid);
        let left_up = Self::along(tile_id, Step::Left, Step::Up, grid);
        let left_down = Self::along(tile_id, Step::Left, Step::Down, grid);
        let triplets = [
            up_right,
            up_left,
            right_down,
            right_up,
            down_left,
            down_right,
            left_up,
            left_down,
        ];
        assert(triplets@ =~= triplets_l_of(
            tile_id.0 as int,
            grid.spec_x_size() as int,
            grid.spec_y_size() as int,
        ));
        triplets
    }

    fn along(tile_id: TileId, first: Step, second: Step, grid: &SquareGrid) -> (triplet: Self)
        requires
            grid.wf(),
            tile_id.0 < grid.spec_size(),
        ensures
            triplet == triplet_l_along(
                tile_id.0 as int,
                first,
                second,
                grid.spec_x_size() as int,
                grid.spec_y_size() as int,
            ),
    {
        TripletL(grid.id_after(tile_id, first), grid.id_after_two(tile_id, first, second))
    }

    /// The tile one step away.
    pub fn j(&self) -> (tile_id: TileId)
        ensures
            tile_id == self.0,
    {
        self.0
    }

    /// The tile after the turn.
    pub fn k(&self) -> (tile_id: TileId)
        ensures
            tile_id == self.1,
    {
        self.1
    }
}

} // verus!
