use crate::square_grid::{step_tile, SquareGrid};
use crate::step::Step;
use crate::tiles::TileId;
use vstd::prelude::*;

verus! {

/// The twelve tiles around a tile whose scores read that tile: those one
/// step away, the four diagonals, and those two steps away in a straight line.
#[derive(Debug, Clone, Copy)]
pub struct Blob {
    pub tile_ids: [TileId; 12],
}

/// The tile two steps from `tile`: first `first`, then `second`.
pub open spec fn two_steps(tile: int, first: Step, second: Step, x_size: int, y_size: int) -> int {
    step_tile(step_tile(tile, first, x_size, y_size), second, x_size, y_size)
}

/// The twelve tiles of the blob of `tile`, in the order in which they are kept.
pub open spec fn blob_of(tile: int, x_size: int, y_size: int) -> Seq<TileId> {
    seq![
        TileId(step_tile(tile, Step::Up, x_size, y_size) as usize),
        TileId(step_tile(tile, Step::Right, x_size, y_size) as usize),
        TileId(step_tile(tile, Step::Down, x_size, y_size) as usize),
        TileId(step_tile(tile, Step::Left, x_size, y_size) as usize),
        TileId(two_steps(tile, Step::Up, Step::Right, x_size, y_size) as usize),
        TileId(two_steps(tile, Step::Right, Step::Down, x_size, y_size) as usize),
        TileId(two_steps(tile, Step::Down, Step::Left, x_size, y_size) as usize),
        TileId(two_steps(tile, Step::Left, Step::Up, x_size, y_size) as usize),
        TileId(two_steps(tile, Step::Up, Step::Up, x_size, y_size) as usize),
        TileId(two_steps(tile, Step::Right, Step::Right, x_size, y_size) as usize),
        TileId(two_steps(tile, Step::Down, Step::Down, x_size, y_size) as usize),
        TileId(two_steps(tile, Step::Left, Step::Left, x_size, y_size) as usize),
    ]
}

impl Blob {
    /// The blob of `tile_id` on `grid`.
    pub fn from(tile_id: TileId, grid: &SquareGrid) -> (blob: Self)
        requires
            grid.wf(),
            tile_id.0 < grid.spec_size(),
        ensures
            blob.tile_ids@ == blob_of(
                tile_id.0 as int,
                grid.spec_x_size() as int,
                grid.spec_y_size() as int,
            ),
            forall|i: int| 0 <= i < 12 ==> (#[trigger] blob.tile_ids@[i]).0 < grid.spec_size(),
    {
        let ghost tile = tile_id.0 as int;
        let ghost xs = grid.spec_x_size() as int;
        let ghost ys = grid.spec_y_size() as int;
        let tile_ids = [
            grid.id_after(tile_id, Step::Up),
            grid.id_after(tile_id, Step::Right),
            grid.id_after(tile_id, Step::Down),
            grid.id_after(tile_id, Step::Left),
            grid.id_after_two(tile_id, Step::Up, Step::Right),
            grid.id_after_two(tile_id, Step::Right, Step::Down),
            grid.id_after_two(tile_id, Step::Down, Step::Left),
            grid.id_after_two(tile_id, Step::Left, Step::Up),
            grid.id_after_two(tile_id, Step::Up, Step::Up),
            grid.id_after_two(tile_id, Step::Right, Step::Right),
            grid.id_after_two(tile_id, Step::Down, Step::Down),
            grid.id_after_two(tile_id, Step::Left, Step::Left),
        ];
        assert(tile_ids@ =~= blob_of(tile, xs, ys));
        Blob { tile_ids }
    }

    /// The twelve tiles.
    pub fn tile_ids(&self) -> (tile_ids: &[TileId; 12])
        ensures
            *tile_ids == self.tile_ids,
    {
        &self.tile_ids
    }
}

} // verus!
