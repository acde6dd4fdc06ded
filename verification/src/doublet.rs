use crate::square_grid::{step_tile, SquareGrid};
use crate::step::Step;
use crate::tiles::TileId;
use vstd::prelude::*;

verus! {

/// A tile paired with the tile `j` one step away from it.
#[derive(Debug, Clone, Copy)]
pub struct Doublet(pub TileId);

/// The pairs of `tile`: one for each direction, in the order up, right, down, left.
pub open spec fn doublets_of(tile: int, x_size: int, y_size: int) -> Seq<Doublet> {
    seq![
        Doublet(TileId(step_tile(tile, Step::Up, x_size, y_size) as usize)),
        Doublet(TileId(step_tile(tile, Step::Right, x_size, y_size) as usize)),
        Doublet(TileId(step_tile(tile, Step::Down, x_size, y_size) as usize)),
        Doublet(TileId(step_tile(tile, Step::Left, x_size, y_size) as usize)),
    ]
}

impl Doublet {
    /// The four pairs of `tile_id` on `grid`.
    pub fn from(tile_id: TileId, grid: &SquareGrid) -> (doublets: [Self; 4])
        requires
            grid.wf(),
            tile_id.0 < grid.spec_size(),
        ensures
            doublets@ == doublets_of(
                tile_id.0 as int,
                grid.spec_x_size() as int,
                grid.spec_y_size() as int,
            ),
    {
        let ghost tile = tile_id.0 as int;
        let ghost xs = grid.spec_x_size() as int;
        let ghost ys = grid.spec_y_size() as int;
        let up = grid.id_after(tile_id, Step::Up);
        let right = grid.id_after(tile_id, Step::Right);
        let down = grid.id_after(tile_id, Step::Down);
        let left = grid.id_after(tile_id, Step::Left);
        let doublets = [Doublet(up), Doublet(right), Doublet(down), Doublet(left)];
        assert(doublets@ =~= doublets_of(tile, xs, ys));
        doublets
    }

    /// The second tile of the pair.
    pub fn j(&self) -> (tile_id: TileId)
        ensures
            tile_id == self.0,
    {
        self.0
    }
}

} // verus!
