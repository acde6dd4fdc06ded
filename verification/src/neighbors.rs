use crate::int_map::int_set_insert;
use crate::square_grid::step_tile;
use crate::step::Step;
use crate::tile_id_builder::TileIdBuilder;
use crate::tiles::TileId;
use nohash::IntSet;
use vstd::prelude::*;

verus! {

/// The number of tiles next to a tile.
pub const NEIGHBOR_COUNT: usize = 4;

/// The four tiles next to a tile, in the order left, right, up, down.
#[derive(Debug, Clone, Copy)]
pub struct Neighbors(pub [TileId; 4]);

impl Neighbors {
    /// The neighbours of the tile on which the walk `tile_id_builder` ends.
    pub fn build(tile_id_builder: TileIdBuilder) -> (neighbors: Self)
        requires
            tile_id_builder.wf(),
            tile_id_builder.spec_x_size() * tile_id_builder.spec_y_size() <= usize::MAX,
        ensures
            neighbors.0@ == seq![
                TileId(Self::beside(tile_id_builder, Step::Left) as usize),
                TileId(Self::beside(tile_id_builder, Step::Right) as usize),
                TileId(Self::beside(tile_id_builder, Step::Up) as usize),
                TileId(Self::beside(tile_id_builder, Step::Down) as usize),
            ],
    {
        let left = Self::one_more(tile_id_builder.clone().left(1), Ghost(tile_id_builder), Step::Left);
        let right = Self::one_more(tile_id_builder.clone().right(1), Ghost(tile_id_builder), Step::Right);
        let up = Self::one_more(tile_id_builder.clone().up(1), Ghost(tile_id_builder), Step::Up);
        let down = Self::one_more(tile_id_builder.clone().down(1), Ghost(tile_id_builder), Step::Down);
        let neighbors = Neighbors([left, right, up, down]);
        assert(neighbors.0@ =~= seq![
            TileId(Self::beside(tile_id_builder, Step::Left) as usize),
            TileId(Self::beside(tile_id_builder, Step::Right) as usize),
            TileId(Self::beside(tile_id_builder, Step::Up) as usize),
            TileId(Self::beside(tile_id_builder, Step::Down) as usize),
        ]);
        neighbors
    }

    /// The four tiles as a set.
    pub fn as_set(&self) -> (tiles: IntSet<usize>)
        ensures
            tiles@ == Set::<usize>::empty().insert(self.0@[0].0).insert(self.0@[1].0).insert(
                self.0@[2].0,
            ).insert(self.0@[3].0),
    {
        let mut tiles: IntSet<usize> = IntSet::default();
        int_set_insert(&mut tiles, self.0[0].0);
        int_set_insert(&mut tiles, self.0[1].0);
        int_set_insert(&mut tiles, self.0[2].0);
        int_set_insert(&mut tiles, self.0[3].0);
        tiles
    }

    /// The tile one `step` from the end of the walk `builder`.
    pub open spec fn beside(builder: TileIdBuilder, step: Step) -> int {
        step_tile(
            builder.end(),
            step,
            builder.spec_x_size() as int,
            builder.spec_y_size() as int,
        )
    }

    fn one_more(longer: TileIdBuilder, Ghost(builder): Ghost<TileIdBuilder>, step: Step) -> (tile_id: TileId)
        requires
            builder.wf(),
            builder.spec_x_size() * builder.spec_y_size() <= usize::MAX,
            builder.extended(longer, step, 1),
        ensures
            tile_id.0 == Self::beside(builder, step),
    {
        proof {
            let steps = longer.spec_steps();
            assert(steps.drop_last() =~= builder.spec_steps());
            assert(steps.last() == step);
        }
        longer.build()
    }
}

} // verus!
