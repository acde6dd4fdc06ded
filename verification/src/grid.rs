use crate::blob::{blob_of, Blob};
use crate::doublet::{doublets_of, Doublet};
use crate::entity::Entity;
use crate::position::Position;
use crate::square_grid::{
    lemma_step_in_range, lemma_tile_coordinates, step_tile, Neighbors, SquareGrid,
};
use crate::step::Step;
use crate::tiles::{chunk_at, chunk_count, TileId, Tiles};
use crate::triplet_i::{triplets_i_of, TripletI};
use crate::triplet_l::{triplets_l_of, TripletL};
use vstd::prelude::*;

verus! {

/// How often `tile` stands in `tiles`.
pub open spec fn occurrences(tiles: Seq<TileId>, tile: TileId) -> nat
    decreases tiles.len(),
{
    if tiles.len() == 0 {
        0
    } else {
        occurrences(tiles.drop_last(), tile) + if tiles.last() == tile {
            1nat
        } else {
            0nat
        }
    }
}

/// A tile stands in a sequence exactly if it occurs there at least once.
pub proof fn lemma_occurrences_contains(tiles: Seq<TileId>, tile: TileId)
    ensures
        occurrences(tiles, tile) > 0 <==> tiles.contains(tile),
    decreases tiles.len(),
{
    if tiles.len() > 0 {
        lemma_occurrences_contains(tiles.drop_last(), tile);
        if tiles.contains(tile) {
            let i = choose|i: int| 0 <= i < tiles.len() && tiles[i] == tile;
            if i < tiles.len() - 1 {
                assert(tiles.drop_last()[i] == tile);
            }
        }
        if tiles.drop_last().contains(tile) {
            let i = choose|i: int| 0 <= i < tiles.drop_last().len() && tiles.drop_last()[i] == tile;
            assert(tiles[i] == tile);
        }
        if tiles.last() == tile {
            assert(tiles[tiles.len() - 1] == tile);
        }
    }
}

/// The played field: what stands on every tile of a torus, the fixed
/// relations between its tiles, and for every tile a counter that goes up
/// whenever something changes that a score of the tile reads.
#[derive(Debug, Clone)]
pub struct Grid {
    grid: SquareGrid,
    entities: Tiles<Entity>,
    doublets: Tiles<[Doublet; 4]>,
    triplets_l: Tiles<[TripletL; 8]>,
    triplets_i: Tiles<[TripletI; 4]>,
    blobs: Tiles<Blob>,
    nonces: Tiles<usize>,
}

impl Grid {
    pub closed spec fn spec_x_size(&self) -> usize {
        self.grid.spec_x_size()
    }

    pub closed spec fn spec_y_size(&self) -> usize {
        self.grid.spec_y_size()
    }

    /// The number of tiles.
    pub open spec fn spec_size(&self) -> int {
        self.spec_x_size() * self.spec_y_size()
    }

    /// What stands on each tile.
    pub closed spec fn entities(&self) -> Seq<Entity> {
        self.entities@
    }

    /// The change counter of each tile.
    pub closed spec fn nonces(&self) -> Seq<usize> {
        self.nonces@
    }

    /// The tile one `step` away from `tile`.
    pub open spec fn step(&self, tile: int, step: Step) -> int {
        step_tile(tile, step, self.spec_x_size() as int, self.spec_y_size() as int)
    }

    /// The four neighbours of `tile`: up, right, down, left.
    pub open spec fn neighbors_of(&self, tile: int) -> Seq<TileId> {
        seq![
            TileId(self.step(tile, Step::Up) as usize),
            TileId(self.step(tile, Step::Right) as usize),
            TileId(self.step(tile, Step::Down) as usize),
            TileId(self.step(tile, Step::Left) as usize),
        ]
    }

    /// The blob of `tile`.
    pub open spec fn blob(&self, tile: int) -> Seq<TileId> {
        blob_of(tile, self.spec_x_size() as int, self.spec_y_size() as int)
    }

    /// The tiles whose counters go up when `tile` changes, each as often as
    /// its counter goes up: the tile itself and its blob.
    pub open spec fn touched(&self, tile: int) -> Seq<TileId> {
        seq![TileId(tile as usize)] + self.blob(tile)
    }

    /// No counter would pass the largest number if `tile` changed.
    pub open spec fn can_touch(&self, tile: int) -> bool {
        forall|other: int|
            0 <= other < self.spec_size() ==> (#[trigger] self.nonces()[other]) + occurrences(
                self.touched(tile),
                TileId(other as usize),
            ) <= usize::MAX
    }

    /// Every counter can still go up `changes` times by as much as one
    /// change raises it.
    pub open spec fn room(&self, changes: int) -> bool {
        forall|tile: int|
            0 <= tile < self.spec_size() ==> (#[trigger] self.nonces()[tile]) + 13 * changes
                <= usize::MAX
    }

    /// Where there is room for a change, every tile can be touched, and
    /// afterwards there is room for one change less.
    pub proof fn lemma_room(&self, changes: int, tile: int)
        requires
            self.wf(),
            self.room(changes),
            changes >= 1,
            0 <= tile < self.spec_size(),
        ensures
            self.can_touch(tile),
            forall|other: int|
                0 <= other < self.spec_size() ==> (#[trigger] self.touched_nonces(tile)[other]) + 13
                    * (changes - 1) <= usize::MAX,
    {
        self.lemma_wf_lengths();
        assert(self.touched(tile).len() == 13);
        assert forall|other: int| 0 <= other < self.spec_size() implies (
        #[trigger] self.nonces()[other]) + occurrences(self.touched(tile), TileId(other as usize))
            <= usize::MAX by {
            lemma_occurrences_bound(self.touched(tile), TileId(other as usize));
        }
        assert forall|other: int| 0 <= other < self.spec_size() implies (
        #[trigger] self.touched_nonces(tile)[other]) + 13 * (changes - 1) <= usize::MAX by {
            lemma_occurrences_bound(self.touched(tile), TileId(other as usize));
            assert(self.nonces()[other] + 13 * changes <= usize::MAX);
        }
    }

    /// The counters after a change of `tile`.
    pub open spec fn touched_nonces(&self, tile: int) -> Seq<usize> {
        Seq::new(
            self.nonces().len(),
            |other: int|
                (self.nonces()[other] + occurrences(self.touched(tile), TileId(other as usize)))
                    as usize,
        )
    }

    /// Every table has one entry for each tile, and the relations are those of the torus.
    pub closed spec fn wf(&self) -> bool {
        &&& self.grid.wf()
        &&& self.grid.spec_size() <= usize::MAX
        &&& self.entities@.len() == self.grid.spec_size()
        &&& self.doublets@.len() == self.grid.spec_size()
        &&& self.triplets_l@.len() == self.grid.spec_size()
        &&& self.triplets_i@.len() == self.grid.spec_size()
        &&& self.blobs@.len() == self.grid.spec_size()
        &&& self.nonces@.len() == self.grid.spec_size()
        &&& forall|tile: int|
            0 <= tile < self.doublets@.len() ==> (#[trigger] self.doublets@[tile])@ == doublets_of(
                tile,
                self.grid.spec_x_size() as int,
                self.grid.spec_y_size() as int,
            )
        &&& forall|tile: int|
            0 <= tile < self.triplets_l@.len() ==> (#[trigger] self.triplets_l@[tile])@
                == triplets_l_of(
                tile,
                self.grid.spec_x_size() as int,
                self.grid.spec_y_size() as int,
            )
        &&& forall|tile: int|
            0 <= tile < self.triplets_i@.len() ==> (#[trigger] self.triplets_i@[tile])@
                == triplets_i_of(
                tile,
                self.grid.spec_x_size() as int,
                self.grid.spec_y_size() as int,
            )
        &&& forall|tile: int|
            0 <= tile < self.blobs@.len() ==> (#[trigger] self.blobs@[tile]).tile_ids@ == blob_of(
                tile,
                self.grid.spec_x_size() as int,
                self.grid.spec_y_size() as int,
            )
    }

    /// A well-formed grid has one entity and one counter for each tile.
    pub proof fn lemma_wf_lengths(&self)
        requires
            self.wf(),
        ensures
            0 <= self.spec_size() <= usize::MAX,
            self.entities().len() == self.spec_size(),
            self.nonces().len() == self.spec_size(),
    {
        self.grid.lemma_size_bounded();
    }

    /// One step and two steps from a tile of the grid end on tiles of the grid.
    pub proof fn lemma_steps_in_range(&self, tile: int)
        requires
            0 <= tile < self.spec_size(),
        ensures
            forall|first: Step|
                0 <= #[trigger] step_tile(
                    tile,
                    first,
                    self.spec_x_size() as int,
                    self.spec_y_size() as int,
                ) < self.spec_size(),
            forall|first: Step, second: Step|
                0 <= #[trigger] step_tile(
                    step_tile(tile, first, self.spec_x_size() as int, self.spec_y_size() as int),
                    second,
                    self.spec_x_size() as int,
                    self.spec_y_size() as int,
                ) < self.spec_size(),
    {
        let xs = self.spec_x_size() as int;
        let ys = self.spec_y_size() as int;
        assert forall|first: Step| 0 <= #[trigger] step_tile(tile, first, xs, ys) < xs * ys by {
            lemma_step_in_range(tile, first, xs, ys);
        }
        assert forall|first: Step, second: Step|
            0 <= #[trigger] step_tile(step_tile(tile, first, xs, ys), second, xs, ys) < xs * ys by {
            lemma_step_in_range(tile, first, xs, ys);
            lemma_step_in_range(step_tile(tile, first, xs, ys), second, xs, ys);
        }
    }

    /// The tiles of the blob of a tile of the grid are tiles of the grid.
    pub proof fn lemma_blob_in_range(&self, tile: int)
        requires
            0 <= tile < self.spec_size(),
        ensures
            forall|i: int| 0 <= i < 12 ==> 0 <= (#[trigger] self.blob(tile)[i]).0 < self.spec_size(),
    {
        self.lemma_steps_in_range(tile);
    }

    /// The empty field on the torus `grid`: nothing stands on any tile, and
    /// every counter is 0.
    pub fn new(grid: SquareGrid) -> (field: Self)
        requires
            grid.wf(),
        ensures
            field.wf(),
            field.spec_x_size() == grid.spec_x_size(),
            field.spec_y_size() == grid.spec_y_size(),
            field.entities() == Seq::new(field.spec_size() as nat, |tile: int| Entity::Empty),
            field.nonces() == Seq::new(field.spec_size() as nat, |tile: int| 0usize),
    {
        let mut entities: Tiles<Entity> = Tiles::default();
        let mut doublets: Tiles<[Doublet; 4]> = Tiles::default();
        let mut triplets_l: Tiles<[TripletL; 8]> = Tiles::default();
        let mut triplets_i: Tiles<[TripletI; 4]> = Tiles::default();
        let mut blobs: Tiles<Blob> = Tiles::default();
        let mut nonces: Tiles<usize> = Tiles::default();
        proof {
            grid.lemma_size_bounded();
        }
        let tile_ids = grid.tile_id_iter();
        let ghost xs = grid.spec_x_size() as int;
        let ghost ys = grid.spec_y_size() as int;
        let mut index: usize = 0;
        while index < tile_ids.len()
            invariant
                grid.wf(),
                xs == grid.spec_x_size(),
                ys == grid.spec_y_size(),
                index <= tile_ids@.len(),
                tile_ids@.len() == grid.spec_size(),
                forall|i: int| 0 <= i < tile_ids@.len() ==> (#[trigger] tile_ids@[i]).0 == i,
                entities@ == Seq::new(index as nat, |tile: int| Entity::Empty),
                nonces@ == Seq::new(index as nat, |tile: int| 0usize),
                doublets@.len() == index,
                triplets_l@.len() == index,
                triplets_i@.len() == index,
                blobs@.len() == index,
                forall|tile: int|
                    0 <= tile < index ==> (#[trigger] doublets@[tile])@ == doublets_of(
                        tile,
                        xs,
                        ys,
                    ),
                forall|tile: int|
                    0 <= tile < index ==> (#[trigger] triplets_l@[tile])@ == triplets_l_of(
                        tile,
                        xs,
                        ys,
                    ),
                forall|tile: int|
                    0 <= tile < index ==> (#[trigger] triplets_i@[tile])@ == triplets_i_of(
                        tile,
                        xs,
                        ys,
                    ),
                forall|tile: int|
                    0 <= tile < index ==> (#[trigger] blobs@[tile]).tile_ids@ == blob_of(
                        tile,
                        xs,
                        ys,
                    ),
            decreases tile_ids@.len() - index,
        {
            let tile_id = tile_ids[index];
            entities.push(Entity::Empty);
            doublets.push(Doublet::from(tile_id, &grid));
            triplets_i.push(TripletI::from(tile_id, &grid));
            triplets_l.push(TripletL::from(tile_id, &grid));
            blobs.push(Blob::from(tile_id, &grid));
            nonces.push(0);
            assert(entities@ =~= Seq::new((index + 1) as nat, |tile: int| Entity::Empty));
            assert(nonces@ =~= Seq::new((index + 1) as nat, |tile: int| 0usize));
            index = index + 1;
        }
        Grid { grid, entities, doublets, triplets_l, triplets_i, blobs, nonces }
    }

    #[verifier::when_used_as_spec(spec_x_size)]
    pub fn x_size(&self) -> (x_size: usize)
        ensures
            x_size == self.spec_x_size(),
    {
        self.grid.x_size()
    }

    #[verifier::when_used_as_spec(spec_y_size)]
    pub fn y_size(&self) -> (y_size: usize)
        ensures
            y_size == self.spec_y_size(),
    {
        self.grid.y_size()
    }

    /// The number of tiles.
    pub fn size(&self) -> (size: usize)
        requires
            self.wf(),
        ensures
            size == self.spec_size(),
    {
        proof {
            self.grid.lemma_size_bounded();
        }
        self.grid.size()
    }

    /// The four neighbours of `tile_id`: up, right, down, left.
    pub fn neighbors(&self, tile_id: TileId) -> (neighbors: &Neighbors<TileId>)
        requires
            self.wf(),
            tile_id.0 < self.spec_size(),
        ensures
            neighbors@ == self.neighbors_of(tile_id.0 as int),
            forall|i: int| 0 <= i < 4 ==> (#[trigger] neighbors@[i]).0 < self.spec_size(),
    {
        self.grid.neighbors(tile_id)
    }

    /// The tile of column `position.x` and row `position.y`.
    pub fn id_at(&self, position: Position) -> (tile_id: TileId)
        requires
            position.x * self.y_size() + position.y <= usize::MAX,
        ensures
            tile_id.0 == position.x * self.y_size() + position.y,
    {
        self.grid.id_at(position)
    }

    /// What stands on the tiles, column by column.
    pub fn columns(&self) -> (columns: Vec<&[Entity]>)
        requires
            self.wf(),
            self.y_size() > 0,
        ensures
            columns@.len() == self.x_size(),
            forall|x: int|
                0 <= x < columns@.len() ==> (#[trigger] columns@[x])@ == self.entities().subrange(
                    x * self.y_size(),
                    x * self.y_size() + self.y_size(),
                ),
    {
        let columns = self.entities.chunks(self.grid.y_size());
        proof {
            let xs = self.spec_x_size() as int;
            let ys = self.spec_y_size() as int;
            lemma_tile_coordinates(xs, 0, ys);
            assert(chunk_count(xs * ys, ys) == xs);
            assert forall|x: int| 0 <= x < columns@.len() implies (#[trigger] columns@[x])@
                == self.entities().subrange(x * ys, x * ys + ys) by {
                assert(x * ys + ys <= xs * ys) by (nonlinear_arith)
                    requires
                        0 <= x < xs,
                        0 < ys,
                ;
                assert(columns@[x]@ == chunk_at(self.entities@, ys, x));
            }
        }
        columns
    }

    pub fn is_empty(&self, tile_id: TileId) -> (empty: bool)
        requires
            self.wf(),
            tile_id.0 < self.spec_size(),
        ensures
            empty == (self.entities()[tile_id.0 as int] is Empty),
    {
        self.entities.get(tile_id).is_empty()
    }

    /// The tiles on which nothing stands, in increasing order.
    pub fn empty_tiles(&self) -> (tile_ids: Vec<TileId>)
        requires
            self.wf(),
        ensures
            forall|i: int, j: int|
                0 <= i < j < tile_ids@.len() ==> (#[trigger] tile_ids@[i]).0 < (
                #[trigger] tile_ids@[j]).0,
            forall|i: int|
                0 <= i < tile_ids@.len() ==> (#[trigger] tile_ids@[i]).0 < self.spec_size()
                    && self.entities()[tile_ids@[i].0 as int] is Empty,
            forall|tile: int|
                0 <= tile < self.spec_size() && self.entities()[tile] is Empty
                    ==> tile_ids@.contains(TileId(tile as usize)),
    {
        let size = self.size();
        let mut tile_ids: Vec<TileId> = Vec::new();
        let mut index: usize = 0;
        while index < size
            invariant
                self.wf(),
                size == self.spec_size(),
                index <= size,
                forall|i: int, j: int|
                    0 <= i < j < tile_ids@.len() ==> (#[trigger] tile_ids@[i]).0 < (
                    #[trigger] tile_ids@[j]).0,
                forall|i: int|
                    0 <= i < tile_ids@.len() ==> (#[trigger] tile_ids@[i]).0 < index
                        && self.entities()[tile_ids@[i].0 as int] is Empty,
                forall|tile: int|
                    0 <= tile < index && self.entities()[tile] is Empty ==> tile_ids@.contains(
                        TileId(tile as usize),
                    ),
            decreases size - index,
        {
            let tile_id = TileId::from(index);
            if self.entities.get(tile_id).is_empty() {
                let ghost before = tile_ids@;
                tile_ids.push(tile_id);
                proof {
                    assert(tile_ids@[before.len() as int] == tile_id);
                    assert forall|tile: int|
                        0 <= tile < index + 1 && self.entities()[tile] is Empty implies tile_ids@.contains(
                        TileId(tile as usize),
                    ) by {
                        if tile < index {
                            let i = choose|i: int|
                                0 <= i < before.len() && before[i] == TileId(tile as usize);
                            assert(tile_ids@[i] == TileId(tile as usize));
                        }
                    }
                }
            }
            index = index + 1;
        }
        tile_ids
    }

    /// The change counter of `tile_id`.
    pub fn nonce(&self, tile_id: TileId) -> (nonce: usize)
        requires
            self.wf(),
            tile_id.0 < self.spec_size(),
        ensures
            nonce == self.nonces()[tile_id.0 as int],
    {
        *self.nonces.get(tile_id)
    }

    fn touch(&mut self, tile_id: TileId)
        requires
            old(self).wf(),
            tile_id.0 < old(self).spec_size(),
            old(self).can_touch(tile_id.0 as int),
        ensures
            final(self).wf(),
            final(self).spec_x_size() == old(self).spec_x_size(),
            final(self).spec_y_size() == old(self).spec_y_size(),
            final(self).entities() == old(self).entities(),
            final(self).nonces() == old(self).touched_nonces(tile_id.0 as int),
    {
        let ghost before = *self;
        let ghost touched = self.touched(tile_id.0 as int);
        let blob = *self.blobs.get(tile_id);
        proof {
            self.grid.lemma_size_bounded();
            assert(touched.len() == 13);
            assert(touched[0] == tile_id);
            assert forall|i: int| 0 <= i < 12 implies touched[i + 1] == blob.tile_ids@[i] by {}
            assert(touched.take(1) =~= seq![tile_id]);
            assert(touched.take(1).drop_last() =~= Seq::<TileId>::empty());
            lemma_occurrences_grow(touched, 1, tile_id);
            assert(touched.take(1).last() == tile_id);
            assert(occurrences(touched.take(1).drop_last(), tile_id) == 0);
            assert(occurrences(touched.take(1), tile_id) == 1);
            assert(before.nonces()[tile_id.0 as int] + occurrences(touched, tile_id) <= usize::MAX);
            assert forall|i: int| 0 <= i < 13 implies (#[trigger] touched[i]).0
                < before.spec_size() by {
                if i > 0 {
                    assert(touched[i] == blob.tile_ids@[i - 1]);
                    before.lemma_blob_in_range(tile_id.0 as int);
                }
            }
        }
        let bumped = *self.nonces.get(tile_id) + 1;
        self.nonces.set(tile_id, bumped);
        proof {
            assert forall|other: int| 0 <= other < before.nonces@.len() implies (
            #[trigger] self.nonces@[other]) == before.nonces@[other] + occurrences(
                touched.take(1),
                TileId(other as usize),
            ) by {
                assert(touched.take(1).last() == tile_id);
                assert(occurrences(touched.take(1).drop_last(), TileId(other as usize)) == 0);
            }
        }
        let mut index: usize = 0;
        while index < 12
            invariant
                index <= 12,
                before.wf(),
                before.can_touch(tile_id.0 as int),
                touched == before.touched(tile_id.0 as int),
                touched.len() == 13,
                forall|i: int| 0 <= i < 12 ==> touched[i + 1] == #[trigger] blob.tile_ids@[i],
                forall|i: int| 0 <= i < 13 ==> (#[trigger] touched[i]).0 < before.spec_size(),
                self.grid == before.grid,
                self.entities == before.entities,
                self.doublets == before.doublets,
                self.triplets_l == before.triplets_l,
                self.triplets_i == before.triplets_i,
                self.blobs == before.blobs,
                self.nonces@.len() == before.nonces@.len(),
                forall|other: int|
                    0 <= other < before.nonces@.len() ==> (#[trigger] self.nonces@[other])
                        == before.nonces@[other] + occurrences(
                        touched.take(index + 1),
                        TileId(other as usize),
                    ),
            decreases 12 - index,
        {
            let member = blob.tile_ids[index];
            proof {
                assert(touched.take(index + 2).drop_last() =~= touched.take(index + 1));
                assert(touched.take(index + 2).last() == member);
                assert(touched[index + 1] == member);
                lemma_occurrences_grow(touched, index + 2, member);
                assert(before.nonces()[member.0 as int] + occurrences(touched, member)
                    <= usize::MAX);
            }
            let bumped = *self.nonces.get(member) + 1;
            self.nonces.set(member, bumped);
            index = index + 1;
        }
        proof {
            assert(touched.take(13) =~= touched);
            assert(self.nonces@ =~= before.touched_nonces(tile_id.0 as int));
        }
    }

    /// Whether every counter can still go up `changes` times by as much
    /// as one change raises it.
    pub fn has_room(&self, changes: usize) -> (enough: bool)
        requires
            self.wf(),
        ensures
            enough == self.room(changes as int),
    {
        let size = self.size();
        proof {
            self.lemma_wf_lengths();
        }
        if size == 0 {
            return true;
        }
        if changes > usize::MAX / 13 {
            proof {
                assert(13 * changes > usize::MAX) by (nonlinear_arith)
                    requires
                        changes > usize::MAX / 13,
                ;
                assert(self.nonces()[0] + 13 * changes > usize::MAX);
            }
            return false;
        }
        assert(13 * changes <= usize::MAX) by (nonlinear_arith)
            requires
                changes <= usize::MAX / 13,
        ;
        let limit = usize::MAX - 13 * changes;
        let mut index: usize = 0;
        while index < size
            invariant
                self.wf(),
                size == self.spec_size(),
                self.nonces().len() == size,
                index <= size,
                limit == usize::MAX - 13 * changes,
                forall|tile: int| 0 <= tile < index ==> (#[trigger] self.nonces()[tile]) <= limit,
            decreases size - index,
        {
            if *self.nonces.get(TileId::from(index)) > limit {
                proof {
                    assert(self.nonces()[index as int] + 13 * changes > usize::MAX);
                }
                return false;
            }
            index = index + 1;
        }
        true
    }

    /// What stands on `tile_id`.
    pub fn entity(&self, tile_id: TileId) -> (entity: Entity)
        requires
            self.wf(),
            tile_id.0 < self.spec_size(),
        ensures
            entity == self.entities()[tile_id.0 as int],
    {
        *self.entities.get(tile_id)
    }

    /// Puts `new_entity` on `tile_id` and returns what stood there. If that
    /// is a change, the counters of the tile and of its blob go up.
    pub fn replace_entity(&mut self, tile_id: TileId, new_entity: Entity) -> (old_entity: Entity)
        requires
            old(self).wf(),
            tile_id.0 < old(self).spec_size(),
            old(self).entities()[tile_id.0 as int] != new_entity ==> old(self).can_touch(
                tile_id.0 as int,
            ),
        ensures
            final(self).wf(),
            final(self).spec_x_size() == old(self).spec_x_size(),
            final(self).spec_y_size() == old(self).spec_y_size(),
            old_entity == old(self).entities()[tile_id.0 as int],
            final(self).entities() == old(self).entities().update(tile_id.0 as int, new_entity),
            final(self).nonces() == if old_entity != new_entity {
                old(self).touched_nonces(tile_id.0 as int)
            } else {
                old(self).nonces()
            },
            forall|changes: int|
                changes >= 1 && #[trigger] old(self).room(changes) ==> final(self).room(changes - 1),
    {
        proof {
            assert forall|changes: int| changes >= 1 && #[trigger] old(self).room(changes) implies (
            forall|other: int|
                0 <= other < old(self).spec_size() ==> (#[trigger] old(self).touched_nonces(
                    tile_id.0 as int,
                )[other]) + 13 * (changes - 1) <= usize::MAX) && (forall|other: int|
                0 <= other < old(self).spec_size() ==> (#[trigger] old(self).nonces()[other]) + 13
                    * (changes - 1) <= usize::MAX) by {
                old(self).lemma_room(changes, tile_id.0 as int);
            }
        }
        let old_entity = *self.entities.get(tile_id);
        self.entities.set(tile_id, new_entity);
        if old_entity != new_entity {
            assert(self.nonces() == old(self).nonces());
            self.touch(tile_id)
        }
        old_entity
    }

    /// The pairs of `tile_id`.
    pub fn doublets(&self, tile_id: TileId) -> (doublets: &[Doublet; 4])
        requires
            self.wf(),
            tile_id.0 < self.spec_size(),
        ensures
            doublets@ == doublets_of(
                tile_id.0 as int,
                self.spec_x_size() as int,
                self.spec_y_size() as int,
            ),
            forall|i: int| 0 <= i < 4 ==> (#[trigger] doublets@[i]).0.0 < self.spec_size(),
    {
        proof {
            self.lemma_steps_in_range(tile_id.0 as int);
        }
        self.doublets.get(tile_id)
    }

    /// The bent triplets of `tile_id`.
    pub fn triplets_l(&self, tile_id: TileId) -> (triplets: &[TripletL; 8])
        requires
            self.wf(),
            tile_id.0 < self.spec_size(),
        ensures
            triplets@ == triplets_l_of(
                tile_id.0 as int,
                self.spec_x_size() as int,
                self.spec_y_size() as int,
            ),
            forall|i: int|
                0 <= i < 8 ==> (#[trigger] triplets@[i]).0.0 < self.spec_size() && triplets@[i].1.0
                    < self.spec_size(),
    {
        proof {
            self.lemma_steps_in_range(tile_id.0 as int);
        }
        self.triplets_l.get(tile_id)
    }

    /// The straight triplets of `tile_id`.
    pub fn triplets_i(&self, tile_id: TileId) -> (triplets: &[TripletI; 4])
        requires
            self.wf(),
            tile_id.0 < self.spec_size(),
        ensures
            triplets@ == triplets_i_of(
                tile_id.0 as int,
                self.spec_x_size() as int,
                self.spec_y_size() as int,
            ),
            forall|i: int|
                0 <= i < 4 ==> (#[trigger] triplets@[i]).0.0 < self.spec_size() && triplets@[i].1.0
                    < self.spec_size(),
    {
        proof {
            self.lemma_steps_in_range(tile_id.0 as int);
        }
        self.triplets_i.get(tile_id)
    }
}

/// A tile stands in a sequence at most as often as the sequence is long.
pub proof fn lemma_occurrences_bound(tiles: Seq<TileId>, tile: TileId)
    ensures
        occurrences(tiles, tile) <= tiles.len(),
    decreases tiles.len(),
{
    if tiles.len() > 0 {
        lemma_occurrences_bound(tiles.drop_last(), tile);
    }
}

/// A longer beginning of a sequence holds a tile at least as often as a shorter one.
pub proof fn lemma_occurrences_grow(tiles: Seq<TileId>, length: int, tile: TileId)
    requires
        0 <= length <= tiles.len(),
    ensures
        occurrences(tiles.take(length), tile) <= occurrences(tiles, tile),
    decreases tiles.len() - length,
{
    if length < tiles.len() {
        lemma_occurrences_grow(tiles, length + 1, tile);
        assert(tiles.take(length + 1).drop_last() =~= tiles.take(length));
    } else {
        assert(tiles.take(length) =~= tiles);
    }
}

} // verus!
