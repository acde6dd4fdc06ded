use crate::doublet::doublets_of;
use crate::doublet_fn::{doublet_index, DoubletFn};
use crate::entity::{Entity, GreedyEntity};
use crate::grid::Grid;
use crate::plants::PlantId;
use crate::singlet_fn::{singlet_index, SingletFn};
use crate::tiles::TileId;
use vstd::prelude::*;
use vstd::slice::slice_subrange;

verus! {

/// Whether the organism `plant_id`, with `points` left to spend, may take
/// the tile on which `entity` stands: never a cell of its own, an empty
/// tile always, and a cell of another organism only with more than one point.
pub open spec fn scorable(entity: Entity, plant_id: PlantId, points: usize) -> bool {
    match entity.greedy(plant_id) {
        GreedyEntity::Empty => true,
        GreedyEntity::MyCell(_) => false,
        GreedyEntity::OtherCell(_) => points > 1,
    }
}

/// What the organism `plant_id` sees on the tile `tile_id`.
pub open spec fn seen(entities: Seq<Entity>, plant_id: PlantId, tile_id: TileId) -> GreedyEntity {
    entities[tile_id.0 as int].greedy(plant_id)
}

/// The values that `mutator` makes of `values`, one after the other.
pub fn mutate_all<T: Copy>(values: &Vec<T>, mut mutator: impl FnMut(T) -> T) -> (mutated: Vec<T>)
    requires
        forall|value: T| call_requires(mutator, (value,)),
    ensures
        mutated@.len() == values@.len(),
        forall|i: int|
            0 <= i < values@.len() ==> call_ensures(mutator, (values@[i],), #[trigger] mutated@[i]),
{
    let mut mutated: Vec<T> = Vec::new();
    let mut index: usize = 0;
    let ghost given = mutator;
    while index < values.len()
        invariant
            index <= values@.len(),
            mutated@.len() == index,
            mutator == given,
            forall|value: T| call_requires(mutator, (value,)),
            forall|i: int|
                0 <= i < index ==> call_ensures(mutator, (values@[i],), #[trigger] mutated@[i]),
        decreases values@.len() - index,
    {
        let value = mutator(values[index]);
        mutated.push(value);
        index = index + 1;
    }
    mutated
}

/// A genome that rates a tile by itself and together with each of its four neighbours.
#[derive(Debug, Clone, Copy)]
pub struct DoubletGenome<T> {
    pub score_weight: T,
    pub singlet_fn: SingletFn<T>,
    pub doublet_fn: DoubletFn<T>,
}

impl<T: Copy> DoubletGenome<T> {
    /// The potentials that add up to the score of the tile `tile` for the
    /// organism `plant_id`: that of the tile, then that of the tile with
    /// each neighbour, up, right, down, left.
    pub open spec fn terms(
        &self,
        entities: Seq<Entity>,
        plant_id: PlantId,
        tile: int,
        x_size: int,
        y_size: int,
    ) -> Seq<T> {
        let entity_1 = entities[tile].greedy(plant_id);
        seq![self.singlet_fn@[singlet_index(entity_1)]] + Seq::new(
            4,
            |i: int|
                self.doublet_fn@[doublet_index(
                    entity_1,
                    seen(entities, plant_id, doublets_of(tile, x_size, y_size)[i].0),
                )],
        )
    }

    /// The genome with these potentials, taken as they are.
    pub fn new(score_weight: T, singlet_fn: SingletFn<T>, doublet_fn: DoubletFn<T>) -> (genome: Self)
        ensures
            genome.score_weight == score_weight,
            genome.singlet_fn == singlet_fn,
            genome.doublet_fn == doublet_fn,
    {
        DoubletGenome { score_weight, singlet_fn, doublet_fn }
    }

    pub fn score_weight(&self) -> (score_weight: T)
        ensures
            score_weight == self.score_weight,
    {
        self.score_weight
    }

    pub fn singlet_fn(&self) -> (singlet_fn: &SingletFn<T>)
        ensures
            *singlet_fn == self.singlet_fn,
    {
        &self.singlet_fn
    }

    pub fn doublet_fn(&self) -> (doublet_fn: &DoubletFn<T>)
        ensures
            *doublet_fn == self.doublet_fn,
    {
        &self.doublet_fn
    }

    /// The genome with the weight `score_weight` in which `mutator` has
    /// changed every potential, first those of the tile by itself, then
    /// those with a neighbour.
    pub fn mutate(&self, score_weight: T, mutator: impl FnMut(T) -> T) -> (genome: Self)
        requires
            forall|value: T| call_requires(mutator, (value,)),
        ensures
            genome.score_weight == score_weight,
            forall|i: int|
                0 <= i < 8 ==> call_ensures(
                    mutator,
                    ((self.singlet_fn@ + self.doublet_fn@)[i],),
                    #[trigger] (genome.singlet_fn@ + genome.doublet_fn@)[i],
                ),
    {
        let values = self.values();
        let mutated = mutate_all(&values, mutator);
        let changed = mutated.as_slice();
        let singlet_fn = SingletFn::from_slice(slice_subrange(changed, 0, 2));
        let doublet_fn = DoubletFn::from_slice(slice_subrange(changed, 2, 8));
        assert(singlet_fn@ + doublet_fn@ =~= mutated@);
        DoubletGenome { score_weight, singlet_fn, doublet_fn }
    }

    /// All potentials: those of the tile by itself, then those with a neighbour.
    pub fn values(&self) -> (values: Vec<T>)
        ensures
            values@ == self.singlet_fn@ + self.doublet_fn@,
    {
        let mut values = self.singlet_fn.values();
        let mut doublets = self.doublet_fn.values();
        values.append(&mut doublets);
        values
    }

    /// The potentials that add up to the score of `tile_id` for the
    /// organism `plant_id` with `points` left to spend, in the order in
    /// which they are added; none if the organism may not take the tile.
    pub fn score(&self, plant_id: PlantId, tile_id: TileId, points: usize, grid: &Grid) -> (terms:
        Option<Vec<T>>)
        requires
            grid.wf(),
            tile_id.0 < grid.spec_size(),
        ensures
            terms is Some <==> scorable(grid.entities()[tile_id.0 as int], plant_id, points),
            terms is Some ==> terms->0@ == self.terms(
                grid.entities(),
                plant_id,
                tile_id.0 as int,
                grid.spec_x_size() as int,
                grid.spec_y_size() as int,
            ),
    {
        let entity_1 = grid.entity(tile_id).into_greedy(plant_id);
        match entity_1 {
            GreedyEntity::Empty => {},
            GreedyEntity::MyCell(_) => {
                return None;
            },
            GreedyEntity::OtherCell(_) => {
                if points <= 1 {
                    return None;
                }
            },
        }
        let mut terms: Vec<T> = Vec::new();
        terms.push(self.singlet_fn().score(entity_1));
        let doublets = grid.doublets(tile_id);
        let ghost wanted = self.terms(
            grid.entities(),
            plant_id,
            tile_id.0 as int,
            grid.spec_x_size() as int,
            grid.spec_y_size() as int,
        );
        let mut index: usize = 0;
        while index < 4
            invariant
                grid.wf(),
                index <= 4,
                !(entity_1 is MyCell),
                entity_1 == grid.entities()[tile_id.0 as int].greedy(plant_id),
                doublets@ == doublets_of(
                    tile_id.0 as int,
                    grid.spec_x_size() as int,
                    grid.spec_y_size() as int,
                ),
                forall|i: int| 0 <= i < 4 ==> (#[trigger] doublets@[i]).0.0 < grid.spec_size(),
                wanted == self.terms(
                    grid.entities(),
                    plant_id,
                    tile_id.0 as int,
                    grid.spec_x_size() as int,
                    grid.spec_y_size() as int,
                ),
                terms@ == wanted.take(1 + index),
            decreases 4 - index,
        {
            let doublet = doublets[index];
            let tile_id_2 = doublet.j();
            let entity_2 = grid.entity(tile_id_2).into_greedy(plant_id);
            terms.push(self.doublet_fn().score(entity_1, entity_2));
            assert(terms@ =~= wanted.take(2 + index));
            index = index + 1;
        }
        assert(terms@ =~= wanted);
        Some(terms)
    }
}

} // verus!
