use crate::doublet::doublets_of;
use crate::doublet_fn::{doublet_index, DoubletFn};
use crate::entity::{Entity, GreedyEntity};
use crate::genomes::doublet_genome::{mutate_all, scorable, seen};
use crate::grid::Grid;
use crate::plants::PlantId;
use crate::singlet_fn::{singlet_index, SingletFn};
use crate::tiles::TileId;
use crate::triplet_fn::{triplet_index, TripletFn};
use crate::triplet_i::triplets_i_of;
use crate::triplet_l::triplets_l_of;
use vstd::prelude::*;
use vstd::slice::slice_subrange;

verus! {

/// A genome that rates a tile by itself, together with each of its four
/// neighbours, and together with each of its bent and straight triplets.
#[derive(Debug, Clone, Copy)]
pub struct TripletGenome<T> {
    pub score_weight: T,
    pub singlet_fn: SingletFn<T>,
    pub doublet_fn: DoubletFn<T>,
    pub triplet_l_fn: TripletFn<T>,
    pub triplet_i_fn: TripletFn<T>,
}

impl<T: Copy> TripletGenome<T> {
    /// The potentials that add up to the score of the tile `tile` for the
    /// organism `plant_id`: that of the tile, then those of the tile with
    /// each neighbour, with each bent triplet and with each straight triplet.
    pub open spec fn terms(
        &self,
        entities: Seq<Entity>,
        plant_id: PlantId,
        tile: int,
        x_size: int,
        y_size: int,
    ) -> Seq<T> {
        let entity_1 = entities[tile].greedy(plant_id);
        seq![self.singlet_fn@[singlet_index(entity_1)]] + Seq::new(
            4,
            |i: int|
                self.doublet_fn@[doublet_index(
                    entity_1,
                    seen(entities, plant_id, doublets_of(tile, x_size, y_size)[i].0),
                )],
        ) + Seq::new(
            8,
            |i: int|
                self.triplet_l_fn@[triplet_index(
                    entity_1,
                    seen(entities, plant_id, triplets_l_of(tile, x_size, y_size)[i].0),
                    seen(entities, plant_id, triplets_l_of(tile, x_size, y_size)[i].1),
                )],
        ) + Seq::new(
            4,
            |i: int|
                self.triplet_i_fn@[triplet_index(
                    entity_1,
                    seen(entities, plant_id, triplets_i_of(tile, x_size, y_size)[i].0),
                    seen(entities, plant_id, triplets_i_of(tile, x_size, y_size)[i].1),
                )],
        )
    }

    /// The genome with these potentials, taken as they are.
    pub fn new(
        score_weight: T,
        singlet_fn: SingletFn<T>,
        doublet_fn: DoubletFn<T>,
        triplet_l_fn: TripletFn<T>,
        triplet_i_fn: TripletFn<T>,
    ) -> (genome: Self)
        ensures
            genome.score_weight == score_weight,
            genome.singlet_fn == singlet_fn,
            genome.doublet_fn == doublet_fn,
            genome.triplet_l_fn == triplet_l_fn,
            genome.triplet_i_fn == triplet_i_fn,
    {
        TripletGenome { score_weight, singlet_fn, doublet_fn, triplet_l_fn, triplet_i_fn }
    }

    pub fn score_weight(&self) -> (score_weight: T)
        ensures
            score_weight == self.score_weight,
    {
        self.score_weight
    }

    pub fn singlet_fn(&self) -> (singlet_fn: &SingletFn<T>)
        ensures
            *singlet_fn == self.singlet_fn,
    {
        &self.singlet_fn
    }

    pub fn doublet_fn(&self) -> (doublet_fn: &DoubletFn<T>)
        ensures
            *doublet_fn == self.doublet_fn,
    {
        &self.doublet_fn
    }

    pub fn triplet_l_fn(&self) -> (triplet_l_fn: &TripletFn<T>)
        ensures
            *triplet_l_fn == self.triplet_l_fn,
    {
        &self.triplet_l_fn
    }

    pub fn triplet_i_fn(&self) -> (triplet_i_fn: &TripletFn<T>)
        ensures
            *triplet_i_fn == self.triplet_i_fn,
    {
        &self.triplet_i_fn
    }

    /// The genome with the weight `score_weight` in which `mutator` has
    /// changed every potential, table by table in the order of the fields.
    pub fn mutate(&self, score_weight: T, mutator: impl FnMut(T) -> T) -> (genome: Self)
        requires
            forall|value: T| call_requires(mutator, (value,)),
        ensures
            genome.score_weight == score_weight,
            forall|i: int|
                0 <= i < 44 ==> call_ensures(
                    mutator,
                    ((self.singlet_fn@ + self.doublet_fn@ + self.triplet_l_fn@ + self.triplet_i_fn@)[i],),
                    #[trigger] (genome.singlet_fn@ + genome.doublet_fn@ + genome.triplet_l_fn@
                        + genome.triplet_i_fn@)[i],
                ),
    {
        let values = self.values();
        let mutated = mutate_all(&values, mutator);
        let changed = mutated.as_slice();
        let singlet_fn = SingletFn::from_slice(slice_subrange(changed, 0, 2));
        let doublet_fn = DoubletFn::from_slice(slice_subrange(changed, 2, 8));
        let triplet_l_fn = TripletFn::from_slice(slice_subrange(changed, 8, 26));
        let triplet_i_fn = TripletFn::from_slice(slice_subrange(changed, 26, 44));
        assert(singlet_fn@ + doublet_fn@ + triplet_l_fn@ + triplet_i_fn@ =~= mutated@);
        TripletGenome { score_weight, singlet_fn, doublet_fn, triplet_l_fn, triplet_i_fn }
    }

    /// All potentials, table by table in the order of the fields.
    pub fn values(&self) -> (values: Vec<T>)
        ensures
            values@ == self.singlet_fn@ + self.doublet_fn@ + self.triplet_l_fn@ + self.triplet_i_fn@,
    {
        let mut values = self.singlet_fn.values();
        let mut doublets = self.doublet_fn.values();
        let mut triplets_l = self.triplet_l_fn.values();
        let mut triplets_i = self.triplet_i_fn.values();
        values.append(&mut doublets);
        values.append(&mut triplets_l);
        values.append(&mut triplets_i);
        values
    }

    /// The potentials that add up to the score of `tile_id` for the
    /// organism `plant_id` with `points` left to spend, in the order in
    /// which they are added; none if the organism may not take the tile.
    pub fn score(&self, plant_id: PlantId, grid: &Grid, tile_id: TileId, points: usize) -> (terms:
        Option<Vec<T>>)
        requires
            grid.wf(),
            tile_id.0 < grid.spec_size(),
        ensures
            terms is Some <==> scorable(grid.entities()[tile_id.0 as int], plant_id, points),
            terms is Some ==> terms->0@ == self.terms(
                grid.entities(),
                plant_id,
                tile_id.0 as int,
                grid.spec_x_size() as int,
                grid.spec_y_size() as int,
            ),
    {
        let entity_1 = grid.entity(tile_id).into_greedy(plant_id);
        match entity_1 {
            GreedyEntity::Empty => {},
            GreedyEntity::MyCell(_) => {
                return None;
            },
            GreedyEntity::OtherCell(_) => {
                if points <= 1 {
                    return None;
                }
            },
        }
        let ghost xs = grid.spec_x_size() as int;
        let ghost ys = grid.spec_y_size() as int;
        let ghost wanted = self.terms(grid.entities(), plant_id, tile_id.0 as int, xs, ys);
        let mut terms: Vec<T> = Vec::new();
        terms.push(self.singlet_fn().score(entity_1));
        let doublets = grid.doublets(tile_id);
        let mut index: usize = 0;
        while index < 4
            invariant
                grid.wf(),
                index <= 4,
                !(entity_1 is MyCell),
                entity_1 == grid.entities()[tile_id.0 as int].greedy(plant_id),
                doublets@ == doublets_of(tile_id.0 as int, xs, ys),
                forall|i: int| 0 <= i < 4 ==> (#[trigger] doublets@[i]).0.0 < grid.spec_size(),
                wanted == self.terms(grid.entities(), plant_id, tile_id.0 as int, xs, ys),
                terms@ == wanted.take(1 + index),
            decreases 4 - index,
        {
            let doublet = doublets[index];
            let tile_id_2 = doublet.j();
            let entity_2 = grid.entity(tile_id_2).into_greedy(plant_id);
            terms.push(self.doublet_fn().score(entity_1, entity_2));
            assert(terms@ =~= wanted.take(2 + index));
            index = index + 1;
        }
        let triplets_l = grid.triplets_l(tile_id);
        let mut index: usize = 0;
        while index < 8
            invariant
                grid.wf(),
                index <= 8,
                !(entity_1 is MyCell),
                entity_1 == grid.entities()[tile_id.0 as int].greedy(plant_id),
                triplets_l@ == triplets_l_of(tile_id.0 as int, xs, ys),
                forall|i: int|
                    0 <= i < 8 ==> (#[trigger] triplets_l@[i]).0.0 < grid.spec_size()
                        && triplets_l@[i].1.0 < grid.spec_size(),
                wanted == self.terms(grid.entities(), plant_id, tile_id.0 as int, xs, ys),
                terms@ == wanted.take(5 + index),
            decreases 8 - index,
        {
            let triplet = triplets_l[index];
            let tile_id_2 = triplet.j();
            let tile_id_3 = triplet.k();
            let entity_2 = grid.entity(tile_id_2).into_greedy(plant_id);
            let entity_3 = grid.entity(tile_id_3).into_greedy(plant_id);
            terms.push(self.triplet_l_fn().score(entity_1, entity_2, entity_3));
            assert(terms@ =~= wanted.take(6 + index));
            index = index + 1;
        }
        let triplets_i = grid.triplets_i(tile_id);
        let mut index: usize = 0;
        while index < 4
            invariant
                grid.wf(),
                index <= 4,
                !(entity_1 is MyCell),
                entity_1 == grid.entities()[tile_id.0 as int].greedy(plant_id),
                triplets_i@ == triplets_i_of(tile_id.0 as int, xs, ys),
                forall|i: int|
                    0 <= i < 4 ==> (#[trigger] triplets_i@[i]).0.0 < grid.spec_size()
                        && triplets_i@[i].1.0 < grid.spec_size(),
                wanted == self.terms(grid.entities(), plant_id, tile_id.0 as int, xs, ys),
                terms@ == wanted.take(13 + index),
            decreases 4 - index,
        {
            let triplet = triplets_i[index];
            let tile_id_2 = triplet.j();
            let tile_id_3 = triplet.k();
            let entity_2 = grid.entity(tile_id_2).into_greedy(plant_id);
            let entity_3 = grid.entity(tile_id_3).into_greedy(plant_id);
            terms.push(self.triplet_i_fn().score(entity_1, entity_2, entity_3));
            assert(terms@ =~= wanted.take(14 + index));
            index = index + 1;
        }
        assert(terms@ =~= wanted);
        Some(terms)
    }
}

} // verus!
