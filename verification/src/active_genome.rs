use crate::entity::Entity;
use crate::genome::GenomeKind;
use crate::genomes::doublet_genome::scorable;
use crate::genomes::GenomeId;
use crate::grid::Grid;
use crate::plants::PlantId;
use crate::tiles::TileId;
use vstd::prelude::*;

verus! {

/// The record of a genome that living organisms carry.
#[derive(Debug, Clone, Copy)]
pub struct ActiveGenome<T> {
    pub id: GenomeId,
    pub genome: GenomeKind<T>,
    pub num_plants: usize,
    pub max_yield: usize,
    pub created_at: usize,
    pub parent_genome_id: Option<GenomeId>,
}

/// Those of `tiles` that the organism `plant_id` may take with `points`
/// left to spend, in their order.
pub open spec fn takeable(
    tiles: Seq<TileId>,
    entities: Seq<Entity>,
    plant_id: PlantId,
    points: usize,
) -> Seq<TileId>
    decreases tiles.len(),
{
    if tiles.len() == 0 {
        Seq::<TileId>::empty()
    } else {
        let before = takeable(tiles.drop_last(), entities, plant_id, points);
        if scorable(entities[tiles.last().0 as int], plant_id, points) {
            before.push(tiles.last())
        } else {
            before
        }
    }
}

impl<T: Copy> ActiveGenome<T> {
    /// The record of a genome that no organism carries yet.
    pub fn new(
        id: GenomeId,
        genome: GenomeKind<T>,
        parent_genome_id: Option<GenomeId>,
        created_at: usize,
    ) -> (record: Self)
        ensures
            record == (ActiveGenome {
                id,
                genome,
                num_plants: 0,
                max_yield: 0,
                created_at,
                parent_genome_id,
            }),
    {
        ActiveGenome { id, genome, num_plants: 0, max_yield: 0, created_at, parent_genome_id }
    }

    /// A genome with the weight `score_weight` in which `mutator` has
    /// changed every potential, one after the other.
    pub fn mutate(&self, score_weight: T, mutator: impl FnMut(T) -> T) -> (genome: GenomeKind<T>)
        requires
            forall|value: T| call_requires(mutator, (value,)),
        ensures
            genome is DoubletGenome <==> self.genome is DoubletGenome,
            genome.weight() == score_weight,
            genome.potentials().len() == self.genome.potentials().len(),
            forall|i: int|
                0 <= i < self.genome.potentials().len() ==> call_ensures(
                    mutator,
                    (self.genome.potentials()[i],),
                    #[trigger] genome.potentials()[i],
                ),
    {
        self.genome.mutate(score_weight, mutator)
    }

    /// Counts one more organism that carries the genome.
    pub fn increment(&mut self) -> (num_plants: usize)
        requires
            old(self).num_plants < usize::MAX,
        ensures
            num_plants == old(self).num_plants + 1,
            *final(self) == (ActiveGenome { num_plants, ..*old(self) }),
    {
        self.num_plants = self.num_plants + 1;
        self.num_plants
    }

    /// Counts one organism less that carries the genome.
    pub fn decrement(&mut self) -> (num_plants: usize)
        requires
            old(self).num_plants > 0,
        ensures
            num_plants == old(self).num_plants - 1,
            *final(self) == (ActiveGenome { num_plants, ..*old(self) }),
    {
        self.num_plants = self.num_plants - 1;
        self.num_plants
    }

    /// Keeps `max_yield` if it is more than any yield seen before.
    pub fn set_max_yield(&mut self, max_yield: usize)
        ensures
            *final(self) == (ActiveGenome {
                max_yield: if max_yield > old(self).max_yield {
                    max_yield
                } else {
                    old(self).max_yield
                },
                ..*old(self)
            }),
    {
        if max_yield > self.max_yield {
            self.max_yield = max_yield;
        }
    }

    /// Those of `available_tiles` that the organism `plant_id` may take
    /// with `points` left to spend, in their order, each with the
    /// potentials that add up to its score. With no points left there are none.
    pub fn candidates(
        &self,
        grid: &Grid,
        available_tiles: &[TileId],
        plant_id: PlantId,
        points: usize,
    ) -> (scores: Vec<(TileId, Vec<T>)>)
        requires
            grid.wf(),
            forall|i: int|
                0 <= i < available_tiles@.len() ==> (#[trigger] available_tiles@[i]).0
                    < grid.spec_size(),
        ensures
            points == 0 ==> scores@.len() == 0,
            points > 0 ==> scores@.len() == takeable(
                available_tiles@,
                grid.entities(),
                plant_id,
                points,
            ).len(),
            points > 0 ==> forall|i: int|
                0 <= i < scores@.len() ==> (#[trigger] scores@[i]).0 == takeable(
                    available_tiles@,
                    grid.entities(),
                    plant_id,
                    points,
                )[i] && scores@[i].1@ == self.genome.terms(
                    grid.entities(),
                    plant_id,
                    scores@[i].0.0 as int,
                    grid.spec_x_size() as int,
                    grid.spec_y_size() as int,
                ),
    {
        let mut scores: Vec<(TileId, Vec<T>)> = Vec::new();
        if points == 0 {
            return scores;
        }
        let mut index: usize = 0;
        assert(available_tiles@.take(0) =~= Seq::<TileId>::empty());
        while index < available_tiles.len()
            invariant
                grid.wf(),
                index <= available_tiles@.len(),
                forall|i: int|
                    0 <= i < available_tiles@.len() ==> (#[trigger] available_tiles@[i]).0
                        < grid.spec_size(),
                scores@.len() == takeable(
                    available_tiles@.take(index as int),
                    grid.entities(),
                    plant_id,
                    points,
                ).len(),
                forall|i: int|
                    0 <= i < scores@.len() ==> (#[trigger] scores@[i]).0 == takeable(
                        available_tiles@.take(index as int),
                        grid.entities(),
                        plant_id,
                        points,
                    )[i] && scores@[i].1@ == self.genome.terms(
                        grid.entities(),
                        plant_id,
                        scores@[i].0.0 as int,
                        grid.spec_x_size() as int,
                        grid.spec_y_size() as int,
                    ),
            decreases available_tiles@.len() - index,
        {
            let tile_id = available_tiles[index];
            proof {
                assert(available_tiles@.take(index + 1).drop_last() =~= available_tiles@.take(
                    index as int,
                ));
                assert(available_tiles@.take(index + 1).last() == tile_id);
            }
            match self.score(plant_id, grid, tile_id, points) {
                Some(terms) => {
                    scores.push((tile_id, terms));
                },
                None => {},
            }
            index = index + 1;
        }
        assert(available_tiles@.take(index as int) =~= available_tiles@);
        scores
    }

    /// The potentials that add up to the score of `tile_id` for the
    /// organism `plant_id` with `points` left to spend, in the order in
    /// which they are added; none if the organism may not take the tile.
    pub fn score(&self, plant_id: PlantId, grid: &Grid, tile_id: TileId, points: usize) -> (terms:
        Option<Vec<T>>)
        requires
            grid.wf(),
            tile_id.0 < grid.spec_size(),
        ensures
            terms is Some <==> scorable(grid.entities()[tile_id.0 as int], plant_id, points),
            terms is Some ==> terms->0@ == self.genome.terms(
                grid.entities(),
                plant_id,
                tile_id.0 as int,
                grid.spec_x_size() as int,
                grid.spec_y_size() as int,
            ),
    {
        self.genome.score(plant_id, tile_id, points, grid)
    }

    pub fn genome(&self) -> (genome: &GenomeKind<T>)
        ensures
            *genome == self.genome,
    {
        &self.genome
    }

    pub fn max_yield(&self) -> (max_yield: usize)
        ensures
            max_yield == self.max_yield,
    {
        self.max_yield
    }

    pub fn created_at(&self) -> (created_at: usize)
        ensures
            created_at == self.created_at,
    {
        self.created_at
    }

    pub fn parent_genome_id(&self) -> (parent_genome_id: Option<GenomeId>)
        ensures
            parent_genome_id == self.parent_genome_id,
    {
        self.parent_genome_id
    }
}

} // verus!
