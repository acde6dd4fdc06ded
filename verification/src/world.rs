use crate::active_genome::ActiveGenome;
use crate::active_plant::{budget_of, energy_yield_of, ActivePlant};
use crate::cell_kind::CellKind;
use crate::connectivity::lemma_tiles_len;
use crate::either::Either;
use crate::entity::Entity;
use crate::genome::GenomeKind;
use crate::genomes::doublet_genome::scorable;
use crate::genomes::GenomeId;
use crate::grid::Grid;
use crate::inactive_genome::InactiveGenome;
use crate::inactive_plant::InactivePlant;
use crate::organisms::{without, Organisms};
use crate::plants::PlantId;
use crate::ranking::top_places;
use crate::score_cache::{memo_key, MemoKey, ScoreCache};
use crate::simple_graph::torus_surface;
use crate::tiles::TileId;
use vstd::prelude::*;

verus! {

/// What an organism does when its turn comes in a round.
#[derive(Debug, Clone, Copy, PartialEq, Eq, Structural)]
pub enum Turn {
    /// It grows, with this many energy points to spend.
    Grow(usize),
    /// It dies.
    Die,
}

/// What becomes of a tile that a dying organism leaves.
#[derive(Debug, Clone, Copy)]
pub enum Seed<T> {
    /// Nothing grows on it.
    Barren,
    /// An organism with the genome of the dying one grows on it.
    Scion,
    /// An organism with this genome, made from that of the dying one, grows on it.
    Mutant(GenomeKind<T>),
}

/// The number of seeds among the first `upto` of `sowing` from which an organism grows.
pub open spec fn sprouts<T>(sowing: Seq<(TileId, Seed<T>)>, upto: int) -> nat
    decreases upto,
{
    if upto <= 0 {
        0
    } else {
        sprouts(sowing, upto - 1) + if sowing[upto - 1].1 is Barren {
            0nat
        } else {
            1nat
        }
    }
}

/// The number of seeds among the first `upto` of `sowing` that bring a genome of their own.
pub open spec fn mutants<T>(sowing: Seq<(TileId, Seed<T>)>, upto: int) -> nat
    decreases upto,
{
    if upto <= 0 {
        0
    } else {
        mutants(sowing, upto - 1) + if sowing[upto - 1].1 is Mutant {
            1nat
        } else {
            0nat
        }
    }
}

/// No more organisms grow than there are seeds.
pub proof fn lemma_sprouts_bound<T>(sowing: Seq<(TileId, Seed<T>)>, upto: int)
    requires
        0 <= upto,
    ensures
        mutants(sowing, upto) <= sprouts(sowing, upto) <= upto,
    decreases upto,
{
    if upto > 0 {
        lemma_sprouts_bound(sowing, upto - 1);
    }
}

/// Two records of a genome agree, or both are of the active genome with
/// the same handle, potentials, round of making and parent.
pub open spec fn same_lineage<T>(
    one: Either<ActiveGenome<T>, InactiveGenome<T>>,
    other: Either<ActiveGenome<T>, InactiveGenome<T>>,
) -> bool {
    one == other || (one is Living && other is Living && one->Living_0.id == other->Living_0.id
        && one->Living_0.genome == other->Living_0.genome && one->Living_0.created_at
        == other->Living_0.created_at && one->Living_0.parent_genome_id
        == other->Living_0.parent_genome_id)
}

/// The record `later` is the record `earlier` of an active genome, archived
/// in the round `round`.
pub open spec fn archived_in<T>(
    later: Either<ActiveGenome<T>, InactiveGenome<T>>,
    earlier: Either<ActiveGenome<T>, InactiveGenome<T>>,
    round: usize,
) -> bool {
    earlier is Living && later is Dead && later->Dead_0.id == earlier->Living_0.id
        && later->Dead_0.genome == earlier->Living_0.genome && later->Dead_0.created_at
        == earlier->Living_0.created_at && later->Dead_0.parent_genome_id
        == earlier->Living_0.parent_genome_id && later->Dead_0.died_at == round
}

/// The tile of the seed at the place `i` of `sowing`.
pub open spec fn seed_tile<T>(sowing: Seq<(TileId, Seed<T>)>, i: int) -> int {
    sowing[i].0.0 as int
}

/// The seed at the place `i` of `sowing`.
pub open spec fn seed_at<T>(sowing: Seq<(TileId, Seed<T>)>, i: int) -> Seed<T> {
    sowing[i].1
}

/// A seed of `sowing` is given for the tile `tile`.
pub open spec fn seeded<T>(sowing: Seq<(TileId, Seed<T>)>, tile: int) -> bool {
    exists|i: int| 0 <= i < sowing.len() && #[trigger] seed_tile(sowing, i) == tile
}

/// No two seeds of `sowing` are given for the same tile.
pub open spec fn distinct_tiles<T>(sowing: Seq<(TileId, Seed<T>)>) -> bool {
    forall|i: int, j: int|
        0 <= i < j < sowing.len() ==> #[trigger] seed_tile(sowing, i) != #[trigger] seed_tile(
            sowing,
            j,
        )
}

/// The field `entities` with the tiles of `cells` cleared.
pub open spec fn vacated(entities: Seq<Entity>, cells: Set<usize>) -> Seq<Entity> {
    Seq::new(
        entities.len(),
        |tile: int|
            if cells.contains(tile as usize) {
                Entity::Empty
            } else {
                entities[tile]
            },
    )
}

/// The energy that the organism `plant_id` draws in one round on the torus
/// of `x_size` by `y_size` tiles, once it stands on the tile `tile` of the
/// field `entities` and has no other cell.
pub open spec fn first_yield(
    entities: Seq<Entity>,
    tile: int,
    plant_id: PlantId,
    x_size: int,
    y_size: int,
) -> nat {
    energy_yield_of(
        Set::<usize>::empty().insert(tile as usize),
        entities.update(tile, Entity::Cell(plant_id, CellKind::Branch)),
        x_size,
        y_size,
    )
}

/// The records of the genomes once one more organism carries the active
/// genome `genome_id`, an organism that draws `energy_yield`: the genome
/// keeps the larger yield.
pub open spec fn carrier_added<T>(
    records: Seq<Either<ActiveGenome<T>, InactiveGenome<T>>>,
    genome_id: GenomeId,
    energy_yield: usize,
) -> Seq<Either<ActiveGenome<T>, InactiveGenome<T>>> {
    let genome = records[genome_id.0 as int]->Living_0;
    records.update(
        genome_id.0 as int,
        Either::Living(
            ActiveGenome {
                num_plants: (genome.num_plants + 1) as usize,
                max_yield: if energy_yield > genome.max_yield {
                    energy_yield
                } else {
                    genome.max_yield
                },
                ..genome
            },
        ),
    )
}

/// The records of the genomes once `seed` has been sown for a dying
/// organism with the genome `genome_id` in the round `round`, where what
/// grows from the seed draws `energy_yield`: a scion is one more carrier of
/// that genome, which keeps the larger yield; a mutant brings a record of
/// its own.
pub open spec fn records_sown<T>(
    records: Seq<Either<ActiveGenome<T>, InactiveGenome<T>>>,
    genome_id: GenomeId,
    round: usize,
    seed: Seed<T>,
    energy_yield: usize,
) -> Seq<Either<ActiveGenome<T>, InactiveGenome<T>>> {
    match seed {
        Seed::Barren => records,
        Seed::Scion => carrier_added(records, genome_id, energy_yield),
        Seed::Mutant(genome) => records.push(
            Either::Living(
                ActiveGenome {
                    id: GenomeId(records.len() as usize),
                    genome,
                    num_plants: 1,
                    max_yield: energy_yield,
                    created_at: round,
                    parent_genome_id: Some(genome_id),
                },
            ),
        ),
    }
}

/// The records of the genomes once an organism with the genome `genome_id`
/// has died in the round `round`: the genome has one carrier less, or is
/// archived if that was its last.
pub open spec fn records_retired<T>(
    records: Seq<Either<ActiveGenome<T>, InactiveGenome<T>>>,
    genome_id: GenomeId,
    round: usize,
) -> Seq<Either<ActiveGenome<T>, InactiveGenome<T>>> {
    let genome = records[genome_id.0 as int]->Living_0;
    records.update(
        genome_id.0 as int,
        if genome.num_plants == 1 {
            Either::Dead(
                InactiveGenome {
                    id: genome.id,
                    genome: genome.genome,
                    max_yield: genome.max_yield,
                    created_at: genome.created_at,
                    died_at: round,
                    parent_genome_id: genome.parent_genome_id,
                },
            )
        } else {
            Either::Living(ActiveGenome { num_plants: (genome.num_plants - 1) as usize, ..genome })
        },
    )
}

/// The field once the first `upto` seeds of `sowing` have been sown on the
/// field `cleared`, in a world that had `plants` organisms before.
pub open spec fn field_sown<T: Copy>(
    cleared: Seq<Entity>,
    plants: nat,
    sowing: Seq<(TileId, Seed<T>)>,
    upto: int,
) -> Seq<Entity>
    decreases upto,
{
    if upto <= 0 {
        cleared
    } else {
        field_sown(cleared, plants, sowing, upto - 1).update(
            seed_tile(sowing, upto - 1),
            World::<T>::sown(plants, sowing, upto - 1),
        )
    }
}

/// The records of the genomes once the first `upto` seeds of `sowing` have
/// been sown, one after the other, on the field `cleared` of `x_size` by
/// `y_size` tiles for a dying organism with the genome `genome_id`, in a
/// world that had `plants` organisms and the records `records` before.
pub open spec fn genomes_sown<T: Copy>(
    records: Seq<Either<ActiveGenome<T>, InactiveGenome<T>>>,
    genome_id: GenomeId,
    round: usize,
    cleared: Seq<Entity>,
    plants: nat,
    sowing: Seq<(TileId, Seed<T>)>,
    upto: int,
    x_size: int,
    y_size: int,
) -> Seq<Either<ActiveGenome<T>, InactiveGenome<T>>>
    decreases upto,
{
    if upto <= 0 {
        records
    } else {
        records_sown(
            genomes_sown(
                records,
                genome_id,
                round,
                cleared,
                plants,
                sowing,
                upto - 1,
                x_size,
                y_size,
            ),
            genome_id,
            round,
            sowing[upto - 1].1,
            first_yield(
                field_sown(cleared, plants, sowing, upto - 1),
                seed_tile(sowing, upto - 1),
                World::<T>::sprout_id(plants, sowing, upto - 1),
                x_size,
                y_size,
            ) as usize,
        )
    }
}

/// The handles of the organisms that grow from the first `upto` seeds of
/// `sowing`, in the order of the seeds, in a world that had `plants`
/// organisms before.
pub open spec fn sprout_ids<T: Copy>(plants: nat, sowing: Seq<(TileId, Seed<T>)>, upto: int) -> Seq<
    PlantId,
>
    decreases upto,
{
    if upto <= 0 {
        Seq::empty()
    } else if sowing[upto - 1].1 is Barren {
        sprout_ids(plants, sowing, upto - 1)
    } else {
        sprout_ids(plants, sowing, upto - 1).push(World::<T>::sprout_id(plants, sowing, upto - 1))
    }
}

/// The handles of the genomes that the first `upto` seeds of `sowing`
/// bring, in the order of the seeds, in a world that had `genomes` genomes
/// before.
pub open spec fn mutant_ids<T>(genomes: nat, sowing: Seq<(TileId, Seed<T>)>, upto: int) -> Seq<
    GenomeId,
>
    decreases upto,
{
    if upto <= 0 {
        Seq::empty()
    } else if sowing[upto - 1].1 is Mutant {
        mutant_ids(genomes, sowing, upto - 1).push(
            GenomeId((genomes + mutants(sowing, upto - 1)) as usize),
        )
    } else {
        mutant_ids(genomes, sowing, upto - 1)
    }
}

/// The played field with the organisms on it.
#[derive(Debug)]
pub struct World<T> {
    take_top: usize,
    seed_rate: T,
    mutation_rate: T,
    grid: Grid,
    organisms: Organisms<T>,
    score_cache: ScoreCache<T>,
}

impl<T: Copy> World<T> {
    /// The field.
    pub closed spec fn grid(&self) -> Grid {
        self.grid
    }

    /// The organisms and their genomes.
    pub closed spec fn organisms(&self) -> Organisms<T> {
        self.organisms
    }

    pub closed spec fn spec_take_top(&self) -> usize {
        self.take_top
    }

    pub closed spec fn spec_seed_rate(&self) -> T {
        self.seed_rate
    }

    pub closed spec fn spec_mutation_rate(&self) -> T {
        self.mutation_rate
    }

    /// The field and the organisms agree, but for the organism `excluded`:
    /// on every tile that shows a cell, that cell belongs to a living
    /// organism that has the tile among its cells; every cell of a living
    /// organism shows on the field as its own; and the cells of every
    /// living organism hang together.
    pub open spec fn wf_but(&self, excluded: Option<PlantId>) -> bool {
        &&& self.grid().wf()
        &&& 4 * self.grid().spec_size() <= usize::MAX
        &&& self.organisms().wf(self.grid().spec_x_size(), self.grid().spec_y_size())
        &&& forall|tile: int|
            0 <= tile < self.grid().spec_size() ==> match #[trigger] self.grid().entities()[tile] {
                Entity::Empty => true,
                Entity::Cell(plant_id, _) => self.organisms().living(plant_id) && Some(plant_id)
                    != excluded && self.organisms().cells(plant_id).contains(tile as usize),
            }
        &&& forall|plant_id: PlantId, tile: usize|
            self.organisms().living(plant_id) && Some(plant_id) != excluded
                && #[trigger] self.organisms().cells(plant_id).contains(tile) ==> tile
                < self.grid().spec_size() && self.grid().entities()[tile as int] is Cell
                && self.grid().entities()[tile as int]->Cell_0 == plant_id
        &&& forall|plant_id: PlantId| #[trigger]
            self.organisms().living(plant_id)
                ==> self.organisms().plants()[plant_id.0 as int]->Living_0.is_connected(
                self.grid().spec_x_size(),
                self.grid().spec_y_size(),
            )
    }

    /// For an organism, a tile and a budget, the score that is kept and the
    /// change counter that the tile had when the score was worked out.
    pub closed spec fn score_entries(&self) -> Map<MemoKey, (usize, Option<T>)> {
        self.score_cache.entries()
    }

    /// The scores are kept in good order.
    pub closed spec fn memo_wf(&self) -> bool {
        self.score_cache.wf()
    }

    /// The field and the organisms agree, and the scores are kept in good order.
    pub open spec fn wf(&self) -> bool {
        self.wf_but(None) && self.memo_wf()
    }

    /// The world of the field `grid`, without organisms.
    pub fn new(grid: Grid, take_top: usize, seed_rate: T, mutation_rate: T) -> (world: Self)
        ensures
            world.grid() == grid,
            world.spec_take_top() == take_top,
            world.spec_seed_rate() == seed_rate,
            world.spec_mutation_rate() == mutation_rate,
            world.organisms().plants().len() == 0,
            world.organisms().genomes().len() == 0,
            world.score_entries() == Map::<MemoKey, (usize, Option<T>)>::empty(),
            grid.wf() && 4 * grid.spec_size() <= usize::MAX && (forall|tile: int|
                0 <= tile < grid.spec_size() ==> #[trigger] grid.entities()[tile] is Empty)
                ==> world.wf(),
    {
        let organisms = Organisms::default();
        proof {
            if grid.wf() {
                grid.lemma_wf_lengths();
            }
        }
        World { take_top, seed_rate, mutation_rate, grid, organisms, score_cache: ScoreCache::new() }
    }

    pub fn take_top(&self) -> (take_top: usize)
        ensures
            take_top == self.spec_take_top(),
    {
        self.take_top
    }

    pub fn seed_rate(&self) -> (seed_rate: T)
        ensures
            seed_rate == self.spec_seed_rate(),
    {
        self.seed_rate
    }

    pub fn mutation_rate(&self) -> (mutation_rate: T)
        ensures
            mutation_rate == self.spec_mutation_rate(),
    {
        self.mutation_rate
    }

    /// The field.
    pub fn field(&self) -> (grid: &Grid)
        ensures
            *grid == self.grid(),
    {
        &self.grid
    }

    /// The organisms and their genomes.
    pub fn registry(&self) -> (organisms: &Organisms<T>)
        ensures
            *organisms == self.organisms(),
    {
        &self.organisms
    }

    /// Clears the tiles `tile_ids` of the field.
    fn set_empty(&mut self, tile_ids: &Vec<TileId>)
        requires
            old(self).grid.wf(),
            forall|i: int| 0 <= i < tile_ids@.len() ==> (#[trigger] tile_ids@[i]).0 < old(self).grid.spec_size(),
            old(self).grid.room(tile_ids@.len() as int),
        ensures
            final(self).organisms == old(self).organisms,
            final(self).score_cache == old(self).score_cache,
            final(self).take_top == old(self).take_top,
            final(self).seed_rate == old(self).seed_rate,
            final(self).mutation_rate == old(self).mutation_rate,
            final(self).grid.wf(),
            final(self).grid.spec_x_size() == old(self).grid.spec_x_size(),
            final(self).grid.spec_y_size() == old(self).grid.spec_y_size(),
            forall|tile: int|
                0 <= tile < old(self).grid.spec_size() ==> #[trigger] final(self).grid.entities()[tile]
                    == if tile_ids@.contains(TileId(tile as usize)) {
                    Entity::Empty
                } else {
                    old(self).grid.entities()[tile]
                },
            forall|changes: int|
                changes >= tile_ids@.len() && #[trigger] old(self).grid.room(changes) ==> final(self).grid.room(changes - tile_ids@.len()),
    {
        let mut index: usize = 0;
        proof {
            old(self).grid.lemma_wf_lengths();
        }
        while index < tile_ids.len()
            invariant
                index <= tile_ids@.len(),
                self.organisms == old(self).organisms,
                self.score_cache == old(self).score_cache,
                self.take_top == old(self).take_top,
                self.seed_rate == old(self).seed_rate,
                self.mutation_rate == old(self).mutation_rate,
                self.grid.wf(),
                self.grid.spec_x_size() == old(self).grid.spec_x_size(),
                self.grid.spec_y_size() == old(self).grid.spec_y_size(),
                forall|i: int|
                    0 <= i < tile_ids@.len() ==> (#[trigger] tile_ids@[i]).0 < self.grid.spec_size(),
                self.grid.room(tile_ids@.len() - index),
                forall|tile: int|
                    0 <= tile < self.grid.spec_size() ==> #[trigger] self.grid.entities()[tile]
                        == if tile_ids@.take(index as int).contains(TileId(tile as usize)) {
                        Entity::Empty
                    } else {
                        old(self).grid.entities()[tile]
                    },
                forall|changes: int|
                    changes >= tile_ids@.len() && #[trigger] old(self).grid.room(changes)
                        ==> self.grid.room(changes - index),
            decreases tile_ids@.len() - index,
        {
            let tile_id = tile_ids[index];
            let ghost before = self.grid;
            proof {
                self.grid.lemma_wf_lengths();
                self.grid.lemma_room(tile_ids@.len() - index, tile_id.0 as int);
                let sooner = tile_ids@.take(index as int);
                let later = tile_ids@.take(index + 1);
                assert(later =~= sooner.push(tile_id));
                assert forall|t: TileId| later.contains(t) <==> sooner.contains(t) || t == tile_id by {
                    if sooner.contains(t) {
                        let i = choose|i: int| 0 <= i < sooner.len() && sooner[i] == t;
                        assert(later[i] == t);
                    }
                    if t == tile_id {
                        assert(later[index as int] == t);
                    }
                }
            }
            self.grid.replace_entity(tile_id, Entity::Empty);
            proof {
                assert forall|tile: int| 0 <= tile < self.grid.spec_size() implies #[trigger] self.grid.entities()[tile]
                    == if tile_ids@.take(index + 1).contains(TileId(tile as usize)) {
                    Entity::Empty
                } else {
                    old(self).grid.entities()[tile]
                } by {
                    assert((TileId(tile as usize) == tile_id) == (tile == tile_id.0));
                }
                assert forall|changes: int|
                    changes >= tile_ids@.len() && #[trigger] old(self).grid.room(
                        changes,
                    ) implies self.grid.room(changes - (index + 1)) by {
                    assert(before.room(changes - index));
                }
            }
            index = index + 1;
        }
        proof {
            assert(tile_ids@.take(index as int) =~= tile_ids@);
        }
    }

    /// The number of cells of the organism that holds the tile `tile`, if one does.
    pub open spec fn cells_at_stake(&self, tile: int) -> int {
        match self.grid().entities()[tile] {
            Entity::Empty => 0,
            Entity::Cell(plant_id, _) => self.organisms().cells(plant_id).len() as int,
        }
    }

    /// Puts `new_entity` on `tile_id` and returns what stood there. If that
    /// is a change: an organism that gets the tile takes it among its
    /// cells; an organism that loses it gives it up, together with all its
    /// cells that no longer hang together with a largest part of it, and
    /// those are cleared on the field.
    fn replace_entity(
        &mut self,
        tile_id: TileId,
        new_entity: Entity,
        Ghost(excluded): Ghost<Option<PlantId>>,
    ) -> (old_entity: Entity)
        requires
            old(self).wf_but(excluded),
            tile_id.0 < old(self).grid().spec_size(),
            old(self).grid().room(1 + old(self).cells_at_stake(tile_id.0 as int)),
            new_entity != old(self).grid().entities()[tile_id.0 as int] ==> match new_entity {
                Entity::Empty => true,
                Entity::Cell(plant_id, _) => old(self).organisms().living(plant_id) && Some(plant_id)
                    != excluded && (old(self).organisms().cells(plant_id) =~= Set::<usize>::empty()
                    || torus_surface(
                    old(self).organisms().cells(plant_id),
                    old(self).grid().spec_x_size() as int,
                    old(self).grid().spec_y_size() as int,
                ).contains_key(tile_id.0)),
            },
        ensures
            final(self).wf_but(excluded),
            final(self).score_cache == old(self).score_cache,
            final(self).spec_take_top() == old(self).spec_take_top(),
            final(self).spec_seed_rate() == old(self).spec_seed_rate(),
            final(self).spec_mutation_rate() == old(self).spec_mutation_rate(),
            final(self).grid().spec_x_size() == old(self).grid().spec_x_size(),
            final(self).grid().spec_y_size() == old(self).grid().spec_y_size(),
            old_entity == old(self).grid().entities()[tile_id.0 as int],
            final(self).grid().entities()[tile_id.0 as int] == new_entity,
            old(self).changed(final(self), tile_id, new_entity),
            forall|changes: int|
                changes >= 1 + old(self).cells_at_stake(tile_id.0 as int) && #[trigger] old(self).grid().room(changes) ==> final(self).grid().room(
                    changes - 1 - old(self).cells_at_stake(tile_id.0 as int),
                ),
    {
        let ghost before = *self;
        let ghost xs = self.grid.spec_x_size();
        let ghost ys = self.grid.spec_y_size();
        let ghost stake = old(self).cells_at_stake(tile_id.0 as int);
        proof {
            self.grid.lemma_wf_lengths();
            self.grid.lemma_room(1 + stake, tile_id.0 as int);
        }
        let old_entity = self.grid.replace_entity(tile_id, new_entity);

        if old_entity != new_entity {
            let ghost placed = self.grid;
            if let Entity::Cell(plant_id, _) = new_entity {
                proof {
                    assert(!before.organisms.cells(plant_id).contains(tile_id.0));
                    assert(before.organisms.plants()[plant_id.0 as int]->Living_0.rooted(&self.grid)) by {
                        assert forall|cell: usize| #[trigger]
                            before.organisms.cells(plant_id).contains(cell) implies cell
                            < self.grid.entities().len() && self.grid.entities()[cell as int] is Cell by {
                            assert(before.grid.entities()[cell as int] is Cell);
                        }
                    }
                }
                self.organisms.occupy(plant_id, tile_id, &self.grid);
            }
            let ghost settled = self.organisms;
            if let Entity::Cell(old_plant_id, _) = old_entity {
                proof {
                    assert(before.organisms.living(old_plant_id));
                    assert(before.organisms.cells(old_plant_id).contains(tile_id.0));
                    if let Entity::Cell(plant_id, _) = new_entity {
                        assert(plant_id != old_plant_id);
                        assert(plant_id.0 != old_plant_id.0);
                        assert(settled.plants()[old_plant_id.0 as int]
                            == before.organisms.plants()[old_plant_id.0 as int]);
                    }
                    before.organisms.plants()[old_plant_id.0 as int]->Living_0.lemma_wf(xs, ys);
                }
                let dead_cells = self.organisms.abandon(old_plant_id, tile_id, &self.grid);
                proof {
                    lemma_tiles_len(dead_cells@);
                    let dead = Set::new(|x: usize| dead_cells@.contains(TileId(x)));
                    assert(dead.subset_of(before.organisms.cells(old_plant_id).remove(tile_id.0))) by {
                        assert forall|x: usize| dead.contains(x) implies before.organisms.cells(
                            old_plant_id,
                        ).remove(tile_id.0).contains(x) by {
                            assert(dead_cells@.contains(TileId(x)));
                            assert(TileId(x) != tile_id);
                        }
                    }
                    vstd::set_lib::lemma_len_subset(
                        dead,
                        before.organisms.cells(old_plant_id).remove(tile_id.0),
                    );
                    assert(dead_cells@.len() < stake);
                    assert forall|changes: int|
                        changes >= 1 + stake && #[trigger] before.grid.room(
                            changes,
                        ) implies placed.room(changes - 1) by {}
                    assert(placed.room(stake as int));
                    assert(placed.room(dead_cells@.len() as int)) by {
                        assert forall|tile: int| 0 <= tile < placed.spec_size() implies (
                        #[trigger] placed.nonces()[tile]) + 13 * dead_cells@.len() <= usize::MAX by {
                            assert(placed.nonces()[tile] + 13 * stake <= usize::MAX);
                        }
                    }
                    assert forall|i: int| 0 <= i < dead_cells@.len() implies (
                    #[trigger] dead_cells@[i]).0 < self.grid.spec_size() by {
                        assert(dead_cells@.contains(dead_cells@[i]));
                    }
                }
                self.set_empty(&dead_cells);
                proof {
                    before.lemma_after_capture(
                        &*self,
                        placed,
                        settled,
                        tile_id,
                        new_entity,
                        old_plant_id,
                        dead_cells@,
                        excluded,
                    );
                    assert forall|changes: int|
                        changes >= 1 + stake && #[trigger] before.grid.room(
                            changes,
                        ) implies self.grid.room(changes - 1 - stake) by {
                        assert(placed.room(changes - 1));
                        assert(self.grid.room(changes - 1 - dead_cells@.len()));
                        assert forall|tile: int| 0 <= tile < self.grid.spec_size() implies (
                        #[trigger] self.grid.nonces()[tile]) + 13 * (changes - 1 - stake)
                            <= usize::MAX by {
                            assert(self.grid.nonces()[tile] + 13 * (changes - 1 - dead_cells@.len())
                                <= usize::MAX);
                        }
                    }
                }
            } else {
                proof {
                    before.lemma_after_claim(&*self, tile_id, new_entity, excluded);
                }
            }
        } else {
            proof {
                assert(self.grid.entities() =~= before.grid.entities());
                assert forall|changes: int|
                    changes >= 1 + stake && #[trigger] before.grid.room(
                        changes,
                    ) implies self.grid.room(changes - 1 - stake) by {
                    assert(self.grid.room(changes - 1));
                    assert forall|tile: int| 0 <= tile < self.grid.spec_size() implies (
                    #[trigger] self.grid.nonces()[tile]) + 13 * (changes - 1 - stake)
                        <= usize::MAX by {
                        assert(self.grid.nonces()[tile] + 13 * (changes - 1) <= usize::MAX);
                    }
                }
            }
        }

        old_entity
    }

    /// What the organisms `settled` are once `new_entity` has been put on
    /// the tile `tile_id` of this world and the organism that gets the tile,
    /// if there is one, has taken it.
    pub open spec fn taken(&self, settled: &Organisms<T>, tile_id: TileId, new_entity: Entity) -> bool {
        let xs = self.grid().spec_x_size();
        let ys = self.grid().spec_y_size();
        match new_entity {
            Entity::Empty => *settled == self.organisms(),
            Entity::Cell(plant_id, _) => {
                &&& settled.wf(xs, ys)
                &&& self.organisms().same_but_plant(settled, plant_id)
                &&& settled.cells(plant_id) == self.organisms().cells(plant_id).insert(tile_id.0)
                &&& settled.plants()[plant_id.0 as int]->Living_0.is_connected(xs, ys)
                &&& settled.genomes() == self.organisms().genomes().update(
                    self.organisms().plants()[plant_id.0 as int]->Living_0.spec_genome_id().0 as int,
                    self.organisms().with_yield(
                        self.organisms().plants()[plant_id.0 as int]->Living_0.spec_genome_id(),
                        energy_yield_of(
                            self.organisms().cells(plant_id).insert(tile_id.0),
                            self.grid().entities().update(tile_id.0 as int, new_entity),
                            xs as int,
                            ys as int,
                        ) as usize,
                    ),
                )
            },
        }
    }

    proof fn lemma_after_claim(
        &self,
        after: &Self,
        tile_id: TileId,
        new_entity: Entity,
        excluded: Option<PlantId>,
    )
        requires
            self.wf_but(excluded),
            tile_id.0 < self.grid().spec_size(),
            self.grid().entities()[tile_id.0 as int] is Empty,
            new_entity is Cell,
            self.organisms().living(new_entity->Cell_0),
            Some(new_entity->Cell_0) != excluded,
            after.grid().wf(),
            after.grid().spec_x_size() == self.grid().spec_x_size(),
            after.grid().spec_y_size() == self.grid().spec_y_size(),
            after.grid().entities() == self.grid().entities().update(tile_id.0 as int, new_entity),
            self.taken(&after.organisms(), tile_id, new_entity),
        ensures
            after.wf_but(excluded),
            self.changed(after, tile_id, new_entity),
    {
        let plant_id = new_entity->Cell_0;
        let before = self.organisms();
        let settled = after.organisms();
        self.grid().lemma_wf_lengths();
        assert forall|other: PlantId| #[trigger] before.living(other) == settled.living(other) by {
            if other.0 < before.plants().len() && other.0 != plant_id.0 {
                assert(settled.plants()[other.0 as int] == before.plants()[other.0 as int]);
            }
        }
        assert forall|other: PlantId|
            #![trigger before.plants()[other.0 as int]]
            other.0 < before.plants().len() && other != plant_id implies settled.plants()[other.0 as int]
            == before.plants()[other.0 as int] by {
            assert(other.0 != plant_id.0);
        }
        assert forall|other: PlantId| #[trigger]
            settled.living(other) implies settled.plants()[other.0 as int]->Living_0.spec_genome_id()
            == before.plants()[other.0 as int]->Living_0.spec_genome_id() by {
            if other.0 != plant_id.0 {
                assert(settled.plants()[other.0 as int] == before.plants()[other.0 as int]);
            } else {
                assert(other == plant_id);
            }
        }
        assert forall|tile: int| 0 <= tile < after.grid().spec_size() implies match #[trigger] after.grid().entities()[tile] {
            Entity::Empty => true,
            Entity::Cell(owner, _) => settled.living(owner) && Some(owner) != excluded
                && settled.cells(owner).contains(tile as usize),
        } by {
            if tile != tile_id.0 {
                let earlier = self.grid().entities()[tile];
                if let Entity::Cell(owner, _) = earlier {
                    assert(before.living(owner));
                    if owner != plant_id {
                        assert(settled.plants()[owner.0 as int] == before.plants()[owner.0 as int]);
                    }
                }
            }
        }
        assert forall|owner: PlantId, tile: usize|
            settled.living(owner) && Some(owner) != excluded && #[trigger] settled.cells(
                owner,
            ).contains(tile) implies tile < after.grid().spec_size()
            && after.grid().entities()[tile as int] is Cell
            && after.grid().entities()[tile as int]->Cell_0 == owner by {
            assert(before.living(owner));
            if owner == plant_id {
                if tile != tile_id.0 {
                    assert(before.cells(owner).contains(tile));
                }
            } else {
                assert(settled.plants()[owner.0 as int] == before.plants()[owner.0 as int]);
                assert(before.cells(owner).contains(tile));
            }
        }
        assert forall|owner: PlantId| #[trigger]
            settled.living(owner) implies settled.plants()[owner.0 as int]->Living_0.is_connected(
            after.grid().spec_x_size(),
            after.grid().spec_y_size(),
        ) by {
            assert(before.living(owner));
            if owner != plant_id {
                assert(settled.plants()[owner.0 as int] == before.plants()[owner.0 as int]);
            }
        }
    }

    proof fn lemma_after_capture(
        &self,
        after: &Self,
        placed: Grid,
        settled: Organisms<T>,
        tile_id: TileId,
        new_entity: Entity,
        old_plant_id: PlantId,
        dead_cells: Seq<TileId>,
        excluded: Option<PlantId>,
    )
        requires
            self.wf_but(excluded),
            tile_id.0 < self.grid().spec_size(),
            self.grid().entities()[tile_id.0 as int] is Cell,
            self.grid().entities()[tile_id.0 as int]->Cell_0 == old_plant_id,
            new_entity != self.grid().entities()[tile_id.0 as int],
            new_entity is Cell ==> self.organisms().living(new_entity->Cell_0) && Some(
                new_entity->Cell_0,
            ) != excluded,
            placed.wf(),
            placed.spec_x_size() == self.grid().spec_x_size(),
            placed.spec_y_size() == self.grid().spec_y_size(),
            placed.entities() == self.grid().entities().update(tile_id.0 as int, new_entity),
            self.taken(&settled, tile_id, new_entity),
            after.organisms().wf(placed.spec_x_size(), placed.spec_y_size()),
            settled.same_but_plant(&after.organisms(), old_plant_id),
            after.organisms().genomes() == settled.genomes(),
            dead_cells.no_duplicates(),
            forall|t: TileId| #[trigger]
                dead_cells.contains(t) ==> settled.cells(old_plant_id).contains(t.0) && t != tile_id,
            forall|cell: usize|
                after.organisms().cells(old_plant_id).contains(cell) <==> settled.cells(
                    old_plant_id,
                ).contains(cell) && cell != tile_id.0 && !dead_cells.contains(TileId(cell)),
            ActivePlant::abandoned(
                settled.cells(old_plant_id),
                tile_id.0,
                after.organisms().cells(old_plant_id),
                placed.spec_x_size() as int,
                placed.spec_y_size() as int,
            ),
            settled.plants()[old_plant_id.0 as int]->Living_0.is_connected(
                placed.spec_x_size(),
                placed.spec_y_size(),
            ) ==> after.organisms().plants()[old_plant_id.0 as int]->Living_0.is_connected(
                placed.spec_x_size(),
                placed.spec_y_size(),
            ),
            after.grid().wf(),
            after.grid().spec_x_size() == self.grid().spec_x_size(),
            after.grid().spec_y_size() == self.grid().spec_y_size(),
            forall|tile: int|
                0 <= tile < self.grid().spec_size() ==> #[trigger] after.grid().entities()[tile]
                    == if dead_cells.contains(TileId(tile as usize)) {
                    Entity::Empty
                } else {
                    placed.entities()[tile]
                },
        ensures
            after.wf_but(excluded),
            self.changed(after, tile_id, new_entity),
    {
        let before = self.organisms();
        let last = after.organisms();
        let old_entity = self.grid().entities()[tile_id.0 as int];
        self.grid().lemma_wf_lengths();
        assert(before.living(old_plant_id));
        assert(Some(old_plant_id) != excluded);
        assert(before.cells(old_plant_id).contains(tile_id.0));
        if new_entity is Cell {
            assert(new_entity->Cell_0 != old_plant_id);
            assert(new_entity->Cell_0.0 != old_plant_id.0);
            assert(settled.plants()[old_plant_id.0 as int] == before.plants()[old_plant_id.0 as int]);
        }
        assert(settled.cells(old_plant_id) == before.cells(old_plant_id));
        assert forall|other: PlantId| #[trigger] before.living(other) == last.living(other) by {
            if other.0 < before.plants().len() {
                if other.0 != old_plant_id.0 {
                    assert(last.plants()[other.0 as int] == settled.plants()[other.0 as int]);
                }
                if new_entity is Cell && other.0 != new_entity->Cell_0.0 {
                    assert(settled.plants()[other.0 as int] == before.plants()[other.0 as int]);
                }
            }
        }
        assert forall|other: PlantId|
            #![trigger before.plants()[other.0 as int]]
            other.0 < before.plants().len() && other != old_plant_id && !(new_entity is Cell
                && new_entity->Cell_0 == other) implies last.plants()[other.0 as int]
            == before.plants()[other.0 as int] by {
            assert(other.0 != old_plant_id.0);
            assert(last.plants()[other.0 as int] == settled.plants()[other.0 as int]);
            if new_entity is Cell {
                assert(other.0 != new_entity->Cell_0.0);
                assert(settled.plants()[other.0 as int] == before.plants()[other.0 as int]);
            }
        }
        assert forall|other: PlantId| #[trigger] before.living(other) implies last.cells(other)
            == if new_entity is Cell && new_entity->Cell_0 == other {
            before.cells(other).insert(tile_id.0)
        } else {
            last.cells(other)
        } by {
            if new_entity is Cell && new_entity->Cell_0 == other {
                assert(other.0 != old_plant_id.0);
                assert(last.plants()[other.0 as int] == settled.plants()[other.0 as int]);
            }
        }
        assert(last.cells(old_plant_id).subset_of(before.cells(old_plant_id).remove(tile_id.0)));
        assert forall|other: PlantId| #[trigger]
            last.living(other) implies last.plants()[other.0 as int]->Living_0.spec_genome_id()
            == before.plants()[other.0 as int]->Living_0.spec_genome_id() by {
            if other.0 == old_plant_id.0 {
                assert(other == old_plant_id);
            } else {
                assert(last.plants()[other.0 as int] == settled.plants()[other.0 as int]);
                if new_entity is Cell && new_entity->Cell_0.0 == other.0 {
                    assert(other == new_entity->Cell_0);
                } else if new_entity is Cell {
                    assert(settled.plants()[other.0 as int] == before.plants()[other.0 as int]);
                }
            }
        }
        assert forall|tile: int|
            0 <= tile < self.grid().spec_size() && tile != tile_id.0 implies #[trigger] after.grid().entities()[tile]
            == if before.cells(old_plant_id).contains(tile as usize) && !last.cells(
            old_plant_id,
        ).contains(tile as usize) {
            Entity::Empty
        } else {
            self.grid().entities()[tile]
        } by {
            if dead_cells.contains(TileId(tile as usize)) {
                assert(before.cells(old_plant_id).contains(TileId(tile as usize).0));
            }
        }
        assert forall|tile: int| 0 <= tile < after.grid().spec_size() implies match #[trigger] after.grid().entities()[tile] {
            Entity::Empty => true,
            Entity::Cell(owner, _) => last.living(owner) && Some(owner) != excluded && last.cells(
                owner,
            ).contains(tile as usize),
        } by {
            if tile == tile_id.0 {
                assert(!dead_cells.contains(TileId(tile as usize))) by {
                    if dead_cells.contains(TileId(tile as usize)) {
                        assert(TileId(tile as usize) == tile_id);
                    }
                }
                if new_entity is Cell {
                    let plant_id = new_entity->Cell_0;
                    assert(last.plants()[plant_id.0 as int] == settled.plants()[plant_id.0 as int]);
                }
            } else if !dead_cells.contains(TileId(tile as usize)) {
                let earlier = self.grid().entities()[tile];
                if let Entity::Cell(owner, _) = earlier {
                    assert(before.living(owner));
                    assert(before.cells(owner).contains(tile as usize));
                    if owner == old_plant_id {
                    } else if new_entity is Cell && new_entity->Cell_0 == owner {
                        assert(last.plants()[owner.0 as int] == settled.plants()[owner.0 as int]);
                    } else {
                        assert(last.plants()[owner.0 as int] == before.plants()[owner.0 as int]);
                    }
                }
            }
        }
        assert forall|owner: PlantId, tile: usize|
            last.living(owner) && Some(owner) != excluded && #[trigger] last.cells(owner).contains(
                tile,
            ) implies tile < after.grid().spec_size() && after.grid().entities()[tile as int] is Cell
            && after.grid().entities()[tile as int]->Cell_0 == owner by {
            assert(before.living(owner));
            if owner == old_plant_id {
                assert(before.cells(owner).contains(tile));
                assert(!dead_cells.contains(TileId(tile)));
            } else if new_entity is Cell && new_entity->Cell_0 == owner {
                assert(last.plants()[owner.0 as int] == settled.plants()[owner.0 as int]);
                if tile != tile_id.0 {
                    assert(before.cells(owner).contains(tile));
                    if dead_cells.contains(TileId(tile)) {
                        assert(before.cells(old_plant_id).contains(TileId(tile).0));
                    }
                } else {
                    if dead_cells.contains(TileId(tile)) {
                        assert(TileId(tile) == tile_id);
                    }
                }
            } else {
                assert(last.plants()[owner.0 as int] == before.plants()[owner.0 as int]);
                assert(before.cells(owner).contains(tile));
                if dead_cells.contains(TileId(tile)) {
                    assert(before.cells(old_plant_id).contains(TileId(tile).0));
                }
            }
        }
        assert forall|owner: PlantId| #[trigger]
            last.living(owner) implies last.plants()[owner.0 as int]->Living_0.is_connected(
            after.grid().spec_x_size(),
            after.grid().spec_y_size(),
        ) by {
            assert(before.living(owner));
            if owner == old_plant_id {
            } else if new_entity is Cell && new_entity->Cell_0 == owner {
                assert(last.plants()[owner.0 as int] == settled.plants()[owner.0 as int]);
            } else {
                assert(last.plants()[owner.0 as int] == before.plants()[owner.0 as int]);
            }
        }
    }

    /// What putting `new_entity` on `tile_id` changes between the worlds
    /// `self` and `after`: nothing, if it stood there. Or else: the
    /// organism that gets the tile has it among its cells; the organism
    /// that loses it keeps all its other cells if those still hang together
    /// without the tile, or else a largest part of them; the tiles of the
    /// cells that it gives up are cleared; and every other organism and
    /// every other tile is as before.
    pub open spec fn changed(&self, after: &Self, tile_id: TileId, new_entity: Entity) -> bool {
        let old_entity = self.grid().entities()[tile_id.0 as int];
        let xs = self.grid().spec_x_size() as int;
        let ys = self.grid().spec_y_size() as int;
        &&& after.organisms().plants().len() == self.organisms().plants().len()
        &&& after.organisms().active_plant_ids() == self.organisms().active_plant_ids()
        &&& after.organisms().active_genome_ids() == self.organisms().active_genome_ids()
        &&& after.organisms().genomes().len() == self.organisms().genomes().len()
        &&& forall|plant_id: PlantId| #[trigger]
            self.organisms().living(plant_id) ==> after.organisms().living(plant_id)
                && after.organisms().cells(plant_id) == if old_entity == new_entity {
                self.organisms().cells(plant_id)
            } else if new_entity is Cell && new_entity->Cell_0 == plant_id {
                self.organisms().cells(plant_id).insert(tile_id.0)
            } else {
                after.organisms().cells(plant_id)
            }
        &&& forall|plant_id: PlantId| #[trigger]
            after.organisms().living(plant_id) ==> self.organisms().living(plant_id)
                && after.organisms().plants()[plant_id.0 as int]->Living_0.spec_genome_id()
                == self.organisms().plants()[plant_id.0 as int]->Living_0.spec_genome_id()
        &&& forall|plant_id: PlantId|
            #![trigger self.organisms().plants()[plant_id.0 as int]]
            plant_id.0 < self.organisms().plants().len() && (old_entity == new_entity || (!(
            new_entity is Cell && new_entity->Cell_0 == plant_id) && !(old_entity is Cell
                && old_entity->Cell_0 == plant_id))) ==> after.organisms().plants()[plant_id.0 as int]
                == self.organisms().plants()[plant_id.0 as int]
        &&& old_entity != new_entity && old_entity is Cell ==> ActivePlant::abandoned(
            self.organisms().cells(old_entity->Cell_0),
            tile_id.0,
            after.organisms().cells(old_entity->Cell_0),
            xs,
            ys,
        ) && after.organisms().cells(old_entity->Cell_0).subset_of(
            self.organisms().cells(old_entity->Cell_0).remove(tile_id.0),
        )
        &&& forall|tile: int|
            0 <= tile < self.grid().spec_size() && tile != tile_id.0
                ==> #[trigger] after.grid().entities()[tile] == if old_entity != new_entity
                && old_entity is Cell && self.organisms().cells(old_entity->Cell_0).contains(
                tile as usize,
            ) && !after.organisms().cells(old_entity->Cell_0).contains(tile as usize) {
                Entity::Empty
            } else {
                self.grid().entities()[tile]
            }
        &&& old_entity == new_entity ==> after.organisms().genomes() == self.organisms().genomes()
        &&& old_entity != new_entity && new_entity is Empty ==> after.organisms().genomes()
            == self.organisms().genomes()
        &&& old_entity != new_entity && new_entity is Cell ==> after.organisms().genomes()
            == self.organisms().genomes().update(
            self.organisms().plants()[new_entity->Cell_0.0 as int]->Living_0.spec_genome_id().0 as int,
            self.organisms().with_yield(
                self.organisms().plants()[new_entity->Cell_0.0 as int]->Living_0.spec_genome_id(),
                energy_yield_of(
                    self.organisms().cells(new_entity->Cell_0).insert(tile_id.0),
                    self.grid().entities().update(tile_id.0 as int, new_entity),
                    xs,
                    ys,
                ) as usize,
            ),
        )
    }

    /// The score of `tile_id` for the organism `plant_id` with `points`
    /// left to spend, if one is kept that was worked out when the change
    /// counter of the tile was what it is now.
    pub fn cached_score(&self, plant_id: PlantId, tile_id: TileId, points: usize) -> (cached: Option<
        Option<T>,
    >)
        requires
            self.wf(),
            tile_id.0 < self.grid().spec_size(),
        ensures
            cached == if self.score_entries().contains_key(memo_key(plant_id, tile_id, points))
                && self.score_entries()[memo_key(plant_id, tile_id, points)].0
                == self.grid().nonces()[tile_id.0 as int] {
                Some(self.score_entries()[memo_key(plant_id, tile_id, points)].1)
            } else {
                None
            },
    {
        let nonce = self.grid.nonce(tile_id);
        self.score_cache.score(plant_id, tile_id, points, nonce)
    }

    /// Keeps `score` as the score of `tile_id` for the organism `plant_id`
    /// with `points` left to spend, together with the change counter that
    /// the tile has now.
    pub fn store_score(&mut self, plant_id: PlantId, tile_id: TileId, points: usize, score: Option<T>)
        requires
            old(self).wf(),
            tile_id.0 < old(self).grid().spec_size(),
        ensures
            final(self).wf(),
            final(self).grid() == old(self).grid(),
            final(self).organisms() == old(self).organisms(),
            final(self).spec_take_top() == old(self).spec_take_top(),
            final(self).spec_seed_rate() == old(self).spec_seed_rate(),
            final(self).spec_mutation_rate() == old(self).spec_mutation_rate(),
            final(self).score_entries() == old(self).score_entries().insert(
                memo_key(plant_id, tile_id, points),
                (old(self).grid().nonces()[tile_id.0 as int], score),
            ),
    {
        let nonce = self.grid.nonce(tile_id);
        self.score_cache.remember(plant_id, tile_id, points, nonce, score);
    }

    /// The tiles on which the field shows a cell of the organism `plant_id`.
    pub open spec fn tiles_of(&self, plant_id: PlantId) -> Set<usize> {
        Set::new(
            |tile: usize|
                tile < self.grid().spec_size() && self.grid().entities()[tile as int] is Cell
                    && self.grid().entities()[tile as int]->Cell_0 == plant_id,
        )
    }

    /// In a well-formed world the cells of a living organism are the tiles
    /// on which the field shows it, and no tile is among the cells of two
    /// living organisms.
    pub proof fn lemma_cells_are_tiles(&self, plant_id: PlantId, other_id: PlantId)
        requires
            self.wf(),
            self.organisms().living(plant_id),
        ensures
            self.organisms().cells(plant_id) == self.tiles_of(plant_id),
            self.organisms().living(other_id) && other_id != plant_id
                ==> self.organisms().cells(plant_id).disjoint(self.organisms().cells(other_id)),
    {
        let cells = self.organisms().cells(plant_id);
        assert forall|tile: usize| cells.contains(tile) == self.tiles_of(plant_id).contains(tile) by {
            if self.tiles_of(plant_id).contains(tile) {
                let entity = self.grid().entities()[tile as int];
                assert(self.organisms().cells(entity->Cell_0).contains(tile));
            }
        }
        assert(cells =~= self.tiles_of(plant_id));
        if self.organisms().living(other_id) && other_id != plant_id {
            assert forall|tile: usize|
                !(cells.contains(tile) && self.organisms().cells(other_id).contains(tile)) by {}
        }
    }

    /// The number of tiles that the living organism `plant_id` holds.
    pub fn cell_count(&self, plant_id: PlantId) -> (count: usize)
        requires
            self.wf(),
            self.organisms().living(plant_id),
        ensures
            count == self.tiles_of(plant_id).len(),
    {
        proof {
            self.lemma_cells_are_tiles(plant_id, plant_id);
        }
        self.organisms.plant(plant_id).cell_count()
    }

    /// The energy points of the living organism `plant_id` for this round.
    pub fn energy_points(&self, plant_id: PlantId) -> (points: usize)
        requires
            self.wf(),
            self.organisms().living(plant_id),
        ensures
            points == budget_of(
                energy_yield_of(
                    self.organisms().cells(plant_id),
                    self.grid().entities(),
                    self.grid().spec_x_size() as int,
                    self.grid().spec_y_size() as int,
                ),
                self.organisms().cells(plant_id).len(),
            ),
    {
        let plant = self.organisms.plant(plant_id);
        proof {
            self.grid.lemma_wf_lengths();
            assert forall|cell: usize| #[trigger] plant.cells().contains(cell) implies cell
                < self.grid.entities().len() && self.grid.entities()[cell as int] is Cell by {
                assert(self.organisms().cells(plant_id).contains(cell));
            }
        }
        plant.energy_points(&self.grid)
    }

    /// What the living organism `plant_id` does when its turn comes: it
    /// grows if it has energy points, and dies if it has none.
    pub fn turn(&self, plant_id: PlantId) -> (turn: Turn)
        requires
            self.wf(),
            self.organisms().living(plant_id),
        ensures
            turn == if budget_of(
                energy_yield_of(
                    self.organisms().cells(plant_id),
                    self.grid().entities(),
                    self.grid().spec_x_size() as int,
                    self.grid().spec_y_size() as int,
                ),
                self.organisms().cells(plant_id).len(),
            ) > 0 {
                Turn::Grow(
                    budget_of(
                        energy_yield_of(
                            self.organisms().cells(plant_id),
                            self.grid().entities(),
                            self.grid().spec_x_size() as int,
                            self.grid().spec_y_size() as int,
                        ),
                        self.organisms().cells(plant_id).len(),
                    ) as usize,
                )
            } else {
                Turn::Die
            },
    {
        let energy_points = self.energy_points(plant_id);
        if energy_points > 0 {
            Turn::Grow(energy_points)
        } else {
            Turn::Die
        }
    }

    /// Those tiles next to the living organism `plant_id` that it may take
    /// with `points` left to spend, each with the potentials that add up to
    /// its score. With no points left there are none.
    pub fn candidates(&self, plant_id: PlantId, points: usize) -> (scores: Vec<(TileId, Vec<T>)>)
        requires
            self.wf(),
            self.organisms().living(plant_id),
        ensures
            points == 0 ==> scores@.len() == 0,
            forall|i: int|
                0 <= i < scores@.len() ==> (#[trigger] scores@[i]).0.0 < self.grid().spec_size()
                    && torus_surface(
                    self.organisms().cells(plant_id),
                    self.grid().spec_x_size() as int,
                    self.grid().spec_y_size() as int,
                ).contains_key(scores@[i].0.0) && scorable(
                    self.grid().entities()[scores@[i].0.0 as int],
                    plant_id,
                    points,
                ) && scores@[i].1@ == self.organisms().genomes()[self.organisms().plants()[plant_id.0 as int]->Living_0.spec_genome_id().0 as int]->Living_0.genome.terms(
                    self.grid().entities(),
                    plant_id,
                    scores@[i].0.0 as int,
                    self.grid().spec_x_size() as int,
                    self.grid().spec_y_size() as int,
                ),
            forall|i: int, j: int|
                0 <= i < j < scores@.len() ==> (#[trigger] scores@[i]).0 != (#[trigger] scores@[j]).0,
            points > 0 ==> forall|tile: usize|
                #![trigger torus_surface(self.organisms().cells(plant_id), self.grid().spec_x_size() as int, self.grid().spec_y_size() as int).contains_key(tile)]
                torus_surface(
                    self.organisms().cells(plant_id),
                    self.grid().spec_x_size() as int,
                    self.grid().spec_y_size() as int,
                ).contains_key(tile) && scorable(
                    self.grid().entities()[tile as int],
                    plant_id,
                    points,
                ) ==> exists|i: int| 0 <= i < scores@.len() && (#[trigger] scores@[i]).0 == TileId(tile),
    {
        self.organisms.candidates(plant_id, &self.grid, points)
    }

    /// The living organism `plant_id` takes the tile `tile_id` next to it,
    /// which it may take with `energy_points` left to spend. Returned are
    /// the points that it has left: one less for an empty tile, two less
    /// for a tile of another organism.
    pub fn claim(&mut self, plant_id: PlantId, tile_id: TileId, energy_points: usize) -> (left: usize)
        requires
            old(self).wf(),
            old(self).organisms().living(plant_id),
            tile_id.0 < old(self).grid().spec_size(),
            energy_points > 0,
            scorable(old(self).grid().entities()[tile_id.0 as int], plant_id, energy_points),
            torus_surface(
                old(self).organisms().cells(plant_id),
                old(self).grid().spec_x_size() as int,
                old(self).grid().spec_y_size() as int,
            ).contains_key(tile_id.0),
            old(self).grid().room(1 + old(self).cells_at_stake(tile_id.0 as int)),
        ensures
            final(self).wf(),
            final(self).spec_take_top() == old(self).spec_take_top(),
            final(self).spec_seed_rate() == old(self).spec_seed_rate(),
            final(self).spec_mutation_rate() == old(self).spec_mutation_rate(),
            final(self).grid().spec_x_size() == old(self).grid().spec_x_size(),
            final(self).grid().spec_y_size() == old(self).grid().spec_y_size(),
            final(self).grid().entities()[tile_id.0 as int] == Entity::Cell(
                plant_id,
                CellKind::Branch,
            ),
            final(self).score_entries() == old(self).score_entries(),
            old(self).changed(final(self), tile_id, Entity::Cell(plant_id, CellKind::Branch)),
            left == energy_points - if old(self).grid().entities()[tile_id.0 as int] is Empty {
                1int
            } else {
                2int
            },
    {
        let old_entity = self.replace_entity(
            tile_id,
            Entity::Cell(plant_id, CellKind::Branch),
            Ghost(None),
        );
        if old_entity == Entity::Empty {
            energy_points - 1
        } else {
            energy_points - 2
        }
    }

    /// Registers `genome` as a genome without parent, made before the first round.
    pub fn add_genome(&mut self, genome: GenomeKind<T>) -> (id: GenomeId)
        requires
            old(self).wf(),
        ensures
            final(self).wf(),
            final(self).grid() == old(self).grid(),
            final(self).score_entries() == old(self).score_entries(),
            final(self).spec_take_top() == old(self).spec_take_top(),
            final(self).spec_seed_rate() == old(self).spec_seed_rate(),
            final(self).spec_mutation_rate() == old(self).spec_mutation_rate(),
            id == GenomeId(old(self).organisms().genomes().len() as usize),
            final(self).organisms().genomes() == old(self).organisms().genomes().push(
                Either::Living(
                    ActiveGenome {
                        id,
                        genome,
                        num_plants: 0,
                        max_yield: 0,
                        created_at: 0,
                        parent_genome_id: None,
                    },
                ),
            ),
            final(self).organisms().plants() == old(self).organisms().plants(),
            final(self).organisms().active_plant_ids() == old(self).organisms().active_plant_ids(),
            final(self).organisms().active_genome_ids() == old(self).organisms().active_genome_ids().push(id),
    {
        let ghost before = *self;
        let id = self.organisms.add_genome(genome, None, 0);
        proof {
            before.lemma_same_plants(&*self, None);
        }
        id
    }

    /// A world stays well formed when nothing changes on the field and of
    /// the organisms.
    proof fn lemma_same_plants(&self, after: &Self, excluded: Option<PlantId>)
        requires
            self.wf_but(excluded),
            after.grid() == self.grid(),
            after.organisms().wf(self.grid().spec_x_size(), self.grid().spec_y_size()),
            after.organisms().plants() == self.organisms().plants(),
        ensures
            after.wf_but(excluded),
    {
        let before = self.organisms();
        let later = after.organisms();
        assert forall|tile: int| 0 <= tile < after.grid().spec_size() implies match #[trigger] after.grid().entities()[tile] {
            Entity::Empty => true,
            Entity::Cell(owner, _) => later.living(owner) && Some(owner) != excluded
                && later.cells(owner).contains(tile as usize),
        } by {
            if let Entity::Cell(owner, _) = self.grid().entities()[tile] {
                assert(before.living(owner));
            }
        }
        assert forall|owner: PlantId, tile: usize|
            later.living(owner) && Some(owner) != excluded && #[trigger] later.cells(owner).contains(
                tile,
            ) implies tile < after.grid().spec_size() && after.grid().entities()[tile as int] is Cell
            && after.grid().entities()[tile as int]->Cell_0 == owner by {
            assert(before.cells(owner).contains(tile));
        }
        assert forall|owner: PlantId| #[trigger]
            later.living(owner) implies later.plants()[owner.0 as int]->Living_0.is_connected(
            after.grid().spec_x_size(),
            after.grid().spec_y_size(),
        ) by {
            assert(before.living(owner));
        }
    }

    /// Registers an organism with the active genome `genome_id` and puts
    /// its first cell on the tile `tile_id`.
    pub fn add_plant(&mut self, genome_id: GenomeId, tile_id: TileId) -> (id: PlantId)
        requires
            old(self).wf(),
            old(self).organisms().active(genome_id),
            tile_id.0 < old(self).grid().spec_size(),
            old(self).organisms().plants().len() < usize::MAX,
            old(self).grid().room(1 + old(self).cells_at_stake(tile_id.0 as int)),
        ensures
            final(self).wf(),
            final(self).spec_take_top() == old(self).spec_take_top(),
            final(self).spec_seed_rate() == old(self).spec_seed_rate(),
            final(self).spec_mutation_rate() == old(self).spec_mutation_rate(),
            final(self).grid().spec_x_size() == old(self).grid().spec_x_size(),
            final(self).grid().spec_y_size() == old(self).grid().spec_y_size(),
            id == PlantId(old(self).organisms().plants().len() as usize),
            final(self).score_entries() == old(self).score_entries(),
            final(self).organisms().plants().len() == old(self).organisms().plants().len() + 1,
            final(self).organisms().living(id),
            final(self).organisms().cells(id) == Set::<usize>::empty().insert(tile_id.0),
            final(self).organisms().plants()[id.0 as int]->Living_0.spec_genome_id() == genome_id,
            final(self).grid().entities()[tile_id.0 as int] == Entity::Cell(id, CellKind::Branch),
            final(self).organisms().genomes() == carrier_added(
                old(self).organisms().genomes(),
                genome_id,
                first_yield(
                    old(self).grid().entities(),
                    tile_id.0 as int,
                    id,
                    old(self).grid().spec_x_size() as int,
                    old(self).grid().spec_y_size() as int,
                ) as usize,
            ),
            final(self).organisms().active_plant_ids() == old(self).organisms().active_plant_ids().push(
                id,
            ),
            final(self).organisms().active_genome_ids() == old(self).organisms().active_genome_ids(),
            forall|changes: int|
                changes >= 1 + old(self).cells_at_stake(tile_id.0 as int) && #[trigger] old(self).grid().room(changes) ==> final(self).grid().room(
                    changes - 1 - old(self).cells_at_stake(tile_id.0 as int),
                ),
            old(self).grid().entities()[tile_id.0 as int] is Cell ==> old(self).captured(
                final(self),
                tile_id,
                old(self).grid().entities()[tile_id.0 as int]->Cell_0,
            ),
            forall|plant_id: PlantId|
                #![trigger old(self).organisms().plants()[plant_id.0 as int]]
                plant_id.0 < old(self).organisms().plants().len() && !(old(self).grid().entities()[tile_id.0 as int] is Cell && old(self).grid().entities()[tile_id.0 as int]->Cell_0 == plant_id) ==> final(self).organisms().plants()[plant_id.0 as int] == old(self).organisms().plants()[plant_id.0 as int],
            forall|tile: int|
                0 <= tile < old(self).grid().spec_size() && tile != tile_id.0 && old(self).grid().entities()[tile_id.0 as int] is Empty ==> #[trigger] final(self).grid().entities()[tile] == old(self).grid().entities()[tile],
    {
        let ghost before = *self;
        let new_plant_id = self.organisms.add_plant(genome_id);
        let ghost between = *self;
        proof {
            before.organisms.lemma_counts_fit();
            before.lemma_newcomer(&between, new_plant_id, None);
            assert(between.cells_at_stake(tile_id.0 as int) == before.cells_at_stake(
                tile_id.0 as int,
            )) by {
                if let Entity::Cell(owner, _) = before.grid.entities()[tile_id.0 as int] {
                    assert(before.organisms.living(owner));
                    assert(between.organisms.plants()[owner.0 as int]
                        == before.organisms.plants()[owner.0 as int]);
                }
            }
        }
        self.replace_entity(tile_id, Entity::Cell(new_plant_id, CellKind::Branch), Ghost(None));
        proof {
            assert(between.organisms.living(new_plant_id));
            assert(self.organisms().cells(new_plant_id) =~= Set::<usize>::empty().insert(tile_id.0));
            if let Entity::Cell(loser, _) = before.grid.entities()[tile_id.0 as int] {
                assert(before.organisms.living(loser));
                assert(between.organisms.plants()[loser.0 as int]
                    == before.organisms.plants()[loser.0 as int]);
                assert(between.organisms.living(loser));
                assert(before.captured(&*self, tile_id, loser));
            }
            assert(between.organisms.active(
                between.organisms.plants()[new_plant_id.0 as int]->Living_0.spec_genome_id(),
            ));
            assert(between.organisms.cells(new_plant_id).insert(tile_id.0) =~= Set::<usize>::empty().insert(
                tile_id.0,
            ));
            assert(self.organisms.genomes() =~= carrier_added(
                before.organisms.genomes(),
                genome_id,
                first_yield(
                    before.grid.entities(),
                    tile_id.0 as int,
                    new_plant_id,
                    before.grid.spec_x_size() as int,
                    before.grid.spec_y_size() as int,
                ) as usize,
            ));
            assert forall|changes: int|
                changes >= 1 + before.cells_at_stake(tile_id.0 as int) && #[trigger] before.grid.room(
                    changes,
                ) implies self.grid.room(changes - 1 - before.cells_at_stake(tile_id.0 as int)) by {
                assert(between.grid.room(changes));
            }
            assert forall|plant_id: PlantId|
                #![trigger before.organisms.plants()[plant_id.0 as int]]
                plant_id.0 < before.organisms.plants().len() && !(
                before.grid.entities()[tile_id.0 as int] is Cell
                    && before.grid.entities()[tile_id.0 as int]->Cell_0
                    == plant_id) implies self.organisms.plants()[plant_id.0 as int]
                == before.organisms.plants()[plant_id.0 as int] by {
                assert(plant_id != new_plant_id);
                assert(between.organisms.plants()[plant_id.0 as int]
                    == before.organisms.plants()[plant_id.0 as int]);
                assert(self.organisms.plants()[plant_id.0 as int]
                    == between.organisms.plants()[plant_id.0 as int]);
            }
        }
        new_plant_id
    }

    /// What the organism `loser` and the field are in the world `after`,
    /// once the organism has lost the tile `tile_id` to another: it lives
    /// on with all its other cells if those still hang together without the
    /// tile, or else with the leading part of them; and the tiles of the
    /// cells that it has given up are empty, while every other tile but
    /// `tile_id` is as before.
    pub open spec fn captured(&self, after: &Self, tile_id: TileId, loser: PlantId) -> bool {
        &&& after.organisms().living(loser)
        &&& ActivePlant::abandoned(
            self.organisms().cells(loser),
            tile_id.0,
            after.organisms().cells(loser),
            self.grid().spec_x_size() as int,
            self.grid().spec_y_size() as int,
        )
        &&& after.organisms().cells(loser).subset_of(
            self.organisms().cells(loser).remove(tile_id.0),
        )
        &&& forall|tile: int|
            0 <= tile < self.grid().spec_size() && tile != tile_id.0
                ==> #[trigger] after.grid().entities()[tile] == if self.organisms().cells(
                loser,
            ).contains(tile as usize) && !after.organisms().cells(loser).contains(tile as usize) {
                Entity::Empty
            } else {
                self.grid().entities()[tile]
            }
    }

    /// A world stays well formed when an organism without cells joins it.
    proof fn lemma_newcomer(&self, after: &Self, id: PlantId, excluded: Option<PlantId>)
        requires
            self.wf_but(excluded),
            after.grid() == self.grid(),
            id.0 == self.organisms().plants().len(),
            after.organisms().wf(self.grid().spec_x_size(), self.grid().spec_y_size()),
            after.organisms().plants().len() == self.organisms().plants().len() + 1,
            forall|j: int|
                0 <= j < self.organisms().plants().len()
                    ==> #[trigger] after.organisms().plants()[j] == self.organisms().plants()[j],
            after.organisms().living(id),
            after.organisms().cells(id) == Set::<usize>::empty(),
        ensures
            after.wf_but(excluded),
    {
        let before = self.organisms();
        let grown = after.organisms();
        assert forall|tile: int| 0 <= tile < after.grid().spec_size() implies match #[trigger] after.grid().entities()[tile] {
            Entity::Empty => true,
            Entity::Cell(owner, _) => grown.living(owner) && Some(owner) != excluded
                && grown.cells(owner).contains(tile as usize),
        } by {
            if let Entity::Cell(owner, _) = self.grid().entities()[tile] {
                assert(before.living(owner));
                assert(grown.plants()[owner.0 as int] == before.plants()[owner.0 as int]);
            }
        }
        assert forall|owner: PlantId, tile: usize|
            grown.living(owner) && Some(owner) != excluded && #[trigger] grown.cells(owner).contains(
                tile,
            ) implies tile < after.grid().spec_size() && after.grid().entities()[tile as int] is Cell
            && after.grid().entities()[tile as int]->Cell_0 == owner by {
            if owner.0 < before.plants().len() {
                assert(grown.plants()[owner.0 as int] == before.plants()[owner.0 as int]);
                assert(before.cells(owner).contains(tile));
            } else {
                assert(owner == id);
            }
        }
        assert forall|owner: PlantId| #[trigger]
            grown.living(owner) implies grown.plants()[owner.0 as int]->Living_0.is_connected(
            after.grid().spec_x_size(),
            after.grid().spec_y_size(),
        ) by {
            if owner.0 < before.plants().len() {
                assert(grown.plants()[owner.0 as int] == before.plants()[owner.0 as int]);
                assert(before.living(owner));
            } else {
                assert(owner == id);
                let xs = after.grid().spec_x_size() as int;
                let ys = after.grid().spec_y_size() as int;
                assert(grown.cells(id) =~= Set::<usize>::empty());
            }
        }
    }

    /// A world in which all tiles of the organism `dying` have been cleared
    /// is well formed but for that organism.
    proof fn lemma_vacated(&self, after: &Self, dying: PlantId, tiles: Seq<TileId>)
        requires
            self.wf(),
            self.organisms().living(dying),
            forall|cell: usize| self.organisms().cells(dying).contains(cell) <==> tiles.contains(TileId(cell)),
            after.organisms() == self.organisms(),
            after.grid().wf(),
            after.grid().spec_x_size() == self.grid().spec_x_size(),
            after.grid().spec_y_size() == self.grid().spec_y_size(),
            forall|tile: int|
                0 <= tile < self.grid().spec_size() ==> #[trigger] after.grid().entities()[tile]
                    == if tiles.contains(TileId(tile as usize)) {
                    Entity::Empty
                } else {
                    self.grid().entities()[tile]
                },
        ensures
            after.wf_but(Some(dying)),
    {
        let organisms = self.organisms();
        assert forall|tile: int| 0 <= tile < after.grid().spec_size() implies match #[trigger] after.grid().entities()[tile] {
            Entity::Empty => true,
            Entity::Cell(owner, _) => organisms.living(owner) && Some(owner) != Some(dying)
                && organisms.cells(owner).contains(tile as usize),
        } by {
            if !tiles.contains(TileId(tile as usize)) {
                if let Entity::Cell(owner, _) = self.grid().entities()[tile] {
                    assert(organisms.living(owner));
                    assert(organisms.cells(owner).contains(tile as usize));
                }
            }
        }
        assert forall|owner: PlantId, tile: usize|
            organisms.living(owner) && Some(owner) != Some(dying) && #[trigger] organisms.cells(
                owner,
            ).contains(tile) implies tile < after.grid().spec_size()
            && after.grid().entities()[tile as int] is Cell
            && after.grid().entities()[tile as int]->Cell_0 == owner by {
            if tiles.contains(TileId(tile)) {
                assert(organisms.cells(dying).contains(tile));
            }
        }
    }

    /// A world that is well formed but for an organism is well formed once
    /// that organism is dead.
    proof fn lemma_retired(&self, after: &Self, dying: PlantId)
        requires
            self.wf_but(Some(dying)),
            self.organisms().living(dying),
            after.grid() == self.grid(),
            after.organisms().wf(self.grid().spec_x_size(), self.grid().spec_y_size()),
            after.organisms().plants().len() == self.organisms().plants().len(),
            after.organisms().plants()[dying.0 as int] is Dead,
            forall|j: int|
                0 <= j < self.organisms().plants().len() && j != dying.0
                    ==> #[trigger] after.organisms().plants()[j] == self.organisms().plants()[j],
        ensures
            after.wf_but(None),
    {
        let before = self.organisms();
        let later = after.organisms();
        assert forall|tile: int| 0 <= tile < after.grid().spec_size() implies match #[trigger] after.grid().entities()[tile] {
            Entity::Empty => true,
            Entity::Cell(owner, _) => later.living(owner) && Some(owner) != None::<PlantId>
                && later.cells(owner).contains(tile as usize),
        } by {
            if let Entity::Cell(owner, _) = self.grid().entities()[tile] {
                assert(before.living(owner));
                assert(owner.0 != dying.0);
                assert(later.plants()[owner.0 as int] == before.plants()[owner.0 as int]);
            }
        }
        assert forall|owner: PlantId, tile: usize|
            later.living(owner) && #[trigger] later.cells(owner).contains(tile) implies tile
            < after.grid().spec_size() && after.grid().entities()[tile as int] is Cell
            && after.grid().entities()[tile as int]->Cell_0 == owner by {
            assert(owner.0 != dying.0);
            assert(later.plants()[owner.0 as int] == before.plants()[owner.0 as int]);
            assert(before.living(owner));
            assert(before.cells(owner).contains(tile));
        }
        assert forall|owner: PlantId| #[trigger]
            later.living(owner) implies later.plants()[owner.0 as int]->Living_0.is_connected(
            after.grid().spec_x_size(),
            after.grid().spec_y_size(),
        ) by {
            assert(owner.0 != dying.0);
            assert(later.plants()[owner.0 as int] == before.plants()[owner.0 as int]);
            assert(before.living(owner));
        }
    }

    /// Lets the seed `seed` grow on the empty tile `tile_id`: nothing from
    /// a barren one, or else a new organism that carries the genome
    /// `genome_id` of the dying organism or the genome that the seed brings.
    fn sow(
        &mut self,
        tile_id: TileId,
        seed: Seed<T>,
        genome_id: GenomeId,
        round: usize,
        Ghost(dying): Ghost<PlantId>,
    ) -> (sprout: Option<PlantId>)
        requires
            old(self).wf_but(Some(dying)),
            old(self).organisms().living(dying),
            old(self).organisms().plants()[dying.0 as int]->Living_0.spec_genome_id() == genome_id,
            tile_id.0 < old(self).grid().spec_size(),
            old(self).grid().entities()[tile_id.0 as int] is Empty,
            old(self).grid().room(1),
            old(self).organisms().plants().len() < usize::MAX,
        ensures
            final(self).wf_but(Some(dying)),
            final(self).score_cache == old(self).score_cache,
            final(self).take_top == old(self).take_top,
            final(self).seed_rate == old(self).seed_rate,
            final(self).mutation_rate == old(self).mutation_rate,
            final(self).grid().spec_x_size() == old(self).grid().spec_x_size(),
            final(self).grid().spec_y_size() == old(self).grid().spec_y_size(),
            forall|j: int|
                0 <= j < old(self).organisms().plants().len() ==> #[trigger] final(self).organisms().plants()[j] == old(self).organisms().plants()[j],
            forall|g: int|
                0 <= g < old(self).organisms().genomes().len() ==> same_lineage(
                    #[trigger] final(self).organisms().genomes()[g],
                    old(self).organisms().genomes()[g],
                ),
            forall|tile: int|
                0 <= tile < old(self).grid().spec_size() && tile != tile_id.0 ==> #[trigger] final(self).grid().entities()[tile] == old(self).grid().entities()[tile],
            sprout is None <==> seed is Barren,
            final(self).grid().entities() == old(self).grid().entities().update(
                tile_id.0 as int,
                match sprout {
                    Some(id) => Entity::Cell(id, CellKind::Branch),
                    None => Entity::Empty,
                },
            ),
            final(self).organisms().genomes() == records_sown(
                old(self).organisms().genomes(),
                genome_id,
                round,
                seed,
                first_yield(
                    old(self).grid().entities(),
                    tile_id.0 as int,
                    PlantId(old(self).organisms().plants().len() as usize),
                    old(self).grid().spec_x_size() as int,
                    old(self).grid().spec_y_size() as int,
                ) as usize,
            ),
            final(self).organisms().active_plant_ids() == if seed is Barren {
                old(self).organisms().active_plant_ids()
            } else {
                old(self).organisms().active_plant_ids().push(
                    PlantId(old(self).organisms().plants().len() as usize),
                )
            },
            final(self).organisms().active_genome_ids() == if seed is Mutant {
                old(self).organisms().active_genome_ids().push(
                    GenomeId(old(self).organisms().genomes().len() as usize),
                )
            } else {
                old(self).organisms().active_genome_ids()
            },
            seed is Barren ==> final(self).grid().entities()[tile_id.0 as int] is Empty && final(self).organisms().plants().len() == old(self).organisms().plants().len() && final(self).organisms().genomes().len() == old(self).organisms().genomes().len(),
            !(seed is Barren) ==> {
                &&& sprout == Some(PlantId(old(self).organisms().plants().len() as usize))
                &&& final(self).organisms().plants().len() == old(self).organisms().plants().len() + 1
                &&& final(self).organisms().living(sprout.unwrap())
                &&& final(self).organisms().cells(sprout.unwrap()) == Set::<usize>::empty().insert(tile_id.0)
                &&& final(self).grid().entities()[tile_id.0 as int] == Entity::Cell(
                    sprout.unwrap(),
                    CellKind::Branch,
                )
            },
            seed is Scion ==> final(self).organisms().genomes().len() == old(self).organisms().genomes().len() && final(self).organisms().plants()[sprout.unwrap().0 as int]->Living_0.spec_genome_id() == genome_id,
            seed is Mutant ==> {
                let new_genome_id = GenomeId(old(self).organisms().genomes().len() as usize);
                &&& final(self).organisms().genomes().len() == old(self).organisms().genomes().len()
                    + 1
                &&& final(self).organisms().plants()[sprout.unwrap().0 as int]->Living_0.spec_genome_id()
                    == new_genome_id
                &&& final(self).organisms().genomes()[new_genome_id.0 as int] is Living
                &&& final(self).organisms().genomes()[new_genome_id.0 as int]->Living_0.genome
                    == seed->Mutant_0
                &&& final(self).organisms().genomes()[new_genome_id.0 as int]->Living_0.parent_genome_id == Some(
                    genome_id,
                )
                &&& final(self).organisms().genomes()[new_genome_id.0 as int]->Living_0.created_at
                    == round
            },
            forall|changes: int|
                changes >= 1 && #[trigger] old(self).grid().room(changes) ==> final(self).grid().room(changes - 1),
    {
        let ghost before = *self;
        proof {
            before.organisms.lemma_counts_fit();
            assert(before.organisms.active(genome_id));
        }
        let plant_id = match seed {
            Seed::Barren => {
                proof {
                    before.grid.lemma_wf_lengths();
                    assert(self.grid.entities() =~= before.grid.entities().update(
                        tile_id.0 as int,
                        Entity::Empty,
                    ));
                    assert forall|changes: int|
                        changes >= 1 && #[trigger] before.grid.room(
                            changes,
                        ) implies self.grid.room(changes - 1) by {
                        assert forall|tile: int| 0 <= tile < self.grid.spec_size() implies (
                        #[trigger] self.grid.nonces()[tile]) + 13 * (changes - 1) <= usize::MAX by {
                            assert(self.grid.nonces()[tile] + 13 * changes <= usize::MAX);
                        }
                    }
                }
                return None;
            },
            Seed::Scion => self.organisms.add_plant(genome_id),
            Seed::Mutant(genome) => self.organisms.add_mutated_plant(genome_id, round, genome),
        };
        let ghost between = *self;
        proof {
            before.lemma_newcomer(&between, plant_id, Some(dying));
            assert(plant_id != dying);
            assert(between.cells_at_stake(tile_id.0 as int) == 0);
        }
        self.replace_entity(tile_id, Entity::Cell(plant_id, CellKind::Branch), Ghost(Some(dying)));
        proof {
            assert(between.organisms.living(plant_id));
            assert(self.organisms().cells(plant_id) =~= Set::<usize>::empty().insert(tile_id.0));
            assert forall|j: int| 0 <= j < before.organisms.plants().len() implies #[trigger] self.organisms.plants()[j]
                == before.organisms.plants()[j] by {
                assert(PlantId(j as usize) != plant_id);
                assert(between.organisms.plants()[j] == before.organisms.plants()[j]);
                assert(self.organisms.plants()[PlantId(j as usize).0 as int]
                    == between.organisms.plants()[PlantId(j as usize).0 as int]);
            }
            let carried = between.organisms.plants()[plant_id.0 as int]->Living_0.spec_genome_id();
            assert(self.organisms.genomes() == between.organisms.genomes().update(
                carried.0 as int,
                between.organisms.with_yield(
                    carried,
                    energy_yield_of(
                        between.organisms.cells(plant_id).insert(tile_id.0),
                        between.grid.entities().update(
                            tile_id.0 as int,
                            Entity::Cell(plant_id, CellKind::Branch),
                        ),
                        between.grid.spec_x_size() as int,
                        between.grid.spec_y_size() as int,
                    ) as usize,
                ),
            ));
            assert(between.organisms.active(carried));
            assert(between.organisms.cells(plant_id).insert(tile_id.0) =~= Set::<usize>::empty().insert(
                tile_id.0,
            ));
            assert(self.organisms.genomes() =~= records_sown(
                before.organisms.genomes(),
                genome_id,
                round,
                seed,
                first_yield(
                    before.grid.entities(),
                    tile_id.0 as int,
                    plant_id,
                    before.grid.spec_x_size() as int,
                    before.grid.spec_y_size() as int,
                ) as usize,
            ));
            before.grid.lemma_wf_lengths();
            self.grid.lemma_wf_lengths();
            assert(self.grid.entities() =~= before.grid.entities().update(
                tile_id.0 as int,
                Entity::Cell(plant_id, CellKind::Branch),
            ));
            assert forall|g: int| 0 <= g < before.organisms.genomes().len() implies same_lineage(
                #[trigger] self.organisms.genomes()[g],
                before.organisms.genomes()[g],
            ) by {
                assert(same_lineage(between.organisms.genomes()[g], before.organisms.genomes()[g]));
            }
            assert forall|changes: int|
                changes >= 1 && #[trigger] before.grid.room(changes) implies self.grid.room(
                changes - 1,
            ) by {
                assert(between.grid.room(changes));
            }
        }
        Some(plant_id)
    }

    /// The handle of the organism that grows from the seed at the place
    /// `i` of `sowing` in a world that had `plants` organisms before.
    pub open spec fn sprout_id(plants: nat, sowing: Seq<(TileId, Seed<T>)>, i: int) -> PlantId {
        PlantId((plants + sprouts(sowing, i)) as usize)
    }

    /// What stands on the tile of the seed at the place `i` of `sowing`
    /// once the seed has been sown.
    pub open spec fn sown(plants: nat, sowing: Seq<(TileId, Seed<T>)>, i: int) -> Entity {
        if sowing[i].1 is Barren {
            Entity::Empty
        } else {
            Entity::Cell(Self::sprout_id(plants, sowing, i), CellKind::Branch)
        }
    }

    /// The organism that has grown from the seed at the place `i` of
    /// `sowing`, which is not barren, lives on the tile of the seed alone
    /// and carries the genome `genome_id` or the genome that the seed brought.
    pub open spec fn sprouted(
        &self,
        plants: nat,
        genomes: nat,
        sowing: Seq<(TileId, Seed<T>)>,
        i: int,
        genome_id: GenomeId,
        round: usize,
    ) -> bool {
        let id = Self::sprout_id(plants, sowing, i);
        &&& self.organisms().living(id)
        &&& self.organisms().cells(id) == Set::<usize>::empty().insert(sowing[i].0.0)
        &&& sowing[i].1 is Scion
            ==> self.organisms().plants()[id.0 as int]->Living_0.spec_genome_id() == genome_id
        &&& sowing[i].1 is Mutant ==> {
            let new_genome_id = GenomeId((genomes + mutants(sowing, i)) as usize);
            &&& self.organisms().plants()[id.0 as int]->Living_0.spec_genome_id() == new_genome_id
            &&& self.organisms().active(new_genome_id)
            &&& self.organisms().genomes()[new_genome_id.0 as int]->Living_0.genome
                == sowing[i].1->Mutant_0
            &&& self.organisms().genomes()[new_genome_id.0 as int]->Living_0.parent_genome_id
                == Some(genome_id)
            &&& self.organisms().genomes()[new_genome_id.0 as int]->Living_0.created_at == round
        }
    }

    /// The first `done` seeds of `sowing` have been sown since the world was `start`.
    pub open spec fn sown_upto(
        &self,
        start: &Self,
        sowing: Seq<(TileId, Seed<T>)>,
        done: int,
        genome_id: GenomeId,
        round: usize,
    ) -> bool {
        let plants = start.organisms().plants().len();
        let genomes = start.organisms().genomes().len();
        &&& self.spec_take_top() == start.spec_take_top()
        &&& self.spec_seed_rate() == start.spec_seed_rate()
        &&& self.spec_mutation_rate() == start.spec_mutation_rate()
        &&& self.grid().spec_x_size() == start.grid().spec_x_size()
        &&& self.grid().spec_y_size() == start.grid().spec_y_size()
        &&& self.organisms().plants().len() == plants + sprouts(sowing, done)
        &&& self.organisms().genomes().len() == genomes + mutants(sowing, done)
        &&& forall|j: int|
            0 <= j < plants ==> #[trigger] self.organisms().plants()[j]
                == start.organisms().plants()[j]
        &&& forall|g: int|
            0 <= g < genomes ==> same_lineage(
                #[trigger] self.organisms().genomes()[g],
                start.organisms().genomes()[g],
            )
        &&& self.grid().entities() == field_sown(start.grid().entities(), plants, sowing, done)
        &&& self.organisms().genomes() == genomes_sown(
            start.organisms().genomes(),
            genome_id,
            round,
            start.grid().entities(),
            plants,
            sowing,
            done,
            start.grid().spec_x_size() as int,
            start.grid().spec_y_size() as int,
        )
        &&& self.organisms().active_plant_ids() == start.organisms().active_plant_ids() + sprout_ids(
            plants,
            sowing,
            done,
        )
        &&& self.organisms().active_genome_ids() == start.organisms().active_genome_ids()
            + mutant_ids(genomes, sowing, done)
        &&& self.tiles_sown(start, sowing, done)
        &&& forall|i: int|
            0 <= i < done && !(#[trigger] seed_at(sowing, i) is Barren) ==> self.sprouted(
                plants,
                genomes,
                sowing,
                i,
                genome_id,
                round,
            )
    }

    /// On the tiles of the first `done` seeds of `sowing` stands what has
    /// grown from them; all other tiles are as in the world `start`.
    pub open spec fn tiles_sown(&self, start: &Self, sowing: Seq<(TileId, Seed<T>)>, done: int) -> bool {
        let plants = start.organisms().plants().len();
        &&& forall|i: int|
            0 <= i < done ==> self.grid().entities()[#[trigger] seed_tile(sowing, i)] == Self::sown(
                plants,
                sowing,
                i,
            )
        &&& forall|i: int|
            done <= i < sowing.len() ==> self.grid().entities()[#[trigger] seed_tile(sowing, i)]
                == start.grid().entities()[seed_tile(sowing, i)]
        &&& forall|tile: int|
            0 <= tile < start.grid().spec_size() && !seeded(sowing, tile)
                ==> #[trigger] self.grid().entities()[tile] == start.grid().entities()[tile]
    }

    /// One more seed has been sown: the tiles.
    proof fn lemma_sown_one_tile(
        &self,
        start: &Self,
        earlier: &Self,
        sowing: Seq<(TileId, Seed<T>)>,
        done: int,
        sprout: Option<PlantId>,
    )
        requires
            0 <= done < sowing.len(),
            distinct_tiles(sowing),
            forall|i: int| 0 <= i < sowing.len() ==> 0 <= #[trigger] seed_tile(sowing, i) < start.grid().spec_size(),
            earlier.tiles_sown(start, sowing, done),
            earlier.organisms().plants().len() == start.organisms().plants().len() + sprouts(
                sowing,
                done,
            ),
            earlier.organisms().plants().len() <= usize::MAX,
            earlier.grid().spec_x_size() == start.grid().spec_x_size(),
            earlier.grid().spec_y_size() == start.grid().spec_y_size(),
            forall|tile: int|
                0 <= tile < earlier.grid().spec_size() && tile != seed_tile(sowing, done)
                    ==> #[trigger] self.grid().entities()[tile] == earlier.grid().entities()[tile],
            seed_at(sowing, done) is Barren ==> self.grid().entities()[seed_tile(sowing, done)] is Empty,
            !(seed_at(sowing, done) is Barren) ==> self.grid().entities()[seed_tile(sowing, done)]
                == Entity::Cell(
                PlantId(earlier.organisms().plants().len() as usize),
                CellKind::Branch,
            ),
        ensures
            self.tiles_sown(start, sowing, done + 1),
    {
        let plants = start.organisms().plants().len();
        let tile = seed_tile(sowing, done);
        assert forall|i: int| 0 <= i < done + 1 implies self.grid().entities()[#[trigger] seed_tile(
            sowing,
            i,
        )] == Self::sown(plants, sowing, i) by {
            if i < done {
                assert(seed_tile(sowing, i) != seed_tile(sowing, done));
                assert(self.grid().entities()[seed_tile(sowing, i)]
                    == earlier.grid().entities()[seed_tile(sowing, i)]);
            }
        }
        assert forall|i: int|
            done + 1 <= i < sowing.len() implies self.grid().entities()[#[trigger] seed_tile(
            sowing,
            i,
        )] == start.grid().entities()[seed_tile(sowing, i)] by {
            assert(seed_tile(sowing, i) != seed_tile(sowing, done));
            assert(self.grid().entities()[seed_tile(sowing, i)]
                == earlier.grid().entities()[seed_tile(sowing, i)]);
        }
        assert forall|other: int|
            0 <= other < start.grid().spec_size() && !seeded(
                sowing,
                other,
            ) implies #[trigger] self.grid().entities()[other] == start.grid().entities()[other] by {
            assert(seed_tile(sowing, done) != other);
            assert(self.grid().entities()[other] == earlier.grid().entities()[other]);
        }
    }

    /// One more seed has been sown: what has grown so far.
    proof fn lemma_sown_one_sprout(
        &self,
        earlier: &Self,
        plants: nat,
        genomes: nat,
        sowing: Seq<(TileId, Seed<T>)>,
        done: int,
        i: int,
        genome_id: GenomeId,
        round: usize,
        sprout: Option<PlantId>,
    )
        requires
            0 <= i <= done < sowing.len(),
            !(seed_at(sowing, i) is Barren),
            plants + sowing.len() <= usize::MAX,
            genomes + sowing.len() <= usize::MAX,
            earlier.organisms().plants().len() == plants + sprouts(sowing, done),
            earlier.organisms().genomes().len() == genomes + mutants(sowing, done),
            i < done ==> earlier.sprouted(plants, genomes, sowing, i, genome_id, round),
            forall|j: int|
                0 <= j < earlier.organisms().plants().len() ==> #[trigger] self.organisms().plants()[j]
                    == earlier.organisms().plants()[j],
            forall|g: int|
                0 <= g < earlier.organisms().genomes().len() ==> same_lineage(
                    #[trigger] self.organisms().genomes()[g],
                    earlier.organisms().genomes()[g],
                ),
            self.organisms().plants().len() >= earlier.organisms().plants().len(),
            self.organisms().genomes().len() >= earlier.organisms().genomes().len(),
            !(seed_at(sowing, done) is Barren) ==> {
                &&& sprout == Some(PlantId(earlier.organisms().plants().len() as usize))
                &&& self.organisms().living(sprout.unwrap())
                &&& self.organisms().cells(sprout.unwrap()) == Set::<usize>::empty().insert(
                    sowing[done].0.0,
                )
            },
            seed_at(sowing, done) is Scion
                ==> self.organisms().plants()[sprout.unwrap().0 as int]->Living_0.spec_genome_id()
                == genome_id,
            seed_at(sowing, done) is Mutant ==> {
                let new_genome_id = GenomeId(earlier.organisms().genomes().len() as usize);
                &&& self.organisms().genomes().len() == earlier.organisms().genomes().len() + 1
                &&& self.organisms().plants()[sprout.unwrap().0 as int]->Living_0.spec_genome_id()
                    == new_genome_id
                &&& self.organisms().genomes()[new_genome_id.0 as int] is Living
                &&& self.organisms().genomes()[new_genome_id.0 as int]->Living_0.genome
                    == sowing[done].1->Mutant_0
                &&& self.organisms().genomes()[new_genome_id.0 as int]->Living_0.parent_genome_id
                    == Some(genome_id)
                &&& self.organisms().genomes()[new_genome_id.0 as int]->Living_0.created_at == round
            },
        ensures
            self.sprouted(plants, genomes, sowing, i, genome_id, round),
    {
        let id = Self::sprout_id(plants, sowing, i);
        lemma_sprouts_bound(sowing, done);
        lemma_sprouts_bound(sowing, i);
        if i < done {
            lemma_sprouts_grow(sowing, i, done);
            assert(self.organisms().plants()[id.0 as int] == earlier.organisms().plants()[id.0 as int]);
            if sowing[i].1 is Mutant {
                lemma_mutants_grow(sowing, i, done);
                let g = (genomes + mutants(sowing, i)) as int;
                assert(0 <= g < earlier.organisms().genomes().len());
                let record = self.organisms().genomes()[g];
            }
        }
    }

    /// Sows the seeds of `sowing`, each on the tile given with it, in their order.
    fn sow_all(
        &mut self,
        sowing: &Vec<(TileId, Seed<T>)>,
        genome_id: GenomeId,
        round: usize,
        Ghost(dying): Ghost<PlantId>,
    )
        requires
            old(self).wf_but(Some(dying)),
            old(self).organisms().living(dying),
            old(self).organisms().plants()[dying.0 as int]->Living_0.spec_genome_id() == genome_id,
            distinct_tiles(sowing@),
            forall|i: int|
                0 <= i < sowing@.len() ==> 0 <= #[trigger] seed_tile(sowing@, i) < old(self).grid().spec_size() && old(self).grid().entities()[seed_tile(sowing@, i)] is Empty,
            old(self).grid().room(sowing@.len() as int),
            old(self).organisms().plants().len() + sowing@.len() <= usize::MAX,
            old(self).organisms().genomes().len() + sowing@.len() <= usize::MAX,
        ensures
            final(self).wf_but(Some(dying)),
            final(self).score_cache == old(self).score_cache,
            final(self).sown_upto(old(self), sowing@, sowing@.len() as int, genome_id, round),
    {
        let ghost start = *self;
        let ghost plants = start.organisms().plants().len();
        let ghost genomes = start.organisms().genomes().len();
        let mut index: usize = 0;
        proof {
            assert(start.organisms().active_plant_ids() + sprout_ids(plants, sowing@, 0)
                =~= start.organisms().active_plant_ids());
            assert(start.organisms().active_genome_ids() + mutant_ids(genomes, sowing@, 0)
                =~= start.organisms().active_genome_ids());
        }
        while index < sowing.len()
            invariant
                index <= sowing@.len(),
                plants == start.organisms().plants().len(),
                genomes == start.organisms().genomes().len(),
                start.organisms().living(dying),
                start.organisms().plants()[dying.0 as int]->Living_0.spec_genome_id() == genome_id,
                plants + sowing@.len() <= usize::MAX,
                genomes + sowing@.len() <= usize::MAX,
                distinct_tiles(sowing@),
                forall|i: int|
                    0 <= i < sowing@.len() ==> 0 <= #[trigger] seed_tile(sowing@, i)
                        < start.grid().spec_size() && start.grid().entities()[seed_tile(
                        sowing@,
                        i,
                    )] is Empty,
                self.wf_but(Some(dying)),
                self.score_cache == start.score_cache,
                self.grid().room(sowing@.len() - index),
                self.sown_upto(&start, sowing@, index as int, genome_id, round),
            decreases sowing@.len() - index,
        {
            let (tile_id, seed) = sowing[index];
            let ghost earlier = *self;
            proof {
                lemma_sprouts_bound(sowing@, index as int);
                assert(earlier.organisms().plants()[dying.0 as int]
                    == start.organisms().plants()[dying.0 as int]);
                assert(self.grid().room(1)) by {
                    assert forall|tile: int| 0 <= tile < self.grid().spec_size() implies (
                    #[trigger] self.grid().nonces()[tile]) + 13 * 1 <= usize::MAX by {
                        assert(self.grid().nonces()[tile] + 13 * (sowing@.len() - index)
                            <= usize::MAX);
                    }
                }
                assert(seed_tile(sowing@, index as int) == tile_id.0);
                assert(seed_at(sowing@, index as int) == seed);
                assert(self.grid().entities()[seed_tile(sowing@, index as int)] is Empty);
            }
            let sprout = self.sow(tile_id, seed, genome_id, round, Ghost(dying));
            proof {
                let done = index as int;
                assert(sprouts(sowing@, done + 1) == sprouts(sowing@, done) + if seed is Barren {
                    0nat
                } else {
                    1nat
                });
                assert(mutants(sowing@, done + 1) == mutants(sowing@, done) + if seed is Mutant {
                    1nat
                } else {
                    0nat
                });
                self.lemma_sown_one_tile(&start, &earlier, sowing@, done, sprout);
                assert(Self::sprout_id(plants, sowing@, done) == PlantId(
                    earlier.organisms().plants().len() as usize,
                ));
                assert(self.grid().entities() == field_sown(
                    start.grid().entities(),
                    plants,
                    sowing@,
                    done + 1,
                ));
                assert(self.organisms().genomes() == genomes_sown(
                    start.organisms().genomes(),
                    genome_id,
                    round,
                    start.grid().entities(),
                    plants,
                    sowing@,
                    done + 1,
                    start.grid().spec_x_size() as int,
                    start.grid().spec_y_size() as int,
                ));
                assert(self.organisms().active_plant_ids() =~= start.organisms().active_plant_ids()
                    + sprout_ids(plants, sowing@, done + 1));
                assert(self.organisms().active_genome_ids()
                    =~= start.organisms().active_genome_ids() + mutant_ids(
                    genomes,
                    sowing@,
                    done + 1,
                ));
                assert forall|i: int|
                    0 <= i < done + 1 && !(#[trigger] seed_at(sowing@, i) is Barren) implies self.sprouted(
                    plants,
                    genomes,
                    sowing@,
                    i,
                    genome_id,
                    round,
                ) by {
                    self.lemma_sown_one_sprout(
                        &earlier,
                        plants,
                        genomes,
                        sowing@,
                        done,
                        i,
                        genome_id,
                        round,
                        sprout,
                    );
                }
                assert forall|j: int| 0 <= j < plants implies #[trigger] self.organisms().plants()[j]
                    == start.organisms().plants()[j] by {
                    assert(earlier.organisms().plants()[j] == start.organisms().plants()[j]);
                }
                assert forall|g: int| 0 <= g < genomes implies same_lineage(
                    #[trigger] self.organisms().genomes()[g],
                    start.organisms().genomes()[g],
                ) by {
                    assert(same_lineage(
                        earlier.organisms().genomes()[g],
                        start.organisms().genomes()[g],
                    ));
                    assert(same_lineage(
                        self.organisms().genomes()[g],
                        earlier.organisms().genomes()[g],
                    ));
                }
            }
            index = index + 1;
        }
    }

    /// The living organism `plant_id` dies in the round `round`: its tiles
    /// are cleared; then, tile by tile in the order of `sowing`, which
    /// names each of its tiles once, the seed given with the tile is sown;
    /// and at last the organism is archived, and its genome too if no living
    /// organism carries it any more.
    pub fn remove_plant(&mut self, plant_id: PlantId, round: usize, sowing: Vec<(TileId, Seed<T>)>)
        requires
            old(self).wf(),
            old(self).organisms().living(plant_id),
            distinct_tiles(sowing@),
            forall|cell: usize|
                #![trigger old(self).organisms().cells(plant_id).contains(cell)]
                old(self).organisms().cells(plant_id).contains(cell) <==> seeded(sowing@, cell as int),
            old(self).grid().room(2 * (sowing@.len() as int)),
            old(self).organisms().plants().len() + sowing@.len() <= usize::MAX,
            old(self).organisms().genomes().len() + sowing@.len() <= usize::MAX,
        ensures
            final(self).wf(),
            final(self).spec_take_top() == old(self).spec_take_top(),
            final(self).spec_seed_rate() == old(self).spec_seed_rate(),
            final(self).spec_mutation_rate() == old(self).spec_mutation_rate(),
            final(self).grid().spec_x_size() == old(self).grid().spec_x_size(),
            final(self).grid().spec_y_size() == old(self).grid().spec_y_size(),
            final(self).score_entries() == old(self).score_entries(),
            final(self).organisms().plants().len() == old(self).organisms().plants().len()
                + sprouts(sowing@, sowing@.len() as int),
            final(self).organisms().genomes().len() == old(self).organisms().genomes().len()
                + mutants(sowing@, sowing@.len() as int),
            final(self).organisms().plants()[plant_id.0 as int] == Either::<
                ActivePlant,
                InactivePlant,
            >::Dead(
                InactivePlant {
                    id: plant_id,
                    genome_id: old(self).organisms().plants()[plant_id.0 as int]->Living_0.spec_genome_id(),
                },
            ),
            forall|j: int|
                0 <= j < old(self).organisms().plants().len() && j != plant_id.0 ==> #[trigger] final(self).organisms().plants()[j] == old(self).organisms().plants()[j],
            final(self).grid().entities() == field_sown(
                vacated(old(self).grid().entities(), old(self).organisms().cells(plant_id)),
                old(self).organisms().plants().len(),
                sowing@,
                sowing@.len() as int,
            ),
            final(self).organisms().genomes() == records_retired(
                genomes_sown(
                    old(self).organisms().genomes(),
                    old(self).organisms().plants()[plant_id.0 as int]->Living_0.spec_genome_id(),
                    round,
                    vacated(old(self).grid().entities(), old(self).organisms().cells(plant_id)),
                    old(self).organisms().plants().len(),
                    sowing@,
                    sowing@.len() as int,
                    old(self).grid().spec_x_size() as int,
                    old(self).grid().spec_y_size() as int,
                ),
                old(self).organisms().plants()[plant_id.0 as int]->Living_0.spec_genome_id(),
                round,
            ),
            final(self).organisms().active_plant_ids() == without(
                old(self).organisms().active_plant_ids() + sprout_ids(
                    old(self).organisms().plants().len(),
                    sowing@,
                    sowing@.len() as int,
                ),
                plant_id,
            ),
            final(self).organisms().active_genome_ids() == if final(self).organisms().active(
                old(self).organisms().plants()[plant_id.0 as int]->Living_0.spec_genome_id(),
            ) {
                old(self).organisms().active_genome_ids() + mutant_ids(
                    old(self).organisms().genomes().len(),
                    sowing@,
                    sowing@.len() as int,
                )
            } else {
                without(
                    old(self).organisms().active_genome_ids() + mutant_ids(
                        old(self).organisms().genomes().len(),
                        sowing@,
                        sowing@.len() as int,
                    ),
                    old(self).organisms().plants()[plant_id.0 as int]->Living_0.spec_genome_id(),
                )
            },
            forall|i: int|
                0 <= i < sowing@.len() ==> final(self).grid().entities()[#[trigger] seed_tile(
                    sowing@,
                    i,
                )] == Self::sown(old(self).organisms().plants().len(), sowing@, i),
            forall|tile: int|
                0 <= tile < old(self).grid().spec_size() && !old(self).organisms().cells(
                    plant_id,
                ).contains(tile as usize) ==> #[trigger] final(self).grid().entities()[tile] == old(self).grid().entities()[tile],
            forall|i: int|
                0 <= i < sowing@.len() && !(#[trigger] seed_at(sowing@, i) is Barren) ==> {
                    let id = Self::sprout_id(old(self).organisms().plants().len(), sowing@, i);
                    &&& final(self).organisms().living(id)
                    &&& final(self).organisms().cells(id) == Set::<usize>::empty().insert(
                        sowing@[i].0.0,
                    )
                    &&& sowing@[i].1 is Scion ==> final(self).organisms().plants()[id.0 as int]->Living_0.spec_genome_id() == old(self).organisms().plants()[plant_id.0 as int]->Living_0.spec_genome_id()
                    &&& sowing@[i].1 is Mutant ==> final(self).organisms().plants()[id.0 as int]->Living_0.spec_genome_id() == GenomeId(
                        (old(self).organisms().genomes().len() + mutants(sowing@, i)) as usize,
                    )
                },
            forall|i: int|
                0 <= i < sowing@.len() && #[trigger] seed_at(sowing@, i) is Mutant ==> {
                    let record = final(self).organisms().genomes()[(old(self).organisms().genomes().len() + mutants(sowing@, i)) as int];
                    &&& record is Living
                    &&& record->Living_0.genome == sowing@[i].1->Mutant_0
                    &&& record->Living_0.parent_genome_id == Some(
                        old(self).organisms().plants()[plant_id.0 as int]->Living_0.spec_genome_id(),
                    )
                    &&& record->Living_0.created_at == round
                },
            forall|g: int|
                0 <= g < old(self).organisms().genomes().len() ==> same_lineage(
                    #[trigger] final(self).organisms().genomes()[g],
                    old(self).organisms().genomes()[g],
                ) || (g == old(self).organisms().plants()[plant_id.0 as int]->Living_0.spec_genome_id().0
                    && archived_in(
                    final(self).organisms().genomes()[g],
                    old(self).organisms().genomes()[g],
                    round,
                )),
    {
        let ghost before = *self;
        let ghost count = before.organisms.plants().len();
        let ghost records = before.organisms.genomes().len();
        let plant = self.organisms.plant(plant_id);
        let genome_id = plant.genome_id();

        let mut old_tiles: Vec<TileId> = Vec::new();
        let mut index: usize = 0;
        while index < sowing.len()
            invariant
                index <= sowing@.len(),
                old_tiles@.len() == index,
                forall|i: int| 0 <= i < index ==> #[trigger] old_tiles@[i] == sowing@[i].0,
            decreases sowing@.len() - index,
        {
            old_tiles.push(sowing[index].0);
            index = index + 1;
        }
        proof {
            before.grid.lemma_wf_lengths();
            assert forall|cell: usize|
                before.organisms.cells(plant_id).contains(cell) <==> old_tiles@.contains(
                    TileId(cell),
                ) by {
                if before.organisms.cells(plant_id).contains(cell) {
                    let i = choose|i: int|
                        0 <= i < sowing@.len() && #[trigger] seed_tile(sowing@, i) == cell as int;
                    assert(old_tiles@[i] == TileId(cell));
                }
                if old_tiles@.contains(TileId(cell)) {
                    let i = choose|i: int| 0 <= i < old_tiles@.len() && old_tiles@[i] == TileId(cell);
                    assert(seed_tile(sowing@, i) == cell as int);
                }
            }
            assert forall|i: int| 0 <= i < old_tiles@.len() implies (#[trigger] old_tiles@[i]).0
                < before.grid.spec_size() by {
                let t = old_tiles@[i];
                assert(old_tiles@.contains(t));
                assert(t == TileId(t.0));
                assert(before.organisms.cells(plant_id).contains(t.0));
            }
            assert(before.grid.room(old_tiles@.len() as int)) by {
                assert forall|tile: int| 0 <= tile < before.grid.spec_size() implies (
                #[trigger] before.grid.nonces()[tile]) + 13 * old_tiles@.len() <= usize::MAX by {
                    assert(before.grid.nonces()[tile] + 13 * (2 * sowing@.len()) <= usize::MAX);
                }
            }
        }
        self.set_empty(&old_tiles);
        let ghost cleared = *self;
        proof {
            before.lemma_vacated(&cleared, plant_id, old_tiles@);
            cleared.grid.lemma_wf_lengths();
            assert(cleared.grid.entities() =~= vacated(
                before.grid.entities(),
                before.organisms.cells(plant_id),
            ));
            assert(cleared.grid.room(2 * sowing@.len() - old_tiles@.len()));
            assert forall|i: int| 0 <= i < sowing@.len() implies 0 <= #[trigger] seed_tile(sowing@, i)
                < cleared.grid.spec_size() && cleared.grid.entities()[seed_tile(sowing@, i)] is Empty by {
                assert(old_tiles@[i] == sowing@[i].0);
                assert(old_tiles@.contains(sowing@[i].0));
                assert(sowing@[i].0 == TileId(sowing@[i].0.0));
            }
        }

        // Sow after the tiles are cleared, so that what grows finds the
        // field around it as it will be.
        self.sow_all(&sowing, genome_id, round, Ghost(plant_id));
        let ghost sown = *self;
        self.organisms.remove_plant(plant_id, round);
        proof {
            lemma_sprouts_bound(sowing@, sowing@.len() as int);
            assert(sown.organisms.living(plant_id)) by {
                assert(sown.organisms.plants()[plant_id.0 as int]
                    == cleared.organisms.plants()[plant_id.0 as int]);
            }
            sown.lemma_retired(&*self, plant_id);
            assert(sown.tiles_sown(&cleared, sowing@, sowing@.len() as int));
            assert forall|tile: int|
                0 <= tile < before.grid.spec_size() && !before.organisms.cells(plant_id).contains(
                    tile as usize,
                ) implies #[trigger] self.grid.entities()[tile] == before.grid.entities()[tile] by {
                assert(!old_tiles@.contains(TileId(tile as usize)));
                assert(!seeded(sowing@, tile));
                assert(sown.grid.entities()[tile] == cleared.grid.entities()[tile]);
            }
            assert forall|i: int|
                0 <= i < sowing@.len() && !(#[trigger] seed_at(sowing@, i) is Barren) implies {
                let id = Self::sprout_id(count, sowing@, i);
                &&& self.organisms.living(id)
                &&& self.organisms.cells(id) == Set::<usize>::empty().insert(sowing@[i].0.0)
                &&& sowing@[i].1 is Scion
                    ==> self.organisms.plants()[id.0 as int]->Living_0.spec_genome_id() == genome_id
                &&& sowing@[i].1 is Mutant
                    ==> self.organisms.plants()[id.0 as int]->Living_0.spec_genome_id() == GenomeId(
                    (records + mutants(sowing@, i)) as usize,
                )
            } by {
                let id = Self::sprout_id(count, sowing@, i);
                lemma_sprouts_grow(sowing@, i, sowing@.len() as int);
                assert(sown.sprouted(count, records, sowing@, i, genome_id, round));
                assert(id.0 != plant_id.0);
                assert(self.organisms.plants()[id.0 as int] == sown.organisms.plants()[id.0 as int]);
            }
            assert forall|j: int| 0 <= j < count && j != plant_id.0 implies #[trigger] self.organisms.plants()[j]
                == before.organisms.plants()[j] by {
                assert(sown.organisms.plants()[j] == cleared.organisms.plants()[j]);
            }
            assert(sown.organisms.active(genome_id));
            assert forall|i: int|
                0 <= i < sowing@.len() && #[trigger] seed_at(sowing@, i) is Mutant implies {
                let record = self.organisms.genomes()[(records + mutants(sowing@, i)) as int];
                &&& record is Living
                &&& record->Living_0.genome == sowing@[i].1->Mutant_0
                &&& record->Living_0.parent_genome_id == Some(genome_id)
                &&& record->Living_0.created_at == round
            } by {
                assert(sown.sprouted(count, records, sowing@, i, genome_id, round));
                lemma_mutants_grow(sowing@, i, sowing@.len() as int);
                assert(records + mutants(sowing@, i) != genome_id.0);
            }
            assert forall|g: int| 0 <= g < records implies same_lineage(
                #[trigger] self.organisms.genomes()[g],
                before.organisms.genomes()[g],
            ) || (g == genome_id.0 && archived_in(
                self.organisms.genomes()[g],
                before.organisms.genomes()[g],
                round,
            )) by {
                assert(same_lineage(sown.organisms.genomes()[g], cleared.organisms.genomes()[g]));
            }
        }
    }

    /// For every tile the number under which a snapshot shows it: 0 for an
    /// empty tile, or else the handle of the organism that holds it plus 1.
    pub open spec fn owner_code(entity: Entity) -> int {
        match entity {
            Entity::Empty => 0,
            Entity::Cell(plant_id, _) => plant_id.0 + 1,
        }
    }

    /// The field as numbers, column by column: 0 for an empty tile, or else
    /// the handle of the organism that holds the tile plus 1.
    pub fn tile_snapshot(&self) -> (snapshot: Vec<Vec<usize>>)
        requires
            self.wf(),
            self.grid().spec_y_size() > 0,
        ensures
            snapshot@.len() == self.grid().spec_x_size(),
            forall|x: int|
                0 <= x < snapshot@.len() ==> (#[trigger] snapshot@[x])@.len()
                    == self.grid().spec_y_size(),
            forall|x: int, y: int|
                0 <= x < snapshot@.len() && 0 <= y < self.grid().spec_y_size()
                    ==> #[trigger] snapshot@[x]@[y] == Self::owner_code(
                    self.grid().entities()[x * self.grid().spec_y_size() + y],
                ),
    {
        let columns = self.grid.columns();
        let mut snapshot: Vec<Vec<usize>> = Vec::new();
        let ghost ys = self.grid.spec_y_size() as int;
        let ghost xs = self.grid.spec_x_size() as int;
        proof {
            self.grid.lemma_wf_lengths();
            self.organisms.lemma_counts_fit();
        }
        let mut x: usize = 0;
        while x < columns.len()
            invariant
                self.wf(),
                ys == self.grid.spec_y_size(),
                xs == self.grid.spec_x_size(),
                ys > 0,
                self.grid.entities().len() == xs * ys,
                self.organisms.plants().len() <= usize::MAX,
                x <= columns@.len(),
                columns@.len() == xs,
                forall|c: int|
                    0 <= c < columns@.len() ==> (#[trigger] columns@[c])@
                        == self.grid.entities().subrange(c * ys, c * ys + ys),
                snapshot@.len() == x,
                forall|c: int| 0 <= c < x ==> (#[trigger] snapshot@[c])@.len() == ys,
                forall|c: int, y: int|
                    0 <= c < x && 0 <= y < ys ==> #[trigger] snapshot@[c]@[y] == Self::owner_code(
                        self.grid.entities()[c * ys + y],
                    ),
            decreases columns@.len() - x,
        {
            let chunk = columns[x];
            let mut row: Vec<usize> = Vec::new();
            let mut y: usize = 0;
            proof {
                assert(x * ys + ys <= xs * ys) by (nonlinear_arith)
                    requires
                        0 <= x < xs,
                        0 < ys,
                ;
                assert(x * ys >= 0) by (nonlinear_arith)
                    requires
                        0 <= x,
                        0 < ys,
                ;
                assert(chunk@ == self.grid.entities().subrange(x * ys, x * ys + ys));
            }
            while y < chunk.len()
                invariant
                    self.wf(),
                    ys == self.grid.spec_y_size(),
                    xs == self.grid.spec_x_size(),
                    self.grid.entities().len() == xs * ys,
                    self.organisms.plants().len() <= usize::MAX,
                    0 <= x * ys,
                    x * ys + ys <= xs * ys,
                    chunk@ == self.grid.entities().subrange(x * ys, x * ys + ys),
                    chunk@.len() == ys,
                    y <= chunk@.len(),
                    row@.len() == y,
                    forall|k: int|
                        0 <= k < y ==> #[trigger] row@[k] == Self::owner_code(
                            self.grid.entities()[x * ys + k],
                        ),
                decreases chunk@.len() - y,
            {
                let entity = chunk[y];
                proof {
                    assert(entity == self.grid.entities()[x * ys + y]);
                    if let Entity::Cell(plant_id, _) = entity {
                        assert(self.organisms().living(plant_id));
                    }
                }
                let code = match entity {
                    Entity::Empty => 0,
                    Entity::Cell(plant_id, _) => usize::from(plant_id) + 1,
                };
                row.push(code);
                y = y + 1;
            }
            snapshot.push(row);
            x = x + 1;
        }
        snapshot
    }

    /// The living organisms in the order in which they act in a round: the
    /// one made last acts first.
    pub fn round_order(&self) -> (plant_ids: Vec<PlantId>)
        ensures
            plant_ids@ == self.organisms().active_plant_ids().reverse(),
    {
        let active = self.organisms.active_plants();
        let mut plant_ids: Vec<PlantId> = Vec::new();
        let mut left: usize = active.len();
        while left > 0
            invariant
                left <= active@.len(),
                plant_ids@.len() == active@.len() - left,
                forall|i: int|
                    0 <= i < plant_ids@.len() ==> #[trigger] plant_ids@[i] == active@[active@.len() - 1
                        - i],
            decreases left,
        {
            left = left - 1;
            plant_ids.push(active[left]);
        }
        assert(plant_ids@ =~= active@.reverse());
        plant_ids
    }

    /// Whether the rounds are over: fewer than two organisms live.
    pub fn is_over(&self) -> (over: bool)
        ensures
            over == (self.organisms().active_plant_ids().len() < 2),
    {
        self.organisms.active_plants().len() < 2
    }

    /// The handles of the `take_top` genomes, active or archived, that have
    /// had the largest yields, the larger yield first.
    pub fn top_genome_ids(&self) -> (genome_ids: Vec<GenomeId>)
        ensures
            top_places(
                self.organisms().yields(),
                self.spec_take_top(),
                crate::organisms::places_of(genome_ids@),
            ),
    {
        self.organisms.top_genome_ids(self.take_top)
    }

    /// The records of the `take_top` genomes, active or archived, that have
    /// had the largest yields, the larger yield first.
    pub fn top_genomes(&self) -> (genomes: Vec<&Either<ActiveGenome<T>, InactiveGenome<T>>>)
        ensures
            exists|genome_ids: Seq<GenomeId>|
                #![trigger crate::organisms::places_of(genome_ids)]
                top_places(
                    self.organisms().yields(),
                    self.spec_take_top(),
                    crate::organisms::places_of(genome_ids),
                ) && genomes@.len() == genome_ids.len() && forall|i: int|
                    0 <= i < genomes@.len() ==> *#[trigger] genomes@[i]
                        == self.organisms().genomes()[genome_ids[i].0 as int],
    {
        self.organisms.top_genomes(self.take_top)
    }
}

/// Whether a snapshot is due in the round `round` when one is taken every
/// `snapshot_interval` rounds.
pub fn snapshot_due(round: usize, snapshot_interval: usize) -> (due: bool)
    requires
        snapshot_interval > 0,
    ensures
        due == (round as int % snapshot_interval as int == 0),
{
    round % snapshot_interval == 0
}

/// Among more seeds no fewer bring a genome, and one more with a seed that does.
pub proof fn lemma_mutants_grow<T>(sowing: Seq<(TileId, Seed<T>)>, i: int, upto: int)
    requires
        0 <= i < upto,
    ensures
        mutants(sowing, i) + (if sowing[i].1 is Mutant {
            1nat
        } else {
            0nat
        }) <= mutants(sowing, upto),
    decreases upto,
{
    if i < upto - 1 {
        lemma_mutants_grow(sowing, i, upto - 1);
    }
}

/// Among more seeds no fewer grow, and one more from those up to a seed that is not barren.
pub proof fn lemma_sprouts_grow<T>(sowing: Seq<(TileId, Seed<T>)>, i: int, upto: int)
    requires
        0 <= i < upto,
    ensures
        sprouts(sowing, i) + (if sowing[i].1 is Barren {
            0nat
        } else {
            1nat
        }) <= sprouts(sowing, upto),
    decreases upto,
{
    if i < upto - 1 {
        lemma_sprouts_grow(sowing, i, upto - 1);
    }
}

} // verus!
