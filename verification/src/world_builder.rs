use crate::active_genome::ActiveGenome;
use crate::cell_kind::CellKind;
use crate::either::Either;
use crate::entity::Entity;
use crate::genome::GenomeKind;
use crate::genomes::GenomeId;
use crate::grid::Grid;
use crate::int_map::{int_set_insert, int_set_members, int_set_remove};
use crate::plants::PlantId;
use crate::position::Position;
use crate::rng::Rng;
use crate::square_grid::SquareGrid;
use crate::tiles::TileId;
use crate::world::World;
use nohash::IntSet;
use vstd::prelude::*;

verus! {

/// Why a world could not be set up as asked.
#[derive(Debug, Clone, Copy, PartialEq, Eq, Structural)]
pub enum BuildError {
    /// An organism was to be put on a tile that is not free.
    TileOccupied(Position),
    /// More organisms were to be put on free tiles than there are free tiles.
    NotEnoughTiles { wanted: usize, free: usize },
    /// No family of genomes has the name that was given.
    UnknownKind,
}

/// The families of genomes.
#[derive(Debug, Clone, Copy, PartialEq, Eq, Structural)]
pub enum Family {
    Doublet,
    Triplet,
}

/// The family of genomes with the name `kind`.
pub fn genome_family(kind: &str) -> (family: Result<Family, BuildError>)
    ensures
        family == if kind@ == "doublet_genome"@ {
            Ok::<Family, BuildError>(Family::Doublet)
        } else if kind@ == "triplet_genome"@ {
            Ok::<Family, BuildError>(Family::Triplet)
        } else {
            Err::<Family, BuildError>(BuildError::UnknownKind)
        },
{
    let name = kind.to_owned();
    if name == "doublet_genome".to_owned() {
        Ok(Family::Doublet)
    } else if name == "triplet_genome".to_owned() {
        Ok(Family::Triplet)
    } else {
        Err(BuildError::UnknownKind)
    }
}

/// A world in the making: the torus, the settings, and the organisms that
/// are to stand on it at the start, each on a tile of its own.
#[derive(Debug)]
pub struct WorldBuilder<T> {
    grid: SquareGrid,
    take_top: usize,
    seed_rate: T,
    mutation_rate: T,
    plants: Vec<(GenomeKind<T>, TileId)>,
    unused_tiles: IntSet<usize>,
}

impl<T: Copy> WorldBuilder<T> {
    pub closed spec fn spec_x_size(&self) -> usize {
        self.grid.spec_x_size()
    }

    pub closed spec fn spec_y_size(&self) -> usize {
        self.grid.spec_y_size()
    }

    /// The number of tiles.
    pub open spec fn spec_size(&self) -> int {
        self.spec_x_size() * self.spec_y_size()
    }

    pub closed spec fn spec_take_top(&self) -> usize {
        self.take_top
    }

    pub closed spec fn spec_seed_rate(&self) -> T {
        self.seed_rate
    }

    pub closed spec fn spec_mutation_rate(&self) -> T {
        self.mutation_rate
    }

    /// The tiles on which no organism is to stand yet.
    pub closed spec fn unused(&self) -> Set<usize> {
        self.unused_tiles@
    }

    /// The organisms that are to stand on the field, each with its tile, in
    /// the order in which they were asked for.
    pub closed spec fn planned(&self) -> Seq<(GenomeKind<T>, TileId)> {
        self.plants@
    }

    /// The tile of every organism asked for lies on the torus and is for
    /// that organism alone, and the tiles not yet asked for are the rest.
    pub closed spec fn wf(&self) -> bool {
        &&& self.grid.wf()
        &&& self.grid.spec_size() <= usize::MAX
        &&& self.unused_tiles@.finite()
        &&& self.plants@.len() + self.unused_tiles@.len() == self.grid.spec_size()
        &&& forall|tile: usize| #[trigger] self.unused_tiles@.contains(tile) ==> tile < self.grid.spec_size()
        &&& forall|i: int|
            0 <= i < self.plants@.len() ==> (#[trigger] self.plants@[i]).1.0 < self.grid.spec_size()
                && !self.unused_tiles@.contains(self.plants@[i].1.0)
        &&& forall|i: int, j: int|
            0 <= i < j < self.plants@.len() ==> (#[trigger] self.plants@[i]).1 != (
            #[trigger] self.plants@[j]).1
    }

    /// What holds of a builder: its tiles lie on the torus, and no two
    /// organisms are to stand on the same.
    pub proof fn lemma_wf(&self)
        requires
            self.wf(),
        ensures
            0 <= self.spec_size() <= usize::MAX,
            self.unused().finite(),
            self.planned().len() + self.unused().len() == self.spec_size(),
            forall|tile: usize| #[trigger] self.unused().contains(tile) ==> tile < self.spec_size(),
            forall|i: int|
                0 <= i < self.planned().len() ==> (#[trigger] self.planned()[i]).1.0 < self.spec_size()
                    && !self.unused().contains(self.planned()[i].1.0),
            forall|i: int, j: int|
                0 <= i < j < self.planned().len() ==> (#[trigger] self.planned()[i]).1 != (
                #[trigger] self.planned()[j]).1,
    {
        self.grid.lemma_size_bounded();
    }

    /// A builder for the torus of `x_size` by `y_size` tiles, on which no
    /// organism is asked for yet.
    pub fn new(x_size: usize, y_size: usize) -> (builder: Self) where T: Default
        requires
            x_size * y_size <= usize::MAX,
        ensures
            builder.wf(),
            builder.spec_x_size() == x_size,
            builder.spec_y_size() == y_size,
            builder.spec_take_top() == 0,
            builder.planned() == Seq::<(GenomeKind<T>, TileId)>::empty(),
            forall|tile: usize| builder.unused().contains(tile) <==> tile < x_size * y_size,
    {
        let grid = SquareGrid::new(x_size, y_size);
        let tile_ids = grid.tile_id_iter();
        let mut unused_tiles: IntSet<usize> = IntSet::default();
        let mut index: usize = 0;
        while index < tile_ids.len()
            invariant
                index <= tile_ids@.len(),
                forall|i: int| 0 <= i < tile_ids@.len() ==> (#[trigger] tile_ids@[i]).0 == i,
                unused_tiles@.finite(),
                unused_tiles@.len() == index,
                forall|tile: usize| unused_tiles@.contains(tile) <==> tile < index,
            decreases tile_ids@.len() - index,
        {
            int_set_insert(&mut unused_tiles, tile_ids[index].0);
            index = index + 1;
        }
        WorldBuilder {
            grid,
            unused_tiles,
            take_top: 0,
            seed_rate: T::default(),
            mutation_rate: T::default(),
            plants: Vec::new(),
        }
    }

    /// Sets how many of the best genomes are reported at the end.
    pub fn take_top(&mut self, take_top: usize) -> (builder: &mut Self)
        ensures
            *final(builder) == *final(self),
            builder.spec_take_top() == take_top,
            builder.spec_seed_rate() == old(self).spec_seed_rate(),
            builder.spec_mutation_rate() == old(self).spec_mutation_rate(),
            builder.spec_x_size() == old(self).spec_x_size(),
            builder.spec_y_size() == old(self).spec_y_size(),
            builder.unused() == old(self).unused(),
            builder.planned() == old(self).planned(),
            builder.wf() == old(self).wf(),
    {
        self.take_top = take_top;
        self
    }

    /// Sets the rate at which a tile of a dying organism is seeded.
    pub fn seed_rate(&mut self, seed_rate: T) -> (builder: &mut Self)
        ensures
            *final(builder) == *final(self),
            builder.spec_seed_rate() == seed_rate,
            builder.spec_take_top() == old(self).spec_take_top(),
            builder.spec_mutation_rate() == old(self).spec_mutation_rate(),
            builder.spec_x_size() == old(self).spec_x_size(),
            builder.spec_y_size() == old(self).spec_y_size(),
            builder.unused() == old(self).unused(),
            builder.planned() == old(self).planned(),
            builder.wf() == old(self).wf(),
    {
        self.seed_rate = seed_rate;
        self
    }

    /// Sets the rate at which a seed brings a genome of its own.
    pub fn mutation_rate(&mut self, mutation_rate: T) -> (builder: &mut Self)
        ensures
            *final(builder) == *final(self),
            builder.spec_mutation_rate() == mutation_rate,
            builder.spec_take_top() == old(self).spec_take_top(),
            builder.spec_seed_rate() == old(self).spec_seed_rate(),
            builder.spec_x_size() == old(self).spec_x_size(),
            builder.spec_y_size() == old(self).spec_y_size(),
            builder.unused() == old(self).unused(),
            builder.planned() == old(self).planned(),
            builder.wf() == old(self).wf(),
    {
        self.mutation_rate = mutation_rate;
        self
    }

    /// Asks for an organism with the genome `genome` on the tile at
    /// `cell_position`. Refused if that tile is not free.
    pub fn add_plant(&mut self, genome: GenomeKind<T>, cell_position: Position) -> (added: Result<
        (),
        BuildError,
    >)
        requires
            old(self).wf(),
            cell_position.x * old(self).spec_y_size() + cell_position.y <= usize::MAX,
        ensures
            final(self).wf(),
            final(self).spec_x_size() == old(self).spec_x_size(),
            final(self).spec_y_size() == old(self).spec_y_size(),
            final(self).spec_take_top() == old(self).spec_take_top(),
            final(self).spec_seed_rate() == old(self).spec_seed_rate(),
            final(self).spec_mutation_rate() == old(self).spec_mutation_rate(),
            added == if old(self).unused().contains(
                (cell_position.x * old(self).spec_y_size() + cell_position.y) as usize,
            ) {
                Ok::<(), BuildError>(())
            } else {
                Err::<(), BuildError>(BuildError::TileOccupied(cell_position))
            },
            added is Ok ==> final(self).unused() == old(self).unused().remove(
                (cell_position.x * old(self).spec_y_size() + cell_position.y) as usize,
            ) && final(self).planned() == old(self).planned().push(
                (
                    genome,
                    TileId((cell_position.x * old(self).spec_y_size() + cell_position.y) as usize),
                ),
            ),
            added is Err ==> final(self).unused() == old(self).unused() && final(self).planned() == old(self).planned(),
    {
        let tile_id = self.grid.id_at(cell_position);
        let ghost before = self.plants@;
        if int_set_remove(&mut self.unused_tiles, tile_id.0) {
            self.plants.push((genome, tile_id));
            proof {
                assert forall|i: int, j: int| 0 <= i < j < self.plants@.len() implies (
                #[trigger] self.plants@[i]).1 != (#[trigger] self.plants@[j]).1 by {
                    if j == before.len() {
                        assert(before[i].1.0 != tile_id.0);
                    }
                }
            }
            Ok(())
        } else {
            assert(self.unused_tiles@ =~= old(self).unused_tiles@);
            Err(BuildError::TileOccupied(cell_position))
        }
    }

    /// Asks for one organism for each of `genomes`, each on a free tile
    /// drawn with `rng`. Refused if there are fewer free tiles than genomes.
    pub fn add_random_plants(&mut self, genomes: Vec<GenomeKind<T>>, rng: &mut Rng) -> (added: Result<
        (),
        BuildError,
    >)
        requires
            old(self).wf(),
        ensures
            final(self).wf(),
            final(self).spec_x_size() == old(self).spec_x_size(),
            final(self).spec_y_size() == old(self).spec_y_size(),
            final(self).spec_take_top() == old(self).spec_take_top(),
            final(self).spec_seed_rate() == old(self).spec_seed_rate(),
            final(self).spec_mutation_rate() == old(self).spec_mutation_rate(),
            added == if genomes@.len() > old(self).unused().len() {
                Err::<(), BuildError>(
                    BuildError::NotEnoughTiles {
                        wanted: genomes@.len() as usize,
                        free: old(self).unused().len() as usize,
                    },
                )
            } else {
                Ok::<(), BuildError>(())
            },
            added is Err ==> final(self).unused() == old(self).unused() && final(self).planned() == old(self).planned(),
            added is Ok ==> {
                &&& final(self).planned().len() == old(self).planned().len() + genomes@.len()
                &&& forall|i: int|
                    0 <= i < old(self).planned().len() ==> #[trigger] final(self).planned()[i] == old(self).planned()[i]
                &&& forall|i: int|
                    0 <= i < genomes@.len() ==> (#[trigger] final(self).planned()[old(self).planned().len() + i]).0 == genomes@[i] && old(self).unused().contains(
                        final(self).planned()[old(self).planned().len() + i].1.0,
                    )
                &&& forall|tile: usize|
                    final(self).unused().contains(tile) <==> old(self).unused().contains(tile)
                        && !exists|i: int|
                        0 <= i < genomes@.len() && (#[trigger] final(self).planned()[old(self).planned().len() + i]).1.0 == tile
            },
    {
        let mut empty_tiles = int_set_members(&self.unused_tiles);
        let ghost listed = empty_tiles@;
        proof {
            listed.unique_seq_to_set();
        }
        if genomes.len() > empty_tiles.len() {
            return Err(
                BuildError::NotEnoughTiles { wanted: genomes.len(), free: empty_tiles.len() },
            );
        }
        rng.shuffle(&mut empty_tiles);
        let ghost drawn = empty_tiles@;
        let ghost before = self.plants@;
        let ghost free = self.unused_tiles@;
        proof {
            listed.lemma_multiset_has_no_duplicates();
            listed.to_multiset_ensures();
            drawn.to_multiset_ensures();
            drawn.lemma_multiset_has_no_duplicates_conv();
            assert(drawn.to_multiset() == listed.to_multiset());
            assert forall|tile: usize| drawn.contains(tile) <==> free.contains(tile) by {
                assert(listed.contains(tile) <==> listed.to_set().contains(tile));
                assert(drawn.contains(tile) <==> drawn.to_multiset().count(tile) > 0);
                assert(listed.contains(tile) <==> listed.to_multiset().count(tile) > 0);
            }
            assert(drawn.len() == listed.len());
        }
        let mut index: usize = 0;
        while index < genomes.len()
            invariant
                index <= genomes@.len(),
                genomes@.len() <= drawn.len(),
                empty_tiles@ == drawn,
                drawn.no_duplicates(),
                forall|tile: usize| drawn.contains(tile) <==> free.contains(tile),
                self.grid == old(self).grid,
                self.take_top == old(self).take_top,
                self.seed_rate == old(self).seed_rate,
                self.mutation_rate == old(self).mutation_rate,
                before == old(self).plants@,
                free == old(self).unused_tiles@,
                old(self).wf(),
                self.unused_tiles@.finite(),
                self.unused_tiles@.len() + index == free.len(),
                forall|tile: usize| #[trigger]
                    self.unused_tiles@.contains(tile) <==> free.contains(tile) && !drawn.take(
                        index as int,
                    ).contains(tile),
                self.plants@.len() == before.len() + index,
                forall|i: int| 0 <= i < before.len() ==> #[trigger] self.plants@[i] == before[i],
                forall|i: int|
                    0 <= i < index ==> (#[trigger] self.plants@[before.len() + i]) == (
                        genomes@[i],
                        TileId(drawn[i]),
                    ),
            decreases genomes@.len() - index,
        {
            let tile = empty_tiles[index];
            proof {
                assert(drawn.contains(tile));
                assert(!drawn.take(index as int).contains(tile)) by {
                    if drawn.take(index as int).contains(tile) {
                        let i = choose|i: int| 0 <= i < index && drawn.take(index as int)[i] == tile;
                        assert(drawn[i] == drawn[index as int]);
                    }
                }
                let sooner = drawn.take(index as int);
                let later = drawn.take(index + 1);
                assert(later =~= sooner.push(tile));
                assert forall|t: usize| later.contains(t) <==> sooner.contains(t) || t == tile by {
                    if sooner.contains(t) {
                        let i = choose|i: int| 0 <= i < sooner.len() && sooner[i] == t;
                        assert(later[i] == t);
                    }
                    if t == tile {
                        assert(later[index as int] == t);
                    }
                }
            }
            let ghost held = self.unused_tiles@;
            int_set_remove(&mut self.unused_tiles, tile);
            self.plants.push((genomes[index], TileId::from(tile)));
            proof {
                assert(held.contains(tile));
                assert forall|t: usize| #[trigger]
                    self.unused_tiles@.contains(t) <==> free.contains(t) && !drawn.take(
                        index + 1,
                    ).contains(t) by {
                    assert(held.contains(t) <==> free.contains(t) && !drawn.take(
                        index as int,
                    ).contains(t));
                }
            }
            index = index + 1;
        }
        proof {
            assert(self.plants@.len() + self.unused_tiles@.len() == self.grid.spec_size());
            assert forall|tile: usize| #[trigger] self.unused_tiles@.contains(tile) implies tile
                < self.grid.spec_size() by {
                assert(free.contains(tile));
            }
            assert forall|i: int| 0 <= i < self.plants@.len() implies (#[trigger] self.plants@[i]).1.0
                < self.grid.spec_size() && !self.unused_tiles@.contains(self.plants@[i].1.0) by {
                if i >= before.len() {
                    let k = i - before.len();
                    assert(self.plants@[before.len() + k] == (genomes@[k], TileId(drawn[k])));
                    assert(drawn.contains(drawn[k]));
                    assert(drawn.take(index as int)[k] == drawn[k]);
                    assert(drawn.take(index as int).contains(drawn[k]));
                } else {
                    assert(!free.contains(before[i].1.0));
                }
            }
            assert forall|i: int, j: int| 0 <= i < j < self.plants@.len() implies (
            #[trigger] self.plants@[i]).1 != (#[trigger] self.plants@[j]).1 by {
                if j >= before.len() {
                    let kj = j - before.len();
                    assert(self.plants@[before.len() + kj] == (genomes@[kj], TileId(drawn[kj])));
                    assert(drawn.contains(drawn[kj]));
                    if i >= before.len() {
                        let ki = i - before.len();
                        assert(self.plants@[before.len() + ki] == (genomes@[ki], TileId(drawn[ki])));
                        assert(drawn[ki] != drawn[kj]);
                    } else {
                        assert(!free.contains(before[i].1.0));
                    }
                }
            }
            assert forall|i: int| 0 <= i < genomes@.len() implies (
            #[trigger] self.plants@[before.len() + i]).0 == genomes@[i] && free.contains(
                self.plants@[before.len() + i].1.0,
            ) by {
                assert(drawn.contains(drawn[i]));
            }
            assert forall|tile: usize|
                self.unused_tiles@.contains(tile) <==> free.contains(tile) && !exists|i: int|
                    0 <= i < genomes@.len() && (#[trigger] self.plants@[before.len() + i]).1.0
                        == tile by {
                let taken = drawn.take(index as int);
                if taken.contains(tile) {
                    let i = choose|i: int| 0 <= i < taken.len() && taken[i] == tile;
                    assert(self.plants@[before.len() + i].1.0 == tile);
                }
                if exists|i: int|
                    0 <= i < genomes@.len() && (#[trigger] self.plants@[before.len() + i]).1.0
                        == tile {
                    let i = choose|i: int|
                        0 <= i < genomes@.len() && (#[trigger] self.plants@[before.len() + i]).1.0
                            == tile;
                    assert(taken[i] == tile);
                }
            }
        }
        Ok(())
    }

    /// The world as asked for: the empty field with every organism on its
    /// tile, each with a genome record of its own, in the order in which
    /// they were asked for.
    pub fn build(self) -> (world: World<T>)
        requires
            self.wf(),
            13 * self.spec_size() <= usize::MAX,
        ensures
            world.wf(),
            world.grid().spec_x_size() == self.spec_x_size(),
            world.grid().spec_y_size() == self.spec_y_size(),
            world.spec_take_top() == self.spec_take_top(),
            world.spec_seed_rate() == self.spec_seed_rate(),
            world.spec_mutation_rate() == self.spec_mutation_rate(),
            self.built(&world, self.planned().len() as int),
    {
        proof {
            self.grid.lemma_size_bounded();
        }
        let ghost xs = self.grid.spec_x_size();
        let ghost ys = self.grid.spec_y_size();
        let grid = Grid::new(self.grid);
        let mut world = World::new(grid, self.take_top, self.seed_rate, self.mutation_rate);
        proof {
            grid.lemma_wf_lengths();
            assert(world.grid().room(self.plants@.len() as int)) by {
                assert forall|tile: int| 0 <= tile < world.grid().spec_size() implies (
                #[trigger] world.grid().nonces()[tile]) + 13 * self.plants@.len() <= usize::MAX by {
                    assert(self.plants@.len() <= xs * ys);
                }
            }
        }
        let mut index: usize = 0;
        while index < self.plants.len()
            invariant
                index <= self.plants@.len(),
                self.wf(),
                xs == self.grid.spec_x_size(),
                ys == self.grid.spec_y_size(),
                world.wf(),
                world.grid().spec_x_size() == xs,
                world.grid().spec_y_size() == ys,
                world.spec_take_top() == self.take_top,
                world.spec_seed_rate() == self.seed_rate,
                world.spec_mutation_rate() == self.mutation_rate,
                world.grid().room(self.plants@.len() - index),
                self.built(&world, index as int),
            decreases self.plants@.len() - index,
        {
            let (genome, tile_id) = self.plants[index];
            let ghost before = world;
            proof {
                world.organisms().lemma_counts_fit();
                assert(self.plants@[index as int].1 == tile_id);
                assert(world.grid().entities()[tile_id.0 as int] is Empty) by {
                    assert forall|k: int| 0 <= k < index implies (#[trigger] self.plants@[k]).1.0
                        != tile_id.0 by {
                        assert(self.plants@[k].1 != self.plants@[index as int].1);
                    }
                }
                assert(world.cells_at_stake(tile_id.0 as int) == 0);
                assert(world.grid().room(1)) by {
                    assert forall|tile: int| 0 <= tile < world.grid().spec_size() implies (
                    #[trigger] world.grid().nonces()[tile]) + 13 * 1 <= usize::MAX by {
                        assert(world.grid().nonces()[tile] + 13 * (self.plants@.len() - index)
                            <= usize::MAX);
                    }
                }
            }
            let genome_id = world.add_genome(genome);
            let ghost between = world;
            proof {
                assert(between.organisms().genomes()[genome_id.0 as int] is Living);
                assert(between.cells_at_stake(tile_id.0 as int) == 0);
            }
            world.add_plant(genome_id, tile_id);
            proof {
                self.lemma_built_one(&before, &between, &world, index as int);
            }
            index = index + 1;
        }
        world
    }

    /// In `world` stand the first `done` of the organisms asked for, each
    /// on its tile alone and with a genome record of its own made from its
    /// genome; all other tiles are empty.
    pub open spec fn built(&self, world: &World<T>, done: int) -> bool {
        &&& world.organisms().plants().len() == done
        &&& world.organisms().genomes().len() == done
        &&& forall|i: int|
            0 <= i < done ==> {
                &&& world.organisms().living(PlantId(i as usize))
                &&& world.organisms().cells(PlantId(i as usize)) == Set::<usize>::empty().insert(
                    (#[trigger] self.planned()[i]).1.0,
                )
                &&& world.organisms().plants()[i]->Living_0.spec_genome_id() == GenomeId(i as usize)
                &&& world.organisms().genomes()[i] is Living
                &&& world.organisms().genomes()[i]->Living_0.genome == self.planned()[i].0
                &&& world.organisms().genomes()[i]->Living_0.parent_genome_id is None
                &&& world.organisms().genomes()[i]->Living_0.created_at == 0
                &&& world.grid().entities()[self.planned()[i].1.0 as int] == Entity::Cell(
                    PlantId(i as usize),
                    CellKind::Branch,
                )
            }
        &&& forall|tile: int|
            0 <= tile < world.grid().spec_size() && (forall|i: int|
                0 <= i < done ==> (#[trigger] self.planned()[i]).1.0 != tile)
                ==> #[trigger] world.grid().entities()[tile] is Empty
    }

    /// One more of the organisms asked for stands in the world.
    proof fn lemma_built_one(
        &self,
        before: &World<T>,
        between: &World<T>,
        after: &World<T>,
        done: int,
    )
        requires
            self.wf(),
            0 <= done < self.planned().len(),
            self.built(before, done),
            before.grid().spec_x_size() == self.spec_x_size(),
            before.grid().spec_y_size() == self.spec_y_size(),
            after.grid().spec_x_size() == self.spec_x_size(),
            after.grid().spec_y_size() == self.spec_y_size(),
            before.grid().entities()[self.planned()[done].1.0 as int] is Empty,
            between.grid() == before.grid(),
            between.organisms().plants() == before.organisms().plants(),
            between.organisms().genomes() == before.organisms().genomes().push(
                Either::Living(
                    ActiveGenome {
                        id: GenomeId(done as usize),
                        genome: self.planned()[done].0,
                        num_plants: 0,
                        max_yield: 0,
                        created_at: 0,
                        parent_genome_id: None,
                    },
                ),
            ),
            after.organisms().plants().len() == done + 1,
            after.organisms().living(PlantId(done as usize)),
            after.organisms().cells(PlantId(done as usize)) == Set::<usize>::empty().insert(
                self.planned()[done].1.0,
            ),
            after.organisms().plants()[done]->Living_0.spec_genome_id() == GenomeId(done as usize),
            after.grid().entities()[self.planned()[done].1.0 as int] == Entity::Cell(
                PlantId(done as usize),
                CellKind::Branch,
            ),
            after.organisms().genomes().len() == between.organisms().genomes().len(),
            forall|g: int|
                0 <= g < between.organisms().genomes().len() ==> crate::world::same_lineage(
                    #[trigger] after.organisms().genomes()[g],
                    between.organisms().genomes()[g],
                ),
            forall|plant_id: PlantId|
                #![trigger between.organisms().plants()[plant_id.0 as int]]
                plant_id.0 < between.organisms().plants().len()
                    ==> after.organisms().plants()[plant_id.0 as int]
                    == between.organisms().plants()[plant_id.0 as int],
            forall|tile: int|
                0 <= tile < between.grid().spec_size() && tile != self.planned()[done].1.0
                    ==> #[trigger] after.grid().entities()[tile] == between.grid().entities()[tile],
        ensures
            self.built(after, done + 1),
    {
        self.lemma_wf();
        assert forall|i: int| 0 <= i < done + 1 implies {
            &&& after.organisms().living(PlantId(i as usize))
            &&& after.organisms().cells(PlantId(i as usize)) == Set::<usize>::empty().insert(
                (#[trigger] self.planned()[i]).1.0,
            )
            &&& after.organisms().plants()[i]->Living_0.spec_genome_id() == GenomeId(i as usize)
            &&& after.organisms().genomes()[i] is Living
            &&& after.organisms().genomes()[i]->Living_0.genome == self.planned()[i].0
            &&& after.organisms().genomes()[i]->Living_0.parent_genome_id is None
            &&& after.organisms().genomes()[i]->Living_0.created_at == 0
            &&& after.grid().entities()[self.planned()[i].1.0 as int] == Entity::Cell(
                PlantId(i as usize),
                CellKind::Branch,
            )
        } by {
            assert(crate::world::same_lineage(
                after.organisms().genomes()[i],
                between.organisms().genomes()[i],
            ));
            if i < done {
                assert(before.organisms().living(PlantId(i as usize)));
                assert(after.organisms().plants()[PlantId(i as usize).0 as int]
                    == between.organisms().plants()[PlantId(i as usize).0 as int]);
                assert(self.planned()[i].1 != self.planned()[done].1);
                assert(self.planned()[i].1.0 != self.planned()[done].1.0);
                assert(between.organisms().genomes()[i] == before.organisms().genomes()[i]);
            }
        }
        assert forall|tile: int|
            0 <= tile < after.grid().spec_size() && (forall|i: int|
                0 <= i < done + 1 ==> (#[trigger] self.planned()[i]).1.0
                    != tile) implies #[trigger] after.grid().entities()[tile] is Empty by {
            assert(self.planned()[done].1.0 != tile);
            assert(after.grid().entities()[tile] == before.grid().entities()[tile]);
            assert forall|i: int| 0 <= i < done implies (#[trigger] self.planned()[i]).1.0 != tile by {}
        }
    }
}

} // verus!
