use crate::entity::Entity;
use crate::genomes::GenomeId;
use crate::grid::Grid;
use crate::plants::PlantId;
use crate::bit_set::{bitset_contains, bitset_count_ones, bitset_ones, bitset_with_capacity};
use crate::connectivity::{
    below, keeps_together, leading_component, leads, lemma_component_closed,
    lemma_component_connected,
    lemma_grown_connected, lemma_majority_is_leading, lemma_rest_connected, lemma_tiles_len,
    lemma_torus_linked, lemma_torus_links_mutual,
};
use crate::simple_graph::{
    all_connected, borders, component, components, connected, is_component,
    lemma_component_of_nodes, lemma_component_shared, lemma_reaches_itself, reaches,
    torus_adjacency, torus_linked, torus_surface, SimpleGraph,
};
use fixedbitset::FixedBitSet;
use crate::square_grid::{direction, step_tile};
use crate::tiles::TileId;
use vstd::prelude::*;

verus! {

/// The sum of `f` over the tiles of `keys`.
pub open spec fn sum_over(keys: Seq<usize>, f: spec_fn(usize) -> nat) -> nat
    decreases keys.len(),
{
    if keys.len() == 0 {
        0
    } else {
        sum_over(keys.drop_last(), f) + f(keys.last())
    }
}

/// The sum of `f` over the tiles below `count`.
pub open spec fn sum_below(count: int, f: spec_fn(usize) -> nat) -> nat
    decreases count,
{
    if count <= 0 {
        0
    } else {
        sum_below(count - 1, f) + f((count - 1) as usize)
    }
}

proof fn lemma_sum_without(keys: Seq<usize>, f: spec_fn(usize) -> nat, i: int)
    requires
        0 <= i < keys.len(),
    ensures
        sum_over(keys, f) == sum_over(keys.remove(i), f) + f(keys[i]),
    decreases keys.len(),
{
    if i == keys.len() - 1 {
        assert(keys.remove(i) =~= keys.drop_last());
    } else {
        lemma_sum_without(keys.drop_last(), f, i);
        assert(keys.remove(i).drop_last() =~= keys.drop_last().remove(i));
        assert(keys.remove(i).last() == keys.last());
    }
}

/// A sum over tiles, each taken once, is the sum over all tiles below a
/// bound if the tiles left out add nothing.
pub proof fn lemma_sum_any_order(keys: Seq<usize>, f: spec_fn(usize) -> nat, count: int)
    requires
        keys.no_duplicates(),
        0 <= count <= usize::MAX + 1,
        forall|i: int| 0 <= i < keys.len() ==> #[trigger] keys[i] < count,
        forall|tile: usize| tile < count && !keys.contains(tile) ==> #[trigger] f(tile) == 0,
    ensures
        sum_over(keys, f) == sum_below(count, f),
    decreases count,
{
    if count == 0 {
        if keys.len() > 0 {
            assert(keys[0] < 0);
        }
    } else {
        let last = (count - 1) as usize;
        if keys.contains(last) {
            let i = choose|i: int| 0 <= i < keys.len() && keys[i] == last;
            let rest = keys.remove(i);
            lemma_sum_without(keys, f, i);
            assert forall|k: int| 0 <= k < rest.len() implies #[trigger] rest[k] < count - 1 by {
                if k < i {
                    assert(rest[k] == keys[k]);
                } else {
                    assert(rest[k] == keys[k + 1]);
                }
            }
            assert forall|tile: usize| tile < count - 1 && !rest.contains(tile) implies #[trigger] f(
                tile,
            ) == 0 by {
                if keys.contains(tile) {
                    let k = choose|k: int| 0 <= k < keys.len() && keys[k] == tile;
                    if k < i {
                        assert(rest[k] == tile);
                    } else {
                        assert(rest[k - 1] == tile);
                    }
                }
            }
            assert(rest.no_duplicates()) by {
                assert forall|a: int, b: int|
                    0 <= a < rest.len() && 0 <= b < rest.len() && a != b implies rest[a]
                    != rest[b] by {
                    let ka = if a < i {
                        a
                    } else {
                        a + 1
                    };
                    let kb = if b < i {
                        b
                    } else {
                        b + 1
                    };
                    assert(rest[a] == keys[ka] && rest[b] == keys[kb]);
                }
            }
            lemma_sum_any_order(rest, f, count - 1);
        } else {
            assert forall|k: int| 0 <= k < keys.len() implies #[trigger] keys[k] < count - 1 by {
                assert(keys.contains(keys[k]));
            }
            lemma_sum_any_order(keys, f, count - 1);
        }
    }
}

/// All terms of a sum over the tiles below a bound are at most `most`.
pub proof fn lemma_sum_below_bound(count: int, f: spec_fn(usize) -> nat, most: nat)
    requires
        0 <= count,
        forall|tile: usize| #[trigger] f(tile) <= most,
    ensures
        sum_below(count, f) <= count * most,
    decreases count,
{
    if count > 0 {
        lemma_sum_below_bound(count - 1, f, most);
        assert((count - 1) * most + most == count * most) by (nonlinear_arith);
    }
}

/// The energy that an organism with the surface `surface` draws from the
/// tile `tile`: one unit for each of its cells next to the tile, if the
/// tile is on the surface and nothing stands on it.
pub open spec fn tile_yield(surface: Map<usize, Set<usize>>, entities: Seq<Entity>, tile: usize) -> nat {
    if surface.contains_key(tile) && tile < entities.len() && entities[tile as int] is Empty {
        surface[tile].len()
    } else {
        0
    }
}

/// The energy that the cells `cells` draw in one round on the torus of
/// `x_size` by `y_size` tiles on which `entities` stand.
pub open spec fn energy_yield_of(
    cells: Set<usize>,
    entities: Seq<Entity>,
    x_size: int,
    y_size: int,
) -> nat {
    sum_below(
        x_size * y_size,
        |tile: usize| tile_yield(torus_surface(cells, x_size, y_size), entities, tile),
    )
}

/// The tiles that an organism may claim in one round: the energy that it
/// draws, divided by the energy that it uses, rounded down; none if it uses
/// no energy.
pub open spec fn budget_of(energy_yield: nat, energy_usage: nat) -> nat {
    if energy_usage == 0 {
        0
    } else {
        energy_yield / energy_usage
    }
}

/// The budget for the yield `energy_yield` and the upkeep `energy_usage`.
/// An organism that draws less than it uses has no budget.
pub fn energy_budget(energy_yield: usize, energy_usage: usize) -> (budget: usize)
    ensures
        budget == budget_of(energy_yield as nat, energy_usage as nat),
        energy_yield < energy_usage ==> budget == 0,
        energy_usage > 0 ==> budget * energy_usage <= energy_yield < (budget + 1) * energy_usage,
{
    if energy_usage == 0 {
        return 0;
    }
    proof {
        vstd::arithmetic::div_mod::lemma_fundamental_div_mod(
            energy_yield as int,
            energy_usage as int,
        );
        vstd::arithmetic::div_mod::lemma_mod_bound(energy_yield as int, energy_usage as int);
        let q = energy_yield as int / energy_usage as int;
        assert(energy_usage * q == q * energy_usage) by (nonlinear_arith);
        assert((q + 1) * energy_usage == q * energy_usage + energy_usage) by (nonlinear_arith);
        if energy_yield < energy_usage {
            vstd::arithmetic::div_mod::lemma_basic_div(energy_yield as int, energy_usage as int);
        }
    }
    energy_yield / energy_usage
}

/// A beginning of a sum is at most the whole sum.
proof fn lemma_sum_prefix(keys: Seq<usize>, f: spec_fn(usize) -> nat, length: int)
    requires
        0 <= length <= keys.len(),
    ensures
        sum_over(keys.take(length), f) <= sum_over(keys, f),
    decreases keys.len() - length,
{
    if length < keys.len() {
        lemma_sum_prefix(keys, f, length + 1);
        assert(keys.take(length + 1).drop_last() =~= keys.take(length));
    } else {
        assert(keys.take(length) =~= keys);
    }
}

/// At most four cells are next to a tile.
pub proof fn lemma_surface_small(cells: Set<usize>, x_size: int, y_size: int, tile: usize)
    requires
        0 <= x_size,
        0 <= y_size,
        x_size * y_size <= usize::MAX,
        forall|a: usize| #[trigger] cells.contains(a) ==> a < x_size * y_size,
    ensures
        Set::new(|a: usize| cells.contains(a) && borders(a as int, tile as int, x_size, y_size)).finite(),
        Set::new(|a: usize| cells.contains(a) && borders(a as int, tile as int, x_size, y_size)).len()
            <= 4,
        torus_surface(cells, x_size, y_size).contains_key(tile) ==> tile < x_size * y_size,
{
    let next = Set::new(|a: usize| cells.contains(a) && borders(a as int, tile as int, x_size, y_size));
    let around = Set::<usize>::empty().insert(
        step_tile(tile as int, direction(0), x_size, y_size) as usize,
    ).insert(step_tile(tile as int, direction(1), x_size, y_size) as usize).insert(
        step_tile(tile as int, direction(2), x_size, y_size) as usize,
    ).insert(step_tile(tile as int, direction(3), x_size, y_size) as usize);
    assert forall|a: usize| next.contains(a) implies around.contains(a) by {
        crate::simple_graph::lemma_borders_symmetric(a as int, tile as int, x_size, y_size);
        let d = choose|d: int|
            0 <= d < 4 && #[trigger] step_tile(tile as int, direction(d), x_size, y_size) == a;
    }
    vstd::set_lib::lemma_len_subset(next, around);
    if torus_surface(cells, x_size, y_size).contains_key(tile) {
        let a = choose|a: usize|
            cells.contains(a) && #[trigger] borders(a as int, tile as int, x_size, y_size);
        crate::simple_graph::lemma_borders_symmetric(a as int, tile as int, x_size, y_size);
    }
}

/// What it costs the organism `plant_id` to take the tile on which
/// `entity` stands: 1 for an empty tile, 2 for a cell of another organism;
/// its own cells it cannot take.
pub open spec fn claim_cost(entity: Entity, plant_id: PlantId) -> Option<nat> {
    match entity {
        Entity::Empty => Some(1nat),
        Entity::Cell(owner, _) => if owner == plant_id {
            None
        } else {
            Some(2nat)
        },
    }
}

/// Those of the tiles `ranked` that the organism `plant_id` takes with the
/// budget `budget` when it goes through them in their order and takes every
/// tile that it can still pay for.
pub open spec fn accepted(
    ranked: Seq<TileId>,
    entities: Seq<Entity>,
    plant_id: PlantId,
    budget: nat,
) -> Seq<TileId>
    decreases ranked.len(),
{
    if ranked.len() == 0 {
        Seq::<TileId>::empty()
    } else {
        match claim_cost(entities[ranked[0].0 as int], plant_id) {
            Some(cost) => if budget >= cost {
                seq![ranked[0]] + accepted(
                    ranked.drop_first(),
                    entities,
                    plant_id,
                    (budget - cost) as nat,
                )
            } else {
                accepted(ranked.drop_first(), entities, plant_id, budget)
            },
            None => accepted(ranked.drop_first(), entities, plant_id, budget),
        }
    }
}

/// A living organism: its genome and its cells.
#[derive(Debug, Clone)]
pub struct ActivePlant {
    id: PlantId,
    genome_id: GenomeId,
    cells: SimpleGraph,
}

impl ActivePlant {
    pub closed spec fn spec_id(&self) -> PlantId {
        self.id
    }

    pub closed spec fn spec_genome_id(&self) -> GenomeId {
        self.genome_id
    }

    /// The tiles that the organism owns.
    pub closed spec fn cells(&self) -> Set<usize> {
        self.cells.node_set()
    }

    /// The cells are kept as the graph that the torus of `x_size` by
    /// `y_size` tiles induces on them.
    pub closed spec fn wf(&self, x_size: usize, y_size: usize) -> bool {
        self.cells.wf(x_size, y_size)
    }

    /// On every cell of the organism `grid` holds a cell.
    pub open spec fn rooted(&self, grid: &Grid) -> bool {
        forall|cell: usize| #[trigger]
            self.cells().contains(cell) ==> cell < grid.entities().len() && grid.entities()[cell as int] is Cell
    }

    /// What holds of the cells of a well-formed organism.
    pub proof fn lemma_wf(&self, x_size: usize, y_size: usize)
        requires
            self.wf(x_size, y_size),
        ensures
            x_size * y_size <= usize::MAX,
            self.cells().finite(),
            forall|cell: usize| #[trigger] self.cells().contains(cell) ==> cell < x_size * y_size,
    {
        self.cells.lemma_wf(x_size, y_size);
    }

    /// An organism without cells.
    pub fn new(id: PlantId, genome_id: GenomeId) -> (plant: Self)
        ensures
            plant.spec_id() == id,
            plant.spec_genome_id() == genome_id,
            plant.cells() == Set::<usize>::empty(),
            forall|x_size: usize, y_size: usize|
                x_size * y_size <= usize::MAX ==> #[trigger] plant.wf(x_size, y_size),
    {
        ActivePlant { id, genome_id, cells: SimpleGraph::default() }
    }

    pub fn id(&self) -> (id: PlantId)
        ensures
            id == self.spec_id(),
    {
        self.id
    }

    pub fn genome_id(&self) -> (genome_id: GenomeId)
        ensures
            genome_id == self.spec_genome_id(),
    {
        self.genome_id
    }

    /// The number of cells.
    pub fn cell_count(&self) -> (count: usize)
        ensures
            count == self.cells().len(),
    {
        self.cells.node_count()
    }

    /// The cells, each once.
    pub fn cell_tiles(&self) -> (tile_ids: Vec<TileId>)
        ensures
            tile_ids@.no_duplicates(),
            tile_ids@.len() == self.cells().len(),
            forall|cell: usize| self.cells().contains(cell) <==> tile_ids@.contains(TileId(cell)),
    {
        self.cells.nodes()
    }

    /// The tiles next to the cells that are no cells of this organism, each once.
    pub fn available_tiles(&self) -> (tile_ids: Vec<TileId>)
        ensures
            tile_ids@.no_duplicates(),
            forall|x_size: usize, y_size: usize, tile: usize| #[trigger]
                self.wf(x_size, y_size) ==> (torus_surface(
                    self.cells(),
                    x_size as int,
                    y_size as int,
                ).contains_key(tile) <==> #[trigger] tile_ids@.contains(TileId(tile))),
    {
        let tile_ids = self.cells.all_unoccupied_neighbors();
        proof {
            assert forall|x_size: usize, y_size: usize, tile: usize| #[trigger]
                self.wf(x_size, y_size) implies (torus_surface(
                self.cells(),
                x_size as int,
                y_size as int,
            ).contains_key(tile) <==> #[trigger] tile_ids@.contains(TileId(tile))) by {
                self.cells.lemma_wf(x_size, y_size);
            }
        }
        tile_ids
    }

    /// Takes the tile `tile_id`, on which `grid` already shows a cell of
    /// this organism, among the cells, and returns the energy that the
    /// organism now draws in a round.
    pub fn occupy(&mut self, tile_id: TileId, grid: &Grid) -> (energy_yield: usize)
        requires
            old(self).wf(grid.spec_x_size(), grid.spec_y_size()),
            grid.wf(),
            tile_id.0 < grid.spec_size(),
            !old(self).cells().contains(tile_id.0),
            old(self).rooted(grid),
            grid.entities()[tile_id.0 as int] is Cell,
            4 * grid.spec_size() <= usize::MAX,
        ensures
            final(self).wf(grid.spec_x_size(), grid.spec_y_size()),
            final(self).spec_id() == old(self).spec_id(),
            final(self).spec_genome_id() == old(self).spec_genome_id(),
            final(self).cells() == old(self).cells().insert(tile_id.0),
            energy_yield == energy_yield_of(
                final(self).cells(),
                grid.entities(),
                grid.spec_x_size() as int,
                grid.spec_y_size() as int,
            ),
            old(self).is_connected(grid.spec_x_size(), grid.spec_y_size()) && (old(self).cells()
                =~= Set::<usize>::empty() || torus_surface(
                old(self).cells(),
                grid.spec_x_size() as int,
                grid.spec_y_size() as int,
            ).contains_key(tile_id.0)) ==> final(self).is_connected(
                grid.spec_x_size(),
                grid.spec_y_size(),
            ),
    {
        proof {
            grid.lemma_wf_lengths();
            old(self).cells.lemma_wf(grid.spec_x_size(), grid.spec_y_size());
            let xs = grid.spec_x_size() as int;
            let ys = grid.spec_y_size() as int;
            if old(self).is_connected(grid.spec_x_size(), grid.spec_y_size()) && (old(self).cells()
                =~= Set::<usize>::empty() || torus_surface(old(self).cells(), xs, ys).contains_key(
                tile_id.0,
            )) {
                lemma_grown_connected(old(self).cells(), tile_id.0, xs, ys);
            }
        }
        self.cells.add_node(tile_id, grid);
        self.energy_yield(grid)
    }

    /// The tiles that the organism may claim this round.
    pub fn energy_points(&self, grid: &Grid) -> (points: usize)
        requires
            self.wf(grid.spec_x_size(), grid.spec_y_size()),
            grid.wf(),
            self.rooted(grid),
            4 * grid.spec_size() <= usize::MAX,
        ensures
            points == budget_of(
                energy_yield_of(
                    self.cells(),
                    grid.entities(),
                    grid.spec_x_size() as int,
                    grid.spec_y_size() as int,
                ),
                self.cells().len(),
            ),
    {
        let energy_usage = self.energy_usage(grid);
        if energy_usage == 0 {
            return 0;
        }
        let energy_yield = self.energy_yield(grid);
        energy_budget(energy_yield, energy_usage)
    }

    /// Those of the tiles `ranked` that the organism takes this round when
    /// it goes through them in their order and takes every tile that its
    /// budget still pays for: an empty tile for 1, a tile of another
    /// organism for 2.
    pub fn next_tile_ids(&self, grid: &Grid, ranked: &[TileId]) -> (tile_ids: Vec<TileId>)
        requires
            self.wf(grid.spec_x_size(), grid.spec_y_size()),
            grid.wf(),
            self.rooted(grid),
            4 * grid.spec_size() <= usize::MAX,
            forall|i: int| 0 <= i < ranked@.len() ==> (#[trigger] ranked@[i]).0 < grid.spec_size(),
        ensures
            tile_ids@ == accepted(
                ranked@,
                grid.entities(),
                self.spec_id(),
                budget_of(
                    energy_yield_of(
                        self.cells(),
                        grid.entities(),
                        grid.spec_x_size() as int,
                        grid.spec_y_size() as int,
                    ),
                    self.cells().len(),
                ),
            ),
    {
        let mut k = self.energy_points(grid);
        let ghost budget = k as nat;
        let mut tile_ids: Vec<TileId> = Vec::new();
        let mut index: usize = 0;
        assert(ranked@.skip(0) =~= ranked@);
        while index < ranked.len()
            invariant
                grid.wf(),
                index <= ranked@.len(),
                forall|i: int|
                    0 <= i < ranked@.len() ==> (#[trigger] ranked@[i]).0 < grid.spec_size(),
                tile_ids@ + accepted(ranked@.skip(index as int), grid.entities(), self.id, k as nat)
                    == accepted(ranked@, grid.entities(), self.id, budget),
            decreases ranked@.len() - index,
        {
            let tile_id = ranked[index];
            let ghost rest = ranked@.skip(index as int);
            let ghost listed = tile_ids@;
            proof {
                assert(rest[0] == tile_id);
                assert(rest.drop_first() =~= ranked@.skip(index + 1));
            }
            let cost: usize = match grid.entity(tile_id) {
                Entity::Empty => 1,
                Entity::Cell(owner, _) => if owner == self.id {
                    0
                } else {
                    2
                },
            };
            if cost > 0 && k >= cost {
                k = k - cost;
                tile_ids.push(tile_id);
                proof {
                    assert(tile_ids@ + accepted(
                        ranked@.skip(index + 1),
                        grid.entities(),
                        self.id,
                        k as nat,
                    ) =~= listed + accepted(rest, grid.entities(), self.id, (k + cost) as nat));
                }
            }
            index = index + 1;
        }
        proof {
            assert(ranked@.skip(index as int) =~= Seq::<TileId>::empty());
            assert(tile_ids@ + Seq::<TileId>::empty() =~= tile_ids@);
        }
        tile_ids
    }

    /// The energy that the cells use in a round: one unit each.
    pub fn energy_usage(&self, grid: &Grid) -> (energy: usize)
        requires
            grid.wf(),
            self.rooted(grid),
        ensures
            energy == self.cells().len(),
    {
        let cells = self.cells.nodes();
        let mut energy: usize = 0;
        let mut index: usize = 0;
        proof {
            grid.lemma_wf_lengths();
        }
        while index < cells.len()
            invariant
                grid.wf(),
                self.rooted(grid),
                grid.entities().len() == grid.spec_size(),
                index <= cells@.len(),
                energy == index,
                forall|cell: usize| self.cells().contains(cell) <==> cells@.contains(TileId(cell)),
            decreases cells@.len() - index,
        {
            let tile_id = cells[index];
            proof {
                assert(cells@.contains(tile_id));
                assert(tile_id == TileId(tile_id.0));
                assert(self.cells().contains(tile_id.0));
            }
            let (_plant_id, cell_kind) = grid.entity(tile_id).unwrap_cell();
            energy = energy + cell_kind.cost_per_turn();
            index = index + 1;
        }
        energy
    }

    /// The energy that the organism draws in a round: for every empty tile
    /// next to it, one unit from each cell next to the tile.
    pub fn energy_yield(&self, grid: &Grid) -> (energy: usize)
        requires
            self.wf(grid.spec_x_size(), grid.spec_y_size()),
            grid.wf(),
            self.rooted(grid),
            4 * grid.spec_size() <= usize::MAX,
        ensures
            energy == energy_yield_of(
                self.cells(),
                grid.entities(),
                grid.spec_x_size() as int,
                grid.spec_y_size() as int,
            ),
    {
        let ghost xs = grid.spec_x_size() as int;
        let ghost ys = grid.spec_y_size() as int;
        let ghost surface = torus_surface(self.cells(), xs, ys);
        let ghost f = |tile: usize| tile_yield(surface, grid.entities(), tile);
        let pairs = self.cells.unoccupied_neighbors_iter();
        let ghost keys = Seq::new(pairs@.len(), |i: int| pairs@[i].0.0);
        proof {
            grid.lemma_wf_lengths();
            self.cells.lemma_wf(grid.spec_x_size(), grid.spec_y_size());
            assert forall|tile: usize| #[trigger] f(tile) <= 4 by {
                lemma_surface_small(self.cells(), xs, ys, tile);
            }
            assert forall|i: int| 0 <= i < keys.len() implies #[trigger] keys[i] < xs * ys by {
                lemma_surface_small(self.cells(), xs, ys, keys[i]);
                assert(surface.contains_key(pairs@[i].0.0));
            }
            assert forall|tile: usize| tile < xs * ys && !keys.contains(tile) implies #[trigger] f(
                tile,
            ) == 0 by {
                if surface.contains_key(tile) {
                    let i = choose|i: int|
                        0 <= i < pairs@.len() && (#[trigger] pairs@[i]).0 == TileId(tile);
                    assert(keys[i] == tile);
                }
            }
            assert(keys.no_duplicates()) by {
                assert forall|i: int, j: int|
                    0 <= i < keys.len() && 0 <= j < keys.len() && i != j implies keys[i]
                    != keys[j] by {
                    if i < j {
                        assert(pairs@[i].0 != pairs@[j].0);
                    } else {
                        assert(pairs@[j].0 != pairs@[i].0);
                    }
                }
            }
            lemma_sum_any_order(keys, f, xs * ys);
            lemma_sum_below_bound(xs * ys, f, 4);
            assert(keys.take(0) =~= Seq::<usize>::empty());
        }
        let mut energy: usize = 0;
        let mut index: usize = 0;
        while index < pairs.len()
            invariant
                self.wf(grid.spec_x_size(), grid.spec_y_size()),
                grid.wf(),
                self.rooted(grid),
                grid.entities().len() == grid.spec_size(),
                xs == grid.spec_x_size(),
                ys == grid.spec_y_size(),
                surface == torus_surface(self.cells(), xs, ys),
                surface == self.cells.surface(),
                f == (|tile: usize| tile_yield(surface, grid.entities(), tile)),
                keys == Seq::new(pairs@.len(), |i: int| pairs@[i].0.0),
                index <= pairs@.len(),
                forall|i: int|
                    0 <= i < pairs@.len() ==> surface.contains_key((#[trigger] pairs@[i]).0.0)
                        && pairs@[i].1@.len() == surface[pairs@[i].0.0].len(),
                forall|i: int, a: usize|
                    0 <= i < pairs@.len() ==> (surface[(#[trigger] pairs@[i]).0.0].contains(a)
                        <==> #[trigger] pairs@[i].1@.contains(TileId(a))),
                forall|i: int| 0 <= i < keys.len() ==> #[trigger] keys[i] < xs * ys,
                forall|tile: usize, a: usize|
                    surface.contains_key(tile) && #[trigger] surface[tile].contains(a)
                        ==> self.cells().contains(a),
                sum_over(keys, f) <= 4 * (xs * ys),
                4 * (xs * ys) <= usize::MAX,
                energy == sum_over(keys.take(index as int), f),
            decreases pairs@.len() - index,
        {
            let unoccupied = pairs[index].0;
            proof {
                lemma_sum_prefix(keys, f, index + 1);
                assert(keys.take(index + 1).drop_last() =~= keys.take(index as int));
                assert(keys.take(index + 1).last() == unoccupied.0);
                assert(keys[index as int] == unoccupied.0);
            }
            if grid.is_empty(unoccupied) {
                let ghost before = energy;
                let mut next: usize = 0;
                while next < pairs[index as usize].1.len()
                    invariant
                        grid.wf(),
                        self.rooted(grid),
                        index < pairs@.len(),
                        next <= pairs@[index as int].1@.len(),
                        forall|a: usize| #[trigger]
                            pairs@[index as int].1@.contains(TileId(a))
                                ==> surface[pairs@[index as int].0.0].contains(a),
                        forall|a: usize| #[trigger]
                            surface[pairs@[index as int].0.0].contains(a) ==> self.cells().contains(a),
                        energy == before + next,
                        before + pairs@[index as int].1@.len() <= usize::MAX,
                    decreases pairs@[index as int].1@.len() - next,
                {
                    let occupied_id = pairs[index].1[next];
                    proof {
                        assert(pairs@[index as int].1@.contains(occupied_id));
                        assert(occupied_id == TileId(occupied_id.0));
                        assert(pairs@[index as int].1@.contains(TileId(occupied_id.0)));
                        assert(surface[pairs@[index as int].0.0].contains(occupied_id.0));
                        assert(self.cells().contains(occupied_id.0));
                        grid.lemma_wf_lengths();
                    }
                    let (_plant_id, cell_kind) = grid.entity(occupied_id).unwrap_cell();
                    energy = energy + cell_kind.yield_per_empty_tile();
                    next = next + 1;
                }
            }
            index = index + 1;
        }
        proof {
            assert(keys.take(index as int) =~= keys);
        }
        energy
    }

    /// Every cell is reached from every other through cells alone.
    pub open spec fn is_connected(&self, x_size: usize, y_size: usize) -> bool {
        connected(torus_adjacency(self.cells(), x_size as int, y_size as int))
    }

    /// The cells after the tile `tile` has been lost: all the others, if
    /// the cells linked to `tile` still reach one another; or else, of the
    /// parts into which the others fall, the largest, and of several
    /// largest the one with the least tile.
    pub open spec fn abandoned(
        before: Set<usize>,
        tile: usize,
        after: Set<usize>,
        x_size: int,
        y_size: int,
    ) -> bool {
        let rest = torus_adjacency(before.remove(tile), x_size, y_size);
        if keeps_together(torus_linked(before, tile as int, x_size, y_size), rest) {
            after == before.remove(tile)
        } else {
            leading_component(rest, after)
        }
    }

    /// Gives up the cell `tile_id`. If that tears the organism apart, only
    /// a largest part of it lives on; the cells of all other parts are given
    /// up as well, and returned.
    pub fn abandon(&mut self, tile_id: TileId, grid: &Grid) -> (dead_cells: Vec<TileId>)
        requires
            old(self).wf(grid.spec_x_size(), grid.spec_y_size()),
            grid.wf(),
            old(self).cells().contains(tile_id.0),
        ensures
            final(self).wf(grid.spec_x_size(), grid.spec_y_size()),
            final(self).spec_id() == old(self).spec_id(),
            final(self).spec_genome_id() == old(self).spec_genome_id(),
            dead_cells@.no_duplicates(),
            forall|t: TileId| #[trigger]
                dead_cells@.contains(t) ==> old(self).cells().contains(t.0) && t != tile_id,
            forall|cell: usize|
                final(self).cells().contains(cell) <==> old(self).cells().contains(cell) && cell
                    != tile_id.0 && !dead_cells@.contains(TileId(cell)),
            Self::abandoned(
                old(self).cells(),
                tile_id.0,
                final(self).cells(),
                grid.spec_x_size() as int,
                grid.spec_y_size() as int,
            ),
            old(self).is_connected(grid.spec_x_size(), grid.spec_y_size()) ==> final(self).is_connected(grid.spec_x_size(), grid.spec_y_size()),
    {
        let ghost x_size = grid.spec_x_size();
        let ghost y_size = grid.spec_y_size();
        let ghost xs = x_size as int;
        let ghost ys = y_size as int;
        let ghost before = old(self).cells();
        let ghost rest_nodes = before.remove(tile_id.0);
        let ghost rest = torus_adjacency(rest_nodes, xs, ys);
        proof {
            old(self).cells.lemma_wf(x_size, y_size);
            grid.lemma_wf_lengths();
        }
        let neighboring_cells = self.remove_cell(tile_id);
        let mut visited = bitset_with_capacity(grid.size());
        proof {
            self.cells.lemma_wf(x_size, y_size);
            self.cells.lemma_inv();
            lemma_torus_links_mutual(rest_nodes, xs, ys);
            assert forall|i: int| 0 <= i < neighboring_cells@.len() implies rest_nodes.contains(
                (#[trigger] neighboring_cells@[i]).0,
            ) by {
                let b = neighboring_cells@[i].0;
                assert(neighboring_cells@.contains(neighboring_cells@[i]));
                assert(neighboring_cells@[i] == TileId(b));
                lemma_torus_linked(before, tile_id.0, xs, ys, b);
            }
        }
        if !all_connected(&self.cells, neighboring_cells.as_slice(), &mut visited) {
            let ghost first = neighboring_cells@[0].0;
            let ghost part = component(rest, first);
            let node_count = self.cells.node_count();
            let majority = node_count / 2;
            proof {
                assert(neighboring_cells@.len() > 1);
                assert(rest_nodes.contains(first));
                lemma_component_of_nodes(rest, first);
                vstd::set_lib::lemma_len_subset(part, rest_nodes);
                lemma_component_closed(rest, first);
                lemma_reaches_itself(rest, first);
            }
            let ghost mut root: usize = first;
            let dead_cells = if bitset_count_ones(&visited) > majority {
                proof {
                    lemma_majority_is_leading(rest, first);
                }
                self.unvisited_cells(&visited)
            } else {
                let parts = components(&self.cells, &mut visited);
                proof {
                    assert forall|i: int| 0 <= i < parts@.len() implies (#[trigger] parts@[i])@.len()
                        > 0 by {
                        if i >= 1 {
                            assert(is_component(rest, parts@[i]@));
                        } else {
                            assert(part.contains(first));
                            assert(parts@[0]@.contains(TileId(first)));
                        }
                    }
                }
                let best = Self::leading(&parts);
                proof {
                    assert forall|i: int| 0 <= i < parts@.len() implies (
                    #[trigger] parts@[i])@.no_duplicates() by {
                        if i >= 1 {
                            assert(is_component(rest, parts@[i]@));
                        }
                    }
                    root = parts@[best as int]@[0].0;
                    assert(parts@[best as int]@.contains(parts@[best as int]@[0]));
                    assert(parts@[best as int]@[0] == TileId(root));
                    Self::lemma_part_is_component(rest, parts@, first, best as int);
                    assert forall|a: usize| #[trigger] rest.contains_key(a) implies component(
                        rest,
                        a,
                    ).len() <= component(rest, root).len() && (component(rest, a).len()
                        == component(rest, root).len() ==> leads(
                        component(rest, root),
                        component(rest, a),
                    )) by {
                        let i = choose|i: int|
                            0 <= i < parts@.len() && (#[trigger] parts@[i])@.contains(TileId(a));
                        assert(parts@[i]@.contains(parts@[i]@[0]));
                        Self::lemma_part_is_component(rest, parts@, first, i);
                        let lead = parts@[i]@[0].0;
                        assert(parts@[i]@[0] == TileId(lead));
                        assert(reaches(rest, lead, a));
                        lemma_component_shared(rest, lead, a);
                        lemma_tiles_len(parts@[i]@);
                        lemma_tiles_len(parts@[best as int]@);
                        assert(component(rest, lead) =~= Set::new(
                            |x: usize| parts@[i]@.contains(TileId(x)),
                        ));
                        assert(component(rest, root) =~= Set::new(
                            |x: usize| parts@[best as int]@.contains(TileId(x)),
                        ));
                        if component(rest, a).len() == component(rest, root).len() {
                            assert(parts@[i]@.len() == parts@[best as int]@.len());
                            let least = choose|least: TileId|
                                parts@[best as int]@.contains(least) && #[trigger] Self::under(
                                    least,
                                    parts@[i]@,
                                );
                            assert(least == TileId(least.0));
                            assert(below(least.0, component(rest, a))) by {
                                assert forall|x: usize| component(rest, a).contains(
                                    x,
                                ) implies least.0 <= x by {
                                    assert(parts@[i]@.contains(TileId(x)));
                                }
                            }
                        }
                    }
                    lemma_reaches_itself(rest, first);
                    assert(rest.contains_key(root)) by {
                        lemma_component_of_nodes(rest, parts@[best as int]@[0].0);
                        if best == 0 {
                            assert(part.contains(root));
                        } else {
                            assert(is_component(rest, parts@[best as int]@));
                            assert(reaches(rest, root, root));
                        }
                    }
                    assert(leading_component(rest, component(rest, root)));
                }
                let dead_cells = Self::all_but(&parts, best);
                proof {
                    assert forall|t: TileId| #[trigger]
                        dead_cells@.contains(t) <==> rest_nodes.contains(t.0) && !component(
                            rest,
                            root,
                        ).contains(t.0) by {
                        assert(t == TileId(t.0));
                        if dead_cells@.contains(t) {
                            let i = choose|i: int|
                                0 <= i < parts@.len() && i != best && #[trigger] parts@[i]@.contains(
                                    t,
                                );
                            assert(parts@[i]@.contains(parts@[i]@[0]));
                            Self::lemma_part_is_component(rest, parts@, first, i);
                            lemma_component_of_nodes(rest, parts@[i]@[0].0);
                            if i < best {
                                assert(!(parts@[i]@.contains(t) && parts@[best as int]@.contains(t)));
                            } else {
                                assert(!(parts@[best as int]@.contains(t) && parts@[i]@.contains(t)));
                            }
                        }
                        if rest_nodes.contains(t.0) && !component(rest, root).contains(t.0) {
                            let i = choose|i: int|
                                0 <= i < parts@.len() && (#[trigger] parts@[i])@.contains(
                                    TileId(t.0),
                                );
                            assert(parts@[i]@.contains(t));
                        }
                    }
                }
                dead_cells
            };
            proof {
                assert(leading_component(rest, component(rest, root)));
                lemma_component_of_nodes(rest, root);
            }
            let mut index: usize = 0;
            while index < dead_cells.len()
                invariant
                    index <= dead_cells@.len(),
                    self.id == old(self).id,
                    self.genome_id == old(self).genome_id,
                    self.wf(x_size, y_size),
                    dead_cells@.no_duplicates(),
                    forall|t: TileId| #[trigger]
                        dead_cells@.contains(t) <==> rest_nodes.contains(t.0) && !component(
                            rest,
                            root,
                        ).contains(t.0),
                    forall|cell: usize| #[trigger]
                        self.cells().contains(cell) <==> rest_nodes.contains(cell)
                            && !dead_cells@.take(index as int).contains(TileId(cell)),
                decreases dead_cells@.len() - index,
            {
                let dead_tile_id = dead_cells[index];
                proof {
                    assert(dead_cells@.contains(dead_tile_id));
                    assert(dead_tile_id == TileId(dead_tile_id.0));
                    assert(!dead_cells@.take(index as int).contains(dead_tile_id)) by {
                        if dead_cells@.take(index as int).contains(dead_tile_id) {
                            let i = choose|i: int|
                                0 <= i < index && dead_cells@.take(index as int)[i] == dead_tile_id;
                            assert(dead_cells@[i] == dead_cells@[index as int]);
                        }
                    }
                    let sooner = dead_cells@.take(index as int);
                    let later = dead_cells@.take(index + 1);
                    assert(later =~= sooner.push(dead_tile_id));
                    assert forall|t: TileId| later.contains(t) <==> sooner.contains(t) || t
                        == dead_tile_id by {
                        if sooner.contains(t) {
                            let i = choose|i: int| 0 <= i < sooner.len() && sooner[i] == t;
                            assert(later[i] == t);
                        }
                        if t == dead_tile_id {
                            assert(later[index as int] == t);
                        }
                    }
                }
                let ghost held = self.cells();
                self.remove_cell(dead_tile_id);
                proof {
                    assert forall|cell: usize| #[trigger]
                        self.cells().contains(cell) <==> rest_nodes.contains(cell)
                            && !dead_cells@.take(index + 1).contains(TileId(cell)) by {
                        assert(held.contains(cell) <==> rest_nodes.contains(cell)
                            && !dead_cells@.take(index as int).contains(TileId(cell)));
                        assert((TileId(cell) == dead_tile_id) == (cell == dead_tile_id.0));
                    }
                }
                index = index + 1;
            }
            proof {
                assert(dead_cells@.take(index as int) =~= dead_cells@);
                assert forall|cell: usize| self.cells().contains(cell) == component(
                    rest,
                    root,
                ).contains(cell) by {
                    assert(dead_cells@.contains(TileId(cell)) <==> rest_nodes.contains(
                        TileId(cell).0,
                    ) && !component(rest, root).contains(TileId(cell).0));
                }
                assert(self.cells() =~= component(rest, root));
                lemma_component_connected(rest_nodes, xs, ys, root);
                assert(!keeps_together(torus_linked(before, tile_id.0 as int, xs, ys), rest));
            }
            return dead_cells;
        }
        proof {
            assert(keeps_together(torus_linked(before, tile_id.0 as int, xs, ys), rest));
            if old(self).is_connected(x_size, y_size) {
                lemma_rest_connected(before, tile_id.0, xs, ys);
            }
        }
        Vec::new()
    }

    /// Each of the parts into which a search cuts a graph is what its first
    /// tile reaches.
    proof fn lemma_part_is_component(
        graph: Map<usize, Set<usize>>,
        parts: Seq<Vec<TileId>>,
        first: usize,
        i: int,
    )
        requires
            0 <= i < parts.len(),
            crate::simple_graph::links_mutual(graph),
            parts[i]@.len() > 0,
            forall|a: usize| parts[0]@.contains(TileId(a)) <==> component(graph, first).contains(a),
            forall|k: int| 1 <= k < parts.len() ==> is_component(graph, (#[trigger] parts[k])@),
        ensures
            forall|x: usize|
                parts[i]@.contains(TileId(x)) <==> reaches(graph, parts[i]@[0].0, x),
    {
        if i == 0 {
            let lead = parts[0]@[0];
            assert(parts[0]@.contains(lead));
            assert(lead == TileId(lead.0));
            assert(parts[0]@.contains(TileId(lead.0)));
            assert(component(graph, first).contains(lead.0));
            lemma_component_shared(graph, first, lead.0);
            assert forall|x: usize| parts[i]@.contains(TileId(x)) <==> reaches(
                graph,
                parts[i]@[0].0,
                x,
            ) by {
                assert(component(graph, first).contains(x) == component(graph, lead.0).contains(x));
            }
        } else {
            assert(is_component(graph, parts[i]@));
        }
    }

    fn remove_cell(&mut self, tile_id: TileId) -> (neighboring_cells: Vec<TileId>)
        requires
            old(self).cells.inv(),
            old(self).cells().contains(tile_id.0),
        ensures
            final(self).id == old(self).id,
            final(self).genome_id == old(self).genome_id,
            final(self).cells() == old(self).cells().remove(tile_id.0),
            forall|x_size: usize, y_size: usize| #[trigger]
                old(self).wf(x_size, y_size) ==> final(self).wf(x_size, y_size)
                    && neighboring_cells@ == torus_linked(
                    old(self).cells(),
                    tile_id.0 as int,
                    x_size as int,
                    y_size as int,
                ),
    {
        self.cells.remove_node(tile_id)
    }

    /// The cells that `visited` does not mark.
    fn unvisited_cells(&self, visited: &FixedBitSet) -> (tile_ids: Vec<TileId>)
        ensures
            tile_ids@.no_duplicates(),
            forall|t: TileId| #[trigger]
                tile_ids@.contains(t) <==> self.cells().contains(t.0) && !bitset_ones(
                    *visited,
                ).contains(t.0),
    {
        let cells = self.cells.nodes();
        let mut tile_ids: Vec<TileId> = Vec::new();
        let mut index: usize = 0;
        while index < cells.len()
            invariant
                index <= cells@.len(),
                cells@.no_duplicates(),
                forall|cell: usize| self.cells().contains(cell) <==> cells@.contains(TileId(cell)),
                tile_ids@.no_duplicates(),
                forall|t: TileId| #[trigger]
                    tile_ids@.contains(t) <==> cells@.take(index as int).contains(t) && !bitset_ones(
                        *visited,
                    ).contains(t.0),
            decreases cells@.len() - index,
        {
            let tile_id = cells[index];
            let ghost listed = tile_ids@;
            proof {
                assert(cells@.take(index + 1) =~= cells@.take(index as int).push(tile_id));
                assert forall|t: TileId|
                    cells@.take(index + 1).contains(t) <==> cells@.take(index as int).contains(t) || t
                        == tile_id by {
                    if cells@.take(index as int).contains(t) {
                        let i = choose|i: int|
                            0 <= i < index && cells@.take(index as int)[i] == t;
                        assert(cells@.take(index + 1)[i] == t);
                    }
                    if t == tile_id {
                        assert(cells@.take(index + 1)[index as int] == t);
                    }
                }
                assert(!cells@.take(index as int).contains(tile_id)) by {
                    if cells@.take(index as int).contains(tile_id) {
                        let i = choose|i: int|
                            0 <= i < index && cells@.take(index as int)[i] == tile_id;
                        assert(cells@[i] == cells@[index as int]);
                    }
                }
            }
            if !bitset_contains(visited, tile_id.0) {
                tile_ids.push(tile_id);
                proof {
                    assert forall|t: TileId| tile_ids@.contains(t) <==> listed.contains(t) || t
                        == tile_id by {
                        if listed.contains(t) {
                            let i = choose|i: int| 0 <= i < listed.len() && listed[i] == t;
                            assert(tile_ids@[i] == t);
                        }
                        if t == tile_id {
                            assert(tile_ids@[listed.len() as int] == t);
                        }
                        if tile_ids@.contains(t) {
                            let i = choose|i: int| 0 <= i < tile_ids@.len() && tile_ids@[i] == t;
                            if i < listed.len() {
                                assert(listed[i] == t);
                            }
                        }
                    }
                    assert(!listed.contains(tile_id));
                    assert forall|i: int, j: int|
                        0 <= i < tile_ids@.len() && 0 <= j < tile_ids@.len() && i != j implies tile_ids@[i]
                        != tile_ids@[j] by {
                        if i < listed.len() {
                            assert(listed.contains(tile_ids@[i]));
                        }
                        if j < listed.len() {
                            assert(listed.contains(tile_ids@[j]));
                        }
                    }
                }
            }
            proof {
                assert forall|t: TileId| #[trigger]
                    tile_ids@.contains(t) <==> cells@.take(index + 1).contains(t) && !bitset_ones(
                        *visited,
                    ).contains(t.0) by {
                    if listed.contains(t) {
                        assert(cells@.take(index as int).contains(t));
                    }
                }
            }
            index = index + 1;
        }
        proof {
            assert(cells@.take(index as int) =~= cells@);
            assert forall|t: TileId| #[trigger]
                tile_ids@.contains(t) <==> self.cells().contains(t.0) && !bitset_ones(
                    *visited,
                ).contains(t.0) by {
                assert(t == TileId(t.0));
            }
        }
        tile_ids
    }

    /// No tile of `tiles` is less than `tile`.
    pub open spec fn under(tile: TileId, tiles: Seq<TileId>) -> bool {
        forall|x: TileId| tiles.contains(x) ==> tile.0 <= x.0
    }

    /// `tiles` holds a tile than which no tile of `others` is less.
    pub open spec fn before(tiles: Seq<TileId>, others: Seq<TileId>) -> bool {
        exists|least: TileId| tiles.contains(least) && #[trigger] Self::under(least, others)
    }

    /// The least of `tiles`.
    fn lowest(tiles: &Vec<TileId>) -> (least: TileId)
        requires
            tiles@.len() > 0,
        ensures
            tiles@.contains(least),
            Self::under(least, tiles@),
    {
        let mut least = tiles[0];
        let mut index: usize = 1;
        assert(tiles@.take(1) =~= seq![tiles@[0]]);
        assert(tiles@.take(1)[0] == least);
        while index < tiles.len()
            invariant
                1 <= index <= tiles@.len(),
                tiles@.contains(least),
                Self::under(least, tiles@.take(index as int)),
            decreases tiles@.len() - index,
        {
            let tile = tiles[index];
            proof {
                let sooner = tiles@.take(index as int);
                let later = tiles@.take(index + 1);
                assert(later =~= sooner.push(tile));
                assert forall|x: TileId| later.contains(x) implies sooner.contains(x) || x == tile by {
                    let i = choose|i: int| 0 <= i < later.len() && later[i] == x;
                    if i < sooner.len() {
                        assert(sooner[i] == x);
                    }
                }
            }
            if tile.0 < least.0 {
                least = tile;
            }
            index = index + 1;
        }
        assert(tiles@.take(index as int) =~= tiles@);
        least
    }

    /// The place of the longest of `parts`; of several that are as long,
    /// the one with the least tile.
    fn leading(parts: &Vec<Vec<TileId>>) -> (best: usize)
        requires
            parts@.len() > 0,
            forall|i: int| 0 <= i < parts@.len() ==> (#[trigger] parts@[i])@.len() > 0,
        ensures
            best < parts@.len(),
            forall|i: int| 0 <= i < parts@.len() ==> (#[trigger] parts@[i])@.len() <= parts@[best as int]@.len(),
            forall|i: int|
                0 <= i < parts@.len() && (#[trigger] parts@[i])@.len() == parts@[best as int]@.len()
                    ==> Self::before(parts@[best as int]@, parts@[i]@),
    {
        let mut best: usize = 0;
        let mut best_least = Self::lowest(&parts[0]);
        let mut index: usize = 1;
        while index < parts.len()
            invariant
                1 <= index <= parts@.len(),
                best < index,
                forall|i: int| 0 <= i < parts@.len() ==> (#[trigger] parts@[i])@.len() > 0,
                parts@[best as int]@.contains(best_least),
                forall|i: int| 0 <= i < index ==> (#[trigger] parts@[i])@.len() <= parts@[best as int]@.len(),
                forall|i: int|
                    0 <= i < index && (#[trigger] parts@[i])@.len() == parts@[best as int]@.len()
                        ==> Self::under(best_least, parts@[i]@),
            decreases parts@.len() - index,
        {
            if parts[index].len() > parts[best].len() {
                best = index;
                best_least = Self::lowest(&parts[index]);
            } else if parts[index].len() == parts[best].len() {
                let least = Self::lowest(&parts[index]);
                if least.0 < best_least.0 {
                    best = index;
                    best_least = least;
                }
            }
            index = index + 1;
        }
        proof {
            assert forall|i: int|
                0 <= i < parts@.len() && (#[trigger] parts@[i])@.len()
                    == parts@[best as int]@.len() implies Self::before(
                parts@[best as int]@,
                parts@[i]@,
            ) by {
                assert(Self::under(best_least, parts@[i]@));
            }
        }
        best
    }

    /// The tiles of all of `parts` but the one at `best`.
    fn all_but(parts: &Vec<Vec<TileId>>, best: usize) -> (tile_ids: Vec<TileId>)
        requires
            best < parts@.len(),
            forall|i: int| 0 <= i < parts@.len() ==> (#[trigger] parts@[i])@.no_duplicates(),
            forall|i: int, j: int, a: TileId|
                0 <= i < j < parts@.len() ==> !(#[trigger] parts@[i]@.contains(a) && #[trigger] parts@[j]@.contains(a)),
        ensures
            tile_ids@.no_duplicates(),
            forall|t: TileId| #[trigger]
                tile_ids@.contains(t) <==> exists|i: int|
                    0 <= i < parts@.len() && i != best && #[trigger] parts@[i]@.contains(t),
    {
        let mut tile_ids: Vec<TileId> = Vec::new();
        let mut index: usize = 0;
        while index < parts.len()
            invariant
                index <= parts@.len(),
                best < parts@.len(),
                forall|i: int| 0 <= i < parts@.len() ==> (#[trigger] parts@[i])@.no_duplicates(),
                forall|i: int, j: int, a: TileId|
                    0 <= i < j < parts@.len() ==> !(#[trigger] parts@[i]@.contains(a) && #[trigger] parts@[j]@.contains(a)),
                tile_ids@.no_duplicates(),
                forall|t: TileId| #[trigger]
                    tile_ids@.contains(t) <==> exists|i: int|
                        0 <= i < index && i != best && #[trigger] parts@[i]@.contains(t),
            decreases parts@.len() - index,
        {
            if index != best {
                let ghost listed = tile_ids@;
                let mut next: usize = 0;
                while next < parts[index as usize].len()
                    invariant
                        index < parts@.len(),
                        index != best,
                        next <= parts@[index as int]@.len(),
                        parts@[index as int]@.no_duplicates(),
                        forall|i: int, j: int, a: TileId|
                            0 <= i < j < parts@.len() ==> !(#[trigger] parts@[i]@.contains(a) && #[trigger] parts@[j]@.contains(a)),
                        listed.no_duplicates(),
                        forall|t: TileId| #[trigger]
                            listed.contains(t) <==> exists|i: int|
                                0 <= i < index && i != best && #[trigger] parts@[i]@.contains(t),
                        tile_ids@ == listed + parts@[index as int]@.take(next as int),
                        tile_ids@.no_duplicates(),
                    decreases parts@[index as int]@.len() - next,
                {
                    let tile_id = parts[index][next];
                    let ghost sooner = tile_ids@;
                    tile_ids.push(tile_id);
                    proof {
                        let part = parts@[index as int]@;
                        assert(part.take(next + 1) =~= part.take(next as int).push(tile_id));
                        assert(tile_ids@ =~= listed + part.take(next + 1));
                        assert(part.contains(tile_id)) by {
                            assert(part[next as int] == tile_id);
                        }
                        assert forall|k: int| 0 <= k < sooner.len() implies sooner[k] != tile_id by {
                            if k < listed.len() {
                                assert(listed.contains(sooner[k]));
                                let i = choose|i: int|
                                    0 <= i < index && i != best && #[trigger] parts@[i]@.contains(
                                        sooner[k],
                                    );
                                assert(!(parts@[i]@.contains(tile_id) && parts@[index as int]@.contains(
                                    tile_id,
                                )));
                            } else {
                                assert(sooner[k] == part[k - listed.len()]);
                            }
                        }
                    }
                    next = next + 1;
                }
                proof {
                    let part = parts@[index as int]@;
                    assert(part.take(next as int) =~= part);
                    assert forall|t: TileId| #[trigger]
                        tile_ids@.contains(t) <==> exists|i: int|
                            0 <= i < index + 1 && i != best && #[trigger] parts@[i]@.contains(t) by {
                        if tile_ids@.contains(t) {
                            let k = choose|k: int| 0 <= k < tile_ids@.len() && tile_ids@[k] == t;
                            if k < listed.len() {
                                assert(listed.contains(t));
                                let i = choose|i: int|
                                    0 <= i < index && i != best && #[trigger] parts@[i]@.contains(t);
                                assert(parts@[i]@.contains(t));
                            } else {
                                assert(part[k - listed.len()] == t);
                                assert(parts@[index as int]@.contains(t));
                            }
                        }
                        if exists|i: int|
                            0 <= i < index + 1 && i != best && #[trigger] parts@[i]@.contains(t) {
                            let i = choose|i: int|
                                0 <= i < index + 1 && i != best && #[trigger] parts@[i]@.contains(t);
                            if i < index {
                                assert(listed.contains(t));
                                let k = choose|k: int| 0 <= k < listed.len() && listed[k] == t;
                                assert(tile_ids@[k] == t);
                            } else {
                                let k = choose|k: int| 0 <= k < part.len() && part[k] == t;
                                assert(tile_ids@[listed.len() + k] == t);
                            }
                        }
                    }
                }
            } else {
                proof {
                    assert forall|t: TileId| #[trigger]
                        tile_ids@.contains(t) <==> exists|i: int|
                            0 <= i < index + 1 && i != best && #[trigger] parts@[i]@.contains(t) by {
                        if tile_ids@.contains(t) {
                            let i = choose|i: int|
                                0 <= i < index && i != best && #[trigger] parts@[i]@.contains(t);
                            assert(parts@[i]@.contains(t));
                        }
                    }
                }
            }
            index = index + 1;
        }
        tile_ids
    }
}

} // verus!
