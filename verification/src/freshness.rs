use crate::blob::two_steps;
use crate::entity::Entity;
use crate::genome::GenomeKind;
use crate::genomes::doublet_genome::scorable;
use crate::grid::{lemma_occurrences_contains, occurrences, Grid};
use crate::plants::PlantId;
use crate::square_grid::{
    lemma_step_back, lemma_step_in_range, lemma_steps_commute, opposite, step_tile,
};
use crate::step::Step;
use crate::tiles::TileId;
use vstd::prelude::*;

verus! {

/// The tile `other` is `tile` itself or at most two steps away from it.
pub open spec fn near(tile: int, other: int, x_size: int, y_size: int) -> bool {
    ||| other == tile
    ||| exists|first: Step| other == #[trigger] step_tile(tile, first, x_size, y_size)
    ||| exists|first: Step, second: Step|
        other == #[trigger] two_steps(tile, first, second, x_size, y_size)
}

/// `after` is `before` once `entity` has been put on `tile`.
pub open spec fn replaced(before: Grid, after: Grid, tile: int, entity: Entity) -> bool {
    &&& after.spec_x_size() == before.spec_x_size()
    &&& after.spec_y_size() == before.spec_y_size()
    &&& after.entities() == before.entities().update(tile, entity)
    &&& after.nonces() == if before.entities()[tile] != entity {
        before.touched_nonces(tile)
    } else {
        before.nonces()
    }
}

/// Being near is mutual.
pub proof fn lemma_near_symmetric(tile: int, other: int, x_size: int, y_size: int)
    requires
        0 <= tile < x_size * y_size,
        0 <= x_size,
        0 <= y_size,
        near(tile, other, x_size, y_size),
    ensures
        near(other, tile, x_size, y_size),
        0 <= other < x_size * y_size,
{
    if other == tile {
    } else if exists|first: Step| other == #[trigger] step_tile(tile, first, x_size, y_size) {
        let first = choose|first: Step| other == #[trigger] step_tile(tile, first, x_size, y_size);
        lemma_step_back(tile, first, x_size, y_size);
        lemma_step_in_range(tile, first, x_size, y_size);
        assert(tile == step_tile(other, opposite(first), x_size, y_size));
    } else {
        let (first, second) = choose|first: Step, second: Step|
            other == #[trigger] two_steps(tile, first, second, x_size, y_size);
        let middle = step_tile(tile, first, x_size, y_size);
        lemma_step_in_range(tile, first, x_size, y_size);
        lemma_step_in_range(middle, second, x_size, y_size);
        lemma_step_back(tile, first, x_size, y_size);
        lemma_step_back(middle, second, x_size, y_size);
        assert(tile == two_steps(other, opposite(second), opposite(first), x_size, y_size));
    }
}

/// The tiles whose counters a change of `tile` raises are the tiles near it.
pub proof fn lemma_touched_is_near(grid: Grid, tile: int, other: int)
    requires
        0 <= tile < grid.spec_size(),
        0 <= other < grid.spec_size(),
        grid.spec_size() <= usize::MAX,
    ensures
        grid.touched(tile).contains(TileId(other as usize)) <==> near(
            tile,
            other,
            grid.spec_x_size() as int,
            grid.spec_y_size() as int,
        ),
{
    if grid.touched(tile).contains(TileId(other as usize)) {
        lemma_touched_near(grid, tile, other);
    }
    if near(tile, other, grid.spec_x_size() as int, grid.spec_y_size() as int) {
        lemma_near_touched(grid, tile, other);
    }
}

proof fn lemma_touched_near(grid: Grid, tile: int, other: int)
    requires
        0 <= tile < grid.spec_size(),
        0 <= other < grid.spec_size(),
        grid.spec_size() <= usize::MAX,
        grid.touched(tile).contains(TileId(other as usize)),
    ensures
        near(tile, other, grid.spec_x_size() as int, grid.spec_y_size() as int),
{
    let xs = grid.spec_x_size() as int;
    let ys = grid.spec_y_size() as int;
    let touched = grid.touched(tile);
    let wanted = TileId(other as usize);
    grid.lemma_steps_in_range(tile);
    assert(touched.len() == 13);
    let i = choose|i: int| 0 <= i < touched.len() && touched[i] == wanted;
    if i == 0 {
    } else if i == 1 {
        assert(other == step_tile(tile, Step::Up, xs, ys));
    } else if i == 2 {
        assert(other == step_tile(tile, Step::Right, xs, ys));
    } else if i == 3 {
        assert(other == step_tile(tile, Step::Down, xs, ys));
    } else if i == 4 {
        assert(other == step_tile(tile, Step::Left, xs, ys));
    } else if i == 5 {
        assert(other == two_steps(tile, Step::Up, Step::Right, xs, ys));
    } else if i == 6 {
        assert(other == two_steps(tile, Step::Right, Step::Down, xs, ys));
    } else if i == 7 {
        assert(other == two_steps(tile, Step::Down, Step::Left, xs, ys));
    } else if i == 8 {
        assert(other == two_steps(tile, Step::Left, Step::Up, xs, ys));
    } else if i == 9 {
        assert(other == two_steps(tile, Step::Up, Step::Up, xs, ys));
    } else if i == 10 {
        assert(other == two_steps(tile, Step::Right, Step::Right, xs, ys));
    } else if i == 11 {
        assert(other == two_steps(tile, Step::Down, Step::Down, xs, ys));
    } else {
        assert(other == two_steps(tile, Step::Left, Step::Left, xs, ys));
    }
}

/// The place in the list of touched tiles of the tile two steps away.
spec fn two_steps_place(first: Step, second: Step) -> int {
    match (first, second) {
        (Step::Up, Step::Up) => 9,
        (Step::Up, Step::Right) => 5,
        (Step::Up, Step::Down) => 0,
        (Step::Up, Step::Left) => 8,
        (Step::Right, Step::Up) => 5,
        (Step::Right, Step::Right) => 10,
        (Step::Right, Step::Down) => 6,
        (Step::Right, Step::Left) => 0,
        (Step::Down, Step::Up) => 0,
        (Step::Down, Step::Right) => 6,
        (Step::Down, Step::Down) => 11,
        (Step::Down, Step::Left) => 7,
        (Step::Left, Step::Up) => 8,
        (Step::Left, Step::Right) => 0,
        (Step::Left, Step::Down) => 7,
        (Step::Left, Step::Left) => 12,
    }
}

proof fn lemma_two_steps_touched(grid: Grid, tile: int, first: Step, second: Step)
    requires
        0 <= tile < grid.spec_size(),
        grid.spec_size() <= usize::MAX,
    ensures
        grid.touched(tile)[two_steps_place(first, second)] == TileId(
            two_steps(
                tile,
                first,
                second,
                grid.spec_x_size() as int,
                grid.spec_y_size() as int,
            ) as usize,
        ),
{
    let xs = grid.spec_x_size() as int;
    let ys = grid.spec_y_size() as int;
    lemma_steps_commute(tile, first, second, xs, ys);
    lemma_step_back(tile, first, xs, ys);
    assert(grid.touched(tile).len() == 13);
}

proof fn lemma_near_touched(grid: Grid, tile: int, other: int)
    requires
        0 <= tile < grid.spec_size(),
        0 <= other < grid.spec_size(),
        grid.spec_size() <= usize::MAX,
        near(tile, other, grid.spec_x_size() as int, grid.spec_y_size() as int),
    ensures
        grid.touched(tile).contains(TileId(other as usize)),
{
    let xs = grid.spec_x_size() as int;
    let ys = grid.spec_y_size() as int;
    let touched = grid.touched(tile);
    let wanted = TileId(other as usize);
    assert(touched.len() == 13);
    if other == tile {
        assert(touched[0] == wanted);
    } else if exists|first: Step| other == #[trigger] step_tile(tile, first, xs, ys) {
        let first = choose|first: Step| other == #[trigger] step_tile(tile, first, xs, ys);
        match first {
            Step::Up => assert(touched[1] == wanted),
            Step::Right => assert(touched[2] == wanted),
            Step::Down => assert(touched[3] == wanted),
            Step::Left => assert(touched[4] == wanted),
        }
    } else {
        let (first, second) = choose|first: Step, second: Step|
            other == #[trigger] two_steps(tile, first, second, xs, ys);
        lemma_two_steps_touched(grid, tile, first, second);
        assert(touched[two_steps_place(first, second)] == wanted);
    }
}

/// When a tile is given another entity, the counters of the tiles near it
/// go up, and no other counter changes. When it is given the entity that
/// it has, no counter changes.
pub proof fn lemma_counters_after_change(
    before: Grid,
    after: Grid,
    tile: int,
    entity: Entity,
    other: int,
)
    requires
        before.wf(),
        0 <= tile < before.spec_size(),
        0 <= other < before.spec_size(),
        before.entities()[tile] != entity ==> before.can_touch(tile),
        replaced(before, after, tile, entity),
    ensures
        after.nonces()[other] >= before.nonces()[other],
        after.nonces()[other] > before.nonces()[other] <==> before.entities()[tile] != entity
            && near(other, tile, before.spec_x_size() as int, before.spec_y_size() as int),
{
    let xs = before.spec_x_size() as int;
    let ys = before.spec_y_size() as int;
    before.lemma_wf_lengths();
    lemma_touched_is_near(before, tile, other);
    lemma_occurrences_contains(before.touched(tile), TileId(other as usize));
    if near(other, tile, xs, ys) {
        lemma_near_symmetric(other, tile, xs, ys);
    }
    if near(tile, other, xs, ys) {
        lemma_near_symmetric(tile, other, xs, ys);
    }
    if before.entities()[tile] != entity {
        assert(before.nonces()[other] + occurrences(before.touched(tile), TileId(other as usize))
            <= usize::MAX);
    }
}

/// A score of a tile reads the same after a change that left the counter
/// of the tile as it was: whether the tile may be taken, and the potentials
/// that add up to its score, are what they were, for every genome and
/// every organism.
pub proof fn lemma_same_counter_same_score<T: Copy>(
    before: Grid,
    after: Grid,
    tile: int,
    entity: Entity,
    scored: int,
    genome: GenomeKind<T>,
    plant_id: PlantId,
    points: usize,
)
    requires
        before.wf(),
        0 <= tile < before.spec_size(),
        0 <= scored < before.spec_size(),
        before.entities()[tile] != entity ==> before.can_touch(tile),
        replaced(before, after, tile, entity),
        after.nonces()[scored] == before.nonces()[scored],
    ensures
        scorable(after.entities()[scored], plant_id, points) == scorable(
            before.entities()[scored],
            plant_id,
            points,
        ),
        genome.terms(
            after.entities(),
            plant_id,
            scored,
            after.spec_x_size() as int,
            after.spec_y_size() as int,
        ) == genome.terms(
            before.entities(),
            plant_id,
            scored,
            before.spec_x_size() as int,
            before.spec_y_size() as int,
        ),
{
    let xs = before.spec_x_size() as int;
    let ys = before.spec_y_size() as int;
    before.lemma_wf_lengths();
    before.lemma_steps_in_range(scored);
    lemma_counters_after_change(before, after, tile, entity, scored);
    assert forall|other: int|
        0 <= other < before.spec_size() && near(scored, other, xs, ys) implies after.entities()[other]
        == before.entities()[other] by {}
    assert forall|first: Step| #[trigger]
        after.entities()[step_tile(scored, first, xs, ys)] == before.entities()[step_tile(
            scored,
            first,
            xs,
            ys,
        )] by {
        assert(near(scored, step_tile(scored, first, xs, ys), xs, ys));
    }
    assert forall|first: Step, second: Step| #[trigger]
        after.entities()[step_tile(step_tile(scored, first, xs, ys), second, xs, ys)]
            == before.entities()[step_tile(step_tile(scored, first, xs, ys), second, xs, ys)] by {
        assert(step_tile(step_tile(scored, first, xs, ys), second, xs, ys) == two_steps(
            scored,
            first,
            second,
            xs,
            ys,
        ));
        assert(near(scored, two_steps(scored, first, second, xs, ys), xs, ys));
    }
    assert(near(scored, scored, xs, ys));
    match genome {
        GenomeKind::DoubletGenome(doublet_genome) => {
            assert(doublet_genome.terms(after.entities(), plant_id, scored, xs, ys)
                =~= doublet_genome.terms(before.entities(), plant_id, scored, xs, ys));
        },
        GenomeKind::TripletGenome(triplet_genome) => {
            assert(triplet_genome.terms(after.entities(), plant_id, scored, xs, ys)
                =~= triplet_genome.terms(before.entities(), plant_id, scored, xs, ys));
        },
    }
}

/// Each grid of `grids` but the first is the one before it once the entity
/// of `changes` at its place has been put on the tile given with it.
pub open spec fn history(grids: Seq<Grid>, changes: Seq<(int, Entity)>) -> bool {
    &&& grids.len() == changes.len() + 1
    &&& forall|i: int|
        0 <= i < changes.len() ==> {
            &&& (#[trigger] grids[i]).wf()
            &&& 0 <= changes[i].0 < grids[i].spec_size()
            &&& grids[i].entities()[changes[i].0] != changes[i].1 ==> grids[i].can_touch(
                changes[i].0,
            )
            &&& replaced(grids[i], grids[i + 1], changes[i].0, changes[i].1)
        }
}

/// Counters never go down.
pub proof fn lemma_counters_grow(grids: Seq<Grid>, changes: Seq<(int, Entity)>, scored: int, i: int)
    requires
        history(grids, changes),
        0 <= i <= changes.len(),
        0 <= scored < grids[0].spec_size(),
    ensures
        grids[i].spec_x_size() == grids[0].spec_x_size(),
        grids[i].spec_y_size() == grids[0].spec_y_size(),
        grids[i].nonces()[scored] >= grids[0].nonces()[scored],
    decreases i,
{
    if i > 0 {
        lemma_counters_grow(grids, changes, scored, i - 1);
        assert(grids[i - 1].wf());
        lemma_counters_after_change(
            grids[i - 1],
            grids[i],
            changes[i - 1].0,
            changes[i - 1].1,
            scored,
        );
    }
}

/// Whatever has been changed on a grid in between: as long as the counter
/// of a tile is what it was, a score of the tile is what it was.
pub proof fn lemma_cached_score_holds<T: Copy>(
    grids: Seq<Grid>,
    changes: Seq<(int, Entity)>,
    scored: int,
    genome: GenomeKind<T>,
    plant_id: PlantId,
    points: usize,
)
    requires
        history(grids, changes),
        0 <= scored < grids[0].spec_size(),
        grids.last().nonces()[scored] == grids[0].nonces()[scored],
    ensures
        scorable(grids.last().entities()[scored], plant_id, points) == scorable(
            grids[0].entities()[scored],
            plant_id,
            points,
        ),
        genome.terms(
            grids.last().entities(),
            plant_id,
            scored,
            grids.last().spec_x_size() as int,
            grids.last().spec_y_size() as int,
        ) == genome.terms(
            grids[0].entities(),
            plant_id,
            scored,
            grids[0].spec_x_size() as int,
            grids[0].spec_y_size() as int,
        ),
    decreases changes.len(),
{
    if changes.len() > 0 {
        let n = changes.len() as int;
        let earlier = grids.drop_last();
        let sooner = changes.drop_last();
        assert(history(earlier, sooner)) by {
            assert forall|i: int| 0 <= i < sooner.len() implies {
                &&& (#[trigger] earlier[i]).wf()
                &&& 0 <= sooner[i].0 < earlier[i].spec_size()
                &&& earlier[i].entities()[sooner[i].0] != sooner[i].1 ==> earlier[i].can_touch(
                    sooner[i].0,
                )
                &&& replaced(earlier[i], earlier[i + 1], sooner[i].0, sooner[i].1)
            } by {
                assert(grids[i].wf());
            }
        }
        lemma_counters_grow(grids, changes, scored, n - 1);
        lemma_counters_grow(grids, changes, scored, n);
        assert(grids[n - 1].wf());
        lemma_counters_after_change(
            grids[n - 1],
            grids[n],
            changes[n - 1].0,
            changes[n - 1].1,
            scored,
        );
        lemma_same_counter_same_score(
            grids[n - 1],
            grids[n],
            changes[n - 1].0,
            changes[n - 1].1,
            scored,
            genome,
            plant_id,
            points,
        );
        assert(earlier.last() == grids[n - 1]);
        lemma_cached_score_holds(earlier, sooner, scored, genome, plant_id, points);
    }
}

} // verus!
