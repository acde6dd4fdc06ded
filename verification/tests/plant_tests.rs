use plant_sim::active_plant::{energy_budget, ActivePlant};
use plant_sim::cell_kind::CellKind;
use plant_sim::entity::Entity;
use plant_sim::genomes::GenomeId;
use plant_sim::grid::Grid;
use plant_sim::inactive_plant::InactivePlant;
use plant_sim::plants::PlantId;
use plant_sim::position::Position;
use plant_sim::square_grid::SquareGrid;
use plant_sim::tiles::TileId;

fn sorted(tiles: Vec<TileId>) -> Vec<usize> {
    let mut ids: Vec<usize> = tiles.iter().map(|tile| tile.0).collect();
    ids.sort();
    ids
}

fn tile(grid: &Grid, x: usize, y: usize) -> TileId {
    grid.id_at(Position::new(x, y))
}

/// Puts a cell of `plant` on `tile_id` and lets the organism take it.
fn grow(plant: &mut ActivePlant, grid: &mut Grid, tile_id: TileId) -> usize {
    grid.replace_entity(tile_id, Entity::Cell(plant.id(), CellKind::Branch));
    plant.occupy(tile_id, grid)
}

#[test]
fn budget_is_the_yield_divided_by_the_usage_rounded_down() {
    assert_eq!(energy_budget(7, 2), 3);
    assert_eq!(energy_budget(4, 1), 4);
    assert_eq!(energy_budget(9, 10), 0);
    assert_eq!(energy_budget(1, 2), 0);
    assert_eq!(energy_budget(0, 3), 0);
    assert_eq!(energy_budget(10, 10), 1);
    assert_eq!(energy_budget(19, 10), 1);
    assert_eq!(energy_budget(20, 10), 2);
}

#[test]
fn budget_without_usage_is_nothing() {
    assert_eq!(energy_budget(0, 0), 0);
    assert_eq!(energy_budget(12, 0), 0);
}

#[test]
fn budget_is_nothing_when_the_yield_is_below_the_usage() {
    for usage in 1..20 {
        for energy in 0..usage {
            assert_eq!(energy_budget(energy, usage), 0);
        }
    }
}

#[test]
fn a_new_plant_has_no_cells() {
    let grid = Grid::new(SquareGrid::new(3, 3));
    let plant = ActivePlant::new(PlantId(4), GenomeId(2));
    assert_eq!(plant.id(), PlantId(4));
    assert_eq!(plant.genome_id(), GenomeId(2));
    assert_eq!(plant.cell_count(), 0);
    assert!(plant.cell_tiles().is_empty());
    assert!(plant.available_tiles().is_empty());
    assert_eq!(plant.energy_usage(&grid), 0);
    assert_eq!(plant.energy_yield(&grid), 0);
    assert_eq!(plant.energy_points(&grid), 0);
}

#[test]
fn a_single_cell_draws_from_its_four_neighbors() {
    let mut grid = Grid::new(SquareGrid::new(3, 3));
    let mut plant = ActivePlant::new(PlantId(0), GenomeId(0));
    let energy = grow(&mut plant, &mut grid, TileId(4));
    assert_eq!(energy, 4);
    assert_eq!(plant.cell_count(), 1);
    assert_eq!(plant.energy_usage(&grid), 1);
    assert_eq!(plant.energy_yield(&grid), 4);
    assert_eq!(plant.energy_points(&grid), 4);
    assert_eq!(sorted(plant.available_tiles()), vec![1, 3, 5, 7]);
}

#[test]
fn every_cell_next_to_an_empty_tile_draws_from_it() {
    let mut grid = Grid::new(SquareGrid::new(5, 5));
    let mut plant = ActivePlant::new(PlantId(0), GenomeId(0));
    assert_eq!(grow(&mut plant, &mut grid, TileId(12)), 4);
    assert_eq!(grow(&mut plant, &mut grid, TileId(13)), 6);
    // The tile 8 borders both 7 and 13 and so gives twice.
    assert_eq!(grow(&mut plant, &mut grid, TileId(7)), 8);
    assert_eq!(plant.energy_usage(&grid), 3);
    assert_eq!(plant.energy_points(&grid), 2);
}

#[test]
fn tiles_of_others_give_no_energy() {
    let mut grid = Grid::new(SquareGrid::new(5, 5));
    let mut plant = ActivePlant::new(PlantId(0), GenomeId(0));
    grow(&mut plant, &mut grid, TileId(12));
    let mut other = ActivePlant::new(PlantId(1), GenomeId(0));
    grow(&mut other, &mut grid, TileId(13));
    assert_eq!(plant.energy_yield(&grid), 3);
    assert_eq!(other.energy_yield(&grid), 3);
    assert_eq!(sorted(plant.available_tiles()), vec![7, 11, 13, 17]);
}

#[test]
fn a_plant_that_fills_the_torus_draws_nothing() {
    let mut grid = Grid::new(SquareGrid::new(2, 2));
    let mut plant = ActivePlant::new(PlantId(0), GenomeId(0));
    for id in 0..4 {
        grow(&mut plant, &mut grid, TileId(id));
    }
    assert_eq!(plant.energy_yield(&grid), 0);
    assert_eq!(plant.energy_usage(&grid), 4);
    assert_eq!(plant.energy_points(&grid), 0);
    assert!(plant.available_tiles().is_empty());
}

#[test]
fn abandon_of_an_end_loses_only_that_cell() {
    let mut grid = Grid::new(SquareGrid::new(5, 5));
    let mut plant = ActivePlant::new(PlantId(0), GenomeId(0));
    for id in [11, 12, 13] {
        grow(&mut plant, &mut grid, TileId(id));
    }
    grid.replace_entity(TileId(13), Entity::Empty);
    let dead = plant.abandon(TileId(13), &grid);
    assert!(dead.is_empty());
    assert_eq!(sorted(plant.cell_tiles()), vec![11, 12]);
}

#[test]
fn abandon_of_the_only_cell_leaves_nothing() {
    let mut grid = Grid::new(SquareGrid::new(3, 3));
    let mut plant = ActivePlant::new(PlantId(0), GenomeId(0));
    grow(&mut plant, &mut grid, TileId(4));
    grid.replace_entity(TileId(4), Entity::Empty);
    let dead = plant.abandon(TileId(4), &grid);
    assert!(dead.is_empty());
    assert_eq!(plant.cell_count(), 0);
    assert!(plant.available_tiles().is_empty());
}

#[test]
fn abandon_keeps_a_ring_together() {
    let mut grid = Grid::new(SquareGrid::new(6, 6));
    let mut plant = ActivePlant::new(PlantId(0), GenomeId(0));
    for id in [7, 8, 9, 15, 21, 20, 19, 13] {
        grow(&mut plant, &mut grid, TileId(id));
    }
    grid.replace_entity(TileId(13), Entity::Empty);
    let dead = plant.abandon(TileId(13), &grid);
    assert!(dead.is_empty());
    assert_eq!(sorted(plant.cell_tiles()), vec![7, 8, 9, 15, 19, 20, 21]);
}

#[test]
fn abandon_of_a_bridge_keeps_the_larger_part() {
    let mut grid = Grid::new(SquareGrid::new(7, 7));
    let mut plant = ActivePlant::new(PlantId(0), GenomeId(0));
    let left = [tile(&grid, 1, 2), tile(&grid, 1, 3), tile(&grid, 1, 4)];
    let bridge = tile(&grid, 2, 3);
    let right = [tile(&grid, 3, 3), tile(&grid, 3, 4)];
    for id in [left[1], left[0], left[2], bridge, right[0], right[1]] {
        grow(&mut plant, &mut grid, id);
    }
    grid.replace_entity(bridge, Entity::Cell(PlantId(1), CellKind::Branch));
    let dead = plant.abandon(bridge, &grid);
    assert_eq!(sorted(dead), sorted(right.to_vec()));
    assert_eq!(sorted(plant.cell_tiles()), sorted(left.to_vec()));
}

#[test]
fn abandon_keeps_the_larger_part_when_it_is_searched_last() {
    let mut grid = Grid::new(SquareGrid::new(9, 9));
    let mut plant = ActivePlant::new(PlantId(0), GenomeId(0));
    // The cell 40 holds three arms together: one cell up, one cell down,
    // and five cells to the right.
    let center = tile(&grid, 4, 4);
    let up = tile(&grid, 4, 5);
    let down = tile(&grid, 4, 3);
    let arm: Vec<TileId> = (5..9).map(|x| tile(&grid, x, 4)).collect();
    grow(&mut plant, &mut grid, center);
    grow(&mut plant, &mut grid, up);
    grow(&mut plant, &mut grid, down);
    for &id in &arm {
        grow(&mut plant, &mut grid, id);
    }
    grid.replace_entity(center, Entity::Empty);
    let dead = plant.abandon(center, &grid);
    assert_eq!(sorted(dead), sorted(vec![up, down]));
    assert_eq!(sorted(plant.cell_tiles()), sorted(arm));
}

#[test]
fn abandon_of_a_tie_keeps_the_part_with_the_least_tile() {
    let mut grid = Grid::new(SquareGrid::new(7, 7));
    let mut plant = ActivePlant::new(PlantId(0), GenomeId(0));
    let left = vec![tile(&grid, 1, 3), tile(&grid, 0, 3)];
    let bridge = tile(&grid, 2, 3);
    let right = vec![tile(&grid, 3, 3), tile(&grid, 4, 3)];
    for id in [left[0], left[1], bridge, right[0], right[1]] {
        grow(&mut plant, &mut grid, id);
    }
    grid.replace_entity(bridge, Entity::Empty);
    let dead = sorted(plant.abandon(bridge, &grid));
    assert_eq!(dead, sorted(right));
    assert_eq!(sorted(plant.cell_tiles()), sorted(left));
}

#[test]
fn abandon_of_a_tie_does_not_depend_on_the_order_of_growth() {
    for order in [[0usize, 1, 2, 3, 4], [4, 3, 2, 1, 0], [2, 1, 3, 0, 4], [2, 3, 4, 1, 0]] {
        let mut grid = Grid::new(SquareGrid::new(7, 7));
        let mut plant = ActivePlant::new(PlantId(0), GenomeId(0));
        let row: Vec<TileId> = (1..6).map(|x| tile(&grid, x, 5)).collect();
        for place in order {
            grid.replace_entity(row[place], Entity::Cell(PlantId(0), CellKind::Branch));
        }
        // Grown from the middle outwards so that every cell has a neighbor.
        for place in [2usize, 1, 3, 0, 4] {
            plant.occupy(row[place], &grid);
        }
        grid.replace_entity(row[2], Entity::Empty);
        let dead = sorted(plant.abandon(row[2], &grid));
        assert_eq!(dead, sorted(vec![row[3], row[4]]));
        assert_eq!(sorted(plant.cell_tiles()), sorted(vec![row[0], row[1]]));
    }
}

#[test]
fn abandon_of_a_three_way_tie_keeps_the_part_with_the_least_tile() {
    let mut grid = Grid::new(SquareGrid::new(9, 9));
    let mut plant = ActivePlant::new(PlantId(0), GenomeId(0));
    let center = tile(&grid, 4, 4);
    let arms = [tile(&grid, 4, 5), tile(&grid, 5, 4), tile(&grid, 4, 3), tile(&grid, 3, 4)];
    grow(&mut plant, &mut grid, center);
    for id in arms {
        grow(&mut plant, &mut grid, id);
    }
    grid.replace_entity(center, Entity::Empty);
    let dead = sorted(plant.abandon(center, &grid));
    assert_eq!(sorted(plant.cell_tiles()), vec![tile(&grid, 3, 4).0]);
    assert_eq!(dead, sorted(vec![arms[0], arms[1], arms[2]]));
}

#[test]
fn the_surface_follows_what_is_given_up() {
    let mut grid = Grid::new(SquareGrid::new(5, 5));
    let mut plant = ActivePlant::new(PlantId(0), GenomeId(0));
    for id in [12, 13] {
        grow(&mut plant, &mut grid, TileId(id));
    }
    grid.replace_entity(TileId(13), Entity::Empty);
    plant.abandon(TileId(13), &grid);
    assert_eq!(sorted(plant.available_tiles()), vec![7, 11, 13, 17]);
    assert_eq!(plant.energy_yield(&grid), 4);
}

#[test]
fn next_tile_ids_takes_what_the_budget_pays_for() {
    let mut grid = Grid::new(SquareGrid::new(5, 5));
    let mut plant = ActivePlant::new(PlantId(0), GenomeId(0));
    grow(&mut plant, &mut grid, TileId(12));
    let mut other = ActivePlant::new(PlantId(1), GenomeId(0));
    grow(&mut other, &mut grid, TileId(13));
    // The yield is 3 and the usage 1, so there are 3 points: 2 for the
    // tile of the other organism, 1 for the next empty tile, none for more.
    let ranked = [TileId(13), TileId(12), TileId(7), TileId(11), TileId(17)];
    assert_eq!(sorted(plant.next_tile_ids(&grid, &ranked)), vec![7, 13]);
    // An empty tile first leaves 2 points for the tile of the other organism.
    let ranked = [TileId(17), TileId(13), TileId(7)];
    assert_eq!(sorted(plant.next_tile_ids(&grid, &ranked)), vec![13, 17]);
    // With 1 point left the tile of the other organism is passed over.
    let ranked = [TileId(17), TileId(7), TileId(13), TileId(11)];
    let taken: Vec<usize> = plant.next_tile_ids(&grid, &ranked).iter().map(|t| t.0).collect();
    assert_eq!(taken, vec![17, 7, 11]);
    assert!(plant.next_tile_ids(&grid, &[]).is_empty());
}

#[test]
fn an_inactive_plant_keeps_its_genome() {
    let plant = InactivePlant::new(PlantId(3), GenomeId(8));
    assert_eq!(plant.genome_id(), GenomeId(8));
    assert_eq!(plant.id, PlantId(3));
}
