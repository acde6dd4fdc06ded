use plant_sim::blob::Blob;
use plant_sim::cell_kind::CellKind;
use plant_sim::doublet::Doublet;
use plant_sim::either::Either;
use plant_sim::entity::{Entity, GreedyEntity};
use plant_sim::grid::Grid;
use plant_sim::neighbors::Neighbors;
use plant_sim::owner::Owner;
use plant_sim::plants::PlantId;
use plant_sim::position::Position;
use plant_sim::square_grid::SquareGrid;
use plant_sim::step::Step;
use plant_sim::tile_id_builder::TileIdBuilder;
use plant_sim::tiles::{TileId, Tiles};
use plant_sim::triplet_i::TripletI;
use plant_sim::triplet_l::TripletL;

fn ids(tiles: &[TileId]) -> Vec<usize> {
    tiles.iter().map(|tile| tile.0).collect()
}

#[test]
fn square_grid_neighbors_wrap_around() {
    let grid = SquareGrid::new(3, 3);
    assert_eq!(grid.size(), 9);
    let center = grid.id_at(Position::new(1, 1));
    assert_eq!(center, TileId(4));
    let around = grid.neighbors(center);
    assert_eq!(around.up(), TileId(5));
    assert_eq!(around.right(), TileId(7));
    assert_eq!(around.down(), TileId(3));
    assert_eq!(around.left(), TileId(1));
    let corner = grid.neighbors(TileId(0));
    assert_eq!(corner.up(), TileId(1));
    assert_eq!(corner.right(), TileId(3));
    assert_eq!(corner.down(), TileId(2));
    assert_eq!(corner.left(), TileId(6));
}

#[test]
fn square_grid_counts_its_tiles_in_order() {
    let grid = SquareGrid::new(2, 3);
    assert_eq!(grid.x_size(), 2);
    assert_eq!(grid.y_size(), 3);
    assert_eq!(grid.size(), 6);
    assert_eq!(ids(&grid.tile_id_iter()), vec![0, 1, 2, 3, 4, 5]);
    assert_eq!(grid.id_at(Position::new(1, 2)), TileId(5));
}

#[test]
fn square_grid_without_tiles() {
    let grid = SquareGrid::new(0, 5);
    assert_eq!(grid.size(), 0);
    assert!(grid.tile_id_iter().is_empty());
}

#[test]
fn square_grid_of_one_tile_is_its_own_neighbor() {
    let grid = SquareGrid::new(1, 1);
    let around = grid.neighbors(TileId(0));
    assert_eq!(around.up(), TileId(0));
    assert_eq!(around.right(), TileId(0));
    assert_eq!(around.down(), TileId(0));
    assert_eq!(around.left(), TileId(0));
}

#[test]
fn id_from_follows_a_walk() {
    let grid = SquareGrid::new(4, 4);
    let start = grid.id_at(Position::new(0, 0));
    assert_eq!(grid.id_from(start, &[]), start);
    assert_eq!(grid.id_from(start, &[Step::Up]), TileId(1));
    assert_eq!(grid.id_from(start, &[Step::Down]), TileId(3));
    assert_eq!(grid.id_from(start, &[Step::Left]), TileId(12));
    assert_eq!(grid.id_from(start, &[Step::Right, Step::Right, Step::Up]), TileId(9));
    assert_eq!(grid.id_from(start, &[Step::Up, Step::Down]), start);
    assert_eq!(grid.id_after(start, Step::Right), TileId(4));
    assert_eq!(grid.id_after_two(start, Step::Left, Step::Down), TileId(15));
}

#[test]
fn a_step_and_the_step_back_return() {
    let grid = SquareGrid::new(3, 5);
    for tile in grid.tile_id_iter() {
        assert_eq!(grid.id_from(tile, &[Step::Up, Step::Down]), tile);
        assert_eq!(grid.id_from(tile, &[Step::Left, Step::Right]), tile);
        assert_eq!(
            grid.id_from(tile, &[Step::Up, Step::Right]),
            grid.id_from(tile, &[Step::Right, Step::Up])
        );
    }
}

#[test]
fn tile_id_builder_walks_on_the_torus() {
    let start = Position::new(0, 0);
    assert_eq!(TileIdBuilder::new(start, 4, 4).build(), TileId(0));
    assert_eq!(TileIdBuilder::new(start, 4, 4).up(1).build(), TileId(1));
    assert_eq!(TileIdBuilder::new(start, 4, 4).down(1).build(), TileId(3));
    assert_eq!(TileIdBuilder::new(start, 4, 4).left(1).build(), TileId(12));
    assert_eq!(TileIdBuilder::new(start, 4, 4).right(2).up(1).build(), TileId(9));
    assert_eq!(TileIdBuilder::new(start, 4, 4).right(4).build(), TileId(0));
    assert_eq!(TileIdBuilder::new(Position::new(2, 3), 4, 4).up(1).right(2).build(), TileId(0));
}

#[test]
fn tile_id_builder_agrees_with_the_grid() {
    let grid = SquareGrid::new(3, 4);
    for x in 0..3 {
        for y in 0..4 {
            let position = Position::new(x, y);
            let tile = grid.id_at(position);
            let built = TileIdBuilder::new(position, 3, 4).left(2).down(3).build();
            let walked = grid.id_from(
                tile,
                &[Step::Left, Step::Left, Step::Down, Step::Down, Step::Down],
            );
            assert_eq!(built, walked);
        }
    }
}

#[test]
fn tile_id_builder_clone_keeps_the_walk() {
    let builder = TileIdBuilder::new(Position::new(1, 1), 3, 3).up(1);
    let copy = builder.clone();
    assert_eq!(copy.right(1).build(), TileId(8));
    assert_eq!(builder.build(), TileId(5));
}

#[test]
fn neighbors_are_built_left_right_up_down() {
    let neighbors = Neighbors::build(TileIdBuilder::new(Position::new(1, 1), 3, 3));
    assert_eq!(ids(&neighbors.0), vec![1, 7, 5, 3]);
}

#[test]
fn neighbors_as_a_set() {
    let neighbors = Neighbors::build(TileIdBuilder::new(Position::new(1, 1), 3, 3));
    let mut tiles: Vec<usize> = neighbors.as_set().into_iter().collect();
    tiles.sort();
    assert_eq!(tiles, vec![1, 3, 5, 7]);
    let narrow = Neighbors::build(TileIdBuilder::new(Position::new(0, 0), 2, 3));
    let mut tiles: Vec<usize> = narrow.as_set().into_iter().collect();
    tiles.sort();
    assert_eq!(tiles, vec![1, 2, 3]);
}

#[test]
fn doublets_of_a_tile() {
    let grid = SquareGrid::new(5, 5);
    let doublets = Doublet::from(TileId(12), &grid);
    let tiles: Vec<usize> = doublets.iter().map(|doublet| doublet.j().0).collect();
    assert_eq!(tiles, vec![13, 17, 11, 7]);
}

#[test]
fn straight_triplets_of_a_tile() {
    let grid = SquareGrid::new(5, 5);
    let triplets = TripletI::from(TileId(12), &grid);
    let tiles: Vec<(usize, usize)> =
        triplets.iter().map(|triplet| (triplet.j().0, triplet.k().0)).collect();
    assert_eq!(tiles, vec![(13, 14), (17, 22), (11, 10), (7, 2)]);
}

#[test]
fn bent_triplets_of_a_tile() {
    let grid = SquareGrid::new(5, 5);
    let triplets = TripletL::from(TileId(12), &grid);
    let tiles: Vec<(usize, usize)> =
        triplets.iter().map(|triplet| (triplet.j().0, triplet.k().0)).collect();
    assert_eq!(
        tiles,
        vec![(13, 18), (13, 8), (17, 16), (17, 18), (11, 6), (11, 16), (7, 8), (7, 6)]
    );
}

#[test]
fn blob_of_a_tile() {
    let grid = SquareGrid::new(5, 5);
    let blob = Blob::from(TileId(12), &grid);
    assert_eq!(ids(blob.tile_ids()), vec![13, 17, 11, 7, 18, 16, 6, 8, 14, 22, 10, 2]);
}

#[test]
fn blob_wraps_around() {
    let grid = SquareGrid::new(4, 4);
    let blob = Blob::from(TileId(0), &grid);
    assert_eq!(ids(blob.tile_ids()), vec![1, 4, 3, 12, 5, 7, 15, 13, 2, 8, 2, 8]);
}

#[test]
fn a_new_grid_is_empty() {
    let grid = Grid::new(SquareGrid::new(3, 2));
    assert_eq!(grid.x_size(), 3);
    assert_eq!(grid.y_size(), 2);
    assert_eq!(grid.size(), 6);
    for tile in 0..6 {
        assert_eq!(grid.entity(TileId(tile)), Entity::Empty);
        assert!(grid.is_empty(TileId(tile)));
        assert_eq!(grid.nonce(TileId(tile)), 0);
    }
    assert_eq!(ids(&grid.empty_tiles()), vec![0, 1, 2, 3, 4, 5]);
    assert_eq!(grid.id_at(Position::new(2, 1)), TileId(5));
    assert_eq!(grid.neighbors(TileId(0)).right(), TileId(2));
}

#[test]
fn grid_keeps_the_relations_of_every_tile() {
    let square = SquareGrid::new(4, 5);
    let grid = Grid::new(SquareGrid::new(4, 5));
    for tile in square.tile_id_iter() {
        let doublets: Vec<usize> = grid.doublets(tile).iter().map(|d| d.j().0).collect();
        let wanted: Vec<usize> = Doublet::from(tile, &square).iter().map(|d| d.j().0).collect();
        assert_eq!(doublets, wanted);
        let bent: Vec<(usize, usize)> =
            grid.triplets_l(tile).iter().map(|t| (t.j().0, t.k().0)).collect();
        let wanted: Vec<(usize, usize)> =
            TripletL::from(tile, &square).iter().map(|t| (t.j().0, t.k().0)).collect();
        assert_eq!(bent, wanted);
        let straight: Vec<(usize, usize)> =
            grid.triplets_i(tile).iter().map(|t| (t.j().0, t.k().0)).collect();
        let wanted: Vec<(usize, usize)> =
            TripletI::from(tile, &square).iter().map(|t| (t.j().0, t.k().0)).collect();
        assert_eq!(straight, wanted);
    }
}

#[test]
fn replace_entity_raises_the_counters_of_the_tile_and_its_blob() {
    let mut grid = Grid::new(SquareGrid::new(5, 5));
    let cell = Entity::Cell(PlantId(0), CellKind::Branch);
    let old = grid.replace_entity(TileId(12), cell);
    assert_eq!(old, Entity::Empty);
    assert_eq!(grid.entity(TileId(12)), cell);
    let touched = [12, 13, 17, 11, 7, 18, 16, 6, 8, 14, 22, 10, 2];
    for tile in 0..25 {
        let wanted = if touched.contains(&tile) { 1 } else { 0 };
        assert_eq!(grid.nonce(TileId(tile)), wanted, "tile {}", tile);
    }
}

#[test]
fn replace_entity_with_the_same_entity_changes_nothing() {
    let mut grid = Grid::new(SquareGrid::new(5, 5));
    let cell = Entity::Cell(PlantId(3), CellKind::Branch);
    grid.replace_entity(TileId(0), cell);
    let before: Vec<usize> = (0..25).map(|tile| grid.nonce(TileId(tile))).collect();
    let old = grid.replace_entity(TileId(0), cell);
    assert_eq!(old, cell);
    let after: Vec<usize> = (0..25).map(|tile| grid.nonce(TileId(tile))).collect();
    assert_eq!(before, after);
    let old = grid.replace_entity(TileId(24), Entity::Empty);
    assert_eq!(old, Entity::Empty);
    let after: Vec<usize> = (0..25).map(|tile| grid.nonce(TileId(tile))).collect();
    assert_eq!(before, after);
}

#[test]
fn replace_entity_on_a_small_torus_counts_every_way_to_a_tile() {
    let mut grid = Grid::new(SquareGrid::new(2, 2));
    grid.replace_entity(TileId(0), Entity::Cell(PlantId(0), CellKind::Branch));
    assert_eq!(grid.nonce(TileId(0)), 5);
    assert_eq!(grid.nonce(TileId(1)), 2);
    assert_eq!(grid.nonce(TileId(2)), 2);
    assert_eq!(grid.nonce(TileId(3)), 4);
}

#[test]
fn empty_tiles_are_listed_in_order() {
    let mut grid = Grid::new(SquareGrid::new(2, 3));
    grid.replace_entity(TileId(1), Entity::Cell(PlantId(0), CellKind::Branch));
    grid.replace_entity(TileId(4), Entity::Cell(PlantId(1), CellKind::Branch));
    assert_eq!(ids(&grid.empty_tiles()), vec![0, 2, 3, 5]);
    assert!(!grid.is_empty(TileId(1)));
    assert!(grid.is_empty(TileId(0)));
}

#[test]
fn columns_cut_the_field_by_x() {
    let mut grid = Grid::new(SquareGrid::new(2, 3));
    let cell = Entity::Cell(PlantId(7), CellKind::Branch);
    grid.replace_entity(TileId(4), cell);
    let columns = grid.columns();
    assert_eq!(columns.len(), 2);
    assert_eq!(columns[0].to_vec(), vec![Entity::Empty, Entity::Empty, Entity::Empty]);
    assert_eq!(columns[1].to_vec(), vec![Entity::Empty, cell, Entity::Empty]);
}

#[test]
fn a_fresh_grid_has_room_for_changes() {
    let grid = Grid::new(SquareGrid::new(3, 3));
    assert!(grid.has_room(0));
    assert!(grid.has_room(1_000_000));
    assert!(grid.has_room(usize::MAX / 13));
    assert!(!grid.has_room(usize::MAX / 13 + 1));
    assert!(!grid.has_room(usize::MAX));
}

#[test]
fn a_grid_without_tiles_always_has_room() {
    let grid = Grid::new(SquareGrid::new(0, 0));
    assert!(grid.has_room(usize::MAX));
}

#[test]
fn room_shrinks_with_every_change() {
    let mut grid = Grid::new(SquareGrid::new(2, 2));
    grid.replace_entity(TileId(0), Entity::Cell(PlantId(0), CellKind::Branch));
    assert!(grid.has_room((usize::MAX - 5) / 13));
    assert!(!grid.has_room((usize::MAX - 5) / 13 + 1));
}

#[test]
fn tiles_are_cut_into_chunks() {
    let mut tiles: Tiles<u32> = Tiles::default();
    for value in 0..7 {
        tiles.push(value);
    }
    assert_eq!(tiles.len(), 7);
    assert_eq!(*tiles.get(TileId(3)), 3);
    tiles.set(TileId(3), 30);
    assert_eq!(*tiles.get(TileId(3)), 30);
    let chunks = tiles.chunks(3);
    assert_eq!(chunks.len(), 3);
    assert_eq!(chunks[0].to_vec(), vec![0, 1, 2]);
    assert_eq!(chunks[1].to_vec(), vec![30, 4, 5]);
    assert_eq!(chunks[2].to_vec(), vec![6]);
    assert_eq!(tiles.chunks(7).len(), 1);
    assert_eq!(tiles.chunks(8)[0].len(), 7);
    assert_eq!(tiles.chunks(1).len(), 7);
    let none: Tiles<u32> = Tiles::default();
    assert!(none.chunks(4).is_empty());
}

#[test]
fn handles_convert_to_and_from_numbers() {
    assert_eq!(TileId::from(5), TileId(5));
    assert_eq!(usize::from(TileId(5)), 5);
    assert_eq!(PlantId::from(2), PlantId(2));
    assert_eq!(usize::from(PlantId(2)), 2);
    assert_eq!(PlantId::default(), PlantId(0));
    assert!(TileId(1) < TileId(2));
}

#[test]
fn an_entity_as_an_organism_sees_it() {
    let mine = Entity::Cell(PlantId(1), CellKind::Branch);
    assert_eq!(Entity::Empty.into_greedy(PlantId(1)), GreedyEntity::Empty);
    assert_eq!(mine.into_greedy(PlantId(1)), GreedyEntity::MyCell(CellKind::Branch));
    assert_eq!(mine.into_greedy(PlantId(2)), GreedyEntity::OtherCell(CellKind::Branch));
    assert!(Entity::Empty.is_empty());
    assert!(mine.is_cell());
    assert_eq!(mine.unwrap_cell(), (PlantId(1), CellKind::Branch));
    assert_eq!(mine.owner(), Owner::Cell(PlantId(1)));
    assert_eq!(Entity::Empty.owner(), Owner::Empty);
    assert!(Owner::Empty.is_empty());
    assert!(Owner::Cell(PlantId(0)).is_cell());
    assert!(GreedyEntity::Empty.is_empty());
    assert!(GreedyEntity::MyCell(CellKind::Branch).is_my_cell());
    assert!(GreedyEntity::OtherCell(CellKind::Branch).is_other_cell());
}

#[test]
fn a_branch_costs_and_yields_one() {
    let kind = CellKind::Branch;
    assert_eq!(kind.cost_to_grow(), 1);
    assert_eq!(kind.cost_to_kill(), 1);
    assert_eq!(kind.cost_per_turn(), 1);
    assert_eq!(kind.yield_per_empty_tile(), 1);
}

#[test]
fn either_lends_what_it_holds() {
    let mut record: Either<u32, &str> = Either::Living(4);
    assert!(record.is_living());
    assert!(!record.is_dead());
    assert_eq!(*record.as_ref().unwrap_living(), 4);
    *record.as_mut().unwrap_living() = 9;
    assert_eq!(record.unwrap_living(), 9);
    let mut gone: Either<u32, &str> = Either::Dead("gone");
    assert!(gone.is_dead());
    assert_eq!(*gone.as_ref().unwrap_dead(), "gone");
    *gone.as_mut().unwrap_dead() = "archived";
    assert_eq!(gone.unwrap_dead(), "archived");
}
