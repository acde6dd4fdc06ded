use plant_sim::active_genome::ActiveGenome;
use plant_sim::cell_kind::CellKind;
use plant_sim::doublet_fn::DoubletFn;
use plant_sim::entity::{Entity, GreedyEntity};
use plant_sim::genome::{Genome, GenomeKind};
use plant_sim::genomes::doublet_genome::{mutate_all, DoubletGenome};
use plant_sim::genomes::triplet_genome::TripletGenome;
use plant_sim::genomes::GenomeId;
use plant_sim::grid::Grid;
use plant_sim::inactive_genome::InactiveGenome;
use plant_sim::plants::PlantId;
use plant_sim::singlet_fn::SingletFn;
use plant_sim::square_grid::SquareGrid;
use plant_sim::tiles::TileId;
use plant_sim::triplet_fn::TripletFn;

const E: GreedyEntity = GreedyEntity::Empty;
const S: GreedyEntity = GreedyEntity::MyCell(CellKind::Branch);
const O: GreedyEntity = GreedyEntity::OtherCell(CellKind::Branch);

fn counting() -> impl FnMut() -> f32 {
    let mut next = 0.0;
    move || {
        next += 1.0;
        next
    }
}

fn singlet() -> SingletFn<f32> {
    SingletFn { singlet_e: 1.0, singlet_o: 2.0 }
}

fn doublet() -> DoubletFn<f32> {
    DoubletFn::from_slice(&[10.0, 20.0, 30.0, 40.0, 50.0, 60.0])
}

fn triplet(base: f32) -> TripletFn<f32> {
    let values: Vec<f32> = (0..18).map(|place| base + place as f32).collect();
    TripletFn::from_slice(&values)
}

fn cell(plant: usize) -> Entity {
    Entity::Cell(PlantId(plant), CellKind::Branch)
}

#[test]
fn singlet_potentials() {
    let table = singlet();
    assert_eq!(table.score(E), 1.0);
    assert_eq!(table.score(O), 2.0);
    assert_eq!(table.values(), vec![1.0, 2.0]);
}

#[test]
fn doublet_potentials() {
    let table = doublet();
    assert_eq!(table.score(E, E), 10.0);
    assert_eq!(table.score(E, S), 20.0);
    assert_eq!(table.score(E, O), 30.0);
    assert_eq!(table.score(O, E), 40.0);
    assert_eq!(table.score(O, S), 50.0);
    assert_eq!(table.score(O, O), 60.0);
    assert_eq!(table.doublet_es, 20.0);
    assert_eq!(table.doublet_oe, 40.0);
}

#[test]
fn triplet_potentials() {
    let table = triplet(100.0);
    let seen = [E, S, O];
    let mut place = 0.0;
    for i in [E, O] {
        for j in seen {
            for k in seen {
                assert_eq!(table.score(i, j, k), 100.0 + place);
                place += 1.0;
            }
        }
    }
    assert_eq!(table.triplet_eee, 100.0);
    assert_eq!(table.triplet_eso, 105.0);
    assert_eq!(table.triplet_oee, 109.0);
    assert_eq!(table.triplet_ooo, 117.0);
}

#[test]
fn tables_are_filled_in_the_order_of_their_potentials() {
    let table = SingletFn::from_fn(counting());
    assert_eq!(table.values(), vec![1.0, 2.0]);
    let table = DoubletFn::from_fn(counting());
    assert_eq!(table.values(), vec![1.0, 2.0, 3.0, 4.0, 5.0, 6.0]);
    assert_eq!(table.doublet_eo, 3.0);
    let table = TripletFn::from_fn(counting());
    let wanted: Vec<f32> = (1..19).map(|value| value as f32).collect();
    assert_eq!(table.values(), wanted);
    assert_eq!(table.triplet_ess, 5.0);
    assert_eq!(table.triplet_oos, 17.0);
}

#[test]
fn tables_are_changed_potential_by_potential() {
    let mut calls = 0.0;
    let changed = doublet().mutate(|value| {
        calls += 1.0;
        value + calls
    });
    assert_eq!(changed.values(), vec![11.0, 22.0, 33.0, 44.0, 55.0, 66.0]);
    let changed = singlet().mutate(|value| value * 3.0);
    assert_eq!(changed.values(), vec![3.0, 6.0]);
    let changed = triplet(0.0).mutate(|value| value + 0.5);
    assert_eq!(changed.triplet_eee, 0.5);
    assert_eq!(changed.triplet_ooo, 17.5);
}

#[test]
fn all_values_are_changed_in_their_order() {
    let mut seen: Vec<u32> = Vec::new();
    let changed = mutate_all(&vec![3u32, 1, 2], |value| {
        seen.push(value);
        value * 10
    });
    assert_eq!(changed, vec![30, 10, 20]);
    assert_eq!(seen, vec![3, 1, 2]);
}

#[test]
fn a_doublet_genome_rates_a_tile_with_its_neighbors() {
    let mut grid = Grid::new(SquareGrid::new(5, 5));
    let genome = DoubletGenome::new(2.5, singlet(), doublet());
    assert_eq!(genome.score_weight(), 2.5);
    grid.replace_entity(TileId(13), cell(0));
    grid.replace_entity(TileId(11), cell(1));
    // Up stands a cell of the organism itself, down one of another.
    let terms = genome.score(PlantId(0), TileId(12), 1, &grid);
    assert_eq!(terms, Some(vec![1.0, 20.0, 10.0, 30.0, 10.0]));
    let terms = genome.score(PlantId(1), TileId(12), 1, &grid);
    assert_eq!(terms, Some(vec![1.0, 30.0, 10.0, 20.0, 10.0]));
    let terms = genome.score(PlantId(2), TileId(12), 0, &grid);
    assert_eq!(terms, Some(vec![1.0, 30.0, 10.0, 30.0, 10.0]));
}

#[test]
fn a_tile_of_another_organism_needs_two_points() {
    let mut grid = Grid::new(SquareGrid::new(5, 5));
    let genome = DoubletGenome::new(1.0, singlet(), doublet());
    grid.replace_entity(TileId(12), cell(1));
    grid.replace_entity(TileId(13), cell(0));
    assert_eq!(genome.score(PlantId(0), TileId(12), 0, &grid), None);
    assert_eq!(genome.score(PlantId(0), TileId(12), 1, &grid), None);
    assert_eq!(
        genome.score(PlantId(0), TileId(12), 2, &grid),
        Some(vec![2.0, 50.0, 40.0, 40.0, 40.0])
    );
    assert_eq!(
        genome.score(PlantId(0), TileId(12), 7, &grid),
        Some(vec![2.0, 50.0, 40.0, 40.0, 40.0])
    );
}

#[test]
fn the_own_tile_has_no_score() {
    let mut grid = Grid::new(SquareGrid::new(5, 5));
    let doublets = DoubletGenome::new(1.0, singlet(), doublet());
    let triplets = TripletGenome::new(1.0, singlet(), doublet(), triplet(100.0), triplet(200.0));
    grid.replace_entity(TileId(12), cell(0));
    for points in [0, 1, 2, 100] {
        assert_eq!(doublets.score(PlantId(0), TileId(12), points, &grid), None);
        assert_eq!(triplets.score(PlantId(0), &grid, TileId(12), points), None);
    }
}

#[test]
fn a_triplet_genome_rates_a_tile_with_its_triplets() {
    let mut grid = Grid::new(SquareGrid::new(5, 5));
    let genome = TripletGenome::new(1.0, singlet(), doublet(), triplet(100.0), triplet(200.0));
    grid.replace_entity(TileId(13), cell(0));
    grid.replace_entity(TileId(18), cell(1));
    grid.replace_entity(TileId(14), cell(1));
    let terms = genome.score(PlantId(0), &grid, TileId(12), 1).unwrap();
    assert_eq!(terms.len(), 17);
    assert_eq!(terms[0], 1.0);
    assert_eq!(terms[1..5].to_vec(), vec![20.0, 10.0, 10.0, 10.0]);
    // The bent triplets: up then right, up then left, right then down,
    // right then up, and four more without any cell.
    assert_eq!(
        terms[5..13].to_vec(),
        vec![105.0, 103.0, 100.0, 102.0, 100.0, 100.0, 100.0, 100.0]
    );
    // The straight triplets: up and up again, and three without any cell.
    assert_eq!(terms[13..17].to_vec(), vec![205.0, 200.0, 200.0, 200.0]);
}

#[test]
fn a_triplet_genome_rates_a_tile_of_another_organism() {
    let mut grid = Grid::new(SquareGrid::new(5, 5));
    let genome = TripletGenome::new(1.0, singlet(), doublet(), triplet(100.0), triplet(200.0));
    grid.replace_entity(TileId(12), cell(1));
    assert_eq!(genome.score(PlantId(0), &grid, TileId(12), 1), None);
    let terms = genome.score(PlantId(0), &grid, TileId(12), 2).unwrap();
    let mut wanted = vec![2.0, 40.0, 40.0, 40.0, 40.0];
    wanted.extend(vec![109.0; 8]);
    wanted.extend(vec![209.0; 4]);
    assert_eq!(terms, wanted);
}

#[test]
fn genome_kinds_answer_like_their_genomes() {
    let mut grid = Grid::new(SquareGrid::new(5, 5));
    grid.replace_entity(TileId(13), cell(0));
    let doublets = DoubletGenome::new(3.0, singlet(), doublet());
    let triplets = TripletGenome::new(4.0, singlet(), doublet(), triplet(100.0), triplet(200.0));
    let kind = GenomeKind::from(doublets);
    assert_eq!(kind.score_weight(), 3.0);
    assert_eq!(kind.values().len(), 8);
    assert_eq!(
        kind.score(PlantId(0), TileId(12), 1, &grid),
        doublets.score(PlantId(0), TileId(12), 1, &grid)
    );
    let kind = GenomeKind::from(triplets);
    assert_eq!(kind.score_weight(), 4.0);
    assert_eq!(kind.values().len(), 44);
    assert_eq!(
        kind.score(PlantId(0), TileId(12), 1, &grid),
        triplets.score(PlantId(0), &grid, TileId(12), 1)
    );
}

#[test]
fn a_genome_is_changed_table_by_table() {
    let genome = TripletGenome::new(1.0, singlet(), doublet(), triplet(100.0), triplet(200.0));
    let mut calls = 0.0;
    let changed = genome.mutate(9.0, |value| {
        calls += 1.0;
        value + calls / 100.0
    });
    assert_eq!(changed.score_weight(), 9.0);
    assert_eq!(changed.singlet_fn().values(), vec![1.01, 2.02]);
    assert_eq!(changed.doublet_fn().doublet_ee, 10.03);
    assert_eq!(changed.doublet_fn().doublet_oo, 60.08);
    assert_eq!(changed.triplet_l_fn().triplet_eee, 100.09);
    assert_eq!(changed.triplet_l_fn().triplet_ooo, 117.26);
    assert_eq!(changed.triplet_i_fn().triplet_eee, 200.27);
    assert_eq!(changed.triplet_i_fn().triplet_ooo, 217.44);
    let kind = GenomeKind::from(DoubletGenome::new(1.0, singlet(), doublet()));
    let changed = kind.mutate(0.5, |value| value * 2.0);
    assert_eq!(changed.score_weight(), 0.5);
    assert_eq!(changed.values(), vec![2.0, 4.0, 20.0, 40.0, 60.0, 80.0, 100.0, 120.0]);
    assert!(matches!(changed, GenomeKind::DoubletGenome(_)));
}

#[test]
fn a_score_stays_while_the_counter_of_the_tile_stays() {
    let mut grid = Grid::new(SquareGrid::new(7, 7));
    let genome = GenomeKind::from(TripletGenome::new(
        1.0,
        singlet(),
        doublet(),
        triplet(100.0),
        triplet(200.0),
    ));
    grid.replace_entity(TileId(25), cell(0));
    let scored = TileId(24);
    let nonce = grid.nonce(scored);
    let first = genome.score(PlantId(0), scored, 1, &grid);
    let again = genome.score(PlantId(0), scored, 1, &grid);
    assert_eq!(first, again);
    // Three steps away: no tile that the score reads.
    grid.replace_entity(TileId(27), cell(1));
    grid.replace_entity(TileId(3), cell(1));
    assert_eq!(grid.nonce(scored), nonce);
    assert_eq!(genome.score(PlantId(0), scored, 1, &grid), first);
    // Putting what already stands there is no change.
    grid.replace_entity(TileId(25), cell(0));
    assert_eq!(grid.nonce(scored), nonce);
    assert_eq!(genome.score(PlantId(0), scored, 1, &grid), first);
}

#[test]
fn a_change_in_the_blob_raises_the_counter() {
    let square = SquareGrid::new(7, 7);
    let scored = TileId(24);
    let blob = plant_sim::blob::Blob::from(scored, &square);
    let genome = GenomeKind::from(TripletGenome::new(
        1.0,
        singlet(),
        doublet(),
        triplet(100.0),
        triplet(200.0),
    ));
    for &member in blob.tile_ids().iter() {
        let mut grid = Grid::new(SquareGrid::new(7, 7));
        let nonce = grid.nonce(scored);
        let before = genome.score(PlantId(0), scored, 1, &grid);
        grid.replace_entity(member, cell(1));
        assert!(grid.nonce(scored) > nonce, "member {}", member.0);
        let after = genome.score(PlantId(0), scored, 1, &grid);
        assert_ne!(before, after, "member {}", member.0);
    }
    let mut grid = Grid::new(SquareGrid::new(7, 7));
    let nonce = grid.nonce(scored);
    grid.replace_entity(scored, cell(1));
    assert!(grid.nonce(scored) > nonce);
}

#[test]
fn an_active_genome_counts_its_carriers() {
    let kind = GenomeKind::from(DoubletGenome::new(1.0, singlet(), doublet()));
    let mut genome = ActiveGenome::new(GenomeId(3), kind, Some(GenomeId(1)), 12);
    assert_eq!(genome.id, GenomeId(3));
    assert_eq!(genome.num_plants, 0);
    assert_eq!(genome.max_yield(), 0);
    assert_eq!(genome.created_at(), 12);
    assert_eq!(genome.parent_genome_id(), Some(GenomeId(1)));
    assert_eq!(genome.increment(), 1);
    assert_eq!(genome.increment(), 2);
    assert_eq!(genome.decrement(), 1);
    assert_eq!(genome.num_plants, 1);
    assert_eq!(genome.genome().values().len(), 8);
}

#[test]
fn an_active_genome_keeps_its_largest_yield() {
    let kind = GenomeKind::from(DoubletGenome::new(1.0, singlet(), doublet()));
    let mut genome = ActiveGenome::new(GenomeId(0), kind, None, 0);
    genome.set_max_yield(5);
    assert_eq!(genome.max_yield(), 5);
    genome.set_max_yield(3);
    assert_eq!(genome.max_yield(), 5);
    genome.set_max_yield(5);
    assert_eq!(genome.max_yield(), 5);
    genome.set_max_yield(8);
    assert_eq!(genome.max_yield(), 8);
}

#[test]
fn an_active_genome_scores_what_may_be_taken() {
    let mut grid = Grid::new(SquareGrid::new(5, 5));
    let kind = GenomeKind::from(DoubletGenome::new(1.0, singlet(), doublet()));
    let genome = ActiveGenome::new(GenomeId(0), kind, None, 0);
    grid.replace_entity(TileId(12), cell(0));
    grid.replace_entity(TileId(13), cell(1));
    let around = [TileId(13), TileId(17), TileId(12), TileId(11)];
    let scores = genome.candidates(&grid, &around, PlantId(0), 1);
    let tiles: Vec<usize> = scores.iter().map(|(tile, _)| tile.0).collect();
    assert_eq!(tiles, vec![17, 11]);
    assert_eq!(scores[0].1, vec![1.0, 10.0, 10.0, 10.0, 20.0]);
    let scores = genome.candidates(&grid, &around, PlantId(0), 2);
    let tiles: Vec<usize> = scores.iter().map(|(tile, _)| tile.0).collect();
    assert_eq!(tiles, vec![13, 17, 11]);
    assert_eq!(scores[0].1, vec![2.0, 40.0, 40.0, 50.0, 40.0]);
    assert!(genome.candidates(&grid, &around, PlantId(0), 0).is_empty());
    assert_eq!(
        genome.score(PlantId(0), &grid, TileId(17), 1),
        Some(vec![1.0, 10.0, 10.0, 10.0, 20.0])
    );
    let changed = genome.mutate(2.0, |value| value + 1.0);
    assert_eq!(changed.score_weight(), 2.0);
    assert_eq!(changed.values(), vec![2.0, 3.0, 11.0, 21.0, 31.0, 41.0, 51.0, 61.0]);
}

#[test]
fn an_inactive_genome_keeps_its_record() {
    let kind = GenomeKind::from(DoubletGenome::new(1.0, singlet(), doublet()));
    let record = InactiveGenome::new(GenomeId(2), kind, 9, 3, 7, Some(GenomeId(0)));
    assert_eq!(record.max_yield(), 9);
    assert_eq!(record.created_at, 3);
    assert_eq!(record.died_at, 7);
    assert_eq!(record.parent_genome_id, Some(GenomeId(0)));
    assert_eq!(record.genome().score_weight(), 1.0);
}

fn weight_of(genome: &impl Genome<f32>) -> f32 {
    genome.score_weight()
}

fn terms_of(genome: &impl Genome<f32>, grid: &Grid) -> Option<Vec<f32>> {
    genome.score(PlantId(0), TileId(12), 1, grid)
}

#[test]
fn every_genome_answers_as_a_genome() {
    let mut grid = Grid::new(SquareGrid::new(5, 5));
    grid.replace_entity(TileId(13), cell(0));
    let doublets = DoubletGenome::new(3.0, singlet(), doublet());
    let triplets = TripletGenome::new(4.0, singlet(), doublet(), triplet(100.0), triplet(200.0));
    assert_eq!(weight_of(&doublets), 3.0);
    assert_eq!(weight_of(&triplets), 4.0);
    assert_eq!(weight_of(&GenomeKind::from(triplets)), 4.0);
    assert_eq!(terms_of(&doublets, &grid), Some(vec![1.0, 20.0, 10.0, 10.0, 10.0]));
    assert_eq!(terms_of(&triplets, &grid), triplets.score(PlantId(0), &grid, TileId(12), 1));
    assert_eq!(terms_of(&GenomeKind::from(doublets), &grid), terms_of(&doublets, &grid));
    let changed = Genome::mutate(&triplets, 1.5, |value: f32| value + 1.0);
    assert!(matches!(changed, GenomeKind::TripletGenome(_)));
    assert_eq!(changed.score_weight(), 1.5);
    assert_eq!(changed.values()[0], 2.0);
    assert_eq!(changed.values()[43], 218.0);
    let changed = Genome::mutate(&doublets, 2.5, |value: f32| value * 2.0);
    assert!(matches!(changed, GenomeKind::DoubletGenome(_)));
    assert_eq!(changed.values(), vec![2.0, 4.0, 20.0, 40.0, 60.0, 80.0, 100.0, 120.0]);
}
