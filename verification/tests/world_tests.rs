use plant_sim::cell_kind::CellKind;
use plant_sim::doublet_fn::DoubletFn;
use plant_sim::either::Either;
use plant_sim::entity::Entity;
use plant_sim::genome::GenomeKind;
use plant_sim::genomes::doublet_genome::DoubletGenome;
use plant_sim::genomes::triplet_genome::TripletGenome;
use plant_sim::genomes::GenomeId;
use plant_sim::grid::Grid;
use plant_sim::organisms::Organisms;
use plant_sim::plants::PlantId;
use plant_sim::position::Position;
use plant_sim::rng::Rng;
use plant_sim::singlet_fn::SingletFn;
use plant_sim::square_grid::SquareGrid;
use plant_sim::tiles::TileId;
use plant_sim::trial_result::TrialResult;
use plant_sim::triplet_fn::TripletFn;
use plant_sim::world::{snapshot_due, Seed, Turn, World};
use plant_sim::world_builder::{genome_family, BuildError, Family, WorldBuilder};

fn sorted(tiles: Vec<TileId>) -> Vec<usize> {
    let mut ids: Vec<usize> = tiles.iter().map(|tile| tile.0).collect();
    ids.sort();
    ids
}

/// A genome that likes empty tiles better than tiles of others.
fn settler() -> GenomeKind<f32> {
    GenomeKind::from(DoubletGenome::new(
        1.0,
        SingletFn { singlet_e: 1.0, singlet_o: 0.0 },
        DoubletFn::from_slice(&[0.5, 0.25, 0.0, 0.0, 0.0, 0.0]),
    ))
}

/// A genome that likes tiles of others better than empty tiles.
fn raider() -> GenomeKind<f32> {
    GenomeKind::from(DoubletGenome::new(
        1.0,
        SingletFn { singlet_e: 0.0, singlet_o: 1.0 },
        DoubletFn::from_slice(&[0.0, 0.0, 0.0, 0.5, 0.5, 0.5]),
    ))
}

fn world_of(x_size: usize, y_size: usize, plants: &[(GenomeKind<f32>, usize, usize)]) -> World<f32> {
    let mut builder: WorldBuilder<f32> = WorldBuilder::new(x_size, y_size);
    builder.take_top(3).seed_rate(0.0).mutation_rate(0.0);
    for &(genome, x, y) in plants {
        assert_eq!(builder.add_plant(genome, Position::new(x, y)), Ok(()));
    }
    builder.build()
}

fn cells(world: &World<f32>, plant: usize) -> Vec<usize> {
    sorted(world.registry().plant(PlantId(plant)).cell_tiles())
}

fn owners(world: &World<f32>) -> Vec<usize> {
    world.tile_snapshot().into_iter().flatten().collect()
}

/// The tile with the largest score; of several, one drawn with `rng`.
fn pick(world: &World<f32>, plant_id: PlantId, points: usize, rng: &mut Rng) -> Option<TileId> {
    let scores: Vec<(TileId, f32)> = world
        .candidates(plant_id, points)
        .into_iter()
        .map(|(tile, terms)| (tile, terms.iter().sum()))
        .collect();
    let best = scores.iter().map(|pair| pair.1).fold(f32::NEG_INFINITY, f32::max);
    let mut ties: Vec<TileId> =
        scores.iter().filter(|pair| pair.1 == best).map(|pair| pair.0).collect();
    ties.sort();
    if ties.is_empty() {
        None
    } else {
        Some(ties[rng.uniform(ties.len())])
    }
}

fn grow(world: &mut World<f32>, plant_id: PlantId, rng: &mut Rng) {
    let mut points = world.energy_points(plant_id);
    while points > 0 {
        match pick(world, plant_id, points, rng) {
            Some(tile) => points = world.claim(plant_id, tile, points),
            None => break,
        }
    }
}

/// One round: every living organism grows if it has points, or else dies
/// and is sown again on each of its tiles with the chance `seed_in_ten` of 10.
fn round(world: &mut World<f32>, round: usize, rng: &mut Rng, seed_in_ten: usize) {
    for plant_id in world.round_order() {
        if !world.registry().plant_record(plant_id).is_living() {
            continue;
        }
        if world.energy_points(plant_id) > 0 {
            grow(world, plant_id, rng);
        } else {
            let sowing: Vec<(TileId, Seed<f32>)> = world
                .registry()
                .plant(plant_id)
                .cell_tiles()
                .into_iter()
                .map(|tile| {
                    if rng.uniform(10) < seed_in_ten {
                        (tile, Seed::Scion)
                    } else {
                        (tile, Seed::Barren)
                    }
                })
                .collect();
            world.remove_plant(plant_id, round, sowing);
        }
    }
}

/// The field and the organisms agree on who holds which tile.
fn check_ownership(world: &World<f32>, size: usize) {
    let shown = owners(world);
    assert_eq!(shown.len(), size);
    let mut held = vec![0usize; size];
    let mut total = 0;
    for &plant_id in world.registry().active_plants().iter() {
        for tile in world.registry().plant(plant_id).cell_tiles() {
            assert_eq!(held[tile.0], 0, "tile {} has two owners", tile.0);
            held[tile.0] = plant_id.0 + 1;
            total += 1;
        }
    }
    assert!(total <= size);
    let columns = world.tile_snapshot();
    let y_size = columns[0].len();
    for (x, column) in columns.iter().enumerate() {
        for (y, &owner) in column.iter().enumerate() {
            assert_eq!(owner, held[x * y_size + y]);
        }
    }
}

#[test]
fn genome_families_have_names() {
    assert_eq!(genome_family("doublet_genome"), Ok(Family::Doublet));
    assert_eq!(genome_family("triplet_genome"), Ok(Family::Triplet));
    assert_eq!(genome_family("quadruplet_genome"), Err(BuildError::UnknownKind));
    assert_eq!(genome_family(""), Err(BuildError::UnknownKind));
    assert_eq!(genome_family("Doublet_genome"), Err(BuildError::UnknownKind));
}

#[test]
fn a_tile_is_given_to_one_organism_only() {
    let mut builder: WorldBuilder<f32> = WorldBuilder::new(3, 3);
    assert_eq!(builder.add_plant(settler(), Position::new(1, 1)), Ok(()));
    assert_eq!(
        builder.add_plant(raider(), Position::new(1, 1)),
        Err(BuildError::TileOccupied(Position::new(1, 1)))
    );
    assert_eq!(builder.add_plant(raider(), Position::new(1, 2)), Ok(()));
    let world = builder.build();
    assert_eq!(owners(&world), vec![0, 0, 0, 0, 1, 2, 0, 0, 0]);
}

#[test]
fn a_tile_off_the_torus_is_not_free() {
    let mut builder: WorldBuilder<f32> = WorldBuilder::new(2, 2);
    assert_eq!(
        builder.add_plant(settler(), Position::new(2, 0)),
        Err(BuildError::TileOccupied(Position::new(2, 0)))
    );
}

#[test]
fn random_plants_need_free_tiles() {
    let mut rng = Rng::from_seed(7);
    let mut builder: WorldBuilder<f32> = WorldBuilder::new(2, 2);
    assert_eq!(builder.add_plant(settler(), Position::new(0, 0)), Ok(()));
    assert_eq!(
        builder.add_random_plants(vec![settler(); 4], &mut rng),
        Err(BuildError::NotEnoughTiles { wanted: 4, free: 3 })
    );
    assert_eq!(builder.add_random_plants(vec![raider(); 3], &mut rng), Ok(()));
    assert_eq!(
        builder.add_random_plants(vec![settler(); 1], &mut rng),
        Err(BuildError::NotEnoughTiles { wanted: 1, free: 0 })
    );
    assert_eq!(builder.add_random_plants(Vec::new(), &mut rng), Ok(()));
    let world = builder.build();
    let mut shown = owners(&world);
    assert_eq!(shown[0], 1);
    shown.sort();
    assert_eq!(shown, vec![1, 2, 3, 4]);
}

#[test]
fn random_plants_stand_on_tiles_of_their_own() {
    let mut rng = Rng::from_seed(11);
    let mut builder: WorldBuilder<f32> = WorldBuilder::new(5, 5);
    assert_eq!(builder.add_random_plants(vec![settler(); 10], &mut rng), Ok(()));
    let world = builder.build();
    let shown = owners(&world);
    for plant in 1..=10 {
        assert_eq!(shown.iter().filter(|&&owner| owner == plant).count(), 1);
    }
    assert_eq!(shown.iter().filter(|&&owner| owner == 0).count(), 15);
    check_ownership(&world, 25);
}

#[test]
fn random_plants_follow_the_seed() {
    let place = |seed: u64| {
        let mut rng = Rng::from_seed(seed);
        let mut builder: WorldBuilder<f32> = WorldBuilder::new(6, 6);
        assert_eq!(builder.add_random_plants(vec![settler(); 5], &mut rng), Ok(()));
        owners(&builder.build())
    };
    assert_eq!(place(3), place(3));
    assert_ne!(place(3), place(4));
}

#[test]
fn the_builder_hands_on_its_settings() {
    let mut builder: WorldBuilder<f32> = WorldBuilder::new(2, 3);
    builder.take_top(5).seed_rate(0.25).mutation_rate(0.5);
    let world = builder.build();
    assert_eq!(world.take_top(), 5);
    assert_eq!(world.seed_rate(), 0.25);
    assert_eq!(world.mutation_rate(), 0.5);
    assert_eq!(world.field().x_size(), 2);
    assert_eq!(world.field().y_size(), 3);
    assert!(world.is_over());
    assert!(world.round_order().is_empty());
}

#[test]
fn a_built_world_has_a_genome_for_every_plant() {
    let world = world_of(4, 4, &[(settler(), 0, 0), (raider(), 3, 3)]);
    let registry = world.registry();
    assert_eq!(registry.plant_count(), 2);
    assert_eq!(registry.genome_count(), 2);
    assert_eq!(registry.active_plants().clone(), vec![PlantId(0), PlantId(1)]);
    assert_eq!(registry.active_genomes().clone(), vec![GenomeId(0), GenomeId(1)]);
    assert_eq!(registry.plant(PlantId(1)).genome_id(), GenomeId(1));
    let genome = registry.genome(GenomeId(1));
    assert_eq!(genome.num_plants, 1);
    assert_eq!(genome.created_at(), 0);
    assert_eq!(genome.parent_genome_id(), None);
    assert_eq!(genome.max_yield(), 4);
    assert_eq!(cells(&world, 0), vec![0]);
    assert_eq!(cells(&world, 1), vec![15]);
    assert_eq!(world.round_order(), vec![PlantId(1), PlantId(0)]);
    assert!(!world.is_over());
}

#[test]
fn a_lone_settler_takes_what_its_budget_pays_for() {
    let mut world = world_of(3, 3, &[(settler(), 1, 1)]);
    let mut rng = Rng::from_seed(1);
    let budget = world.energy_points(PlantId(0));
    assert_eq!(budget, 4);
    round(&mut world, 1, &mut rng, 0);
    assert_eq!(world.registry().plant(PlantId(0)).cell_count(), budget.min(4) + 1);
    assert!(cells(&world, 0).contains(&4));
    check_ownership(&world, 9);
}

#[test]
fn a_claim_costs_one_point_for_an_empty_tile() {
    let mut world = world_of(5, 5, &[(settler(), 2, 2)]);
    assert_eq!(world.claim(PlantId(0), TileId(13), 4), 3);
    assert_eq!(world.claim(PlantId(0), TileId(14), 1), 0);
    assert_eq!(cells(&world, 0), vec![12, 13, 14]);
    assert_eq!(world.field().entity(TileId(14)), Entity::Cell(PlantId(0), CellKind::Branch));
    assert_eq!(world.registry().genome(GenomeId(0)).max_yield(), 8);
}

#[test]
fn a_claim_costs_two_points_for_a_tile_of_another() {
    let mut world = world_of(5, 5, &[(raider(), 2, 2), (settler(), 2, 3)]);
    assert_eq!(world.claim(PlantId(0), TileId(13), 5), 3);
    assert_eq!(cells(&world, 0), vec![12, 13]);
    assert!(cells(&world, 1).is_empty());
    assert_eq!(world.field().entity(TileId(13)), Entity::Cell(PlantId(0), CellKind::Branch));
    assert_eq!(world.energy_points(PlantId(1)), 0);
    check_ownership(&world, 25);
}

#[test]
fn candidates_are_the_tiles_that_may_be_taken() {
    let world = world_of(5, 5, &[(settler(), 2, 2), (raider(), 2, 3)]);
    let mut with_one: Vec<usize> =
        world.candidates(PlantId(0), 1).iter().map(|(tile, _)| tile.0).collect();
    with_one.sort();
    assert_eq!(with_one, vec![7, 11, 17]);
    let mut with_two: Vec<usize> =
        world.candidates(PlantId(0), 2).iter().map(|(tile, _)| tile.0).collect();
    with_two.sort();
    assert_eq!(with_two, vec![7, 11, 13, 17]);
    assert!(world.candidates(PlantId(0), 0).is_empty());
    let scores = world.candidates(PlantId(0), 2);
    let other = scores.iter().find(|(tile, _)| tile.0 == 13).unwrap();
    assert_eq!(other.1, vec![0.0, 0.0, 0.0, 0.0, 0.0]);
    let empty = scores.iter().find(|(tile, _)| tile.0 == 11).unwrap();
    assert_eq!(empty.1, vec![1.0, 0.25, 0.5, 0.5, 0.5]);
}

#[test]
fn two_organisms_never_hold_the_same_tile() {
    for seed in 0..5 {
        let mut world = world_of(4, 4, &[(settler(), 0, 0), (settler(), 3, 3)]);
        let mut rng = Rng::from_seed(seed);
        check_ownership(&world, 16);
        for number in 1..=12 {
            round(&mut world, number, &mut rng, 3);
            check_ownership(&world, 16);
            let held: usize = owners(&world).iter().filter(|&&owner| owner != 0).count();
            assert!(held <= 16);
        }
    }
}

#[test]
fn raiders_and_settlers_keep_the_field_and_the_organisms_in_step() {
    let mut world = world_of(
        6,
        6,
        &[(raider(), 0, 0), (settler(), 3, 3), (settler(), 5, 1), (raider(), 1, 4)],
    );
    let mut rng = Rng::from_seed(42);
    for number in 1..=20 {
        round(&mut world, number, &mut rng, 5);
        check_ownership(&world, 36);
        for &plant_id in world.registry().active_plants().iter() {
            let tiles = world.registry().plant(plant_id).cell_tiles();
            for tile in tiles {
                assert_eq!(
                    world.field().entity(tile),
                    Entity::Cell(plant_id, CellKind::Branch)
                );
            }
        }
    }
}

#[test]
fn a_run_follows_the_seed() {
    let run = |seed: u64| {
        let mut world = world_of(5, 5, &[(settler(), 0, 0), (raider(), 2, 2), (settler(), 4, 1)]);
        let mut rng = Rng::from_seed(seed);
        let mut seen = Vec::new();
        for number in 1..=8 {
            round(&mut world, number, &mut rng, 5);
            seen.push(owners(&world));
        }
        seen
    };
    assert_eq!(run(5), run(5));
}

#[test]
fn the_capture_of_a_bridge_splits_an_organism() {
    let mut world = world_of(7, 7, &[(settler(), 1, 3), (raider(), 2, 2)]);
    let field = |x: usize, y: usize| TileId(x * 7 + y);
    let left = vec![field(1, 2), field(1, 3), field(1, 4)];
    let bridge = field(2, 3);
    let right = vec![field(3, 3), field(3, 4)];
    for tile in [left[0], left[2], bridge, right[0], right[1]] {
        world.claim(PlantId(0), tile, 10);
    }
    let mut whole = left.clone();
    whole.push(bridge);
    whole.extend(right.clone());
    assert_eq!(cells(&world, 0), sorted(whole));

    assert_eq!(world.claim(PlantId(1), bridge, 2), 0);

    assert_eq!(cells(&world, 0), sorted(left.clone()));
    assert_eq!(cells(&world, 1), sorted(vec![field(2, 2), bridge]));
    for &tile in &right {
        assert_eq!(world.field().entity(tile), Entity::Empty);
        assert!(world.field().is_empty(tile));
    }
    for &tile in &left {
        assert_eq!(world.field().entity(tile), Entity::Cell(PlantId(0), CellKind::Branch));
    }
    assert_eq!(world.field().entity(bridge), Entity::Cell(PlantId(1), CellKind::Branch));
    let shown = owners(&world);
    assert_eq!(shown.iter().filter(|&&owner| owner == 1).count(), 3);
    assert_eq!(shown.iter().filter(|&&owner| owner == 2).count(), 2);
    check_ownership(&world, 49);
}

#[test]
fn a_dying_organism_is_sown_again() {
    let mut world = world_of(5, 5, &[(settler(), 2, 2)]);
    world.claim(PlantId(0), TileId(13), 4);
    world.claim(PlantId(0), TileId(14), 4);
    let sowing = vec![
        (TileId(13), Seed::Barren),
        (TileId(12), Seed::Scion),
        (TileId(14), Seed::Mutant(raider())),
    ];
    world.remove_plant(PlantId(0), 6, sowing);

    let registry = world.registry();
    assert!(registry.plant_record(PlantId(0)).is_dead());
    assert_eq!(registry.plant_record(PlantId(0)).as_ref().unwrap_dead().genome_id(), GenomeId(0));
    assert_eq!(registry.plant_count(), 3);
    assert_eq!(registry.active_plants().clone(), vec![PlantId(1), PlantId(2)]);
    assert_eq!(cells(&world, 1), vec![12]);
    assert_eq!(cells(&world, 2), vec![14]);
    assert_eq!(world.field().entity(TileId(13)), Entity::Empty);
    assert_eq!(world.field().entity(TileId(12)), Entity::Cell(PlantId(1), CellKind::Branch));
    assert_eq!(world.field().entity(TileId(14)), Entity::Cell(PlantId(2), CellKind::Branch));

    assert_eq!(registry.plant(PlantId(1)).genome_id(), GenomeId(0));
    assert_eq!(registry.plant(PlantId(2)).genome_id(), GenomeId(1));
    assert_eq!(registry.genome_count(), 2);
    assert_eq!(registry.genome(GenomeId(0)).num_plants, 1);
    let descendant = registry.genome(GenomeId(1));
    assert_eq!(descendant.num_plants, 1);
    assert_eq!(descendant.parent_genome_id(), Some(GenomeId(0)));
    assert_eq!(descendant.created_at(), 6);
    assert_eq!(descendant.genome().values(), raider().values());
    assert_eq!(registry.active_genomes().clone(), vec![GenomeId(0), GenomeId(1)]);
    check_ownership(&world, 25);
}

#[test]
fn what_is_sown_later_finds_the_earlier_sprouts_beside_it() {
    let mut world = world_of(5, 5, &[(settler(), 2, 2)]);
    world.claim(PlantId(0), TileId(13), 4);
    assert_eq!(world.registry().genome(GenomeId(0)).max_yield(), 6);
    let sowing = vec![(TileId(12), Seed::Mutant(raider())), (TileId(13), Seed::Scion)];
    world.remove_plant(PlantId(0), 3, sowing);

    let registry = world.registry();
    assert_eq!(registry.active_plants().clone(), vec![PlantId(1), PlantId(2)]);
    assert_eq!(registry.active_genomes().clone(), vec![GenomeId(0), GenomeId(1)]);
    assert_eq!(registry.plant(PlantId(1)).genome_id(), GenomeId(1));
    assert_eq!(registry.plant(PlantId(2)).genome_id(), GenomeId(0));
    assert_eq!(registry.genome(GenomeId(1)).max_yield(), 4);
    assert_eq!(registry.genome(GenomeId(1)).num_plants, 1);
    assert_eq!(registry.genome(GenomeId(0)).max_yield(), 6);
    assert_eq!(registry.genome(GenomeId(0)).num_plants, 1);
    check_ownership(&world, 25);
}

#[test]
fn what_is_sown_first_finds_the_field_cleared() {
    let mut world = world_of(5, 5, &[(settler(), 2, 2)]);
    world.claim(PlantId(0), TileId(13), 4);
    let sowing = vec![(TileId(13), Seed::Scion), (TileId(12), Seed::Mutant(raider()))];
    world.remove_plant(PlantId(0), 3, sowing);

    let registry = world.registry();
    assert_eq!(registry.plant(PlantId(1)).genome_id(), GenomeId(0));
    assert_eq!(registry.plant(PlantId(2)).genome_id(), GenomeId(1));
    assert_eq!(registry.genome(GenomeId(1)).max_yield(), 3);
    assert_eq!(registry.genome(GenomeId(0)).max_yield(), 6);
    check_ownership(&world, 25);
}

#[test]
fn a_scion_may_raise_the_yield_of_its_genome() {
    let mut world = world_of(3, 3, &[(raider(), 0, 0), (settler(), 1, 0)]);
    let first = world.field().id_at(Position::new(0, 0));
    let second = world.field().id_at(Position::new(1, 0));
    assert_eq!(world.registry().genome(GenomeId(1)).max_yield(), 3);
    world.remove_plant(PlantId(0), 1, vec![(first, Seed::Barren)]);
    world.remove_plant(PlantId(1), 2, vec![(second, Seed::Scion)]);
    assert_eq!(world.registry().genome(GenomeId(1)).max_yield(), 4);
    assert_eq!(world.registry().genome(GenomeId(1)).num_plants, 1);
    assert_eq!(world.registry().active_plants().clone(), vec![PlantId(2)]);
    assert_eq!(world.registry().active_genomes().clone(), vec![GenomeId(1)]);
    assert!(world.registry().genome_record(GenomeId(0)).is_dead());
}

#[test]
fn a_genome_without_carriers_is_archived() {
    let mut world = world_of(5, 5, &[(settler(), 2, 2), (raider(), 0, 0)]);
    world.claim(PlantId(0), TileId(13), 4);
    let sowing = vec![(TileId(12), Seed::Barren), (TileId(13), Seed::Barren)];
    world.remove_plant(PlantId(0), 9, sowing);
    let registry = world.registry();
    assert_eq!(registry.active_plants().clone(), vec![PlantId(1)]);
    assert_eq!(registry.active_genomes().clone(), vec![GenomeId(1)]);
    let record = registry.genome_record(GenomeId(0));
    assert!(record.is_dead());
    let archived = record.as_ref().unwrap_dead();
    assert_eq!(archived.died_at, 9);
    assert_eq!(archived.created_at, 0);
    assert_eq!(archived.max_yield(), 6);
    assert_eq!(archived.parent_genome_id, None);
    assert_eq!(archived.id, GenomeId(0));
    assert!(world.field().is_empty(TileId(12)));
    assert!(world.field().is_empty(TileId(13)));
    assert!(world.is_over());
    check_ownership(&world, 25);
}

#[test]
fn added_plants_may_share_a_genome() {
    let grid = Grid::new(SquareGrid::new(4, 4));
    let mut world: World<f32> = World::new(grid, 2, 0.5, 0.125);
    let genome_id = world.add_genome(settler());
    assert_eq!(genome_id, GenomeId(0));
    assert_eq!(world.add_plant(genome_id, TileId(0)), PlantId(0));
    assert_eq!(world.add_plant(genome_id, TileId(5)), PlantId(1));
    assert_eq!(world.registry().genome(genome_id).num_plants, 2);
    assert_eq!(owners(&world), vec![1, 0, 0, 0, 0, 2, 0, 0, 0, 0, 0, 0, 0, 0, 0, 0]);
    let sowing = vec![(TileId(0), Seed::Barren)];
    world.remove_plant(PlantId(0), 1, sowing);
    assert_eq!(world.registry().genome(genome_id).num_plants, 1);
    assert!(world.registry().genome_record(genome_id).is_living());
}

#[test]
fn the_best_genomes_come_first() {
    let mut world = world_of(
        7,
        7,
        &[(settler(), 0, 0), (settler(), 3, 3), (settler(), 5, 5), (settler(), 0, 4)],
    );
    // One cell draws 4, two in a row 6, three in a row 8.
    world.claim(PlantId(1), TileId(25), 4);
    world.claim(PlantId(1), TileId(26), 4);
    world.claim(PlantId(2), TileId(41), 4);
    assert_eq!(world.take_top(), 3);
    let top = world.top_genome_ids();
    assert_eq!(top[0], GenomeId(1));
    assert_eq!(top[1], GenomeId(2));
    assert!(top[2] == GenomeId(0) || top[2] == GenomeId(3));
    let yields: Vec<usize> = world
        .top_genomes()
        .iter()
        .map(|record| match record {
            Either::Living(genome) => genome.max_yield(),
            Either::Dead(genome) => genome.max_yield(),
        })
        .collect();
    assert_eq!(yields, vec![8, 6, 4]);
    let result = TrialResult::new(world.top_genomes());
    assert_eq!(result.top_genomes.len(), 3);
}

#[test]
fn the_best_genomes_of_few() {
    let registry: Organisms<f32> = Organisms::default();
    assert!(registry.top_genome_ids(3).is_empty());
    let world = world_of(3, 3, &[(settler(), 0, 0), (raider(), 1, 1)]);
    assert_eq!(world.registry().top_genome_ids(0), Vec::new());
    assert_eq!(world.registry().top_genome_ids(5).len(), 2);
    assert_eq!(world.registry().top_genomes(1).len(), 1);
}

#[test]
fn archived_genomes_are_ranked_too() {
    let mut world = world_of(7, 7, &[(settler(), 0, 0), (settler(), 3, 3)]);
    world.claim(PlantId(1), TileId(25), 4);
    let sowing = vec![(TileId(24), Seed::Barren), (TileId(25), Seed::Barren)];
    world.remove_plant(PlantId(1), 2, sowing);
    assert_eq!(world.registry().top_genome_ids(1), vec![GenomeId(1)]);
    assert!(world.registry().top_genomes(1)[0].is_dead());
}

#[test]
fn a_snapshot_shows_the_owners_column_by_column() {
    let world = world_of(2, 3, &[(settler(), 0, 1), (raider(), 1, 2)]);
    assert_eq!(world.tile_snapshot(), vec![vec![0, 1, 0], vec![0, 0, 2]]);
}

#[test]
fn snapshots_are_due_every_so_many_rounds() {
    assert!(snapshot_due(0, 5));
    assert!(!snapshot_due(1, 5));
    assert!(!snapshot_due(4, 5));
    assert!(snapshot_due(5, 5));
    assert!(snapshot_due(10, 5));
    assert!(snapshot_due(7, 1));
}

#[test]
fn a_triplet_genome_drives_an_organism_too() {
    let genome = GenomeKind::from(TripletGenome::new(
        1.0,
        SingletFn { singlet_e: 1.0, singlet_o: 0.0 },
        DoubletFn::from_slice(&[0.0; 6]),
        TripletFn::from_slice(&[0.0; 18]),
        TripletFn::from_slice(&[0.0; 18]),
    ));
    let mut world = world_of(5, 5, &[(genome, 2, 2)]);
    let mut rng = Rng::from_seed(9);
    round(&mut world, 1, &mut rng, 0);
    assert_eq!(world.registry().plant(PlantId(0)).cell_count(), 5);
    check_ownership(&world, 25);
}

#[test]
fn an_organism_grows_while_it_has_points() {
    let mut world = world_of(5, 5, &[(raider(), 2, 2), (settler(), 2, 3)]);
    assert_eq!(world.turn(PlantId(0)), Turn::Grow(3));
    assert_eq!(world.turn(PlantId(1)), Turn::Grow(3));
    world.claim(PlantId(0), TileId(13), 2);
    assert_eq!(world.turn(PlantId(1)), Turn::Die);
    assert_eq!(world.turn(PlantId(0)), Turn::Grow(3));
}

#[test]
fn an_organism_that_fills_the_field_dies() {
    let mut world = world_of(2, 2, &[(settler(), 0, 0)]);
    for tile in [1, 2, 3] {
        world.claim(PlantId(0), TileId(tile), 4);
    }
    assert_eq!(world.energy_points(PlantId(0)), 0);
    assert_eq!(world.turn(PlantId(0)), Turn::Die);
}

#[test]
fn the_cells_of_an_organism_are_the_tiles_that_show_it() {
    let mut world = world_of(6, 6, &[(settler(), 1, 1), (raider(), 4, 4)]);
    let mut rng = Rng::from_seed(13);
    for number in 1..=6 {
        round(&mut world, number, &mut rng, 5);
        let shown = owners(&world);
        for &plant_id in world.registry().active_plants().iter() {
            let held = shown.iter().filter(|&&owner| owner == plant_id.0 + 1).count();
            assert_eq!(world.cell_count(plant_id), held);
            assert_eq!(world.registry().plant(plant_id).cell_count(), held);
        }
    }
}

#[test]
fn a_plant_added_on_a_tile_of_another_takes_it() {
    let mut world = world_of(7, 7, &[(settler(), 1, 3)]);
    let field = |x: usize, y: usize| TileId(x * 7 + y);
    for tile in [field(2, 3), field(3, 3), field(4, 3)] {
        world.claim(PlantId(0), tile, 10);
    }
    let genome_id = world.add_genome(raider());
    let newcomer = world.add_plant(genome_id, field(2, 3));
    assert_eq!(newcomer, PlantId(1));
    assert_eq!(cells(&world, 1), vec![field(2, 3).0]);
    // Of the parts of one and two cells the larger one lives on.
    assert_eq!(cells(&world, 0), vec![field(3, 3).0, field(4, 3).0]);
    assert!(world.field().is_empty(field(1, 3)));
    check_ownership(&world, 49);
}
