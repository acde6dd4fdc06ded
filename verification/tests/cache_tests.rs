use plant_sim::cell_kind::CellKind;
use plant_sim::doublet_fn::DoubletFn;
use plant_sim::entity::Entity;
use plant_sim::genome::GenomeKind;
use plant_sim::genomes::doublet_genome::DoubletGenome;
use plant_sim::plants::PlantId;
use plant_sim::position::Position;
use plant_sim::score_cache::ScoreCache;
use plant_sim::singlet_fn::SingletFn;
use plant_sim::tiles::TileId;
use plant_sim::world::World;
use plant_sim::world_builder::WorldBuilder;

fn genome() -> GenomeKind<f32> {
    GenomeKind::from(DoubletGenome::new(
        1.0,
        SingletFn { singlet_e: 1.0, singlet_o: 0.0 },
        DoubletFn::from_slice(&[0.5, 0.25, 0.0, 0.0, 0.0, 0.0]),
    ))
}

fn world() -> World<f32> {
    let mut builder: WorldBuilder<f32> = WorldBuilder::new(7, 7);
    assert_eq!(builder.add_plant(genome(), Position::new(3, 3)), Ok(()));
    assert_eq!(builder.add_plant(genome(), Position::new(0, 0)), Ok(()));
    builder.build()
}

#[test]
fn a_new_cache_holds_nothing() {
    let cache: ScoreCache<f32> = ScoreCache::new();
    assert_eq!(cache.score(PlantId(0), TileId(0), 1, 0), None);
}

#[test]
fn a_score_is_kept_with_its_counter() {
    let mut cache: ScoreCache<f32> = ScoreCache::new();
    cache.remember(PlantId(1), TileId(2), 3, 40, Some(0.5));
    assert_eq!(cache.score(PlantId(1), TileId(2), 3, 40), Some(Some(0.5)));
    assert_eq!(cache.score(PlantId(1), TileId(2), 3, 41), None);
    assert_eq!(cache.score(PlantId(1), TileId(2), 3, 39), None);
    assert_eq!(cache.score(PlantId(0), TileId(2), 3, 40), None);
    assert_eq!(cache.score(PlantId(1), TileId(3), 3, 40), None);
    assert_eq!(cache.score(PlantId(1), TileId(2), 2, 40), None);
}

#[test]
fn a_tile_that_may_not_be_taken_is_kept_too() {
    let mut cache: ScoreCache<f32> = ScoreCache::new();
    cache.remember(PlantId(0), TileId(5), 1, 7, None);
    assert_eq!(cache.score(PlantId(0), TileId(5), 1, 7), Some(None));
    assert_eq!(cache.score(PlantId(0), TileId(5), 1, 8), None);
}

#[test]
fn a_newer_score_takes_the_place_of_an_older() {
    let mut cache: ScoreCache<u32> = ScoreCache::new();
    cache.remember(PlantId(0), TileId(1), 1, 0, Some(10));
    cache.remember(PlantId(0), TileId(2), 1, 0, Some(20));
    cache.remember(PlantId(0), TileId(1), 1, 4, Some(11));
    assert_eq!(cache.score(PlantId(0), TileId(1), 1, 0), None);
    assert_eq!(cache.score(PlantId(0), TileId(1), 1, 4), Some(Some(11)));
    assert_eq!(cache.score(PlantId(0), TileId(2), 1, 0), Some(Some(20)));
    cache.remember(PlantId(0), TileId(2), 1, 0, None);
    assert_eq!(cache.score(PlantId(0), TileId(2), 1, 0), Some(None));
    assert_eq!(cache.score(PlantId(0), TileId(1), 1, 4), Some(Some(11)));
}

#[test]
fn many_scores_are_kept_apart() {
    let mut cache: ScoreCache<usize> = ScoreCache::new();
    for plant in 0..5 {
        for tile in 0..20 {
            for points in 0..3 {
                let score = plant * 1000 + tile * 10 + points;
                cache.remember(PlantId(plant), TileId(tile), points, tile, Some(score));
            }
        }
    }
    for plant in 0..5 {
        for tile in 0..20 {
            for points in 0..3 {
                let score = plant * 1000 + tile * 10 + points;
                assert_eq!(
                    cache.score(PlantId(plant), TileId(tile), points, tile),
                    Some(Some(score))
                );
            }
        }
    }
}

#[test]
fn the_world_keeps_a_score_while_the_counter_of_the_tile_stands() {
    let mut world = world();
    let scored = TileId(25);
    assert_eq!(world.cached_score(PlantId(0), scored, 4), None);
    world.store_score(PlantId(0), scored, 4, Some(2.5));
    assert_eq!(world.cached_score(PlantId(0), scored, 4), Some(Some(2.5)));
    assert_eq!(world.cached_score(PlantId(0), scored, 3), None);
    assert_eq!(world.cached_score(PlantId(1), scored, 4), None);
    // A claim far away leaves the counter, and with it the score.
    world.claim(PlantId(1), TileId(1), 4);
    assert_eq!(world.cached_score(PlantId(0), scored, 4), Some(Some(2.5)));
}

#[test]
fn a_change_in_the_blob_drops_the_score_of_the_world() {
    let mut world = world();
    let scored = TileId(25);
    world.store_score(PlantId(0), scored, 4, Some(2.5));
    // The tile 26 is next to 25.
    world.claim(PlantId(0), scored, 4);
    world.claim(PlantId(0), TileId(26), 3);
    assert_eq!(world.cached_score(PlantId(0), scored, 4), None);
    world.store_score(PlantId(0), scored, 4, None);
    assert_eq!(world.cached_score(PlantId(0), scored, 4), Some(None));
    assert_eq!(world.field().entity(scored), Entity::Cell(PlantId(0), CellKind::Branch));
}
