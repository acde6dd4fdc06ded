pub mod cell_kind;
pub mod either;
pub mod entity;
pub mod owner;
pub mod plants;
pub mod position;
pub mod step;
pub mod tiles;
pub mod square_grid;
pub mod blob;
pub mod doublet;
pub mod triplet_i;
pub mod triplet_l;
pub mod neighbors;
pub mod tile_id_builder;
pub mod grid;
pub mod bit_set;
pub mod int_map;
pub mod simple_graph;
pub mod active_plant;
pub mod genomes;
pub mod connectivity;
pub mod doublet_fn;
pub mod singlet_fn;
pub mod triplet_fn;
pub mod genome;
pub mod freshness;
pub mod active_genome;
pub mod inactive_genome;
pub mod inactive_plant;
pub mod organisms;
pub mod ranking;
pub mod world;
pub mod rng;
pub mod world_builder;
pub mod trial_result;
pub mod score_cache;
