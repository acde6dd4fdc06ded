use crate::entity::Entity;
use crate::genomes::doublet_genome::{scorable, DoubletGenome};
use crate::genomes::triplet_genome::TripletGenome;
use crate::grid::Grid;
use crate::plants::PlantId;
use crate::tiles::TileId;
use vstd::prelude::*;

verus! {

/// A genome of one of the families.
#[derive(Debug, Clone, Copy)]
pub enum GenomeKind<T> {
    DoubletGenome(DoubletGenome<T>),
    TripletGenome(TripletGenome<T>),
}

impl<T: Copy> GenomeKind<T> {
    /// The potentials that add up to the score of the tile `tile` for the
    /// organism `plant_id`, in the order in which they are added.
    pub open spec fn terms(
        &self,
        entities: Seq<Entity>,
        plant_id: PlantId,
        tile: int,
        x_size: int,
        y_size: int,
    ) -> Seq<T> {
        match *self {
            GenomeKind::DoubletGenome(genome) => genome.terms(
                entities,
                plant_id,
                tile,
                x_size,
                y_size,
            ),
            GenomeKind::TripletGenome(genome) => genome.terms(
                entities,
                plant_id,
                tile,
                x_size,
                y_size,
            ),
        }
    }

    /// All potentials of the genome, table by table.
    pub open spec fn potentials(&self) -> Seq<T> {
        match *self {
            GenomeKind::DoubletGenome(genome) => genome.singlet_fn@ + genome.doublet_fn@,
            GenomeKind::TripletGenome(genome) => genome.singlet_fn@ + genome.doublet_fn@
                + genome.triplet_l_fn@ + genome.triplet_i_fn@,
        }
    }

    /// The weight that the genome gives to the differences between scores.
    pub open spec fn weight(&self) -> T {
        match *self {
            GenomeKind::DoubletGenome(genome) => genome.score_weight,
            GenomeKind::TripletGenome(genome) => genome.score_weight,
        }
    }

    /// A genome of the same family with the weight `score_weight` in which
    /// `mutator` has changed every potential, one after the other.
    pub fn mutate(&self, score_weight: T, mutator: impl FnMut(T) -> T) -> (genome: Self)
        requires
            forall|value: T| call_requires(mutator, (value,)),
        ensures
            genome is DoubletGenome <==> *self is DoubletGenome,
            genome.weight() == score_weight,
            genome.potentials().len() == self.potentials().len(),
            forall|i: int|
                0 <= i < self.potentials().len() ==> call_ensures(
                    mutator,
                    (self.potentials()[i],),
                    #[trigger] genome.potentials()[i],
                ),
    {
        match self {
            GenomeKind::DoubletGenome(genome) => GenomeKind::DoubletGenome(
                genome.mutate(score_weight, mutator),
            ),
            GenomeKind::TripletGenome(genome) => GenomeKind::TripletGenome(
                genome.mutate(score_weight, mutator),
            ),
        }
    }

    /// The potentials that add up to the score of `tile_id` for the
    /// organism `plant_id` with `points` left to spend, in the order in
    /// which they are added; none if the organism may not take the tile.
    pub fn score(&self, plant_id: PlantId, tile_id: TileId, points: usize, grid: &Grid) -> (terms:
        Option<Vec<T>>)
        requires
            grid.wf(),
            tile_id.0 < grid.spec_size(),
        ensures
            terms is Some <==> scorable(grid.entities()[tile_id.0 as int], plant_id, points),
            terms is Some ==> terms->0@ == self.terms(
                grid.entities(),
                plant_id,
                tile_id.0 as int,
                grid.spec_x_size() as int,
                grid.spec_y_size() as int,
            ),
    {
        match self {
            GenomeKind::DoubletGenome(genome) => genome.score(plant_id, tile_id, points, grid),
            GenomeKind::TripletGenome(genome) => genome.score(plant_id, grid, tile_id, points),
        }
    }

    pub fn score_weight(&self) -> (score_weight: T)
        ensures
            score_weight == self.weight(),
    {
        match self {
            GenomeKind::DoubletGenome(genome) => genome.score_weight(),
            GenomeKind::TripletGenome(genome) => genome.score_weight(),
        }
    }

    /// All potentials of the genome, table by table.
    pub fn values(&self) -> (values: Vec<T>)
        ensures
            values@ == self.potentials(),
    {
        match self {
            GenomeKind::DoubletGenome(genome) => genome.values(),
            GenomeKind::TripletGenome(genome) => genome.values(),
        }
    }
}

impl<T> From<DoubletGenome<T>> for GenomeKind<T> {
    fn from(genome: DoubletGenome<T>) -> (kind: Self) {
        GenomeKind::DoubletGenome(genome)
    }
}

impl<T> vstd::std_specs::convert::FromSpecImpl<DoubletGenome<T>> for GenomeKind<T> {
    open spec fn obeys_from_spec() -> bool {
        true
    }

    open spec fn from_spec(genome: DoubletGenome<T>) -> Self {
        GenomeKind::DoubletGenome(genome)
    }
}

impl<T> From<TripletGenome<T>> for GenomeKind<T> {
    fn from(genome: TripletGenome<T>) -> (kind: Self) {
        GenomeKind::TripletGenome(genome)
    }
}

impl<T> vstd::std_specs::convert::FromSpecImpl<TripletGenome<T>> for GenomeKind<T> {
    open spec fn obeys_from_spec() -> bool {
        true
    }

    open spec fn from_spec(genome: TripletGenome<T>) -> Self {
        GenomeKind::TripletGenome(genome)
    }
}

/// What every genome can do: rate a tile, tell its weight, and bring
/// forth a changed genome of its family.
pub trait Genome<T: Copy> {
    /// The potentials that add up to the score of the tile `tile` for the
    /// organism `plant_id`, in the order in which they are added.
    spec fn score_terms(
        &self,
        entities: Seq<Entity>,
        plant_id: PlantId,
        tile: int,
        x_size: int,
        y_size: int,
    ) -> Seq<T>;

    /// The genome as one of its kind.
    spec fn kind(&self) -> GenomeKind<T>;

    /// A genome of the same family with the weight `score_weight` in which
    /// `mutator` has changed every potential, one after the other.
    fn mutate<F: FnMut(T) -> T>(&self, score_weight: T, mutator: F) -> (genome: GenomeKind<T>)
        requires
            forall|value: T| call_requires(mutator, (value,)),
        ensures
            genome is DoubletGenome <==> self.kind() is DoubletGenome,
            genome.weight() == score_weight,
            genome.potentials().len() == self.kind().potentials().len(),
            forall|i: int|
                0 <= i < self.kind().potentials().len() ==> call_ensures(
                    mutator,
                    (self.kind().potentials()[i],),
                    #[trigger] genome.potentials()[i],
                ),
    ;

    /// The potentials that add up to the score of `tile_id` for the
    /// organism `plant_id` with `points` left to spend, in the order in
    /// which they are added; none if the organism may not take the tile.
    fn score(&self, plant_id: PlantId, tile_id: TileId, points: usize, grid: &Grid) -> (terms:
        Option<Vec<T>>)
        requires
            grid.wf(),
            tile_id.0 < grid.spec_size(),
        ensures
            terms is Some <==> scorable(grid.entities()[tile_id.0 as int], plant_id, points),
            terms is Some ==> terms->0@ == self.score_terms(
                grid.entities(),
                plant_id,
                tile_id.0 as int,
                grid.spec_x_size() as int,
                grid.spec_y_size() as int,
            ),
    ;

    /// The weight that the genome gives to the differences between scores.
    fn score_weight(&self) -> (score_weight: T)
        ensures
            score_weight == self.kind().weight(),
    ;
}

impl<T: Copy> Genome<T> for DoubletGenome<T> {
    open spec fn score_terms(
        &self,
        entities: Seq<Entity>,
        plant_id: PlantId,
        tile: int,
        x_size: int,
        y_size: int,
    ) -> Seq<T> {
        self.terms(entities, plant_id, tile, x_size, y_size)
    }

    open spec fn kind(&self) -> GenomeKind<T> {
        GenomeKind::DoubletGenome(*self)
    }

    fn mutate<F: FnMut(T) -> T>(&self, score_weight: T, mutator: F) -> (genome: GenomeKind<T>) {
        GenomeKind::DoubletGenome(DoubletGenome::mutate(self, score_weight, mutator))
    }

    fn score(&self, plant_id: PlantId, tile_id: TileId, points: usize, grid: &Grid) -> (terms:
        Option<Vec<T>>) {
        DoubletGenome::score(self, plant_id, tile_id, points, grid)
    }

    fn score_weight(&self) -> (score_weight: T) {
        DoubletGenome::score_weight(self)
    }
}

impl<T: Copy> Genome<T> for TripletGenome<T> {
    open spec fn score_terms(
        &self,
        entities: Seq<Entity>,
        plant_id: PlantId,
        tile: int,
        x_size: int,
        y_size: int,
    ) -> Seq<T> {
        self.terms(entities, plant_id, tile, x_size, y_size)
    }

    open spec fn kind(&self) -> GenomeKind<T> {
        GenomeKind::TripletGenome(*self)
    }

    fn mutate<F: FnMut(T) -> T>(&self, score_weight: T, mutator: F) -> (genome: GenomeKind<T>) {
        GenomeKind::TripletGenome(TripletGenome::mutate(self, score_weight, mutator))
    }

    fn score(&self, plant_id: PlantId, tile_id: TileId, points: usize, grid: &Grid) -> (terms:
        Option<Vec<T>>) {
        TripletGenome::score(self, plant_id, grid, tile_id, points)
    }

    fn score_weight(&self) -> (score_weight: T) {
        TripletGenome::score_weight(self)
    }
}

impl<T: Copy> Genome<T> for GenomeKind<T> {
    open spec fn score_terms(
        &self,
        entities: Seq<Entity>,
        plant_id: PlantId,
        tile: int,
        x_size: int,
        y_size: int,
    ) -> Seq<T> {
        self.terms(entities, plant_id, tile, x_size, y_size)
    }

    open spec fn kind(&self) -> GenomeKind<T> {
        *self
    }

    fn mutate<F: FnMut(T) -> T>(&self, score_weight: T, mutator: F) -> (genome: GenomeKind<T>) {
        GenomeKind::mutate(self, score_weight, mutator)
    }

    fn score(&self, plant_id: PlantId, tile_id: TileId, points: usize, grid: &Grid) -> (terms:
        Option<Vec<T>>) {
        GenomeKind::score(self, plant_id, tile_id, points, grid)
    }

    fn score_weight(&self) -> (score_weight: T) {
        GenomeKind::score_weight(self)
    }
}

} // verus!
