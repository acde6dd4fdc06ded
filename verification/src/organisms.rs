use crate::active_genome::{takeable, ActiveGenome};
use crate::active_plant::{energy_yield_of, ActivePlant};
use crate::either::Either;
use crate::genome::GenomeKind;
use crate::genomes::{GenomeId, Genomes};
use crate::grid::Grid;
use crate::inactive_genome::InactiveGenome;
use crate::inactive_plant::InactivePlant;
use crate::plants::{PlantId, Plants};
use crate::ranking::{k_largest_places, top_places};
use crate::simple_graph::torus_surface;
use crate::tiles::TileId;
use vstd::prelude::*;

verus! {

/// The genome that a living organism carries.
pub open spec fn carried(plant: Either<ActivePlant, InactivePlant>) -> Option<GenomeId> {
    match plant {
        Either::Living(living) => Some(living.spec_genome_id()),
        Either::Dead(_) => None,
    }
}

/// The number of living organisms that carry the genome `genome_id`.
pub open spec fn carriers(plants: Seq<Either<ActivePlant, InactivePlant>>, genome_id: GenomeId) -> nat
    decreases plants.len(),
{
    if plants.len() == 0 {
        0
    } else {
        carriers(plants.drop_last(), genome_id) + if carried(plants.last()) == Some(genome_id) {
            1nat
        } else {
            0nat
        }
    }
}

/// No more organisms carry a genome than there are organisms.
pub proof fn lemma_carriers_bound(plants: Seq<Either<ActivePlant, InactivePlant>>, genome_id: GenomeId)
    ensures
        carriers(plants, genome_id) <= plants.len(),
    decreases plants.len(),
{
    if plants.len() > 0 {
        lemma_carriers_bound(plants.drop_last(), genome_id);
    }
}

/// A genome that no living organism carries has no carriers.
pub proof fn lemma_carriers_none(plants: Seq<Either<ActivePlant, InactivePlant>>, genome_id: GenomeId)
    requires
        forall|i: int| 0 <= i < plants.len() ==> carried(#[trigger] plants[i]) != Some(genome_id),
    ensures
        carriers(plants, genome_id) == 0,
    decreases plants.len(),
{
    if plants.len() > 0 {
        assert(carried(plants[plants.len() - 1]) != Some(genome_id));
        let shorter = plants.drop_last();
        assert forall|i: int| 0 <= i < shorter.len() implies carried(#[trigger] shorter[i]) != Some(
            genome_id,
        ) by {
            assert(shorter[i] == plants[i]);
        }
        lemma_carriers_none(shorter, genome_id);
    }
}

/// A genome that a living organism carries has a carrier.
pub proof fn lemma_carriers_positive(
    plants: Seq<Either<ActivePlant, InactivePlant>>,
    i: int,
    genome_id: GenomeId,
)
    requires
        0 <= i < plants.len(),
        carried(plants[i]) == Some(genome_id),
    ensures
        carriers(plants, genome_id) >= 1,
    decreases plants.len(),
{
    if i < plants.len() - 1 {
        lemma_carriers_positive(plants.drop_last(), i, genome_id);
    }
}

/// What a change of one record does to the number of carriers of a genome.
pub proof fn lemma_carriers_update(
    plants: Seq<Either<ActivePlant, InactivePlant>>,
    i: int,
    plant: Either<ActivePlant, InactivePlant>,
    genome_id: GenomeId,
)
    requires
        0 <= i < plants.len(),
    ensures
        carriers(plants.update(i, plant), genome_id) + (if carried(plants[i]) == Some(genome_id) {
            1nat
        } else {
            0nat
        }) == carriers(plants, genome_id) + (if carried(plant) == Some(genome_id) {
            1nat
        } else {
            0nat
        }),
    decreases plants.len(),
{
    let changed = plants.update(i, plant);
    if i == plants.len() - 1 {
        assert(changed.drop_last() =~= plants.drop_last());
    } else {
        lemma_carriers_update(plants.drop_last(), i, plant, genome_id);
        assert(changed.drop_last() =~= plants.drop_last().update(i, plant));
    }
}

/// The sequence `items` without `item`, the rest in their order.
pub open spec fn without<A>(items: Seq<A>, item: A) -> Seq<A>
    decreases items.len(),
{
    if items.len() == 0 {
        items
    } else if items.last() == item {
        without(items.drop_last(), item)
    } else {
        without(items.drop_last(), item).push(items.last())
    }
}

/// What is left of a sequence without an item: everything else, and nothing
/// twice that was not there twice.
pub proof fn lemma_without<A>(items: Seq<A>, item: A)
    ensures
        forall|other: A| without(items, item).contains(other) <==> items.contains(other) && other != item,
        items.no_duplicates() ==> without(items, item).no_duplicates(),
        without(items, item).len() <= items.len(),
    decreases items.len(),
{
    if items.len() > 0 {
        let shorter = items.drop_last();
        lemma_without(shorter, item);
        let rest = without(shorter, item);
        let all = without(items, item);
        assert forall|other: A| all.contains(other) <==> items.contains(other) && other != item by {
            if items.contains(other) {
                let i = choose|i: int| 0 <= i < items.len() && items[i] == other;
                if i < shorter.len() {
                    assert(shorter[i] == other);
                    assert(shorter.contains(other));
                }
            }
            if shorter.contains(other) {
                let i = choose|i: int| 0 <= i < shorter.len() && shorter[i] == other;
                assert(items[i] == other);
            }
            if items.last() != item {
                assert(all == rest.push(items.last()));
                if rest.contains(other) {
                    let i = choose|i: int| 0 <= i < rest.len() && rest[i] == other;
                    assert(all[i] == other);
                }
                if other == items.last() {
                    assert(all[rest.len() as int] == other);
                    assert(items[items.len() - 1] == other);
                }
                if all.contains(other) {
                    let i = choose|i: int| 0 <= i < all.len() && all[i] == other;
                    if i < rest.len() {
                        assert(rest[i] == other);
                    }
                }
            }
        }
        if items.no_duplicates() {
            assert(shorter.no_duplicates());
            if items.last() != item {
                assert(!rest.contains(items.last())) by {
                    if shorter.contains(items.last()) {
                        let i = choose|i: int| 0 <= i < shorter.len() && shorter[i] == items.last();
                        assert(items[i] == items[items.len() - 1]);
                    }
                }
                assert forall|i: int, j: int|
                    0 <= i < all.len() && 0 <= j < all.len() && i != j implies all[i] != all[j] by {
                    if i < rest.len() {
                        assert(rest.contains(all[i]));
                    }
                    if j < rest.len() {
                        assert(rest.contains(all[j]));
                    }
                }
            }
        }
    }
}

fn remove_plant_id(plant_ids: &mut Vec<PlantId>, plant_id: PlantId)
    ensures
        final(plant_ids)@ == without(old(plant_ids)@, plant_id),
{
    let mut kept: Vec<PlantId> = Vec::new();
    let mut index: usize = 0;
    assert(plant_ids@.take(0) =~= Seq::<PlantId>::empty());
    while index < plant_ids.len()
        invariant
            index <= plant_ids@.len(),
            kept@ == without(plant_ids@.take(index as int), plant_id),
        decreases plant_ids@.len() - index,
    {
        let id = plant_ids[index];
        assert(plant_ids@.take(index + 1).drop_last() =~= plant_ids@.take(index as int));
        if id != plant_id {
            kept.push(id);
        }
        index = index + 1;
    }
    assert(plant_ids@.take(index as int) =~= plant_ids@);
    *plant_ids = kept;
}

fn remove_genome_id(genome_ids: &mut Vec<GenomeId>, genome_id: GenomeId)
    ensures
        final(genome_ids)@ == without(old(genome_ids)@, genome_id),
{
    let mut kept: Vec<GenomeId> = Vec::new();
    let mut index: usize = 0;
    assert(genome_ids@.take(0) =~= Seq::<GenomeId>::empty());
    while index < genome_ids.len()
        invariant
            index <= genome_ids@.len(),
            kept@ == without(genome_ids@.take(index as int), genome_id),
        decreases genome_ids@.len() - index,
    {
        let id = genome_ids[index];
        assert(genome_ids@.take(index + 1).drop_last() =~= genome_ids@.take(index as int));
        if id != genome_id {
            kept.push(id);
        }
        index = index + 1;
    }
    assert(genome_ids@.take(index as int) =~= genome_ids@);
    *genome_ids = kept;
}

/// The places in the registry that the handles `genome_ids` name.
pub open spec fn places_of(genome_ids: Seq<GenomeId>) -> Seq<usize> {
    genome_ids.map_values(|id: GenomeId| id.0)
}

/// All organisms and genomes, living and dead, and the handles of those that live.
#[derive(Debug, Clone)]
pub struct Organisms<T> {
    genomes: Genomes<T>,
    active_genomes: Vec<GenomeId>,
    plants: Plants,
    active_plants: Vec<PlantId>,
}

impl<T: Copy> Default for Organisms<T> {
    fn default() -> (organisms: Self)
        ensures
            organisms.plants().len() == 0,
            organisms.genomes().len() == 0,
            forall|x_size: usize, y_size: usize|
                x_size * y_size <= usize::MAX ==> #[trigger] organisms.wf(x_size, y_size),
    {
        Organisms {
            genomes: Genomes::default(),
            active_genomes: Vec::new(),
            plants: Plants::default(),
            active_plants: Vec::new(),
        }
    }
}

impl<T: Copy> Organisms<T> {
    /// The records of all organisms.
    pub closed spec fn plants(&self) -> Seq<Either<ActivePlant, InactivePlant>> {
        self.plants@
    }

    /// The records of all genomes.
    pub closed spec fn genomes(&self) -> Seq<Either<ActiveGenome<T>, InactiveGenome<T>>> {
        self.genomes@
    }

    /// The handles of the living organisms, in the order in which they were made.
    pub closed spec fn active_plant_ids(&self) -> Seq<PlantId> {
        self.active_plants@
    }

    /// The handles of the active genomes, in the order in which they were made.
    pub closed spec fn active_genome_ids(&self) -> Seq<GenomeId> {
        self.active_genomes@
    }

    /// The organism `plant_id` lives.
    pub open spec fn living(&self, plant_id: PlantId) -> bool {
        plant_id.0 < self.plants().len() && self.plants()[plant_id.0 as int] is Living
    }

    /// The cells of the living organism `plant_id`.
    pub open spec fn cells(&self, plant_id: PlantId) -> Set<usize> {
        self.plants()[plant_id.0 as int]->Living_0.cells()
    }

    /// The genome `genome_id` is active.
    pub open spec fn active(&self, genome_id: GenomeId) -> bool {
        genome_id.0 < self.genomes().len() && self.genomes()[genome_id.0 as int] is Living
    }

    /// Every record stands at the place of its handle; a living organism
    /// keeps its cells on the torus of `x_size` by `y_size` tiles and
    /// carries an active genome; an active genome counts the living
    /// organisms that carry it, and no living organism carries an archived
    /// one; and the lists of handles name what lives, each once.
    pub open spec fn wf(&self, x_size: usize, y_size: usize) -> bool {
        &&& x_size * y_size <= usize::MAX
        &&& forall|i: int|
            0 <= i < self.plants().len() ==> match #[trigger] self.plants()[i] {
                Either::Living(plant) => plant.spec_id() == PlantId(i as usize) && plant.wf(
                    x_size,
                    y_size,
                ) && self.active(plant.spec_genome_id()),
                Either::Dead(plant) => plant.id == PlantId(i as usize),
            }
        &&& forall|i: int|
            0 <= i < self.genomes().len() ==> match #[trigger] self.genomes()[i] {
                Either::Living(genome) => genome.id == GenomeId(i as usize) && genome.num_plants
                    == carriers(self.plants(), GenomeId(i as usize)),
                Either::Dead(genome) => genome.id == GenomeId(i as usize),
            }
        &&& self.active_plant_ids().no_duplicates()
        &&& forall|plant_id: PlantId| #[trigger]
            self.active_plant_ids().contains(plant_id) <==> self.living(plant_id)
        &&& self.active_genome_ids().no_duplicates()
        &&& forall|genome_id: GenomeId| #[trigger]
            self.active_genome_ids().contains(genome_id) <==> self.active(genome_id)
    }

    /// The handles of the living organisms, in the order in which they were made.
    pub fn active_plants(&self) -> (plant_ids: &Vec<PlantId>)
        ensures
            plant_ids@ == self.active_plant_ids(),
    {
        &self.active_plants
    }

    /// The handles of the active genomes, in the order in which they were made.
    pub fn active_genomes(&self) -> (genome_ids: &Vec<GenomeId>)
        ensures
            genome_ids@ == self.active_genome_ids(),
    {
        &self.active_genomes
    }

    /// The number of organisms, living and dead.
    pub fn plant_count(&self) -> (count: usize)
        ensures
            count == self.plants().len(),
    {
        self.plants.len()
    }

    /// The number of genomes, active and archived.
    pub fn genome_count(&self) -> (count: usize)
        ensures
            count == self.genomes().len(),
    {
        self.genomes.len()
    }

    /// The record of the organism `plant_id`, living or dead.
    pub fn plant_record(&self, plant_id: PlantId) -> (plant: &Either<ActivePlant, InactivePlant>)
        requires
            plant_id.0 < self.plants().len(),
        ensures
            *plant == self.plants()[plant_id.0 as int],
    {
        self.plants.get(plant_id)
    }

    /// The record of the genome `genome_id`, active or archived.
    pub fn genome_record(&self, genome_id: GenomeId) -> (genome: &Either<
        ActiveGenome<T>,
        InactiveGenome<T>,
    >)
        requires
            genome_id.0 < self.genomes().len(),
        ensures
            *genome == self.genomes()[genome_id.0 as int],
    {
        self.genomes.get(genome_id)
    }

    /// The living organism `plant_id`.
    pub fn plant(&self, plant_id: PlantId) -> (plant: &ActivePlant)
        requires
            self.living(plant_id),
        ensures
            self.plants()[plant_id.0 as int] == Either::<ActivePlant, InactivePlant>::Living(*plant),
    {
        match self.plants.get(plant_id) {
            Either::Living(plant) => plant,
            Either::Dead(_) => vstd::pervasive::unreached(),
        }
    }

    /// The active genome `genome_id`.
    pub fn genome(&self, genome_id: GenomeId) -> (genome: &ActiveGenome<T>)
        requires
            self.active(genome_id),
        ensures
            self.genomes()[genome_id.0 as int] == Either::<
                ActiveGenome<T>,
                InactiveGenome<T>,
            >::Living(*genome),
    {
        match self.genomes.get(genome_id) {
            Either::Living(genome) => genome,
            Either::Dead(_) => vstd::pervasive::unreached(),
        }
    }

    /// The handles of all records fit the machine.
    pub proof fn lemma_counts_fit(&self)
        ensures
            self.plants().len() <= usize::MAX,
            self.genomes().len() <= usize::MAX,
    {
        assert(self.plants.0.len() == self.plants.0@.len());
        assert(self.genomes.0.len() == self.genomes.0@.len());
    }

    /// The registry is well formed on some torus.
    pub open spec fn inv(&self) -> bool {
        exists|x_size: usize, y_size: usize| self.wf(x_size, y_size)
    }

    /// Registers `genome` as an active genome that no organism carries yet.
    pub fn add_genome(
        &mut self,
        genome: GenomeKind<T>,
        parent_genome_id: Option<GenomeId>,
        round: usize,
    ) -> (id: GenomeId)
        requires
            old(self).inv(),
        ensures
            id == GenomeId(old(self).genomes().len() as usize),
            final(self).genomes() == old(self).genomes().push(
                Either::Living(
                    ActiveGenome {
                        id,
                        genome,
                        num_plants: 0,
                        max_yield: 0,
                        created_at: round,
                        parent_genome_id,
                    },
                ),
            ),
            final(self).plants() == old(self).plants(),
            final(self).active_plant_ids() == old(self).active_plant_ids(),
            final(self).active_genome_ids() == old(self).active_genome_ids().push(id),
            forall|x_size: usize, y_size: usize| #[trigger]
                old(self).wf(x_size, y_size) ==> final(self).wf(x_size, y_size),
    {
        let id = GenomeId::from(self.genomes.len());
        let active_genome = ActiveGenome::new(id, genome, parent_genome_id, round);
        let ghost listed = self.active_genomes@;
        self.genomes.push(Either::Living(active_genome));
        self.active_genomes.push(id);
        proof {
            let (xs0, ys0) = choose|x_size: usize, y_size: usize| old(self).wf(x_size, y_size);
            assert(old(self).wf(xs0, ys0));
            assert(old(self).active_genome_ids().contains(id) <==> old(self).active(id));
            assert(!listed.contains(id));
            assert forall|i: int| 0 <= i < old(self).plants().len() implies carried(
                #[trigger] old(self).plants()[i],
            ) != Some(id) by {}
            lemma_carriers_none(old(self).plants(), id);
            assert forall|genome_id: GenomeId|
                self.active_genomes@.contains(genome_id) <==> listed.contains(genome_id) || genome_id
                    == id by {
                if listed.contains(genome_id) {
                    let i = choose|i: int| 0 <= i < listed.len() && listed[i] == genome_id;
                    assert(self.active_genomes@[i] == genome_id);
                }
                if genome_id == id {
                    assert(self.active_genomes@[listed.len() as int] == id);
                }
            }
            assert forall|x_size: usize, y_size: usize| #[trigger]
                old(self).wf(x_size, y_size) implies self.wf(x_size, y_size) by {
                assert forall|i: int| 0 <= i < self.genomes().len() implies match #[trigger] self.genomes()[i] {
                    Either::Living(genome) => genome.id == GenomeId(i as usize)
                        && genome.num_plants == carriers(self.plants(), GenomeId(i as usize)),
                    Either::Dead(genome) => genome.id == GenomeId(i as usize),
                } by {
                    if i < old(self).genomes().len() {
                        assert(self.genomes()[i] == old(self).genomes()[i]);
                    }
                }
                assert forall|i: int| 0 <= i < self.plants().len() implies match #[trigger] self.plants()[i] {
                    Either::Living(plant) => plant.spec_id() == PlantId(i as usize) && plant.wf(
                        x_size,
                        y_size,
                    ) && self.active(plant.spec_genome_id()),
                    Either::Dead(plant) => plant.id == PlantId(i as usize),
                } by {
                    if let Either::Living(plant) = self.plants()[i] {
                        assert(old(self).active(plant.spec_genome_id()));
                        assert(self.genomes()[plant.spec_genome_id().0 as int] == old(self).genomes()[plant.spec_genome_id().0 as int]);
                    }
                }
                assert forall|genome_id: GenomeId| #[trigger]
                    self.active_genome_ids().contains(genome_id) <==> self.active(genome_id) by {
                    if genome_id.0 < old(self).genomes().len() {
                        assert(self.genomes()[genome_id.0 as int] == old(self).genomes()[genome_id.0 as int]);
                        assert(old(self).active_genome_ids().contains(genome_id) <==> old(self).active(genome_id));
                    } else {
                        assert(!old(self).active(genome_id));
                        assert(old(self).active_genome_ids().contains(genome_id) <==> old(self).active(genome_id));
                        assert(self.active_genomes@.contains(genome_id) <==> listed.contains(
                            genome_id,
                        ) || genome_id == id);
                        if genome_id == id {
                            assert(self.genomes()[id.0 as int] is Living);
                        } else {
                            assert(genome_id.0 != id.0);
                        }
                    }
                }
                assert(self.active_genomes@.no_duplicates()) by {
                    assert forall|i: int, j: int|
                        0 <= i < self.active_genomes@.len() && 0 <= j < self.active_genomes@.len()
                            && i != j implies self.active_genomes@[i] != self.active_genomes@[j] by {
                        if i < listed.len() {
                            assert(listed.contains(self.active_genomes@[i]));
                        }
                        if j < listed.len() {
                            assert(listed.contains(self.active_genomes@[j]));
                        }
                    }
                }
            }
        }
        id
    }

    /// The record of the active genome `genome_id` with the largest yield
    /// raised to `energy_yield` if that is more.
    pub open spec fn with_yield(&self, genome_id: GenomeId, energy_yield: usize) -> Either<
        ActiveGenome<T>,
        InactiveGenome<T>,
    > {
        let genome = self.genomes()[genome_id.0 as int]->Living_0;
        Either::Living(
            ActiveGenome {
                max_yield: if energy_yield > genome.max_yield {
                    energy_yield
                } else {
                    genome.max_yield
                },
                ..genome
            },
        )
    }

    /// The record of the active genome `genome_id` with the number of its
    /// carriers set to `num_plants`.
    pub open spec fn with_carriers(&self, genome_id: GenomeId, num_plants: usize) -> Either<
        ActiveGenome<T>,
        InactiveGenome<T>,
    > {
        let genome = self.genomes()[genome_id.0 as int]->Living_0;
        Either::Living(ActiveGenome { num_plants, ..genome })
    }

    /// The record of the genome `genome_id`, archived in the round `round`.
    pub open spec fn archived(&self, genome_id: GenomeId, round: usize) -> Either<
        ActiveGenome<T>,
        InactiveGenome<T>,
    > {
        let genome = self.genomes()[genome_id.0 as int]->Living_0;
        Either::Dead(
            InactiveGenome {
                id: genome.id,
                genome: genome.genome,
                max_yield: genome.max_yield,
                created_at: genome.created_at,
                died_at: round,
                parent_genome_id: genome.parent_genome_id,
            },
        )
    }

    /// Nothing but the record of the organism `plant_id` differs between
    /// `self` and `other`, and that organism lives in both and carries the
    /// same genome.
    pub open spec fn same_but_plant(&self, other: &Self, plant_id: PlantId) -> bool {
        &&& other.plants().len() == self.plants().len()
        &&& forall|j: int|
            0 <= j < self.plants().len() && j != plant_id.0 ==> #[trigger] other.plants()[j]
                == self.plants()[j]
        &&& other.living(plant_id)
        &&& self.living(plant_id)
        &&& other.plants()[plant_id.0 as int]->Living_0.spec_id() == self.plants()[plant_id.0 as int]->Living_0.spec_id()
        &&& other.plants()[plant_id.0 as int]->Living_0.spec_genome_id()
            == self.plants()[plant_id.0 as int]->Living_0.spec_genome_id()
        &&& other.active_plant_ids() == self.active_plant_ids()
        &&& other.active_genome_ids() == self.active_genome_ids()
    }

    /// A registry stays well formed when the cells of one organism change
    /// and the records of the genomes keep their places, states and counts.
    proof fn lemma_wf_kept(&self, other: &Self, plant_id: PlantId, x_size: usize, y_size: usize)
        requires
            self.wf(x_size, y_size),
            self.same_but_plant(other, plant_id),
            other.plants()[plant_id.0 as int]->Living_0.wf(x_size, y_size),
            other.genomes().len() == self.genomes().len(),
            forall|g: int|
                0 <= g < self.genomes().len() ==> match #[trigger] self.genomes()[g] {
                    Either::Living(genome) => other.genomes()[g] is Living
                        && other.genomes()[g]->Living_0.id == genome.id
                        && other.genomes()[g]->Living_0.num_plants == genome.num_plants,
                    Either::Dead(genome) => other.genomes()[g] is Dead
                        && other.genomes()[g]->Dead_0.id == genome.id,
                },
        ensures
            other.wf(x_size, y_size),
    {
        assert forall|genome_id: GenomeId|
            carriers(other.plants(), genome_id) == carriers(self.plants(), genome_id) by {
            lemma_carriers_update(
                self.plants(),
                plant_id.0 as int,
                other.plants()[plant_id.0 as int],
                genome_id,
            );
            assert(other.plants() =~= self.plants().update(
                plant_id.0 as int,
                other.plants()[plant_id.0 as int],
            ));
        }
        assert forall|i: int| 0 <= i < other.plants().len() implies match #[trigger] other.plants()[i] {
            Either::Living(plant) => plant.spec_id() == PlantId(i as usize) && plant.wf(
                x_size,
                y_size,
            ) && other.active(plant.spec_genome_id()),
            Either::Dead(plant) => plant.id == PlantId(i as usize),
        } by {
            let before = self.plants()[i];
            if let Either::Living(plant) = before {
                assert(self.active(plant.spec_genome_id()));
                assert(self.genomes()[plant.spec_genome_id().0 as int] is Living);
            }
        }
        assert forall|i: int| 0 <= i < other.genomes().len() implies match #[trigger] other.genomes()[i] {
            Either::Living(genome) => genome.id == GenomeId(i as usize) && genome.num_plants
                == carriers(other.plants(), GenomeId(i as usize)),
            Either::Dead(genome) => genome.id == GenomeId(i as usize),
        } by {
            let before = self.genomes()[i];
            assert(carriers(other.plants(), GenomeId(i as usize)) == carriers(
                self.plants(),
                GenomeId(i as usize),
            ));
        }
        assert forall|id: PlantId| #[trigger]
            other.active_plant_ids().contains(id) <==> other.living(id) by {
            assert(self.active_plant_ids().contains(id) <==> self.living(id));
            if id.0 < self.plants().len() && id.0 != plant_id.0 {
                assert(other.plants()[id.0 as int] == self.plants()[id.0 as int]);
            }
        }
        assert forall|id: GenomeId| #[trigger]
            other.active_genome_ids().contains(id) <==> other.active(id) by {
            assert(self.active_genome_ids().contains(id) <==> self.active(id));
            if id.0 < self.genomes().len() {
                let before = self.genomes()[id.0 as int];
            }
        }
    }

    /// Takes the tile `tile_id`, on which `grid` already shows a cell of
    /// the organism `plant_id`, among the cells of that organism, and keeps
    /// the energy that the organism now draws if its genome never drew more.
    pub fn occupy(&mut self, plant_id: PlantId, tile_id: TileId, grid: &Grid)
        requires
            old(self).wf(grid.spec_x_size(), grid.spec_y_size()),
            grid.wf(),
            old(self).living(plant_id),
            tile_id.0 < grid.spec_size(),
            !old(self).cells(plant_id).contains(tile_id.0),
            old(self).plants()[plant_id.0 as int]->Living_0.rooted(grid),
            grid.entities()[tile_id.0 as int] is Cell,
            4 * grid.spec_size() <= usize::MAX,
        ensures
            final(self).wf(grid.spec_x_size(), grid.spec_y_size()),
            old(self).same_but_plant(final(self), plant_id),
            final(self).cells(plant_id) == old(self).cells(plant_id).insert(tile_id.0),
            old(self).plants()[plant_id.0 as int]->Living_0.is_connected(
                grid.spec_x_size(),
                grid.spec_y_size(),
            ) && (old(self).cells(plant_id) =~= Set::<usize>::empty() || torus_surface(
                old(self).cells(plant_id),
                grid.spec_x_size() as int,
                grid.spec_y_size() as int,
            ).contains_key(tile_id.0)) ==> final(self).plants()[plant_id.0 as int]->Living_0.is_connected(
                grid.spec_x_size(),
                grid.spec_y_size(),
            ),
            final(self).genomes() == old(self).genomes().update(
                old(self).plants()[plant_id.0 as int]->Living_0.spec_genome_id().0 as int,
                old(self).with_yield(
                    old(self).plants()[plant_id.0 as int]->Living_0.spec_genome_id(),
                    energy_yield_of(
                        final(self).cells(plant_id),
                        grid.entities(),
                        grid.spec_x_size() as int,
                        grid.spec_y_size() as int,
                    ) as usize,
                ),
            ),
    {
        let active_plant = self.plants.0[plant_id.0].as_mut().unwrap_living();
        let energy_yield = active_plant.occupy(tile_id, grid);
        let genome_id = active_plant.genome_id();
        let genome = self.genomes.0[genome_id.0].as_mut().unwrap_living();
        genome.set_max_yield(energy_yield);
        proof {
            assert(self.genomes() =~= old(self).genomes().update(
                genome_id.0 as int,
                old(self).with_yield(genome_id, energy_yield),
            ));
            old(self).lemma_wf_kept(self, plant_id, grid.spec_x_size(), grid.spec_y_size());
        }
    }

    /// Gives up the cell `tile_id` of the organism `plant_id`, and, if that
    /// tears the organism apart, all its cells but those of a largest part,
    /// which are returned.
    pub fn abandon(&mut self, plant_id: PlantId, tile_id: TileId, grid: &Grid) -> (dead_cells: Vec<
        TileId,
    >)
        requires
            old(self).wf(grid.spec_x_size(), grid.spec_y_size()),
            grid.wf(),
            old(self).living(plant_id),
            old(self).cells(plant_id).contains(tile_id.0),
        ensures
            final(self).wf(grid.spec_x_size(), grid.spec_y_size()),
            old(self).same_but_plant(final(self), plant_id),
            final(self).genomes() == old(self).genomes(),
            dead_cells@.no_duplicates(),
            forall|t: TileId| #[trigger]
                dead_cells@.contains(t) ==> old(self).cells(plant_id).contains(t.0) && t != tile_id,
            forall|cell: usize|
                final(self).cells(plant_id).contains(cell) <==> old(self).cells(plant_id).contains(
                    cell,
                ) && cell != tile_id.0 && !dead_cells@.contains(TileId(cell)),
            ActivePlant::abandoned(
                old(self).cells(plant_id),
                tile_id.0,
                final(self).cells(plant_id),
                grid.spec_x_size() as int,
                grid.spec_y_size() as int,
            ),
            old(self).plants()[plant_id.0 as int]->Living_0.is_connected(
                grid.spec_x_size(),
                grid.spec_y_size(),
            ) ==> final(self).plants()[plant_id.0 as int]->Living_0.is_connected(
                grid.spec_x_size(),
                grid.spec_y_size(),
            ),
    {
        let active_plant = self.plants.0[plant_id.0].as_mut().unwrap_living();
        let dead_cells = active_plant.abandon(tile_id, grid);
        proof {
            old(self).lemma_wf_kept(self, plant_id, grid.spec_x_size(), grid.spec_y_size());
        }
        dead_cells
    }

    /// Registers a living organism without cells that carries the active
    /// genome `genome_id`.
    pub fn add_plant(&mut self, genome_id: GenomeId) -> (id: PlantId)
        requires
            old(self).inv(),
            old(self).active(genome_id),
            old(self).plants().len() < usize::MAX,
        ensures
            id == PlantId(old(self).plants().len() as usize),
            final(self).plants().len() == old(self).plants().len() + 1,
            forall|j: int|
                0 <= j < old(self).plants().len() ==> #[trigger] final(self).plants()[j] == old(self).plants()[j],
            final(self).living(id),
            final(self).cells(id) == Set::<usize>::empty(),
            final(self).plants()[id.0 as int]->Living_0.spec_genome_id() == genome_id,
            final(self).genomes() == old(self).genomes().update(
                genome_id.0 as int,
                old(self).with_carriers(
                    genome_id,
                    (old(self).genomes()[genome_id.0 as int]->Living_0.num_plants + 1) as usize,
                ),
            ),
            final(self).active_plant_ids() == old(self).active_plant_ids().push(id),
            final(self).active_genome_ids() == old(self).active_genome_ids(),
            forall|x_size: usize, y_size: usize| #[trigger]
                old(self).wf(x_size, y_size) ==> final(self).wf(x_size, y_size),
    {
        proof {
            let (xs0, ys0) = choose|x_size: usize, y_size: usize| old(self).wf(x_size, y_size);
            assert(old(self).wf(xs0, ys0));
            assert(old(self).genomes()[genome_id.0 as int] is Living);
            lemma_carriers_bound(old(self).plants(), genome_id);
        }
        self.increment_genome(genome_id);

        let id = PlantId::from(self.plants.len());
        let active_plant = ActivePlant::new(id, genome_id);
        let ghost listed = self.active_plants@;
        let ghost before = old(self).plants();
        self.plants.push(Either::Living(active_plant));
        self.active_plants.push(id);
        proof {
            let (xs0, ys0) = choose|x_size: usize, y_size: usize| old(self).wf(x_size, y_size);
            assert(old(self).active_plant_ids().contains(id) <==> old(self).living(id));
            assert(!listed.contains(id));
            assert forall|plant_id: PlantId|
                self.active_plants@.contains(plant_id) <==> listed.contains(plant_id) || plant_id
                    == id by {
                if listed.contains(plant_id) {
                    let i = choose|i: int| 0 <= i < listed.len() && listed[i] == plant_id;
                    assert(self.active_plants@[i] == plant_id);
                }
                if plant_id == id {
                    assert(self.active_plants@[listed.len() as int] == id);
                }
            }
            assert(self.plants().drop_last() =~= before);
            assert forall|x_size: usize, y_size: usize| #[trigger]
                old(self).wf(x_size, y_size) implies self.wf(x_size, y_size) by {
                assert forall|i: int| 0 <= i < self.plants().len() implies match #[trigger] self.plants()[i] {
                    Either::Living(plant) => plant.spec_id() == PlantId(i as usize) && plant.wf(
                        x_size,
                        y_size,
                    ) && self.active(plant.spec_genome_id()),
                    Either::Dead(plant) => plant.id == PlantId(i as usize),
                } by {
                    if i < before.len() {
                        assert(self.plants()[i] == before[i]);
                        if let Either::Living(plant) = before[i] {
                            assert(old(self).active(plant.spec_genome_id()));
                        }
                    }
                }
                assert forall|i: int| 0 <= i < self.genomes().len() implies match #[trigger] self.genomes()[i] {
                    Either::Living(genome) => genome.id == GenomeId(i as usize)
                        && genome.num_plants == carriers(self.plants(), GenomeId(i as usize)),
                    Either::Dead(genome) => genome.id == GenomeId(i as usize),
                } by {
                    let earlier = old(self).genomes()[i];
                    old(self).lemma_counts_fit();
                    assert(GenomeId(i as usize) == genome_id <==> i == genome_id.0);
                }
                assert forall|plant_id: PlantId| #[trigger]
                    self.active_plant_ids().contains(plant_id) <==> self.living(plant_id) by {
                    assert(old(self).active_plant_ids().contains(plant_id) <==> old(self).living(
                        plant_id,
                    ));
                    if plant_id.0 < before.len() {
                        assert(self.plants()[plant_id.0 as int] == before[plant_id.0 as int]);
                        assert(plant_id != id);
                    } else if plant_id.0 == before.len() {
                        assert(plant_id == id);
                    } else {
                        assert(plant_id != id);
                    }
                }
                assert(self.active_plants@.no_duplicates()) by {
                    assert forall|i: int, j: int|
                        0 <= i < self.active_plants@.len() && 0 <= j < self.active_plants@.len()
                            && i != j implies self.active_plants@[i] != self.active_plants@[j] by {
                        if i < listed.len() {
                            assert(listed.contains(self.active_plants@[i]));
                        }
                        if j < listed.len() {
                            assert(listed.contains(self.active_plants@[j]));
                        }
                    }
                }
                assert forall|id: GenomeId| #[trigger]
                    self.active_genome_ids().contains(id) <==> self.active(id) by {
                    assert(old(self).active_genome_ids().contains(id) <==> old(self).active(id));
                    if id.0 < old(self).genomes().len() {
                        let earlier = old(self).genomes()[id.0 as int];
                    }
                }
            }
        }
        id
    }

    /// Registers `genome` as a genome descended from the genome `genome_id`
    /// in the round `round`, and a living organism without cells that
    /// carries it.
    pub fn add_mutated_plant(&mut self, genome_id: GenomeId, round: usize, genome: GenomeKind<T>) -> (id:
        PlantId)
        requires
            old(self).inv(),
            old(self).plants().len() < usize::MAX,
        ensures
            id == PlantId(old(self).plants().len() as usize),
            final(self).plants().len() == old(self).plants().len() + 1,
            forall|j: int|
                0 <= j < old(self).plants().len() ==> #[trigger] final(self).plants()[j] == old(self).plants()[j],
            final(self).living(id),
            final(self).cells(id) == Set::<usize>::empty(),
            final(self).plants()[id.0 as int]->Living_0.spec_genome_id() == GenomeId(
                old(self).genomes().len() as usize,
            ),
            final(self).genomes() == old(self).genomes().push(
                Either::Living(
                    ActiveGenome {
                        id: GenomeId(old(self).genomes().len() as usize),
                        genome,
                        num_plants: 1,
                        max_yield: 0,
                        created_at: round,
                        parent_genome_id: Some(genome_id),
                    },
                ),
            ),
            final(self).active_plant_ids() == old(self).active_plant_ids().push(id),
            final(self).active_genome_ids() == old(self).active_genome_ids().push(
                GenomeId(old(self).genomes().len() as usize),
            ),
            forall|x_size: usize, y_size: usize| #[trigger]
                old(self).wf(x_size, y_size) ==> final(self).wf(x_size, y_size),
    {
        let new_genome_id = self.add_genome(genome, Some(genome_id), round);
        let ghost between = *self;
        proof {
            let (xs0, ys0) = choose|x_size: usize, y_size: usize| old(self).wf(x_size, y_size);
            assert(self.wf(xs0, ys0));
            old(self).lemma_counts_fit();
            assert(self.genomes()[new_genome_id.0 as int] is Living);
        }
        let id = self.add_plant(new_genome_id);
        proof {
            assert(between.genomes()[new_genome_id.0 as int]->Living_0.num_plants == 0);
            assert(self.genomes() =~= old(self).genomes().push(
                Either::Living(
                    ActiveGenome {
                        id: new_genome_id,
                        genome,
                        num_plants: 1,
                        max_yield: 0,
                        created_at: round,
                        parent_genome_id: Some(genome_id),
                    },
                ),
            ));
            assert forall|x_size: usize, y_size: usize| #[trigger]
                old(self).wf(x_size, y_size) implies self.wf(x_size, y_size) by {
                assert(between.wf(x_size, y_size));
            }
        }
        id
    }

    fn increment_genome(&mut self, genome_id: GenomeId)
        requires
            old(self).active(genome_id),
            old(self).genomes()[genome_id.0 as int]->Living_0.num_plants < usize::MAX,
        ensures
            final(self).plants == old(self).plants,
            final(self).active_plants == old(self).active_plants,
            final(self).active_genomes == old(self).active_genomes,
            final(self).genomes() == old(self).genomes().update(
                genome_id.0 as int,
                old(self).with_carriers(
                    genome_id,
                    (old(self).genomes()[genome_id.0 as int]->Living_0.num_plants + 1) as usize,
                ),
            ),
    {
        self.genomes.0[genome_id.0].as_mut().unwrap_living().increment();
        assert(self.genomes() =~= old(self).genomes().update(
            genome_id.0 as int,
            old(self).with_carriers(
                genome_id,
                (old(self).genomes()[genome_id.0 as int]->Living_0.num_plants + 1) as usize,
            ),
        ));
    }

    /// Archives the living organism `plant_id`, and its genome too if no
    /// other living organism carries it, in the round `round`.
    pub fn remove_plant(&mut self, plant_id: PlantId, round: usize)
        requires
            old(self).inv(),
            old(self).living(plant_id),
        ensures
            final(self).plants() == old(self).plants().update(
                plant_id.0 as int,
                Either::Dead(
                    InactivePlant {
                        id: plant_id,
                        genome_id: old(self).plants()[plant_id.0 as int]->Living_0.spec_genome_id(),
                    },
                ),
            ),
            final(self).genomes() == old(self).genomes().update(
                old(self).plants()[plant_id.0 as int]->Living_0.spec_genome_id().0 as int,
                old(self).after_loss(
                    old(self).plants()[plant_id.0 as int]->Living_0.spec_genome_id(),
                    round,
                ),
            ),
            final(self).active_plant_ids() == without(old(self).active_plant_ids(), plant_id),
            final(self).active_genome_ids() == if old(self).after_loss(
                old(self).plants()[plant_id.0 as int]->Living_0.spec_genome_id(),
                round,
            ) is Dead {
                without(
                    old(self).active_genome_ids(),
                    old(self).plants()[plant_id.0 as int]->Living_0.spec_genome_id(),
                )
            } else {
                old(self).active_genome_ids()
            },
            forall|x_size: usize, y_size: usize| #[trigger]
                old(self).wf(x_size, y_size) ==> final(self).wf(x_size, y_size),
    {
        let active_plant = self.plant(plant_id);
        let genome_id = active_plant.genome_id();
        let ghost before = old(self).plants();
        let ghost records = old(self).genomes();
        proof {
            let (xs0, ys0) = choose|x_size: usize, y_size: usize| old(self).wf(x_size, y_size);
            assert(old(self).wf(xs0, ys0));
            assert(old(self).active(genome_id));
            lemma_carriers_positive(before, plant_id.0 as int, genome_id);
            old(self).lemma_counts_fit();
        }
        self.decrement_genome(genome_id, round);

        remove_plant_id(&mut self.active_plants, plant_id);
        self.plants.0.set(plant_id.0, Either::Dead(InactivePlant::new(plant_id, genome_id)));
        proof {
            let gone = Either::<ActivePlant, InactivePlant>::Dead(
                InactivePlant { id: plant_id, genome_id },
            );
            assert(self.plants() =~= before.update(plant_id.0 as int, gone));
            lemma_without(old(self).active_plant_ids(), plant_id);
            lemma_without(old(self).active_genome_ids(), genome_id);
            assert forall|x_size: usize, y_size: usize| #[trigger]
                old(self).wf(x_size, y_size) implies self.wf(x_size, y_size) by {
                assert forall|g: GenomeId|
                    carriers(self.plants(), g) + (if g == genome_id {
                        1nat
                    } else {
                        0nat
                    }) == carriers(before, g) by {
                    lemma_carriers_update(before, plant_id.0 as int, gone, g);
                }
                assert forall|i: int| 0 <= i < self.plants().len() implies match #[trigger] self.plants()[i] {
                    Either::Living(plant) => plant.spec_id() == PlantId(i as usize) && plant.wf(
                        x_size,
                        y_size,
                    ) && self.active(plant.spec_genome_id()),
                    Either::Dead(plant) => plant.id == PlantId(i as usize),
                } by {
                    if i != plant_id.0 {
                        assert(self.plants()[i] == before[i]);
                        if let Either::Living(plant) = before[i] {
                            assert(old(self).active(plant.spec_genome_id()));
                            if plant.spec_genome_id() == genome_id {
                                lemma_carriers_positive(self.plants(), i, genome_id);
                                assert(carriers(self.plants(), genome_id) + 1 == carriers(
                                    before,
                                    genome_id,
                                ));
                                assert(records[genome_id.0 as int] is Living);
                            } else {
                                assert(plant.spec_genome_id().0 != genome_id.0);
                            }
                        }
                    }
                }
                assert forall|i: int| 0 <= i < self.genomes().len() implies match #[trigger] self.genomes()[i] {
                    Either::Living(genome) => genome.id == GenomeId(i as usize)
                        && genome.num_plants == carriers(self.plants(), GenomeId(i as usize)),
                    Either::Dead(genome) => genome.id == GenomeId(i as usize),
                } by {
                    let earlier = records[i];
                    assert(GenomeId(i as usize) == genome_id <==> i == genome_id.0);
                    assert(carriers(self.plants(), GenomeId(i as usize)) + (if GenomeId(i as usize)
                        == genome_id {
                        1nat
                    } else {
                        0nat
                    }) == carriers(before, GenomeId(i as usize)));
                }
                assert forall|id: PlantId| #[trigger]
                    self.active_plant_ids().contains(id) <==> self.living(id) by {
                    assert(old(self).active_plant_ids().contains(id) <==> old(self).living(id));
                    if id.0 < before.len() && id.0 != plant_id.0 {
                        assert(self.plants()[id.0 as int] == before[id.0 as int]);
                    }
                    assert(id == plant_id <==> id.0 == plant_id.0);
                }
                assert forall|id: GenomeId| #[trigger]
                    self.active_genome_ids().contains(id) <==> self.active(id) by {
                    assert(old(self).active_genome_ids().contains(id) <==> old(self).active(id));
                    if id.0 < records.len() {
                        let earlier = records[id.0 as int];
                    }
                    assert(id == genome_id <==> id.0 == genome_id.0);
                }
            }
        }
    }

    /// The record of the genome `genome_id` once one of its carriers is
    /// gone: archived in the round `round` if that was the last, or else
    /// with one carrier less.
    pub open spec fn after_loss(&self, genome_id: GenomeId, round: usize) -> Either<
        ActiveGenome<T>,
        InactiveGenome<T>,
    > {
        let genome = self.genomes()[genome_id.0 as int]->Living_0;
        if genome.num_plants == 1 {
            Either::Dead(
                InactiveGenome {
                    id: genome.id,
                    genome: genome.genome,
                    max_yield: genome.max_yield,
                    created_at: genome.created_at,
                    died_at: round,
                    parent_genome_id: genome.parent_genome_id,
                },
            )
        } else {
            Either::Living(ActiveGenome { num_plants: (genome.num_plants - 1) as usize, ..genome })
        }
    }

    fn decrement_genome(&mut self, genome_id: GenomeId, round: usize)
        requires
            old(self).active(genome_id),
            old(self).genomes()[genome_id.0 as int]->Living_0.num_plants > 0,
        ensures
            final(self).plants == old(self).plants,
            final(self).active_plants == old(self).active_plants,
            final(self).genomes() == old(self).genomes().update(
                genome_id.0 as int,
                old(self).after_loss(genome_id, round),
            ),
            final(self).active_genome_ids() == if old(self).after_loss(genome_id, round) is Dead {
                without(old(self).active_genome_ids(), genome_id)
            } else {
                old(self).active_genome_ids()
            },
    {
        let genome = self.genomes.0[genome_id.0].as_mut().unwrap_living();
        let num_plants = genome.decrement();
        let ghost between = *self;
        proof {
            assert(self.genomes() =~= old(self).genomes().update(
                genome_id.0 as int,
                Either::Living(
                    ActiveGenome {
                        num_plants,
                        ..old(self).genomes()[genome_id.0 as int]->Living_0
                    },
                ),
            ));
        }
        if num_plants == 0 {
            self.remove_genome(genome_id, round);
            proof {
                assert(self.genomes() =~= old(self).genomes().update(
                    genome_id.0 as int,
                    old(self).after_loss(genome_id, round),
                ));
            }
        }
    }

    fn remove_genome(&mut self, genome_id: GenomeId, round: usize)
        requires
            old(self).active(genome_id),
        ensures
            final(self).plants == old(self).plants,
            final(self).active_plants == old(self).active_plants,
            final(self).genomes() == old(self).genomes().update(
                genome_id.0 as int,
                old(self).archived(genome_id, round),
            ),
            final(self).active_genome_ids() == without(old(self).active_genome_ids(), genome_id),
    {
        let active_genome = self.genome(genome_id);
        let genome = active_genome.genome();
        let max_yield = active_genome.max_yield();
        let created_at = active_genome.created_at();
        let parent_genome_id = active_genome.parent_genome_id();
        let record = InactiveGenome::new(
            active_genome.id,
            *genome,
            max_yield,
            created_at,
            round,
            parent_genome_id,
        );
        self.genomes.0.set(genome_id.0, Either::Dead(record));
        remove_genome_id(&mut self.active_genomes, genome_id);
        assert(self.genomes() =~= old(self).genomes().update(
            genome_id.0 as int,
            old(self).archived(genome_id, round),
        ));
    }

    /// The largest yield that each genome has had, in the order of the handles.
    pub open spec fn yields(&self) -> Seq<usize> {
        Seq::new(
            self.genomes().len(),
            |i: int|
                match self.genomes()[i] {
                    Either::Living(genome) => genome.max_yield,
                    Either::Dead(genome) => genome.max_yield,
                },
        )
    }

    /// The handles of the `n` genomes, active or archived, that have had
    /// the largest yields, or of all genomes if there are fewer; the larger
    /// yield first.
    pub fn top_genome_ids(&self, n: usize) -> (genome_ids: Vec<GenomeId>)
        ensures
            top_places(self.yields(), n, places_of(genome_ids@)),
    {
        let mut keys: Vec<usize> = Vec::new();
        let mut index: usize = 0;
        while index < self.genomes.len()
            invariant
                index <= self.genomes().len(),
                keys@ == self.yields().take(index as int),
            decreases self.genomes().len() - index,
        {
            let key = match self.genomes.get(GenomeId::from(index)) {
                Either::Living(active_genome) => active_genome.max_yield(),
                Either::Dead(inactive_genome) => inactive_genome.max_yield(),
            };
            keys.push(key);
            assert(keys@ =~= self.yields().take(index + 1));
            index = index + 1;
        }
        assert(keys@ =~= self.yields());
        let places = k_largest_places(&keys, n);
        let mut genome_ids: Vec<GenomeId> = Vec::new();
        let mut index: usize = 0;
        while index < places.len()
            invariant
                index <= places@.len(),
                genome_ids@.len() == index,
                forall|i: int| 0 <= i < index ==> #[trigger] genome_ids@[i] == GenomeId(places@[i]),
            decreases places@.len() - index,
        {
            genome_ids.push(GenomeId::from(places[index]));
            index = index + 1;
        }
        assert(places_of(genome_ids@) =~= places@);
        genome_ids
    }

    /// The records of the `n` genomes, active or archived, that have had
    /// the largest yields, or of all genomes if there are fewer; the larger
    /// yield first.
    pub fn top_genomes(&self, n: usize) -> (genomes: Vec<&Either<ActiveGenome<T>, InactiveGenome<T>>>)
        ensures
            exists|genome_ids: Seq<GenomeId>|
                #![trigger places_of(genome_ids)]
                top_places(self.yields(), n, places_of(genome_ids))
                    && genomes@.len() == genome_ids.len() && forall|i: int|
                    0 <= i < genomes@.len() ==> *#[trigger] genomes@[i] == self.genomes()[genome_ids[i].0 as int],
    {
        let genome_ids = self.top_genome_ids(n);
        let mut genomes: Vec<&Either<ActiveGenome<T>, InactiveGenome<T>>> = Vec::new();
        let mut index: usize = 0;
        while index < genome_ids.len()
            invariant
                index <= genome_ids@.len(),
                top_places(self.yields(), n, places_of(genome_ids@)),
                genomes@.len() == index,
                forall|i: int|
                    0 <= i < index ==> *#[trigger] genomes@[i] == self.genomes()[genome_ids@[i].0 as int],
            decreases genome_ids@.len() - index,
        {
            let genome_id = genome_ids[index];
            proof {
                let places = places_of(genome_ids@);
                assert(places[index as int] == genome_id.0);
                assert(places[index as int] < self.yields().len());
            }
            genomes.push(self.genomes.get(genome_id));
            index = index + 1;
        }
        genomes
    }

    /// Those tiles next to the organism `plant_id` that it may take with
    /// `points` left to spend, each with the potentials that add up to its
    /// score, in the order in which the organism keeps its surface. With no
    /// points left there are none.
    pub fn candidates(&self, plant_id: PlantId, grid: &Grid, points: usize) -> (scores: Vec<
        (TileId, Vec<T>),
    >)
        requires
            self.wf(grid.spec_x_size(), grid.spec_y_size()),
            grid.wf(),
            self.living(plant_id),
        ensures
            points == 0 ==> scores@.len() == 0,
            forall|i: int|
                0 <= i < scores@.len() ==> (#[trigger] scores@[i]).0.0 < grid.spec_size()
                    && torus_surface(
                    self.cells(plant_id),
                    grid.spec_x_size() as int,
                    grid.spec_y_size() as int,
                ).contains_key(scores@[i].0.0) && crate::genomes::doublet_genome::scorable(
                    grid.entities()[scores@[i].0.0 as int],
                    plant_id,
                    points,
                ) && scores@[i].1@ == self.genomes()[self.plants()[plant_id.0 as int]->Living_0.spec_genome_id().0 as int]->Living_0.genome.terms(
                    grid.entities(),
                    plant_id,
                    scores@[i].0.0 as int,
                    grid.spec_x_size() as int,
                    grid.spec_y_size() as int,
                ),
            forall|i: int, j: int|
                0 <= i < j < scores@.len() ==> (#[trigger] scores@[i]).0 != (#[trigger] scores@[j]).0,
            points > 0 ==> forall|tile: usize|
                #![trigger torus_surface(self.cells(plant_id), grid.spec_x_size() as int, grid.spec_y_size() as int).contains_key(tile)]
                torus_surface(
                    self.cells(plant_id),
                    grid.spec_x_size() as int,
                    grid.spec_y_size() as int,
                ).contains_key(tile) && crate::genomes::doublet_genome::scorable(
                    grid.entities()[tile as int],
                    plant_id,
                    points,
                ) ==> exists|i: int| 0 <= i < scores@.len() && (#[trigger] scores@[i]).0 == TileId(tile),
    {
        let active_plant = self.plant(plant_id);
        let available_tiles = active_plant.available_tiles();
        let genome_id = active_plant.genome_id();
        let active_genome = self.genome(genome_id);
        let ghost xs = grid.spec_x_size() as int;
        let ghost ys = grid.spec_y_size() as int;
        let ghost surface = torus_surface(self.cells(plant_id), xs, ys);
        proof {
            grid.lemma_wf_lengths();
            active_plant.lemma_wf(grid.spec_x_size(), grid.spec_y_size());
            assert forall|i: int| 0 <= i < available_tiles@.len() implies (
            #[trigger] available_tiles@[i]).0 < grid.spec_size() && surface.contains_key(
                available_tiles@[i].0,
            ) by {
                let t = available_tiles@[i];
                assert(available_tiles@.contains(t));
                assert(t == TileId(t.0));
                assert(surface.contains_key(t.0) <==> available_tiles@.contains(TileId(t.0)));
                crate::active_plant::lemma_surface_small(self.cells(plant_id), xs, ys, t.0);
            }
        }
        let scores = active_genome.candidates(grid, available_tiles.as_slice(), plant_id, points);
        proof {
            if points > 0 {
                lemma_takeable(available_tiles@, grid.entities(), plant_id, points);
                let taken = takeable(available_tiles@, grid.entities(), plant_id, points);
                assert forall|i: int| 0 <= i < scores@.len() implies (#[trigger] scores@[i]).0.0
                    < grid.spec_size() && surface.contains_key(scores@[i].0.0)
                    && crate::genomes::doublet_genome::scorable(
                    grid.entities()[scores@[i].0.0 as int],
                    plant_id,
                    points,
                ) by {
                    assert(taken[i] == scores@[i].0);
                    assert(taken.contains(taken[i]));
                    let k = choose|k: int|
                        0 <= k < available_tiles@.len() && available_tiles@[k] == taken[i];
                    assert(available_tiles@[k].0 < grid.spec_size());
                }
                assert forall|i: int, j: int| 0 <= i < j < scores@.len() implies (
                #[trigger] scores@[i]).0 != (#[trigger] scores@[j]).0 by {
                    assert(taken[i] == scores@[i].0);
                    assert(taken[j] == scores@[j].0);
                }
                assert forall|tile: usize|
                    #![trigger surface.contains_key(tile)]
                    surface.contains_key(tile) && crate::genomes::doublet_genome::scorable(
                        grid.entities()[tile as int],
                        plant_id,
                        points,
                    ) implies exists|i: int|
                    0 <= i < scores@.len() && (#[trigger] scores@[i]).0 == TileId(tile) by {
                    assert(surface.contains_key(tile) <==> available_tiles@.contains(TileId(tile)));
                    assert(taken.contains(TileId(tile)));
                    let i = choose|i: int| 0 <= i < taken.len() && taken[i] == TileId(tile);
                    assert(scores@[i].0 == TileId(tile));
                }
            }
        }
        scores
    }
}

/// The tiles that may be taken are those of the list on which what stands
/// allows it, and none twice if none was listed twice.
pub proof fn lemma_takeable(
    tiles: Seq<TileId>,
    entities: Seq<crate::entity::Entity>,
    plant_id: PlantId,
    points: usize,
)
    ensures
        forall|t: TileId| #[trigger]
            takeable(tiles, entities, plant_id, points).contains(t) <==> tiles.contains(t)
                && crate::genomes::doublet_genome::scorable(entities[t.0 as int], plant_id, points),
        tiles.no_duplicates() ==> takeable(tiles, entities, plant_id, points).no_duplicates(),
    decreases tiles.len(),
{
    if tiles.len() > 0 {
        let shorter = tiles.drop_last();
        lemma_takeable(shorter, entities, plant_id, points);
        let rest = takeable(shorter, entities, plant_id, points);
        let all = takeable(tiles, entities, plant_id, points);
        let last = tiles.last();
        let fits = crate::genomes::doublet_genome::scorable(entities[last.0 as int], plant_id, points);
        assert forall|t: TileId| #[trigger]
            all.contains(t) <==> tiles.contains(t) && crate::genomes::doublet_genome::scorable(
                entities[t.0 as int],
                plant_id,
                points,
            ) by {
            if tiles.contains(t) {
                let i = choose|i: int| 0 <= i < tiles.len() && tiles[i] == t;
                if i < shorter.len() {
                    assert(shorter[i] == t);
                    assert(shorter.contains(t));
                }
            }
            if shorter.contains(t) {
                let i = choose|i: int| 0 <= i < shorter.len() && shorter[i] == t;
                assert(tiles[i] == t);
            }
            if t == last {
                assert(tiles[tiles.len() - 1] == t);
            }
            if fits {
                assert(all == rest.push(last));
                if rest.contains(t) {
                    let i = choose|i: int| 0 <= i < rest.len() && rest[i] == t;
                    assert(all[i] == t);
                }
                if t == last {
                    assert(all[rest.len() as int] == t);
                }
                if all.contains(t) {
                    let i = choose|i: int| 0 <= i < all.len() && all[i] == t;
                    if i < rest.len() {
                        assert(rest[i] == t);
                    }
                }
            }
        }
        if tiles.no_duplicates() {
            assert(shorter.no_duplicates());
            if fits {
                assert(!rest.contains(last)) by {
                    if shorter.contains(last) {
                        let i = choose|i: int| 0 <= i < shorter.len() && shorter[i] == last;
                        assert(tiles[i] == tiles[tiles.len() - 1]);
                    }
                }
                assert forall|i: int, j: int|
                    0 <= i < all.len() && 0 <= j < all.len() && i != j implies all[i] != all[j] by {
                    if i < rest.len() {
                        assert(rest.contains(all[i]));
                    }
                    if j < rest.len() {
                        assert(rest.contains(all[j]));
                    }
                }
            }
        }
    }
}

} // verus!
