use crate::doublet_fn::entity_rank;
use crate::entity::GreedyEntity;
use vstd::prelude::*;

verus! {

/// The potentials of a tile together with two further tiles.
#[derive(Debug, Clone, Copy)]
pub struct TripletFn<T> {
    pub triplet_eee: T,
    pub triplet_ees: T,
    pub triplet_eeo: T,
    pub triplet_ese: T,
    pub triplet_ess: T,
    pub triplet_eso: T,
    pub triplet_eoe: T,
    pub triplet_eos: T,
    pub triplet_eoo: T,
    pub triplet_oee: T,
    pub triplet_oes: T,
    pub triplet_oeo: T,
    pub triplet_ose: T,
    pub triplet_oss: T,
    pub triplet_oso: T,
    pub triplet_ooe: T,
    pub triplet_oos: T,
    pub triplet_ooo: T,
}

/// The place of the potential for a tile seen as `entity_i`, which is no
/// cell of the organism itself, and two further tiles seen as `entity_j`
/// and `entity_k`.
pub open spec fn triplet_index(
    entity_i: GreedyEntity,
    entity_j: GreedyEntity,
    entity_k: GreedyEntity,
) -> int {
    9 * (entity_rank(entity_i) / 2) + 3 * entity_rank(entity_j) + entity_rank(entity_k)
}

impl<T> View for TripletFn<T> {
    type V = Seq<T>;

    /// The potentials in the order eee, ees, eeo, ese, and so on to ooo,
    /// where e is an empty tile, s a cell of the organism itself and o a
    /// cell of another.
    open spec fn view(&self) -> Seq<T> {
        seq![
            self.triplet_eee,
            self.triplet_ees,
            self.triplet_eeo,
            self.triplet_ese,
            self.triplet_ess,
            self.triplet_eso,
            self.triplet_eoe,
            self.triplet_eos,
            self.triplet_eoo,
            self.triplet_oee,
            self.triplet_oes,
            self.triplet_oeo,
            self.triplet_ose,
            self.triplet_oss,
            self.triplet_oso,
            self.triplet_ooe,
            self.triplet_oos,
            self.triplet_ooo,
        ]
    }
}

impl<T: Copy> TripletFn<T> {
    /// The table of the values that `f` hands out, taken in the order of the potentials.
    pub fn from_fn(mut f: impl FnMut() -> T) -> (table: Self)
        requires
            call_requires(f, ()),
        ensures
            forall|i: int| 0 <= i < 18 ==> call_ensures(f, (), #[trigger] table@[i]),
    {
        let triplet_eee = f();
        let triplet_ees = f();
        let triplet_eeo = f();
        let triplet_ese = f();
        let triplet_ess = f();
        let triplet_eso = f();
        let triplet_eoe = f();
        let triplet_eos = f();
        let triplet_eoo = f();
        let triplet_oee = f();
        let triplet_oes = f();
        let triplet_oeo = f();
        let triplet_ose = f();
        let triplet_oss = f();
        let triplet_oso = f();
        let triplet_ooe = f();
        let triplet_oos = f();
        let triplet_ooo = f();
        TripletFn {
            triplet_eee,
            triplet_ees,
            triplet_eeo,
            triplet_ese,
            triplet_ess,
            triplet_eso,
            triplet_eoe,
            triplet_eos,
            triplet_eoo,
            triplet_oee,
            triplet_oes,
            triplet_oeo,
            triplet_ose,
            triplet_oss,
            triplet_oso,
            triplet_ooe,
            triplet_oos,
            triplet_ooo,
        }
    }

    /// The table in which `mutator` has changed every potential, taken in their order.
    pub fn mutate(&self, mut mutator: impl FnMut(T) -> T) -> (table: Self)
        requires
            forall|value: T| call_requires(mutator, (value,)),
        ensures
            forall|i: int| 0 <= i < 18 ==> call_ensures(mutator, (self@[i],), #[trigger] table@[i]),
    {
        let triplet_eee = mutator(self.triplet_eee);
        let triplet_ees = mutator(self.triplet_ees);
        let triplet_eeo = mutator(self.triplet_eeo);
        let triplet_ese = mutator(self.triplet_ese);
        let triplet_ess = mutator(self.triplet_ess);
        let triplet_eso = mutator(self.triplet_eso);
        let triplet_eoe = mutator(self.triplet_eoe);
        let triplet_eos = mutator(self.triplet_eos);
        let triplet_eoo = mutator(self.triplet_eoo);
        let triplet_oee = mutator(self.triplet_oee);
        let triplet_oes = mutator(self.triplet_oes);
        let triplet_oeo = mutator(self.triplet_oeo);
        let triplet_ose = mutator(self.triplet_ose);
        let triplet_oss = mutator(self.triplet_oss);
        let triplet_oso = mutator(self.triplet_oso);
        let triplet_ooe = mutator(self.triplet_ooe);
        let triplet_oos = mutator(self.triplet_oos);
        let triplet_ooo = mutator(self.triplet_ooo);
        TripletFn {
            triplet_eee,
            triplet_ees,
            triplet_eeo,
            triplet_ese,
            triplet_ess,
            triplet_eso,
            triplet_eoe,
            triplet_eos,
            triplet_eoo,
            triplet_oee,
            triplet_oes,
            triplet_oeo,
            triplet_ose,
            triplet_oss,
            triplet_oso,
            triplet_ooe,
            triplet_oos,
            triplet_ooo,
        }
    }

    /// The table of the potentials `values`, which are in their order.
    pub fn from_slice(values: &[T]) -> (table: Self)
        requires
            values@.len() == 18,
        ensures
            table@ == values@,
    {
        let table = TripletFn {
            triplet_eee: values[0],
            triplet_ees: values[1],
            triplet_eeo: values[2],
            triplet_ese: values[3],
            triplet_ess: values[4],
            triplet_eso: values[5],
            triplet_eoe: values[6],
            triplet_eos: values[7],
            triplet_eoo: values[8],
            triplet_oee: values[9],
            triplet_oes: values[10],
            triplet_oeo: values[11],
            triplet_ose: values[12],
            triplet_oss: values[13],
            triplet_oso: values[14],
            triplet_ooe: values[15],
            triplet_oos: values[16],
            triplet_ooo: values[17],
        };
        assert(table@ =~= values@);
        table
    }

    /// The potentials in their order.
    pub fn values(&self) -> (values: Vec<T>)
        ensures
            values@ == self@,
    {
        let mut values: Vec<T> = Vec::new();
        values.push(self.triplet_eee);
        values.push(self.triplet_ees);
        values.push(self.triplet_eeo);
        values.push(self.triplet_ese);
        values.push(self.triplet_ess);
        values.push(self.triplet_eso);
        values.push(self.triplet_eoe);
        values.push(self.triplet_eos);
        values.push(self.triplet_eoo);
        values.push(self.triplet_oee);
        values.push(self.triplet_oes);
        values.push(self.triplet_oeo);
        values.push(self.triplet_ose);
        values.push(self.triplet_oss);
        values.push(self.triplet_oso);
        values.push(self.triplet_ooe);
        values.push(self.triplet_oos);
        values.push(self.triplet_ooo);
        assert(values@ =~= self@);
        values
    }

    /// The potential of a tile seen as `entity_i`, which is no cell of the
    /// organism itself, with two further tiles seen as `entity_j` and `entity_k`.
    pub fn score(
        &self,
        entity_i: GreedyEntity,
        entity_j: GreedyEntity,
        entity_k: GreedyEntity,
    ) -> (potential: T)
        requires
            !(entity_i is MyCell),
        ensures
            potential == self@[triplet_index(entity_i, entity_j, entity_k)],
    {
        match (entity_i, entity_j, entity_k) {
            (GreedyEntity::Empty, GreedyEntity::Empty, GreedyEntity::Empty) => self.triplet_eee,
            (GreedyEntity::Empty, GreedyEntity::Empty, GreedyEntity::MyCell(_)) => self.triplet_ees,
            (GreedyEntity::Empty, GreedyEntity::Empty, GreedyEntity::OtherCell(_)) => self.triplet_eeo,
            (GreedyEntity::Empty, GreedyEntity::MyCell(_), GreedyEntity::Empty) => self.triplet_ese,
            (GreedyEntity::Empty, GreedyEntity::MyCell(_), GreedyEntity::MyCell(_)) => self.triplet_ess,
            (GreedyEntity::Empty, GreedyEntity::MyCell(_), GreedyEntity::OtherCell(_)) => self.triplet_eso,
            (GreedyEntity::Empty, GreedyEntity::OtherCell(_), GreedyEntity::Empty) => self.triplet_eoe,
            (GreedyEntity::Empty, GreedyEntity::OtherCell(_), GreedyEntity::MyCell(_)) => self.triplet_eos,
            (GreedyEntity::Empty, GreedyEntity::OtherCell(_), GreedyEntity::OtherCell(_)) => self.triplet_eoo,
            (GreedyEntity::OtherCell(_), GreedyEntity::Empty, GreedyEntity::Empty) => self.triplet_oee,
            (GreedyEntity::OtherCell(_), GreedyEntity::Empty, GreedyEntity::MyCell(_)) => self.triplet_oes,
            (GreedyEntity::OtherCell(_), GreedyEntity::Empty, GreedyEntity::OtherCell(_)) => self.triplet_oeo,
            (GreedyEntity::OtherCell(_), GreedyEntity::MyCell(_), GreedyEntity::Empty) => self.triplet_ose,
            (GreedyEntity::OtherCell(_), GreedyEntity::MyCell(_), GreedyEntity::MyCell(_)) => self.triplet_oss,
            (GreedyEntity::OtherCell(_), GreedyEntity::MyCell(_), GreedyEntity::OtherCell(_)) => self.triplet_oso,
            (GreedyEntity::OtherCell(_), GreedyEntity::OtherCell(_), GreedyEntity::Empty) => self.triplet_ooe,
            (GreedyEntity::OtherCell(_), GreedyEntity::OtherCell(_), GreedyEntity::MyCell(_)) => self.triplet_oos,
            (GreedyEntity::OtherCell(_), GreedyEntity::OtherCell(_), GreedyEntity::OtherCell(_)) => self.triplet_ooo,
            (GreedyEntity::MyCell(_), _, _) => vstd::pervasive::unreached(),
        }
    }
}

} // verus!
