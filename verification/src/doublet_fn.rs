use crate::entity::GreedyEntity;
use vstd::prelude::*;

verus! {

/// The potentials of a tile together with one neighbour.
#[derive(Debug, Clone, Copy)]
pub struct DoubletFn<T> {
    pub doublet_ee: T,
    pub doublet_es: T,
    pub doublet_eo: T,
    pub doublet_oe: T,
    pub doublet_os: T,
    pub doublet_oo: T,
}

/// 0 for an empty tile, 1 for a cell of the organism itself, 2 for a cell of another.
pub open spec fn entity_rank(entity: GreedyEntity) -> int {
    match entity {
        GreedyEntity::Empty => 0,
        GreedyEntity::MyCell(_) => 1,
        GreedyEntity::OtherCell(_) => 2,
    }
}

/// The place of the potential for a tile seen as `entity_i`, which is no
/// cell of the organism itself, and a neighbour seen as `entity_j`.
pub open spec fn doublet_index(entity_i: GreedyEntity, entity_j: GreedyEntity) -> int {
    3 * (entity_rank(entity_i) / 2) + entity_rank(entity_j)
}

impl<T> View for DoubletFn<T> {
    type V = Seq<T>;

    /// The potentials in the order ee, es, eo, oe, os, oo, where e is an
    /// empty tile, s a cell of the organism itself and o a cell of another.
    open spec fn view(&self) -> Seq<T> {
        seq![
            self.doublet_ee,
            self.doublet_es,
            self.doublet_eo,
            self.doublet_oe,
            self.doublet_os,
            self.doublet_oo,
        ]
    }
}

impl<T: Copy> DoubletFn<T> {
    /// The table of the values that `f` hands out, taken in the order of the potentials.
    pub fn from_fn(mut f: impl FnMut() -> T) -> (table: Self)
        requires
            call_requires(f, ()),
        ensures
            forall|i: int| 0 <= i < 6 ==> call_ensures(f, (), #[trigger] table@[i]),
    {
        let doublet_ee = f();
        let doublet_es = f();
        let doublet_eo = f();
        let doublet_oe = f();
        let doublet_os = f();
        let doublet_oo = f();
        DoubletFn { doublet_ee, doublet_es, doublet_eo, doublet_oe, doublet_os, doublet_oo }
    }

    /// The table in which `mutator` has changed every potential, taken in their order.
    pub fn mutate(&self, mut mutator: impl FnMut(T) -> T) -> (table: Self)
        requires
            forall|value: T| call_requires(mutator, (value,)),
        ensures
            forall|i: int| 0 <= i < 6 ==> call_ensures(mutator, (self@[i],), #[trigger] table@[i]),
    {
        let doublet_ee = mutator(self.doublet_ee);
        let doublet_es = mutator(self.doublet_es);
        let doublet_eo = mutator(self.doublet_eo);
        let doublet_oe = mutator(self.doublet_oe);
        let doublet_os = mutator(self.doublet_os);
        let doublet_oo = mutator(self.doublet_oo);
        DoubletFn { doublet_ee, doublet_es, doublet_eo, doublet_oe, doublet_os, doublet_oo }
    }

    /// The table of the potentials `values`, which are in their order.
    pub fn from_slice(values: &[T]) -> (table: Self)
        requires
            values@.len() == 6,
        ensures
            table@ == values@,
    {
        let table = DoubletFn {
            doublet_ee: values[0],
            doublet_es: values[1],
            doublet_eo: values[2],
            doublet_oe: values[3],
            doublet_os: values[4],
            doublet_oo: values[5],
        };
        assert(table@ =~= values@);
        table
    }

    /// The potentials in their order.
    pub fn values(&self) -> (values: Vec<T>)
        ensures
            values@ == self@,
    {
        let mut values: Vec<T> = Vec::new();
        values.push(self.doublet_ee);
        values.push(self.doublet_es);
        values.push(self.doublet_eo);
        values.push(self.doublet_oe);
        values.push(self.doublet_os);
        values.push(self.doublet_oo);
        assert(values@ =~= self@);
        values
    }

    /// The potential of a tile seen as `entity_i`, which is no cell of the
    /// organism itself, with a neighbour seen as `entity_j`.
    pub fn score(&self, entity_i: GreedyEntity, entity_j: GreedyEntity) -> (potential: T)
        requires
            !(entity_i is MyCell),
        ensures
            potential == self@[doublet_index(entity_i, entity_j)],
    {
        match (entity_i, entity_j) {
            (GreedyEntity::Empty, GreedyEntity::Empty) => self.doublet_ee,
            (GreedyEntity::Empty, GreedyEntity::MyCell(_)) => self.doublet_es,
            (GreedyEntity::Empty, GreedyEntity::OtherCell(_)) => self.doublet_eo,
            (GreedyEntity::OtherCell(_), GreedyEntity::Empty) => self.doublet_oe,
            (GreedyEntity::OtherCell(_), GreedyEntity::MyCell(_)) => self.doublet_os,
            (GreedyEntity::OtherCell(_), GreedyEntity::OtherCell(_)) => self.doublet_oo,
            (GreedyEntity::MyCell(_), _) => vstd::pervasive::unreached(),
        }
    }
}

} // verus!
