use crate::entity::GreedyEntity;
use vstd::prelude::*;

verus! {

/// The potentials of a tile by itself: one for an empty tile, one for a
/// tile that another organism holds.
#[derive(Debug, Clone, Copy)]
pub struct SingletFn<T> {
    pub singlet_e: T,
    pub singlet_o: T,
}

/// The place of the potential for a tile seen as `entity_i`.
pub open spec fn singlet_index(entity_i: GreedyEntity) -> int {
    match entity_i {
        GreedyEntity::Empty => 0,
        _ => 1,
    }
}

impl<T> View for SingletFn<T> {
    type V = Seq<T>;

    /// The potentials in the order empty, other.
    open spec fn view(&self) -> Seq<T> {
        seq![self.singlet_e, self.singlet_o]
    }
}

impl<T: Copy> SingletFn<T> {
    /// The table of the values that `f` hands out, taken in the order of the potentials.
    pub fn from_fn(mut f: impl FnMut() -> T) -> (table: Self)
        requires
            call_requires(f, ()),
        ensures
            forall|i: int| 0 <= i < 2 ==> call_ensures(f, (), #[trigger] table@[i]),
    {
        let singlet_e = f();
        let singlet_o = f();
        SingletFn { singlet_e, singlet_o }
    }

    /// The table in which `mutator` has changed every potential, taken in their order.
    pub fn mutate(&self, mut mutator: impl FnMut(T) -> T) -> (table: Self)
        requires
            forall|value: T| call_requires(mutator, (value,)),
        ensures
            forall|i: int| 0 <= i < 2 ==> call_ensures(mutator, (self@[i],), #[trigger] table@[i]),
    {
        let singlet_e = mutator(self.singlet_e);
        let singlet_o = mutator(self.singlet_o);
        SingletFn { singlet_e, singlet_o }
    }

    /// The table of the potentials `values`, which are in their order.
    pub fn from_slice(values: &[T]) -> (table: Self)
        requires
            values@.len() == 2,
        ensures
            table@ == values@,
    {
        let table = SingletFn {
            singlet_e: values[0],
            singlet_o: values[1],
        };
        assert(table@ =~= values@);
        table
    }

    /// The potentials in their order.
    pub fn values(&self) -> (values: Vec<T>)
        ensures
            values@ == self@,
    {
        let mut values: Vec<T> = Vec::new();
        values.push(self.singlet_e);
        values.push(self.singlet_o);
        assert(values@ =~= self@);
        values
    }

    /// The potential of a tile seen as `entity_i`, which is no cell of the
    /// organism itself.
    pub fn score(&self, entity_i: GreedyEntity) -> (potential: T)
        requires
            !(entity_i is MyCell),
        ensures
            potential == self@[singlet_index(entity_i)],
    {
        match entity_i {
            GreedyEntity::Empty => self.singlet_e,
            GreedyEntity::OtherCell(_) => self.singlet_o,
            GreedyEntity::MyCell(_) => vstd::pervasive::unreached(),
        }
    }
}

} // verus!
