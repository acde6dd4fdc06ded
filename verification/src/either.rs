use vstd::prelude::*;

verus! {

/// A record of the registry: still living, or archived.
#[derive(Debug, Clone, Copy)]
pub enum Either<L, D> {
    Living(L),
    Dead(D),
}

impl<L, D> Either<L, D> {
    pub fn as_ref(&self) -> (borrowed: Either<&L, &D>)
        ensures
            borrowed == match *self {
                Either::Living(living) => Either::<&L, &D>::Living(&living),
                Either::Dead(dead) => Either::<&L, &D>::Dead(&dead),
            },
    {
        match self {
            Either::Living(living) => Either::Living(living),
            Either::Dead(dead) => Either::Dead(dead),
        }
    }

    pub fn as_mut(&mut self) -> (borrowed: Either<&mut L, &mut D>)
        ensures
            match borrowed {
                Either::Living(living) => *old(self) == Either::<L, D>::Living(*living)
                    && *final(self) == Either::<L, D>::Living(*final(living)),
                Either::Dead(dead) => *old(self) == Either::<L, D>::Dead(*dead)
                    && *final(self) == Either::<L, D>::Dead(*final(dead)),
            },
    {
        match self {
            Either::Living(living) => Either::Living(living),
            Either::Dead(dead) => Either::Dead(dead),
        }
    }

    /// The living record.
    pub fn unwrap_living(self) -> (living: L)
        requires
            self is Living,
        ensures
            self == Either::<L, D>::Living(living),
    {
        match self {
            Either::Living(living) => living,
            Either::Dead(_) => vstd::pervasive::unreached(),
        }
    }

    /// The archived record.
    pub fn unwrap_dead(self) -> (dead: D)
        requires
            self is Dead,
        ensures
            self == Either::<L, D>::Dead(dead),
    {
        match self {
            Either::Living(_) => vstd::pervasive::unreached(),
            Either::Dead(dead) => dead,
        }
    }

    pub fn is_living(&self) -> (living: bool)
        ensures
            living == (*self is Living),
    {
        match self {
            Either::Living(_) => true,
            Either::Dead(_) => false,
        }
    }

    pub fn is_dead(&self) -> (dead: bool)
        ensures
            dead == (*self is Dead),
    {
        match self {
            Either::Living(_) => false,
            Either::Dead(_) => true,
        }
    }
}

} // verus!
