use crate::neighbors::NEIGHBOR_COUNT;
use nohash::{IntMap, IntSet};
use vstd::prelude::*;

verus! {

/// The hasher of `nohash`, which takes an integer key as its own hash.
#[verifier::external_type_specification]
#[verifier::external_body]
#[verifier::reject_recursive_types(T)]
pub struct ExNoHashHasher<T>(nohash::NoHashHasher<T>);

/// The builder through which a map or set of `nohash` makes its hashers.
#[verifier::external_type_specification]
#[verifier::external_body]
#[verifier::reject_recursive_types(H)]
pub struct ExBuildHasherDefault<H>(std::hash::BuildHasherDefault<H>);

/// `HashMap::len` on an `IntMap`: the number of keys.
#[verifier::external_body]
pub(crate) fn int_map_len<V>(map: &IntMap<usize, V>) -> (len: usize)
    ensures
        len == map@.dom().len(),
{
    map.len()
}

/// `HashMap::get` on an `IntMap`: the value kept under `key`, if there is one.
#[verifier::external_body]
pub(crate) fn int_map_get<V>(map: &IntMap<usize, V>, key: usize) -> (value: Option<&V>)
    ensures
        value == (if map@.contains_key(key) {
            Some(&map@[key])
        } else {
            None
        }),
{
    map.get(&key)
}

/// `HashMap::insert` on an `IntMap`: afterwards `key` holds `value`, every
/// other key is as before, and the value that `key` held before is returned.
#[verifier::external_body]
pub(crate) fn int_map_insert<V>(map: &mut IntMap<usize, V>, key: usize, value: V) -> (previous:
    Option<V>)
    ensures
        final(map)@ == old(map)@.insert(key, value),
        previous == (if old(map)@.contains_key(key) {
            Some(old(map)@[key])
        } else {
            None
        }),
{
    map.insert(key, value)
}

/// `HashMap::remove` on an `IntMap`: afterwards `key` is gone, every other
/// key is as before, and the value that `key` held is returned.
#[verifier::external_body]
pub(crate) fn int_map_remove<V>(map: &mut IntMap<usize, V>, key: usize) -> (removed: Option<V>)
    ensures
        final(map)@ == old(map)@.remove(key),
        removed == (if old(map)@.contains_key(key) {
            Some(old(map)@[key])
        } else {
            None
        }),
{
    map.remove(&key)
}

/// `HashMap::keys` on an `IntMap`, collected: every key once, in the order
/// in which the map walks them.
#[verifier::external_body]
pub(crate) fn int_map_keys<V>(map: &IntMap<usize, V>) -> (keys: Vec<usize>)
    ensures
        keys@.no_duplicates(),
        keys@.to_set() == map@.dom(),
{
    map.keys().copied().collect()
}

/// `HashSet::with_capacity_and_hasher` for an `IntSet`: an empty set with
/// room for `capacity` members. It is asked for the few members that the
/// neighbours of one tile can be, never for more than a table can hold.
#[verifier::external_body]
pub(crate) fn int_set_with_capacity(capacity: usize) -> (set: IntSet<usize>)
    requires
        capacity <= NEIGHBOR_COUNT,
    ensures
        set@ == Set::<usize>::empty(),
{
    IntSet::with_capacity_and_hasher(capacity, std::hash::BuildHasherDefault::default())
}

/// `HashSet::insert` on an `IntSet`: afterwards the set holds `key`; the
/// result says whether it is new.
#[verifier::external_body]
pub(crate) fn int_set_insert(set: &mut IntSet<usize>, key: usize) -> (added: bool)
    ensures
        final(set)@ == old(set)@.insert(key),
        added == !old(set)@.contains(key),
{
    set.insert(key)
}

/// `HashSet::remove` on an `IntSet`: afterwards the set does not hold `key`;
/// the result says whether it did.
#[verifier::external_body]
pub(crate) fn int_set_remove(set: &mut IntSet<usize>, key: usize) -> (removed: bool)
    ensures
        final(set)@ == old(set)@.remove(key),
        removed == old(set)@.contains(key),
{
    set.remove(&key)
}

/// `HashSet::iter` on an `IntSet`, collected: every member once, in the
/// order in which the set walks them.
#[verifier::external_body]
pub(crate) fn int_set_members(set: &IntSet<usize>) -> (members: Vec<usize>)
    ensures
        members@.no_duplicates(),
        members@.to_set() == set@,
{
    set.iter().copied().collect()
}

} // verus!
