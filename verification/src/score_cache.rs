use crate::plants::PlantId;
use crate::tiles::TileId;
use ahash::AHashMap;
use vstd::prelude::*;

verus! {

/// The hash map of `ahash`.
#[verifier::external_type_specification]
#[verifier::external_body]
#[verifier::reject_recursive_types(K)]
#[verifier::reject_recursive_types(V)]
#[verifier::reject_recursive_types(S)]
pub struct ExAHashMap<K, V, S>(ahash::AHashMap<K, V, S>);

/// The state from which a map of `ahash` makes its hashers.
#[verifier::external_type_specification]
#[verifier::external_body]
pub struct ExRandomState(ahash::RandomState);

/// An organism, a tile and a budget, as numbers.
pub type MemoKey = (usize, usize, usize);

/// A change counter and a place among the scores.
pub type MemoSlot = (usize, usize);

/// The map from keys to change counters and places.
pub type Memo = AHashMap<MemoKey, MemoSlot>;

/// What a map from keys to change counters and places holds.
pub uninterp spec fn memo_slots(memo: Memo) -> Map<MemoKey, MemoSlot>;

/// What a map without keys holds.
pub open spec fn no_slots() -> Map<MemoKey, MemoSlot> {
    Map::empty()
}

/// `AHashMap::new`: a map that holds nothing.
#[verifier::external_body]
pub(crate) fn memo_new() -> (memo: Memo)
    ensures
        memo_slots(memo) == no_slots(),
{
    AHashMap::new()
}

/// `AHashMap::get`: what the map holds under `key`, if anything.
#[verifier::external_body]
pub(crate) fn memo_get(memo: &Memo, key: MemoKey) -> (value: Option<MemoSlot>)
    ensures
        value == (if memo_slots(*memo).contains_key(key) {
            Some(memo_slots(*memo)[key])
        } else {
            None
        }),
{
    memo.get(&key).copied()
}

/// `AHashMap::insert`: afterwards the map holds `value` under `key`, and
/// under every other key what it held before.
#[verifier::external_body]
pub(crate) fn memo_insert(memo: &mut Memo, key: MemoKey, value: MemoSlot)
    ensures
        memo_slots(*final(memo)) == memo_slots(*old(memo)).insert(key, value),
{
    memo.insert(key, value);
}

/// The scores worked out so far: for an organism, a tile and a budget, the
/// score and the change counter that the tile had when the score was
/// worked out.
#[derive(Debug)]
pub struct ScoreCache<T> {
    slots: Memo,
    scores: Vec<Option<T>>,
}

/// The key under which the score of `tile_id` for the organism `plant_id`
/// with `points` left to spend is kept.
pub open spec fn memo_key(plant_id: PlantId, tile_id: TileId, points: usize) -> MemoKey {
    (plant_id.0, tile_id.0, points)
}

impl<T: Copy> ScoreCache<T> {
    /// For every key the change counter and the score kept under it.
    pub closed spec fn entries(&self) -> Map<MemoKey, (usize, Option<T>)> {
        Map::new(
            |key: MemoKey| memo_slots(self.slots).contains_key(key),
            |key: MemoKey|
                (memo_slots(self.slots)[key].0, self.scores@[memo_slots(self.slots)[key].1 as int]),
        )
    }

    /// Every key has a place of its own among the scores.
    pub closed spec fn wf(&self) -> bool {
        &&& forall|key: MemoKey| #[trigger]
            memo_slots(self.slots).contains_key(key) ==> memo_slots(self.slots)[key].1
                < self.scores@.len()
        &&& forall|one: MemoKey, other: MemoKey|
            #[trigger] memo_slots(self.slots).contains_key(one) && #[trigger] memo_slots(
                self.slots,
            ).contains_key(other) && one != other ==> memo_slots(self.slots)[one].1 != memo_slots(
                self.slots,
            )[other].1
    }

    /// The score kept under `key`, if it was worked out when the change
    /// counter of the tile was `nonce`.
    pub open spec fn valid(&self, key: MemoKey, nonce: usize) -> Option<Option<T>> {
        if self.entries().contains_key(key) && self.entries()[key].0 == nonce {
            Some(self.entries()[key].1)
        } else {
            None
        }
    }

    /// A cache without scores.
    pub fn new() -> (cache: Self)
        ensures
            cache.wf(),
            cache.entries() == Map::<MemoKey, (usize, Option<T>)>::empty(),
    {
        let cache = ScoreCache { slots: memo_new(), scores: Vec::new() };
        assert(cache.entries() =~= Map::<MemoKey, (usize, Option<T>)>::empty());
        cache
    }

    /// The score of `tile_id` for the organism `plant_id` with `points`
    /// left to spend, if one is kept that was worked out when the change
    /// counter of the tile was `nonce`, as it is now.
    pub fn score(&self, plant_id: PlantId, tile_id: TileId, points: usize, nonce: usize) -> (cached:
        Option<Option<T>>)
        requires
            self.wf(),
        ensures
            cached == self.valid(memo_key(plant_id, tile_id, points), nonce),
    {
        match memo_get(&self.slots, (plant_id.0, tile_id.0, points)) {
            Some((cached_nonce, slot)) => {
                if cached_nonce == nonce {
                    Some(self.scores[slot])
                } else {
                    None
                }
            },
            None => None,
        }
    }

    /// Keeps `score` as the score of `tile_id` for the organism `plant_id`
    /// with `points` left to spend, worked out when the change counter of
    /// the tile was `nonce`.
    pub fn remember(
        &mut self,
        plant_id: PlantId,
        tile_id: TileId,
        points: usize,
        nonce: usize,
        score: Option<T>,
    )
        requires
            old(self).wf(),
        ensures
            final(self).wf(),
            final(self).entries() == old(self).entries().insert(
                memo_key(plant_id, tile_id, points),
                (nonce, score),
            ),
    {
        let key = (plant_id.0, tile_id.0, points);
        let slot = match memo_get(&self.slots, key) {
            Some((_, slot)) => {
                self.scores.set(slot, score);
                slot
            },
            None => {
                self.scores.push(score);
                self.scores.len() - 1
            },
        };
        memo_insert(&mut self.slots, key, (nonce, slot));
        assert(self.entries() =~= old(self).entries().insert(key, (nonce, score)));
    }
}

} // verus!
