use itertools::Itertools;
use vstd::prelude::*;

verus! {

/// `places` names the `k` largest of `keys`, or all of them if there are
/// fewer, each once and the larger first: no key left out is larger than
/// one that is named.
pub open spec fn top_places(keys: Seq<usize>, k: usize, places: Seq<usize>) -> bool {
    &&& places.len() == if k < keys.len() {
        k as nat
    } else {
        keys.len()
    }
    &&& places.no_duplicates()
    &&& forall|i: int| 0 <= i < places.len() ==> #[trigger] places[i] < keys.len()
    &&& forall|i: int, j: int|
        0 <= i < j < places.len() ==> keys[#[trigger] places[i] as int] >= keys[#[trigger] places[j] as int]
    &&& forall|place: int, i: int|
        0 <= place < keys.len() && !places.contains(place as usize) && 0 <= i < places.len()
            ==> #[trigger] keys[place] <= keys[#[trigger] places[i] as int]
}

/// `Itertools::k_largest_by_key` on the keys, each with its place, by the
/// key: the places of the `k` largest keys, the larger first. Which of two
/// equal keys comes first, or is left out, is open.
#[verifier::external_body]
pub(crate) fn k_largest_places(keys: &Vec<usize>, k: usize) -> (places: Vec<usize>)
    ensures
        top_places(keys@, k, places@),
{
    keys.iter().copied().enumerate().k_largest_by_key(k, |pair| pair.1).map(|pair| pair.0).collect()
}

} // verus!
