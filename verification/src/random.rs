//! The randomness service: uniform draws from the `rand` crate, behind
//! trusted wrappers. Nothing is assumed of which element comes back, only
//! what holds of every outcome.

use vstd::prelude::*;

verus! {

/// Relies on rand::seq::SliceRandom::shuffle: it permutes the slice in
/// place, so the length and the multiset of elements are unchanged.
#[verifier::external_body]
pub(crate) fn shuffle_ids(ids: &mut Vec<usize>)
    ensures
        final(ids)@.len() == old(ids)@.len(),
        final(ids)@.to_multiset() == old(ids)@.to_multiset(),
{
    rand::seq::SliceRandom::shuffle(ids.as_mut_slice(), &mut rand::thread_rng());
}

/// Relies on rand::seq::SliceRandom::choose: it returns one element of the
/// slice, and `None` exactly when the slice is empty.
#[verifier::external_body]
pub(crate) fn choose_from(vals: &Vec<usize>) -> (r: Option<usize>)
    ensures
        match r {
            Some(v) => vals@.contains(v),
            None => vals@.len() == 0,
        },
{
    rand::seq::SliceRandom::choose(vals.as_slice(), &mut rand::thread_rng()).copied()
}

/// One weighted draw of a fresh tile value from the fixed ten-slot pool:
/// nine slots of 2 and one of 4.
pub fn two_or_four() -> (r: usize)
    ensures
        r == 2 || r == 4,
{
    let mut pool: Vec<usize> = Vec::new();
    for _k in 0..9
        invariant
            forall|t: int| 0 <= t < pool@.len() ==> pool@[t] == 2,
    {
        pool.push(2);
    }
    pool.push(4);
    match choose_from(&pool) {
        Some(v) => v,
        None => 2,
    }
}

} // verus!
