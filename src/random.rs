//! The random draws the generator makes, through the `rand` crate.
use rand::seq::SliceRandom;
use vstd::prelude::*;

verus! {

#[verifier::external_type_specification]
#[verifier::external_body]
pub struct ExThreadRng(rand::rngs::ThreadRng);

/// Relies on `rand::thread_rng`: a handle on the thread's random generator.
#[verifier::external_body]
pub(crate) fn fresh_rng() -> (r: rand::rngs::ThreadRng) {
    rand::thread_rng()
}

/// Relies on rand's `SliceRandom::choose_multiple`: it yields
/// `min(amount, pool.len())` elements of the slice, taken at distinct
/// positions, in random order.
#[verifier::external_body]
pub(crate) fn choose_distinct(rng: &mut rand::rngs::ThreadRng, pool: &Vec<usize>, amount: usize) -> (r: Vec<usize>)
    ensures
        r@.len() == if amount < pool@.len() { amount as nat } else { pool@.len() },
        forall|k: int| 0 <= k < r@.len() ==> pool@.contains(#[trigger] r@[k]),
        pool@.no_duplicates() ==> r@.no_duplicates(),
{
    pool.as_slice().choose_multiple(rng, amount).cloned().collect()
}

/// Relies on rand's `SliceRandom::shuffle`: the elements are permuted in
/// place, none added or lost.
#[verifier::external_body]
pub(crate) fn shuffle_in_place(rng: &mut rand::rngs::ThreadRng, v: &mut Vec<usize>)
    ensures
        final(v)@.to_multiset() == old(v)@.to_multiset(),
{
    v.as_mut_slice().shuffle(rng)
}

} // verus!
