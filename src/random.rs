use vstd::prelude::*;

use rand::seq::SliceRandom;
use rand::Rng;

use crate::solution::Solution;

verus! {

/// Relies on rand's `Rng::gen_range` over `thread_rng()`: a value of the
/// half-open range `lo..hi`. It panics on an empty range, which `requires`
/// leaves out.
#[verifier::external_body]
pub(crate) fn random_index(lo: usize, hi: usize) -> (r: usize)
    requires
        lo < hi,
    ensures
        lo <= r < hi,
{
    rand::thread_rng().gen_range(lo..hi)
}

/// Relies on rand's `SliceRandom::shuffle` over `thread_rng()`: it only swaps
/// items in place, so the same items remain, each as often as before.
#[verifier::external_body]
pub(crate) fn shuffle_in_place(v: &mut Vec<usize>)
    ensures
        final(v)@.to_multiset() == old(v)@.to_multiset(),
{
    v.shuffle(&mut rand::thread_rng())
}

/// Relies on rand's `SliceRandom::choose` over `thread_rng()`: `None` on an
/// empty slice, else a reference to one of its items.
#[verifier::external_body]
pub(crate) fn choose_solution(pool: &Vec<Solution>) -> (r: Option<&Solution>)
    ensures
        pool@.len() == 0 <==> r is None,
        r matches Some(s) ==> exists|i: int| 0 <= i < pool@.len() && pool@[i] == *s,
{
    pool.choose(&mut rand::thread_rng())
}

} // verus!
