//! The random draws that a session makes, each behind a contract that holds
//! of every outcome.

use rand::seq::SliceRandom;
use rand::Rng;
use vstd::prelude::*;

verus! {

/// `SliceRandom::choose` of `rand`, on the thread's generator: nothing for an
/// empty list, otherwise one of the list's items. Which one is not stated.
#[verifier::external_body]
pub(crate) fn choose_from<T: Copy>(items: &Vec<T>) -> (choice: Option<T>)
    ensures
        items@.len() == 0 ==> choice is None,
        items@.len() > 0 ==> choice is Some && items@.contains(choice->0),
{
    items.choose(&mut rand::thread_rng()).copied()
}

/// `Rng::gen_range` of `rand` over an inclusive range, on the thread's
/// generator: a number within the bounds. It panics on an empty range, which
/// the precondition rules out.
#[verifier::external_body]
pub(crate) fn number_between(low: usize, high: usize) -> (number: usize)
    requires
        low <= high,
    ensures
        low <= number <= high,
{
    rand::thread_rng().gen_range(low..=high)
}

/// `SliceRandom::shuffle` of `rand`, on the thread's generator: the same
/// items in some order.
#[verifier::external_body]
pub(crate) fn shuffle<T>(items: &mut Vec<T>)
    ensures
        final(items)@.to_multiset() == old(items)@.to_multiset(),
{
    items.shuffle(&mut rand::thread_rng());
}

} // verus!
