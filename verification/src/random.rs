//! Chance, as the `rand` crate provides it.

use rand::Rng;
use vstd::prelude::*;

verus! {

/// Picks one of the items with `rand`'s `SliceRandom::choose` and the thread's own generator.
///
/// Believed of it, as its documentation says: it yields one of the slice's items, and none only
/// where the slice is empty. Which item it is, is left to chance.
#[verifier::external_body]
pub(crate) fn choose_from_slice<T>(items: &Vec<T>) -> (chosen: Option<&T>)
    ensures
        match chosen {
            Some(item) => items@.contains(*item),
            None => items@.len() == 0,
        },
{
    rand::seq::SliceRandom::choose(items.as_slice(), &mut rand::thread_rng())
}

/// Picks one of the items with `rand`'s `IteratorRandom::choose` and the thread's own generator.
///
/// Believed of it, as its documentation says: it yields one of the iterator's items, and none if
/// and only if there is none. Which item it is, is left to chance.
#[verifier::external_body]
pub(crate) fn choose_from_iter<T>(items: &Vec<T>) -> (chosen: Option<&T>)
    ensures
        match chosen {
            Some(item) => items@.contains(*item),
            None => items@.len() == 0,
        },
{
    rand::seq::IteratorRandom::choose(items.iter(), &mut rand::thread_rng())
}

/// Draws a number with `rand`'s `Rng::gen_range` and the thread's own generator.
///
/// Believed of it, as its documentation says: the number is in the range, whose end is excluded.
/// Which number it is, is left to chance. The call panics on an empty range.
#[verifier::external_body]
pub(crate) fn draw_below(low: u64, high: u64) -> (drawn: u64)
    requires
        low < high,
    ensures
        low <= drawn < high,
{
    rand::thread_rng().gen_range(low..high)
}

} // verus!
