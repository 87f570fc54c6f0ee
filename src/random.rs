//! The random draws the game needs, taken from the `rand` crate.

use vstd::prelude::*;
use rand::Rng;
use rand::seq::SliceRandom;
use crate::cells::Cell;

verus! {

/// Relies on rand's `Rng::gen_range` over `0..n` with the thread-local
/// generator: it returns a value in the range, and panics only on an empty one.
#[verifier::external_body]
pub(crate) fn random_below(n: usize) -> (r: usize)
    requires
        n > 0,
    ensures
        r < n,
{
    rand::thread_rng().gen_range(0..n)
}

/// Relies on rand's `SliceRandom::choose` with the thread-local generator:
/// `None` for an empty slice, otherwise one of its elements.
#[verifier::external_body]
pub(crate) fn choose_cell(v: &Vec<Cell>) -> (r: Option<Cell>)
    ensures
        r is None <==> v@.len() == 0,
        r matches Some(c) ==> v@.contains(c),
{
    v.as_slice().choose(&mut rand::thread_rng()).cloned()
}

} // verus!
