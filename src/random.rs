use vstd::prelude::*;

use rand::seq::SliceRandom;

use crate::cell::Id;

verus! {

/// Relies on `rand::random`: a value drawn from the thread-local generator. Nothing is
/// promised of which value comes back.
pub assume_specification<T>[ rand::random::<T> ]() -> (r: T)
    where
        rand::distributions::Standard: rand::distributions::Distribution<T>,
;

/// Relies on rand's `SliceRandom::choose` with the thread-local generator: on a
/// non-empty slice it returns one of the slice's items, drawn uniformly.
#[verifier::external_body]
pub(crate) fn choose_from(run: &Vec<Id>) -> (r: Id)
    requires
        run@.len() > 0,
    ensures
        run@.contains(r),
{
    *run.choose(&mut rand::thread_rng()).unwrap()
}

} // verus!
