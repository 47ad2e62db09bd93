use vstd::prelude::*;
use rand::rngs::SmallRng;
use rand::seq::SliceRandom;

verus! {

/// The small, fast random number generator of `rand`; opaque here.
#[verifier::external_type_specification]
#[verifier::external_body]
pub struct ExSmallRng(SmallRng);

/// One element of `choices` picked at random, or `None` if there is none.
///
/// Trusted: calls `SliceRandom::choose` of `rand`, whose source returns
/// `None` for an empty slice and otherwise a reference to the element at an
/// index drawn from `0..len`. Which element comes back depends on the
/// generator and is not stated.
#[verifier::external_body]
pub fn random_pick<'a, T>(choices: &'a [T], rng: &mut SmallRng) -> (r: Option<&'a T>)
    ensures
        r is None <==> choices@.len() == 0,
        r matches Some(x) ==> choices@.contains(*x),
{
    choices.choose(rng)
}

/// A copy of one element of `choices`, picked at random. There must be at
/// least one.
pub fn random_choice<T: Copy>(choices: &[T], rng: &mut SmallRng) -> (r: T)
    requires
        choices@.len() > 0,
    ensures
        choices@.contains(r),
{
    *random_pick(choices, rng).unwrap()
}

} // verus!
