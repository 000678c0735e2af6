//! The random source. Every random step of the library goes through the three functions
//! here, which call the `rand` crate on an `XorShiftRng` that the caller seeds.

use vstd::prelude::*;
use rand::Rng;
use rand::XorShiftRng;

verus! {

#[verifier::external_type_specification]
#[verifier::external_body]
pub struct ExXorShiftRng(XorShiftRng);

/// `rand::Rng::shuffle`: reorders the values in place. Whatever the generator yields, the
/// values afterwards are the values before, each as often as before.
#[verifier::external_body]
pub(crate) fn shuffle<T>(rng: &mut XorShiftRng, values: &mut Vec<T>)
    ensures
        final(values)@.to_multiset() == old(values)@.to_multiset(),
{
    rng.shuffle(values.as_mut_slice());
}

/// `rand::Rng::choose`: picks one of the values. It picks none exactly when there is none,
/// and what it picks is one of the values given.
#[verifier::external_body]
pub(crate) fn pick<T: Copy>(rng: &mut XorShiftRng, values: &Vec<T>) -> (picked: Option<T>)
    ensures
        picked is None <==> values@.len() == 0,
        picked is Some ==> values@.contains(picked.unwrap()),
{
    rng.choose(values.as_slice()).copied()
}

/// `rand::weak_rng`: a generator seeded from the thread's own generator. Nothing is known
/// of the seed.
#[verifier::external_body]
pub(crate) fn fresh_rng() -> XorShiftRng {
    rand::weak_rng()
}

} // verus!
