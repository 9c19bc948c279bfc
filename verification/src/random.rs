use vstd::prelude::*;
use rand::rngs::ThreadRng;

verus! {

#[verifier::external_type_specification]
#[verifier::external_body]
pub struct ExThreadRng(rand::rngs::ThreadRng);

/// `rand::thread_rng`: a handle to the generator of the calling thread. Nothing is claimed of
/// it.
#[verifier::external_body]
pub(crate) fn thread_rng() -> ThreadRng {
    rand::thread_rng()
}

/// `rand::Rng::gen_range` on `usize`: a number from `low` up to, and not including, `high`.
/// The call panics unless `low < high`.
#[verifier::external_body]
pub(crate) fn gen_range(rng: &mut ThreadRng, low: usize, high: usize) -> (r: usize)
    requires
        low < high,
    ensures
        low <= r < high,
{
    rand::Rng::gen_range(rng, low, high)
}

/// `rand::Rng::gen` for `bool`. Nothing is claimed of the result.
#[verifier::external_body]
pub(crate) fn gen_flag(rng: &mut ThreadRng) -> bool {
    rand::Rng::gen(rng)
}

/// `rand::random` for `bool`. Nothing is claimed of the result.
#[verifier::external_body]
pub(crate) fn random_flag() -> bool {
    rand::random()
}

/// `rand::Rng::gen_ratio`: true with a chance of `numerator` in `denominator`. The call
/// panics if the denominator is zero or smaller than the numerator.
#[verifier::external_body]
pub(crate) fn gen_ratio(rng: &mut ThreadRng, numerator: u32, denominator: u32) -> (r: bool)
    requires
        0 < denominator,
        numerator <= denominator,
    ensures
        numerator == denominator ==> r,
        numerator == 0 ==> !r,
{
    rand::Rng::gen_ratio(rng, numerator, denominator)
}

/// `rand::seq::SliceRandom::shuffle`: the items change places; none is lost or added.
#[verifier::external_body]
pub(crate) fn shuffle<T>(items: &mut Vec<T>, rng: &mut ThreadRng)
    ensures
        final(items)@.to_multiset() == old(items)@.to_multiset(),
{
    rand::seq::SliceRandom::shuffle(&mut items[..], rng)
}

} // verus!
