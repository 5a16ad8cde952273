//! The random draws that maze generation makes, taken from `rand`.
use vstd::prelude::*;
use rand::rngs::StdRng;

verus! {

#[verifier::external_type_specification]
#[verifier::external_body]
pub struct ExStdRng(StdRng);

/// Relies on `rand::SeedableRng::from_entropy`: a generator seeded from the
/// operating system.
#[verifier::external_body]
pub(crate) fn entropy_rng() -> StdRng {
    <StdRng as rand::SeedableRng>::from_entropy()
}

/// Relies on `rand::Rng::gen_range` over `0..n`, which panics only on an
/// empty range and otherwise returns a value inside it.
#[verifier::external_body]
pub(crate) fn index_below(rng: &mut StdRng, n: usize) -> (r: usize)
    requires
        n > 0,
    ensures
        r < n,
{
    rand::Rng::gen_range(rng, 0..n)
}

/// Relies on `rand::seq::SliceRandom::shuffle`, which permutes the slice in
/// place by swaps.
#[verifier::external_body]
pub(crate) fn shuffle_dirs(a: &mut [usize; 4], rng: &mut StdRng)
    ensures
        final(a)@.to_multiset() == old(a)@.to_multiset(),
{
    rand::seq::SliceRandom::shuffle(&mut a[..], rng)
}

/// Relies on `rand::seq::SliceRandom::choose`: `None` exactly for an empty
/// slice, otherwise one of its elements.
#[verifier::external_body]
pub(crate) fn choose_one(v: &Vec<usize>, rng: &mut StdRng) -> (r: Option<usize>)
    ensures
        v@.len() == 0 <==> r is None,
        r is Some ==> v@.contains(r->0),
{
    rand::seq::SliceRandom::choose(v.as_slice(), rng).copied()
}

} // verus!
