use vstd::prelude::*;
use rand::rngs::StdRng;

verus! {

/// The caller-supplied pseudo-random number generator. The library only ever
/// draws uniform integers from a half-open range out of it; construction and
/// seeding policy stay with the caller.
#[verifier::external_type_specification]
#[verifier::external_body]
pub struct ExStdRng(StdRng);

/// Relies on `rand::Rng::gen_range`: drawing from `lo..hi` returns a value in
/// `[lo, hi)` and panics only when the range is empty, which the precondition
/// rules out. Nothing more is assumed of the draw: it depends on the
/// generator's state.
#[verifier::external_body]
pub(crate) fn rand_below(rng: &mut StdRng, lo: usize, hi: usize) -> (r: usize)
    requires
        lo < hi,
    ensures
        lo <= r < hi,
{
    rand::Rng::gen_range(rng, lo..hi)
}

} // verus!
