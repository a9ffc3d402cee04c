//! Trusted boundary to the `rand` crate: the engine's only source of
//! randomness. Nothing is assumed of the values drawn beyond the range the
//! sampler is asked for, so every contract downstream holds for every
//! possible outcome.

use vstd::prelude::*;

verus! {

#[verifier::external_type_specification]
#[verifier::external_body]
pub struct ExThreadRng(rand::rngs::ThreadRng);

/// Relies on rand::thread_rng: a handle to the thread-local generator.
/// Nothing is assumed about the generator it returns.
#[verifier::external_body]
pub(crate) fn new_thread_rng() -> rand::rngs::ThreadRng {
    rand::thread_rng()
}

/// Relies on rand::Rng::gen_range on a half-open `usize` range: the sample
/// lies in `[lo, hi)`. The call panics on an empty range, which the
/// precondition rules out. Which value comes back is left open: callers must
/// be correct for every outcome.
#[verifier::external_body]
pub(crate) fn gen_range_usize(rng: &mut rand::rngs::ThreadRng, lo: usize, hi: usize) -> (r: usize)
    requires
        lo < hi,
    ensures
        lo <= r < hi,
{
    rand::Rng::gen_range(rng, lo..hi)
}

} // verus!
