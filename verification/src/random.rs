//! The seedable random source, as far as the field needs it.

use vstd::prelude::*;
use rand::rngs::StdRng;
use rand::seq::IteratorRandom;
use rand::SeedableRng;

verus! {

/// The generator `rand::rngs::StdRng`, carried as an opaque value.
#[verifier::external_type_specification]
#[verifier::external_body]
pub struct ExStdRng(rand::rngs::StdRng);

/// Calls `StdRng::from_entropy`: a generator seeded by the operating system.
/// Nothing is claimed of the generator. The call panics when the system can
/// supply no entropy, which no argument of ours decides.
#[verifier::external_body]
pub(crate) fn entropy_rng() -> (rng: StdRng) {
    StdRng::from_entropy()
}

/// The generator that `StdRng::seed_from_u64` makes of a seed. The call
/// spreads the seed over the generator's key by fixed arithmetic and reads
/// nothing but the seed, so equal seeds give generators in the same state,
/// which then yield the same stream.
pub uninterp spec fn seeded_generator(seed: u64) -> StdRng;

/// Calls `StdRng::seed_from_u64`. The contract gives the generator a name
/// and claims nothing else of it.
#[verifier::external_body]
pub(crate) fn seeded_rng(seed: u64) -> (rng: StdRng)
    ensures
        rng == seeded_generator(seed),
{
    StdRng::seed_from_u64(seed)
}

/// Calls `IteratorRandom::choose` on the enumerated candidates and keeps the
/// position of the pick. For an iterator that knows its length the call
/// returns `None` exactly when there is nothing to pick from, and otherwise
/// the element at a position drawn below the length. Which position comes
/// back is not claimed.
#[verifier::external_body]
pub(crate) fn choose_position(rng: &mut StdRng, candidates: &Vec<usize>) -> (pick: Option<usize>)
    ensures
        candidates.len() == 0 ==> pick is None,
        candidates.len() > 0 ==> pick is Some && pick->0 < candidates.len(),
{
    candidates.iter().enumerate().choose(rng).map(|(position, _)| position)
}

} // verus!
