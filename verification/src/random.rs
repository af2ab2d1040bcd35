//! The calls into `rand` that name generation makes.
use vstd::prelude::*;

use rand::rngs::{StdRng, ThreadRng};
use rand::seq::IndexedRandom;
use rand::SeedableRng;

verus! {

/// `rand::rngs::StdRng`, the generator that draws the random bodies.
#[verifier::external_type_specification]
#[verifier::external_body]
pub struct ExStdRng(StdRng);

/// `IndexedRandom::choose` on a byte slice: `None` exactly when the slice is
/// empty, otherwise one of its bytes, drawn from `rng`. Which byte is left open.
#[verifier::external_body]
pub(crate) fn choose_byte(bytes: &[u8], rng: &mut StdRng) -> (r: Option<u8>)
    ensures
        r is None <==> bytes@.len() == 0,
        r matches Some(b) ==> bytes@.contains(b),
{
    bytes.choose(rng).copied()
}

/// `rand::rngs::ThreadRng`, the thread-local generator.
#[verifier::external_type_specification]
#[verifier::external_body]
pub struct ExThreadRng(ThreadRng);

/// `rand::rng()`: a handle to the thread-local generator, seeded by the
/// operating system.
#[verifier::external_body]
pub(crate) fn thread_rng() -> ThreadRng {
    rand::rng()
}

/// `SeedableRng::from_rng`: a `StdRng` seeded from `source`. Nothing is
/// stated of the seed.
#[verifier::external_body]
pub(crate) fn std_rng_from(source: &mut ThreadRng) -> StdRng {
    StdRng::from_rng(source)
}

} // verus!
