//! The one source of randomness the core uses: session ids and candidate
//! global vehicle ids are drawn here.
use vstd::prelude::*;

verus! {

/// Relies on rand::random: draws one random 32-bit value from the thread-local
/// generator. Nothing is promised of the result; callers that need a fresh id
/// check the draw against the live set and fall back to a deterministic search.
#[verifier::external_body]
pub(crate) fn random_u32() -> u32 {
    rand::random::<u32>()
}

} // verus!
