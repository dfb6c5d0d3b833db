//! The random source of the `rand` crate.

use vstd::prelude::*;

verus! {

/// `rand::random`: 32 random bits from the generator of the thread. Nothing
/// is promised of them: every value can come back.
#[verifier::external_body]
pub(crate) fn random_bits() -> (bits: u32) {
    rand::random()
}

} // verus!
