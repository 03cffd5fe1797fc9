//! The source of random bytes for the debug overlay colors.

use vstd::prelude::*;

verus! {

/// Relies on `rand::random`: one uniformly drawn byte. Nothing can be
/// promised of its value, so the contract is empty.
#[verifier::external_body]
pub(crate) fn random_byte() -> u8 {
    rand::random::<u8>()
}

} // verus!
