//! Random values.

use vstd::prelude::*;

verus! {

/// `rand::random::<u32>`: any value may come back.
#[verifier::external_body]
pub(crate) fn random_u32() -> u32 {
    rand::random::<u32>()
}

} // verus!
