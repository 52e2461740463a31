//! The pin that a reader holds while it looks at the store.

use vstd::prelude::*;

verus! {

/// The guard of `crossbeam_epoch`: what a reader gets when it pins the
/// current epoch, and keeps while it uses what it read. The queries of the
/// store take one, as readers of a store that reclaims records behind its
/// readers must. This store hands out borrows of its own records and
/// reclaims nothing while they last, so it does not look at the guard, and
/// nothing is claimed of it.
#[verifier::external_type_specification]
#[verifier::external_body]
pub struct ExGuard(crossbeam_epoch::Guard);

} // verus!
