use vstd::prelude::*;

verus! {

/// The pinned epoch guard of `crossbeam_epoch`, carried by read operations.
///
/// Relies on `crossbeam_epoch::Guard` only as an opaque value: the store
/// takes a reference to prove that the caller holds a pin for the duration
/// of the read, as the reclamation scheme demands; nothing is assumed about
/// its behaviour.
#[verifier::external_type_specification]
#[verifier::external_body]
pub struct ExGuard(crossbeam_epoch::Guard);

} // verus!
