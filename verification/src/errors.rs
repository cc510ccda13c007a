use vstd::prelude::*;

verus! {

/// Errors surfaced by the public operations of the store.
#[derive(Clone, Copy, Debug, PartialEq, Eq, Structural)]
pub enum PrefixStoreError {
    /// An internal invariant saw a missing bucket that must exist.
    StoreNotReadyError,
    /// A best-path query was made on a prefix with no active record.
    BestPathNotFound,
    /// The input prefix or stride sequence was invalid.
    PrefixLengthInvalid,
}

impl PrefixStoreError {
    /// A short description, in place of `Display`.
    pub fn describe(&self) -> (r: &'static str)
        ensures
            r@ =~= match self {
                PrefixStoreError::StoreNotReadyError => "store not ready"@,
                PrefixStoreError::BestPathNotFound => "best path not found"@,
                PrefixStoreError::PrefixLengthInvalid => "prefix length invalid"@,
            },
    {
        match self {
            PrefixStoreError::StoreNotReadyError => "store not ready",
            PrefixStoreError::BestPathNotFound => "best path not found",
            PrefixStoreError::PrefixLengthInvalid => "prefix length invalid",
        }
    }
}

/// Corruption that is not recovered locally: a persisted value that does not
/// decode as a record.
#[derive(Clone, Copy, Debug, PartialEq, Eq, Structural)]
pub struct FatalError;

} // verus!
