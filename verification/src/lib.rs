//! A scope-indexed credential cache: OAuth-style access tokens stored and
//! looked up by the set of permission scopes they were granted for, with an
//! order-independent fingerprint, a bloom-style subset pre-filter, a flat-file
//! persistence codec, and key derivation for an OS secret store.
use vstd::prelude::*;

pub mod fingerprint;
pub mod index;
pub mod codec;
pub mod keychain;
pub mod storage;
pub mod settings;

verus! {

/// The error taxonomy of the cache: a missing file at load time is
/// `NotFound` (not a failure), read or write failures are `Io`, malformed
/// persisted content is `Serialization`, and a platform secret-store
/// failure is `SecureBackend`.
#[derive(Debug, Copy, Clone, Eq, PartialEq, Structural)]
pub enum StorageError {
    NotFound,
    Io,
    Serialization,
    SecureBackend,
}

/// Bloom-style filter over a scope set: a 64-bit bitset supporting a
/// one-sided subset test (false positives possible, never false negatives).
#[derive(Debug, Copy, Clone, Eq, PartialEq, Structural)]
pub struct ScopeFilter(pub u64);

/// Order-independent fingerprint hash of a scope set.
#[derive(Debug, Copy, Clone, Eq, PartialEq, Structural)]
pub struct ScopeHash(pub u64);

/// Outcome of the filter pre-test: `No` is definitive, `Maybe` is not.
#[derive(Debug, Copy, Clone, Eq, PartialEq, Structural)]
pub enum FilterResponse {
    Maybe,
    No,
}

impl ScopeFilter {
    /// Determine if this filter's scope set could be a subset of the scope
    /// set the given filter was built from. `No` is always correct;
    /// `Maybe` may be a false positive.
    pub fn is_subset_of(self, filter: ScopeFilter) -> (r: FilterResponse)
        ensures
            r == (if self.0 & filter.0 == self.0 {
                FilterResponse::Maybe
            } else {
                FilterResponse::No
            }),
    {
        if self.0 & filter.0 == self.0 {
            FilterResponse::Maybe
        } else {
            FilterResponse::No
        }
    }
}

} // verus!
