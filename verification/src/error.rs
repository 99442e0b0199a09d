//! Error taxonomy of the cache core.

use vstd::prelude::*;

verus! {

/// The errors the core can surface. Backend- and transport-specific failures
/// are mapped onto these variants at the edge that observes them.
#[derive(Clone, Debug)]
pub enum Error {
    /// The outbound fetch failed before an HTTP status was obtained.
    UpstreamUnavailable(String),
    /// Upstream answered with the contained non-success HTTP status.
    UpstreamNotSuccess(u16),
    /// A transient metadata backend failure; reads fail open, writes drop.
    MetadataBackendError(String),
    /// Eviction could not find enough victims to satisfy the size predicate.
    MetadataInconsistent,
    /// Metadata hit but the blob is missing from storage.
    BlobMissing,
    /// Invalid configuration; fatal at startup or refresh time.
    ConfigInvalid(String),
}

pub type Result<T> = core::result::Result<T, Error>;

} // verus!
