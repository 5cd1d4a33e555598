//! The error kinds this library reports. Each carries enough context (a
//! package name, a path, or a collaborator's diagnostic text) to be printed
//! by the caller without further lookup.

use vstd::prelude::*;

verus! {

/// Everything that can go wrong while building graphs, consulting the
/// cache, extracting, or merging.
#[derive(Debug)]
pub enum TagsError {
    /// The metadata document lacks a required field or a field has the
    /// wrong shape.
    MalformedMetadata(Vec<u8>),
    /// The metadata document's format marker is unrecognized.
    UnsupportedSchema(Vec<u8>),
    /// A package is reachable from itself: a data-integrity error in the
    /// resolved dependency graph, never silently broken.
    CyclicDependency(Vec<u8>),
    /// The extractor collaborator failed over a package's sources.
    ExtractionFailed { name: Vec<u8>, cause: Vec<u8> },
    /// The cache store could not be written.
    CacheIo(Vec<u8>),
    /// The package manager's own metadata invocation failed.
    MetadataFetchFailed(Vec<u8>),
    /// A directory that configuration promised is absent.
    MissingExpectedDirectory(Vec<u8>),
}

} // verus!
