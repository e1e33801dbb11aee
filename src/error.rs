use vstd::prelude::*;

verus! {

/// The ways an operation of the hoard can fail.
#[derive(Debug, PartialEq, Eq, Clone)]
pub enum HoardError {
    /// A filesystem operation failed.
    Io,
    /// The content of a file could not be read to compute its hash.
    Hash,
    /// A string is not a lowercase hexadecimal SHA-256 digest.
    InvalidFormat,
    /// A name-index entry points at a target that does not exist.
    BrokenReference,
    /// Two or more names claim the same target path: each conflicting path
    /// with the names that claim it.
    AmbiguousManifest(Vec<(String, Vec<String>)>),
    /// A manifest could not be parsed.
    Parse,
    /// A path lies outside of the repository root.
    PathOutsideRepository,
    /// No repository marker was found.
    RepositoryNotFound,
}

} // verus!
