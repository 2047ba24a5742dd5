//! The error taxonomy of the service.

use vstd::prelude::*;

verus! {

/// Everything that can go wrong while resolving or publishing a release.
///
/// `NotFound` situations are not errors here: resolution returns `None`
/// and callers map that to an empty response.
#[derive(Clone, Copy, PartialEq, Eq, Structural, Debug)]
pub enum UpdaterError {
    /// A caller-supplied version string is not a well-formed semantic
    /// version.
    InvalidVersion,
    /// An upload carried no file bytes.
    EmptyArtifact,
    /// The artifact host already holds an asset of this name under the
    /// release tag.
    AssetConflict,
    /// The artifact host failed to look up, create or receive a release.
    UpstreamFailure,
}

impl UpdaterError {
    /// A short stable name for the error, for logs and response bodies.
    pub fn describe(&self) -> (r: &'static str)
        ensures
            r@ == match *self {
                UpdaterError::InvalidVersion => "invalid version"@,
                UpdaterError::EmptyArtifact => "no file uploaded or file is empty"@,
                UpdaterError::AssetConflict => "asset already exists in this release"@,
                UpdaterError::UpstreamFailure => "artifact host failure"@,
            },
    {
        match *self {
            UpdaterError::InvalidVersion => "invalid version",
            UpdaterError::EmptyArtifact => "no file uploaded or file is empty",
            UpdaterError::AssetConflict => "asset already exists in this release",
            UpdaterError::UpstreamFailure => "artifact host failure",
        }
    }
}

} // verus!
