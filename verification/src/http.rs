//! The mapping from operation outcomes to HTTP status codes.
//!
//! The HTTP framework itself stays outside the library; what is owned
//! here is the rule that decides which status each outcome is served
//! with.

use vstd::prelude::*;

use crate::errors::UpdaterError;

verus! {

/// The liveness string served at the root route.
pub fn liveness() -> (r: &'static str)
    ensures
        r@ == "Updater Service Running"@,
{
    "Updater Service Running"
}

/// The status of an update check: 200 when an update is available, 204
/// when none is, 400 when the caller's version string does not parse.
pub open spec fn update_status_of(r: Result<Option<usize>, UpdaterError>) -> u16 {
    match r {
        Ok(Some(_)) => 200,
        Ok(None) => 204,
        Err(_) => 400,
    }
}

/// The status of a latest-release query: 200 when found, 204 when the
/// channel is empty.
pub open spec fn latest_status_of(r: Option<usize>) -> u16 {
    match r {
        Some(_) => 200,
        None => 204,
    }
}

/// The status of a download request: a temporary redirect when a release
/// exists, 404 when none does.
pub open spec fn download_status_of(r: Option<usize>) -> u16 {
    match r {
        Some(_) => 307,
        None => 404,
    }
}

/// The status of an upload: 201 with the download URL on success; 400 for
/// a client mistake (empty artifact, malformed version), 409 for an asset
/// conflict, 500 for an upstream failure.
pub open spec fn upload_status_of(r: Result<String, UpdaterError>) -> u16 {
    match r {
        Ok(_) => 201,
        Err(UpdaterError::EmptyArtifact) => 400,
        Err(UpdaterError::InvalidVersion) => 400,
        Err(UpdaterError::AssetConflict) => 409,
        Err(UpdaterError::UpstreamFailure) => 500,
    }
}

/// The status an update check is served with.
pub fn update_status(r: &Result<Option<usize>, UpdaterError>) -> (code: u16)
    ensures
        code == update_status_of(*r),
{
    match r {
        Ok(Some(_)) => 200,
        Ok(None) => 204,
        Err(_) => 400,
    }
}

/// The status a latest-release query is served with.
pub fn latest_status(r: &Option<usize>) -> (code: u16)
    ensures
        code == latest_status_of(*r),
{
    match r {
        Some(_) => 200,
        None => 204,
    }
}

/// The status a download request is served with.
pub fn download_status(r: &Option<usize>) -> (code: u16)
    ensures
        code == download_status_of(*r),
{
    match r {
        Some(_) => 307,
        None => 404,
    }
}

/// The status an upload is served with.
pub fn upload_status(r: &Result<String, UpdaterError>) -> (code: u16)
    ensures
        code == upload_status_of(*r),
{
    match r {
        Ok(_) => 201,
        Err(UpdaterError::EmptyArtifact) => 400,
        Err(UpdaterError::InvalidVersion) => 400,
        Err(UpdaterError::AssetConflict) => 409,
        Err(UpdaterError::UpstreamFailure) => 500,
    }
}

} // verus!
