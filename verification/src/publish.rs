//! The publishing pipeline's decisions.
//!
//! Publishing forwards an artifact to the external host and records the
//! resulting URL. The host itself is out of reach here; what this module
//! owns is every decision around the calls: rejecting empty uploads, the
//! tag an artifact is filed under, what to do with the host's answer to
//! the tag lookup, and the record that is stored at the end.

use vstd::prelude::*;
use vstd::string::StringExecFns;

use crate::catalog::Release;
use crate::errors::UpdaterError;

verus! {

/// The fields of an upload request, as the publishing endpoint receives
/// them.
pub struct UploadReleaseForm {
    pub app_name: String,
    pub version: String,
    pub target: String,
    pub arch: String,
    pub notes: String,
    pub signature: String,
    pub file: Vec<u8>,
}

/// The host's answer to "does a release entry exist under this tag?":
/// found (with the names of the assets it already holds), missing, or the
/// lookup itself failed.
pub enum LookupOutcome {
    Found { asset_names: Vec<String> },
    Missing,
    Failed,
}

/// What to do next after the tag lookup.
#[derive(Clone, Copy, PartialEq, Eq, Structural, Debug)]
pub enum PublishAction {
    /// The entry exists and does not hold this file name: upload into it.
    UploadToExisting,
    /// No entry exists: create one, then upload.
    CreateThenUpload,
}

/// Whether some stored name equals `name`.
pub open spec fn contains_name(names: Seq<String>, name: Seq<char>) -> bool {
    exists|i: int| 0 <= i < names.len() && names[i]@ == name
}

/// The decision the pipeline takes on a lookup answer: a conflict when the
/// entry already holds an asset of this name, an upload into the entry
/// otherwise, creation first when no entry exists, and an upstream error
/// when the lookup itself failed.
pub open spec fn publish_decision(lookup: LookupOutcome, file_name: Seq<char>) -> Result<
    PublishAction,
    UpdaterError,
> {
    match lookup {
        LookupOutcome::Found { asset_names } => if contains_name(asset_names@, file_name) {
            Err(UpdaterError::AssetConflict)
        } else {
            Ok(PublishAction::UploadToExisting)
        },
        LookupOutcome::Missing => Ok(PublishAction::CreateThenUpload),
        LookupOutcome::Failed => Err(UpdaterError::UpstreamFailure),
    }
}

/// Step one of publishing: reject an empty artifact, else hand back the
/// tag the artifact will be filed under, `{app_name}-v{version}`. An empty
/// file fails - before anything is sent anywhere - and nothing else does.
pub fn start_publish(form: &UploadReleaseForm) -> (r: Result<String, UpdaterError>)
    ensures
        r is Err <==> form.file@.len() == 0,
        r matches Err(e) ==> e == UpdaterError::EmptyArtifact,
        r matches Ok(tag) ==> tag@ == form.app_name@ + "-v"@ + form.version@,
{
    if form.file.len() == 0 {
        return Err(UpdaterError::EmptyArtifact);
    }
    Ok(release_tag(form.app_name.as_str(), form.version.as_str()))
}

/// The tag a release of `app_name` at `version` is filed under:
/// `{app_name}-v{version}`.
pub fn release_tag(app_name: &str, version: &str) -> (r: String)
    ensures
        r@ == app_name@ + "-v"@ + version@,
{
    let mut t: String = app_name.to_owned();
    t.append("-v");
    t.append(version);
    t
}

/// Takes the pipeline's decision on the host's lookup answer, as
/// `publish_decision` states it.
pub fn decide_publish(lookup: &LookupOutcome, file_name: &str) -> (r: Result<
    PublishAction,
    UpdaterError,
>)
    ensures
        r == publish_decision(*lookup, file_name@),
{
    match *lookup {
        LookupOutcome::Found { ref asset_names } => {
            let fname: String = file_name.to_owned();
            let mut conflict: bool = false;
            let mut i: usize = 0;
            while i < asset_names.len()
                invariant
                    i <= asset_names@.len(),
                    fname@ == file_name@,
                    conflict ==> contains_name(asset_names@, file_name@),
                    !conflict ==> forall|j: int| 0 <= j < i ==> asset_names@[j]@ != file_name@,
                decreases asset_names@.len() - i,
            {
                if asset_names[i] == fname {
                    assert(contains_name(asset_names@, file_name@));
                    conflict = true;
                }
                i += 1;
            }
            if conflict {
                Err(UpdaterError::AssetConflict)
            } else {
                assert(!contains_name(asset_names@, file_name@));
                Ok(PublishAction::UploadToExisting)
            }
        },
        LookupOutcome::Missing => Ok(PublishAction::CreateThenUpload),
        LookupOutcome::Failed => Err(UpdaterError::UpstreamFailure),
    }
}

/// Publishing the same artifact twice is refused the second time: once a
/// successful upload has put `file_name` among the assets of the tag's
/// entry - and the same app name and version always yield the same tag -
/// the next submission of that file name meets a conflict.
pub proof fn lemma_publish_idempotent(assets: Vec<String>, k: int, file_name: Seq<char>)
    requires
        0 <= k < assets@.len(),
        assets@[k]@ == file_name,
    ensures
        publish_decision(LookupOutcome::Found { asset_names: assets }, file_name) == Err::<
            PublishAction,
            UpdaterError,
        >(UpdaterError::AssetConflict),
{
    assert(contains_name(assets@, file_name));
}

/// The record stored after a successful upload: the form's coordinates and
/// metadata, the URL the host handed back, and the caller's timestamp.
pub fn build_release(id: i64, form: &UploadReleaseForm, url: &str, pub_date: &str) -> (r: Release)
    ensures
        r.id == id,
        r.app_name == form.app_name,
        r.target == form.target,
        r.arch == form.arch,
        r.version == form.version,
        r.url@ == url@,
        r.signature == form.signature,
        r.pub_date@ == pub_date@,
        r.notes == form.notes,
{
    Release {
        id,
        app_name: form.app_name.clone(),
        target: form.target.clone(),
        arch: form.arch.clone(),
        version: form.version.clone(),
        url: url.to_owned(),
        signature: form.signature.clone(),
        pub_date: pub_date.to_owned(),
        notes: form.notes.clone(),
    }
}

} // verus!
