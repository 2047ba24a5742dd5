use updater::catalog::{SupportedApp, SupportedTarget};
use updater::errors::UpdaterError;
use updater::http::upload_status;
use updater::publish::{
    build_release, decide_publish, release_tag, start_publish, LookupOutcome, PublishAction,
    UploadReleaseForm,
};

fn form(file: Vec<u8>) -> UploadReleaseForm {
    UploadReleaseForm {
        app_name: String::from("classprime"),
        version: String::from("1.0.1"),
        target: String::from("darwin"),
        arch: String::from("aarch64"),
        notes: String::from("Initial release"),
        signature: String::from("sig123"),
        file,
    }
}

#[test]
fn empty_artifact_is_rejected_before_any_call() {
    let r = start_publish(&form(Vec::new()));
    assert_eq!(r, Err(UpdaterError::EmptyArtifact));
    assert_eq!(upload_status(&r), 400);
}

#[test]
fn nonempty_artifact_yields_the_tag() {
    let r = start_publish(&form(vec![1, 2, 3]));
    assert_eq!(r, Ok(String::from("classprime-v1.0.1")));
}

#[test]
fn tag_joins_app_and_version() {
    assert_eq!(release_tag("classfi", "2.1.0"), "classfi-v2.1.0");
    assert_eq!(release_tag("", ""), "-v");
}

#[test]
fn conflict_when_asset_already_present() {
    let lookup = LookupOutcome::Found {
        asset_names: vec![String::from("app.tar.gz"), String::from("setup.exe")],
    };
    let r = decide_publish(&lookup, "setup.exe");
    assert_eq!(r, Err(UpdaterError::AssetConflict));
}

#[test]
fn second_publish_of_same_artifact_conflicts() {
    // first attempt: the tag does not exist yet, so it is created
    let before = LookupOutcome::Missing;
    assert_eq!(
        decide_publish(&before, "app.tar.gz"),
        Ok(PublishAction::CreateThenUpload)
    );
    // the upload then files "app.tar.gz" under the tag; the identical
    // resubmission sees it and is refused
    let after = LookupOutcome::Found {
        asset_names: vec![String::from("app.tar.gz")],
    };
    let r = decide_publish(&after, "app.tar.gz");
    assert_eq!(r, Err(UpdaterError::AssetConflict));
    assert_eq!(upload_status(&r.map(|_| String::new())), 409);
}

#[test]
fn upload_into_existing_entry_without_conflict() {
    let lookup = LookupOutcome::Found {
        asset_names: vec![String::from("other.bin")],
    };
    assert_eq!(
        decide_publish(&lookup, "app.tar.gz"),
        Ok(PublishAction::UploadToExisting)
    );
    let empty = LookupOutcome::Found { asset_names: Vec::new() };
    assert_eq!(
        decide_publish(&empty, "app.tar.gz"),
        Ok(PublishAction::UploadToExisting)
    );
}

#[test]
fn failed_lookup_is_an_upstream_failure() {
    let r = decide_publish(&LookupOutcome::Failed, "app.tar.gz");
    assert_eq!(r, Err(UpdaterError::UpstreamFailure));
    assert_eq!(upload_status(&r.map(|_| String::new())), 500);
}

#[test]
fn built_record_carries_form_url_and_date() {
    let f = form(vec![1]);
    let r = build_release(
        42,
        &f,
        "https://example.com/download/app.tar.gz",
        "2024-05-01T08:30:00Z",
    );
    assert_eq!(r.id, 42);
    assert_eq!(r.app_name, "classprime");
    assert_eq!(r.target, "darwin");
    assert_eq!(r.arch, "aarch64");
    assert_eq!(r.version, "1.0.1");
    assert_eq!(r.url, "https://example.com/download/app.tar.gz");
    assert_eq!(r.signature, "sig123");
    assert_eq!(r.pub_date, "2024-05-01T08:30:00Z");
    assert_eq!(r.notes, "Initial release");
}

#[test]
fn supported_channel_keys() {
    assert_eq!(SupportedApp::Classprime.key(), "classprime");
    assert_eq!(SupportedApp::Classfi.key(), "classfi");
    assert_eq!(SupportedTarget::Darwin.key(), "darwin");
    assert_eq!(SupportedTarget::Windows.key(), "windows");
}
