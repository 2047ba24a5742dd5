use updater::catalog::{resolve_latest, resolve_update, sort_releases_by_date, Release};
use updater::errors::UpdaterError;
use updater::http::{download_status, latest_status, liveness, update_status, upload_status};

fn release(id: i64, version: &str, pub_date: &str) -> Release {
    Release {
        id,
        app_name: String::from("classprime"),
        target: String::from("darwin"),
        arch: String::from("aarch64"),
        version: String::from(version),
        url: format!("https://example.com/{}", version),
        signature: String::from("sig123"),
        pub_date: String::from(pub_date),
        notes: String::from("notes"),
    }
}

fn channel(versions: &[&str]) -> Vec<Release> {
    versions
        .iter()
        .enumerate()
        .map(|(i, v)| release(i as i64 + 1, v, "2024-01-01T12:00:00Z"))
        .collect()
}

#[test]
fn latest_picks_maximal_version() {
    let rs = channel(&["1.0.0", "1.0.1", "0.9.9"]);
    assert_eq!(resolve_latest(&rs, "classprime", "darwin", "aarch64"), Some(1));
}

#[test]
fn stored_versions_are_compared_numerically_not_as_strings() {
    // byte order would pick "2.0.0"; semantic order must pick "10.0.0"
    let rs = channel(&["2.0.0", "10.0.0"]);
    assert_eq!(resolve_latest(&rs, "classprime", "darwin", "aarch64"), Some(1));
}

#[test]
fn latest_includes_prereleases() {
    let rs = channel(&["1.0.0", "1.2.0-beta"]);
    assert_eq!(resolve_latest(&rs, "classprime", "darwin", "aarch64"), Some(1));
}

#[test]
fn latest_of_empty_channel_is_none_and_204() {
    let rs: Vec<Release> = Vec::new();
    let r = resolve_latest(&rs, "classprime", "darwin", "aarch64");
    assert_eq!(r, None);
    assert_eq!(latest_status(&r), 204);
    assert_eq!(download_status(&r), 404);
}

#[test]
fn channel_match_is_exact() {
    let mut rs = channel(&["1.0.0"]);
    rs.push({
        let mut r = release(9, "9.9.9", "2024-01-02T12:00:00Z");
        r.arch = String::from("x86_64");
        r
    });
    // the x86_64 release must not be offered on the aarch64 channel
    assert_eq!(resolve_latest(&rs, "classprime", "darwin", "aarch64"), Some(0));
    assert_eq!(resolve_latest(&rs, "classprime", "darwin", "x86_64"), Some(1));
    assert_eq!(resolve_latest(&rs, "Classprime", "darwin", "aarch64"), None);
}

#[test]
fn unparseable_versions_are_skipped_without_error() {
    let rs = channel(&["not-a-version", "1.0.1", "also bad"]);
    assert_eq!(resolve_latest(&rs, "classprime", "darwin", "aarch64"), Some(1));
    let upd = resolve_update(&rs, "classprime", "darwin", "aarch64", "1.0.0");
    assert_eq!(upd, Ok(Some(1)));
}

#[test]
fn only_unparseable_versions_resolve_to_none() {
    let rs = channel(&["oops", ""]);
    assert_eq!(resolve_latest(&rs, "classprime", "darwin", "aarch64"), None);
}

#[test]
fn equal_maximal_versions_break_ties_to_the_last() {
    let rs = channel(&["1.0.1", "0.9.0", "1.0.1"]);
    assert_eq!(resolve_latest(&rs, "classprime", "darwin", "aarch64"), Some(2));
}

#[test]
fn update_offers_newer_prerelease() {
    // {1.0.0, 1.0.1, 1.2.0-beta} against 1.0.0: the 1.2.0-beta wins
    let rs = channel(&["1.0.0", "1.0.1", "1.2.0-beta"]);
    let r = resolve_update(&rs, "classprime", "darwin", "aarch64", "1.0.0");
    assert_eq!(r, Ok(Some(2)));
    assert_eq!(rs[2].version, "1.2.0-beta");
    assert_eq!(update_status(&r), 200);
}

#[test]
fn update_never_offers_equal_or_older() {
    let rs = channel(&["1.0.0", "1.0.1"]);
    assert_eq!(
        resolve_update(&rs, "classprime", "darwin", "aarch64", "1.0.1"),
        Ok(None)
    );
    assert_eq!(
        resolve_update(&rs, "classprime", "darwin", "aarch64", "2.0.0"),
        Ok(None)
    );
    // a pre-release of the installed version is older than the release
    let rs2 = channel(&["1.2.0-beta"]);
    assert_eq!(
        resolve_update(&rs2, "classprime", "darwin", "aarch64", "1.2.0"),
        Ok(None)
    );
    // but the release is newer than an installed pre-release
    let rs3 = channel(&["1.2.0"]);
    assert_eq!(
        resolve_update(&rs3, "classprime", "darwin", "aarch64", "1.2.0-beta"),
        Ok(Some(0))
    );
}

#[test]
fn malformed_current_version_is_invalid_and_400() {
    let rs = channel(&["1.0.0"]);
    let r = resolve_update(&rs, "classprime", "darwin", "aarch64", "not-a-version");
    assert_eq!(r, Err(UpdaterError::InvalidVersion));
    assert_eq!(update_status(&r), 400);
    // the same error comes whatever the store would have answered
    let empty: Vec<Release> = Vec::new();
    assert_eq!(
        resolve_update(&empty, "classprime", "darwin", "aarch64", "not-a-version"),
        Err(UpdaterError::InvalidVersion)
    );
}

#[test]
fn build_metadata_does_not_make_an_update() {
    let rs = channel(&["1.0.0+build5"]);
    assert_eq!(
        resolve_update(&rs, "classprime", "darwin", "aarch64", "1.0.0"),
        Ok(None)
    );
}

#[test]
fn no_update_is_204_not_an_error() {
    let rs = channel(&["1.0.0"]);
    let r = resolve_update(&rs, "classprime", "darwin", "aarch64", "1.0.0");
    assert_eq!(r, Ok(None));
    assert_eq!(update_status(&r), 204);
}

#[test]
fn update_response_drops_identity_fields() {
    let r = release(7, "1.0.1", "2024-01-01T12:00:00Z");
    let u = r.update_response();
    assert_eq!(u.version, "1.0.1");
    assert_eq!(u.url, "https://example.com/1.0.1");
    assert_eq!(u.signature, "sig123");
    assert_eq!(u.pub_date, "2024-01-01T12:00:00Z");
    assert_eq!(u.notes, "notes");
}

#[test]
fn releases_sort_newest_first() {
    let rs = vec![
        release(1, "1.0.0", "2024-01-01T12:00:00Z"),
        release(2, "1.0.2", "2024-03-01T12:00:00Z"),
        release(3, "1.0.1", "2024-02-01T12:00:00Z"),
    ];
    let sorted = sort_releases_by_date(rs);
    let dates: Vec<&str> = sorted.iter().map(|r| r.pub_date.as_str()).collect();
    assert_eq!(
        dates,
        vec![
            "2024-03-01T12:00:00Z",
            "2024-02-01T12:00:00Z",
            "2024-01-01T12:00:00Z"
        ]
    );
    let ids: Vec<i64> = {
        let mut v: Vec<i64> = sorted.iter().map(|r| r.id).collect();
        v.sort();
        v
    };
    assert_eq!(ids, vec![1, 2, 3]);
}

#[test]
fn liveness_string() {
    assert_eq!(liveness(), "Updater Service Running");
}

#[test]
fn redirect_statuses() {
    let rs = channel(&["1.0.0"]);
    let r = resolve_latest(&rs, "classprime", "darwin", "aarch64");
    assert_eq!(r, Some(0));
    assert_eq!(latest_status(&r), 200);
    assert_eq!(download_status(&r), 307);
}

#[test]
fn upload_statuses() {
    assert_eq!(upload_status(&Ok(String::from("https://example.com/a"))), 201);
    assert_eq!(upload_status(&Err(UpdaterError::EmptyArtifact)), 400);
    assert_eq!(upload_status(&Err(UpdaterError::InvalidVersion)), 400);
    assert_eq!(upload_status(&Err(UpdaterError::AssetConflict)), 409);
    assert_eq!(upload_status(&Err(UpdaterError::UpstreamFailure)), 500);
}

#[test]
fn error_descriptions() {
    assert_eq!(UpdaterError::InvalidVersion.describe(), "invalid version");
    assert_eq!(
        UpdaterError::EmptyArtifact.describe(),
        "no file uploaded or file is empty"
    );
    assert_eq!(
        UpdaterError::AssetConflict.describe(),
        "asset already exists in this release"
    );
    assert_eq!(UpdaterError::UpstreamFailure.describe(), "artifact host failure");
}
