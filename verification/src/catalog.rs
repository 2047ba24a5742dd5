//! The release catalog: the set of known releases and the resolution of
//! the latest (or latest newer) release within a channel.
//!
//! A channel is the triple (app_name, target, arch), compared by exact,
//! case-sensitive string equality. Stored version strings that are not
//! well-formed semantic versions never cause an error: they are silently
//! ignored by resolution.
//!
//! When several eligible releases share the maximal version, the one
//! stored last (the highest index, which the store hands out in insertion
//! order) wins; this is the documented tie-break.

use vstd::multiset::Multiset;
use vstd::prelude::*;
use vstd::utf8::encode_utf8;

use crate::errors::UpdaterError;
use crate::version::{
    lemma_lex_cmp_antisym, lemma_lex_cmp_trans, lemma_ver_cmp_antisym, lemma_ver_cmp_trans,
    lex_cmp, parse_version, parsed_version, ver_cmp, ver_le, ver_lt, SemVer, VersionView,
};

verus! {

broadcast use vstd::seq_lib::group_to_multiset_ensures;

/// One stored release record. Immutable once created; `id` is assigned by
/// the store, unique and increasing with insertion order.
pub struct Release {
    pub id: i64,
    pub app_name: String,
    pub target: String,
    pub arch: String,
    pub version: String,
    pub url: String,
    pub signature: String,
    pub pub_date: String,
    pub notes: String,
}

/// The body served for update and latest queries: the release without its
/// identity and channel fields.
pub struct UpdateResponse {
    pub version: String,
    pub url: String,
    pub signature: String,
    pub pub_date: String,
    pub notes: String,
}

/// The applications this service is deployed for. Documentation only:
/// channel keys are stored and matched as free strings.
#[derive(Clone, Copy, PartialEq, Eq, Structural, Debug)]
pub enum SupportedApp {
    Classprime,
    Classfi,
}

/// The operating systems this service is deployed for. Documentation only,
/// as for `SupportedApp`.
#[derive(Clone, Copy, PartialEq, Eq, Structural, Debug)]
pub enum SupportedTarget {
    Darwin,
    Windows,
}

impl SupportedApp {
    /// The channel key this application is stored under.
    pub fn key(&self) -> (r: &'static str)
        ensures
            r@ == match *self {
                SupportedApp::Classprime => "classprime"@,
                SupportedApp::Classfi => "classfi"@,
            },
    {
        match *self {
            SupportedApp::Classprime => "classprime",
            SupportedApp::Classfi => "classfi",
        }
    }
}

impl SupportedTarget {
    /// The channel key this operating system is stored under.
    pub fn key(&self) -> (r: &'static str)
        ensures
            r@ == match *self {
                SupportedTarget::Darwin => "darwin"@,
                SupportedTarget::Windows => "windows"@,
            },
    {
        match *self {
            SupportedTarget::Darwin => "darwin",
            SupportedTarget::Windows => "windows",
        }
    }
}

/// Whether `r` belongs to the channel (app, target, arch).
pub open spec fn in_channel(r: Release, app: Seq<char>, target: Seq<char>, arch: Seq<char>) -> bool {
    r.app_name@ == app && r.target@ == target && r.arch@ == arch
}

/// The parsed version of a release, meaningful when `eligible` holds.
pub open spec fn release_version(r: Release) -> VersionView {
    parsed_version(r.version@).unwrap()
}

/// Whether `r` takes part in resolution for the channel: it belongs to it
/// and its stored version string parses.
pub open spec fn eligible(r: Release, app: Seq<char>, target: Seq<char>, arch: Seq<char>) -> bool {
    in_channel(r, app, target, arch) && parsed_version(r.version@) is Some
}

/// Whether `r` takes part in update resolution against `cur`: eligible,
/// and strictly newer than `cur`.
pub open spec fn upd_eligible(
    r: Release,
    app: Seq<char>,
    target: Seq<char>,
    arch: Seq<char>,
    cur: VersionView,
) -> bool {
    eligible(r, app, target, arch) && ver_lt(cur, release_version(r))
}

/// The index of the release `resolve_latest` picks: the eligible release
/// with the maximal version, the last such index on ties; `None` when the
/// channel has no eligible release.
pub open spec fn latest_of(
    rs: Seq<Release>,
    app: Seq<char>,
    target: Seq<char>,
    arch: Seq<char>,
) -> Option<int>
    decreases rs.len(),
{
    if rs.len() == 0 {
        None
    } else {
        let prev = latest_of(rs.drop_last(), app, target, arch);
        if eligible(rs.last(), app, target, arch) {
            match prev {
                None => Some(rs.len() - 1),
                Some(j) => if ver_lt(release_version(rs.last()), release_version(rs[j])) {
                    Some(j)
                } else {
                    Some(rs.len() - 1)
                },
            }
        } else {
            prev
        }
    }
}

/// The index of the release `resolve_update` picks against `cur`: as
/// `latest_of`, over the releases strictly newer than `cur`.
pub open spec fn update_of(
    rs: Seq<Release>,
    app: Seq<char>,
    target: Seq<char>,
    arch: Seq<char>,
    cur: VersionView,
) -> Option<int>
    decreases rs.len(),
{
    if rs.len() == 0 {
        None
    } else {
        let prev = update_of(rs.drop_last(), app, target, arch, cur);
        if upd_eligible(rs.last(), app, target, arch, cur) {
            match prev {
                None => Some(rs.len() - 1),
                Some(j) => if ver_lt(release_version(rs.last()), release_version(rs[j])) {
                    Some(j)
                } else {
                    Some(rs.len() - 1)
                },
            }
        } else {
            prev
        }
    }
}

/// What `latest_of` picks is an eligible release whose version is maximal
/// among all eligible candidates of the channel, and the last index among
/// releases of that maximal version; `None` exactly when the channel has
/// no eligible release.
pub proof fn lemma_latest_of_props(rs: Seq<Release>, app: Seq<char>, target: Seq<char>, arch: Seq<char>)
    ensures
        match latest_of(rs, app, target, arch) {
            None => forall|i: int| 0 <= i < rs.len() ==> !eligible(rs[i], app, target, arch),
            Some(j) => {
                &&& 0 <= j < rs.len()
                &&& eligible(rs[j], app, target, arch)
                &&& forall|i: int|
                    0 <= i < rs.len() && eligible(rs[i], app, target, arch) ==> ver_le(
                        release_version(rs[i]),
                        release_version(rs[j]),
                    )
                &&& forall|i: int|
                    j < i < rs.len() && eligible(rs[i], app, target, arch) ==> ver_lt(
                        release_version(rs[i]),
                        release_version(rs[j]),
                    )
            },
        },
    decreases rs.len(),
{
    if rs.len() > 0 {
        let prefix = rs.drop_last();
        lemma_latest_of_props(prefix, app, target, arch);
        let n = rs.len() - 1;
        assert(rs.last() == rs[n]);
        assert(forall|i: int| 0 <= i < n ==> rs[i] == prefix[i]);
        lemma_ver_cmp_antisym(release_version(rs[n]), release_version(rs[n]));
        match latest_of(rs, app, target, arch) {
            None => {
            },
            Some(j) => {
                if eligible(rs.last(), app, target, arch) {
                    match latest_of(prefix, app, target, arch) {
                        None => {
                        },
                        Some(k) => {
                            if ver_lt(release_version(rs.last()), release_version(rs[k])) {
                            } else {
                                // the new last element wins; order the prefix below it
                                lemma_ver_cmp_antisym(
                                    release_version(rs.last()),
                                    release_version(rs[k]),
                                );
                                assert forall|i: int|
                                    0 <= i < n && eligible(rs[i], app, target, arch) implies ver_le(
                                    release_version(rs[i]),
                                    release_version(rs[n]),
                                ) by {
                                    lemma_ver_cmp_trans(
                                        release_version(rs[i]),
                                        release_version(rs[k]),
                                        release_version(rs[n]),
                                    );
                                }
                            }
                        },
                    }
                }
            },
        }
    }
}

/// What `update_of` picks is strictly newer than `cur`, eligible, maximal
/// among the candidates newer than `cur`, and the last such index on ties;
/// `None` exactly when no eligible release is newer than `cur`.
pub proof fn lemma_update_of_props(
    rs: Seq<Release>,
    app: Seq<char>,
    target: Seq<char>,
    arch: Seq<char>,
    cur: VersionView,
)
    ensures
        match update_of(rs, app, target, arch, cur) {
            None => forall|i: int| 0 <= i < rs.len() ==> !upd_eligible(rs[i], app, target, arch, cur),
            Some(j) => {
                &&& 0 <= j < rs.len()
                &&& upd_eligible(rs[j], app, target, arch, cur)
                &&& ver_lt(cur, release_version(rs[j]))
                &&& forall|i: int|
                    0 <= i < rs.len() && upd_eligible(rs[i], app, target, arch, cur) ==> ver_le(
                        release_version(rs[i]),
                        release_version(rs[j]),
                    )
                &&& forall|i: int|
                    j < i < rs.len() && upd_eligible(rs[i], app, target, arch, cur) ==> ver_lt(
                        release_version(rs[i]),
                        release_version(rs[j]),
                    )
            },
        },
    decreases rs.len(),
{
    if rs.len() > 0 {
        let prefix = rs.drop_last();
        lemma_update_of_props(prefix, app, target, arch, cur);
        let n = rs.len() - 1;
        assert(rs.last() == rs[n]);
        assert(forall|i: int| 0 <= i < n ==> rs[i] == prefix[i]);
        lemma_ver_cmp_antisym(release_version(rs[n]), release_version(rs[n]));
        match update_of(rs, app, target, arch, cur) {
            None => {
            },
            Some(j) => {
                if upd_eligible(rs.last(), app, target, arch, cur) {
                    match update_of(prefix, app, target, arch, cur) {
                        None => {
                        },
                        Some(k) => {
                            if ver_lt(release_version(rs.last()), release_version(rs[k])) {
                            } else {
                                lemma_ver_cmp_antisym(
                                    release_version(rs.last()),
                                    release_version(rs[k]),
                                );
                                assert forall|i: int|
                                    0 <= i < n && upd_eligible(rs[i], app, target, arch, cur)
                                    implies ver_le(
                                    release_version(rs[i]),
                                    release_version(rs[n]),
                                ) by {
                                    lemma_ver_cmp_trans(
                                        release_version(rs[i]),
                                        release_version(rs[k]),
                                        release_version(rs[n]),
                                    );
                                }
                            }
                        },
                    }
                }
            },
        }
    }
}

/// Resolves the latest release of the channel: the eligible release with
/// the maximal semantic version, the last stored one on ties. Returns its
/// index into `releases`, or `None` when the channel has no eligible
/// release. No error is possible: unparseable stored versions are skipped.
pub fn resolve_latest(
    releases: &Vec<Release>,
    app_name: &str,
    target: &str,
    arch: &str,
) -> (r: Option<usize>)
    ensures
        r matches Some(j) ==> latest_of(releases@, app_name@, target@, arch@) == Some(j as int),
        r is None ==> latest_of(releases@, app_name@, target@, arch@) is None,
        r matches Some(j) ==> j < releases@.len() && eligible(
            releases@[j as int],
            app_name@,
            target@,
            arch@,
        ) && forall|i: int|
            0 <= i < releases@.len() && eligible(releases@[i], app_name@, target@, arch@)
                ==> ver_le(release_version(releases@[i]), release_version(releases@[j as int])),
        r is None ==> forall|i: int|
            0 <= i < releases@.len() ==> !eligible(releases@[i], app_name@, target@, arch@),
{
    proof {
        lemma_latest_of_props(releases@, app_name@, target@, arch@);
    }
    let app_s: String = app_name.to_owned();
    let target_s: String = target.to_owned();
    let arch_s: String = arch.to_owned();
    let mut best_idx: usize = 0;
    let mut best_ver: Option<SemVer> = None;
    let ghost rs = releases@;
    proof {
        assert(rs.take(0) =~= Seq::<Release>::empty());
    }
    let mut i: usize = 0;
    while i < releases.len()
        invariant
            i <= rs.len(),
            rs == releases@,
            app_s@ == app_name@,
            target_s@ == target@,
            arch_s@ == arch@,
            best_ver is None ==> latest_of(rs.take(i as int), app_name@, target@, arch@) is None,
            best_ver matches Some(bv) ==> best_idx < i && latest_of(
                rs.take(i as int),
                app_name@,
                target@,
                arch@,
            ) == Some(best_idx as int) && parsed_version(rs[best_idx as int].version@) == Some(bv@),
        decreases rs.len() - i,
    {
        let ghost prefix = rs.take(i as int);
        proof {
            assert(rs.take(i + 1).drop_last() =~= prefix);
            assert(rs.take(i + 1).last() == rs[i as int]);
        }
        let r = &releases[i];
        if r.app_name == app_s && r.target == target_s && r.arch == arch_s {
            match parse_version(r.version.as_str()) {
                Some(v) => {
                    let replace: bool = match &best_ver {
                        None => true,
                        Some(bv) => v.cmp_precedence(bv) >= 0,
                    };
                    if replace {
                        best_idx = i;
                        best_ver = Some(v);
                    }
                },
                None => {
                    assert(!eligible(rs[i as int], app_name@, target@, arch@));
                },
            }
        } else {
            assert(!in_channel(rs[i as int], app_name@, target@, arch@));
        }
        i += 1;
    }
    proof {
        assert(rs.take(rs.len() as int) =~= rs);
    }
    match best_ver {
        Some(_) => Some(best_idx),
        None => None,
    }
}

/// Resolves the latest release of the channel that is strictly newer than
/// `current_version`. Fails with `InvalidVersion` exactly when
/// `current_version` is not a well-formed semantic version - whatever the
/// stored releases hold, so the error never depends on any store result.
/// `Ok(None)` says that no update is available, a distinct non-error
/// outcome.
pub fn resolve_update(
    releases: &Vec<Release>,
    app_name: &str,
    target: &str,
    arch: &str,
    current_version: &str,
) -> (r: Result<Option<usize>, UpdaterError>)
    ensures
        r is Err <==> parsed_version(current_version@) is None,
        r matches Err(e) ==> e == UpdaterError::InvalidVersion,
        r matches Ok(o) ==> match o {
            Some(j) => update_of(
                releases@,
                app_name@,
                target@,
                arch@,
                parsed_version(current_version@).unwrap(),
            ) == Some(j as int),
            None => update_of(
                releases@,
                app_name@,
                target@,
                arch@,
                parsed_version(current_version@).unwrap(),
            ) is None,
        },
        // what is offered is strictly newer than the caller's version
        r matches Ok(Some(j)) ==> j < releases@.len() && ver_lt(
            parsed_version(current_version@).unwrap(),
            release_version(releases@[j as int]),
        ),
{
    proof {
        if parsed_version(current_version@) is Some {
            lemma_update_of_props(
                releases@,
                app_name@,
                target@,
                arch@,
                parsed_version(current_version@).unwrap(),
            );
        }
    }
    let current = match parse_version(current_version) {
        Some(v) => v,
        None => {
            return Err(UpdaterError::InvalidVersion);
        },
    };
    let ghost cur = parsed_version(current_version@).unwrap();
    let app_s: String = app_name.to_owned();
    let target_s: String = target.to_owned();
    let arch_s: String = arch.to_owned();
    let mut best_idx: usize = 0;
    let mut best_ver: Option<SemVer> = None;
    let ghost rs = releases@;
    proof {
        assert(rs.take(0) =~= Seq::<Release>::empty());
    }
    let mut i: usize = 0;
    while i < releases.len()
        invariant
            i <= rs.len(),
            rs == releases@,
            app_s@ == app_name@,
            target_s@ == target@,
            arch_s@ == arch@,
            current@ == cur,
            parsed_version(current_version@) == Some(cur),
            best_ver is None ==> update_of(rs.take(i as int), app_name@, target@, arch@, cur)
                is None,
            best_ver matches Some(bv) ==> best_idx < i && update_of(
                rs.take(i as int),
                app_name@,
                target@,
                arch@,
                cur,
            ) == Some(best_idx as int) && parsed_version(rs[best_idx as int].version@) == Some(bv@),
        decreases rs.len() - i,
    {
        let ghost prefix = rs.take(i as int);
        proof {
            assert(rs.take(i + 1).drop_last() =~= prefix);
            assert(rs.take(i + 1).last() == rs[i as int]);
        }
        let r = &releases[i];
        if r.app_name == app_s && r.target == target_s && r.arch == arch_s {
            match parse_version(r.version.as_str()) {
                Some(v) => {
                    if current.cmp_precedence(&v) < 0 {
                        let replace: bool = match &best_ver {
                            None => true,
                            Some(bv) => v.cmp_precedence(bv) >= 0,
                        };
                        if replace {
                            best_idx = i;
                            best_ver = Some(v);
                        }
                    } else {
                        assert(!upd_eligible(rs[i as int], app_name@, target@, arch@, cur));
                    }
                },
                None => {
                    assert(!eligible(rs[i as int], app_name@, target@, arch@));
                },
            }
        } else {
            assert(!in_channel(rs[i as int], app_name@, target@, arch@));
        }
        i += 1;
    }
    proof {
        assert(rs.take(rs.len() as int) =~= rs);
    }
    match best_ver {
        Some(_) => Ok(Some(best_idx)),
        None => Ok(None),
    }
}

impl Release {
    /// The response body for this release: the same version, url,
    /// signature, publication date and notes, without identity and
    /// channel fields.
    pub fn update_response(&self) -> (u: UpdateResponse)
        ensures
            u.version == self.version,
            u.url == self.url,
            u.signature == self.signature,
            u.pub_date == self.pub_date,
            u.notes == self.notes,
    {
        UpdateResponse {
            version: self.version.clone(),
            url: self.url.clone(),
            signature: self.signature.clone(),
            pub_date: self.pub_date.clone(),
            notes: self.notes.clone(),
        }
    }
}

/// The publication date of a release, as the bytes of its stored
/// ISO-8601 string. The dates are compared byte by byte: for ISO-8601
/// timestamps that order coincides with chronological order.
pub open spec fn date_bytes(r: Release) -> Seq<u8> {
    encode_utf8(r.pub_date@)
}

/// Whether the releases stand in descending publication-date order.
pub open spec fn date_sorted_desc(rs: Seq<Release>) -> bool {
    forall|i: int, j: int|
        0 <= i < j < rs.len() ==> lex_cmp(date_bytes(rs[i]), date_bytes(rs[j])) >= 0
}

/// Byte-by-byte comparison of two publication dates.
fn cmp_dates(a: &String, b: &String) -> (c: i8)
    ensures
        c as int == lex_cmp(encode_utf8(a@), encode_utf8(b@)),
{
    let ab: &[u8] = a.as_str().as_bytes();
    let bb: &[u8] = b.as_str().as_bytes();
    proof {
        assert(ab@.skip(0) =~= ab@);
        assert(bb@.skip(0) =~= bb@);
    }
    let mut i: usize = 0;
    loop
        invariant
            i <= ab@.len(),
            i <= bb@.len(),
            ab@ == encode_utf8(a@),
            bb@ == encode_utf8(b@),
            lex_cmp(ab@, bb@) == lex_cmp(ab@.skip(i as int), bb@.skip(i as int)),
        decreases ab@.len() - i,
    {
        if i == ab.len() && i == bb.len() {
            return 0;
        }
        if i == ab.len() {
            return -1;
        }
        if i == bb.len() {
            return 1;
        }
        if ab[i] < bb[i] {
            return -1;
        }
        if ab[i] > bb[i] {
            return 1;
        }
        proof {
            assert(ab@.skip(i as int).first() == ab@[i as int]);
            assert(bb@.skip(i as int).first() == bb@[i as int]);
            assert(ab@.skip(i as int).drop_first() =~= ab@.skip(i + 1));
            assert(bb@.skip(i as int).drop_first() =~= bb@.skip(i + 1));
        }
        i += 1;
    }
}

/// Sorts releases by publication date, newest first, as the listing
/// endpoint serves them. The result holds exactly the input releases.
pub fn sort_releases_by_date(releases: Vec<Release>) -> (out: Vec<Release>)
    ensures
        date_sorted_desc(out@),
        out@.to_multiset() == releases@.to_multiset(),
{
    let ghost orig = releases@;
    let mut rest = releases;
    let mut out: Vec<Release> = Vec::new();
    proof {
        assert(out@.to_multiset().add(rest@.to_multiset()) =~= orig.to_multiset());
    }
    while rest.len() > 0
        invariant
            out@.to_multiset().add(rest@.to_multiset()) == orig.to_multiset(),
            date_sorted_desc(out@),
            forall|i: int, j: int|
                0 <= i < out@.len() && 0 <= j < rest@.len() ==> lex_cmp(
                    date_bytes(out@[i]),
                    date_bytes(rest@[j]),
                ) >= 0,
        decreases rest@.len(),
    {
        let mut m: usize = 0;
        let mut k: usize = 1;
        proof {
            lemma_lex_cmp_antisym(date_bytes(rest@[0]), date_bytes(rest@[0]));
        }
        while k < rest.len()
            invariant
                1 <= k <= rest@.len(),
                m < k,
                forall|j: int|
                    0 <= j < k ==> lex_cmp(date_bytes(rest@[j]), date_bytes(rest@[m as int]))
                        <= 0,
            decreases rest@.len() - k,
        {
            let c = cmp_dates(&rest[k].pub_date, &rest[m].pub_date);
            if c > 0 {
                proof {
                    lemma_lex_cmp_antisym(date_bytes(rest@[m as int]), date_bytes(rest@[k as int]));
                    lemma_lex_cmp_antisym(date_bytes(rest@[k as int]), date_bytes(rest@[k as int]));
                    assert forall|j: int| 0 <= j < k + 1 implies lex_cmp(
                        date_bytes(rest@[j]),
                        date_bytes(rest@[k as int]),
                    ) <= 0 by {
                        if j < k {
                            lemma_lex_cmp_trans(
                                date_bytes(rest@[j]),
                                date_bytes(rest@[m as int]),
                                date_bytes(rest@[k as int]),
                            );
                        }
                    }
                }
                m = k;
            } else {
                proof {
                    assert forall|j: int| 0 <= j < k + 1 implies lex_cmp(
                        date_bytes(rest@[j]),
                        date_bytes(rest@[m as int]),
                    ) <= 0 by {}
                }
            }
            k += 1;
        }
        let ghost before = rest@;
        let x = rest.remove(m);
        let ghost mid_out = out@;
        out.push(x);
        proof {
            assert(x == before[m as int]);
            assert(before.contains(x));
            // every element left in `rest` was outranked by `x`
            assert forall|j: int| 0 <= j < rest@.len() implies lex_cmp(
                date_bytes(x),
                date_bytes(rest@[j]),
            ) >= 0 by {
                let j0: int = if j < m { j } else { j + 1 };
                assert(rest@[j] == before[j0]);
                lemma_lex_cmp_antisym(date_bytes(before[j0]), date_bytes(x));
            }
            // the multiset balance is kept: `x` moved from `rest` to `out`
            assert(out@ == mid_out.push(x));
            assert(mid_out.push(x).to_multiset() =~= mid_out.to_multiset().insert(x));
            assert(before.remove(m as int).to_multiset() =~= before.to_multiset().remove(x));
            assert(rest@ == before.remove(m as int));
            assert(before.to_multiset().count(x) > 0);
            assert(out@.to_multiset().add(rest@.to_multiset()) =~= orig.to_multiset());
        }
    }
    proof {
        assert(rest@.to_multiset() =~= Multiset::<Release>::empty());
        assert(out@.to_multiset() =~= orig.to_multiset());
    }
    out
}

/// A release whose stored version string does not parse never changes what
/// either resolution operation returns - and causes no error, since
/// resolution has no error outcome at all.
pub proof fn lemma_unparseable_excluded(
    rs: Seq<Release>,
    app: Seq<char>,
    target: Seq<char>,
    arch: Seq<char>,
    cur: VersionView,
    x: Release,
)
    requires
        parsed_version(x.version@) is None,
    ensures
        latest_of(rs.push(x), app, target, arch) == latest_of(rs, app, target, arch),
        update_of(rs.push(x), app, target, arch, cur) == update_of(rs, app, target, arch, cur),
{
    assert(rs.push(x).drop_last() =~= rs);
    assert(rs.push(x).last() == x);
}

} // verus!
