use updater::version::SemVer;

fn ver(major: u64, minor: u64, patch: u64, pre: &str) -> SemVer {
    SemVer {
        major,
        minor,
        patch,
        pre: pre.as_bytes().to_vec(),
    }
}

#[test]
fn numeric_triple_order() {
    assert_eq!(ver(1, 0, 0, "").cmp_precedence(&ver(1, 0, 1, "")), -1);
    assert_eq!(ver(1, 0, 1, "").cmp_precedence(&ver(1, 0, 0, "")), 1);
    assert_eq!(ver(1, 0, 1, "").cmp_precedence(&ver(1, 2, 0, "")), -1);
    assert_eq!(ver(2, 0, 0, "").cmp_precedence(&ver(1, 9, 9, "")), 1);
    assert_eq!(ver(1, 2, 3, "").cmp_precedence(&ver(1, 2, 3, "")), 0);
}

#[test]
fn major_outranks_string_order() {
    // byte order would put "10..." before "2..."; numeric order must not
    assert_eq!(ver(10, 0, 0, "").cmp_precedence(&ver(2, 0, 0, "")), 1);
}

#[test]
fn prerelease_below_release() {
    assert_eq!(ver(1, 2, 0, "beta").cmp_precedence(&ver(1, 2, 0, "")), -1);
    assert_eq!(ver(1, 2, 0, "").cmp_precedence(&ver(1, 2, 0, "beta")), 1);
}

#[test]
fn prerelease_of_higher_minor_outranks_lower_release() {
    assert_eq!(ver(1, 2, 0, "beta").cmp_precedence(&ver(1, 0, 1, "")), 1);
}

#[test]
fn prerelease_identifier_order() {
    // a proper prefix of the identifier list orders first
    assert_eq!(ver(1, 0, 0, "alpha").cmp_precedence(&ver(1, 0, 0, "alpha.1")), -1);
    // numeric identifiers order below alphanumeric ones
    assert_eq!(ver(1, 0, 0, "alpha.1").cmp_precedence(&ver(1, 0, 0, "alpha.beta")), -1);
    // numeric identifiers are compared by value, not byte by byte
    assert_eq!(ver(1, 0, 0, "alpha.2").cmp_precedence(&ver(1, 0, 0, "alpha.10")), -1);
    // alphanumeric identifiers are compared byte by byte
    assert_eq!(ver(1, 0, 0, "alpha").cmp_precedence(&ver(1, 0, 0, "beta")), -1);
    assert_eq!(ver(1, 0, 0, "beta.2").cmp_precedence(&ver(1, 0, 0, "beta.2")), 0);
}

#[test]
fn numeric_identifiers_ignore_leading_zeros() {
    assert_eq!(ver(1, 0, 0, "02").cmp_precedence(&ver(1, 0, 0, "3")), -1);
    assert_eq!(ver(1, 0, 0, "010").cmp_precedence(&ver(1, 0, 0, "10")), 0);
    assert_eq!(ver(1, 0, 0, "00").cmp_precedence(&ver(1, 0, 0, "0")), 0);
}
