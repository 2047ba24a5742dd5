//! Semantic versions and their precedence order.
//!
//! A version is a `major.minor.patch` triple with an optional pre-release
//! part. Precedence follows the semantic-versioning rules: the numeric
//! triple is compared first; a version with a pre-release part orders below
//! the same triple without one; pre-release parts are compared identifier by
//! identifier, where identifiers made of digits only are compared by their
//! numeric value, digit-only identifiers order below all others, and the
//! remaining identifiers are compared byte by byte.
//!
//! Parsing of the version grammar is delegated to the `semver` crate; the
//! precedence order is defined and verified here.

use vstd::prelude::*;

verus! {

/// The byte `'.'`, which separates pre-release identifiers.
pub const DOT: u8 = 46;

/// A parsed semantic version. `pre` holds the raw bytes of the pre-release
/// part (what follows `-`), empty when the version has none. Build metadata
/// does not take part in precedence and is not kept.
pub struct SemVer {
    pub major: u64,
    pub minor: u64,
    pub patch: u64,
    pub pre: Vec<u8>,
}

/// The mathematical value of a `SemVer`.
pub ghost struct VersionView {
    pub major: nat,
    pub minor: nat,
    pub patch: nat,
    pub pre: Seq<u8>,
}

impl View for SemVer {
    type V = VersionView;

    open spec fn view(&self) -> VersionView {
        VersionView {
            major: self.major as nat,
            minor: self.minor as nat,
            patch: self.patch as nat,
            pre: self.pre@,
        }
    }
}

/// Three-way comparison of two integers: -1, 0 or 1.
pub open spec fn int_cmp(x: int, y: int) -> int {
    if x < y {
        -1
    } else if x > y {
        1
    } else {
        0
    }
}

/// Whether `c` is an ASCII digit.
pub open spec fn is_digit(c: u8) -> bool {
    48 <= c <= 57
}

/// A numeric identifier: nonempty and made of digits only.
pub open spec fn is_num_id(s: Seq<u8>) -> bool {
    s.len() > 0 && forall|i: int| 0 <= i < s.len() ==> is_digit(s[i])
}

/// The number a digit string denotes in base ten.
pub open spec fn num_val(s: Seq<u8>) -> int
    decreases s.len(),
{
    if s.len() == 0 {
        0
    } else {
        num_val(s.drop_last()) * 10 + (s.last() - 48)
    }
}

/// Byte-by-byte lexicographic comparison; a proper prefix orders first.
pub open spec fn lex_cmp(a: Seq<u8>, b: Seq<u8>) -> int
    decreases a.len(),
{
    if a.len() == 0 && b.len() == 0 {
        0
    } else if a.len() == 0 {
        -1
    } else if b.len() == 0 {
        1
    } else if a.first() < b.first() {
        -1
    } else if a.first() > b.first() {
        1
    } else {
        lex_cmp(a.drop_first(), b.drop_first())
    }
}

/// Comparison of two pre-release identifiers: numeric ones by value,
/// numeric below non-numeric, non-numeric ones byte by byte.
pub open spec fn id_cmp(a: Seq<u8>, b: Seq<u8>) -> int {
    if is_num_id(a) && is_num_id(b) {
        int_cmp(num_val(a), num_val(b))
    } else if is_num_id(a) {
        -1
    } else if is_num_id(b) {
        1
    } else {
        lex_cmp(a, b)
    }
}

/// The identifiers of a pre-release part: the byte string split at each dot.
/// The result always holds at least one identifier; an empty input yields
/// one empty identifier.
pub open spec fn split_ids(s: Seq<u8>) -> Seq<Seq<u8>>
    decreases s.len(),
{
    if s.len() == 0 {
        seq![Seq::<u8>::empty()]
    } else if s.first() == DOT {
        seq![Seq::<u8>::empty()] + split_ids(s.drop_first())
    } else {
        let rest = split_ids(s.drop_first());
        seq![seq![s.first()] + rest.first()] + rest.drop_first()
    }
}

/// Identifier-list comparison: identifier by identifier, and a proper
/// prefix orders first.
pub open spec fn ids_cmp(a: Seq<Seq<u8>>, b: Seq<Seq<u8>>) -> int
    decreases a.len(),
{
    if a.len() == 0 && b.len() == 0 {
        0
    } else if a.len() == 0 {
        -1
    } else if b.len() == 0 {
        1
    } else if id_cmp(a.first(), b.first()) != 0 {
        id_cmp(a.first(), b.first())
    } else {
        ids_cmp(a.drop_first(), b.drop_first())
    }
}

/// Comparison of two pre-release parts. An empty part (no pre-release)
/// orders above any nonempty one.
pub open spec fn pre_cmp(a: Seq<u8>, b: Seq<u8>) -> int {
    if a.len() == 0 && b.len() == 0 {
        0
    } else if a.len() == 0 {
        1
    } else if b.len() == 0 {
        -1
    } else {
        ids_cmp(split_ids(a), split_ids(b))
    }
}

/// Semantic-version precedence: the numeric triple, then the pre-release
/// part.
pub open spec fn ver_cmp(a: VersionView, b: VersionView) -> int {
    if a.major != b.major {
        int_cmp(a.major as int, b.major as int)
    } else if a.minor != b.minor {
        int_cmp(a.minor as int, b.minor as int)
    } else if a.patch != b.patch {
        int_cmp(a.patch as int, b.patch as int)
    } else {
        pre_cmp(a.pre, b.pre)
    }
}

/// `a` has strictly lower precedence than `b`.
pub open spec fn ver_lt(a: VersionView, b: VersionView) -> bool {
    ver_cmp(a, b) < 0
}

/// `a` has lower or equal precedence to `b`.
pub open spec fn ver_le(a: VersionView, b: VersionView) -> bool {
    ver_cmp(a, b) <= 0
}

/// Ten to the power `n`.
pub open spec fn pow10(n: nat) -> int
    decreases n,
{
    if n == 0 {
        1
    } else {
        10 * pow10((n - 1) as nat)
    }
}

pub proof fn lemma_pow10_pos(n: nat)
    ensures
        pow10(n) >= 1,
    decreases n,
{
    if n > 0 {
        lemma_pow10_pos((n - 1) as nat);
    }
}

pub proof fn lemma_pow10_mono(m: nat, n: nat)
    requires
        m <= n,
    ensures
        pow10(m) <= pow10(n),
    decreases n,
{
    if m < n {
        lemma_pow10_mono(m, (n - 1) as nat);
        lemma_pow10_pos((n - 1) as nat);
    }
}

/// The value of a concatenation: the left part shifted by the length of the
/// right part.
pub proof fn lemma_num_val_concat(a: Seq<u8>, b: Seq<u8>)
    ensures
        num_val(a + b) == num_val(a) * pow10(b.len()) + num_val(b),
    decreases b.len(),
{
    if b.len() == 0 {
        assert(a + b =~= a);
    } else {
        lemma_num_val_concat(a, b.drop_last());
        assert((a + b).drop_last() =~= a + b.drop_last());
        assert((a + b).last() == b.last());
        assert(num_val(a) * pow10((b.len() - 1) as nat) * 10 == num_val(a) * pow10(b.len()))
            by (nonlinear_arith)
            requires
                pow10(b.len()) == 10 * pow10((b.len() - 1) as nat),
        ;
    }
}

pub proof fn lemma_num_val_bounds(s: Seq<u8>)
    requires
        forall|i: int| 0 <= i < s.len() ==> is_digit(s[i]),
    ensures
        0 <= num_val(s) < pow10(s.len()),
    decreases s.len(),
{
    if s.len() > 0 {
        lemma_num_val_bounds(s.drop_last());
    }
}

/// A digit string that does not start with `'0'` reaches the magnitude its
/// length promises.
pub proof fn lemma_num_val_lower(s: Seq<u8>)
    requires
        is_num_id(s),
        s.first() != 48,
    ensures
        num_val(s) >= pow10((s.len() - 1) as nat),
    decreases s.len(),
{
    let dl = s.drop_last();
    if s.len() == 1 {
        assert(num_val(dl) == 0);
    } else {
        assert(dl.first() == s.first());
        assert forall|i: int| 0 <= i < dl.len() implies is_digit(dl[i]) by {
            assert(dl[i] == s[i]);
        }
        lemma_num_val_lower(dl);
        assert(pow10((s.len() - 1) as nat) == 10 * pow10((s.len() - 2) as nat));
        assert(num_val(s) == num_val(dl) * 10 + (s.last() - 48));
    }
}

pub proof fn lemma_num_val_zeros(s: Seq<u8>)
    requires
        forall|i: int| 0 <= i < s.len() ==> s[i] == 48,
    ensures
        num_val(s) == 0,
    decreases s.len(),
{
    if s.len() > 0 {
        lemma_num_val_zeros(s.drop_last());
    }
}

/// Leading zeros do not change the value of a digit string.
pub proof fn lemma_num_val_strip(s: Seq<u8>, k: int)
    requires
        0 <= k <= s.len(),
        forall|i: int| 0 <= i < k ==> s[i] == 48,
    ensures
        num_val(s.skip(k)) == num_val(s),
{
    assert(s =~= s.take(k) + s.skip(k));
    lemma_num_val_concat(s.take(k), s.skip(k));
    lemma_num_val_zeros(s.take(k));
}

/// On digit strings of equal length, byte order and numeric order agree.
pub proof fn lemma_lex_num(a: Seq<u8>, b: Seq<u8>)
    requires
        is_num_id(a),
        is_num_id(b),
        a.len() == b.len(),
    ensures
        int_cmp(num_val(a), num_val(b)) == lex_cmp(a, b),
    decreases a.len(),
{
    let n = a.len();
    let p = pow10((n - 1) as nat);
    lemma_pow10_pos((n - 1) as nat);
    assert(a =~= seq![a.first()] + a.drop_first());
    assert(b =~= seq![b.first()] + b.drop_first());
    lemma_num_val_concat(seq![a.first()], a.drop_first());
    lemma_num_val_concat(seq![b.first()], b.drop_first());
    assert(num_val(Seq::<u8>::empty()) == 0);
    assert(seq![a.first()].drop_last() =~= Seq::<u8>::empty());
    assert(seq![b.first()].drop_last() =~= Seq::<u8>::empty());
    assert(num_val(seq![a.first()]) == a.first() - 48);
    assert(num_val(seq![b.first()]) == b.first() - 48);
    lemma_num_val_bounds(a.drop_first());
    lemma_num_val_bounds(b.drop_first());
    assert(num_val(a) == (a.first() - 48) * p + num_val(a.drop_first()));
    assert(num_val(b) == (b.first() - 48) * p + num_val(b.drop_first()));
    if a.first() < b.first() {
        assert((a.first() - 48 + 1) * p <= (b.first() - 48) * p) by (nonlinear_arith)
            requires
                p >= 1,
                a.first() + 1 <= b.first(),
        ;
        assert((a.first() - 48 + 1) * p == (a.first() - 48) * p + p) by (nonlinear_arith);
        assert(num_val(a) < num_val(b));
    } else if a.first() > b.first() {
        assert((b.first() - 48 + 1) * p <= (a.first() - 48) * p) by (nonlinear_arith)
            requires
                p >= 1,
                b.first() + 1 <= a.first(),
        ;
        assert((b.first() - 48 + 1) * p == (b.first() - 48) * p + p) by (nonlinear_arith);
        assert(num_val(b) < num_val(a));
    } else if n == 1 {
        assert(a =~= b);
        assert(lex_cmp(a.drop_first(), b.drop_first()) == 0);
    } else {
        let ta = a.drop_first();
        let tb = b.drop_first();
        assert forall|i: int| 0 <= i < ta.len() implies is_digit(ta[i]) by {
            assert(ta[i] == a[i + 1]);
        }
        assert forall|i: int| 0 <= i < tb.len() implies is_digit(tb[i]) by {
            assert(tb[i] == b[i + 1]);
        }
        lemma_lex_num(ta, tb);
    }
}

pub proof fn lemma_lex_cmp_antisym(a: Seq<u8>, b: Seq<u8>)
    ensures
        lex_cmp(a, b) == -lex_cmp(b, a),
    decreases a.len(),
{
    if a.len() > 0 && b.len() > 0 && a.first() == b.first() {
        lemma_lex_cmp_antisym(a.drop_first(), b.drop_first());
    }
}

/// `lex_cmp` is transitive, also in its strict form.
pub proof fn lemma_lex_cmp_trans(a: Seq<u8>, b: Seq<u8>, c: Seq<u8>)
    ensures
        lex_cmp(a, b) <= 0 && lex_cmp(b, c) <= 0 ==> lex_cmp(a, c) <= 0,
        lex_cmp(a, b) <= 0 && lex_cmp(b, c) <= 0 && (lex_cmp(a, b) < 0 || lex_cmp(b, c) < 0)
            ==> lex_cmp(a, c) < 0,
    decreases a.len(), b.len(), c.len(),
{
    if lex_cmp(a, b) <= 0 && lex_cmp(b, c) <= 0 {
        if a.len() > 0 && b.len() > 0 && c.len() > 0 {
            if a.first() == b.first() && b.first() == c.first() {
                lemma_lex_cmp_trans(a.drop_first(), b.drop_first(), c.drop_first());
            }
        }
    }
}

pub proof fn lemma_id_cmp_antisym(a: Seq<u8>, b: Seq<u8>)
    ensures
        id_cmp(a, b) == -id_cmp(b, a),
{
    lemma_lex_cmp_antisym(a, b);
}

/// `id_cmp` is transitive, also in its strict form.
pub proof fn lemma_id_cmp_trans(a: Seq<u8>, b: Seq<u8>, c: Seq<u8>)
    ensures
        id_cmp(a, b) <= 0 && id_cmp(b, c) <= 0 ==> id_cmp(a, c) <= 0,
        id_cmp(a, b) <= 0 && id_cmp(b, c) <= 0 && (id_cmp(a, b) < 0 || id_cmp(b, c) < 0)
            ==> id_cmp(a, c) < 0,
{
    lemma_lex_cmp_trans(a, b, c);
}

pub proof fn lemma_ids_cmp_antisym(a: Seq<Seq<u8>>, b: Seq<Seq<u8>>)
    ensures
        ids_cmp(a, b) == -ids_cmp(b, a),
    decreases a.len(),
{
    if a.len() > 0 && b.len() > 0 {
        lemma_id_cmp_antisym(a.first(), b.first());
        if id_cmp(a.first(), b.first()) == 0 {
            lemma_ids_cmp_antisym(a.drop_first(), b.drop_first());
        }
    }
}

/// `ids_cmp` is transitive, also in its strict form.
pub proof fn lemma_ids_cmp_trans(a: Seq<Seq<u8>>, b: Seq<Seq<u8>>, c: Seq<Seq<u8>>)
    ensures
        ids_cmp(a, b) <= 0 && ids_cmp(b, c) <= 0 ==> ids_cmp(a, c) <= 0,
        ids_cmp(a, b) <= 0 && ids_cmp(b, c) <= 0 && (ids_cmp(a, b) < 0 || ids_cmp(b, c) < 0)
            ==> ids_cmp(a, c) < 0,
    decreases a.len(), b.len(), c.len(),
{
    if ids_cmp(a, b) <= 0 && ids_cmp(b, c) <= 0 {
        if a.len() > 0 && b.len() > 0 && c.len() > 0 {
            lemma_id_cmp_trans(a.first(), b.first(), c.first());
            lemma_id_cmp_trans(c.first(), b.first(), a.first());
            lemma_id_cmp_antisym(a.first(), b.first());
            lemma_id_cmp_antisym(b.first(), c.first());
            lemma_id_cmp_antisym(a.first(), c.first());
            if id_cmp(a.first(), b.first()) == 0 && id_cmp(b.first(), c.first()) == 0 {
                lemma_ids_cmp_trans(a.drop_first(), b.drop_first(), c.drop_first());
            }
        }
    }
}

pub proof fn lemma_pre_cmp_antisym(a: Seq<u8>, b: Seq<u8>)
    ensures
        pre_cmp(a, b) == -pre_cmp(b, a),
{
    if a.len() > 0 && b.len() > 0 {
        lemma_ids_cmp_antisym(split_ids(a), split_ids(b));
    }
}

/// `pre_cmp` is transitive, also in its strict form.
pub proof fn lemma_pre_cmp_trans(a: Seq<u8>, b: Seq<u8>, c: Seq<u8>)
    ensures
        pre_cmp(a, b) <= 0 && pre_cmp(b, c) <= 0 ==> pre_cmp(a, c) <= 0,
        pre_cmp(a, b) <= 0 && pre_cmp(b, c) <= 0 && (pre_cmp(a, b) < 0 || pre_cmp(b, c) < 0)
            ==> pre_cmp(a, c) < 0,
{
    if a.len() > 0 && b.len() > 0 && c.len() > 0 {
        lemma_ids_cmp_trans(split_ids(a), split_ids(b), split_ids(c));
    }
}

pub proof fn lemma_ver_cmp_antisym(a: VersionView, b: VersionView)
    ensures
        ver_cmp(a, b) == -ver_cmp(b, a),
{
    lemma_pre_cmp_antisym(a.pre, b.pre);
}

/// Precedence is transitive, also in its strict form.
pub proof fn lemma_ver_cmp_trans(a: VersionView, b: VersionView, c: VersionView)
    ensures
        ver_cmp(a, b) <= 0 && ver_cmp(b, c) <= 0 ==> ver_cmp(a, c) <= 0,
        ver_cmp(a, b) <= 0 && ver_cmp(b, c) <= 0 && (ver_cmp(a, b) < 0 || ver_cmp(b, c) < 0)
            ==> ver_cmp(a, c) < 0,
{
    lemma_pre_cmp_trans(a.pre, b.pre, c.pre);
    lemma_pre_cmp_antisym(a.pre, b.pre);
    lemma_pre_cmp_antisym(b.pre, c.pre);
    lemma_pre_cmp_trans(c.pre, b.pre, a.pre);
}

pub proof fn lemma_split_ids_len(s: Seq<u8>)
    ensures
        split_ids(s).len() >= 1,
    decreases s.len(),
{
    if s.len() > 0 {
        lemma_split_ids_len(s.drop_first());
    }
}

/// How the split of a byte string grows when one byte is appended: a dot
/// opens a new empty identifier, any other byte extends the last one.
pub proof fn lemma_split_push(s: Seq<u8>, c: u8)
    ensures
        c == DOT ==> split_ids(s.push(c)) == split_ids(s).push(Seq::<u8>::empty()),
        c != DOT ==> split_ids(s.push(c)) == split_ids(s).update(
            split_ids(s).len() - 1,
            split_ids(s).last().push(c),
        ),
    decreases s.len(),
{
    lemma_split_ids_len(s);
    if s.len() == 0 {
        assert(s.push(c).drop_first() =~= Seq::<u8>::empty());
        assert(s.push(c).first() == c);
        assert(split_ids(Seq::<u8>::empty()) == seq![Seq::<u8>::empty()]);
        assert(s =~= Seq::<u8>::empty());
        if c == DOT {
            assert(split_ids(s.push(c)) == seq![Seq::<u8>::empty()] + split_ids(
                Seq::<u8>::empty(),
            ));
            assert(split_ids(s.push(c)) =~~= split_ids(s).push(Seq::<u8>::empty()));
        } else {
            assert(seq![s.push(c).first()] + split_ids(Seq::<u8>::empty()).first() =~= seq![c]);
            assert(split_ids(s.push(c)) =~~= split_ids(s).update(
                split_ids(s).len() - 1,
                split_ids(s).last().push(c),
            ));
        }
    } else {
        let t = s.drop_first();
        assert(s.push(c).first() == s.first());
        assert(s.push(c).drop_first() =~= t.push(c));
        lemma_split_push(t, c);
        lemma_split_ids_len(t);
        lemma_split_ids_len(t.push(c));
        if c == DOT {
            if s.first() == DOT {
                assert(split_ids(s.push(c)) == seq![Seq::<u8>::empty()] + split_ids(t.push(c)));
                assert(split_ids(t.push(c)) == split_ids(t).push(Seq::<u8>::empty()));
                assert(split_ids(s) == seq![Seq::<u8>::empty()] + split_ids(t));
                assert(split_ids(s.push(c)) =~~= split_ids(s).push(Seq::<u8>::empty()));
            } else {
                let rest = split_ids(t);
                let restp = split_ids(t.push(c));
                assert(restp == rest.push(Seq::<u8>::empty()));
                assert(restp.first() == rest.first());
                assert(split_ids(s.push(c)) == seq![seq![s.first()] + restp.first()]
                    + restp.drop_first());
                assert(restp.drop_first() =~~= rest.drop_first().push(Seq::<u8>::empty()));
                assert(split_ids(s.push(c)) =~~= split_ids(s).push(Seq::<u8>::empty()));
            }
        } else {
            if s.first() == DOT {
                assert(split_ids(s.push(c)) =~~= split_ids(s).update(
                    split_ids(s).len() - 1,
                    split_ids(s).last().push(c),
                ));
            } else {
                let rest = split_ids(t);
                let restp = split_ids(t.push(c));
                if rest.len() == 1 {
                    assert(restp == rest.update(0, rest.last().push(c)));
                    assert(restp.first() == rest.first().push(c));
                    assert(split_ids(s.push(c)) =~~= split_ids(s).update(
                        split_ids(s).len() - 1,
                        split_ids(s).last().push(c),
                    ));
                } else {
                    assert(restp.first() == rest.first());
                    assert(split_ids(s.push(c)) =~~= split_ids(s).update(
                        split_ids(s).len() - 1,
                        split_ids(s).last().push(c),
                    ));
                }
            }
        }
    }
}

/// What the `semver` grammar makes of a version string: its parsed value,
/// or nothing when the string is not a well-formed semantic version.
pub uninterp spec fn parsed_version(s: Seq<char>) -> Option<VersionView>;

/// Whether `v` is a numeric identifier: nonempty, digits only.
fn all_digits(v: &Vec<u8>) -> (r: bool)
    ensures
        r == is_num_id(v@),
{
    if v.len() == 0 {
        return false;
    }
    let mut i: usize = 0;
    while i < v.len()
        invariant
            i <= v@.len(),
            v@.len() > 0,
            forall|j: int| 0 <= j < i ==> is_digit(v@[j]),
        decreases v@.len() - i,
    {
        let c = v[i];
        if c < 48 || c > 57 {
            assert(!is_digit(v@[i as int]));
            return false;
        }
        i += 1;
    }
    true
}

/// The number of leading `'0'` bytes of `v`.
fn leading_zeros(v: &Vec<u8>) -> (k: usize)
    ensures
        k <= v@.len(),
        forall|j: int| 0 <= j < k ==> v@[j] == 48,
        k < v@.len() ==> v@[k as int] != 48,
{
    let mut i: usize = 0;
    while i < v.len()
        invariant
            i <= v@.len(),
            forall|j: int| 0 <= j < i ==> v@[j] == 48,
        decreases v@.len() - i,
    {
        if v[i] != 48 {
            return i;
        }
        i += 1;
    }
    i
}

/// Byte-by-byte comparison of the suffixes `a[i0..]` and `b[j0..]`.
fn lex_cmp_from(a: &Vec<u8>, i0: usize, b: &Vec<u8>, j0: usize) -> (c: i8)
    requires
        i0 <= a@.len(),
        j0 <= b@.len(),
    ensures
        c as int == lex_cmp(a@.skip(i0 as int), b@.skip(j0 as int)),
{
    let mut i: usize = i0;
    let mut j: usize = j0;
    loop
        invariant
            i0 <= i <= a@.len(),
            j0 <= j <= b@.len(),
            lex_cmp(a@.skip(i0 as int), b@.skip(j0 as int)) == lex_cmp(
                a@.skip(i as int),
                b@.skip(j as int),
            ),
        decreases a@.len() - i,
    {
        if i == a.len() && j == b.len() {
            return 0;
        }
        if i == a.len() {
            return -1;
        }
        if j == b.len() {
            return 1;
        }
        if a[i] < b[j] {
            return -1;
        }
        if a[i] > b[j] {
            return 1;
        }
        proof {
            assert(a@.skip(i as int).first() == a@[i as int]);
            assert(b@.skip(j as int).first() == b@[j as int]);
            assert(a@.skip(i as int).drop_first() =~= a@.skip(i + 1));
            assert(b@.skip(j as int).drop_first() =~= b@.skip(j + 1));
        }
        i += 1;
        j += 1;
    }
}

/// Numeric comparison of two digit strings, of any length: leading zeros
/// are stripped, then a longer string denotes a larger number, and equal
/// lengths fall back to byte order.
fn num_cmp(a: &Vec<u8>, b: &Vec<u8>) -> (c: i8)
    requires
        is_num_id(a@),
        is_num_id(b@),
    ensures
        c as int == int_cmp(num_val(a@), num_val(b@)),
{
    let za = leading_zeros(a);
    let zb = leading_zeros(b);
    let ghost sa = a@.skip(za as int);
    let ghost sb = b@.skip(zb as int);
    proof {
        lemma_num_val_strip(a@, za as int);
        lemma_num_val_strip(b@, zb as int);
        assert forall|j: int| 0 <= j < sa.len() implies is_digit(sa[j]) by {
            assert(sa[j] == a@[j + za]);
        }
        assert forall|j: int| 0 <= j < sb.len() implies is_digit(sb[j]) by {
            assert(sb[j] == b@[j + zb]);
        }
        lemma_num_val_bounds(sa);
        lemma_num_val_bounds(sb);
    }
    let la = a.len() - za;
    let lb = b.len() - zb;
    if la < lb {
        proof {
            assert(sb.first() == b@[zb as int]);
            lemma_num_val_lower(sb);
            lemma_pow10_mono(la as nat, (lb - 1) as nat);
        }
        -1
    } else if lb < la {
        proof {
            assert(sa.first() == a@[za as int]);
            lemma_num_val_lower(sa);
            lemma_pow10_mono(lb as nat, (la - 1) as nat);
        }
        1
    } else if la == 0 {
        proof {
            assert(num_val(sa) == 0);
            assert(num_val(sb) == 0);
        }
        0
    } else {
        let r = lex_cmp_from(a, za, b, zb);
        proof {
            lemma_lex_num(sa, sb);
        }
        r
    }
}

/// Comparison of two pre-release identifiers, as `id_cmp` orders them.
fn cmp_id(a: &Vec<u8>, b: &Vec<u8>) -> (c: i8)
    ensures
        c as int == id_cmp(a@, b@),
{
    let na = all_digits(a);
    let nb = all_digits(b);
    if na && nb {
        num_cmp(a, b)
    } else if na {
        -1
    } else if nb {
        1
    } else {
        proof {
            assert(a@.skip(0) =~= a@);
            assert(b@.skip(0) =~= b@);
        }
        lex_cmp_from(a, 0, b, 0)
    }
}

/// Comparison of two identifier lists, as `ids_cmp` orders them.
fn cmp_ids(a: &Vec<Vec<u8>>, b: &Vec<Vec<u8>>) -> (c: i8)
    ensures
        c as int == ids_cmp(a.deep_view(), b.deep_view()),
{
    let ghost da = a.deep_view();
    let ghost db = b.deep_view();
    proof {
        assert(da.skip(0) =~= da);
        assert(db.skip(0) =~= db);
    }
    let mut k: usize = 0;
    loop
        invariant
            k <= da.len(),
            k <= db.len(),
            da.len() == a@.len(),
            db.len() == b@.len(),
            da == a.deep_view(),
            db == b.deep_view(),
            ids_cmp(da, db) == ids_cmp(da.skip(k as int), db.skip(k as int)),
        decreases da.len() - k,
    {
        if k == a.len() && k == b.len() {
            return 0;
        }
        if k == a.len() {
            return -1;
        }
        if k == b.len() {
            return 1;
        }
        let c = cmp_id(&a[k], &b[k]);
        proof {
            assert(da.skip(k as int).first() == da[k as int]);
            assert(db.skip(k as int).first() == db[k as int]);
            assert(da[k as int] == a@[k as int]@);
            assert(db[k as int] == b@[k as int]@);
        }
        if c != 0 {
            return c;
        }
        proof {
            assert(da.skip(k as int).drop_first() =~= da.skip(k + 1));
            assert(db.skip(k as int).drop_first() =~= db.skip(k + 1));
        }
        k += 1;
    }
}

/// Splits a pre-release part at each dot into its identifiers.
fn split_pre(s: &Vec<u8>) -> (ids: Vec<Vec<u8>>)
    ensures
        ids.deep_view() == split_ids(s@),
{
    let mut ids: Vec<Vec<u8>> = Vec::new();
    let mut cur: Vec<u8> = Vec::new();
    proof {
        assert(ids.deep_view().push(cur@) =~~= split_ids(s@.take(0)));
    }
    let mut i: usize = 0;
    while i < s.len()
        invariant
            i <= s@.len(),
            ids.deep_view().push(cur@) == split_ids(s@.take(i as int)),
        decreases s@.len() - i,
    {
        let ghost prefix = s@.take(i as int);
        let c = s[i];
        proof {
            lemma_split_push(prefix, c);
            assert(s@.take(i + 1) =~= prefix.push(s@[i as int]));
        }
        if c == DOT {
            let ghost old_ids = ids.deep_view();
            ids.push(cur);
            cur = Vec::new();
            proof {
                assert(ids.deep_view() =~~= old_ids.push(split_ids(prefix).last()));
                assert(ids.deep_view().push(cur@) =~~= split_ids(s@.take(i + 1)));
            }
        } else {
            cur.push(c);
            proof {
                assert(ids.deep_view().push(cur@) =~~= split_ids(s@.take(i + 1)));
            }
        }
        i += 1;
    }
    proof {
        assert(s@.take(s@.len() as int) =~= s@);
    }
    ids.push(cur);
    proof {
        assert(ids.deep_view() =~~= split_ids(s@));
    }
    ids
}

/// Whether `s` is a well-formed semantic version. An update check tests
/// this before anything else: a malformed caller version is rejected
/// before any store result could matter.
pub fn version_is_valid(s: &str) -> (b: bool)
    ensures
        b == (parsed_version(s@) is Some),
{
    parse_version(s).is_some()
}

impl SemVer {
    /// Three-way precedence comparison: -1, 0 or 1 as `self` orders below,
    /// with, or above `other`.
    pub fn cmp_precedence(&self, other: &SemVer) -> (c: i8)
        ensures
            c as int == ver_cmp(self@, other@),
    {
        if self.major != other.major {
            if self.major < other.major {
                -1
            } else {
                1
            }
        } else if self.minor != other.minor {
            if self.minor < other.minor {
                -1
            } else {
                1
            }
        } else if self.patch != other.patch {
            if self.patch < other.patch {
                -1
            } else {
                1
            }
        } else if self.pre.len() == 0 && other.pre.len() == 0 {
            0
        } else if self.pre.len() == 0 {
            1
        } else if other.pre.len() == 0 {
            -1
        } else {
            let ia = split_pre(&self.pre);
            let ib = split_pre(&other.pre);
            cmp_ids(&ia, &ib)
        }
    }
}

/// Relies on `semver::Version::parse`: whether the string is a well-formed
/// semantic version, and the numeric triple and pre-release part it denotes,
/// depend on the string alone. Build metadata is dropped.
#[verifier::external_body]
pub(crate) fn parse_version(s: &str) -> (r: Option<SemVer>)
    ensures
        r is Some <==> parsed_version(s@) is Some,
        r matches Some(v) ==> parsed_version(s@) == Some(v@),
{
    match semver::Version::parse(s) {
        Ok(v) => Some(SemVer {
            major: v.major,
            minor: v.minor,
            patch: v.patch,
            pre: v.pre.as_str().as_bytes().to_vec(),
        }),
        Err(_) => None,
    }
}

} // verus!
