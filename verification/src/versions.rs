//! Semantic versions of published packages: parsing through the `semver`
//! crate, ordering, range constraints from `deka.json`, and the choice of
//! a version from a registry's published list.

use vstd::prelude::*;
use crate::text::{comma_list};
use crate::text::string_views;
use crate::text::{
    chars_of, decimal, is_white_space, lead_ws, lemma_lead_ws, lemma_trail_ws, owned, string_of_span,
    string_push, trail_ws, trim, trim_end, trim_span, trim_start, u64_to_decimal,
};

verus! {

#[verifier::external_type_specification]
#[verifier::external_body]
pub struct ExSemverVersion(semver::Version);

#[verifier::external_type_specification]
#[verifier::external_body]
pub struct ExSemverVersionReq(semver::VersionReq);

/// The fields of a version: `(major, minor, patch, pre-release, build)`.
pub type VersionFields = (u64, u64, u64, Seq<char>, Seq<char>);

/// What `semver::Version::parse` gives for a text: the parsed fields, or the
/// text of its error.
pub uninterp spec fn semver_version_parse(text: Seq<char>) -> Result<(u64, u64, u64, Seq<char>, Seq<char>), Seq<char>>;

/// `Ord::cmp` of two `semver::Version`s with these fields, as -1, 0 or 1.
pub uninterp spec fn semver_order(a: (u64, u64, u64, Seq<char>, Seq<char>), b: (u64, u64, u64, Seq<char>, Seq<char>)) -> int;

/// What `semver::VersionReq::parse` gives for a text: `None` when it
/// parses, else the text of its error.
pub uninterp spec fn semver_req_error(text: Seq<char>) -> Option<Seq<char>>;

/// `semver::VersionReq::matches` for the requirement parsed from
/// `req` and a version with these fields.
pub uninterp spec fn semver_req_matches(req: Seq<char>, v: (u64, u64, u64, Seq<char>, Seq<char>)) -> bool;

/// A parsed semantic version.
#[derive(Debug)]
pub struct SemVersion {
    major: u64,
    minor: u64,
    patch: u64,
    pre: String,
    build: String,
    inner: semver::Version,
}

impl View for SemVersion {
    type V = VersionFields;

    closed spec fn view(&self) -> VersionFields {
        (self.major, self.minor, self.patch, self.pre@, self.build@)
    }
}

/// A parsed version requirement, seen as the text it was parsed from.
pub struct SemReq {
    text: String,
    inner: semver::VersionReq,
}

impl View for SemReq {
    type V = Seq<char>;

    closed spec fn view(&self) -> Seq<char> {
        self.text@
    }
}

/// A character the parser accepts in a pre-release or build identifier:
/// an ASCII letter or digit, `-`, or the `.` between identifiers.
pub open spec fn identifier_char(c: char) -> bool {
    ('a' <= c <= 'z') || ('A' <= c <= 'Z') || ('0' <= c <= '9') || c == '-' || c == '.'
}

/// A parsed version's `Display` text parses back to the same fields, and
/// its pre-release and build parts hold identifier characters only.
pub open spec fn displays_back(f: VersionFields) -> bool {
    &&& semver_version_parse(version_text(f)) == Ok::<VersionFields, Seq<char>>(f)
    &&& forall|i: int| 0 <= i < f.3.len() ==> identifier_char(#[trigger] f.3[i])
    &&& forall|i: int| 0 <= i < f.4.len() ==> identifier_char(#[trigger] f.4[i])
}

/// `semver::Version::parse`: the fields of the parsed version, or the
/// error's text; both as the crate's parser gives them. Besides naming the
/// result, this states what the parser's source shows of every version it
/// accepts: pre-release and build identifiers are made of ASCII letters,
/// digits, `-` and `.`, and the version's `Display` text (numbers without
/// leading zeros, then `-pre` and `+build` as parsed) is accepted again
/// with the same fields.
#[verifier::external_body]
fn version_parse(text: &str) -> (r: Result<SemVersion, String>)
    ensures
        match r {
            Ok(v) => semver_version_parse(text@) == Ok::<VersionFields, Seq<char>>(v@),
            Err(e) => semver_version_parse(text@) == Err::<VersionFields, Seq<char>>(e@),
        },
        r matches Ok(v) ==> displays_back(v@),
{
    match semver::Version::parse(text) {
        Ok(v) => Ok(SemVersion {
            major: v.major,
            minor: v.minor,
            patch: v.patch,
            pre: v.pre.as_str().to_string(),
            build: v.build.as_str().to_string(),
            inner: v,
        }),
        Err(e) => Err(e.to_string()),
    }
}

/// `Ord::cmp` on `semver::Version` (the derived order over major, minor,
/// patch, pre-release and build metadata). Besides naming the result, this
/// states what the `Ord` contract and the derived field order promise: the
/// order is antisymmetric and transitive, `Equal` exactly on equal fields,
/// and the numeric triple decides first.
#[verifier::external_body]
fn version_order(a: &SemVersion, b: &SemVersion) -> (r: i8)
    ensures
        r == semver_order(a@, b@),
        -1 <= r <= 1,
        semver_order(b@, a@) == -r,
        (r == 0) == (a@ == b@),
        forall|c: VersionFields| semver_order(c, a@) <= 0 && r <= 0 ==> #[trigger] semver_order(c, b@) <= 0,
        triple_lt(a@, b@) ==> r == -1,
        triple_lt(b@, a@) ==> r == 1,
{
    match a.inner.cmp(&b.inner) {
        core::cmp::Ordering::Less => -1,
        core::cmp::Ordering::Equal => 0,
        core::cmp::Ordering::Greater => 1,
    }
}

/// `semver::VersionReq::parse`: the parsed requirement, seen as its text,
/// or the error's text.
#[verifier::external_body]
fn req_parse(text: &str) -> (r: Result<SemReq, String>)
    ensures
        match r {
            Ok(q) => q@ == text@ && semver_req_error(text@) is None,
            Err(e) => semver_req_error(text@) == Some(e@),
        },
{
    match semver::VersionReq::parse(text) {
        Ok(q) => Ok(SemReq { text: text.to_string(), inner: q }),
        Err(e) => Err(e.to_string()),
    }
}

/// `semver::VersionReq::matches`.
#[verifier::external_body]
fn req_matches(q: &SemReq, v: &SemVersion) -> (r: bool)
    ensures
        r == semver_req_matches(q@, v@),
{
    q.inner.matches(&v.inner)
}

/// `(major, minor, patch)` of `a` is below that of `b`.
pub open spec fn triple_lt(a: VersionFields, b: VersionFields) -> bool {
    ||| a.0 < b.0
    ||| a.0 == b.0 && a.1 < b.1
    ||| a.0 == b.0 && a.1 == b.1 && a.2 < b.2
}

/// The `Display` text of a version: `major.minor.patch`, then `-pre` and
/// `+build` when present.
pub open spec fn version_text(v: VersionFields) -> Seq<char> {
    decimal(v.0 as nat) + seq!['.'] + decimal(v.1 as nat) + seq!['.'] + decimal(v.2 as nat) + (
    if v.3.len() > 0 {
        seq!['-'] + v.3
    } else {
        Seq::empty()
    }) + (if v.4.len() > 0 {
        seq!['+'] + v.4
    } else {
        Seq::empty()
    })
}

impl SemVersion {
    /// The version's text (`Display`).
    pub fn to_string(&self) -> (r: String)
        ensures
            r@ == version_text(self@),
    {
        let mut out = u64_to_decimal(self.major);
        string_push(&mut out, '.');
        let minor = u64_to_decimal(self.minor);
        out.append(minor.as_str());
        string_push(&mut out, '.');
        let patch = u64_to_decimal(self.patch);
        out.append(patch.as_str());
        let ghost head = out@;
        if !self.pre.as_str().is_empty() {
            string_push(&mut out, '-');
            out.append(self.pre.as_str());
        }
        let ghost mid = out@;
        if !self.build.as_str().is_empty() {
            string_push(&mut out, '+');
            out.append(self.build.as_str());
        }
        proof {
            let v = self@;
            let p: Seq<char> = if v.3.len() > 0 {
                seq!['-'] + v.3
            } else {
                Seq::empty()
            };
            let b: Seq<char> = if v.4.len() > 0 {
                seq!['+'] + v.4
            } else {
                Seq::empty()
            };
            assert(mid =~= head + p);
            assert(out@ =~= head + p + b);
        }
        out
    }

    /// Whether the version has a pre-release part.
    pub fn is_prerelease(&self) -> (r: bool)
        ensures
            r == (self@.3.len() > 0),
    {
        !self.pre.as_str().is_empty()
    }

    /// Field-wise equality (`PartialEq`, derived on `semver::Version`).
    pub fn same_as(&self, other: &SemVersion) -> (r: bool)
        ensures
            r == (self@ == other@),
    {
        self.major == other.major && self.minor == other.minor && self.patch == other.patch
            && self.pre == other.pre && self.build == other.build
    }
}

// ---- text helpers -----------------------------------------------------------

/// Number of leading `v` characters.
pub open spec fn lead_vs(s: Seq<char>) -> nat
    decreases s.len(),
{
    if s.len() > 0 && s[0] == 'v' {
        1 + lead_vs(s.drop_first())
    } else {
        0
    }
}

/// `str::trim_start_matches('v')`.
pub open spec fn strip_v(s: Seq<char>) -> Seq<char> {
    s.skip(lead_vs(s) as int)
}

/// `s.trim().trim_start_matches('v')`, the normal form of a version text.
pub open spec fn bare_version(s: Seq<char>) -> Seq<char> {
    strip_v(trim(s))
}

/// Offset of the first non-`v` character of `v[a..b]`.
fn skip_vs(v: &Vec<char>, a: usize, b: usize) -> (r: usize)
    requires
        a <= b <= v@.len(),
    ensures
        a <= r <= b,
        v@.subrange(r as int, b as int) == strip_v(v@.subrange(a as int, b as int)),
{
    let mut k = a;
    while k < b && v[k] == 'v'
        invariant
            a <= k <= b <= v@.len(),
            k + lead_vs(v@.subrange(k as int, b as int)) == a + lead_vs(
                v@.subrange(a as int, b as int),
            ),
        decreases b - k,
    {
        proof {
            assert(v@.subrange(k as int, b as int).drop_first() =~= v@.subrange(k + 1, b as int));
        }
        k = k + 1;
    }
    proof {
        assert(v@.subrange(a as int, b as int).skip(k - a) =~= v@.subrange(k as int, b as int));
    }
    k
}

/// `strip_v(s[a..b])` of a trimmed span.
fn strip_v_span(v: &Vec<char>, a: usize, b: usize) -> (r: String)
    requires
        a <= b <= v@.len(),
    ensures
        r@ == strip_v(v@.subrange(a as int, b as int)),
{
    let k = skip_vs(v, a, b);
    string_of_span(v, k, b)
}

/// `s.trim().trim_start_matches('v')`.
pub fn bare_version_of(s: &str) -> (r: String)
    ensures
        r@ == bare_version(s@),
{
    let v = chars_of(s);
    let (a, b) = trim_span(&v, 0, v.len());
    proof {
        assert(v@.subrange(0, v@.len() as int) =~= v@);
    }
    strip_v_span(&v, a, b)
}


// ---- constraints ------------------------------------------------------------

/// The constraint operators, longest first so `>=` is never read as `>`.
pub open spec fn operator(k: int) -> Seq<char> {
    if k == 0 {
        seq!['>', '=']
    } else if k == 1 {
        seq!['<', '=']
    } else if k == 2 {
        seq!['^']
    } else if k == 3 {
        seq!['~']
    } else if k == 4 {
        seq!['>']
    } else if k == 5 {
        seq!['<']
    } else {
        seq!['=']
    }
}

/// The first operator, from the `k`-th on, that `t` starts with and that
/// leaves a non-empty version text; with that text.
pub open spec fn operator_split(t: Seq<char>, k: int) -> Option<(int, Seq<char>)>
    decreases 7 - k,
{
    if k >= 7 || k < 0 {
        None
    } else {
        let op = operator(k);
        if t.len() >= op.len() && t.take(op.len() as int) == op && bare_version(
            t.skip(op.len() as int),
        ).len() > 0 {
            Some((k, bare_version(t.skip(op.len() as int))))
        } else {
            operator_split(t, k + 1)
        }
    }
}

/// A dependency constraint, as its parts.
pub enum ConstraintView {
    /// No constraint: `""`, `"latest"` or `"*"`.
    Any,
    /// A bare version: that exact release.
    Exact((u64, u64, u64, Seq<char>, Seq<char>)),
    /// An operator range, seen as the requirement text handed to `semver`.
    Range(Seq<char>),
}

/// A parsed `deka.json` dependency constraint.
pub enum Constraint {
    Any,
    Exact(SemVersion),
    Range(SemReq),
}

impl View for Constraint {
    type V = ConstraintView;

    open spec fn view(&self) -> ConstraintView {
        match self {
            Constraint::Any => ConstraintView::Any,
            Constraint::Exact(v) => ConstraintView::Exact(v@),
            Constraint::Range(q) => ConstraintView::Range(q@),
        }
    }
}

pub open spec fn is_any_word(t: Seq<char>) -> bool {
    t.len() == 0 || t == "latest"@ || t == "*"@
}

pub open spec fn range_error(raw: Seq<char>, e: Seq<char>) -> Seq<char> {
    "`"@ + raw + "` is not a valid semver range: "@ + e
}

pub open spec fn version_error(raw: Seq<char>, e: Seq<char>) -> Seq<char> {
    "`"@ + raw + "` is not a valid semver version: "@ + e
}

/// How a `deka.json` version string reads as a constraint.
pub open spec fn constraint_of(raw: Seq<char>) -> Result<ConstraintView, Seq<char>> {
    let t = trim(raw);
    if is_any_word(t) {
        Ok(ConstraintView::Any)
    } else {
        match operator_split(t, 0) {
            Some((k, vt)) => {
                let q = operator(k) + vt;
                match semver_req_error(q) {
                    None => Ok(ConstraintView::Range(q)),
                    Some(e) => Err(range_error(raw, e)),
                }
            },
            None => match semver_version_parse(strip_v(t)) {
                Ok(f) => Ok(ConstraintView::Exact(f)),
                Err(e) => Err(version_error(raw, e)),
            },
        }
    }
}

/// Whether a version satisfies a constraint: `Any` takes stable releases,
/// `Exact` one release, `Range` what `semver` matches.
pub open spec fn constraint_admits(c: ConstraintView, f: (u64, u64, u64, Seq<char>, Seq<char>)) -> bool {
    match c {
        ConstraintView::Any => f.3.len() == 0,
        ConstraintView::Exact(g) => f == g,
        ConstraintView::Range(q) => semver_req_matches(q, f),
    }
}

fn operator_chars(k: usize) -> (r: Vec<char>)
    requires
        k < 7,
    ensures
        r@ == operator(k as int),
{
    let r = if k == 0 {
        vec!['>', '=']
    } else if k == 1 {
        vec!['<', '=']
    } else if k == 2 {
        vec!['^']
    } else if k == 3 {
        vec!['~']
    } else if k == 4 {
        vec!['>']
    } else if k == 5 {
        vec!['<']
    } else {
        vec!['=']
    };
    proof {
        assert(r@ =~= operator(k as int));
    }
    r
}

/// Whether `v[i..j]` starts with `p`.
fn starts_with_chars(v: &Vec<char>, i: usize, j: usize, p: &Vec<char>) -> (r: bool)
    requires
        i <= j <= v@.len(),
    ensures
        r == (p@.len() <= j - i && v@.subrange(i as int, i + p@.len()) == p@),
{
    if p.len() > j - i {
        return false;
    }
    let mut k: usize = 0;
    while k < p.len()
        invariant
            i <= j <= v@.len(),
            p@.len() <= j - i,
            k <= p@.len(),
            forall|m: int| 0 <= m < k ==> v@[i + m] == p@[m],
        decreases p@.len() - k,
    {
        if v[i + k] != p[k] {
            proof {
                assert(v@.subrange(i as int, i + p@.len())[k as int] != p@[k as int]);
            }
            return false;
        }
        k = k + 1;
    }
    proof {
        assert(v@.subrange(i as int, i + p@.len()) =~= p@);
    }
    true
}

/// The text of `v[a..b]` is one of the words meaning "no constraint".
fn any_word_span(v: &Vec<char>, a: usize, b: usize) -> (r: bool)
    requires
        a <= b <= v@.len(),
    ensures
        r == is_any_word(v@.subrange(a as int, b as int)),
{
    proof {
        reveal_strlit("latest");
        reveal_strlit("*");
    }
    let latest = vec!['l', 'a', 't', 'e', 's', 't'];
    let star = vec!['*'];
    let t = Ghost(v@.subrange(a as int, b as int));
    if a == b {
        return true;
    }
    let l = b - a == 6 && starts_with_chars(v, a, b, &latest);
    let s1 = b - a == 1 && starts_with_chars(v, a, b, &star);
    proof {
        assert(latest@ =~= "latest"@);
        assert(star@ =~= "*"@);
        if t@ == "latest"@ {
            assert(v@.subrange(a as int, a + 6) =~= t@);
        }
        if t@ == "*"@ {
            assert(v@.subrange(a as int, a + 1) =~= t@);
        }
        if l {
            assert(v@.subrange(a as int, a + 6) =~= t@);
        }
        if s1 {
            assert(v@.subrange(a as int, a + 1) =~= t@);
        }
    }
    l || s1
}

fn prefixed_message(head: &str, raw: &str, mid: &str, e: &str) -> (r: String)
    ensures
        r@ == head@ + raw@ + mid@ + e@,
{
    let mut out = owned(head);
    out.append(raw);
    out.append(mid);
    out.append(e);
    out
}

/// Parse a `deka.json` dependency version string into a constraint.
pub fn parse_constraint(raw: &str) -> (r: Result<Constraint, String>)
    ensures
        match constraint_of(raw@) {
            Ok(c) => r matches Ok(k) && k@ == c,
            Err(e) => r matches Err(m) && m@ == e,
        },
{
    let v = chars_of(raw);
    let (a, b) = trim_span(&v, 0, v.len());
    proof {
        assert(v@.subrange(0, v@.len() as int) =~= v@);
    }
    let ghost t = v@.subrange(a as int, b as int);
    if any_word_span(&v, a, b) {
        return Ok(Constraint::Any);
    }
    let mut k: usize = 0;
    while k < 7
        invariant
            a <= b <= v@.len(),
            t == v@.subrange(a as int, b as int),
            t == trim(raw@),
            !is_any_word(t),
            v@ == raw@,
            k <= 7,
            operator_split(t, k as int) == operator_split(t, 0),
        decreases 7 - k,
    {
        let op = operator_chars(k);
        if starts_with_chars(&v, a, b, &op) {
            let (c, d) = trim_span(&v, a + op.len(), b);
            let k2 = skip_vs(&v, c, d);
            proof {
                assert(t.take(op@.len() as int) =~= v@.subrange(a as int, a + op@.len()));
                assert(t.skip(op@.len() as int) =~= v@.subrange(a + op@.len(), b as int));
                assert(v@.subrange(k2 as int, d as int) == bare_version(t.skip(op@.len() as int)));
            }
            if k2 < d {
                let mut req_text = string_of_span(&op, 0, op.len());
                proof {
                    assert(op@.subrange(0, op@.len() as int) =~= op@);
                }
                let vt = string_of_span(&v, k2, d);
                req_text.append(vt.as_str());
                proof {
                    let bare_t = bare_version(t.skip(op@.len() as int));
                    assert(vt@ == bare_t);
                    assert(req_text@ == operator(k as int) + bare_t);
                    assert(operator_split(t, k as int) == Some((k as int, bare_t)));
                }
                match req_parse(req_text.as_str()) {
                    Ok(q) => {
                        return Ok(Constraint::Range(q));
                    },
                    Err(e) => {
                        proof {
                            reveal_strlit("`");
                            reveal_strlit("` is not a valid semver range: ");
                        }
                        return Err(prefixed_message("`", raw, "` is not a valid semver range: ", e.as_str()));
                    },
                }
            }
        } else {
            proof {
                if t.len() >= op@.len() && t.take(op@.len() as int) == op@ {
                    assert(t.take(op@.len() as int) =~= v@.subrange(a as int, a + op@.len()));
                }
            }
        }
        k = k + 1;
    }
    let bare = strip_v_span(&v, a, b);
    match version_parse(bare.as_str()) {
        Ok(f) => Ok(Constraint::Exact(f)),
        Err(e) => {
            proof {
                reveal_strlit("`");
                reveal_strlit("` is not a valid semver version: ");
            }
            Err(prefixed_message("`", raw, "` is not a valid semver version: ", e.as_str()))
        },
    }
}

/// Whether `v` satisfies the constraint `c`.
pub fn constraint_matches(c: &Constraint, v: &SemVersion) -> (r: bool)
    ensures
        r == constraint_admits(c@, v@),
{
    match c {
        Constraint::Any => !v.is_prerelease(),
        Constraint::Exact(exact) => v.same_as(exact),
        Constraint::Range(q) => req_matches(q, v),
    }
}


// ---- a registry's published versions -----------------------------------------

pub open spec fn catalog_error(raw: Seq<char>, e: Seq<char>) -> Seq<char> {
    "registry version `"@ + raw + "` is not semver: "@ + e
}

/// The published list parsed: blank entries skipped, a leading `v`
/// tolerated, the first unparseable entry an error.
pub open spec fn catalog_of(vs: Seq<Seq<char>>) -> Result<Seq<(u64, u64, u64, Seq<char>, Seq<char>)>, Seq<char>>
    decreases vs.len(),
{
    if vs.len() == 0 {
        Ok(Seq::empty())
    } else {
        match catalog_of(vs.drop_last()) {
            Err(e) => Err(e),
            Ok(prev) => {
                let t = bare_version(vs.last());
                if t.len() == 0 {
                    Ok(prev)
                } else {
                    match semver_version_parse(t) {
                        Ok(f) => Ok(prev.push(f)),
                        Err(e) => Err(catalog_error(vs.last(), e)),
                    }
                }
            },
        }
    }
}

pub open spec fn version_views(v: Seq<SemVersion>) -> Seq<(u64, u64, u64, Seq<char>, Seq<char>)> {
    v.map_values(|x: SemVersion| x@)
}

/// Parse a registry's published version list.
fn parse_catalog(versions: &Vec<String>) -> (r: Result<Vec<SemVersion>, String>)
    ensures
        match catalog_of(string_views(versions@)) {
            Ok(c) => r matches Ok(p) && version_views(p@) == c,
            Err(e) => r matches Err(m) && m@ == e,
        },
        r matches Ok(p) ==> forall|k: int| 0 <= k < p@.len() ==> displays_back(#[trigger] p@[k]@),
{
    let mut parsed: Vec<SemVersion> = Vec::new();
    let mut i: usize = 0;
    proof {
        assert(string_views(versions@.take(0)) =~= Seq::<Seq<char>>::empty());
        assert(version_views(parsed@) =~= Seq::<(u64, u64, u64, Seq<char>, Seq<char>)>::empty());
    }
    while i < versions.len()
        invariant
            i <= versions@.len(),
            catalog_of(string_views(versions@.take(i as int))) == Ok::<
                Seq<(u64, u64, u64, Seq<char>, Seq<char>)>,
                Seq<char>,
            >(version_views(parsed@)),
            forall|k: int| 0 <= k < parsed@.len() ==> displays_back(#[trigger] parsed@[k]@),
        decreases versions@.len() - i,
    {
        let ghost vs = string_views(versions@.take(i + 1));
        proof {
            assert(vs.drop_last() =~= string_views(versions@.take(i as int)));
            assert(vs.last() == versions@[i as int]@);
        }
        let t = bare_version_of(versions[i].as_str());
        if !t.as_str().is_empty() {
            match version_parse(t.as_str()) {
                Ok(f) => {
                    let ghost before = parsed@;
                    parsed.push(f);
                    proof {
                        assert(version_views(parsed@) =~= version_views(before).push(f@));
                    }
                },
                Err(e) => {
                    proof {
                        reveal_strlit("registry version `");
                        reveal_strlit("` is not semver: ");
                        assert(catalog_of(vs) is Err);
                        lemma_catalog_err_prefix(string_views(versions@), i as int + 1);
                        assert(string_views(versions@).take(i + 1) =~= vs);
                    }
                    return Err(prefixed_message(
                        "registry version `",
                        versions[i].as_str(),
                        "` is not semver: ",
                        e.as_str(),
                    ));
                },
            }
        }
        i = i + 1;
    }
    proof {
        assert(versions@.take(versions@.len() as int) =~= versions@);
    }
    Ok(parsed)
}

/// An error in a prefix of the list is the error of the whole list.
proof fn lemma_catalog_err_prefix(vs: Seq<Seq<char>>, n: int)
    requires
        0 <= n <= vs.len(),
        catalog_of(vs.take(n)) is Err,
    ensures
        catalog_of(vs) == catalog_of(vs.take(n)),
    decreases vs.len() - n,
{
    if n < vs.len() {
        assert(vs.take(n + 1).drop_last() =~= vs.take(n));
        lemma_catalog_err_prefix(vs, n + 1);
    } else {
        assert(vs.take(n) =~= vs);
    }
}

/// The versions of `s` that satisfy `c`, in order.
pub open spec fn admitted(c: ConstraintView, s: Seq<(u64, u64, u64, Seq<char>, Seq<char>)>) -> Seq<(u64, u64, u64, Seq<char>, Seq<char>)>
    decreases s.len(),
{
    if s.len() == 0 {
        Seq::empty()
    } else if constraint_admits(c, s.last()) {
        admitted(c, s.drop_last()).push(s.last())
    } else {
        admitted(c, s.drop_last())
    }
}

/// `Iterator::max` under the `semver` order: the last of the greatest.
pub open spec fn highest(s: Seq<(u64, u64, u64, Seq<char>, Seq<char>)>) -> (u64, u64, u64, Seq<char>, Seq<char>)
    decreases s.len(),
{
    if s.len() <= 1 {
        s[0]
    } else {
        let m = highest(s.drop_last());
        if semver_order(m, s.last()) <= 0 {
            s.last()
        } else {
            m
        }
    }
}

/// The candidates a constraint selects from: the admitted versions, or,
/// for `Any` when no stable release exists, every published version.
pub open spec fn candidates(c: ConstraintView, parsed: Seq<(u64, u64, u64, Seq<char>, Seq<char>)>) -> Seq<(u64, u64, u64, Seq<char>, Seq<char>)> {
    if c is Any && admitted(c, parsed).len() == 0 {
        parsed
    } else {
        admitted(c, parsed)
    }
}

// ---- strings in sorted order --------------------------------------------------

/// `a` sorts before `b` (code point order, as `str`'s `Ord` gives for
/// UTF-8 text).
pub open spec fn text_lt(a: Seq<char>, b: Seq<char>) -> bool
    decreases a.len(),
{
    if a.len() == 0 {
        b.len() > 0
    } else if b.len() == 0 {
        false
    } else if a[0] != b[0] {
        a[0] < b[0]
    } else {
        text_lt(a.drop_first(), b.drop_first())
    }
}

/// `x` placed before the first element of `s` it does not sort after.
pub open spec fn insert_sorted(s: Seq<Seq<char>>, x: Seq<char>) -> Seq<Seq<char>>
    decreases s.len(),
{
    if s.len() == 0 {
        seq![x]
    } else if !text_lt(s[0], x) {
        seq![x] + s
    } else {
        seq![s[0]] + insert_sorted(s.drop_first(), x)
    }
}

/// The texts in ascending order.
pub open spec fn sorted_texts(s: Seq<Seq<char>>) -> Seq<Seq<char>>
    decreases s.len(),
{
    if s.len() == 0 {
        Seq::empty()
    } else {
        insert_sorted(sorted_texts(s.drop_last()), s.last())
    }
}

pub open spec fn version_texts(s: Seq<(u64, u64, u64, Seq<char>, Seq<char>)>) -> Seq<Seq<char>> {
    s.map_values(|f: (u64, u64, u64, Seq<char>, Seq<char>)| version_text(f))
}

/// The versions a failed selection lists: sorted, or `none`.
pub open spec fn available_text(parsed: Seq<(u64, u64, u64, Seq<char>, Seq<char>)>) -> Seq<char> {
    if parsed.len() == 0 {
        "none"@
    } else {
        comma_list(sorted_texts(version_texts(parsed)))
    }
}

pub open spec fn no_match_text(raw: Seq<char>, parsed: Seq<(u64, u64, u64, Seq<char>, Seq<char>)>) -> Seq<char> {
    "no published version satisfies `"@ + raw + "` -- available versions: "@ + available_text(parsed)
}

pub fn text_lt_chars(a: &Vec<char>, b: &Vec<char>) -> (r: bool)
    ensures
        r == text_lt(a@, b@),
{
    let mut i: usize = 0;
    proof {
        assert(a@.skip(0) =~= a@);
        assert(b@.skip(0) =~= b@);
    }
    while i < a.len() && i < b.len() && a[i] == b[i]
        invariant
            i <= a@.len(),
            i <= b@.len(),
            text_lt(a@.skip(i as int), b@.skip(i as int)) == text_lt(a@, b@),
        decreases a@.len() - i,
    {
        proof {
            assert(a@.skip(i as int).drop_first() =~= a@.skip(i + 1));
            assert(b@.skip(i as int).drop_first() =~= b@.skip(i + 1));
        }
        i = i + 1;
    }
    proof {
        if i < a.len() && i < b.len() {
            assert(a@.skip(i as int)[0] == a@[i as int]);
            assert(b@.skip(i as int)[0] == b@[i as int]);
        }
    }
    if i == a.len() {
        i < b.len()
    } else if i == b.len() {
        false
    } else {
        a[i] < b[i]
    }
}

proof fn lemma_insert_at(s: Seq<Seq<char>>, x: Seq<char>, i: int)
    requires
        0 <= i <= s.len(),
        forall|j: int| 0 <= j < i ==> text_lt(#[trigger] s[j], x),
        i < s.len() ==> !text_lt(s[i], x),
    ensures
        insert_sorted(s, x) == s.take(i) + seq![x] + s.skip(i),
    decreases i,
{
    if i == 0 {
        assert(s.take(0) + seq![x] + s.skip(0) =~= seq![x] + s);
    } else {
        let t = s.drop_first();
        assert forall|j: int| 0 <= j < i - 1 implies text_lt(#[trigger] t[j], x) by {
            assert(t[j] == s[j + 1]);
        }
        lemma_insert_at(t, x, i - 1);
        assert(seq![s[0]] + (t.take(i - 1) + seq![x] + t.skip(i - 1)) =~= s.take(i) + seq![x]
            + s.skip(i));
    }
}

/// Insertion sort of texts.
pub(crate) fn sort_texts(items: &Vec<String>) -> (r: Vec<String>)
    ensures
        string_views(r@) == sorted_texts(string_views(items@)),
{
    let mut out: Vec<String> = Vec::new();
    let mut keys: Vec<Vec<char>> = Vec::new();
    let mut i: usize = 0;
    while i < items.len()
        invariant
            i <= items@.len(),
            keys@.len() == out@.len(),
            forall|j: int| 0 <= j < keys@.len() ==> #[trigger] keys@[j]@ == out@[j]@,
            string_views(out@) == sorted_texts(string_views(items@.take(i as int))),
        decreases items@.len() - i,
    {
        let x = chars_of(items[i].as_str());
        let mut j: usize = 0;
        while j < keys.len() && text_lt_chars(&keys[j], &x)
            invariant
                j <= keys@.len(),
                keys@.len() == out@.len(),
                forall|m: int| 0 <= m < keys@.len() ==> #[trigger] keys@[m]@ == out@[m]@,
                forall|m: int| 0 <= m < j ==> text_lt(#[trigger] string_views(out@)[m], x@),
            decreases keys@.len() - j,
        {
            proof {
                assert(string_views(out@)[j as int] == keys@[j as int]@);
            }
            j = j + 1;
        }
        let ghost sv = string_views(out@);
        proof {
            if j < keys.len() {
                assert(sv[j as int] == keys@[j as int]@);
            }
            lemma_insert_at(sv, x@, j as int);
            let s2 = string_views(items@.take(i + 1));
            assert(s2.drop_last() =~= string_views(items@.take(i as int)));
            assert(s2.last() == items@[i as int]@);
        }
        let ghost kb = keys@;
        let ghost ob = out@;
        out.insert(j, items[i].clone());
        keys.insert(j, x);
        proof {
            assert(string_views(out@) =~= sv.take(j as int) + seq![x@] + sv.skip(j as int));
            assert forall|m: int| 0 <= m < keys@.len() implies #[trigger] keys@[m]@ == out@[m]@ by {
                if m < j {
                    assert(keys@[m] == kb[m] && out@[m] == ob[m]);
                } else if m > j {
                    assert(keys@[m] == kb[m - 1] && out@[m] == ob[m - 1]);
                }
            }
        }
        i = i + 1;
    }
    proof {
        assert(items@.take(items@.len() as int) =~= items@);
    }
    out
}

/// `x` added to the ascending, duplicate-free `s` where it belongs, unless
/// `s` already holds it.
pub open spec fn insert_distinct(s: Seq<Seq<char>>, x: Seq<char>) -> Seq<Seq<char>>
    decreases s.len(),
{
    if s.len() == 0 {
        seq![x]
    } else if s[0] == x {
        s
    } else if !text_lt(s[0], x) {
        seq![x] + s
    } else {
        seq![s[0]] + insert_distinct(s.drop_first(), x)
    }
}

/// The distinct texts in ascending order: what a `BTreeSet` of them holds.
pub open spec fn sorted_set(s: Seq<Seq<char>>) -> Seq<Seq<char>>
    decreases s.len(),
{
    if s.len() == 0 {
        Seq::empty()
    } else {
        insert_distinct(sorted_set(s.drop_last()), s.last())
    }
}

proof fn lemma_text_lt_irreflexive(a: Seq<char>)
    ensures
        !text_lt(a, a),
    decreases a.len(),
{
    if a.len() > 0 {
        lemma_text_lt_irreflexive(a.drop_first());
    }
}

proof fn lemma_insert_distinct_at(s: Seq<Seq<char>>, x: Seq<char>, i: int)
    requires
        0 <= i <= s.len(),
        forall|j: int| 0 <= j < i ==> text_lt(#[trigger] s[j], x),
        i < s.len() ==> !text_lt(s[i], x),
    ensures
        i < s.len() && s[i] == x ==> insert_distinct(s, x) == s,
        !(i < s.len() && s[i] == x) ==> insert_distinct(s, x) == s.take(i) + seq![x] + s.skip(i),
    decreases i,
{
    if i == 0 {
        assert(s.take(0) + seq![x] + s.skip(0) =~= seq![x] + s);
    } else {
        assert(text_lt(s[0], x));
        assert(s[0] != x) by {
            lemma_text_lt_irreflexive(x);
        }
        let t = s.drop_first();
        assert forall|j: int| 0 <= j < i - 1 implies text_lt(#[trigger] t[j], x) by {
            assert(t[j] == s[j + 1]);
        }
        lemma_insert_distinct_at(t, x, i - 1);
        if i < s.len() && s[i] == x {
            assert(seq![s[0]] + t =~= s);
        } else {
            assert(seq![s[0]] + (t.take(i - 1) + seq![x] + t.skip(i - 1)) =~= s.take(i) + seq![x]
                + s.skip(i));
        }
    }
}

/// The distinct texts of `items` in ascending order.
pub fn sorted_distinct(items: &Vec<String>) -> (r: Vec<String>)
    ensures
        string_views(r@) == sorted_set(string_views(items@)),
{
    let mut out: Vec<String> = Vec::new();
    let mut keys: Vec<Vec<char>> = Vec::new();
    let mut i: usize = 0;
    while i < items.len()
        invariant
            i <= items@.len(),
            keys@.len() == out@.len(),
            forall|j: int| 0 <= j < keys@.len() ==> #[trigger] keys@[j]@ == out@[j]@,
            string_views(out@) == sorted_set(string_views(items@.take(i as int))),
        decreases items@.len() - i,
    {
        let x = chars_of(items[i].as_str());
        let mut j: usize = 0;
        while j < keys.len() && text_lt_chars(&keys[j], &x)
            invariant
                j <= keys@.len(),
                keys@.len() == out@.len(),
                forall|m: int| 0 <= m < keys@.len() ==> #[trigger] keys@[m]@ == out@[m]@,
                forall|m: int| 0 <= m < j ==> text_lt(#[trigger] string_views(out@)[m], x@),
            decreases keys@.len() - j,
        {
            proof {
                assert(string_views(out@)[j as int] == keys@[j as int]@);
            }
            j = j + 1;
        }
        let ghost sv = string_views(out@);
        proof {
            if j < keys.len() {
                assert(sv[j as int] == keys@[j as int]@);
            }
            lemma_insert_distinct_at(sv, x@, j as int);
            let s2 = string_views(items@.take(i + 1));
            assert(s2.drop_last() =~= string_views(items@.take(i as int)));
            assert(s2.last() == items@[i as int]@);
        }
        let present = j < keys.len() && crate::project::same_chars(&keys[j], &x);
        if !present {
            let ghost kb = keys@;
            let ghost ob = out@;
            out.insert(j, items[i].clone());
            keys.insert(j, x);
            proof {
                assert(string_views(out@) =~= sv.take(j as int) + seq![x@] + sv.skip(j as int));
                assert forall|m: int| 0 <= m < keys@.len() implies #[trigger] keys@[m]@ == out@[m]@ by {
                    if m < j {
                        assert(keys@[m] == kb[m] && out@[m] == ob[m]);
                    } else if m > j {
                        assert(keys@[m] == kb[m - 1] && out@[m] == ob[m - 1]);
                    }
                }
            }
        }
        i = i + 1;
    }
    proof {
        assert(items@.take(items@.len() as int) =~= items@);
    }
    out
}

fn comma_join(items: &Vec<String>) -> (r: String)
    ensures
        r@ == comma_list(string_views(items@)),
{
    let mut out = String::new();
    let mut i: usize = 0;
    while i < items.len()
        invariant
            i <= items@.len(),
            out@ == comma_list(string_views(items@.take(i as int))),
        decreases items@.len() - i,
    {
        let ghost s2 = string_views(items@.take(i + 1));
        proof {
            assert(s2.drop_last() =~= string_views(items@.take(i as int)));
            assert(s2.last() == items@[i as int]@);
        }
        if i > 0 {
            string_push(&mut out, ',');
            string_push(&mut out, ' ');
        }
        out.append(items[i].as_str());
        proof {
            if i == 0 {
                assert(out@ =~= s2[0]);
            } else {
                assert(out@ =~= comma_list(s2.drop_last()) + seq![',', ' '] + s2.last());
            }
        }
        i = i + 1;
    }
    proof {
        assert(items@.take(items@.len() as int) =~= items@);
    }
    out
}

/// The error for a constraint nothing satisfies: it names the constraint and
/// every published version, sorted.
fn describe_no_match(constraint_raw: &str, catalog: &Vec<SemVersion>) -> (r: String)
    ensures
        r@ == no_match_text(constraint_raw@, version_views(catalog@)),
{
    proof {
        reveal_strlit("none");
        reveal_strlit("no published version satisfies `");
        reveal_strlit("` -- available versions: ");
    }
    let available = if catalog.len() == 0 {
        owned("none")
    } else {
        let mut list: Vec<String> = Vec::new();
        let mut i: usize = 0;
        while i < catalog.len()
            invariant
                i <= catalog@.len(),
                string_views(list@) == version_texts(version_views(catalog@.take(i as int))),
            decreases catalog@.len() - i,
        {
            let t = catalog[i].to_string();
            let ghost before = list@;
            list.push(t);
            proof {
                assert(string_views(list@) =~= string_views(before).push(t@));
                assert(version_views(catalog@.take(i + 1)) =~= version_views(catalog@.take(i as int)).push(catalog@[i as int]@));
                assert(version_texts(version_views(catalog@.take(i + 1))) =~= version_texts(version_views(catalog@.take(i as int))).push(version_text(catalog@[i as int]@)));
            }
            i = i + 1;
        }
        proof {
            assert(catalog@.take(catalog@.len() as int) =~= catalog@);
        }
        let sorted = sort_texts(&list);
        comma_join(&sorted)
    };
    let mut out = owned("no published version satisfies `");
    out.append(constraint_raw);
    out.append("` -- available versions: ");
    out.append(available.as_str());
    out
}


// ---- choosing a version ---------------------------------------------------------

/// `Ok` and `Err` of a `Result` of strings, as text.
pub open spec fn text_result(r: Result<String, String>) -> Result<Seq<char>, Seq<char>> {
    match r {
        Ok(s) => Ok(s@),
        Err(e) => Err(e@),
    }
}

/// The candidates of a selection, when the constraint and the list parse.
pub open spec fn selection(raw: Seq<char>, vs: Seq<Seq<char>>) -> Option<Seq<(u64, u64, u64, Seq<char>, Seq<char>)>> {
    match constraint_of(raw) {
        Ok(c) => match catalog_of(vs) {
            Ok(parsed) => Some(candidates(c, parsed)),
            Err(_) => None,
        },
        Err(_) => None,
    }
}

/// What `select_best` answers: the text of the highest candidate, or why
/// there is none.
pub open spec fn best_version(raw: Seq<char>, vs: Seq<Seq<char>>) -> Result<Seq<char>, Seq<char>> {
    match constraint_of(raw) {
        Err(e) => Err(e),
        Ok(c) => match catalog_of(vs) {
            Err(e) => Err(e),
            Ok(parsed) => {
                let cands = candidates(c, parsed);
                if cands.len() == 0 {
                    Err(no_match_text(raw, parsed))
                } else {
                    Ok(version_text(highest(cands)))
                }
            },
        },
    }
}

/// No candidate other than the `i`-th orders above it.
pub open spec fn is_top(s: Seq<(u64, u64, u64, Seq<char>, Seq<char>)>, i: int) -> bool {
    forall|m: int| 0 <= m < s.len() && m != i ==> #[trigger] semver_order(s[m], s[i]) <= 0
}

pub open spec fn ref_views(v: Seq<&SemVersion>) -> Seq<(u64, u64, u64, Seq<char>, Seq<char>)> {
    v.map_values(|x: &SemVersion| x@)
}

/// Resolve a `deka.json` constraint against a registry's published list,
/// returning the highest version that satisfies it. Besides the exact
/// answer, the contract states that the chosen version is a candidate that
/// no other candidate orders above.
pub fn select_best(constraint_raw: &str, versions: &Vec<String>) -> (r: Result<String, String>)
    ensures
        text_result(r) == best_version(constraint_raw@, string_views(versions@)),
        match selection(constraint_raw@, string_views(versions@)) {
            Some(cands) => cands.len() > 0 ==> exists|i: int|
                0 <= i < cands.len() && cands[i] == highest(cands) && is_top(cands, i),
            None => true,
        },
        r matches Ok(t) ==> satisfies_spec(constraint_raw@, t@),
{
    let constraint = match parse_constraint(constraint_raw) {
        Ok(c) => c,
        Err(e) => {
            return Err(e);
        },
    };
    let parsed = match parse_catalog(versions) {
        Ok(p) => p,
        Err(e) => {
            return Err(e);
        },
    };
    let ghost c = constraint@;
    let ghost pv = version_views(parsed@);
    let mut cands: Vec<&SemVersion> = Vec::new();
    let mut i: usize = 0;
    proof {
        assert(pv.take(0) =~= Seq::<(u64, u64, u64, Seq<char>, Seq<char>)>::empty());
        assert(ref_views(cands@) =~= Seq::<(u64, u64, u64, Seq<char>, Seq<char>)>::empty());
    }
    while i < parsed.len()
        invariant
            i <= parsed@.len(),
            pv == version_views(parsed@),
            c == constraint@,
            ref_views(cands@) == admitted(c, pv.take(i as int)),
            forall|k: int| 0 <= k < parsed@.len() ==> displays_back(#[trigger] parsed@[k]@),
            forall|m: int| 0 <= m < cands@.len() ==> displays_back(#[trigger] cands@[m]@),
        decreases parsed@.len() - i,
    {
        proof {
            assert(pv.take(i + 1).drop_last() =~= pv.take(i as int));
            assert(pv.take(i + 1).last() == parsed@[i as int]@);
        }
        if constraint_matches(&constraint, &parsed[i]) {
            let ghost before = cands@;
            cands.push(&parsed[i]);
            proof {
                assert(ref_views(cands@) =~= ref_views(before).push(parsed@[i as int]@));
            }
        }
        i = i + 1;
    }
    proof {
        assert(pv.take(pv.len() as int) =~= pv);
    }
    let is_any = match constraint {
        Constraint::Any => true,
        _ => false,
    };
    if is_any && cands.len() == 0 {
        let mut k: usize = 0;
        while k < parsed.len()
            invariant
                k <= parsed@.len(),
                pv == version_views(parsed@),
                ref_views(cands@) == pv.take(k as int),
                forall|k: int| 0 <= k < parsed@.len() ==> displays_back(#[trigger] parsed@[k]@),
                forall|m: int| 0 <= m < cands@.len() ==> displays_back(#[trigger] cands@[m]@),
            decreases parsed@.len() - k,
        {
            let ghost before = cands@;
            cands.push(&parsed[k]);
            proof {
                assert(ref_views(cands@) =~= ref_views(before).push(parsed@[k as int]@));
                assert(pv.take(k + 1) =~= pv.take(k as int).push(pv[k as int]));
            }
            k = k + 1;
        }
        proof {
            assert(pv.take(pv.len() as int) =~= pv);
        }
    }
    let ghost cv = ref_views(cands@);
    proof {
        assert(cv == candidates(c, pv));
    }
    if cands.len() == 0 {
        return Err(describe_no_match(constraint_raw, &parsed));
    }
    let mut best: usize = 0;
    let mut j: usize = 1;
    proof {
        assert(cv.take(1) =~= seq![cv[0]]);
    }
    while j < cands.len()
        invariant
            1 <= j <= cands@.len(),
            cv == ref_views(cands@),
            best < j,
            cv[best as int] == highest(cv.take(j as int)),
            forall|m: int| 0 <= m < j && m != best ==> #[trigger] semver_order(cv[m], cv[best as int]) <= 0,
        decreases cands@.len() - j,
    {
        let o = version_order(cands[best], cands[j]);
        proof {
            assert(cv.take(j + 1).drop_last() =~= cv.take(j as int));
            assert(cv.take(j + 1).last() == cv[j as int]);
        }
        if o <= 0 {
            proof {
                assert forall|m: int| 0 <= m < j + 1 && m != j implies #[trigger] semver_order(cv[m], cv[j as int]) <= 0 by {
                    if m != best {
                        assert(semver_order(cv[m], cv[best as int]) <= 0);
                    }
                }
            }
            best = j;
        } else {
            proof {
                assert(semver_order(cv[j as int], cv[best as int]) == -o);
            }
        }
        j = j + 1;
    }
    proof {
        assert(cv.take(cv.len() as int) =~= cv);
        assert(is_top(cv, best as int));
        assert(cv[best as int] == cands@[best as int]@);
        lemma_version_text_bare(cv[best as int]);
        if !(c is Any) {
            lemma_admitted_satisfy(c, pv);
            assert(constraint_admits(c, cv[best as int]));
        }
    }
    Ok(cands[best].to_string())
}

proof fn lemma_decimal_ends(n: nat)
    ensures
        decimal(n).len() > 0,
        '0' <= decimal(n)[0] <= '9',
        '0' <= decimal(n).last() <= '9',
    decreases n,
{
    if n >= 10 {
        lemma_decimal_ends(n / 10);
    }
}

/// The `Display` text of a parsed version is already in normal form: it
/// starts with a digit and ends in a digit or identifier character.
proof fn lemma_version_text_bare(f: VersionFields)
    requires
        displays_back(f),
    ensures
        bare_version(version_text(f)) == version_text(f),
{
    let t = version_text(f);
    lemma_decimal_ends(f.0 as nat);
    lemma_decimal_ends(f.2 as nat);
    let head = decimal(f.0 as nat) + seq!['.'] + decimal(f.1 as nat) + seq!['.'] + decimal(f.2 as nat);
    let pre: Seq<char> = if f.3.len() > 0 { seq!['-'] + f.3 } else { Seq::empty() };
    let build: Seq<char> = if f.4.len() > 0 { seq!['+'] + f.4 } else { Seq::empty() };
    assert(t == head + pre + build);
    assert(t[0] == decimal(f.0 as nat)[0]);
    assert(!is_white_space(t.last())) by {
        if f.4.len() > 0 {
            assert(t.last() == f.4[f.4.len() - 1]);
            assert(identifier_char(f.4[f.4.len() - 1]));
        } else if f.3.len() > 0 {
            assert(t.last() == f.3[f.3.len() - 1]);
            assert(identifier_char(f.3[f.3.len() - 1]));
        } else {
            assert(t.last() == decimal(f.2 as nat).last());
        }
    }
    assert(lead_ws(t) == 0);
    assert(trim_start(t) =~= t);
    assert(trail_ws(t) == 0);
    assert(trim(t) =~= t);
    assert(lead_vs(t) == 0);
    assert(strip_v(t) =~= t);
}

/// Every admitted version satisfies the constraint.
pub proof fn lemma_admitted_satisfy(c: ConstraintView, s: Seq<(u64, u64, u64, Seq<char>, Seq<char>)>)
    ensures
        forall|i: int| 0 <= i < admitted(c, s).len() ==> constraint_admits(c, #[trigger] admitted(c, s)[i]),
    decreases s.len(),
{
    if s.len() > 0 {
        lemma_admitted_satisfy(c, s.drop_last());
        let prev = admitted(c, s.drop_last());
        assert forall|i: int| 0 <= i < admitted(c, s).len() implies constraint_admits(
            c,
            #[trigger] admitted(c, s)[i],
        ) by {
            if i < prev.len() {
                assert(admitted(c, s)[i] == prev[i]);
            }
        }
    }
}

/// The highest of a non-empty list is one of its elements.
pub proof fn lemma_highest_member(s: Seq<(u64, u64, u64, Seq<char>, Seq<char>)>)
    requires
        s.len() > 0,
    ensures
        s.contains(highest(s)),
    decreases s.len(),
{
    if s.len() > 1 {
        lemma_highest_member(s.drop_last());
        let m = highest(s.drop_last());
        let k = choose|k: int| 0 <= k < s.drop_last().len() && s.drop_last()[k] == m;
        assert(s[k] == m);
        assert(s[s.len() - 1] == s.last());
    } else {
        assert(s[0] == highest(s));
    }
}

/// Whether a version still satisfies a constraint: an unparseable
/// constraint or version never does; no constraint (`latest`, `*`, empty)
/// always does.
pub open spec fn satisfies_spec(raw: Seq<char>, version: Seq<char>) -> bool {
    match constraint_of(raw) {
        Err(_) => false,
        Ok(c) => if c is Any {
            true
        } else {
            match semver_version_parse(bare_version(version)) {
                Err(_) => false,
                Ok(f) => constraint_admits(c, f),
            }
        },
    }
}

/// Check whether an already-resolved version still satisfies a constraint.
pub fn satisfies(constraint_raw: &str, version_raw: &str) -> (r: bool)
    ensures
        r == satisfies_spec(constraint_raw@, version_raw@),
{
    let constraint = match parse_constraint(constraint_raw) {
        Ok(c) => c,
        Err(_) => {
            return false;
        },
    };
    if let Constraint::Any = constraint {
        return true;
    }
    let bare = bare_version_of(version_raw);
    match version_parse(bare.as_str()) {
        Ok(v) => constraint_matches(&constraint, &v),
        Err(_) => false,
    }
}

// ---- the newest published version ------------------------------------------------

/// A registry package's published versions.
pub struct RegistryPackage {
    pub versions: Vec<String>,
}

pub open spec fn unusable_text(raw: Seq<char>) -> Seq<char> {
    "registry version `"@ + raw + "` is not semver"@
}

/// Walk the published list keeping the first of the greatest versions, with
/// the text it was listed as (trimmed, without a leading `v`).
pub open spec fn newest_scan(vs: Seq<Seq<char>>) -> Result<Option<((u64, u64, u64, Seq<char>, Seq<char>), Seq<char>)>, Seq<char>>
    decreases vs.len(),
{
    if vs.len() == 0 {
        Ok(None)
    } else {
        match newest_scan(vs.drop_last()) {
            Err(e) => Err(e),
            Ok(best) => {
                let t = bare_version(vs.last());
                if t.len() == 0 {
                    Ok(best)
                } else {
                    match semver_version_parse(t) {
                        Err(_) => Err(unusable_text(vs.last())),
                        Ok(f) => match best {
                            Some(b) => if semver_order(f, b.0) <= 0 {
                                Ok(best)
                            } else {
                                Ok(Some((f, t)))
                            },
                            None => Ok(Some((f, t))),
                        },
                    }
                }
            },
        }
    }
}

/// The newest published version, as listed.
pub open spec fn newest_version(vs: Seq<Seq<char>>) -> Result<Seq<char>, Seq<char>> {
    match newest_scan(vs) {
        Err(e) => Err(e),
        Ok(None) => Err("registry listed no usable versions"@),
        Ok(Some(b)) => Ok(b.1),
    }
}

proof fn lemma_newest_err_prefix(vs: Seq<Seq<char>>, n: int)
    requires
        0 <= n <= vs.len(),
        newest_scan(vs.take(n)) is Err,
    ensures
        newest_scan(vs) == newest_scan(vs.take(n)),
    decreases vs.len() - n,
{
    if n < vs.len() {
        assert(vs.take(n + 1).drop_last() =~= vs.take(n));
        lemma_newest_err_prefix(vs, n + 1);
    } else {
        assert(vs.take(n) =~= vs);
    }
}

/// The highest published version, as the registry listed it.
pub fn latest_version(versions: &Vec<String>) -> (r: Result<String, String>)
    ensures
        text_result(r) == newest_version(string_views(versions@)),
{
    let mut best: Option<(SemVersion, String)> = None;
    let mut i: usize = 0;
    proof {
        assert(string_views(versions@.take(0)) =~= Seq::<Seq<char>>::empty());
    }
    while i < versions.len()
        invariant
            i <= versions@.len(),
            newest_scan(string_views(versions@.take(i as int))) == Ok::<
                Option<((u64, u64, u64, Seq<char>, Seq<char>), Seq<char>)>,
                Seq<char>,
            >(
                match best {
                    Some(b) => Some((b.0@, b.1@)),
                    None => None,
                },
            ),
        decreases versions@.len() - i,
    {
        let ghost vs = string_views(versions@.take(i + 1));
        proof {
            assert(vs.drop_last() =~= string_views(versions@.take(i as int)));
            assert(vs.last() == versions@[i as int]@);
        }
        let t = bare_version_of(versions[i].as_str());
        if !t.as_str().is_empty() {
            match version_parse(t.as_str()) {
                Err(_) => {
                    proof {
                        reveal_strlit("registry version `");
                        reveal_strlit("` is not semver");
                        lemma_newest_err_prefix(string_views(versions@), i as int + 1);
                        assert(string_views(versions@).take(i + 1) =~= vs);
                    }
                    let mut msg = owned("registry version `");
                    msg.append(versions[i].as_str());
                    msg.append("` is not semver");
                    return Err(msg);
                },
                Ok(f) => {
                    let replace = match &best {
                        Some(b) => version_order(&f, &b.0) > 0,
                        None => true,
                    };
                    if replace {
                        best = Some((f, t));
                    }
                },
            }
        }
        i = i + 1;
    }
    proof {
        assert(versions@.take(versions@.len() as int) =~= versions@);
        reveal_strlit("registry listed no usable versions");
    }
    match best {
        Some(b) => Ok(b.1),
        None => Err(owned("registry listed no usable versions")),
    }
}

/// What `select_version` answers: `latest`, `*` or nothing asks for the
/// newest published version; any other request is a range, answered with
/// the highest published version that satisfies it.
pub open spec fn selected_version(vs: Seq<Seq<char>>, requested: Seq<char>) -> Result<Seq<char>, Seq<char>> {
    let t = trim(requested);
    if !is_any_word(t) {
        best_version(t, vs)
    } else {
        newest_version(vs)
    }
}

/// The version to install for a request against a registry package.
pub fn select_version(registry: &RegistryPackage, requested: &str) -> (r: Result<String, String>)
    ensures
        text_result(r) == selected_version(string_views(registry.versions@), requested@),
        r matches Ok(t) ==> satisfies_spec(requested@, t@),
{
    let v = chars_of(requested);
    let (a, b) = trim_span(&v, 0, v.len());
    proof {
        assert(v@.subrange(0, v@.len() as int) =~= v@);
        crate::text::lemma_trim_idempotent(requested@);
    }
    if !any_word_span(&v, a, b) {
        let t = string_of_span(&v, a, b);
        let r = select_best(t.as_str(), &registry.versions);
        proof {
            assert(constraint_of(t@) is Ok ==> constraint_of(requested@) == constraint_of(t@));
        }
        return r;
    }
    latest_version(&registry.versions)
}

/// The install path's choice of a registry version; the same rule as
/// [`select_version`].
pub fn select_registry_version(registry: &RegistryPackage, requested: &str) -> (r: Result<String, String>)
    ensures
        text_result(r) == selected_version(string_views(registry.versions@), requested@),
        r matches Ok(t) ==> satisfies_spec(requested@, t@),
{
    select_version(registry, requested)
}

/// The version an official package is installed at: the locked one when
/// the lock pins it, else the registry's choice for the request.
pub open spec fn install_version(
    locked: Option<Seq<char>>,
    vs: Seq<Seq<char>>,
    requested: Seq<char>,
    name: Seq<char>,
) -> Result<Seq<char>, Seq<char>> {
    match locked {
        Some(v) => Ok(v),
        None => match selected_version(vs, requested) {
            Ok(v) => Ok(v),
            Err(_) => Err("failed to select a version for "@ + name),
        },
    }
}

pub fn registry_install_version(
    locked: Option<&str>,
    registry: &RegistryPackage,
    requested: &str,
    name: &str,
) -> (r: Result<String, String>)
    ensures
        text_result(r) == install_version(
            match locked {
                Some(v) => Some(v@),
                None => None,
            },
            string_views(registry.versions@),
            requested@,
            name@,
        ),
{
    match locked {
        Some(v) => Ok(owned(v)),
        None => match select_registry_version(registry, requested) {
            Ok(v) => Ok(v),
            Err(_) => {
                let mut e = owned("failed to select a version for ");
                e.append(name);
                Err(e)
            },
        },
    }
}

/// Whether `latest` is newer than `current`: by `semver` order when both
/// parse, else whenever the two texts differ.
pub open spec fn newer_spec(current: Seq<char>, latest: Seq<char>) -> bool {
    match (semver_version_parse(current), semver_version_parse(latest)) {
        (Ok(c), Ok(l)) => semver_order(l, c) > 0,
        _ => current != latest,
    }
}

pub fn is_newer(current: &str, latest: &str) -> (r: bool)
    ensures
        r == newer_spec(current@, latest@),
        semver_version_parse(current@) is Ok && semver_version_parse(latest@) is Ok && r
            ==> !newer_spec(latest@, current@),
{
    match (version_parse(current), version_parse(latest)) {
        (Ok(c), Ok(l)) => version_order(&l, &c) > 0,
        _ => {
            let a = owned(current);
            let b = owned(latest);
            !(a == b)
        },
    }
}


/// When some published version satisfies the constraint, the chosen
/// version is one of them.
pub proof fn law_best_version_admitted(c: ConstraintView, parsed: Seq<(u64, u64, u64, Seq<char>, Seq<char>)>)
    requires
        admitted(c, parsed).len() > 0,
    ensures
        constraint_admits(c, highest(candidates(c, parsed))),
        candidates(c, parsed).contains(highest(candidates(c, parsed))),
{
    let cands = candidates(c, parsed);
    lemma_highest_member(cands);
    lemma_admitted_satisfy(c, parsed);
    let k = choose|k: int| 0 <= k < cands.len() && cands[k] == highest(cands);
    assert(constraint_admits(c, admitted(c, parsed)[k]));
}

/// No constraint (`latest`, `*`, or blank) is satisfied by every version.
pub proof fn law_unconstrained_satisfies_every_version(raw: Seq<char>, version: Seq<char>)
    requires
        is_any_word(trim(raw)),
    ensures
        satisfies_spec(raw, version),
{
}


/// Parse a version with `semver`.
pub fn version_parse_text(text: &str) -> (r: Result<SemVersion, String>)
    ensures
        match r {
            Ok(v) => semver_version_parse(text@) == Ok::<(u64, u64, u64, Seq<char>, Seq<char>), Seq<char>>(v@),
            Err(e) => semver_version_parse(text@) == Err::<(u64, u64, u64, Seq<char>, Seq<char>), Seq<char>>(e@),
        },
{
    version_parse(text)
}

/// The JSR versions a request may take: not yanked, valid semver, and the
/// exact version asked for, or any stable one.
pub open spec fn jsr_candidates(
    vs: Seq<(Seq<char>, bool)>,
    exact: Option<(u64, u64, u64, Seq<char>, Seq<char>)>,
) -> Seq<(u64, u64, u64, Seq<char>, Seq<char>)>
    decreases vs.len(),
{
    if vs.len() == 0 {
        Seq::empty()
    } else {
        let prev = jsr_candidates(vs.drop_last(), exact);
        let (text, yanked) = vs.last();
        if yanked {
            prev
        } else {
            match semver_version_parse(text) {
                Err(_) => prev,
                Ok(f) => if (match exact {
                    Some(e) => e == f,
                    None => f.3.len() == 0,
                }) {
                    prev.push(f)
                } else {
                    prev
                },
            }
        }
    }
}

pub open spec fn jsr_pick(
    vs: Seq<(Seq<char>, bool)>,
    exact: Option<(u64, u64, u64, Seq<char>, Seq<char>)>,
) -> Result<Seq<char>, Seq<char>> {
    let c = jsr_candidates(vs, exact);
    if c.len() == 0 {
        Err("no matching non-yanked JSR version"@)
    } else {
        Ok(version_text(highest(c)))
    }
}

pub open spec fn flagged_views(v: Seq<(String, bool)>) -> Seq<(Seq<char>, bool)> {
    v.map_values(|p: (String, bool)| (p.0@, p.1))
}

/// The JSR version to vendor: the highest non-yanked published version
/// that is the exact one requested, or, without a request, the highest
/// stable one.
pub fn select_jsr_version(versions: &Vec<(String, bool)>, exact: Option<&SemVersion>) -> (r: Result<
    String,
    String,
>)
    ensures
        text_result(r) == jsr_pick(flagged_views(versions@), match exact {
            Some(e) => Some(e@),
            None => None,
        }),
{
    let ghost ex = match exact {
        Some(e) => Some(e@),
        None => None::<(u64, u64, u64, Seq<char>, Seq<char>)>,
    };
    let ghost fv = flagged_views(versions@);
    let mut cands: Vec<SemVersion> = Vec::new();
    let mut i: usize = 0;
    proof {
        assert(version_views(cands@) =~= Seq::<(u64, u64, u64, Seq<char>, Seq<char>)>::empty());
    }
    while i < versions.len()
        invariant
            i <= versions@.len(),
            fv == flagged_views(versions@),
            ex == match exact {
                Some(e) => Some(e@),
                None => None::<(u64, u64, u64, Seq<char>, Seq<char>)>,
            },
            version_views(cands@) == jsr_candidates(fv.take(i as int), ex),
        decreases versions@.len() - i,
    {
        proof {
            assert(fv.take(i + 1).drop_last() =~= fv.take(i as int));
            assert(fv.take(i + 1).last() == (versions@[i as int].0@, versions@[i as int].1));
        }
        if !versions[i].1 {
            match version_parse(versions[i].0.as_str()) {
                Ok(v) => {
                    let keep = match exact {
                        Some(e) => e.same_as(&v),
                        None => !v.is_prerelease(),
                    };
                    if keep {
                        let ghost before = cands@;
                        cands.push(v);
                        proof {
                            assert(version_views(cands@) =~= version_views(before).push(v@));
                        }
                    }
                },
                Err(_) => {},
            }
        }
        i = i + 1;
    }
    proof {
        assert(fv.take(fv.len() as int) =~= fv);
        reveal_strlit("no matching non-yanked JSR version");
    }
    let ghost cv = version_views(cands@);
    if cands.len() == 0 {
        return Err(owned("no matching non-yanked JSR version"));
    }
    let mut best: usize = 0;
    let mut j: usize = 1;
    proof {
        assert(cv.take(1) =~= seq![cv[0]]);
    }
    while j < cands.len()
        invariant
            1 <= j <= cands@.len(),
            cv == version_views(cands@),
            best < j,
            cv[best as int] == highest(cv.take(j as int)),
        decreases cands@.len() - j,
    {
        let o = version_order(&cands[best], &cands[j]);
        proof {
            assert(cv.take(j + 1).drop_last() =~= cv.take(j as int));
            assert(cv.take(j + 1).last() == cv[j as int]);
        }
        if o <= 0 {
            best = j;
        }
        j = j + 1;
    }
    proof {
        assert(cv.take(cv.len() as int) =~= cv);
    }
    Ok(cands[best].to_string())
}

} // verus!
