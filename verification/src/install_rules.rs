//! Install bookkeeping rules: which requested ranges an installed version
//! satisfies, what a lock entry pins, which package names are well formed,
//! and how a fresh resolution differs from the existing lock.

use vstd::prelude::*;
use crate::text::{pair_views};
use crate::text::string_views;
use crate::text::{chars_of, owned, string_of_span, trim, trim_span};
use crate::islands::{split_on, starts_with, find_char, copy_span};
use crate::versions::{bare_version_of, is_any_word, strip_v, text_lt, text_lt_chars};
use crate::package_spec::{parse_package_spec, spec_spec_split};
use vstd::utf8::encode_utf8;

verus! {

/// One dependent's declared range for a package.
pub struct VersionRequirement {
    pub range: String,
    pub requested_by: String,
}

/// The first requirement an installed version failed.
pub struct UnsatisfiedRequirement {
    pub range: String,
    pub requested_by: String,
}

/// Whether `version` satisfies `range` for the install resolver: the one
/// range semantics that version selection uses as well.
pub open spec fn install_satisfies(range: Seq<char>, version: Seq<char>) -> bool {
    crate::versions::satisfies_spec(range, version)
}

pub fn version_satisfies(range: &str, version: &str) -> (r: bool)
    ensures
        r == install_satisfies(range@, version@),
{
    crate::versions::satisfies(range, version)
}

/// The index of the first requirement `version` fails, if any.
pub open spec fn first_failed(reqs: Seq<(Seq<char>, Seq<char>)>, version: Seq<char>, i: int) -> Option<int>
    decreases reqs.len() - i,
{
    if i < 0 || i >= reqs.len() {
        None
    } else if !install_satisfies(reqs[i].0, version) {
        Some(i)
    } else {
        first_failed(reqs, version, i + 1)
    }
}

pub open spec fn requirement_views(v: Seq<VersionRequirement>) -> Seq<(Seq<char>, Seq<char>)> {
    v.map_values(|r: VersionRequirement| (r.range@, r.requested_by@))
}

/// The first requirement that `version` does not satisfy.
pub fn first_unsatisfied_requirement(requirements: &Vec<VersionRequirement>, version: &str) -> (r:
    Option<UnsatisfiedRequirement>)
    ensures
        match first_failed(requirement_views(requirements@), version@, 0) {
            Some(i) => r matches Some(u) && u.range@ == requirements@[i].range@
                && u.requested_by@ == requirements@[i].requested_by@,
            None => r is None,
        },
{
    let ghost rv = requirement_views(requirements@);
    let mut i: usize = 0;
    while i < requirements.len()
        invariant
            i <= requirements@.len(),
            rv == requirement_views(requirements@),
            first_failed(rv, version@, i as int) == first_failed(rv, version@, 0),
        decreases requirements@.len() - i,
    {
        proof {
            assert(rv[i as int] == (requirements@[i as int].range@, requirements@[i as int].requested_by@));
        }
        if !version_satisfies(requirements[i].range.as_str(), version) {
            return Some(
                UnsatisfiedRequirement {
                    range: requirements[i].range.clone(),
                    requested_by: requirements[i].requested_by.clone(),
                },
            );
        }
        i = i + 1;
    }
    None
}

pub open spec fn deka_scope() -> Seq<char> {
    seq!['@', 'd', 'e', 'k', 'a', '/']
}

/// A package of the official `@deka/` scope.
pub fn is_deka_package(name: &str) -> (r: bool)
    ensures
        r == starts_with(name@, deka_scope()),
{
    let v = chars_of(name);
    let p = vec!['@', 'd', 'e', 'k', 'a', '/'];
    let mut ok = v.len() >= 6;
    let mut k: usize = 0;
    while ok && k < 6
        invariant
            p@ == deka_scope(),
            k <= 6,
            ok ==> v@.len() >= 6,
            ok ==> forall|m: int| 0 <= m < k ==> v@[m] == p@[m],
            !ok ==> !starts_with(v@, deka_scope()),
        decreases 6 - k,
    {
        if v[k] != p[k] {
            ok = false;
            proof {
                if starts_with(v@, deka_scope()) {
                    assert(v@.take(6)[k as int] == v@[k as int]);
                }
            }
        }
        k = k + 1;
    }
    proof {
        if ok {
            assert(v@.take(6) =~= deka_scope());
        }
    }
    ok
}

/// ASCII digits only.
pub open spec fn all_ascii_digits(s: Seq<char>) -> bool {
    forall|i: int| 0 <= i < s.len() ==> '0' <= #[trigger] s[i] <= '9'
}

/// `major.minor.patch`, each a non-empty run of ASCII digits.
pub open spec fn is_plain_version(d: Seq<char>) -> bool {
    let parts = split_on(d, '.');
    &&& parts.len() == 3
    &&& forall|i: int| 0 <= i < 3 ==> #[trigger] parts[i].len() > 0 && all_ascii_digits(parts[i])
}

fn digits_only(v: &Vec<char>) -> (r: bool)
    ensures
        r == (v@.len() > 0 && all_ascii_digits(v@)),
{
    if v.len() == 0 {
        return false;
    }
    let mut k: usize = 0;
    while k < v.len()
        invariant
            k <= v@.len(),
            forall|m: int| 0 <= m < k ==> '0' <= #[trigger] v@[m] <= '9',
        decreases v@.len() - k,
    {
        if !('0' <= v[k] && v[k] <= '9') {
            return false;
        }
        k = k + 1;
    }
    true
}

pub fn is_version_descriptor(descriptor: &str) -> (r: bool)
    ensures
        r == is_plain_version(descriptor@),
{
    let v = chars_of(descriptor);
    let parts = crate::islands::split_chars(&v, '.');
    if parts.len() != 3 {
        return false;
    }
    let a = digits_only(&parts[0]);
    let b = digits_only(&parts[1]);
    let c = digits_only(&parts[2]);
    proof {
        let pv = parts@.map_values(|x: Vec<char>| x@);
        assert(pv[0] == parts@[0]@ && pv[1] == parts@[1]@ && pv[2] == parts@[2]@);
        if !(a && b && c) {
            if !a {
                assert(!(pv[0].len() > 0 && all_ascii_digits(pv[0])));
            } else if !b {
                assert(!(pv[1].len() > 0 && all_ascii_digits(pv[1])));
            } else {
                assert(!(pv[2].len() > 0 && all_ascii_digits(pv[2])));
            }
        }
    }
    a && b && c
}

/// The exact version a lock entry pins: the text after `name@` when it is
/// not blank, else a bare `x.y.z` descriptor itself.
pub open spec fn pinned_version(name: Seq<char>, descriptor: Seq<char>) -> Option<Seq<char>> {
    let p = name + seq!['@'];
    if starts_with(descriptor, p) && trim(descriptor.skip(p.len() as int)).len() > 0 {
        Some(descriptor.skip(p.len() as int))
    } else if is_plain_version(descriptor) {
        Some(descriptor)
    } else {
        None
    }
}

pub(crate) fn starts_with_text(v: &Vec<char>, p: &Vec<char>) -> (r: bool)
    ensures
        r == starts_with(v@, p@),
{
    if p.len() > v.len() {
        return false;
    }
    let mut k: usize = 0;
    while k < p.len()
        invariant
            p@.len() <= v@.len(),
            k <= p@.len(),
            forall|m: int| 0 <= m < k ==> v@[m] == p@[m],
        decreases p@.len() - k,
    {
        if v[k] != p[k] {
            proof {
                assert(v@.take(p@.len() as int)[k as int] == v@[k as int]);
            }
            return false;
        }
        k = k + 1;
    }
    proof {
        assert(v@.take(p@.len() as int) =~= p@);
    }
    true
}

pub fn locked_version(name: &str, descriptor: &str) -> (r: Option<String>)
    ensures
        match pinned_version(name@, descriptor@) {
            Some(v) => r matches Some(s) && s@ == v,
            None => r is None,
        },
{
    let d = chars_of(descriptor);
    let mut p = chars_of(name);
    p.push('@');
    proof {
        assert(p@ =~= name@ + seq!['@']);
    }
    let dl = d.len();
    if starts_with_text(&d, &p) {
        let (a, b) = trim_span(&d, p.len(), dl);
        proof {
            assert(d@.subrange(p@.len() as int, dl as int) =~= d@.skip(p@.len() as int));
        }
        if a < b {
            proof {
                assert(d@.subrange(p@.len() as int, dl as int) =~= d@.skip(p@.len() as int));
            }
            return Some(string_of_span(&d, p.len(), dl));
        }
    }
    if is_version_descriptor(descriptor) {
        Some(owned(descriptor))
    } else {
        None
    }
}

/// `is_ascii_alphanumeric`, `-` or `_`.
pub open spec fn is_name_char(c: char) -> bool {
    ('a' <= c <= 'z') || ('A' <= c <= 'Z') || ('0' <= c <= '9') || c == '-' || c == '_'
}

pub open spec fn all_name_chars(s: Seq<char>) -> bool {
    forall|i: int| 0 <= i < s.len() ==> is_name_char(#[trigger] s[i])
}

/// `@scope/name` optionally followed by `@version`: the scope and name are
/// non-empty runs of ASCII letters, digits, `-` and `_`.
pub open spec fn valid_scoped_name(spec: Seq<char>) -> bool {
    if spec.len() == 0 || spec[0] != '@' {
        false
    } else {
        let without_version = match find_char(spec, '@', 1) {
            Some(k) => spec.take(k),
            None => spec,
        };
        let parts = split_on(without_version, '/');
        let scope = parts[0];
        let name = if parts.len() > 1 {
            parts[1]
        } else {
            Seq::empty()
        };
        &&& parts.len() <= 2
        &&& scope.len() > 1
        &&& scope[0] == '@'
        &&& name.len() > 0
        &&& all_name_chars(scope.skip(1))
        &&& all_name_chars(name)
    }
}

fn name_chars_only(v: &Vec<char>, a: usize) -> (r: bool)
    requires
        a <= v@.len(),
    ensures
        r == all_name_chars(v@.skip(a as int)),
{
    let mut k = a;
    while k < v.len()
        invariant
            a <= k <= v@.len(),
            forall|m: int| a <= m < k ==> is_name_char(#[trigger] v@[m]),
        decreases v@.len() - k,
    {
        let c = v[k];
        if !(('a' <= c && c <= 'z') || ('A' <= c && c <= 'Z') || ('0' <= c && c <= '9') || c == '-'
            || c == '_') {
            proof {
                assert(v@.skip(a as int)[k - a] == c);
            }
            return false;
        }
        k = k + 1;
    }
    proof {
        assert forall|i: int| 0 <= i < v@.skip(a as int).len() implies is_name_char(
            #[trigger] v@.skip(a as int)[i],
        ) by {
            assert(v@.skip(a as int)[i] == v@[a + i]);
        }
    }
    true
}

pub fn is_valid_scoped_name(spec: &str) -> (r: bool)
    ensures
        r == valid_scoped_name(spec@),
{
    let v = chars_of(spec);
    if v.len() == 0 || v[0] != '@' {
        return false;
    }
    let cut = match crate::islands::find_char_from(&v, '@', 1) {
        Some(k) => k,
        None => v.len(),
    };
    let w = copy_span(&v, 0, cut);
    proof {
        match find_char(v@, '@', 1) {
            Some(k) => {
                assert(w@ =~= v@.take(k));
            },
            None => {
                assert(w@ =~= v@);
            },
        }
    }
    let parts = crate::islands::split_chars(&w, '/');
    let ghost pv = parts@.map_values(|x: Vec<char>| x@);
    proof {
        crate::islands::lemma_split_nonempty(w@, '/');
    }
    if parts.len() > 2 {
        return false;
    }
    let scope = &parts[0];
    proof {
        assert(pv[0] == scope@);
    }
    if scope.len() <= 1 || scope[0] != '@' {
        return false;
    }
    if parts.len() < 2 {
        return false;
    }
    let name = &parts[1];
    proof {
        assert(pv[1] == name@);
    }
    if name.len() == 0 {
        return false;
    }
    name_chars_only(scope, 1) && name_chars_only(name, 0) && {
        proof {
            assert(name@.skip(0) =~= name@);
        }
        true
    }
}

/// The key a dependency is recorded under in `deka.json`: an existing key
/// (the name as written, else its canonical form), else the canonical form
/// for a scoped name and the name as written otherwise.
pub open spec fn dep_key(keys: Seq<Seq<char>>, raw: Seq<char>, canonical: Seq<char>) -> Seq<char> {
    if keys.contains(raw) {
        raw
    } else if keys.contains(canonical) {
        canonical
    } else if raw.len() > 0 && raw[0] == '@' {
        canonical
    } else {
        raw
    }
}

fn has_key(keys: &Vec<String>, k: &str) -> (r: bool)
    ensures
        r == string_views(keys@).contains(k@),
{
    let t = owned(k);
    let mut i: usize = 0;
    while i < keys.len()
        invariant
            i <= keys@.len(),
            t@ == k@,
            forall|j: int| 0 <= j < i ==> keys@[j]@ != k@,
        decreases keys@.len() - i,
    {
        if keys[i] == t {
            proof {
                assert(string_views(keys@)[i as int] == k@);
            }
            return true;
        }
        i = i + 1;
    }
    proof {
        if string_views(keys@).contains(k@) {
            let j = choose|j: int| 0 <= j < string_views(keys@).len() && string_views(keys@)[j] == k@;
            assert(keys@[j]@ == k@);
        }
    }
    false
}

/// The key under which a dependency belongs in a manifest's dependency
/// table with the keys `deps`.
pub fn manifest_dep_key(deps: &Vec<String>, raw_name: &str, canonical: &str) -> (r: String)
    ensures
        r@ == dep_key(string_views(deps@), raw_name@, canonical@),
{
    if has_key(deps, raw_name) {
        return owned(raw_name);
    }
    if has_key(deps, canonical) {
        return owned(canonical);
    }
    let v = chars_of(raw_name);
    if v.len() > 0 && v[0] == '@' {
        owned(canonical)
    } else {
        owned(raw_name)
    }
}

/// The descriptor the first entry named `name` records.
pub open spec fn lookup(entries: Seq<(Seq<char>, Seq<char>)>, name: Seq<char>, i: int) -> Option<Seq<char>>
    decreases entries.len() - i,
{
    if i < 0 || i >= entries.len() {
        None
    } else if entries[i].0 == name {
        Some(entries[i].1)
    } else {
        lookup(entries, name, i + 1)
    }
}

/// The first difference between a fresh resolution and the existing lock:
/// an installed package the lock records differently or not at all, else a
/// locked package that was not installed.
pub open spec fn first_difference(
    existing: Seq<(Seq<char>, Seq<char>)>,
    installed: Seq<(Seq<char>, Seq<char>)>,
    i: int,
) -> Option<Seq<char>>
    decreases installed.len() + existing.len() - i,
{
    if i < 0 || i >= installed.len() + existing.len() {
        None
    } else if i < installed.len() {
        let (name, descriptor) = installed[i];
        match lookup(existing, name, 0) {
            Some(d) => if d == descriptor {
                first_difference(existing, installed, i + 1)
            } else {
                Some(name + " resolved to "@ + descriptor + " but lock has "@ + d)
            },
            None => Some(name + " is not in the existing lock"@),
        }
    } else {
        let name = existing[i - installed.len()].0;
        if lookup(installed, name, 0) is Some {
            first_difference(existing, installed, i + 1)
        } else {
            Some(name + " is present in lock but was not installed"@)
        }
    }
}

fn lookup_exec(entries: &Vec<(String, String)>, name: &str) -> (r: Option<String>)
    ensures
        match lookup(pair_views(entries@), name@, 0) {
            Some(d) => r matches Some(s) && s@ == d,
            None => r is None,
        },
{
    let ghost pv = pair_views(entries@);
    let t = owned(name);
    let mut i: usize = 0;
    while i < entries.len()
        invariant
            i <= entries@.len(),
            t@ == name@,
            pv == pair_views(entries@),
            lookup(pv, name@, i as int) == lookup(pv, name@, 0),
        decreases entries@.len() - i,
    {
        proof {
            assert(pv[i as int] == (entries@[i as int].0@, entries@[i as int].1@));
        }
        if entries[i].0 == t {
            return Some(entries[i].1.clone());
        }
        i = i + 1;
    }
    None
}

fn join3(a: &str, b: &str, c: &str) -> (r: String)
    ensures
        r@ == a@ + b@ + c@,
{
    let mut out = owned(a);
    out.append(b);
    out.append(c);
    out
}

/// How a fresh resolution (`installed`, as `(name, descriptor)` in name
/// order) differs from the existing lock's entries, if it does.
pub fn lock_diff(existing: &Vec<(String, String)>, installed: &Vec<(String, String)>) -> (r: Option<
    String,
>)
    ensures
        match first_difference(pair_views(existing@), pair_views(installed@), 0) {
            Some(m) => r matches Some(s) && s@ == m,
            None => r is None,
        },
{
    let ghost ev = pair_views(existing@);
    let ghost iv = pair_views(installed@);
    proof {
        reveal_strlit(" resolved to ");
        reveal_strlit(" but lock has ");
        reveal_strlit(" is not in the existing lock");
        reveal_strlit(" is present in lock but was not installed");
    }
    let mut i: usize = 0;
    while i < installed.len()
        invariant
            i <= installed@.len(),
            ev == pair_views(existing@),
            iv == pair_views(installed@),
            first_difference(ev, iv, i as int) == first_difference(ev, iv, 0),
        decreases installed@.len() - i,
    {
        proof {
            assert(iv[i as int] == (installed@[i as int].0@, installed@[i as int].1@));
        }
        let name = installed[i].0.as_str();
        let descriptor = &installed[i].1;
        match lookup_exec(existing, name) {
            Some(d) => {
                if !(d == *descriptor) {
                    let mut msg = join3(name, " resolved to ", descriptor.as_str());
                    msg.append(" but lock has ");
                    msg.append(d.as_str());
                    return Some(msg);
                }
            },
            None => {
                let mut m = owned(name);
                m.append(" is not in the existing lock");
                return Some(m);
            },
        }
        i = i + 1;
    }
    let mut j: usize = 0;
    while j < existing.len()
        invariant
            j <= existing@.len(),
            i == installed@.len(),
            ev == pair_views(existing@),
            iv == pair_views(installed@),
            first_difference(ev, iv, (i + j) as int) == first_difference(ev, iv, 0),
        decreases existing@.len() - j,
    {
        proof {
            assert(ev[j as int] == (existing@[j as int].0@, existing@[j as int].1@));
        }
        let name = existing[j].0.as_str();
        if lookup_exec(installed, name).is_none() {
            let mut m = owned(name);
            m.append(" is present in lock but was not installed");
            return Some(m);
        }
        j = j + 1;
    }
    None
}

/// The install spec a lock entry of an official package asks for: its
/// descriptor when it already reads `name@..`, `name@x.y.z` for a bare
/// version, else the name alone.
pub open spec fn locked_spec(name: Seq<char>, descriptor: Seq<char>) -> Seq<char> {
    if starts_with(descriptor, name + seq!['@']) {
        descriptor
    } else if is_plain_version(descriptor) {
        name + seq!['@'] + descriptor
    } else {
        name
    }
}

/// The install specs of the official packages among a lock's entries, in
/// order.
pub open spec fn locked_specs(entries: Seq<(Seq<char>, Seq<char>)>) -> Seq<Seq<char>>
    decreases entries.len(),
{
    if entries.len() == 0 {
        Seq::empty()
    } else {
        let prev = locked_specs(entries.drop_last());
        let (name, d) = entries.last();
        if starts_with(name, deka_scope()) {
            prev.push(locked_spec(name, d))
        } else {
            prev
        }
    }
}

pub fn collect_locked_deka_specs(entries: &Vec<(String, String)>) -> (r: Vec<String>)
    ensures
        string_views(r@) == locked_specs(pair_views(entries@)),
{
    let ghost pv = pair_views(entries@);
    let mut out: Vec<String> = Vec::new();
    let mut i: usize = 0;
    while i < entries.len()
        invariant
            i <= entries@.len(),
            pv == pair_views(entries@),
            string_views(out@) == locked_specs(pv.take(i as int)),
        decreases entries@.len() - i,
    {
        proof {
            assert(pv.take(i + 1).drop_last() =~= pv.take(i as int));
            assert(pv.take(i + 1).last() == (entries@[i as int].0@, entries@[i as int].1@));
        }
        let name = entries[i].0.as_str();
        let d = entries[i].1.as_str();
        if is_deka_package(name) {
            let dv = chars_of(d);
            let mut p = chars_of(name);
            p.push('@');
            let spec = if starts_with_text(&dv, &p) {
                owned(d)
            } else if is_version_descriptor(d) {
                join3(name, "@", d)
            } else {
                owned(name)
            };
            proof {
                reveal_strlit("@");
                assert(p@ =~= name@ + seq!['@']);
                assert("@"@ =~= seq!['@']);
            }
            let ghost before = out@;
            out.push(spec);
            proof {
                assert(string_views(out@) =~= string_views(before).push(spec@));
            }
        }
        i = i + 1;
    }
    proof {
        assert(pv.take(pv.len() as int) =~= pv);
    }
    out
}


/// A package contributes modules only when it ships DekaScript sources.
pub fn reject_source_less_package(has_sources: bool, package_name: &str) -> (r: Result<(), String>)
    ensures
        has_sources ==> r is Ok,
        !has_sources ==> (r matches Err(e) && e@ == "package "@ + package_name@
            + " cannot be installed: no .ds/.dsx sources (the package contributes no resolvable modules)"@),
{
    if has_sources {
        return Ok(());
    }
    let mut e = owned("package ");
    e.append(package_name);
    e.append(" cannot be installed: no .ds/.dsx sources (the package contributes no resolvable modules)");
    Err(e)
}

/// How a registry lookup's HTTP status reads: 404 is a missing package,
/// any other status outside 2xx a registry fault.
pub open spec fn lookup_outcome(name: Seq<char>, code: u16, status: Seq<char>) -> Result<(), Seq<char>> {
    if code == 404 {
        Err("package "@ + name + " not found in deka.gg registry (status "@ + status + ")"@)
    } else if !(200 <= code <= 299) {
        Err("registry lookup failed for "@ + name + ": status "@ + status)
    } else {
        Ok(())
    }
}

/// Check a registry lookup's status; `status` is its display text
/// (`404 Not Found`).
pub fn ensure_lookup_succeeded(name: &str, code: u16, status: &str) -> (r: Result<(), String>)
    ensures
        match lookup_outcome(name@, code, status@) {
            Ok(()) => r is Ok,
            Err(m) => r matches Err(e) && e@ == m,
        },
{
    if code == 404 {
        let mut e = owned("package ");
        e.append(name);
        e.append(" not found in deka.gg registry (status ");
        e.append(status);
        e.append(")");
        return Err(e);
    }
    if !(200 <= code && code <= 299) {
        let mut e = owned("registry lookup failed for ");
        e.append(name);
        e.append(": status ");
        e.append(status);
        return Err(e);
    }
    Ok(())
}

/// The install spec of one `deka.json` dependency: `name@version`, or the
/// bare name when the version is missing, blank, `*` or `latest`.
pub open spec fn manifest_spec(name: Seq<char>, version: Option<Seq<char>>) -> Seq<char> {
    match version {
        Some(v) => if is_any_word(trim(v)) {
            name
        } else {
            name + seq!['@'] + trim(v)
        },
        None => name,
    }
}

pub fn manifest_dep_spec(name: &str, version: Option<&str>) -> (r: String)
    ensures
        r@ == manifest_spec(name@, match version {
            Some(v) => Some(v@),
            None => None,
        }),
{
    match version {
        None => owned(name),
        Some(v) => {
            let vv = chars_of(v);
            let (a, b) = trim_span(&vv, 0, vv.len());
            proof {
                assert(vv@.subrange(0, vv@.len() as int) =~= vv@);
            }
            let t = string_of_span(&vv, a, b);
            proof {
                reveal_strlit("latest");
                reveal_strlit("*");
            }
            if t.as_str().is_empty() || t == owned("*") || t == owned("latest") {
                owned(name)
            } else {
                let mut out = owned(name);
                crate::text::string_push(&mut out, '@');
                out.append(t.as_str());
                out
            }
        },
    }
}


/// No range (`latest`, `*`, or blank) admits every installed version.
pub proof fn law_unranged_requirement_admits_every_version(range: Seq<char>, version: Seq<char>)
    requires
        is_any_word(trim(range)),
    ensures
        install_satisfies(range, version),
{
    crate::versions::law_unconstrained_satisfies_every_version(range, version);
}

/// Entries with distinct names.
pub open spec fn distinct_names(e: Seq<(Seq<char>, Seq<char>)>) -> bool {
    forall|i: int, j: int| 0 <= i < j < e.len() ==> e[i].0 != e[j].0
}

proof fn lemma_lookup_finds(e: Seq<(Seq<char>, Seq<char>)>, k: int, j: int)
    requires
        distinct_names(e),
        0 <= j <= k < e.len(),
    ensures
        lookup(e, e[k].0, j) == Some(e[k].1),
    decreases k - j,
{
    if j < k {
        assert(e[j].0 != e[k].0);
        lemma_lookup_finds(e, k, j + 1);
    }
}

proof fn lemma_no_difference_from(e: Seq<(Seq<char>, Seq<char>)>, i: int)
    requires
        distinct_names(e),
        0 <= i,
    ensures
        first_difference(e, e, i) is None,
    decreases e.len() + e.len() - i,
{
    if i < e.len() + e.len() {
        if i < e.len() {
            lemma_lookup_finds(e, i, 0);
        } else {
            lemma_lookup_finds(e, i - e.len(), 0);
        }
        lemma_no_difference_from(e, i + 1);
    }
}

/// A resolution that matches the lock entry for entry shows no difference.
pub proof fn law_lock_diff_of_identical_entries(e: Seq<(Seq<char>, Seq<char>)>)
    requires
        distinct_names(e),
    ensures
        first_difference(e, e, 0) is None,
{
    lemma_no_difference_from(e, 0);
}


/// The range a package is fetched at: the first requirement that is
/// neither `latest` nor `*`, else `latest`.
pub open spec fn fetch_range(reqs: Seq<(Seq<char>, Seq<char>)>) -> Seq<char>
    decreases reqs.len(),
{
    if reqs.len() == 0 {
        "latest"@
    } else if reqs[0].0 != "latest"@ && reqs[0].0 != "*"@ {
        reqs[0].0
    } else {
        fetch_range(reqs.drop_first())
    }
}

/// The range a package is fetched at is the first requirement that names a
/// range (neither `latest` nor `*`); it is `latest` only when no
/// requirement names one, and it is never `*`.
pub proof fn law_fetch_range_is_first_named_range(reqs: Seq<(Seq<char>, Seq<char>)>)
    ensures
        (forall|i: int| 0 <= i < reqs.len() ==> reqs[i].0 == "latest"@ || reqs[i].0 == "*"@) ==> fetch_range(reqs)
            == "latest"@,
        forall|k: int|
            0 <= k < reqs.len() && reqs[k].0 != "latest"@ && reqs[k].0 != "*"@ && (forall|i: int|
                0 <= i < k ==> reqs[i].0 == "latest"@ || reqs[i].0 == "*"@) ==> fetch_range(reqs) == #[trigger] reqs[k].0,
        fetch_range(reqs) != "*"@,
    decreases reqs.len(),
{
    reveal_strlit("latest");
    reveal_strlit("*");
    assert("latest"@ != "*"@) by {
        assert("latest"@.len() != "*"@.len());
    }
    if reqs.len() > 0 {
        let rest = reqs.drop_first();
        law_fetch_range_is_first_named_range(rest);
        if reqs[0].0 == "latest"@ || reqs[0].0 == "*"@ {
            assert forall|k: int|
                0 <= k < reqs.len() && reqs[k].0 != "latest"@ && reqs[k].0 != "*"@ && (forall|i: int|
                    0 <= i < k ==> reqs[i].0 == "latest"@ || reqs[i].0 == "*"@) implies fetch_range(reqs) == #[trigger] reqs[k].0 by {
                assert(k > 0);
                assert(rest[k - 1] == reqs[k]);
                assert forall|i: int| 0 <= i < k - 1 implies rest[i].0 == "latest"@ || rest[i].0 == "*"@ by {
                    assert(rest[i] == reqs[i + 1]);
                }
            }
            if forall|i: int| 0 <= i < reqs.len() ==> reqs[i].0 == "latest"@ || reqs[i].0 == "*"@ {
                assert forall|i: int| 0 <= i < rest.len() implies rest[i].0 == "latest"@ || rest[i].0 == "*"@ by {
                    assert(rest[i] == reqs[i + 1]);
                }
            }
        }
    }
}

pub fn requested_range(requirements: &Vec<VersionRequirement>) -> (r: String)
    ensures
        r@ == fetch_range(requirement_views(requirements@)),
{
    let ghost rv = requirement_views(requirements@);
    let latest = owned("latest");
    let star = owned("*");
    let mut i: usize = 0;
    proof {
        assert(rv.skip(0) =~= rv);
    }
    while i < requirements.len()
        invariant
            i <= requirements@.len(),
            rv == requirement_views(requirements@),
            latest@ == "latest"@,
            star@ == "*"@,
            fetch_range(rv.skip(i as int)) == fetch_range(rv),
        decreases requirements@.len() - i,
    {
        proof {
            assert(rv.skip(i as int)[0] == (requirements@[i as int].range@, requirements@[i as int].requested_by@));
            assert(rv.skip(i as int).drop_first() =~= rv.skip(i + 1));
        }
        if !(requirements[i].range == latest) && !(requirements[i].range == star) {
            return requirements[i].range.clone();
        }
        i = i + 1;
    }
    proof {
        assert(rv.skip(i as int) =~= Seq::<(Seq<char>, Seq<char>)>::empty());
    }
    latest
}

/// The error for an installed version that fails a dependent's range.
pub fn conflict_message(name: &str, version: &str, conflict: &UnsatisfiedRequirement) -> (r: String)
    ensures
        r@ == name@ + seq![' '] + version@ + " does not satisfy requirement "@ + conflict.range@
            + " from "@ + conflict.requested_by@,
{
    let mut out = owned(name);
    crate::text::string_push(&mut out, ' ');
    out.append(version);
    out.append(" does not satisfy requirement ");
    out.append(conflict.range.as_str());
    out.append(" from ");
    out.append(conflict.requested_by.as_str());
    out
}

/// Where an official package's registry metadata lives: `Err` for a name
/// outside `@deka/`.
pub open spec fn registry_metadata_location(base: Seq<char>, name: Seq<char>) -> Result<Seq<char>, Seq<char>> {
    if starts_with(name, deka_scope()) {
        Ok(base + "/api/registry/"@ + name.skip(6) + ".json"@)
    } else {
        Err("install_from_registry called with non-@deka package: "@ + name)
    }
}

pub fn registry_metadata_url(base: &str, name: &str) -> (r: Result<String, String>)
    ensures
        match registry_metadata_location(base@, name@) {
            Ok(u) => r matches Ok(s) && s@ == u,
            Err(e) => r matches Err(m) && m@ == e,
        },
{
    if !is_deka_package(name) {
        let mut e = owned("install_from_registry called with non-@deka package: ");
        e.append(name);
        return Err(e);
    }
    let v = chars_of(name);
    let vl = v.len();
    let bare = copy_span(&v, 6, vl);
    proof {
        assert(bare@ =~= name@.skip(6));
    }
    let mut out = owned(base);
    out.append("/api/registry/");
    crate::islands::append_chars(&mut out, &bare);
    out.append(".json");
    Ok(out)
}

/// The published artifacts of an official package release.
pub struct StdlibArtifact {
    pub repo_url: String,
    pub tag: String,
    pub tarball_url: String,
}

/// The artifacts of release `version` of the official package `package`
/// (its name without the scope), from the CDN at `cdn_base`.
pub fn stdlib_artifact(cdn_base: &str, package: &str, version: &str) -> (r: StdlibArtifact)
    ensures
        r.repo_url@ == "https://github.com/dekaruntime/"@ + package@ + ".git"@,
        r.tag@ == seq!['v'] + version@,
        r.tarball_url@ == cdn_base@ + seq!['/'] + package@ + seq!['/'] + version@ + seq!['/']
            + package@ + seq!['-'] + version@ + ".tgz"@,
{
    let mut repo_url = owned("https://github.com/dekaruntime/");
    repo_url.append(package);
    repo_url.append(".git");
    let mut tag = String::new();
    crate::text::string_push(&mut tag, 'v');
    tag.append(version);
    let mut t = owned(cdn_base);
    crate::text::string_push(&mut t, '/');
    t.append(package);
    crate::text::string_push(&mut t, '/');
    t.append(version);
    crate::text::string_push(&mut t, '/');
    t.append(package);
    crate::text::string_push(&mut t, '-');
    t.append(version);
    t.append(".tgz");
    StdlibArtifact { repo_url, tag, tarball_url: t }
}


/// `name` is the package name `parse_package_spec` gives for `spec`.
pub open spec fn package_name_of(spec: Seq<char>, name: Seq<char>) -> bool {
    match spec_spec_split(encode_utf8(spec)) {
        Some(j) => encode_utf8(name) == encode_utf8(spec).subrange(0, j),
        None => name == spec,
    }
}

/// Insert or replace `k` in a table kept in ascending key order.
pub open spec fn upsert(t: Seq<(Seq<char>, Seq<char>)>, k: Seq<char>, v: Seq<char>) -> Seq<(Seq<char>, Seq<char>)>
    decreases t.len(),
{
    if t.len() == 0 {
        seq![(k, v)]
    } else if t[0].0 == k {
        seq![(k, v)] + t.drop_first()
    } else if text_lt(t[0].0, k) {
        seq![t[0]] + upsert(t.drop_first(), k, v)
    } else {
        seq![(k, v)] + t
    }
}

/// The table of `(name, spec)` entries, later entries replacing earlier
/// ones of the same name.
pub open spec fn merged(entries: Seq<(Seq<char>, Seq<char>)>) -> Seq<(Seq<char>, Seq<char>)>
    decreases entries.len(),
{
    if entries.len() == 0 {
        Seq::empty()
    } else {
        upsert(merged(entries.drop_last()), entries.last().0, entries.last().1)
    }
}

pub open spec fn table_values(t: Seq<(Seq<char>, Seq<char>)>) -> Seq<Seq<char>> {
    t.map_values(|e: (Seq<char>, Seq<char>)| e.1)
}

pub open spec fn zip_names(names: Seq<Seq<char>>, specs: Seq<Seq<char>>) -> Seq<(Seq<char>, Seq<char>)> {
    Seq::new(specs.len(), |i: int| (names[i], specs[i]))
}

pub(crate) proof fn lemma_upsert_at(t: Seq<(Seq<char>, Seq<char>)>, k: Seq<char>, v: Seq<char>, i: int)
    requires
        0 <= i <= t.len(),
        forall|m: int| 0 <= m < i ==> #[trigger] t[m].0 != k && text_lt(t[m].0, k),
        i < t.len() ==> (t[i].0 == k || !text_lt(t[i].0, k)),
    ensures
        upsert(t, k, v) == if i < t.len() && t[i].0 == k {
            t.update(i, (k, v))
        } else {
            t.take(i) + seq![(k, v)] + t.skip(i)
        },
    decreases i,
{
    if i == 0 {
        if t.len() > 0 && t[0].0 == k {
            assert(seq![(k, v)] + t.drop_first() =~= t.update(0, (k, v)));
        } else {
            assert(t.take(0) + seq![(k, v)] + t.skip(0) =~= seq![(k, v)] + t);
        }
    } else {
        let u = t.drop_first();
        assert forall|m: int| 0 <= m < i - 1 implies #[trigger] u[m].0 != k && text_lt(u[m].0, k) by {
            assert(u[m] == t[m + 1]);
        }
        lemma_upsert_at(u, k, v, i - 1);
        if i < t.len() && t[i].0 == k {
            assert(seq![t[0]] + u.update(i - 1, (k, v)) =~= t.update(i, (k, v)));
        } else {
            assert(seq![t[0]] + (u.take(i - 1) + seq![(k, v)] + u.skip(i - 1)) =~= t.take(i)
                + seq![(k, v)] + t.skip(i));
        }
    }
}

pub open spec fn pair_views2(v: Seq<(String, String)>) -> Seq<(Seq<char>, Seq<char>)> {
    v.map_values(|p: (String, String)| (p.0@, p.1@))
}

/// The install specs of a project: the lock's official packages, then the
/// manifest's dependencies, one per package name (the manifest's wins), in
/// name order.
pub fn collect_project_install_specs(locked_specs: &Vec<String>, manifest_specs: &Vec<String>) -> (r:
    Vec<String>)
    ensures
        exists|names: Seq<Seq<char>>|
            names.len() == locked_specs@.len() + manifest_specs@.len() && (forall|i: int|
                0 <= i < names.len() ==> package_name_of(
                    #[trigger] (string_views(locked_specs@) + string_views(manifest_specs@))[i],
                    names[i],
                )) && string_views(r@) == table_values(
                merged(
                    zip_names(names, string_views(locked_specs@) + string_views(manifest_specs@)),
                ),
            ),
{
    let mut all: Vec<String> = Vec::new();
    let mut i: usize = 0;
    while i < locked_specs.len()
        invariant
            i <= locked_specs@.len(),
            string_views(all@) == string_views(locked_specs@.take(i as int)),
        decreases locked_specs@.len() - i,
    {
        let t = locked_specs[i].clone();
        let ghost before = all@;
        let ghost tg = t;
        all.push(t);
        proof {
            assert(all@ == before.push(tg));
            assert(string_views(all@) =~= string_views(before).push(tg@));
            assert(string_views(locked_specs@.take(i + 1)) =~= string_views(locked_specs@.take(i as int)).push(locked_specs@[i as int]@));
        }
        i = i + 1;
    }
    let mut j: usize = 0;
    proof {
        assert(locked_specs@.take(locked_specs@.len() as int) =~= locked_specs@);
    }
    while j < manifest_specs.len()
        invariant
            j <= manifest_specs@.len(),
            string_views(all@) == string_views(locked_specs@) + string_views(manifest_specs@.take(j as int)),
        decreases manifest_specs@.len() - j,
    {
        let t = manifest_specs[j].clone();
        let ghost before = all@;
        let ghost tg = t;
        all.push(t);
        proof {
            assert(all@ == before.push(tg));
            assert(string_views(all@) =~= string_views(before).push(tg@));
            assert(string_views(manifest_specs@.take(j + 1)) =~= string_views(manifest_specs@.take(j as int)).push(manifest_specs@[j as int]@));
            assert(string_views(all@) =~= string_views(locked_specs@) + string_views(manifest_specs@.take(j + 1)));
        }
        j = j + 1;
    }
    proof {
        assert(manifest_specs@.take(manifest_specs@.len() as int) =~= manifest_specs@);
    }
    let ghost specs = string_views(all@);
    let mut table: Vec<(String, String)> = Vec::new();
    let mut keys: Vec<Vec<char>> = Vec::new();
    let ghost mut names: Seq<Seq<char>> = Seq::empty();
    let mut k: usize = 0;
    proof {
        assert(pair_views2(table@) =~= merged(zip_names(names, specs.take(0))));
    }
    while k < all.len()
        invariant
            k <= all@.len(),
            specs == string_views(all@),
            names.len() == k,
            forall|m: int| 0 <= m < k ==> package_name_of(#[trigger] specs[m], names[m]),
            pair_views2(table@) == merged(zip_names(names, specs.take(k as int))),
            keys@.len() == table@.len(),
            forall|m: int| 0 <= m < keys@.len() ==> #[trigger] keys@[m]@ == table@[m].0@,
        decreases all@.len() - k,
    {
        let (name, _) = parse_package_spec(all[k].as_str());
        let ghost tv = pair_views2(table@);
        let nk = chars_of(name.as_str());
        let mut p: usize = 0;
        while p < keys.len() && !crate::project::same_chars(&keys[p], &nk) && text_lt_chars(&keys[p], &nk)
            invariant
                p <= keys@.len(),
                nk@ == name@,
                keys@.len() == table@.len(),
                tv == pair_views2(table@),
                forall|m: int| 0 <= m < keys@.len() ==> #[trigger] keys@[m]@ == table@[m].0@,
                forall|m: int| 0 <= m < p ==> #[trigger] tv[m].0 != name@ && text_lt(tv[m].0, name@),
            decreases keys@.len() - p,
        {
            proof {
                assert(tv[p as int].0 == keys@[p as int]@);
            }
            p = p + 1;
        }
        proof {
            if p < keys@.len() {
                assert(tv[p as int].0 == keys@[p as int]@);
            }
            lemma_upsert_at(tv, name@, specs[k as int], p as int);
            let z1 = zip_names(names.push(name@), specs.take(k + 1));
            assert(z1.drop_last() =~= zip_names(names, specs.take(k as int)));
            assert(z1.last() == (name@, specs[k as int]));
        }
        let spec_text = all[k].clone();
        let replace = p < keys.len() && crate::project::same_chars(&keys[p], &nk);
        let ghost tb = table@;
        let ghost kb = keys@;
        if replace {
            table.set(p, (name, spec_text));
            proof {
                assert(pair_views2(table@) =~= tv.update(p as int, (nk@, specs[k as int])));
            }
        } else {
            table.insert(p, (name, spec_text));
            keys.insert(p, nk);
            proof {
                assert(pair_views2(table@) =~= tv.take(p as int) + seq![(nk@, specs[k as int])] + tv.skip(p as int));
                assert forall|m: int| 0 <= m < keys@.len() implies #[trigger] keys@[m]@ == table@[m].0@ by {
                    if m < p {
                        assert(keys@[m] == kb[m] && table@[m] == tb[m]);
                    } else if m > p {
                        assert(keys@[m] == kb[m - 1] && table@[m] == tb[m - 1]);
                    }
                }
            }
        }
        proof {
            names = names.push(nk@);
            assert forall|m: int| 0 <= m < k + 1 implies package_name_of(#[trigger] specs[m], names[m]) by {
                if m == k {
                    assert(specs[m] == all@[m]@);
                }
            }
        }
        k = k + 1;
    }
    let mut out: Vec<String> = Vec::new();
    let ghost tv = pair_views2(table@);
    let mut q: usize = 0;
    while q < table.len()
        invariant
            q <= table@.len(),
            tv == pair_views2(table@),
            string_views(out@) == table_values(tv.take(q as int)),
        decreases table@.len() - q,
    {
        let t = table[q].1.clone();
        let ghost before = out@;
        let ghost tg = t;
        out.push(t);
        proof {
            assert(out@ == before.push(tg));
            assert(tv[q as int] == (table@[q as int].0@, table@[q as int].1@));
            assert(string_views(out@) =~= string_views(before).push(tg@));
            assert(table_values(tv.take(q + 1)) =~= table_values(tv.take(q as int)).push(tv[q as int].1));
        }
        q = q + 1;
    }
    proof {
        assert(tv.take(tv.len() as int) =~= tv);
        assert(specs.take(specs.len() as int) =~= specs);
        assert(specs =~= string_views(locked_specs@) + string_views(manifest_specs@));
    }
    out
}


// ---- `--locked` installs ------------------------------------------------------

/// A `--locked` install needs an existing lock to hold the install to.
pub fn check_locked_lock(locked: bool, lock_is_empty: bool) -> (r: Result<(), String>)
    ensures
        r is Err <==> (locked && lock_is_empty),
        r matches Err(e) ==> e@ == "--locked install requires an existing deka.lock"@,
{
    if locked && lock_is_empty {
        Err(owned("--locked install requires an existing deka.lock"))
    } else {
        Ok(())
    }
}

/// Under `--locked` every package to install must have a lock entry.
pub fn check_locked_entry(locked: bool, name: &str, has_entry: bool) -> (r: Result<(), String>)
    ensures
        r is Err <==> (locked && !has_entry),
        r matches Err(e) ==> e@ == "--locked install requires '"@ + name@ + "' in deka.lock"@,
{
    if locked && !has_entry {
        let mut e = owned("--locked install requires '");
        e.append(name);
        e.append("' in deka.lock");
        Err(e)
    } else {
        Ok(())
    }
}

/// Under `--locked` the resolved graph must be the lock's, entry for entry.
pub fn check_locked_unchanged(
    locked: bool,
    existing: &Vec<(String, String)>,
    installed: &Vec<(String, String)>,
) -> (r: Result<(), String>)
    ensures
        !locked ==> r is Ok,
        locked ==> match first_difference(pair_views(existing@), pair_views(installed@), 0) {
            Some(m) => r matches Err(e) && e@ == "--locked install would change deka.lock: "@ + m,
            None => r is Ok,
        },
{
    if !locked {
        return Ok(());
    }
    match lock_diff(existing, installed) {
        Some(diff) => {
            let mut e = owned("--locked install would change deka.lock: ");
            e.append(diff.as_str());
            Err(e)
        },
        None => Ok(()),
    }
}

/// Whether a legacy empty `moduleGraph` hash is rewritten: never under
/// `--locked`, which keeps the lock byte for byte.
pub fn heals_legacy_module_graph(legacy: bool, locked: bool) -> (r: bool)
    ensures
        r == (legacy && !locked),
{
    legacy && !locked
}

/// An install with nothing declared is refused.
pub fn check_declared_specs(count: usize) -> (r: Result<(), String>)
    ensures
        r is Err <==> count == 0,
        r matches Err(e) ==> e@ == "no packages declared in deka.json or deka.lock"@,
{
    if count == 0 {
        Err(owned("no packages declared in deka.json or deka.lock"))
    } else {
        Ok(())
    }
}

} // verus!
