//! Rules for vendoring a JSR package: reading a `jsr:` source, which files
//! are modules and what they are emitted as, and how relative imports
//! resolve inside the package.

use vstd::prelude::*;
use crate::text::string_views;
use crate::text::{chars_of, owned, string_of_span};
use crate::islands::{copy_span, dot, dot_dot, find_char, find_char_from, split_chars, split_on, starts_with, append_chars};
use crate::project::{js_path, path_is_safe, safe_path, vendored_js_path};
use crate::versions::{semver_version_parse, version_parse_text, SemVersion};

verus! {

/// A `jsr:@scope/name[@version]` source, read.
#[derive(Debug)]
pub struct JsrSource {
    pub scope: String,
    pub name: String,
    pub requested: Option<String>,
}

pub open spec fn jsr_prefix() -> Seq<char> {
    seq!['j', 's', 'r', ':', '@']
}

/// A lower-case ASCII letter, digit or `-`.
pub open spec fn is_jsr_name_char(c: char) -> bool {
    ('a' <= c <= 'z') || ('0' <= c <= '9') || c == '-'
}

pub open spec fn jsr_name_ok(s: Seq<char>) -> bool {
    s.len() > 0 && forall|i: int| 0 <= i < s.len() ==> is_jsr_name_char(#[trigger] s[i])
}

/// The parts of a `jsr:` source: `Err` with the message when it is not
/// `jsr:@scope/name[@version]` with well-formed names.
pub open spec fn jsr_parts(source: Seq<char>) -> Result<(Seq<char>, Seq<char>, Option<Seq<char>>), Seq<char>> {
    if !starts_with(source, jsr_prefix()) {
        Err("expected jsr:@scope/name[@version]"@)
    } else {
        let spec = source.skip(5);
        let (package, requested) = match find_char(spec, '@', 0) {
            Some(k) => (spec.take(k), Some(spec.skip(k + 1))),
            None => (spec, None),
        };
        match find_char(package, '/', 0) {
            None => Err("expected jsr:@scope/name[@version]"@),
            Some(k) => {
                let scope = package.take(k);
                let name = package.skip(k + 1);
                if jsr_name_ok(scope) && jsr_name_ok(name) {
                    Ok((scope, name, requested))
                } else {
                    Err("invalid JSR scope or package name"@)
                }
            },
        }
    }
}

fn jsr_name_check(v: &Vec<char>) -> (r: bool)
    ensures
        r == jsr_name_ok(v@),
{
    if v.len() == 0 {
        return false;
    }
    let mut k: usize = 0;
    while k < v.len()
        invariant
            k <= v@.len(),
            forall|m: int| 0 <= m < k ==> is_jsr_name_char(#[trigger] v@[m]),
        decreases v@.len() - k,
    {
        let c = v[k];
        if !(('a' <= c && c <= 'z') || ('0' <= c && c <= '9') || c == '-') {
            return false;
        }
        k = k + 1;
    }
    true
}

fn text_of(v: &Vec<char>) -> (r: String)
    ensures
        r@ == v@,
{
    let mut s = String::new();
    append_chars(&mut s, v);
    s
}

/// Read a `jsr:@scope/name[@version]` source.
pub fn parse_jsr_source(source: &str) -> (r: Result<JsrSource, String>)
    ensures
        match jsr_parts(source@) {
            Ok((scope, name, requested)) => r matches Ok(j) && j.scope@ == scope && j.name@ == name
                && match requested {
                Some(v) => j.requested matches Some(t) && t@ == v,
                None => j.requested is None,
            },
            Err(e) => r matches Err(m) && m@ == e,
        },
{
    proof {
        reveal_strlit("expected jsr:@scope/name[@version]");
        reveal_strlit("invalid JSR scope or package name");
    }
    let v = chars_of(source);
    let vl = v.len();
    let p = vec!['j', 's', 'r', ':', '@'];
    let starts = vl >= 5 && v[0] == p[0] && v[1] == p[1] && v[2] == p[2] && v[3] == p[3] && v[4]
        == p[4];
    proof {
        assert(p@ =~= jsr_prefix());
        if vl >= 5 {
            let t = v@.take(5);
            assert(t[0] == v@[0] && t[1] == v@[1] && t[2] == v@[2] && t[3] == v@[3] && t[4] == v@[4]);
            if starts {
                assert(t =~= jsr_prefix());
            }
        }
    }
    if !starts {
        return Err(owned("expected jsr:@scope/name[@version]"));
    }
    let spec = copy_span(&v, 5, vl);
    proof {
        assert(spec@ =~= v@.skip(5));
    }
    let sl = spec.len();
    let (package, requested) = match find_char_from(&spec, '@', 0) {
        Some(k) => {
            let pkg = copy_span(&spec, 0, k);
            let ver = copy_span(&spec, k + 1, sl);
            proof {
                assert(pkg@ =~= spec@.take(k as int));
                assert(ver@ =~= spec@.skip(k + 1));
            }
            (pkg, Some(text_of(&ver)))
        },
        None => (copy_span(&spec, 0, sl), None),
    };
    proof {
        assert(spec@.subrange(0, sl as int) =~= spec@);
    }
    let pl = package.len();
    match find_char_from(&package, '/', 0) {
        None => Err(owned("expected jsr:@scope/name[@version]")),
        Some(k) => {
            let scope = copy_span(&package, 0, k);
            let name = copy_span(&package, k + 1, pl);
            proof {
                assert(scope@ =~= package@.take(k as int));
                assert(name@ =~= package@.skip(k + 1));
            }
            if jsr_name_check(&scope) && jsr_name_check(&name) {
                Ok(JsrSource { scope: text_of(&scope), name: text_of(&name), requested })
            } else {
                Err(owned("invalid JSR scope or package name"))
            }
        },
    }
}

/// The exact version a `jsr:` source asks for, if it names one.
pub fn requested_jsr_version(requested: Option<&str>) -> (r: Result<Option<SemVersion>, String>)
    ensures
        match requested {
            None => r matches Ok(v) && v is None,
            Some(t) => match semver_version_parse(t@) {
                Ok(f) => r matches Ok(v) && v matches Some(x) && x@ == f,
                Err(_) => r matches Err(e) && e@ == "JSR version must be an exact semantic version"@,
            },
        },
{
    match requested {
        None => Ok(None),
        Some(t) => match version_parse_text(t) {
            Ok(v) => Ok(Some(v)),
            Err(_) => Err(owned("JSR version must be an exact semantic version")),
        },
    }
}

/// The package's entry module from its root (`.`) export.
pub open spec fn jsr_entry_of(export: Option<Seq<char>>) -> Result<Seq<char>, Seq<char>> {
    match export {
        Some(e) => if starts_with(e, seq!['.', '/']) {
            let p = e.skip(2);
            if path_is_safe(p) {
                Ok(p)
            } else {
                Err("unsafe JSR file path: "@ + p)
            }
        } else {
            Err("JSR package requires a root (.) export"@)
        },
        None => Err("JSR package requires a root (.) export"@),
    }
}

pub fn jsr_entry(export: Option<&str>) -> (r: Result<String, String>)
    ensures
        match jsr_entry_of(match export {
            Some(e) => Some(e@),
            None => None,
        }) {
            Ok(p) => r matches Ok(s) && s@ == p,
            Err(e) => r matches Err(m) && m@ == e,
        },
{
    proof {
        reveal_strlit("JSR package requires a root (.) export");
    }
    match export {
        None => Err(owned("JSR package requires a root (.) export")),
        Some(e) => {
            let v = chars_of(e);
            let vl = v.len();
            let ok = vl >= 2 && v[0] == '.' && v[1] == '/';
            proof {
                if vl >= 2 {
                    assert(v@.take(2)[0] == v@[0] && v@.take(2)[1] == v@[1]);
                    if ok {
                        assert(v@.take(2) =~= seq!['.', '/']);
                    }
                }
            }
            if !ok {
                return Err(owned("JSR package requires a root (.) export"));
            }
            let rest = copy_span(&v, 2, vl);
            proof {
                assert(rest@ =~= v@.skip(2));
            }
            let t = text_of(&rest);
            safe_path(t.as_str())
        },
    }
}

/// A manifest path of the package: it must be absolute within the
/// package, and is used without its leading `/`.
pub open spec fn manifest_file_of(path: Seq<char>) -> Result<Seq<char>, Seq<char>> {
    if path.len() > 0 && path[0] == '/' {
        let p = path.skip(1);
        if path_is_safe(p) {
            Ok(p)
        } else {
            Err("unsafe JSR file path: "@ + p)
        }
    } else {
        Err("JSR manifest paths must start with /"@)
    }
}

pub fn jsr_manifest_path(path: &str) -> (r: Result<String, String>)
    ensures
        match manifest_file_of(path@) {
            Ok(p) => r matches Ok(s) && s@ == p,
            Err(e) => r matches Err(m) && m@ == e,
        },
{
    proof {
        reveal_strlit("JSR manifest paths must start with /");
    }
    let v = chars_of(path);
    let vl = v.len();
    if vl == 0 || v[0] != '/' {
        return Err(owned("JSR manifest paths must start with /"));
    }
    let rest = copy_span(&v, 1, vl);
    proof {
        assert(rest@ =~= v@.skip(1));
    }
    let t = text_of(&rest);
    safe_path(t.as_str())
}

pub open spec fn ends_with(s: Seq<char>, suffix: Seq<char>) -> bool {
    s.len() >= suffix.len() && s.skip(s.len() - suffix.len()) == suffix
}

/// A dialect the vendoring does not emit: `.tsx`, `.jsx`, `.cts`, `.cjs`.
pub open spec fn unsupported_dialect(p: Seq<char>) -> bool {
    ends_with(p, ".tsx"@) || ends_with(p, ".jsx"@) || ends_with(p, ".cts"@) || ends_with(p, ".cjs"@)
}

/// A module the vendoring emits: `.ts`, `.mts`, `.js`, `.mjs`.
pub open spec fn emitted_module(p: Seq<char>) -> bool {
    ends_with(p, ".ts"@) || ends_with(p, ".mts"@) || ends_with(p, ".js"@) || ends_with(p, ".mjs"@)
}

pub fn ends_with_chars(v: &Vec<char>, suffix: &str) -> (r: bool)
    ensures
        r == ends_with(v@, suffix@),
{
    let s = chars_of(suffix);
    let vl = v.len();
    let sl = s.len();
    if sl > vl {
        return false;
    }
    let mut k: usize = 0;
    while k < sl
        invariant
            sl == s@.len(),
            vl == v@.len(),
            sl <= vl,
            k <= sl,
            s@ == suffix@,
            forall|m: int| 0 <= m < k ==> v@[vl - sl + m] == s@[m],
        decreases sl - k,
    {
        if v[vl - sl + k] != s[k] {
            proof {
                assert(v@.skip(vl - sl)[k as int] == v@[vl - sl + k]);
            }
            return false;
        }
        k = k + 1;
    }
    proof {
        assert(v@.skip(vl - sl) =~= s@);
    }
    true
}

/// Whether a package file is a module to emit; an unsupported dialect is
/// an error.
pub fn jsr_module_kind(path: &str) -> (r: Result<bool, String>)
    ensures
        unsupported_dialect(path@) ==> (r matches Err(e) && e@ == "unsupported JSR module dialect: "@
            + path@ + "; use TS or JavaScript ES modules"@),
        !unsupported_dialect(path@) ==> r == Ok::<bool, String>(emitted_module(path@)),
{
    let v = chars_of(path);
    if ends_with_chars(&v, ".tsx") || ends_with_chars(&v, ".jsx") || ends_with_chars(&v, ".cts")
        || ends_with_chars(&v, ".cjs") {
        let mut e = owned("unsupported JSR module dialect: ");
        e.append(path);
        e.append("; use TS or JavaScript ES modules");
        return Err(e);
    }
    Ok(ends_with_chars(&v, ".ts") || ends_with_chars(&v, ".mts") || ends_with_chars(&v, ".js")
        || ends_with_chars(&v, ".mjs"))
}

/// Modules are emitted under distinct paths: the first module whose
/// emitted path an earlier one took is an error.
pub fn check_emitted_paths(paths: &Vec<String>) -> (r: Result<(), String>)
    ensures
        r is Ok <==> forall|j: int, k: int|
            0 <= j < k < paths@.len() ==> vendored_js_path(#[trigger] paths@[j]@)
                != vendored_js_path(#[trigger] paths@[k]@),
        r matches Err(e) ==> exists|k: int|
            0 <= k < paths@.len() && e@ == "JSR emitted module path collision: "@ + paths@[k]@
                && exists|j: int|
                0 <= j < k && vendored_js_path(paths@[j]@) == vendored_js_path(paths@[k]@),
{
    let mut outputs: Vec<String> = Vec::new();
    let mut i: usize = 0;
    while i < paths.len()
        invariant
            i <= paths@.len(),
            outputs@.len() == i,
            forall|m: int| 0 <= m < i ==> #[trigger] outputs@[m]@ == vendored_js_path(paths@[m]@),
            forall|j: int, k: int|
                0 <= j < k < i ==> vendored_js_path(#[trigger] paths@[j]@) != vendored_js_path(
                    #[trigger] paths@[k]@,
                ),
        decreases paths@.len() - i,
    {
        let out = js_path(paths[i].as_str());
        let mut m: usize = 0;
        while m < outputs.len()
            invariant
                m <= outputs@.len(),
                outputs@.len() == i,
                i < paths@.len(),
                out@ == vendored_js_path(paths@[i as int]@),
                forall|q: int| 0 <= q < i ==> #[trigger] outputs@[q]@ == vendored_js_path(paths@[q]@),
                forall|q: int| 0 <= q < m ==> vendored_js_path(#[trigger] paths@[q]@) != out@,
            decreases outputs@.len() - m,
        {
            if outputs[m] == out {
                let mut e = owned("JSR emitted module path collision: ");
                e.append(paths[i].as_str());
                proof {
                    assert(vendored_js_path(paths@[m as int]@) == vendored_js_path(paths@[i as int]@));
                }
                return Err(e);
            }
            m = m + 1;
        }
        outputs.push(out);
        proof {
            assert forall|q: int| 0 <= q < i + 1 implies #[trigger] outputs@[q]@ == vendored_js_path(
                paths@[q]@,
            ) by {
                if q == i {
                    assert(outputs@[q] == out);
                }
            }
        }
        i = i + 1;
    }
    Ok(())
}

/// Resolve a relative specifier inside the package: from the importer's
/// directory, `.` stays and `..` goes up; going above the package root
/// fails.
pub open spec fn package_path(dir: Seq<Seq<char>>, parts: Seq<Seq<char>>) -> Option<Seq<Seq<char>>>
    decreases parts.len(),
{
    if parts.len() == 0 {
        Some(dir)
    } else {
        let p = parts[0];
        if p == dot() {
            package_path(dir, parts.drop_first())
        } else if p == dot_dot() {
            if dir.len() == 0 {
                None
            } else {
                package_path(dir.drop_last(), parts.drop_first())
            }
        } else {
            package_path(dir.push(p), parts.drop_first())
        }
    }
}

/// Parts joined by `/`.
pub open spec fn slash_join(parts: Seq<Seq<char>>) -> Seq<char>
    decreases parts.len(),
{
    if parts.len() == 0 {
        Seq::empty()
    } else if parts.len() == 1 {
        parts[0]
    } else {
        slash_join(parts.drop_last()) + seq!['/'] + parts.last()
    }
}

pub open spec fn resolved_in_package(importer: Seq<char>, spec: Seq<char>) -> Option<Seq<char>> {
    let dir = split_on(importer, '/').drop_last();
    match package_path(dir, split_on(spec, '/')) {
        Some(ps) => Some(slash_join(ps)),
        None => None,
    }
}

pub fn resolve_in_package(importer: &str, spec: &str) -> (r: Option<String>)
    ensures
        match resolved_in_package(importer@, spec@) {
            Some(p) => r matches Some(s) && s@ == p,
            None => r is None,
        },
{
    let iv = chars_of(importer);
    let mut dir = split_chars(&iv, '/');
    proof {
        crate::islands::lemma_split_nonempty(iv@, '/');
    }
    let ghost d0 = dir@;
    dir.pop();
    let sv = chars_of(spec);
    let parts = split_chars(&sv, '/');
    let ghost pv = parts@.map_values(|x: Vec<char>| x@);
    proof {
        assert(dir@.map_values(|x: Vec<char>| x@) =~= d0.map_values(|x: Vec<char>| x@).drop_last());
        assert(pv.skip(0) =~= pv);
    }
    let mut i: usize = 0;
    while i < parts.len()
        invariant
            i <= parts@.len(),
            pv == parts@.map_values(|x: Vec<char>| x@),
            package_path(dir@.map_values(|x: Vec<char>| x@), pv.skip(i as int)) == package_path(
                split_on(importer@, '/').drop_last(),
                split_on(spec@, '/'),
            ),
        decreases parts@.len() - i,
    {
        let ghost rest = pv.skip(i as int);
        let ghost before = dir@;
        proof {
            assert(rest[0] == parts@[i as int]@);
            assert(rest.drop_first() =~= pv.skip(i + 1));
        }
        let p = &parts[i];
        let is_d = p.len() == 1 && p[0] == '.';
        let is_dd = p.len() == 2 && p[0] == '.' && p[1] == '.';
        proof {
            if is_d {
                assert(p@ =~= dot());
            }
            if p@ == dot() {
                assert(p@.len() == 1);
            }
            if is_dd {
                assert(p@ =~= dot_dot());
            }
            if p@ == dot_dot() {
                assert(p@.len() == 2);
            }
        }
        if is_d {
        } else if is_dd {
            if dir.len() == 0 {
                return None;
            }
            dir.pop();
            proof {
                assert(dir@.map_values(|x: Vec<char>| x@) =~= before.map_values(|x: Vec<char>| x@).drop_last());
            }
        } else {
            let c = copy_span(p, 0, p.len());
            proof {
                assert(c@ =~= p@);
            }
            dir.push(c);
            proof {
                assert(dir@.map_values(|x: Vec<char>| x@) =~= before.map_values(|x: Vec<char>| x@).push(p@));
            }
        }
        i = i + 1;
    }
    proof {
        assert(pv.skip(pv.len() as int) =~= Seq::<Seq<char>>::empty());
    }
    let mut out = String::new();
    let ghost dv = dir@.map_values(|x: Vec<char>| x@);
    let mut k: usize = 0;
    while k < dir.len()
        invariant
            k <= dir@.len(),
            dv == dir@.map_values(|x: Vec<char>| x@),
            out@ == slash_join(dv.take(k as int)),
        decreases dir@.len() - k,
    {
        proof {
            assert(dv.take(k + 1).drop_last() =~= dv.take(k as int));
            assert(dv.take(k + 1).last() == dir@[k as int]@);
        }
        if k > 0 {
            crate::text::string_push(&mut out, '/');
        }
        append_chars(&mut out, &dir[k]);
        proof {
            if k == 0 {
                assert(out@ =~= dv.take(1)[0]);
            } else {
                assert(out@ =~= slash_join(dv.take(k as int)) + seq!['/'] + dir@[k as int]@);
            }
        }
        k = k + 1;
    }
    proof {
        assert(dv.take(dv.len() as int) =~= dv);
    }
    Some(out)
}

/// An import specifier as the emitted modules write it: relative ones
/// point at the emitted `.mjs` files.
pub open spec fn rewritten_specifier(spec: Seq<char>) -> Seq<char> {
    if starts_with(spec, seq!['.', '/']) || starts_with(spec, seq!['.', '.', '/']) {
        vendored_js_path(spec)
    } else {
        spec
    }
}

/// A relative import (`./` or `../`) of a `.ts` or `.mts` source is
/// rewritten to the `.mjs` file emitted for it; a relative import of
/// anything else, and every bare or absolute specifier, is kept as written.
pub proof fn law_relative_imports_point_at_emitted_modules(stem: Seq<char>, spec: Seq<char>)
    ensures
        starts_with(stem, seq!['.', '/']) || starts_with(stem, seq!['.', '.', '/']) ==> rewritten_specifier(
            stem + seq!['.', 't', 's'],
        ) == stem + seq!['.', 'm', 'j', 's'] && rewritten_specifier(stem + seq!['.', 'm', 't', 's']) == stem
            + seq!['.', 'm', 'j', 's'],
        !starts_with(spec, seq!['.', '/']) && !starts_with(spec, seq!['.', '.', '/']) ==> rewritten_specifier(spec)
            == spec,
        !ends_with(spec, seq!['.', 't', 's']) && !ends_with(spec, seq!['.', 'm', 't', 's']) ==> rewritten_specifier(
            spec,
        ) == spec,
{
    reveal_strlit(".ts");
    reveal_strlit(".mts");
    reveal_strlit(".mjs");
    assert(".ts"@ =~= seq!['.', 't', 's']);
    assert(".mts"@ =~= seq!['.', 'm', 't', 's']);
    assert(".mjs"@ =~= seq!['.', 'm', 'j', 's']);
    if starts_with(stem, seq!['.', '/']) || starts_with(stem, seq!['.', '.', '/']) {
        let ts = stem + seq!['.', 't', 's'];
        let mts = stem + seq!['.', 'm', 't', 's'];
        assert(ts.skip(ts.len() - 3) =~= seq!['.', 't', 's']);
        assert(ts.take(ts.len() - 3) =~= stem);
        assert(mts.skip(mts.len() - 4) =~= seq!['.', 'm', 't', 's']);
        assert(mts.take(mts.len() - 4) =~= stem);
        assert(mts.skip(mts.len() - 3) != seq!['.', 't', 's']) by {
            assert(mts.skip(mts.len() - 3)[0] == 'm');
        }
        if stem.len() >= 2 {
            assert(ts.take(2) =~= stem.take(2));
            assert(mts.take(2) =~= stem.take(2));
        }
        if stem.len() >= 3 {
            assert(ts.take(3) =~= stem.take(3));
            assert(mts.take(3) =~= stem.take(3));
        }
        assert(vendored_js_path(ts) == stem + seq!['.', 'm', 'j', 's']);
        assert(vendored_js_path(mts) == stem + seq!['.', 'm', 'j', 's']);
    }
}

pub fn rewrite_specifier(spec: &str) -> (r: String)
    ensures
        r@ == rewritten_specifier(spec@),
{
    let v = chars_of(spec);
    let vl = v.len();
    let a = vl >= 2 && v[0] == '.' && v[1] == '/';
    let b = vl >= 3 && v[0] == '.' && v[1] == '.' && v[2] == '/';
    proof {
        if vl >= 2 {
            assert(v@.take(2)[0] == v@[0] && v@.take(2)[1] == v@[1]);
            if a {
                assert(v@.take(2) =~= seq!['.', '/']);
            }
        }
        if vl >= 3 {
            assert(v@.take(3)[0] == v@[0] && v@.take(3)[1] == v@[1] && v@.take(3)[2] == v@[2]);
            if b {
                assert(v@.take(3) =~= seq!['.', '.', '/']);
            }
        }
    }
    if a || b {
        js_path(spec)
    } else {
        owned(spec)
    }
}

/// `head` followed by the distinct `items` in ascending order, each on a
/// line of its own indented by two spaces.
pub fn indented_report(head: &str, items: &Vec<String>) -> (r: String)
    ensures
        r@ == head@ + indented_lines(crate::versions::sorted_set(string_views(items@))),
{
    let listed = crate::versions::sorted_distinct(items);
    let mut out = owned(head);
    let ghost hd = out@;
    let mut i: usize = 0;
    while i < listed.len()
        invariant
            i <= listed@.len(),
            hd == head@,
            out@ == hd + indented_lines(string_views(listed@.take(i as int))),
        decreases listed@.len() - i,
    {
        let ghost s2 = string_views(listed@.take(i + 1));
        proof {
            assert(s2.drop_last() =~= string_views(listed@.take(i as int)));
            assert(s2.last() == listed@[i as int]@);
        }
        if i > 0 {
            crate::text::string_push(&mut out, '\n');
        }
        crate::text::string_push(&mut out, ' ');
        crate::text::string_push(&mut out, ' ');
        out.append(listed[i].as_str());
        proof {
            if i == 0 {
                assert(out@ =~= hd + (seq![' ', ' '] + s2[0]));
            } else {
                assert(out@ =~= hd + (indented_lines(s2.drop_last()) + seq!['\n', ' ', ' ']
                    + s2.last()));
            }
        }
        i = i + 1;
    }
    proof {
        assert(listed@.take(listed@.len() as int) =~= listed@);
    }
    out
}

/// The error listing the imports a JSR package could not resolve inside
/// itself: each distinct one, in ascending order.
pub fn unresolved_imports_error(external: &Vec<String>) -> (r: String)
    ensures
        r@ == "no transitive fetching: unresolved JSR imports (including type-only imports):\n"@
            + indented_lines(crate::versions::sorted_set(string_views(external@))),
{
    indented_report("no transitive fetching: unresolved JSR imports (including type-only imports):\n", external)
}

/// Lines indented by two spaces, joined by `\n`.
pub open spec fn indented_lines(s: Seq<Seq<char>>) -> Seq<char>
    decreases s.len(),
{
    if s.len() == 0 {
        Seq::empty()
    } else if s.len() == 1 {
        seq![' ', ' '] + s[0]
    } else {
        indented_lines(s.drop_last()) + seq!['\n', ' ', ' '] + s.last()
    }
}


// ---- Registry, budget and file integrity ---------------------------------------

/// The JSR registry: the `DEKA_JSR_REGISTRY` override (its value is given
/// when the variable is set), else `https://jsr.io/`.
pub fn jsr_registry(env_value: Option<&str>) -> (r: String)
    ensures
        match env_value {
            Some(v) => r@ == v@,
            None => r@ == "https://jsr.io/"@,
        },
{
    match env_value {
        Some(v) => owned(v),
        None => owned("https://jsr.io/"),
    }
}

/// The registry's base URL text: trailing `/`s replaced by one.
pub fn jsr_base_text(registry: &str) -> (r: String)
    ensures
        r@ == crate::releases::strip_suffixes(registry@, "/"@) + "/"@,
{
    let mut out = crate::releases::trim_end_matches(registry, "/");
    out.append("/");
    out
}

/// A registry base must be an `http`/`https` URL without query or fragment.
pub fn check_jsr_registry(scheme: &str, has_query: bool, has_fragment: bool) -> (r: Result<(), String>)
    ensures
        r is Ok <==> ((scheme@ == "http"@ || scheme@ == "https"@) && !has_query && !has_fragment),
        r matches Err(e) ==> e@ == "JSR registry must be an HTTP(S) base URL"@,
{
    let v = chars_of(scheme);
    let http = vec!['h', 't', 't', 'p'];
    let https = vec!['h', 't', 't', 'p', 's'];
    proof {
        reveal_strlit("http");
        reveal_strlit("https");
        assert(http@ =~= "http"@);
        assert(https@ =~= "https"@);
    }
    let ok_scheme = same_chars(&v, &http) || same_chars(&v, &https);
    if ok_scheme && !has_query && !has_fragment {
        Ok(())
    } else {
        Err(owned("JSR registry must be an HTTP(S) base URL"))
    }
}

fn same_chars(v: &Vec<char>, w: &Vec<char>) -> (r: bool)
    ensures
        r == (v@ == w@),
{
    if v.len() != w.len() {
        return false;
    }
    let mut k: usize = 0;
    while k < v.len()
        invariant
            v@.len() == w@.len(),
            k <= v@.len(),
            forall|m: int| 0 <= m < k ==> v@[m] == w@[m],
        decreases v@.len() - k,
    {
        if v[k] != w[k] {
            return false;
        }
        k = k + 1;
    }
    proof {
        assert(v@ =~= w@);
    }
    true
}

/// How many bytes the next JSR fetch may read: one past what is left of
/// the 64 MiB budget (so that an overrun shows).
pub fn jsr_read_limit(total: u64) -> (r: u64)
    ensures
        r == (if total >= crate::summon_rules::MAX_SUMMON_BYTES { 0 } else {
            crate::summon_rules::MAX_SUMMON_BYTES - total
        }) + 1,
{
    let left = if total >= crate::summon_rules::MAX_SUMMON_BYTES {
        0
    } else {
        crate::summon_rules::MAX_SUMMON_BYTES - total
    };
    left + 1
}

/// The bytes fetched so far once a fetch of `len` bytes is counted; the
/// package is refused once they pass 64 MiB.
pub fn jsr_charge(total: u64, len: u64) -> (r: Result<u64, String>)
    ensures
        total + len > crate::summon_rules::MAX_SUMMON_BYTES ==> (r matches Err(e) && e@
            == "JSR package exceeds 64 MiB"@),
        total + len <= crate::summon_rules::MAX_SUMMON_BYTES ==> r == Ok::<u64, String>(
            (total + len) as u64,
        ),
{
    if len > crate::summon_rules::MAX_SUMMON_BYTES || total > crate::summon_rules::MAX_SUMMON_BYTES
        - len {
        Err(owned("JSR package exceeds 64 MiB"))
    } else {
        Ok(total + len)
    }
}

/// A fetched JSR file must match its manifest pin: the pinned checksum is
/// `sha256-` and the hex digest of its bytes, and the pinned size their
/// count.
pub fn check_jsr_file(
    path: &str,
    pinned_checksum: Option<&str>,
    pinned_size: Option<u64>,
    digest_hex: &str,
    len: u64,
) -> (r: Result<(), String>)
    ensures
        r is Ok <==> ((pinned_checksum matches Some(c) && c@ == "sha256-"@ + digest_hex@)
            && pinned_size == Some(len)),
        r matches Err(e) ==> e@ == "JSR integrity mismatch: "@ + path@,
{
    let mut expected = owned("sha256-");
    expected.append(digest_hex);
    let checksum_ok = match pinned_checksum {
        Some(c) => same_chars(&chars_of(c), &chars_of(expected.as_str())),
        None => false,
    };
    let size_ok = match pinned_size {
        Some(n) => n == len,
        None => false,
    };
    if checksum_ok && size_ok {
        Ok(())
    } else {
        let mut e = owned("JSR integrity mismatch: ");
        e.append(path);
        Err(e)
    }
}

} // verus!
