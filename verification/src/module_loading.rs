//! The ESM loader's rules for specifiers it resolves and files it loads:
//! build-value modules, the specifiers an artifact server may import, the
//! candidates tried for an extensionless import, and the errors reported
//! when a specifier cannot be used.

use vstd::prelude::*;
use crate::islands::starts_with;
use crate::jsr::ends_with;
use crate::paths::{join, spec_extension, spec_file_name, spec_join};
use crate::text::{ascii_lower, chars_of, owned, string_of_span};

verus! {

/// A build-value id: non-empty, ASCII letters, digits, `_` and `-` only.
pub open spec fn id_char(c: char) -> bool {
    ('a' <= c <= 'z') || ('A' <= c <= 'Z') || ('0' <= c <= '9') || c == '_' || c == '-'
}

pub open spec fn dev_scheme() -> Seq<char> {
    "deka:dev/"@
}

/// The build-value id a `deka:dev/<id>` specifier names.
pub open spec fn build_value_of(spec: Seq<char>) -> Option<Seq<char>> {
    if starts_with(spec, dev_scheme()) {
        let id = spec.skip(9);
        if id.len() > 0 && forall|i: int| 0 <= i < id.len() ==> id_char(#[trigger] id[i]) {
            Some(id)
        } else {
            None
        }
    } else {
        None
    }
}

pub fn build_value_id(spec: &str) -> (r: Option<String>)
    ensures
        match build_value_of(spec@) {
            Some(id) => r matches Some(s) && s@ == id,
            None => r is None,
        },
{
    proof {
        reveal_strlit("deka:dev/");
    }
    let v = chars_of(spec);
    if !crate::text::has_prefix_at(&v, 0, "deka:dev/") {
        proof {
            if v@.len() >= 9 {
                assert(v@.subrange(0, 9) =~= v@.take(9));
            }
        }
        return None;
    }
    proof {
        assert(v@.subrange(0, 9) =~= v@.take(9));
    }
    let n = v.len();
    if n == 9 {
        return None;
    }
    let mut i: usize = 9;
    while i < n
        invariant
            9 <= i <= n,
            n == v@.len(),
            v@ == spec@,
            starts_with(spec@, dev_scheme()),
            forall|k: int| 9 <= k < i ==> id_char(#[trigger] v@[k]),
        decreases n - i,
    {
        let c = v[i];
        if !(('a' <= c && c <= 'z') || ('A' <= c && c <= 'Z') || ('0' <= c && c <= '9') || c == '_'
            || c == '-') {
            proof {
                assert(v@.skip(9)[i - 9] == c);
            }
            return None;
        }
        i = i + 1;
    }
    proof {
        assert forall|k: int| 0 <= k < v@.skip(9).len() implies id_char(#[trigger] v@.skip(9)[k]) by {
            assert(v@.skip(9)[k] == v@[k + 9]);
        }
        assert(v@.subrange(9, n as int) =~= v@.skip(9));
    }
    Some(string_of_span(&v, 9, n))
}

/// Where a build value's module is looked for, in order: the compiler
/// cache's `build-values`, then the built app's `.build-values`.
pub open spec fn build_value_places(cache_dir: Seq<char>, project_root: Seq<char>, id: Seq<char>) -> (
    Seq<char>,
    Seq<char>,
) {
    (
        spec_join(spec_join(cache_dir, "build-values"@), id + ".js"@),
        spec_join(
            spec_join(spec_join(spec_join(project_root, "dist"@), "app"@), ".build-values"@),
            id + ".js"@,
        ),
    )
}

pub fn build_value_paths(cache_dir: &str, project_root: &str, id: &str) -> (r: (String, String))
    ensures
        (r.0@, r.1@) == build_value_places(cache_dir@, project_root@, id@),
{
    let mut file = owned(id);
    file.append(".js");
    let first = join(join(cache_dir, "build-values").as_str(), file.as_str());
    let dist = join(join(join(project_root, "dist").as_str(), "app").as_str(), ".build-values");
    let second = join(dist.as_str(), file.as_str());
    (first, second)
}

/// The error for a bare specifier nothing resolved.
pub open spec fn unresolved_text(spec: Seq<char>) -> Seq<char> {
    if starts_with(spec, dev_scheme()) {
        "build value '"@ + spec + "' has not been materialized; run deka build"@
    } else {
        "unable to resolve module '"@ + spec + "'; check ds_modules"@
    }
}

pub fn unresolved_bare_message(spec: &str) -> (r: String)
    ensures
        r@ == unresolved_text(spec@),
{
    proof {
        reveal_strlit("deka:dev/");
    }
    let v = chars_of(spec);
    let dev = crate::text::has_prefix_at(&v, 0, "deka:dev/");
    proof {
        if v@.len() >= 9 {
            assert(v@.subrange(0, 9) =~= v@.take(9));
        }
    }
    let mut m = if dev {
        owned("build value '")
    } else {
        owned("unable to resolve module '")
    };
    m.append(spec);
    m.append(if dev {
        "' has not been materialized; run deka build"
    } else {
        "'; check ds_modules"
    });
    m
}

/// A `.phpx` import (in any letter case) is refused with a migration hint.
pub open spec fn phpx_refusal(spec: Seq<char>) -> Option<Seq<char>> {
    if ends_with(spec.map_values(|c: char| ascii_lower(c)), ".phpx"@) {
        Some("DekaScript uses .ds imports only; migrate '"@ + spec + "'"@)
    } else {
        None
    }
}

pub fn phpx_import_error(spec: &str) -> (r: Option<String>)
    ensures
        match phpx_refusal(spec@) {
            Some(m) => r matches Some(s) && s@ == m,
            None => r is None,
        },
{
    let v = chars_of(spec);
    let mut lower: Vec<char> = Vec::new();
    let mut i: usize = 0;
    while i < v.len()
        invariant
            i <= v@.len(),
            lower@ == v@.take(i as int).map_values(|c: char| ascii_lower(c)),
        decreases v@.len() - i,
    {
        lower.push(crate::text::char_to_ascii_lowercase(v[i]));
        i = i + 1;
        proof {
            assert(lower@ =~= v@.take(i as int).map_values(|c: char| ascii_lower(c)));
        }
    }
    proof {
        assert(v@.take(v@.len() as int) =~= v@);
    }
    if crate::jsr::ends_with_chars(&lower, ".phpx") {
        let mut m = owned("DekaScript uses .ds imports only; migrate '");
        m.append(spec);
        m.append("'");
        Some(m)
    } else {
        None
    }
}

/// Why an artifact server module may not import `spec` (after its own
/// wrapper and the runtime builtins): a bare specifier, or anything but an
/// explicit relative `.js` path (the wrapper may import its entry by
/// `file:` URL).
pub open spec fn artifact_refusal(spec: Seq<char>, referrer: Seq<char>, wrapper: Seq<char>, bare: bool) -> Option<Seq<char>> {
    if bare {
        if starts_with(spec, dev_scheme()) {
            Some("artifact module imports `"@ + spec
                + "`, but deka:dev/* is a dev-only scheme; rebuild with `deka build`"@)
        } else {
            Some("artifact module imports unsupported bare specifier `"@ + spec
                + "`; artifact server modules may resolve only explicit relative .js files"@)
        }
    } else if !(referrer == wrapper && starts_with(spec, "file:"@)) && !starts_with(spec, "./"@)
        && !starts_with(spec, "../"@) {
        Some("artifact module specifier `"@ + spec + "` must be an explicit relative .js path"@)
    } else if !ends_with(spec, ".js"@) {
        Some("artifact module specifier `"@ + spec + "` must name an explicit .js file"@)
    } else {
        None
    }
}

fn prefixed(v: &Vec<char>, p: &str) -> (r: bool)
    ensures
        r == starts_with(v@, p@),
{
    let r = crate::text::has_prefix_at(v, 0, p);
    proof {
        if v@.len() >= p@.len() {
            assert(v@.subrange(0, p@.len() as int) =~= v@.take(p@.len() as int));
        }
    }
    r
}

fn quoted_message(head: &str, spec: &str, tail: &str) -> (r: String)
    ensures
        r@ == head@ + spec@ + tail@,
{
    let mut m = owned(head);
    m.append(spec);
    m.append(tail);
    m
}

/// The refusal for an artifact import, if any; `bare` says whether the
/// module-spec rules take `spec` for a bare specifier.
pub fn artifact_specifier_error(spec: &str, referrer: &str, wrapper: &str, bare: bool) -> (r: Option<
    String,
>)
    ensures
        match artifact_refusal(spec@, referrer@, wrapper@, bare) {
            Some(m) => r matches Some(s) && s@ == m,
            None => r is None,
        },
{
    let v = chars_of(spec);
    if bare {
        if prefixed(&v, "deka:dev/") {
            return Some(
                quoted_message(
                    "artifact module imports `",
                    spec,
                    "`, but deka:dev/* is a dev-only scheme; rebuild with `deka build`",
                ),
            );
        }
        return Some(
            quoted_message(
                "artifact module imports unsupported bare specifier `",
                spec,
                "`; artifact server modules may resolve only explicit relative .js files",
            ),
        );
    }
    let wrapper_import = crate::project::same_chars(&chars_of(referrer), &chars_of(wrapper))
        && prefixed(&v, "file:");
    if !wrapper_import && !prefixed(&v, "./") && !prefixed(&v, "../") {
        return Some(
            quoted_message(
                "artifact module specifier `",
                spec,
                "` must be an explicit relative .js path",
            ),
        );
    }
    if !crate::jsr::ends_with_chars(&v, ".js") {
        return Some(
            quoted_message("artifact module specifier `", spec, "` must name an explicit .js file"),
        );
    }
    None
}

/// `Path::with_extension` on a path without an extension: `.ext` added to
/// its file name (trailing separators and `.` components dropped), or the path unchanged
/// when it has no file name.
pub open spec fn add_extension(path: Seq<char>, ext: Seq<char>) -> Seq<char> {
    match spec_file_name(path) {
        Some(_) => crate::paths::trim_tail(path) + seq!['.'] + ext,
        None => path,
    }
}

/// What an extensionless import is tried as, in order: `.ds`, `.dsx` and
/// `.js` files, then an `index.ds`, `index.dsx` or `index.js` inside it.
/// A path with an extension is tried as it is.
pub open spec fn load_candidates(path: Seq<char>) -> Seq<Seq<char>> {
    if spec_extension(path) is None {
        seq![
            add_extension(path, "ds"@),
            add_extension(path, "dsx"@),
            add_extension(path, "js"@),
            spec_join(path, "index.ds"@),
            spec_join(path, "index.dsx"@),
            spec_join(path, "index.js"@),
        ]
    } else {
        Seq::empty()
    }
}

fn add_extension_exec(path: &str, ext: &str) -> (r: String)
    ensures
        r@ == add_extension(path@, ext@),
{
    match crate::loader_paths::file_name_of(path) {
        Some(_) => {
            let v = chars_of(path);
            let n = crate::paths::tail_len(&v);
            let mut out = string_of_span(&v, 0, n);
            crate::text::string_push(&mut out, '.');
            out.append(ext);
            out
        },
        None => owned(path),
    }
}

pub fn extensionless_candidates(path: &str) -> (r: Vec<String>)
    ensures
        r@.map_values(|s: String| s@) == load_candidates(path@),
{
    let mut out: Vec<String> = Vec::new();
    if crate::paths::extension(path).is_none() {
        out.push(add_extension_exec(path, "ds"));
        out.push(add_extension_exec(path, "dsx"));
        out.push(add_extension_exec(path, "js"));
        out.push(join(path, "index.ds"));
        out.push(join(path, "index.dsx"));
        out.push(join(path, "index.js"));
    }
    proof {
        assert(out@.map_values(|s: String| s@) =~= load_candidates(path@));
    }
    out
}

/// An artifact server module imports only explicit relative `.js` paths
/// (its wrapper, also its entry by `file:` URL); nothing bare gets through.
pub proof fn law_artifact_imports_are_relative_js(
    spec: Seq<char>,
    referrer: Seq<char>,
    wrapper: Seq<char>,
    bare: bool,
)
    ensures
        artifact_refusal(spec, referrer, wrapper, bare) is None ==> {
            &&& !bare
            &&& ends_with(spec, ".js"@)
            &&& (starts_with(spec, "./"@) || starts_with(spec, "../"@) || (referrer == wrapper
                && starts_with(spec, "file:"@)))
        },
{
}

/// `Path::with_extension(ext)` for a non-empty `ext`: the file name's
/// extension (after its last `.`, unless that `.` starts the name) replaced
/// by `ext`, or `.ext` added when it has none; a trailing separator is
/// dropped; a path without a file name is unchanged.
pub open spec fn with_extension(path: Seq<char>, ext: Seq<char>) -> Seq<char> {
    match spec_file_name(path) {
        Some(name) => {
            let d = crate::paths::last_dot(name, name.len() as int);
            let stem = if d <= 0 { name } else { name.take(d) };
            path.take(crate::loader_paths::name_start(path)) + stem + seq!['.'] + ext
        },
        None => path,
    }
}

pub fn replace_extension(path: &str, ext: &str) -> (r: String)
    ensures
        r@ == with_extension(path@, ext@),
{
    match crate::loader_paths::file_name_of(path) {
        Some(name) => {
            let v = chars_of(path);
            let a = crate::loader_paths::name_start_of(&v);
            let nv = chars_of(name.as_str());
            let mut d = nv.len();
            while d > 0 && nv[d - 1] != '.'
                invariant
                    d <= nv@.len(),
                    crate::paths::last_dot(nv@, d as int) == crate::paths::last_dot(
                        nv@,
                        nv@.len() as int,
                    ),
                decreases d,
            {
                d = d - 1;
            }
            let stem_end = if d <= 1 {
                nv.len()
            } else {
                d - 1
            };
            proof {
                let ld = crate::paths::last_dot(nv@, nv@.len() as int);
                if d > 0 {
                    assert(ld == d - 1);
                } else {
                    assert(ld == -1);
                }
                if d > 1 {
                    assert(nv@.subrange(0, stem_end as int) =~= nv@.take(ld));
                } else {
                    assert(nv@.subrange(0, stem_end as int) =~= nv@);
                }
                assert(v@.subrange(0, a as int) =~= v@.take(a as int));
            }
            let mut out = string_of_span(&v, 0, a);
            let stem = string_of_span(&nv, 0, stem_end);
            out.append(stem.as_str());
            crate::text::string_push(&mut out, '.');
            out.append(ext);
            out
        },
        None => owned(path),
    }
}

} // verus!
