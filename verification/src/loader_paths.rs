//! Paths the ESM loader derives for a module: where its compiled copy is
//! cached, which dependency package it belongs to and so which grants
//! apply, and the `import.meta` prelude it runs with.

use vstd::prelude::*;
use crate::paths::{join, last_slash_end, spec_file_name, tail_len, trim_tail, spec_join, spec_strip_prefix, strip_prefix};
use crate::project::{dependency_name, dependency_package_name};
use crate::stage::{package_in, package_in_exec};
use crate::text::{chars_of, owned, string_of_span};

verus! {

/// The project's dependency tree, under its root.
pub const MODULES_DIR: &'static str = "ds_modules";

/// Where the last component of a path starts (a trailing separator aside).
pub open spec fn name_start(path: Seq<char>) -> int {
    let p = trim_tail(path);
    last_slash_end(p, p.len() as int)
}

/// `PathBuf::set_file_name`: the last component replaced by `name`, or
/// `name` appended when there is no last component.
pub open spec fn with_file_name(path: Seq<char>, name: Seq<char>) -> Seq<char> {
    match spec_file_name(path) {
        Some(_) => spec_join(path.take(name_start(path)), name),
        None => spec_join(path, name),
    }
}

/// Where the compiled copy of the module at `path` is cached: its place
/// under the cache directory (relative to the project root when it is
/// inside it), its file name kept and `.js` appended, so that sources
/// differing only in extension never share an entry.
pub open spec fn cache_path(project_root: Seq<char>, cache_dir: Seq<char>, path: Seq<char>) -> Seq<char> {
    let rel = match spec_strip_prefix(path, project_root) {
        Some(r) => r,
        None => path,
    };
    let out = spec_join(cache_dir, rel);
    let name = match spec_file_name(out) {
        Some(n) => n + ".js"@,
        None => "module.js"@,
    };
    with_file_name(out, name)
}

pub(crate) fn name_start_of(v: &Vec<char>) -> (r: usize)
    ensures
        r == name_start(v@),
        r <= trim_tail(v@).len(),
        r <= v@.len(),
{
    let n = tail_len(v);
    let ghost p = trim_tail(v@);
    let mut i = n;
    while i > 0 && v[i - 1] != '/'
        invariant
            i <= n <= v@.len(),
            p == v@.subrange(0, n as int),
            last_slash_end(p, i as int) == last_slash_end(p, n as int),
        decreases i,
    {
        proof {
            assert(p[i - 1] == v@[i - 1]);
        }
        i = i - 1;
    }
    proof {
        if i > 0 {
            assert(p[i - 1] == v@[i - 1]);
        }
    }
    i
}

pub(crate) fn file_name_of(path: &str) -> (r: Option<String>)
    ensures
        match spec_file_name(path@) {
            Some(n) => r matches Some(s) && s@ == n,
            None => r is None,
        },
{
    let v = chars_of(path);
    let a = name_start_of(&v);
    let n = tail_len(&v);
    proof {
        let p = trim_tail(v@);
        assert(p.skip(a as int) =~= v@.subrange(a as int, n as int));
    }
    let dotdot = n > a && n - a == 2 && v[a] == '.' && v[a + 1] == '.';
    let dot = n > a && n - a == 1 && v[a] == '.';
    proof {
        reveal_strlit("..");
        reveal_strlit(".");
        let name = v@.subrange(a as int, n as int);
        if name.len() == 1 {
            assert(name[0] == v@[a as int]);
            if dot {
                assert(name =~= "."@);
            }
        }
        if name.len() == 2 {
            assert(name[0] == v@[a as int] && name[1] == v@[a + 1]);
            if dotdot {
                assert(name =~= ".."@);
            }
        }
    }
    if n <= a || dotdot || dot {
        None
    } else {
        Some(string_of_span(&v, a, n))
    }
}

fn with_file_name_of(path: &str, name: &str) -> (r: String)
    ensures
        r@ == with_file_name(path@, name@),
{
    match file_name_of(path) {
        Some(_) => {
            let v = chars_of(path);
            let a = name_start_of(&v);
            let parent = string_of_span(&v, 0, a);
            proof {
                assert(v@.subrange(0, a as int) =~= v@.take(a as int));
            }
            join(parent.as_str(), name)
        },
        None => join(path, name),
    }
}

/// The cache file of the compiled copy of the module at `path`.
pub fn cache_path_for(project_root: &str, cache_dir: &str, path: &str) -> (r: String)
    ensures
        r@ == cache_path(project_root@, cache_dir@, path@),
{
    let rel = match strip_prefix(path, project_root) {
        Some(r) => r,
        None => owned(path),
    };
    let out = join(cache_dir, rel.as_str());
    let name = match file_name_of(out.as_str()) {
        Some(n) => {
            let mut t = n;
            t.append(".js");
            t
        },
        None => owned("module.js"),
    };
    with_file_name_of(out.as_str(), name.as_str())
}

/// Where the generated entry wrapper lives: `__deka_entry.js` in the
/// project's compiler cache directory.
pub fn entry_wrapper_path(compiler_cache_dir: &str) -> (r: String)
    ensures
        r@ == spec_join(compiler_cache_dir@, "__deka_entry.js"@),
{
    join(compiler_cache_dir, "__deka_entry.js")
}

/// The root of the dependency package that holds `path`, when it lies in
/// the project's dependency tree: the tree's first component under it, or
/// two for a scoped (`@scope/name`) package.
pub open spec fn package_root(project_root: Seq<char>, path: Seq<char>) -> Option<Seq<char>> {
    let modules = spec_join(project_root, "ds_modules"@);
    match spec_strip_prefix(path, modules) {
        Some(rel) => match package_in(rel) {
            Some(n) => Some(spec_join(modules, n)),
            None => None,
        },
        None => None,
    }
}

pub fn dependency_package_root(project_root: &str, path: &str) -> (r: Option<String>)
    ensures
        match package_root(project_root@, path@) {
            Some(p) => r matches Some(s) && s@ == p,
            None => r is None,
        },
{
    proof {
        reveal_strlit("ds_modules");
    }
    let modules = join(project_root, MODULES_DIR);
    match strip_prefix(path, modules.as_str()) {
        Some(rel) => match package_in_exec(rel.as_str()) {
            Some(n) => Some(join(modules.as_str(), n.as_str())),
            None => None,
        },
        None => None,
    }
}

/// Which grants a module is checked against.
pub enum GrantScope {
    /// A dependency package: its root and its name.
    Dependency { root: String, name: String },
    /// The project itself.
    Project,
    /// Outside the project: its nearest manifest decides.
    Outside,
}

/// How a (canonical) module path is classified for grants: its dependency
/// package first, then the project root; anything else is outside.
pub fn grant_scope(project_root: &str, path: &str) -> (r: GrantScope)
    ensures
        match package_root(project_root@, path@) {
            Some(root) => r matches GrantScope::Dependency { root: rr, name } && rr@ == root
                && name@ == dependency_name(root, project_root@),
            None => if spec_strip_prefix(path@, project_root@) is Some {
                r is Project
            } else {
                r is Outside
            },
        },
{
    match dependency_package_root(project_root, path) {
        Some(root) => {
            let name = dependency_package_name(root.as_str(), project_root);
            GrantScope::Dependency { root, name }
        },
        None => if strip_prefix(path, project_root).is_some() {
            GrantScope::Project
        } else {
            GrantScope::Outside
        },
    }
}

/// A JSON string for a prelude value, or `""` should serialization fail.
pub open spec fn json_or_empty(value: Seq<char>) -> Seq<char> {
    match crate::islands::serde_json_string(value) {
        Some(t) => t,
        None => "\"\""@,
    }
}

fn json_or_empty_exec(value: &str) -> (r: String)
    ensures
        r@ == json_or_empty(value@),
{
    match crate::islands::serde_json_to_string(value) {
        Some(t) => t,
        None => owned("\"\""),
    }
}

/// The JavaScript that sets a module's `import.meta` before its body runs:
/// the url, directory and file name of its original source, whether it is
/// the entry, and `resolve` through the host with its own specifier.
pub open spec fn import_meta_text(
    url: Seq<char>,
    dirname: Seq<char>,
    filename: Seq<char>,
    main: bool,
    specifier: Seq<char>,
) -> Seq<char> {
    "Object.defineProperty(import.meta, \"url\", { value: "@ + json_or_empty(url)
        + ", enumerable: true, configurable: true });\nObject.defineProperty(import.meta, \"dirname\", { value: "@
        + json_or_empty(dirname)
        + ", enumerable: true, configurable: true });\nObject.defineProperty(import.meta, \"filename\", { value: "@
        + json_or_empty(filename)
        + ", enumerable: true, configurable: true });\nObject.defineProperty(import.meta, \"main\", { value: "@
        + (if main { "true"@ } else { "false"@ })
        + ", enumerable: true, configurable: true });\nObject.defineProperty(import.meta, \"resolve\", { value: function(specifier) { const __h = globalThis[Symbol.for('deka.host.internal')]; if (!__h || typeof __h.resolveImportMeta !== \"function\") { throw new Error(\"import.meta.resolve is unavailable\"); } return __h.resolveImportMeta(String(specifier), "@
        + json_or_empty(specifier) + "); }, enumerable: true, configurable: false });\nObject.freeze(import.meta);\n"@
}

pub fn import_meta_prelude(url: &str, dirname: &str, filename: &str, main: bool, specifier: &str) -> (r:
    String)
    ensures
        r@ == import_meta_text(url@, dirname@, filename@, main, specifier@),
{
    let mut out = owned("Object.defineProperty(import.meta, \"url\", { value: ");
    out.append(json_or_empty_exec(url).as_str());
    out.append(", enumerable: true, configurable: true });\nObject.defineProperty(import.meta, \"dirname\", { value: ");
    out.append(json_or_empty_exec(dirname).as_str());
    out.append(", enumerable: true, configurable: true });\nObject.defineProperty(import.meta, \"filename\", { value: ");
    out.append(json_or_empty_exec(filename).as_str());
    out.append(", enumerable: true, configurable: true });\nObject.defineProperty(import.meta, \"main\", { value: ");
    out.append(if main { "true" } else { "false" });
    out.append(", enumerable: true, configurable: true });\nObject.defineProperty(import.meta, \"resolve\", { value: function(specifier) { const __h = globalThis[Symbol.for('deka.host.internal')]; if (!__h || typeof __h.resolveImportMeta !== \"function\") { throw new Error(\"import.meta.resolve is unavailable\"); } return __h.resolveImportMeta(String(specifier), ");
    out.append(json_or_empty_exec(specifier).as_str());
    out.append("); }, enumerable: true, configurable: false });\nObject.freeze(import.meta);\n");
    out
}

/// Where the original source of a module in a compiled copy of a tree is:
/// for a path under `compiled_root`, the same place under `original_root`,
/// with its `.ds` and `.dsx` spellings to try first (compiled output is
/// always named `<stem>.js`). `None` for a path outside the copy.
pub open spec fn logical_candidates(compiled_root: Seq<char>, original_root: Seq<char>, path: Seq<char>) -> Option<
    (Seq<Seq<char>>, Seq<char>),
> {
    match spec_strip_prefix(path, compiled_root) {
        Some(rel) => {
            let c = spec_join(original_root, rel);
            Some(
                (
                    seq![
                        crate::module_loading::with_extension(c, "ds"@),
                        crate::module_loading::with_extension(c, "dsx"@),
                    ],
                    c,
                ),
            )
        },
        None => None,
    }
}

pub fn logical_source_candidates(compiled_root: &str, original_root: &str, path: &str) -> (r: Option<
    (Vec<String>, String),
>)
    ensures
        match logical_candidates(compiled_root@, original_root@, path@) {
            Some((alts, c)) => r matches Some((v, s)) && v@.map_values(|x: String| x@) == alts
                && s@ == c,
            None => r is None,
        },
{
    match strip_prefix(path, compiled_root) {
        Some(rel) => {
            let c = join(original_root, rel.as_str());
            let ds = crate::module_loading::replace_extension(c.as_str(), "ds");
            let dsx = crate::module_loading::replace_extension(c.as_str(), "dsx");
            let alts = vec![ds, dsx];
            proof {
                assert(alts@.map_values(|x: String| x@) =~= seq![
                    crate::module_loading::with_extension(c@, "ds"@),
                    crate::module_loading::with_extension(c@, "dsx"@),
                ]);
            }
            Some((alts, c))
        },
        None => None,
    }
}

} // verus!
