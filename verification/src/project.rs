//! Project layout rules: where a project's files live, how an entry finds
//! its project root, which files are JavaScript entries, the names of
//! dependency packages, and the paths a JSR package may vendor.

use vstd::prelude::*;
use crate::text::{opt_view};
use crate::text::{ascii_lower, char_to_ascii_lowercase, chars_of, owned, string_of_span, trim, trim_span};
use crate::paths::{extension, join, replace, replace_all, spec_extension, spec_join, spec_strip_prefix, strip_prefix};
use crate::islands::{
    copy_span, dot, dot_dot, path_parent, path_parent_exec, plain_comps, rooted, split_chars,
    split_on, starts_with,
};

verus! {

/// The file that records the host grants of a project.
pub fn grant_table_path(project_dir: &str) -> (r: String)
    ensures
        r@ == spec_join(project_dir@, "deka.grants.json"@),
{
    join(project_dir, "deka.grants.json")
}

/// A text in ASCII lower case.
pub open spec fn lower_text(s: Seq<char>) -> Seq<char> {
    s.map_values(|c: char| ascii_lower(c))
}

/// A `.js`, `.mjs` or `.cjs` file, in any letter case.
pub open spec fn is_js_path(path: Seq<char>) -> bool {
    match spec_extension(path) {
        Some(e) => lower_text(e) == seq!['j', 's'] || lower_text(e) == seq!['m', 'j', 's']
            || lower_text(e) == seq!['c', 'j', 's'],
        None => false,
    }
}

fn lower_chars(s: &str) -> (r: Vec<char>)
    ensures
        r@ == lower_text(s@),
{
    let v = chars_of(s);
    let mut out: Vec<char> = Vec::new();
    let mut i: usize = 0;
    while i < v.len()
        invariant
            i <= v@.len(),
            v@ == s@,
            out@ == lower_text(v@.take(i as int)),
        decreases v@.len() - i,
    {
        out.push(char_to_ascii_lowercase(v[i]));
        i = i + 1;
        proof {
            assert(out@ =~= lower_text(v@.take(i as int)));
        }
    }
    proof {
        assert(v@.take(v@.len() as int) =~= v@);
    }
    out
}

fn chars_are(v: &Vec<char>, w: &Vec<char>) -> (r: bool)
    ensures
        r == (v@ == w@),
{
    if v.len() != w.len() {
        return false;
    }
    let mut k: usize = 0;
    while k < v.len()
        invariant
            v@.len() == w@.len(),
            k <= v@.len(),
            forall|m: int| 0 <= m < k ==> v@[m] == w@[m],
        decreases v@.len() - k,
    {
        if v[k] != w[k] {
            return false;
        }
        k = k + 1;
    }
    proof {
        assert(v@ =~= w@);
    }
    true
}

/// Whether `path` names a JavaScript entry (`.js`, `.mjs` or `.cjs`).
pub fn is_javascript_entry(path: &str) -> (r: bool)
    ensures
        r == is_js_path(path@),
{
    match extension(path) {
        Some(e) => {
            let l = lower_chars(e.as_str());
            let js = vec!['j', 's'];
            let mjs = vec!['m', 'j', 's'];
            let cjs = vec!['c', 'j', 's'];
            let r = chars_are(&l, &js) || chars_are(&l, &mjs) || chars_are(&l, &cjs);
            proof {
                assert(js@ =~= seq!['j', 's']);
                assert(mjs@ =~= seq!['m', 'j', 's']);
                assert(cjs@ =~= seq!['c', 'j', 's']);
            }
            r
        },
        None => false,
    }
}

/// The paths `Path::ancestors` walks: the path itself, then each shorter
/// prefix of its components, down to the root (or the empty path).
pub open spec fn ancestor_list(p: Seq<char>) -> Seq<Seq<char>> {
    let cs = plain_comps(split_on(p, '/'));
    let n = cs.len();
    seq![p] + Seq::new(n, |k: int| rooted(p, cs.take(n - 1 - k)))
}

/// `Path::ancestors`, as a list.
pub fn ancestors(path: &str) -> (r: Vec<String>)
    ensures
        r@.map_values(|s: String| s@) == ancestor_list(path@),
{
    let p = chars_of(path);
    let parts = split_chars(&p, '/');
    let ghost pv = parts@.map_values(|x: Vec<char>| x@);
    let mut comps: Vec<Vec<char>> = Vec::new();
    let mut i: usize = 0;
    while i < parts.len()
        invariant
            i <= parts@.len(),
            pv == parts@.map_values(|x: Vec<char>| x@),
            comps@.map_values(|x: Vec<char>| x@) == plain_comps(pv.take(i as int)),
        decreases parts@.len() - i,
    {
        proof {
            assert(pv.take(i + 1).drop_last() =~= pv.take(i as int));
            assert(pv.take(i + 1).last() == parts@[i as int]@);
        }
        let ghost before = comps@;
        let c = &parts[i];
        let is_d = c.len() == 1 && c[0] == '.';
        proof {
            if is_d {
                assert(c@ =~= dot());
            }
            if c@ == dot() {
                assert(c@.len() == 1);
            }
        }
        if !(c.len() == 0 || is_d) {
            comps.push(copy_span(c, 0, c.len()));
            proof {
                assert(c@.subrange(0, c@.len() as int) =~= c@);
                assert(comps@.map_values(|x: Vec<char>| x@) =~= before.map_values(|x: Vec<char>| x@).push(c@));
            }
        }
        i = i + 1;
    }
    proof {
        assert(pv.take(pv.len() as int) =~= pv);
    }
    let ghost cs = comps@.map_values(|x: Vec<char>| x@);
    let ghost n = cs.len();
    let mut out: Vec<String> = Vec::new();
    out.push(owned(path));
    let mut cur: Vec<Vec<char>> = Vec::new();
    let mut k: usize = 0;
    while k < comps.len()
        invariant
            k <= comps@.len(),
            cs == comps@.map_values(|x: Vec<char>| x@),
            n == cs.len(),
            cur@.map_values(|x: Vec<char>| x@) == cs.take(k as int),
        decreases comps@.len() - k,
    {
        let ghost before = cur@;
        let piece = copy_span(&comps[k], 0, comps[k].len());
        proof {
            assert(comps@[k as int]@.subrange(0, comps@[k as int]@.len() as int) =~= comps@[k as int]@);
            assert(piece@ == cs[k as int]);
        }
        cur.push(piece);
        proof {
            assert(cur@ =~= before.push(piece));
            assert(cur@.map_values(|x: Vec<char>| x@) =~= before.map_values(|x: Vec<char>| x@).push(piece@));
            assert(cur@.map_values(|x: Vec<char>| x@) =~= cs.take(k + 1));
        }
        k = k + 1;
    }
    let ghost target = ancestor_list(path@);
    let mut j: usize = 0;
    proof {
        assert(cs.take(n as int) =~= cs);
        assert(out@.map_values(|s: String| s@) =~= target.take(1));
    }
    while j < comps.len()
        invariant
            j <= comps@.len(),
            n == comps@.len(),
            cs == comps@.map_values(|x: Vec<char>| x@),
            cur@.map_values(|x: Vec<char>| x@) == cs.take(n - 1 - j + 1),
            target == ancestor_list(path@),
            p@ == path@,
            target == seq![path@] + Seq::new(n, |m: int| rooted(path@, cs.take(n - 1 - m))),
            out@.map_values(|s: String| s@) == target.take(j + 1),
        decreases comps@.len() - j,
    {
        let ghost cb = cur@;
        proof {
            assert(cur@.map_values(|x: Vec<char>| x@).len() == cur@.len());
            assert(cur@.len() == n - j);
        }
        cur.pop();
        proof {
            assert(cur@ =~= cb.drop_last());
            assert(cur@.map_values(|x: Vec<char>| x@) =~= cb.map_values(|x: Vec<char>| x@).drop_last());
            assert(cs.take(n - 1 - j + 1).drop_last() =~= cs.take(n - 1 - j));
            assert(cur@.map_values(|x: Vec<char>| x@) =~= cs.take(n - 1 - j));
        }
        let a = crate::islands::rooted_text(&p, &cur);
        let ghost ob = out@;
        out.push(a);
        proof {
            assert(target[j + 1] == rooted(path@, cs.take(n - 1 - j)));
            assert(out@ =~= ob.push(a));
            assert(out@.map_values(|s: String| s@) =~= ob.map_values(|s: String| s@).push(a@));
            assert(target.take(j + 2) =~= target.take(j + 1).push(target[j + 1]));
            assert(out@.map_values(|s: String| s@) =~= target.take(j + 2));
        }
        j = j + 1;
    }
    proof {
        assert(target.take(n + 1 as int) =~= target);
    }
    out
}

/// How an entry settles its project root: the nearest ancestor holding a
/// `deka.json` (found by the caller, searching from `start`); failing that,
/// a JavaScript entry runs from `start`; anything else is an error.
pub open spec fn project_root_of(entry: Seq<char>, start: Seq<char>, manifest_dir: Option<Seq<char>>) -> Result<Seq<char>, Seq<char>> {
    match manifest_dir {
        Some(d) => Ok(d),
        None => if is_js_path(entry) {
            Ok(start)
        } else {
            Err("deka runtime requires a deka.json project root (searched from "@ + entry + ")"@)
        },
    }
}

/// The directory an entry's project-root search starts from: the entry
/// itself when it is a directory, else its parent (or `.`).
pub open spec fn search_start(entry: Seq<char>, entry_is_dir: bool) -> Seq<char> {
    if entry_is_dir {
        entry
    } else {
        match path_parent(entry) {
            Some(q) => q,
            None => dot(),
        }
    }
}

pub fn project_search_start(entry_path: &str, entry_is_dir: bool) -> (r: String)
    ensures
        r@ == search_start(entry_path@, entry_is_dir),
{
    if entry_is_dir {
        return owned(entry_path);
    }
    match path_parent_exec(entry_path) {
        Some(q) => q,
        None => {
            proof {
                reveal_strlit(".");
                assert("."@ =~= dot());
            }
            owned(".")
        },
    }
}

pub fn resolve_project_root(entry_path: &str, start: &str, manifest_dir: Option<String>) -> (r:
    Result<String, String>)
    ensures
        match project_root_of(entry_path@, start@, opt_view(manifest_dir)) {
            Ok(d) => r matches Ok(s) && s@ == d,
            Err(e) => r matches Err(s) && s@ == e,
        },
{
    match manifest_dir {
        Some(d) => Ok(d),
        None => {
            if is_javascript_entry(entry_path) {
                Ok(owned(start))
            } else {
                let mut e = owned("deka runtime requires a deka.json project root (searched from ");
                e.append(entry_path);
                e.append(")");
                Err(e)
            }
        },
    }
}

/// The name of a dependency package from its root: the path under the
/// project's `ds_modules` or `php_modules`, else the whole path; with `/`
/// separators.
pub open spec fn dependency_name(package_root: Seq<char>, project_root: Seq<char>) -> Seq<char> {
    match spec_strip_prefix(package_root, spec_join(project_root, "ds_modules"@)) {
        Some(rel) => replace_all(rel, "\\"@, "/"@),
        None => match spec_strip_prefix(package_root, spec_join(project_root, "php_modules"@)) {
            Some(rel) => replace_all(rel, "\\"@, "/"@),
            None => replace_all(package_root, "\\"@, "/"@),
        },
    }
}

pub fn dependency_package_name(package_root: &str, project_root: &str) -> (r: String)
    ensures
        r@ == dependency_name(package_root@, project_root@),
{
    let ds = join(project_root, "ds_modules");
    match strip_prefix(package_root, ds.as_str()) {
        Some(rel) => {
            return replace(rel.as_str(), "\\", "/");
        },
        None => {},
    }
    let php = join(project_root, "php_modules");
    match strip_prefix(package_root, php.as_str()) {
        Some(rel) => replace(rel.as_str(), "\\", "/"),
        None => replace(package_root, "\\", "/"),
    }
}

/// `Path::file_name`: the last component, unless it is `..` or there is
/// none.
pub open spec fn last_name(p: Seq<char>) -> Option<Seq<char>> {
    let cs = plain_comps(split_on(p, '/'));
    if cs.len() == 0 || cs.last() == dot_dot() {
        None
    } else {
        Some(cs.last())
    }
}

/// A new project's default name: its directory's name, or `app` when that
/// is missing or blank.
pub open spec fn project_name(p: Seq<char>) -> Seq<char> {
    match last_name(p) {
        Some(n) => if trim(n).len() > 0 {
            n
        } else {
            "app"@
        },
        None => "app"@,
    }
}

pub fn project_name_from_dir(path: &str) -> (r: String)
    ensures
        r@ == project_name(path@),
{
    proof {
        reveal_strlit("app");
    }
    let p = chars_of(path);
    let parts = split_chars(&p, '/');
    let ghost pv = parts@.map_values(|x: Vec<char>| x@);
    let mut last: Option<usize> = None;
    let mut count: usize = 0;
    let mut i: usize = 0;
    while i < parts.len()
        invariant
            i <= parts@.len(),
            pv == parts@.map_values(|x: Vec<char>| x@),
            count == plain_comps(pv.take(i as int)).len(),
            count <= i,
            match last {
                Some(k) => k < i && count > 0 && plain_comps(pv.take(i as int)).last() == pv[k as int],
                None => count == 0,
            },
        decreases parts@.len() - i,
    {
        proof {
            assert(pv.take(i + 1).drop_last() =~= pv.take(i as int));
            assert(pv.take(i + 1).last() == parts@[i as int]@);
        }
        let c = &parts[i];
        let is_d = c.len() == 1 && c[0] == '.';
        proof {
            if is_d {
                assert(c@ =~= dot());
            }
            if c@ == dot() {
                assert(c@.len() == 1);
            }
        }
        if !(c.len() == 0 || is_d) {
            last = Some(i);
            count = count + 1;
        }
        i = i + 1;
    }
    proof {
        assert(pv.take(pv.len() as int) =~= pv);
    }
    match last {
        None => owned("app"),
        Some(k) => {
            let c = &parts[k];
            proof {
                assert(pv[k as int] == c@);
            }
            let is_dd = c.len() == 2 && c[0] == '.' && c[1] == '.';
            proof {
                if is_dd {
                    assert(c@ =~= dot_dot());
                }
                if c@ == dot_dot() {
                    assert(c@.len() == 2);
                }
            }
            if is_dd {
                return owned("app");
            }
            let (a, b) = trim_span(c, 0, c.len());
            proof {
                assert(c@.subrange(0, c@.len() as int) =~= c@);
            }
            if a < b {
                let n = copy_span(c, 0, c.len());
                let mut s = String::new();
                crate::islands::append_chars(&mut s, &n);
                s
            } else {
                owned("app")
            }
        },
    }
}

// ---- JSR vendoring ----------------------------------------------------------

pub open spec fn is_safe_path_char(c: char) -> bool {
    ('a' <= c <= 'z') || ('A' <= c <= 'Z') || ('0' <= c <= '9') || c == '/' || c == '.' || c
        == '_' || c == '-' || c == '@'
}

pub open spec fn staged_marker() -> Seq<char> {
    ".deka-staged-package"@
}

/// A vendored file path is safe: non-empty, every segment a real name (not
/// empty, `.`, `..` or the staging marker), and only ASCII letters, digits
/// and `/._-@`.
pub open spec fn path_is_safe(path: Seq<char>) -> bool {
    let parts = split_on(path, '/');
    &&& path.len() > 0
    &&& forall|i: int| 0 <= i < parts.len() ==> {
        let p = #[trigger] parts[i];
        p.len() > 0 && p != dot() && p != dot_dot() && p != staged_marker()
    }
    &&& forall|i: int| 0 <= i < path.len() ==> is_safe_path_char(#[trigger] path[i])
}

/// Accept a vendored file path only when it is safe.
pub fn safe_path(path: &str) -> (r: Result<String, String>)
    ensures
        path_is_safe(path@) ==> (r matches Ok(s) && s@ == path@),
        !path_is_safe(path@) ==> (r matches Err(e) && e@ == "unsafe JSR file path: "@ + path@),
{
    let v = chars_of(path);
    let marker = chars_of(".deka-staged-package");
    let mut ok = v.len() > 0;
    let parts = split_chars(&v, '/');
    let ghost pv = parts@.map_values(|x: Vec<char>| x@);
    let mut i: usize = 0;
    while i < parts.len()
        invariant
            i <= parts@.len(),
            pv == parts@.map_values(|x: Vec<char>| x@),
            pv == split_on(path@, '/'),
            v@ == path@,
            marker@ == staged_marker(),
            ok == (path@.len() > 0 && forall|m: int| 0 <= m < i ==> {
                let p = #[trigger] pv[m];
                p.len() > 0 && p != dot() && p != dot_dot() && p != staged_marker()
            }),
        decreases parts@.len() - i,
    {
        let c = &parts[i];
        proof {
            assert(pv[i as int] == c@);
        }
        let is_d = c.len() == 1 && c[0] == '.';
        let is_dd = c.len() == 2 && c[0] == '.' && c[1] == '.';
        let is_m = crate::project::same_chars(c, &marker);
        proof {
            if is_d {
                assert(c@ =~= dot());
            }
            if c@ == dot() {
                assert(c@.len() == 1);
            }
            if is_dd {
                assert(c@ =~= dot_dot());
            }
            if c@ == dot_dot() {
                assert(c@.len() == 2);
            }
        }
        if c.len() == 0 || is_d || is_dd || is_m {
            ok = false;
        }
        i = i + 1;
    }
    let mut k: usize = 0;
    while k < v.len()
        invariant
            k <= v@.len(),
            v@ == path@,
            ok ==> forall|m: int| 0 <= m < k ==> is_safe_path_char(#[trigger] v@[m]),
            !ok ==> !path_is_safe(path@),
            ok ==> (path@.len() > 0 && forall|m: int| 0 <= m < pv.len() ==> {
                let p = #[trigger] pv[m];
                p.len() > 0 && p != dot() && p != dot_dot() && p != staged_marker()
            }),
            pv == split_on(path@, '/'),
        decreases v@.len() - k,
    {
        let c = v[k];
        if !(('a' <= c && c <= 'z') || ('A' <= c && c <= 'Z') || ('0' <= c && c <= '9') || c == '/'
            || c == '.' || c == '_' || c == '-' || c == '@') {
            ok = false;
        }
        k = k + 1;
    }
    if ok {
        Ok(owned(path))
    } else {
        let mut e = owned("unsafe JSR file path: ");
        e.append(path);
        Err(e)
    }
}

pub fn same_chars(v: &Vec<char>, w: &Vec<char>) -> (r: bool)
    ensures
        r == (v@ == w@),
{
    chars_are(v, w)
}

/// The vendored name of a JSR module: `.ts` and `.mts` become `.mjs`.
pub open spec fn vendored_js_path(p: Seq<char>) -> Seq<char> {
    if p.len() >= 3 && p.skip(p.len() - 3) == ".ts"@ {
        p.take(p.len() - 3) + ".mjs"@
    } else if p.len() >= 4 && p.skip(p.len() - 4) == ".mts"@ {
        p.take(p.len() - 4) + ".mjs"@
    } else {
        p
    }
}

pub fn js_path(path: &str) -> (r: String)
    ensures
        r@ == vendored_js_path(path@),
{
    proof {
        reveal_strlit(".ts");
        reveal_strlit(".mts");
        reveal_strlit(".mjs");
    }
    let v = chars_of(path);
    let n = v.len();
    let ts = n >= 3 && v[n - 3] == '.' && v[n - 2] == 't' && v[n - 1] == 's';
    proof {
        if n >= 3 {
            let t = v@.skip(n - 3);
            assert(t[0] == v@[n - 3] && t[1] == v@[n - 2] && t[2] == v@[n - 1]);
            if ts {
                assert(t =~= ".ts"@);
            }
        }
    }
    if ts {
        let stem = copy_span(&v, 0, n - 3);
        let mut out = String::new();
        crate::islands::append_chars(&mut out, &stem);
        out.append(".mjs");
        proof {
            assert(stem@ =~= v@.take(n - 3));
        }
        return out;
    }
    let mts = n >= 4 && v[n - 4] == '.' && v[n - 3] == 'm' && v[n - 2] == 't' && v[n - 1] == 's';
    proof {
        if n >= 4 {
            let t = v@.skip(n - 4);
            assert(t[0] == v@[n - 4] && t[1] == v@[n - 3] && t[2] == v@[n - 2] && t[3] == v@[n - 1]);
            if mts {
                assert(t =~= ".mts"@);
            }
        }
    }
    if mts {
        let stem = copy_span(&v, 0, n - 4);
        let mut out = String::new();
        crate::islands::append_chars(&mut out, &stem);
        out.append(".mjs");
        proof {
            assert(stem@ =~= v@.take(n - 4));
        }
        return out;
    }
    owned(path)
}

/// What `deka init` tells the user to do next: enter the new directory
/// when one was named (other than `.`), then serve; else serve or develop.
pub open spec fn next_step_lines(dir: Option<Seq<char>>) -> Seq<Seq<char>> {
    match dir {
        Some(d) => if d != seq!['.'] && d.len() > 0 {
            seq!["[init] DekaScript app ready"@, "  cd "@ + d, "  deka serve"@]
        } else {
            seq!["[init] DekaScript app ready"@, "  deka serve"@, "  deka dev"@]
        },
        None => seq!["[init] DekaScript app ready"@, "  deka serve"@, "  deka dev"@],
    }
}

pub fn next_steps(dir: Option<&str>) -> (r: Vec<String>)
    ensures
        r@.map_values(|s: String| s@) == next_step_lines(
            match dir {
                Some(d) => Some(d@),
                None => None,
            },
        ),
{
    let mut out: Vec<String> = Vec::new();
    out.push(owned("[init] DekaScript app ready"));
    let named = match dir {
        Some(d) => {
            let v = chars_of(d);
            let dot = v.len() == 1 && v[0] == '.';
            proof {
                if dot {
                    assert(v@ =~= seq!['.']);
                }
            }
            if !dot && v.len() > 0 {
                Some(d)
            } else {
                None
            }
        },
        None => None,
    };
    match named {
        Some(d) => {
            let mut cd = owned("  cd ");
            cd.append(d);
            out.push(cd);
            out.push(owned("  deka serve"));
        },
        None => {
            out.push(owned("  deka serve"));
            out.push(owned("  deka dev"));
        },
    }
    proof {
        assert(out@.map_values(|s: String| s@) =~= next_step_lines(
            match dir {
                Some(d) => Some(d@),
                None => None,
            },
        ));
    }
    out
}

} // verus!
