//! Compile-root staging for the `deka.*` catalog gate: where each scanner
//! diagnostic points, how the validation failure reads, which dependency
//! packages a lowering touched, and how paths move between a project root
//! and its staged mirror.
//!
//! Paths here are the canonical text of absolute paths; the caller resolves
//! symlinks before handing them over.

use vstd::prelude::*;
use crate::text::{join_lines, opt_view, pair_views};
use crate::text::string_views;
use crate::text::{chars_of, decimal, owned, string_of_span, string_push, u64_to_decimal};
use crate::paths::{join, replace, replace_all, spec_join, spec_strip_prefix, strip_prefix, trim_tail};
use crate::catalog_scan::{locate, spec_locate};
use vstd::string::StringSliceAdditionalSpecFns;

verus! {

/// One scanner diagnostic, placed at a 1-based line and column of a file.
pub struct ScanDiagnostic {
    pub path: String,
    pub line: usize,
    pub column: usize,
    pub message: String,
}

/// `path:line:column: message`.
pub open spec fn diagnostic_text(
    path: Seq<char>,
    line: nat,
    column: nat,
    message: Seq<char>,
) -> Seq<char> {
    path + seq![':'] + decimal(line) + seq![':'] + decimal(column) + seq![':', ' '] + message
}

impl ScanDiagnostic {
    /// The diagnostic as one line of text.
    pub fn to_string(&self) -> (r: String)
        ensures
            r@ == diagnostic_text(self.path@, self.line as nat, self.column as nat, self.message@),
    {
        let mut out = owned(self.path.as_str());
        string_push(&mut out, ':');
        let line = u64_to_decimal(self.line as u64);
        out.append(line.as_str());
        string_push(&mut out, ':');
        let column = u64_to_decimal(self.column as u64);
        out.append(column.as_str());
        string_push(&mut out, ':');
        string_push(&mut out, ' ');
        out.append(self.message.as_str());
        proof {
            assert(out@ =~= diagnostic_text(
                self.path@,
                self.line as nat,
                self.column as nat,
                self.message@,
            ));
        }
        out
    }
}

/// The diagnostic that a scanner finding at `offset` of `source` becomes.
pub open spec fn placed(
    path: Seq<char>,
    source: Seq<u8>,
    offset: int,
    message: Seq<char>,
) -> (Seq<char>, int, int, Seq<char>) {
    (path, spec_locate(source, offset).0, spec_locate(source, offset).1 + 1, message)
}

/// Place the scanner's `(offset, message)` findings for the file at `path`
/// at their line and column in `source`.
pub fn file_diagnostics(path: &str, source: &str, findings: &Vec<(usize, String)>) -> (r: Vec<
    ScanDiagnostic,
>)
    requires
        source.spec_bytes().len() < usize::MAX,
        forall|i: int| 0 <= i < findings@.len() ==> #[trigger] findings@[i].0 <= source.spec_bytes().len(),
    ensures
        r@.len() == findings@.len(),
        forall|i: int|
            0 <= i < r@.len() ==> (#[trigger] r@[i].path@, r@[i].line as int, r@[i].column as int, r@[i].message@)
                == placed(path@, source.spec_bytes(), findings@[i].0 as int, findings@[i].1@),
{
    let mut out: Vec<ScanDiagnostic> = Vec::new();
    let mut i: usize = 0;
    while i < findings.len()
        invariant
            i <= findings@.len(),
            out@.len() == i,
            source.spec_bytes().len() < usize::MAX,
            forall|k: int| 0 <= k < findings@.len() ==> #[trigger] findings@[k].0 <= source.spec_bytes().len(),
            forall|k: int|
                0 <= k < i ==> (#[trigger] out@[k].path@, out@[k].line as int, out@[k].column as int, out@[k].message@)
                    == placed(path@, source.spec_bytes(), findings@[k].0 as int, findings@[k].1@),
        decreases findings@.len() - i,
    {
        let offset = findings[i].0;
        let (line, column) = locate(source, offset);
        let message = findings[i].1.clone();
        out.push(ScanDiagnostic { path: owned(path), line, column, message });
        i = i + 1;
    }
    out
}

/// The text of each diagnostic, in order.
pub open spec fn diagnostic_lines(diagnostics: Seq<ScanDiagnostic>) -> Seq<Seq<char>> {
    diagnostics.map_values(
        |d: ScanDiagnostic| diagnostic_text(d.path@, d.line as nat, d.column as nat, d.message@),
    )
}

/// The error that fails a compile with source diagnostics: `marker`, then
/// one diagnostic per line.
pub fn validation_report(marker: &str, diagnostics: &Vec<ScanDiagnostic>) -> (r: String)
    ensures
        r@ == marker@ + join_lines(diagnostic_lines(diagnostics@)),
{
    let mut out = owned(marker);
    let mut i: usize = 0;
    while i < diagnostics.len()
        invariant
            i <= diagnostics@.len(),
            out@ == marker@ + join_lines(diagnostic_lines(diagnostics@.take(i as int))),
        decreases diagnostics@.len() - i,
    {
        let line = diagnostics[i].to_string();
        proof {
            let lines = diagnostic_lines(diagnostics@.take(i + 1));
            assert(lines.drop_last() =~= diagnostic_lines(diagnostics@.take(i as int)));
            assert(lines.last() == line@);
        }
        if i > 0 {
            string_push(&mut out, '\n');
        }
        out.append(line.as_str());
        i = i + 1;
        proof {
            let lines = diagnostic_lines(diagnostics@.take(i as int));
            if i == 1 {
                assert(out@ =~= marker@ + lines[0]);
            } else {
                assert(out@ =~= marker@ + (join_lines(lines.drop_last()) + seq!['\n'] + lines.last()));
            }
        }
    }
    proof {
        assert(diagnostics@.take(diagnostics@.len() as int) =~= diagnostics@);
    }
    out
}

/// What a compile of a scanned root does next.
#[derive(PartialEq, Eq, Structural, Debug, Clone, Copy)]
pub enum CompilePlan {
    /// Nothing was lowered: compile the project root itself.
    InPlace,
    /// Some source was lowered: compile a staged mirror.
    Stage,
}

/// Any diagnostic fails the compile; otherwise a mirror is staged exactly
/// when some source was rewritten.
pub fn plan_compile_root(marker: &str, diagnostics: &Vec<ScanDiagnostic>, rewritten: usize) -> (r:
    Result<CompilePlan, String>)
    ensures
        diagnostics@.len() > 0 ==> (r matches Err(e) && e@ == marker@ + join_lines(
            diagnostic_lines(diagnostics@),
        )),
        diagnostics@.len() == 0 ==> r == (if rewritten == 0 {
            Ok::<CompilePlan, String>(CompilePlan::InPlace)
        } else {
            Ok(CompilePlan::Stage)
        }),
{
    if diagnostics.len() > 0 {
        return Err(validation_report(marker, diagnostics));
    }
    if rewritten == 0 {
        Ok(CompilePlan::InPlace)
    } else {
        Ok(CompilePlan::Stage)
    }
}

/// A staged compile root: the mirror directory and the project root it
/// reflects.
pub struct StageGuard {
    dir: String,
    source_root: String,
}

impl StageGuard {
    pub fn new(dir: String, source_root: String) -> (r: StageGuard)
        ensures
            r.dir_view() == dir@,
            r.source_root_view() == source_root@,
    {
        StageGuard { dir, source_root }
    }

    pub closed spec fn dir_view(&self) -> Seq<char> {
        self.dir@
    }

    pub closed spec fn source_root_view(&self) -> Seq<char> {
        self.source_root@
    }

    /// The mirror directory.
    pub fn root(&self) -> (r: &str)
        ensures
            r@ == self.dir_view(),
    {
        self.dir.as_str()
    }

    /// The project root this mirror reflects.
    pub fn source_root(&self) -> (r: &str)
        ensures
            r@ == self.source_root_view(),
    {
        self.source_root.as_str()
    }

    /// The staged path of a project path; a path outside the project root
    /// is joined as it stands.
    pub fn map_path(&self, path: &str) -> (r: String)
        ensures
            r@ == spec_join(self.dir_view(), relocated(path@, self.source_root_view())),
    {
        match strip_prefix(path, self.source_root.as_str()) {
            Some(rel) => join(self.dir.as_str(), rel.as_str()),
            None => join(self.dir.as_str(), path),
        }
    }

    /// The project path of a staged path; a path outside the mirror is
    /// joined as it stands.
    pub fn unmap_path(&self, path: &str) -> (r: String)
        ensures
            r@ == spec_join(self.source_root_view(), relocated(path@, self.dir_view())),
    {
        match strip_prefix(path, self.dir.as_str()) {
            Some(rel) => join(self.source_root.as_str(), rel.as_str()),
            None => join(self.source_root.as_str(), path),
        }
    }

    /// A compiler diagnostic with every mention of the mirror directory
    /// replaced by the project root.
    pub fn remap_diagnostic(&self, text: &str) -> (r: String)
        ensures
            r@ == replace_all(text@, self.dir_view(), self.source_root_view()),
    {
        replace(text, self.dir.as_str(), self.source_root.as_str())
    }
}

/// `path` relative to `base` when it lies under it, else `path` itself.
pub open spec fn relocated(path: Seq<char>, base: Seq<char>) -> Seq<char> {
    match spec_strip_prefix(path, base) {
        Some(rel) => rel,
        None => path,
    }
}

/// The root a compile runs against.
pub enum PreparedRoot {
    /// No `safe` blocks in the tree; compile against the real root.
    InPlace,
    /// At least one `safe` block was lowered; compile against the mirror.
    Staged(StageGuard),
}

// ---- package of a source path ------------------------------------------------

/// First index at or after `i` that is not a separator.
pub open spec fn skip_sep(s: Seq<char>, i: int) -> int
    decreases s.len() - i,
{
    if i >= s.len() || i < 0 || s[i] != '/' {
        i
    } else {
        skip_sep(s, i + 1)
    }
}

/// First index at or after `i` that is a separator, or the end.
pub open spec fn run_end(s: Seq<char>, i: int) -> int
    decreases s.len() - i,
{
    if i >= s.len() || i < 0 || s[i] == '/' {
        i
    } else {
        run_end(s, i + 1)
    }
}

/// The package named by the leading components of a relative path: the
/// first component, or `@scope/name` from the first two.
pub open spec fn package_in(rel: Seq<char>) -> Option<Seq<char>> {
    let a = skip_sep(rel, 0);
    if a >= rel.len() {
        None
    } else {
        let e = run_end(rel, a);
        let first = rel.subrange(a, e);
        if first[0] == '@' {
            let b = skip_sep(rel, e);
            if b >= rel.len() {
                None
            } else {
                Some(first + seq!['/'] + rel.subrange(b, run_end(rel, b)))
            }
        } else {
            Some(first)
        }
    }
}

/// Where a source path sits relative to a project's dependency trees:
/// `None` when it is under neither `ds_modules` nor `php_modules`; otherwise
/// the tree and, when the path names one, the package.
pub open spec fn modules_entry(root: Seq<char>, path: Seq<char>) -> Option<
    Option<(Seq<char>, Seq<char>)>,
> {
    match spec_strip_prefix(path, spec_join(root, "ds_modules"@)) {
        Some(rel) => Some(
            match package_in(rel) {
                Some(n) => Some(("ds_modules"@, n)),
                None => None,
            },
        ),
        None => match spec_strip_prefix(path, spec_join(root, "php_modules"@)) {
            Some(rel) => Some(
                match package_in(rel) {
                    Some(n) => Some(("php_modules"@, n)),
                    None => None,
                },
            ),
            None => None,
        },
    }
}

proof fn lemma_skip_sep(s: Seq<char>, i: int)
    requires
        0 <= i <= s.len(),
    ensures
        i <= skip_sep(s, i) <= s.len(),
        skip_sep(s, i) < s.len() ==> s[skip_sep(s, i)] != '/',
    decreases s.len() - i,
{
    if i < s.len() && s[i] == '/' {
        lemma_skip_sep(s, i + 1);
    }
}

proof fn lemma_run_end(s: Seq<char>, i: int)
    requires
        0 <= i <= s.len(),
    ensures
        i <= run_end(s, i) <= s.len(),
    decreases s.len() - i,
{
    if i < s.len() && s[i] != '/' {
        lemma_run_end(s, i + 1);
    }
}

fn skip_sep_exec(v: &Vec<char>, i: usize) -> (r: usize)
    requires
        i <= v@.len(),
    ensures
        r == skip_sep(v@, i as int),
        i <= r <= v@.len(),
{
    let mut j = i;
    while j < v.len() && v[j] == '/'
        invariant
            i <= j <= v@.len(),
            skip_sep(v@, j as int) == skip_sep(v@, i as int),
        decreases v@.len() - j,
    {
        j = j + 1;
    }
    j
}

fn run_end_exec(v: &Vec<char>, i: usize) -> (r: usize)
    requires
        i <= v@.len(),
    ensures
        r == run_end(v@, i as int),
        i <= r <= v@.len(),
{
    let mut j = i;
    while j < v.len() && v[j] != '/'
        invariant
            i <= j <= v@.len(),
            run_end(v@, j as int) == run_end(v@, i as int),
        decreases v@.len() - j,
    {
        j = j + 1;
    }
    j
}

pub(crate) fn package_in_exec(rel: &str) -> (r: Option<String>)
    ensures
        match package_in(rel@) {
            Some(n) => r matches Some(s) && s@ == n,
            None => r is None,
        },
{
    let v = chars_of(rel);
    let a = skip_sep_exec(&v, 0);
    if a >= v.len() {
        return None;
    }
    let e = run_end_exec(&v, a);
    proof {
        lemma_skip_sep(v@, 0);
        lemma_run_end(v@, a as int + 1);
    }
    let mut first = string_of_span(&v, a, e);
    proof {
        assert(first@[0] == v@[a as int]);
    }
    if v[a] == '@' {
        let b = skip_sep_exec(&v, e);
        if b >= v.len() {
            return None;
        }
        let c = run_end_exec(&v, b);
        string_push(&mut first, '/');
        let second = string_of_span(&v, b, c);
        first.append(second.as_str());
        proof {
            assert(first@ =~= v@.subrange(a as int, e as int) + seq!['/'] + v@.subrange(
                b as int,
                c as int,
            ));
        }
        Some(first)
    } else {
        Some(first)
    }
}

/// Which dependency tree, and which package in it, a source path belongs to.
pub fn modules_package(root: &str, path: &str) -> (r: Option<Option<(String, String)>>)
    ensures
        match modules_entry(root@, path@) {
            None => r is None,
            Some(None) => r == Some(None::<(String, String)>),
            Some(Some((d, n))) => r matches Some(Some((rd, rn))) && rd@ == d && rn@ == n,
        },
{
    proof {
        reveal_strlit("ds_modules");
        reveal_strlit("php_modules");
    }
    let ds = join(root, "ds_modules");
    match strip_prefix(path, ds.as_str()) {
        Some(rel) => {
            return Some(
                match package_in_exec(rel.as_str()) {
                    Some(n) => Some((owned("ds_modules"), n)),
                    None => None,
                },
            );
        },
        None => {},
    }
    let php = join(root, "php_modules");
    match strip_prefix(path, php.as_str()) {
        Some(rel) => Some(
            match package_in_exec(rel.as_str()) {
                Some(n) => Some((owned("php_modules"), n)),
                None => None,
            },
        ),
        None => None,
    }
}

/// The package name whose officialness decides whether a source file is
/// stdlib: the package it sits in under a dependency tree (none when the
/// path names no package there), else the project manifest's name for a
/// file under the root, else the name in the nearest manifest above it.
pub open spec fn stdlib_deciding_name(
    root: Seq<char>,
    path: Seq<char>,
    root_manifest: Option<Seq<char>>,
    nearest_manifest: Option<Seq<char>>,
) -> Option<Seq<char>> {
    match modules_entry(root, path) {
        Some(Some((_, n))) => Some(n),
        Some(None) => None,
        None => if spec_strip_prefix(path, root) is Some {
            root_manifest
        } else {
            nearest_manifest
        },
    }
}

/// The name [`stdlib_deciding_name`] describes; the manifest names are what
/// the project's and the nearest enclosing `deka.json` declare, if anything.
pub fn stdlib_source_name(
    root: &str,
    path: &str,
    root_manifest: Option<String>,
    nearest_manifest: Option<String>,
) -> (r: Option<String>)
    ensures
        match stdlib_deciding_name(root@, path@, opt_view(root_manifest), opt_view(nearest_manifest)) {
            Some(n) => r matches Some(s) && s@ == n,
            None => r is None,
        },
{
    match modules_package(root, path) {
        Some(Some((_, n))) => Some(n),
        Some(None) => None,
        None => if strip_prefix(path, root).is_some() {
            root_manifest
        } else {
            nearest_manifest
        },
    }
}

/// The distinct `(tree, package)` pairs of rewritten sources, in first-seen
/// order.
pub open spec fn collect_packages(root: Seq<char>, paths: Seq<Seq<char>>) -> Seq<
    (Seq<char>, Seq<char>),
>
    decreases paths.len(),
{
    if paths.len() == 0 {
        Seq::empty()
    } else {
        let prev = collect_packages(root, paths.drop_last());
        match modules_entry(root, paths.last()) {
            Some(Some(e)) => if prev.contains(e) {
                prev
            } else {
                prev.push(e)
            },
            _ => prev,
        }
    }
}

/// Dependency packages under `root` that hold at least one of the rewritten
/// source `paths`, as `(tree, package)`.
pub fn rewritten_packages(root: &str, paths: &Vec<String>) -> (r: Vec<(String, String)>)
    ensures
        pair_views(r@) == collect_packages(root@, string_views(paths@)),
{
    let mut packages: Vec<(String, String)> = Vec::new();
    let mut i: usize = 0;
    while i < paths.len()
        invariant
            i <= paths@.len(),
            pair_views(packages@) == collect_packages(root@, string_views(paths@.take(i as int))),
        decreases paths@.len() - i,
    {
        proof {
            let s = string_views(paths@.take(i + 1));
            assert(s.drop_last() =~= string_views(paths@.take(i as int)));
            assert(s.last() == paths@[i as int]@);
        }
        match modules_package(root, paths[i].as_str()) {
            Some(Some((d, n))) => {
                let mut found = false;
                let mut k: usize = 0;
                while k < packages.len()
                    invariant
                        k <= packages@.len(),
                        found <==> exists|m: int| 0 <= m < k && #[trigger] pair_views(packages@)[m] == (d@, n@),
                    decreases packages@.len() - k,
                {
                    if packages[k].0 == d && packages[k].1 == n {
                        found = true;
                    }
                    proof {
                        assert(pair_views(packages@)[k as int] == (packages@[k as int].0@, packages@[k as int].1@));
                    }
                    k = k + 1;
                }
                proof {
                    let pv = pair_views(packages@);
                    if pv.contains((d@, n@)) {
                        let m = choose|m: int| 0 <= m < pv.len() && pv[m] == (d@, n@);
                        assert(found);
                    }
                    if found {
                        let m = choose|m: int| 0 <= m < k && #[trigger] pv[m] == (d@, n@);
                        assert(pv.contains((d@, n@)));
                    }
                }
                if !found {
                    let ghost before = packages@;
                    packages.push((d, n));
                    proof {
                        assert(pair_views(packages@) =~= pair_views(before).push((d@, n@)));
                    }
                }
            },
            _ => {},
        }
        i = i + 1;
    }
    proof {
        assert(paths@.take(paths@.len() as int) =~= paths@);
    }
    packages
}

// ---- lock reconciliation text ---------------------------------------------------

/// JSON-pointer to the hashes entry of `name` in a lock file:
/// `/packages/<name with '/' escaped as '~1'>/2`.
pub open spec fn lock_entry_pointer_text(name: Seq<char>) -> Seq<char> {
    "/packages/"@ + replace_all(name, "/"@, "~1"@) + "/2"@
}

pub fn lock_entry_pointer(name: &str) -> (r: String)
    ensures
        r@ == lock_entry_pointer_text(name@),
{
    let mut out = owned("/packages/");
    let escaped = replace(name, "/", "~1");
    out.append(escaped.as_str());
    out.append("/2");
    out
}

/// Whether a dependency on disk disagrees with its lock entry: the lock has
/// no `fsGraph` hash for it, or a different one.
pub fn fs_graph_mismatch(locked: Option<&str>, actual: &str) -> (r: bool)
    ensures
        r == match locked {
            Some(h) => h@ != actual@,
            None => true,
        },
{
    match locked {
        Some(h) => {
            let a = owned(h);
            let b = owned(actual);
            !(a == b)
        },
        None => true,
    }
}


/// A project path under the root, mapped into the mirror and back, is the
/// same path again.
pub proof fn law_map_unmap_round_trip(dir: Seq<char>, root: Seq<char>, rel: Seq<char>)
    requires
        dir.len() > 0,
        root.len() > 0,
        dir.last() != '/',
        root.last() != '/',
        rel.len() > 0,
        rel[0] != '/',
    ensures
        spec_join(root, relocated(spec_join(dir, relocated(spec_join(root, rel), root)), dir))
            == spec_join(root, rel),
{
    let p = spec_join(root, rel);
    assert(p =~= root + seq!['/'] + rel);
    assert(p.take(root.len() as int) =~= root);
    assert(p[root.len() as int] == '/');
    assert(p.skip(root.len() + 1 as int) =~= rel);
    assert(p != root);
    assert(relocated(p, root) == rel);
    let q = spec_join(dir, rel);
    assert(q =~= dir + seq!['/'] + rel);
    assert(q.take(dir.len() as int) =~= dir);
    assert(q[dir.len() as int] == '/');
    assert(q.skip(dir.len() + 1 as int) =~= rel);
    assert(q != dir);
    assert(relocated(q, dir) == rel);
}

proof fn lemma_trim_tail_len(p: Seq<char>)
    ensures
        trim_tail(p).len() <= p.len(),
    decreases p.len(),
{
    if p.len() > 0 && p.last() == '/' {
        lemma_trim_tail_len(p.drop_last());
    } else if p.len() >= 2 && p.last() == '.' && p[p.len() - 2] == '/' {
        lemma_trim_tail_len(p.drop_last());
    }
}

/// The project root maps onto the mirror root, and the mirror root back
/// onto the project root, as paths: the texts carry a trailing separator,
/// which `Path` does not count as a component.
pub proof fn law_root_maps_to_mirror_root(dir: Seq<char>, root: Seq<char>)
    requires
        dir.len() > 0,
        root.len() > 0,
        trim_tail(dir) == dir,
        trim_tail(root) == root,
    ensures
        trim_tail(spec_join(dir, relocated(root, root))) == dir,
        trim_tail(spec_join(root, relocated(spec_join(dir, relocated(root, root)), dir))) == root,
{
    lemma_trim_tail_len(dir.drop_last());
    lemma_trim_tail_len(root.drop_last());
    assert(dir.last() != '/');
    assert(root.last() != '/');
    assert(relocated(root, root) =~= Seq::<char>::empty());
    let m = spec_join(dir, Seq::empty());
    assert(m =~= dir + seq!['/']);
    assert(m.drop_last() =~= dir);
    assert(m != dir);
    assert(m.take(dir.len() as int) =~= dir);
    assert(m.skip(dir.len() + 1 as int) =~= Seq::<char>::empty());
    assert(relocated(m, dir) =~= Seq::<char>::empty());
    let u = spec_join(root, Seq::empty());
    assert(u =~= root + seq!['/']);
    assert(u.drop_last() =~= root);
}

} // verus!
