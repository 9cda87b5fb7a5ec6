//! Checks over a compiled module graph that refuse to boot a graph which
//! could never run: a module with bridge calls in a package granted no
//! host kinds, and a non-official module that references the closed
//! `deka.*` catalog. Each reports the offending module with the least
//! path, so the same one is reported every run.

use vstd::prelude::*;
use crate::islands::contains_text;
use crate::text::{chars_of, owned};
use crate::versions::{text_lt, text_lt_chars};

verus! {

/// A compiled module: its path, its JavaScript, the package it belongs to,
/// and whether the check at hand lets it through (it has granted host
/// kinds, or it may bind the catalog).
pub struct CompiledModule {
    pub path: String,
    pub js: String,
    pub package: String,
    pub allowed: bool,
}

pub open spec fn kind_views(v: Seq<String>) -> Seq<Seq<char>> {
    v.map_values(|k: String| k@)
}

/// The first catalog kind whose helpers `js` references (`deka.<kind>.`).
pub open spec fn referenced_kind(js: Seq<char>, kinds: Seq<Seq<char>>, i: int) -> Option<Seq<char>>
    decreases kinds.len() - i,
{
    if i < 0 || i >= kinds.len() {
        None
    } else if contains_text(js, "deka."@ + kinds[i] + seq!['.']) {
        Some(kinds[i])
    } else {
        referenced_kind(js, kinds, i + 1)
    }
}

/// Whether a module offends: with `kinds` empty, bridge calls in a module
/// without granted kinds; otherwise a catalog reference from a module that
/// may not bind the catalog.
pub open spec fn offends(m: CompiledModule, catalog: bool, kinds: Seq<Seq<char>>) -> bool {
    !m.allowed && if catalog {
        referenced_kind(m.js@, kinds, 0) is Some
    } else {
        contains_text(m.js@, "__deka_host("@)
    }
}

/// The offending module with the least path (the earliest of equal ones).
pub open spec fn least_offender(ms: Seq<CompiledModule>, catalog: bool, kinds: Seq<Seq<char>>) -> Option<int>
    decreases ms.len(),
{
    if ms.len() == 0 {
        None
    } else {
        let prev = least_offender(ms.drop_last(), catalog, kinds);
        let i = ms.len() - 1;
        if offends(ms[i], catalog, kinds) && match prev {
            Some(p) => text_lt(ms[i].path@, ms[p].path@),
            None => true,
        } {
            Some(i)
        } else {
            prev
        }
    }
}

proof fn lemma_least_offender_bounds(ms: Seq<CompiledModule>, catalog: bool, kinds: Seq<Seq<char>>)
    ensures
        least_offender(ms, catalog, kinds) matches Some(i) ==> 0 <= i < ms.len() && offends(
            ms[i],
            catalog,
            kinds,
        ),
    decreases ms.len(),
{
    if ms.len() > 0 {
        lemma_least_offender_bounds(ms.drop_last(), catalog, kinds);
    }
}

fn contains_exec(s: &str, pat: &Vec<char>) -> (r: bool)
    ensures
        r == contains_text(s@, pat@),
{
    let v = chars_of(s);
    crate::islands::find_sub_from(&v, pat, 0).is_some()
}

fn referenced_kind_exec(js: &str, kinds: &Vec<String>) -> (r: Option<String>)
    ensures
        match referenced_kind(js@, kind_views(kinds@), 0) {
            Some(k) => r matches Some(s) && s@ == k,
            None => r is None,
        },
{
    let ghost kv = kind_views(kinds@);
    let mut i: usize = 0;
    while i < kinds.len()
        invariant
            i <= kinds@.len(),
            kv == kind_views(kinds@),
            referenced_kind(js@, kv, i as int) == referenced_kind(js@, kv, 0),
        decreases kinds@.len() - i,
    {
        let mut pat = chars_of("deka.");
        let kc = chars_of(kinds[i].as_str());
        let mut j: usize = 0;
        let ghost start = pat@;
        while j < kc.len()
            invariant
                j <= kc@.len(),
                pat@ == start + kc@.take(j as int),
            decreases kc@.len() - j,
        {
            pat.push(kc[j]);
            j = j + 1;
            proof {
                assert(pat@ =~= start + kc@.take(j as int));
            }
        }
        pat.push('.');
        proof {
            reveal_strlit("deka.");
            assert(kc@.take(kc@.len() as int) =~= kc@);
            assert(kv[i as int] == kinds@[i as int]@);
            assert(pat@ =~= "deka."@ + kv[i as int] + seq!['.']);
        }
        if contains_exec(js, &pat) {
            return Some(kinds[i].clone());
        }
        i = i + 1;
    }
    None
}

fn offends_exec(m: &CompiledModule, catalog: bool, kinds: &Vec<String>) -> (r: bool)
    ensures
        r == offends(*m, catalog, kind_views(kinds@)),
{
    if m.allowed {
        return false;
    }
    if catalog {
        referenced_kind_exec(m.js.as_str(), kinds).is_some()
    } else {
        let pat = chars_of("__deka_host(");
        proof {
            reveal_strlit("__deka_host(");
        }
        contains_exec(m.js.as_str(), &pat)
    }
}

/// The index of the offending module with the least path, if any.
pub fn least_offending_module(modules: &Vec<CompiledModule>, catalog: bool, kinds: &Vec<String>) -> (r:
    Option<usize>)
    ensures
        match r {
            Some(i) => least_offender(modules@, catalog, kind_views(kinds@)) == Some(i as int),
            None => least_offender(modules@, catalog, kind_views(kinds@)) is None,
        },
{
    let ghost kv = kind_views(kinds@);
    let mut best: Option<usize> = None;
    let mut best_path: Vec<char> = Vec::new();
    let mut i: usize = 0;
    while i < modules.len()
        invariant
            i <= modules@.len(),
            kv == kind_views(kinds@),
            match best {
                Some(b) => least_offender(modules@.take(i as int), catalog, kv) == Some(b as int),
                None => least_offender(modules@.take(i as int), catalog, kv) is None,
            },
            best matches Some(b) ==> b < i && best_path@ == modules@[b as int].path@,
        decreases modules@.len() - i,
    {
        let ghost t = modules@.take(i + 1);
        proof {
            assert(t.drop_last() =~= modules@.take(i as int));
            assert(t[i as int] == modules@[i as int]);
            lemma_least_offender_bounds(modules@.take(i as int), catalog, kv);
            if best is Some {
                let b = best->0;
                assert(t[b as int] == modules@[b as int]);
                assert(modules@.take(i as int)[b as int] == modules@[b as int]);
            }
        }
        let offending = offends_exec(&modules[i], catalog, kinds);
        if offending {
            let p = chars_of(modules[i].path.as_str());
            let better = match best {
                Some(_) => text_lt_chars(&p, &best_path),
                None => true,
            };
            if better {
                best = Some(i);
                best_path = p;
            }
        }
        i = i + 1;
    }
    proof {
        assert(modules@.take(modules@.len() as int) =~= modules@);
    }
    best
}

pub open spec fn path_views(ms: Seq<CompiledModule>) -> Seq<Seq<char>> {
    ms.map_values(|m: CompiledModule| m.path@)
}

/// The boot error for bridge calls from a module granted no host kinds.
pub open spec fn ungranted_bridge_text(m: CompiledModule) -> Seq<char> {
    "package '"@ + m.package@ + "' is not granted any host kinds but contains bridge calls ("@
        + m.path@ + ")"@
}

/// Refuse a graph in which a module calls the host bridge (`__deka_host(`)
/// but its package is granted no host kinds.
pub fn ungranted_bridge_caller(modules: &Vec<CompiledModule>) -> (r: Option<String>)
    ensures
        match least_offender(modules@, false, Seq::empty()) {
            Some(i) => r matches Some(m) && m@ == ungranted_bridge_text(modules@[i]),
            None => r is None,
        },
{
    let none: Vec<String> = Vec::new();
    proof {
        assert(kind_views(none@) =~= Seq::<Seq<char>>::empty());
    }
    match least_offending_module(modules, false, &none) {
        Some(i) => {
            proof {
                lemma_least_offender_bounds(modules@, false, Seq::empty());
            }
            let m = &modules[i];
            let mut e = owned("package '");
            e.append(m.package.as_str());
            e.append("' is not granted any host kinds but contains bridge calls (");
            e.append(m.path.as_str());
            e.append(")");
            proof {
                assert(e@ == ungranted_bridge_text(modules@[i as int]));
            }
            Some(e)
        },
        None => None,
    }
}

/// The boot error for a non-official module that references a catalog
/// kind.
pub open spec fn catalog_reference_text(m: CompiledModule, kind: Seq<char>) -> Seq<char> {
    "package '"@ + m.package@ + "' references the closed deka.* catalog (deka."@ + kind
        + ") but is not an official @deka/* stdlib package ("@ + m.path@ + ")"@
}

/// Refuse a graph in which a module that may not bind the catalog
/// references one of its `kinds` (`deka.<kind>.`): its helpers could never
/// resolve.
pub fn non_official_catalog_reference(modules: &Vec<CompiledModule>, kinds: &Vec<String>) -> (r:
    Option<String>)
    ensures
        match least_offender(modules@, true, kind_views(kinds@)) {
            Some(i) => r matches Some(m) && m@ == catalog_reference_text(
                modules@[i],
                referenced_kind(modules@[i].js@, kind_views(kinds@), 0)->0,
            ),
            None => r is None,
        },
{
    match least_offending_module(modules, true, kinds) {
        Some(i) => {
            proof {
                lemma_least_offender_bounds(modules@, true, kind_views(kinds@));
            }
            let m = &modules[i];
            let kind = match referenced_kind_exec(m.js.as_str(), kinds) {
                Some(k) => k,
                None => String::new(),
            };
            let mut e = owned("package '");
            e.append(m.package.as_str());
            e.append("' references the closed deka.* catalog (deka.");
            e.append(kind.as_str());
            e.append(") but is not an official @deka/* stdlib package (");
            e.append(m.path.as_str());
            e.append(")");
            Some(e)
        },
        None => None,
    }
}


// ---- What the loader does when it is built --------------------------------------

/// What building the loader does before anything runs: create the compiler
/// cache (not for an artifact server, which serves prebuilt files) and
/// compile the entry's graph with dsc (only for an entry file that is not
/// JavaScript, which runs as it is).
pub struct LoaderPlan {
    pub create_cache_dir: bool,
    pub compile_graph: bool,
}

pub fn loader_plan(entry_path: &str, entry_is_file: bool, artifact_server: bool) -> (r: LoaderPlan)
    ensures
        r.create_cache_dir == !artifact_server,
        r.compile_graph == (entry_is_file && !crate::project::is_js_path(entry_path@)),
{
    LoaderPlan {
        create_cache_dir: !artifact_server,
        compile_graph: entry_is_file && !crate::project::is_javascript_entry(entry_path),
    }
}

/// The grant table the loader checks bridge calls against: one the caller
/// passes wins; otherwise the one the project installed.
pub fn choose_grant_table(
    explicit: Option<crate::grants::GrantTable>,
    installed: Option<crate::grants::GrantTable>,
) -> (r: Option<crate::grants::GrantTable>)
    ensures
        r == (match explicit {
            Some(t) => Some(t),
            None => installed,
        }),
{
    match explicit {
        Some(t) => Some(t),
        None => installed,
    }
}

/// The loader's refusal of a project root that declares host kinds it may
/// not have: the grant check's error, then why.
pub fn root_grant_refusal(error: &str) -> (r: String)
    ensures
        r@ == error@
            + "; deka.json 'host.kinds' is reserved for official @deka stdlib packages; apps acquire bridge authority only via the published grant table"@,
{
    let mut m = owned(error);
    m.append(
        "; deka.json 'host.kinds' is reserved for official @deka stdlib packages; apps acquire bridge authority only via the published grant table",
    );
    m
}

} // verus!
