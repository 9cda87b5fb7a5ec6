//! Package integrity: registry digest normalization and lock-entry checks.

use vstd::prelude::*;
use crate::text::{
    ascii_lower, char_to_ascii_lowercase, chars_of, concat_str, has_prefix_at, is_hex_char,
    owned, string_of_span, trim, trim_span,
};

verus! {

/// Content hashes of an installed package tree.
pub struct PackageIntegrity {
    pub module_graph: String,
    pub fs_graph: String,
}

/// The digest text after an optional `sha256:` prefix, trimmed.
pub open spec fn digest_body(raw: Seq<char>) -> Seq<char> {
    let p = "sha256:"@;
    if raw.len() >= p.len() && raw.take(p.len() as int) == p {
        trim(raw.skip(p.len() as int))
    } else {
        trim(raw)
    }
}

/// A well-formed SHA-256 digest: 64 hex digits.
pub open spec fn is_sha256_hex(d: Seq<char>) -> bool {
    d.len() == 64 && forall|i: int| 0 <= i < d.len() ==> is_hex_char(#[trigger] d[i])
}

/// Normalize a registry digest: drop an optional `sha256:` prefix and
/// surrounding white space, require exactly 64 hex digits, lower-case them.
pub fn normalize_sha256_digest(raw: &str) -> (r: Result<String, String>)
    ensures
        r is Ok <==> is_sha256_hex(digest_body(raw@)),
        r matches Ok(d) ==> d@ == digest_body(raw@).map_values(|c: char| ascii_lower(c)),
        r matches Err(e) ==> e@ == "malformed package digest: "@ + raw@,
{
    let v = chars_of(raw);
    proof {
        reveal_strlit("sha256:");
    }
    let start: usize = if has_prefix_at(&v, 0, "sha256:") {
        7
    } else {
        0
    };
    proof {
        if v@.len() >= 7 {
            assert(v@.subrange(0, 7) == v@.take(7));
        }
    }
    let (a, b) = trim_span(&v, start, v.len());
    proof {
        assert(v@.subrange(start as int, v@.len() as int) == v@.skip(start as int));
        if start == 0 {
            assert(v@.skip(0) == v@);
            assert(!(raw@.len() >= 7 && raw@.take(7) == "sha256:"@));
        } else {
            assert(raw@.len() >= 7 && raw@.take(7) == "sha256:"@);
        }
        assert(v@.subrange(a as int, b as int) == digest_body(raw@));
    }
    let mut ok = b - a == 64;
    let mut i = a;
    while ok && i < b
        invariant
            a <= i <= b <= v@.len(),
            ok ==> b - a == 64,
            ok ==> forall|k: int| a <= k < i ==> is_hex_char(#[trigger] v@[k]),
            !ok ==> !is_sha256_hex(v@.subrange(a as int, b as int)),
        decreases b - i,
    {
        let c = v[i];
        if !(('0' <= c && c <= '9') || ('a' <= c && c <= 'f') || ('A' <= c && c <= 'F')) {
            ok = false;
            proof {
                assert(v@.subrange(a as int, b as int)[i - a] == c);
            }
        }
        i = i + 1;
    }
    if !ok {
        return Err(concat_str("malformed package digest: ", raw));
    }
    proof {
        assert forall|k: int| 0 <= k < b - a implies is_hex_char(
            #[trigger] v@.subrange(a as int, b as int)[k],
        ) by {
            assert(v@.subrange(a as int, b as int)[k] == v@[a + k]);
        }
    }
    let mut out: Vec<char> = Vec::new();
    let mut j = a;
    while j < b
        invariant
            a <= j <= b <= v@.len(),
            out@ == v@.subrange(a as int, j as int).map_values(|c: char| ascii_lower(c)),
        decreases b - j,
    {
        out.push(char_to_ascii_lowercase(v[j]));
        j = j + 1;
        proof {
            assert(out@ == v@.subrange(a as int, j as int).map_values(|c: char| ascii_lower(c)));
        }
    }
    Ok(string_of_span(&out, 0, out.len()))
}

/// Reject a downloaded package whose fs-graph digest differs from the one
/// the registry advertised for the release.
pub fn verify_package_digest(
    name: &str,
    advertised: &str,
    integrity: &PackageIntegrity,
) -> (r: Result<(), String>)
    ensures
        r is Ok <==> advertised@ == integrity.fs_graph@,
        r matches Err(e) ==> e@ == "package digest mismatch for "@ + name@ + ": registry "@
            + advertised@ + ", downloaded "@ + integrity.fs_graph@,
{
    let adv = owned(advertised);
    if adv != integrity.fs_graph {
        let mut e = owned("package digest mismatch for ");
        e.append(name);
        e.append(": registry ");
        e.append(advertised);
        e.append(", downloaded ");
        e.append(integrity.fs_graph.as_str());
        return Err(e);
    }
    Ok(())
}

/// The module-graph hash every lock entry carried while the graph walk saw
/// no sources: SHA-256 of the empty input.
pub const EMPTY_MODULE_GRAPH_HASH: &'static str =
    "e3b0c44298fc1c149afbf4c8996fb92427ae41e4649b934ca495991b7852b855";

/// What a lock entry pins for one package.
pub struct LockedPackage {
    pub version: String,
    pub resolved: String,
    pub module_graph: String,
    pub fs_graph: String,
}

/// Where an install actually came from.
pub struct InstalledSource {
    pub version: String,
    pub repo: Option<String>,
    pub git_ref: Option<String>,
    pub source: String,
    pub requires_registry_digest: bool,
}

/// The source tag of a lock `resolved` field: the text before its first `:`.
pub open spec fn lock_source_tag(resolved: Seq<char>) -> Option<Seq<char>> {
    if exists|i: int| 0 <= i < resolved.len() && resolved[i] == ':' {
        let i = choose|i: int|
            0 <= i < resolved.len() && resolved[i] == ':' && forall|k: int|
                0 <= k < i ==> resolved[k] != ':';
        Some(resolved.take(i))
    } else {
        None
    }
}

pub open spec fn allowed_lock_source(tag: Seq<char>) -> bool {
    tag == "linkhash"@ || tag == "github"@ || tag == "deka.gg"@
}

/// Whether a locked module-graph hash is the legacy empty-input constant
/// that a freshly computed, different hash may replace.
pub open spec fn heals_legacy_module_graph(locked: Seq<char>, computed: Seq<char>) -> bool {
    locked == EMPTY_MODULE_GRAPH_HASH@ && computed != locked
}

fn first_colon(v: &[char]) -> (r: Option<usize>)
    ensures
        r is Some <==> exists|i: int| 0 <= i < v@.len() && v@[i] == ':',
        r matches Some(i) ==> i < v@.len() && v@[i as int] == ':' && forall|k: int|
            0 <= k < i ==> v@[k] != ':',
{
    let mut i: usize = 0;
    while i < v.len()
        invariant
            i <= v@.len(),
            forall|k: int| 0 <= k < i ==> v@[k] != ':',
        decreases v@.len() - i,
    {
        if v[i] == ':' {
            return Some(i);
        }
        i = i + 1;
    }
    None
}

/// How a freshly installed package checks against its lock entry: the
/// first failed check as an error, else whether the lock's module-graph
/// hash is the legacy value to self-heal.
pub open spec fn integrity_verdict(
    name: Seq<char>,
    locked: LockedPackage,
    installed: InstalledSource,
    integrity: PackageIntegrity,
) -> Result<bool, Seq<char>> {
    let pre = "integrity verification failed for "@ + name;
    if installed.version@ != locked.version@ {
        Err(pre + ": locked version "@ + locked.version@ + " but installed "@ + installed.version@)
    } else {
        match lock_source_tag(locked.resolved@) {
            None => Err(pre + ": malformed lock source "@ + locked.resolved@),
            Some(tag) => if !allowed_lock_source(tag) {
                Err(pre + ": unsupported lock source "@ + locked.resolved@)
            } else if !heals_legacy_module_graph(locked.module_graph@, integrity.module_graph@)
                && integrity.module_graph@ != locked.module_graph@ {
                Err(pre + ": moduleGraph hash mismatch (locked "@ + locked.module_graph@ + ", got "@
                    + integrity.module_graph@ + ")"@)
            } else if integrity.fs_graph@ != locked.fs_graph@ {
                Err(pre + ": fsGraph hash mismatch (locked "@ + locked.fs_graph@ + ", got "@
                    + integrity.fs_graph@ + ")"@)
            } else {
                Ok(heals_legacy_module_graph(locked.module_graph@, integrity.module_graph@))
            },
        }
    }
}

/// Check a freshly installed package against its lock entry. `Ok(true)`
/// flags a legacy empty module-graph hash for self-healing.
pub fn verify_locked_integrity(
    name: &str,
    locked: &LockedPackage,
    installed: &InstalledSource,
    integrity: &PackageIntegrity,
) -> (r: Result<bool, String>)
    ensures
        r is Ok <==> {
            &&& installed.version@ == locked.version@
            &&& lock_source_tag(locked.resolved@) matches Some(tag) && allowed_lock_source(tag)
            &&& (integrity.module_graph@ == locked.module_graph@ || heals_legacy_module_graph(
                locked.module_graph@,
                integrity.module_graph@,
            ))
            &&& integrity.fs_graph@ == locked.fs_graph@
        },
        r matches Ok(heal) ==> heal == heals_legacy_module_graph(
            locked.module_graph@,
            integrity.module_graph@,
        ),
        match r {
            Ok(heal) => integrity_verdict(name@, *locked, *installed, *integrity) == Ok::<bool, Seq<char>>(heal),
            Err(e) => integrity_verdict(name@, *locked, *installed, *integrity) == Err::<bool, Seq<char>>(e@),
        },
{
    proof {
        reveal_strlit("integrity verification failed for ");
        reveal_strlit(": locked version ");
        reveal_strlit(" but installed ");
        reveal_strlit(": malformed lock source ");
        reveal_strlit(": unsupported lock source ");
        reveal_strlit(": moduleGraph hash mismatch (locked ");
        reveal_strlit(", got ");
        reveal_strlit(")");
        reveal_strlit(": fsGraph hash mismatch (locked ");
    }
    if installed.version != locked.version {
        let mut e = owned("integrity verification failed for ");
        e.append(name);
        e.append(": locked version ");
        e.append(locked.version.as_str());
        e.append(" but installed ");
        e.append(installed.version.as_str());
        return Err(e);
    }
    let rv = chars_of(locked.resolved.as_str());
    let colon = first_colon(&rv);
    let i = match colon {
        Some(i) => i,
        None => {
            let mut e = owned("integrity verification failed for ");
            e.append(name);
            e.append(": malformed lock source ");
            e.append(locked.resolved.as_str());
            return Err(e);
        },
    };
    let tag = string_of_span(&rv, 0, i);
    proof {
        let w = choose|j: int|
            0 <= j < rv@.len() && rv@[j] == ':' && forall|k: int| 0 <= k < j ==> rv@[k] != ':';
        assert(w == i) by {
            if w < i {
                assert(rv@[w] != ':');
            } else if w > i {
                assert(rv@[i as int] != ':');
            }
        }
        assert(tag@ == rv@.take(i as int));
    }
    if !(tag == owned("linkhash") || tag == owned("github") || tag == owned("deka.gg")) {
        let mut e = owned("integrity verification failed for ");
        e.append(name);
        e.append(": unsupported lock source ");
        e.append(locked.resolved.as_str());
        return Err(e);
    }
    let heal = locked.module_graph == owned(EMPTY_MODULE_GRAPH_HASH) && integrity.module_graph
        != locked.module_graph;
    if !heal && integrity.module_graph != locked.module_graph {
        let mut e = owned("integrity verification failed for ");
        e.append(name);
        e.append(": moduleGraph hash mismatch (locked ");
        e.append(locked.module_graph.as_str());
        e.append(", got ");
        e.append(integrity.module_graph.as_str());
        e.append(")");
        return Err(e);
    }
    if integrity.fs_graph != locked.fs_graph {
        let mut e = owned("integrity verification failed for ");
        e.append(name);
        e.append(": fsGraph hash mismatch (locked ");
        e.append(locked.fs_graph.as_str());
        e.append(", got ");
        e.append(integrity.fs_graph.as_str());
        e.append(")");
        return Err(e);
    }
    Ok(heal)
}


/// The text is free of white space at both ends.
proof fn lemma_trim_fixed(d: Seq<char>)
    requires
        forall|i: int| 0 <= i < d.len() ==> !crate::text::is_white_space(#[trigger] d[i]),
    ensures
        trim(d) == d,
{
    crate::text::lemma_lead_ws(d);
    if d.len() > 0 {
        assert(!crate::text::is_white_space(d[0]));
    }
    assert(crate::text::lead_ws(d) == 0);
    assert(d.skip(0) =~= d);
    crate::text::lemma_trail_ws(d);
    if d.len() > 0 {
        assert(!crate::text::is_white_space(d[d.len() - 1]));
    }
    assert(crate::text::trail_ws(d) == 0);
    assert(d.take(d.len() as int) =~= d);
}

/// A normalized digest normalizes to itself.
pub proof fn law_normalized_digest_is_fixed(raw: Seq<char>)
    requires
        is_sha256_hex(digest_body(raw)),
    ensures
        ({
            let d = digest_body(raw).map_values(|c: char| ascii_lower(c));
            is_sha256_hex(digest_body(d)) && digest_body(d).map_values(|c: char| ascii_lower(c)) == d
        }),
{
    reveal_strlit("sha256:");
    let b = digest_body(raw);
    let d = b.map_values(|c: char| ascii_lower(c));
    assert forall|i: int| 0 <= i < d.len() implies is_hex_char(#[trigger] d[i])
        && !crate::text::is_white_space(d[i]) && ascii_lower(d[i]) == d[i] by {
        assert(is_hex_char(b[i]));
    }
    if d.len() >= 7 {
        assert(d[1] == d.take(7)[1]);
        assert(d.take(7) != "sha256:"@) by {
            assert("sha256:"@[1] == 'h');
        }
    }
    lemma_trim_fixed(d);
    assert(digest_body(d) == d);
    assert(d.map_values(|c: char| ascii_lower(c)) =~= d);
}

/// Where a scoped package's release metadata lives: `Err` for a name that
/// is not `@scope/name`.
pub open spec fn release_metadata_location(registry: Seq<char>, name: Seq<char>, version: Seq<char>) -> Result<Seq<char>, Seq<char>> {
    if name.len() > 0 && name[0] == '@' && crate::islands::find_char(name, '/', 1) is Some {
        let k = crate::islands::find_char(name, '/', 1)->0;
        Ok(crate::releases::strip_suffixes(registry, seq!['/']) + "/api/scoped-packages/"@
            + name.subrange(1, k) + seq!['/'] + name.skip(k + 1) + seq!['/'] + version)
    } else {
        Err("invalid scoped package name: "@ + name)
    }
}

pub fn release_metadata_url(registry: &str, name: &str, version: &str) -> (r: Result<String, String>)
    ensures
        match release_metadata_location(registry@, name@, version@) {
            Ok(u) => r matches Ok(s) && s@ == u,
            Err(e) => r matches Err(m) && m@ == e,
        },
{
    let v = chars_of(name);
    let vl = v.len();
    let slash = if vl > 0 && v[0] == '@' {
        crate::islands::find_char_from(&v, '/', 1)
    } else {
        None
    };
    match slash {
        None => {
            let mut e = owned("invalid scoped package name: ");
            e.append(name);
            Err(e)
        },
        Some(k) => {
            let scope = crate::islands::copy_span(&v, 1, k);
            let package = crate::islands::copy_span(&v, k + 1, vl);
            let mut out = crate::releases::trim_end_matches(registry, "/");
            out.append("/api/scoped-packages/");
            crate::islands::append_chars(&mut out, &scope);
            crate::text::string_push(&mut out, '/');
            crate::islands::append_chars(&mut out, &package);
            crate::text::string_push(&mut out, '/');
            out.append(version);
            proof {
                reveal_strlit("/");
                assert("/"@ =~= seq!['/']);
                assert(package@ =~= name@.skip(k + 1));
            }
            Ok(out)
        },
    }
}

} // verus!
