//! `deka.lock` entries as the installer reads them, and what an entry pins
//! for integrity verification.

use vstd::prelude::*;
use crate::install_rules::{locked_version, pinned_version};
use crate::integrity::LockedPackage;
use crate::text::owned;

verus! {

/// One `deka.lock` package entry: its descriptor, its resolved source, and
/// the `hash` texts under its metadata's `moduleGraph` and `fsGraph`
/// objects (`None` where the metadata carries no such string).
pub struct LockEntry {
    pub descriptor: String,
    pub resolved: String,
    pub module_graph_hash: Option<String>,
    pub fs_graph_hash: Option<String>,
}

/// A metadata hash counts only when it is present and not empty.
pub open spec fn usable_hash(h: Option<String>) -> Option<Seq<char>> {
    match h {
        Some(s) => if s@.len() > 0 {
            Some(s@)
        } else {
            None
        },
        None => None,
    }
}

/// The metadata hash, when it is usable.
pub fn metadata_hash(h: &Option<String>) -> (r: Option<String>)
    ensures
        match usable_hash(*h) {
            Some(v) => r matches Some(s) && s@ == v,
            None => r is None,
        },
{
    match h {
        Some(s) => if s.as_str().is_empty() {
            None
        } else {
            Some(s.clone())
        },
        None => None,
    }
}

/// The entry the lock keeps under `name`: the first one from position `i`.
pub open spec fn entry_for(entries: Seq<(String, LockEntry)>, name: Seq<char>, i: int) -> Option<LockEntry>
    decreases entries.len() - i,
{
    if i < 0 || i >= entries.len() {
        None
    } else if entries[i].0@ == name {
        Some(entries[i].1)
    } else {
        entry_for(entries, name, i + 1)
    }
}

/// What the lock pins for `name` (version, resolved source, module-graph
/// and fs-graph hashes), `Ok(None)` when it has no entry for it, or which
/// pin is missing.
pub open spec fn lock_pin(entries: Seq<(String, LockEntry)>, name: Seq<char>) -> Result<
    Option<(Seq<char>, Seq<char>, Seq<char>, Seq<char>)>,
    Seq<char>,
> {
    match entry_for(entries, name, 0) {
        None => Ok(None),
        Some(e) => match pinned_version(name, e.descriptor@) {
            None => Err("locked package "@ + name + " is missing an exact version"@),
            Some(v) => match usable_hash(e.module_graph_hash) {
                None => Err("locked package "@ + name + " is missing moduleGraph hash"@),
                Some(m) => match usable_hash(e.fs_graph_hash) {
                    None => Err("locked package "@ + name + " is missing fsGraph hash"@),
                    Some(f) => Ok(Some((v, e.resolved@, m, f))),
                },
            },
        },
    }
}

fn missing_pin(name: &str, what: &str) -> (r: String)
    ensures
        r@ == "locked package "@ + name@ + what@,
{
    let mut e = owned("locked package ");
    e.append(name);
    e.append(what);
    e
}

/// What the lock (its entries in key order) pins for `name`.
pub fn locked_package(entries: &Vec<(String, LockEntry)>, name: &str) -> (r: Result<
    Option<LockedPackage>,
    String,
>)
    ensures
        match lock_pin(entries@, name@) {
            Ok(None) => r matches Ok(None),
            Ok(Some(p)) => r matches Ok(Some(l)) && l.version@ == p.0 && l.resolved@ == p.1
                && l.module_graph@ == p.2 && l.fs_graph@ == p.3,
            Err(m) => r matches Err(e) && e@ == m,
        },
{
    let wanted = owned(name);
    let mut i: usize = 0;
    while i < entries.len()
        invariant
            i <= entries@.len(),
            wanted@ == name@,
            entry_for(entries@, name@, i as int) == entry_for(entries@, name@, 0),
        decreases entries@.len() - i,
    {
        if entries[i].0 == wanted {
            let e = &entries[i].1;
            proof {
                reveal_strlit(" is missing an exact version");
                reveal_strlit(" is missing moduleGraph hash");
                reveal_strlit(" is missing fsGraph hash");
            }
            let version = match locked_version(name, e.descriptor.as_str()) {
                Some(v) => v,
                None => {
                    return Err(missing_pin(name, " is missing an exact version"));
                },
            };
            let module_graph = match metadata_hash(&e.module_graph_hash) {
                Some(h) => h,
                None => {
                    return Err(missing_pin(name, " is missing moduleGraph hash"));
                },
            };
            let fs_graph = match metadata_hash(&e.fs_graph_hash) {
                Some(h) => h,
                None => {
                    return Err(missing_pin(name, " is missing fsGraph hash"));
                },
            };
            return Ok(
                Some(
                    LockedPackage { version, resolved: e.resolved.clone(), module_graph, fs_graph },
                ),
            );
        }
        i = i + 1;
    }
    Ok(None)
}

} // verus!
