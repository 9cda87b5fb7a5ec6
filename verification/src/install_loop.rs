//! The install resolver's steps: what is done with the next queued package
//! (skipped as linked, refused, or fetched at a range with its lock pin),
//! and the lock metadata an installed package is recorded with: a fresh
//! document for a new package, the locked one kept as it is otherwise, with
//! a legacy `moduleGraph` hash healed except under `--locked`.

use vstd::prelude::*;
use crate::install_queue::{requirements_of, InstallQueue};
use crate::install_rules::{check_locked_entry, fetch_range};
use crate::integrity::{InstalledSource, LockedPackage, PackageIntegrity};
use crate::lockfile::{lock_pin, locked_package, LockEntry};
use crate::manifest::{
    at, at_exec, get, jfields, json_member, json_text, jview, jviews, lemma_jfields, lemma_jviews, member_pos, replace_value,
    text_value, JsonValue, JsonView,
};
use crate::project::same_chars;
use crate::text::{chars_of, listed, owned, string_views};
use crate::versions::{text_lt, text_lt_chars};

verus! {

// ---- The next queued package ------------------------------------------------

/// What the resolver does with the next queued package.
pub enum InstallAction {
    /// A linked package: its local tree provides it, nothing is fetched.
    Skip { name: String },
    /// Fetch `name` at `range`; `pin` is what the lock records for it.
    Fetch { name: String, range: String, pin: Option<LockedPackage> },
    /// Stop the install with this error.
    Fail { error: String },
    /// The queue is empty.
    Done,
}

/// An [`InstallAction`] as plain values.
pub enum InstallStep {
    Skip(Seq<char>),
    Fetch(Seq<char>, Seq<char>, Option<(Seq<char>, Seq<char>, Seq<char>, Seq<char>)>),
    Fail(Seq<char>),
    Done,
}

pub open spec fn pin_view(p: Option<LockedPackage>) -> Option<(Seq<char>, Seq<char>, Seq<char>, Seq<char>)> {
    match p {
        Some(l) => Some((l.version@, l.resolved@, l.module_graph@, l.fs_graph@)),
        None => None,
    }
}

pub open spec fn action_view(a: InstallAction) -> InstallStep {
    match a {
        InstallAction::Skip { name } => InstallStep::Skip(name@),
        InstallAction::Fetch { name, range, pin } => InstallStep::Fetch(name@, range@, pin_view(pin)),
        InstallAction::Fail { error } => InstallStep::Fail(error@),
        InstallAction::Done => InstallStep::Done,
    }
}

/// The step for the first queued package: a linked one is skipped; then
/// the lock's pin for it is read (a malformed entry stops the install);
/// under `--locked` a package the lock does not pin stops it too; else it is
/// fetched at the first of its requirements that names a range.
pub open spec fn next_step(
    pending: Seq<Seq<char>>,
    requested: Seq<(Seq<char>, Seq<(Seq<char>, Seq<char>)>)>,
    linked: Seq<Seq<char>>,
    locked: bool,
    lock: Seq<(String, LockEntry)>,
) -> InstallStep {
    if pending.len() == 0 {
        InstallStep::Done
    } else {
        let n = pending[0];
        if linked.contains(n) {
            InstallStep::Skip(n)
        } else {
            match lock_pin(lock, n) {
                Err(m) => InstallStep::Fail(m),
                Ok(p) => if locked && p is None {
                    InstallStep::Fail("--locked install requires '"@ + n + "' in deka.lock"@)
                } else {
                    InstallStep::Fetch(n, fetch_range(requirements_of(requested, n)), p)
                },
            }
        }
    }
}

/// Take the next package off the queue and decide what to do with it.
/// `linked` names the packages with a local link, `lock` holds the entries
/// of the existing `deka.lock`.
pub fn install_next(
    queue: &mut InstallQueue,
    linked: &Vec<String>,
    locked: bool,
    lock: &Vec<(String, LockEntry)>,
) -> (r: InstallAction)
    requires
        old(queue).wf(),
    ensures
        final(queue).wf(),
        final(queue).requested_view() == old(queue).requested_view(),
        final(queue).pending_view() == (if old(queue).pending_view().len() == 0 {
            old(queue).pending_view()
        } else {
            old(queue).pending_view().drop_first()
        }),
        action_view(r) == next_step(
            old(queue).pending_view(),
            old(queue).requested_view(),
            string_views(linked@),
            locked,
            lock@,
        ),
{
    let (name, range) = match queue.next() {
        None => {
            return InstallAction::Done;
        },
        Some(x) => x,
    };
    if listed(linked, &name) {
        return InstallAction::Skip { name };
    }
    let pin = match locked_package(lock, name.as_str()) {
        Err(e) => {
            return InstallAction::Fail { error: e };
        },
        Ok(p) => p,
    };
    match check_locked_entry(locked, name.as_str(), pin.is_some()) {
        Err(e) => {
            return InstallAction::Fail { error: e };
        },
        Ok(()) => {},
    }
    InstallAction::Fetch { name, range, pin }
}

// ---- Lock metadata --------------------------------------------------------------

/// A text that may be missing, as JSON: the string, or `null`.
pub open spec fn opt_text(o: Option<String>) -> JsonView {
    match o {
        Some(s) => JsonView::Str(s@),
        None => JsonView::Null,
    }
}

/// A graph hash record: `{"algo": "sha256", "hash": <hash>}`.
pub open spec fn graph_view(hash: Seq<char>) -> JsonView {
    JsonView::Object(seq![("algo"@, JsonView::Str("sha256"@)), ("hash"@, JsonView::Str(hash))])
}

pub open spec fn text_views(s: Seq<Seq<char>>) -> Seq<JsonView> {
    s.map_values(|t: Seq<char>| JsonView::Str(t))
}

/// The metadata a newly installed package is locked with: where it came
/// from, its dependencies' names, and its module-graph and file-tree
/// hashes; members in key order, as the JSON map keeps them.
pub open spec fn lock_metadata_view(
    source: InstalledSource,
    dependency_names: Seq<Seq<char>>,
    integrity: PackageIntegrity,
) -> JsonView {
    JsonView::Object(
        seq![
            ("dependencies"@, JsonView::Array(text_views(dependency_names))),
            ("fsGraph"@, graph_view(integrity.fs_graph@)),
            ("gitRef"@, opt_text(source.git_ref)),
            ("moduleGraph"@, graph_view(integrity.module_graph@)),
            ("repo"@, opt_text(source.repo)),
            ("source"@, JsonView::Str(source.source@)),
        ],
    )
}

fn text_json(s: &str) -> (r: JsonValue)
    ensures
        jview(r) == JsonView::Str(s@),
{
    JsonValue::Str(owned(s))
}

fn opt_text_json(o: &Option<String>) -> (r: JsonValue)
    ensures
        jview(r) == opt_text(*o),
{
    match o {
        Some(s) => JsonValue::Str(owned(s.as_str())),
        None => JsonValue::Null,
    }
}

fn graph_json(hash: &str) -> (r: JsonValue)
    ensures
        jview(r) == graph_view(hash@),
{
    let f = vec![(owned("algo"), text_json("sha256")), (owned("hash"), text_json(hash))];
    proof {
        lemma_jfields(f@);
        assert(jfields(f@) =~= seq![("algo"@, JsonView::Str("sha256"@)), ("hash"@, JsonView::Str(hash@))]);
    }
    JsonValue::Object(f)
}

/// The lock metadata of a newly installed package.
pub fn lock_metadata(source: &InstalledSource, dependency_names: &Vec<String>, integrity: &PackageIntegrity) -> (r:
    JsonValue)
    ensures
        jview(r) == lock_metadata_view(*source, string_views(dependency_names@), *integrity),
{
    let mut deps: Vec<JsonValue> = Vec::new();
    let mut i: usize = 0;
    while i < dependency_names.len()
        invariant
            i <= dependency_names@.len(),
            jviews(deps@) == text_views(string_views(dependency_names@.take(i as int))),
        decreases dependency_names@.len() - i,
    {
        let ghost before = deps@;
        deps.push(text_json(dependency_names[i].as_str()));
        proof {
            assert(deps@.drop_last() =~= before);
            assert(string_views(dependency_names@.take(i + 1)) =~= string_views(
                dependency_names@.take(i as int),
            ).push(dependency_names@[i as int]@));
            assert(jviews(deps@) =~= text_views(string_views(dependency_names@.take(i + 1))));
        }
        i = i + 1;
    }
    proof {
        assert(dependency_names@.take(dependency_names@.len() as int) =~= dependency_names@);
    }
    let f = vec![
        (owned("dependencies"), JsonValue::Array(deps)),
        (owned("fsGraph"), graph_json(integrity.fs_graph.as_str())),
        (owned("gitRef"), opt_text_json(&source.git_ref)),
        (owned("moduleGraph"), graph_json(integrity.module_graph.as_str())),
        (owned("repo"), opt_text_json(&source.repo)),
        (owned("source"), text_json(source.source.as_str())),
    ];
    proof {
        lemma_jfields(f@);
        let want = seq![
            ("dependencies"@, JsonView::Array(text_views(string_views(dependency_names@)))),
            ("fsGraph"@, graph_view(integrity.fs_graph@)),
            ("gitRef"@, opt_text(source.git_ref)),
            ("moduleGraph"@, graph_view(integrity.module_graph@)),
            ("repo"@, opt_text(source.repo)),
            ("source"@, JsonView::Str(source.source@)),
        ];
        assert(jfields(f@) =~= want);
    }
    JsonValue::Object(f)
}

/// An object's members with `key` set to `v`: an existing member is
/// replaced in place, a new one goes before the first key that does not
/// sort below it (the members being in key order, as the JSON map keeps
/// them).
pub open spec fn put_field(f: Seq<(Seq<char>, JsonView)>, key: Seq<char>, v: JsonView) -> Seq<
    (Seq<char>, JsonView),
>
    decreases f.len(),
{
    if f.len() == 0 {
        seq![(key, v)]
    } else if f[0].0 == key {
        seq![(key, v)] + f.drop_first()
    } else if text_lt(f[0].0, key) {
        seq![f[0]] + put_field(f.drop_first(), key, v)
    } else {
        seq![(key, v)] + f
    }
}

fn put_member(m: Vec<(String, JsonValue)>, key: &str, v: JsonValue) -> (r: Vec<(String, JsonValue)>)
    ensures
        jfields(r@) == put_field(jfields(m@), key@, jview(v)),
{
    let ghost ff = jfields(m@);
    let ghost vv = jview(v);
    proof {
        lemma_jfields(m@);
        assert(ff.skip(0) =~= ff);
        assert(ff.take(0) + put_field(ff.skip(0), key@, vv) =~= put_field(ff, key@, vv));
    }
    let k = chars_of(key);
    let mut p: usize = 0;
    while p < m.len() && !same_chars(&chars_of(m[p].0.as_str()), &k) && text_lt_chars(
        &chars_of(m[p].0.as_str()),
        &k,
    )
        invariant
            p <= m@.len(),
            k@ == key@,
            ff == jfields(m@),
            ff.len() == m@.len(),
            forall|i: int| 0 <= i < m@.len() ==> #[trigger] ff[i] == (m@[i].0@, jview(m@[i].1)),
            put_field(ff, key@, vv) == ff.take(p as int) + put_field(ff.skip(p as int), key@, vv),
        decreases m@.len() - p,
    {
        proof {
            let tail = ff.skip(p as int);
            assert(tail[0] == ff[p as int]);
            assert(tail.drop_first() =~= ff.skip(p + 1));
            assert(ff.take(p + 1) =~= ff.take(p as int).push(ff[p as int]));
            assert(ff.take(p as int) + (seq![ff[p as int]] + put_field(ff.skip(p + 1), key@, vv))
                =~= ff.take(p + 1) + put_field(ff.skip(p + 1), key@, vv));
        }
        p = p + 1;
    }
    if p < m.len() && same_chars(&chars_of(m[p].0.as_str()), &k) {
        proof {
            let tail = ff.skip(p as int);
            assert(tail[0].0 == key@);
            assert(tail.drop_first() =~= ff.skip(p + 1));
            assert(ff.take(p as int) + (seq![(key@, vv)] + ff.skip(p + 1)) =~= ff.update(
                p as int,
                (m@[p as int].0@, vv),
            ));
        }
        replace_value(m, p, v)
    } else {
        let mut m = m;
        let ghost o = m@;
        m.insert(p, (owned(key), v));
        proof {
            if p < o.len() {
                let tail = ff.skip(p as int);
                assert(tail[0] == ff[p as int]);
                assert(tail[0].0 != key@);
                assert(!text_lt(tail[0].0, key@));
            } else {
                assert(ff.skip(p as int) =~= Seq::<(Seq<char>, JsonView)>::empty());
            }
            lemma_jfields(m@);
            assert(jfields(m@) =~= ff.take(p as int) + (seq![(key@, vv)] + ff.skip(p as int)));
        }
        m
    }
}

/// A document with member `key` set to `v` when it is an object; any other
/// document unchanged.
pub open spec fn put_member_view(j: JsonView, key: Seq<char>, v: JsonView) -> JsonView {
    match j {
        JsonView::Object(f) => JsonView::Object(put_field(f, key, v)),
        _ => j,
    }
}

/// Locked metadata, with its `moduleGraph` record replaced by a fresh one
/// for `module_graph` when the legacy hash is healed.
pub open spec fn healed_view(metadata: JsonView, module_graph: Seq<char>, heal: bool) -> JsonView {
    if heal {
        put_member_view(metadata, "moduleGraph"@, graph_view(module_graph))
    } else {
        metadata
    }
}

/// A locked package's metadata as it is locked again: unchanged, or with
/// its legacy `moduleGraph` hash healed.
pub fn healed_metadata(metadata: JsonValue, module_graph: &str, heal: bool) -> (r: JsonValue)
    ensures
        jview(r) == healed_view(jview(metadata), module_graph@, heal),
{
    if !heal {
        return metadata;
    }
    match metadata {
        JsonValue::Object(m) => {
            let g = graph_json(module_graph);
            JsonValue::Object(put_member(m, "moduleGraph", g))
        },
        other => other,
    }
}

/// The metadata an installed package is locked with: a locked package
/// keeps its locked metadata (healed where `heal` says so); a new one gets
/// fresh metadata.
pub open spec fn package_metadata_view(
    existing: Option<JsonView>,
    source: InstalledSource,
    dependency_names: Seq<Seq<char>>,
    integrity: PackageIntegrity,
    heal: bool,
) -> JsonView {
    match existing {
        Some(m) => healed_view(m, integrity.module_graph@, heal),
        None => lock_metadata_view(source, dependency_names, integrity),
    }
}

pub fn package_metadata(
    existing: Option<JsonValue>,
    source: &InstalledSource,
    dependency_names: &Vec<String>,
    integrity: &PackageIntegrity,
    heal: bool,
) -> (r: JsonValue)
    ensures
        jview(r) == package_metadata_view(
            match existing {
                Some(m) => Some(jview(m)),
                None => None,
            },
            *source,
            string_views(dependency_names@),
            *integrity,
            heal,
        ),
{
    match existing {
        Some(m) => healed_metadata(m, integrity.module_graph.as_str(), heal),
        None => lock_metadata(source, dependency_names, integrity),
    }
}

/// The lock entry's descriptor and resolved source for an installed
/// package: `name@version` and `source:name`.
pub fn installed_entry(name: &str, version: &str, source: &str) -> (r: (String, String))
    ensures
        r.0@ == name@ + "@"@ + version@,
        r.1@ == source@ + ":"@ + name@,
{
    let mut d = owned(name);
    d.append("@");
    d.append(version);
    let mut s = owned(source);
    s.append(":");
    s.append(name);
    (d, s)
}

// ---- A fetched package ---------------------------------------------------------

/// What fetching a package into its staging tree found out.
pub struct FetchedPackage {
    /// Where it came from, at which version.
    pub source: InstalledSource,
    /// The staged tree's hashes.
    pub integrity: PackageIntegrity,
    /// Why the staged tree is refused for vendoring its own dependency tree, if it is.
    pub vendored_error: Option<String>,
    /// Whether it holds any `.ds`/`.dsx` source.
    pub has_sources: bool,
    /// The normalized names of the dependencies it declares.
    pub dependency_names: Vec<String>,
}

/// What a fetched package is locked as: `(descriptor, resolved, metadata)`,
/// or why it is refused. In order: each recorded requirement must admit the
/// fetched version; the tree must not vendor dependencies and must hold
/// sources; a locked package must match its lock pin. Its metadata is the
/// locked one (with a legacy `moduleGraph` hash healed, but never under
/// `--locked`) or fresh metadata for a new package.
pub open spec fn settle_outcome(
    requested: Seq<(Seq<char>, Seq<(Seq<char>, Seq<char>)>)>,
    name: Seq<char>,
    locked: bool,
    pin: Option<LockedPackage>,
    existing: Option<JsonView>,
    f: FetchedPackage,
) -> Result<(Seq<char>, Seq<char>, JsonView), Seq<char>> {
    let version = f.source.version@;
    let reqs = requirements_of(requested, name);
    match crate::install_rules::first_failed(reqs, version, 0) {
        Some(i) => Err(name + seq![' '] + version + " does not satisfy requirement "@ + reqs[i].0
            + " from "@ + reqs[i].1),
        None => match f.vendored_error {
            Some(e) => Err(e@),
            None => if !f.has_sources {
                Err("package "@ + name
                    + " cannot be installed: no .ds/.dsx sources (the package contributes no resolvable modules)"@)
            } else {
                let verdict = match pin {
                    Some(p) => crate::integrity::integrity_verdict(name, p, f.source, f.integrity),
                    None => Ok(false),
                };
                match verdict {
                    Err(e) => Err(e),
                    Ok(heal) => Ok(
                        (
                            name + "@"@ + version,
                            f.source.source@ + ":"@ + name,
                            package_metadata_view(
                                if pin is Some { existing } else { None },
                                f.source,
                                string_views(f.dependency_names@),
                                f.integrity,
                                heal && !locked,
                            ),
                        ),
                    ),
                }
            },
        },
    }
}

/// Under `--locked` a locked package's lock metadata comes out exactly as
/// it went in: its legacy `moduleGraph` hash is not healed, and the lock
/// entry is kept byte for byte.
pub proof fn law_locked_install_keeps_lock_metadata(
    requested: Seq<(Seq<char>, Seq<(Seq<char>, Seq<char>)>)>,
    name: Seq<char>,
    pin: Option<LockedPackage>,
    existing: JsonView,
    fetched: FetchedPackage,
)
    requires
        pin is Some,
    ensures
        settle_outcome(requested, name, true, pin, Some(existing), fetched) matches Ok((_, _, m)) ==> m
            == existing,
{
}

/// A package locked as installed.
pub struct InstalledRecord {
    pub descriptor: String,
    pub resolved: String,
    pub metadata: JsonValue,
}

/// Decide what a fetched package is locked as (see [`settle_outcome`]).
/// `existing` is the metadata the lock records for it.
pub fn settle_fetch(
    queue: &InstallQueue,
    name: &String,
    locked: bool,
    pin: &Option<LockedPackage>,
    existing: Option<JsonValue>,
    fetched: &FetchedPackage,
) -> (r: Result<InstalledRecord, String>)
    requires
        queue.wf(),
        pin is Some ==> existing is Some,
    ensures
        match settle_outcome(
            queue.requested_view(),
            name@,
            locked,
            *pin,
            match existing {
                Some(m) => Some(jview(m)),
                None => None,
            },
            *fetched,
        ) {
            Ok((d, res, m)) => r matches Ok(rec) && rec.descriptor@ == d && rec.resolved@ == res
                && jview(rec.metadata) == m,
            Err(e) => r matches Err(x) && x@ == e,
        },
{
    let version = fetched.source.version.as_str();
    match queue.first_unsatisfied(name, version) {
        Some(u) => {
            return Err(crate::install_rules::conflict_message(name.as_str(), version, &u));
        },
        None => {},
    }
    match &fetched.vendored_error {
        Some(e) => {
            return Err(owned(e.as_str()));
        },
        None => {},
    }
    match crate::install_rules::reject_source_less_package(fetched.has_sources, name.as_str()) {
        Err(e) => {
            return Err(e);
        },
        Ok(()) => {},
    }
    let heal = match pin {
        Some(p) => match crate::integrity::verify_locked_integrity(
            name.as_str(),
            p,
            &fetched.source,
            &fetched.integrity,
        ) {
            Ok(h) => h,
            Err(e) => {
                return Err(e);
            },
        },
        None => false,
    };
    let heal = crate::install_rules::heals_legacy_module_graph(heal, locked);
    let existing = match pin {
        Some(_) => existing,
        None => None,
    };
    let metadata = package_metadata(
        existing,
        &fetched.source,
        &fetched.dependency_names,
        &fetched.integrity,
        heal,
    );
    let (descriptor, resolved) = installed_entry(name.as_str(), version, fetched.source.source.as_str());
    Ok(InstalledRecord { descriptor, resolved, metadata })
}

// ---- Reading the existing lock ------------------------------------------------

/// The `hash` text of a document's `key` record (`metadata[key].hash`).
pub open spec fn graph_hash(metadata: JsonView, key: Seq<char>) -> Option<Seq<char>> {
    match get(metadata, key) {
        Some(g) => text_value(get(g, "hash"@)),
        None => None,
    }
}

fn graph_hash_exec(metadata: &JsonValue, key: &str) -> (r: Option<String>)
    ensures
        match graph_hash(jview(*metadata), key@) {
            Some(h) => r matches Some(s) && s@ == h,
            None => r is None,
        },
{
    match json_member(metadata, key) {
        Some(g) => json_text(json_member(g, "hash")),
        None => None,
    }
}

/// A lock entry as the installer reads it, from its descriptor, resolved
/// source and metadata document.
pub fn lock_entry_of(descriptor: &str, resolved: &str, metadata: &JsonValue) -> (r: LockEntry)
    ensures
        r.descriptor@ == descriptor@,
        r.resolved@ == resolved@,
        match graph_hash(jview(*metadata), "moduleGraph"@) {
            Some(h) => r.module_graph_hash matches Some(s) && s@ == h,
            None => r.module_graph_hash is None,
        },
        match graph_hash(jview(*metadata), "fsGraph"@) {
            Some(h) => r.fs_graph_hash matches Some(s) && s@ == h,
            None => r.fs_graph_hash is None,
        },
{
    LockEntry {
        descriptor: owned(descriptor),
        resolved: owned(resolved),
        module_graph_hash: graph_hash_exec(metadata, "moduleGraph"),
        fs_graph_hash: graph_hash_exec(metadata, "fsGraph"),
    }
}

/// The metadata document the lock records for `name`
/// (`packages[name][2]`).
pub open spec fn locked_metadata_view(doc: JsonView, name: Seq<char>) -> Option<JsonView> {
    match get(doc, "packages"@) {
        Some(p) => match get(p, name) {
            Some(e) => at(e, 2),
            None => None,
        },
        None => None,
    }
}

fn take_member(j: JsonValue, key: &str) -> (r: Option<JsonValue>)
    ensures
        match get(jview(j), key@) {
            Some(v) => r matches Some(x) && jview(x) == v,
            None => r is None,
        },
{
    match j {
        JsonValue::Object(m) => {
            proof {
                lemma_jfields(m@);
            }
            match member_pos(&m, key) {
                Some(i) => {
                    let mut m = m;
                    let (_, v) = m.remove(i);
                    Some(v)
                },
                None => None,
            }
        },
        _ => None,
    }
}

fn take_element(j: JsonValue, i: usize) -> (r: Option<JsonValue>)
    ensures
        match at(jview(j), i as int) {
            Some(v) => r matches Some(x) && jview(x) == v,
            None => r is None,
        },
{
    match j {
        JsonValue::Array(a) => {
            proof {
                lemma_jviews(a@);
            }
            if i < a.len() {
                let mut a = a;
                Some(a.remove(i))
            } else {
                None
            }
        },
        _ => None,
    }
}

/// The metadata a lock document records for `name`, taken out of it.
pub fn locked_metadata(doc: JsonValue, name: &str) -> (r: Option<JsonValue>)
    ensures
        match locked_metadata_view(jview(doc), name@) {
            Some(v) => r matches Some(x) && jview(x) == v,
            None => r is None,
        },
{
    match take_member(doc, "packages") {
        Some(p) => match take_member(p, name) {
            Some(e) => take_element(e, 2),
            None => None,
        },
        None => None,
    }
}

/// A lock entry as plain values.
pub open spec fn entry_view(e: LockEntry) -> (Seq<char>, Seq<char>, Option<Seq<char>>, Option<Seq<char>>) {
    (
        e.descriptor@,
        e.resolved@,
        match e.module_graph_hash {
            Some(h) => Some(h@),
            None => None,
        },
        match e.fs_graph_hash {
            Some(h) => Some(h@),
            None => None,
        },
    )
}

pub open spec fn entries_view(s: Seq<(String, LockEntry)>) -> Seq<
    (Seq<char>, (Seq<char>, Seq<char>, Option<Seq<char>>, Option<Seq<char>>)),
> {
    s.map_values(|e: (String, LockEntry)| (e.0@, entry_view(e.1)))
}

pub open spec fn record_hash(metadata: Option<JsonView>, key: Seq<char>) -> Option<Seq<char>> {
    match metadata {
        Some(m) => graph_hash(m, key),
        None => None,
    }
}

/// The lock's package records `[descriptor, resolved, metadata, ...]` as
/// entries, in the document's order; a record whose first two elements are
/// not strings is passed over.
pub open spec fn records_of(f: Seq<(Seq<char>, JsonView)>) -> Seq<
    (Seq<char>, (Seq<char>, Seq<char>, Option<Seq<char>>, Option<Seq<char>>)),
>
    decreases f.len(),
{
    if f.len() == 0 {
        Seq::empty()
    } else {
        let rest = records_of(f.drop_last());
        let e = f.last().1;
        match (text_value(at(e, 0)), text_value(at(e, 1))) {
            (Some(d), Some(r)) => rest.push(
                (
                    f.last().0,
                    (d, r, record_hash(at(e, 2), "moduleGraph"@), record_hash(at(e, 2), "fsGraph"@)),
                ),
            ),
            _ => rest,
        }
    }
}

/// The entries of a lock document's `packages` object.
pub open spec fn lock_records(doc: JsonView) -> Seq<
    (Seq<char>, (Seq<char>, Seq<char>, Option<Seq<char>>, Option<Seq<char>>)),
> {
    match get(doc, "packages"@) {
        Some(JsonView::Object(f)) => records_of(f),
        _ => Seq::empty(),
    }
}

fn record_hash_exec(metadata: Option<&JsonValue>, key: &str) -> (r: Option<String>)
    ensures
        match record_hash(
            match metadata {
                Some(m) => Some(jview(*m)),
                None => None,
            },
            key@,
        ) {
            Some(h) => r matches Some(s) && s@ == h,
            None => r is None,
        },
{
    match metadata {
        Some(m) => graph_hash_exec(m, key),
        None => None,
    }
}

/// The package entries of a lock document, as the installer reads them.
pub fn lock_entries(doc: &JsonValue) -> (r: Vec<(String, LockEntry)>)
    ensures
        entries_view(r@) == lock_records(jview(*doc)),
{
    let mut out: Vec<(String, LockEntry)> = Vec::new();
    let packages = match json_member(doc, "packages") {
        Some(p) => p,
        None => {
            proof {
                assert(entries_view(out@) =~= lock_records(jview(*doc)));
            }
            return out;
        },
    };
    match packages {
        JsonValue::Object(f) => {
            proof {
                lemma_jfields(f@);
                assert(entries_view(out@) =~= records_of(jfields(f@).take(0)));
            }
            let mut i: usize = 0;
            while i < f.len()
                invariant
                    i <= f@.len(),
                    jfields(f@).len() == f@.len(),
                    forall|m: int| 0 <= m < f@.len() ==> #[trigger] jfields(f@)[m] == (f@[m].0@, jview(f@[m].1)),
                    entries_view(out@) == records_of(jfields(f@).take(i as int)),
                decreases f@.len() - i,
            {
                let ghost before = out@;
                let ghost fv = jfields(f@).take(i + 1);
                proof {
                    assert(fv.drop_last() =~= jfields(f@).take(i as int));
                    assert(fv.last() == (f@[i as int].0@, jview(f@[i as int].1)));
                }
                let e = &f[i].1;
                let d = json_text(at_exec(e, 0));
                let r = json_text(at_exec(e, 1));
                match (d, r) {
                    (Some(d), Some(r)) => {
                        let meta = at_exec(e, 2);
                        let entry = LockEntry {
                            descriptor: d,
                            resolved: r,
                            module_graph_hash: record_hash_exec(meta, "moduleGraph"),
                            fs_graph_hash: record_hash_exec(meta, "fsGraph"),
                        };
                        out.push((owned(f[i].0.as_str()), entry));
                        proof {
                            assert(entries_view(out@) =~= entries_view(before).push(
                                (out@.last().0@, entry_view(out@.last().1)),
                            ));
                        }
                    },
                    _ => {},
                }
                i = i + 1;
            }
            proof {
                assert(jfields(f@).take(f@.len() as int) =~= jfields(f@));
            }
            out
        },
        _ => out,
    }
}

} // verus!
