use deka_pm::install_loop::{
    healed_metadata, install_next, lock_entries, lock_entry_of, lock_metadata, locked_metadata,
    package_metadata, settle_fetch, FetchedPackage, InstallAction,
};
use deka_pm::install_queue::InstallQueue;
use deka_pm::integrity::{InstalledSource, LockedPackage, PackageIntegrity, EMPTY_MODULE_GRAPH_HASH};
use deka_pm::lockfile::LockEntry;
use deka_pm::manifest::{json_document, json_member, json_text, JsonValue};

fn s(v: &str) -> String {
    v.to_string()
}

fn entry(descriptor: &str, module_graph: &str, fs_graph: &str) -> LockEntry {
    LockEntry {
        descriptor: s(descriptor),
        resolved: s("deka.gg:x"),
        module_graph_hash: Some(s(module_graph)),
        fs_graph_hash: Some(s(fs_graph)),
    }
}

fn source(version: &str) -> InstalledSource {
    InstalledSource {
        version: s(version),
        repo: None,
        git_ref: Some(s("v1")),
        source: s("deka.gg"),
        requires_registry_digest: true,
    }
}

fn integrity(module_graph: &str, fs_graph: &str) -> PackageIntegrity {
    PackageIntegrity { module_graph: s(module_graph), fs_graph: s(fs_graph) }
}

fn fetched(version: &str, module_graph: &str) -> FetchedPackage {
    FetchedPackage {
        source: source(version),
        integrity: integrity(module_graph, "fs"),
        vendored_error: None,
        has_sources: true,
        dependency_names: vec![s("@deka/core")],
    }
}

fn text_at(doc: &JsonValue, outer: &str, inner: &str) -> Option<String> {
    json_text(json_member(json_member(doc, outer).unwrap(), inner))
}

fn queue_of(names: &[(&str, &str)]) -> InstallQueue {
    let mut q = InstallQueue::new();
    for (name, range) in names {
        q.enqueue(s(name), s(range), s("root"));
    }
    q
}

#[test]
fn linked_packages_are_skipped_and_others_fetched_in_order() {
    let mut q = queue_of(&[("@deka/a", "latest"), ("@deka/b", "^1.0.0")]);
    let linked = vec![s("@deka/a")];
    assert!(matches!(install_next(&mut q, &linked, false, &vec![]), InstallAction::Skip { name } if name == "@deka/a"));
    match install_next(&mut q, &linked, false, &vec![]) {
        InstallAction::Fetch { name, range, pin } => {
            assert_eq!(name, "@deka/b");
            assert_eq!(range, "^1.0.0");
            assert!(pin.is_none());
        }
        _ => panic!("expected Fetch"),
    }
    assert!(matches!(install_next(&mut q, &linked, false, &vec![]), InstallAction::Done));
}

#[test]
fn a_locked_install_needs_every_package_in_the_lock() {
    let mut q = queue_of(&[("@deka/b", "latest")]);
    match install_next(&mut q, &vec![], true, &vec![]) {
        InstallAction::Fail { error } => assert_eq!(error, "--locked install requires '@deka/b' in deka.lock"),
        _ => panic!("expected Fail"),
    }
    let lock = vec![(s("@deka/b"), entry("@deka/b@1.2.0", "mg", "fs"))];
    let mut q = queue_of(&[("@deka/b", "latest")]);
    match install_next(&mut q, &vec![], true, &lock) {
        InstallAction::Fetch { pin: Some(p), .. } => {
            assert_eq!(p.version, "1.2.0");
            assert_eq!(p.module_graph, "mg");
        }
        _ => panic!("expected a pinned Fetch"),
    }
    let broken = vec![(s("@deka/b"), entry("@deka/b@1.2.0", "", "fs"))];
    let mut q = queue_of(&[("@deka/b", "latest")]);
    match install_next(&mut q, &vec![], false, &broken) {
        InstallAction::Fail { error } => assert_eq!(error, "locked package @deka/b is missing moduleGraph hash"),
        _ => panic!("expected Fail"),
    }
}

#[test]
fn new_packages_get_fresh_lock_metadata() {
    let doc = lock_metadata(&source("1.0.0"), &vec![s("@deka/core")], &integrity("mg", "fsg"));
    match &doc {
        JsonValue::Object(fields) => {
            let keys: Vec<&str> = fields.iter().map(|(k, _)| k.as_str()).collect();
            assert_eq!(keys, vec!["dependencies", "fsGraph", "gitRef", "moduleGraph", "repo", "source"]);
        }
        _ => panic!("expected an object"),
    }
    assert_eq!(text_at(&doc, "moduleGraph", "hash"), Some(s("mg")));
    assert_eq!(text_at(&doc, "fsGraph", "algo"), Some(s("sha256")));
    assert!(matches!(json_member(&doc, "repo"), Some(JsonValue::Null)));
    assert_eq!(json_text(json_member(&doc, "gitRef")), Some(s("v1")));
}

#[test]
fn healing_replaces_only_the_module_graph() {
    let locked = json_document(r#"{"fsGraph":{"hash":"fs"},"moduleGraph":{"hash":"old"},"repo":null}"#).unwrap();
    let healed = healed_metadata(locked, "new", true);
    assert_eq!(text_at(&healed, "moduleGraph", "hash"), Some(s("new")));
    assert_eq!(text_at(&healed, "moduleGraph", "algo"), Some(s("sha256")));
    assert_eq!(text_at(&healed, "fsGraph", "hash"), Some(s("fs")));
    let kept = healed_metadata(json_document(r#"{"moduleGraph":{"hash":"old"}}"#).unwrap(), "new", false);
    assert_eq!(text_at(&kept, "moduleGraph", "hash"), Some(s("old")));
    let added = healed_metadata(json_document(r#"{"a":1,"z":2}"#).unwrap(), "new", true);
    match &added {
        JsonValue::Object(fields) => {
            let keys: Vec<&str> = fields.iter().map(|(k, _)| k.as_str()).collect();
            assert_eq!(keys, vec!["a", "moduleGraph", "z"]);
        }
        _ => panic!("expected an object"),
    }
    let existing = json_document(r#"{"moduleGraph":{"hash":"old"}}"#).unwrap();
    let kept = package_metadata(Some(existing), &source("1.0.0"), &vec![], &integrity("mg", "fs"), false);
    assert_eq!(text_at(&kept, "moduleGraph", "hash"), Some(s("old")));
}

#[test]
fn settling_checks_requirements_and_the_lock() {
    let q = queue_of(&[("@deka/b", "2.0.0")]);
    let name = s("@deka/b");
    assert_eq!(
        settle_fetch(&q, &name, false, &None, None, &fetched("1.0.0", "mg")).err(),
        Some(s("@deka/b 1.0.0 does not satisfy requirement 2.0.0 from root"))
    );
    let q = queue_of(&[("@deka/b", "latest")]);
    let mut no_sources = fetched("1.0.0", "mg");
    no_sources.has_sources = false;
    assert_eq!(
        settle_fetch(&q, &name, false, &None, None, &no_sources).err(),
        Some(s("package @deka/b cannot be installed: no .ds/.dsx sources (the package contributes no resolvable modules)"))
    );
    let record = settle_fetch(&q, &name, false, &None, None, &fetched("1.0.0", "mg")).unwrap();
    assert_eq!(record.descriptor, "@deka/b@1.0.0");
    assert_eq!(record.resolved, "deka.gg:@deka/b");
    assert_eq!(text_at(&record.metadata, "moduleGraph", "hash"), Some(s("mg")));
}

#[test]
fn a_legacy_module_graph_heals_except_under_locked() {
    let q = queue_of(&[("@deka/b", "latest")]);
    let name = s("@deka/b");
    let pin = Some(LockedPackage {
        version: s("1.0.0"),
        resolved: s("deka.gg:@deka/b"),
        module_graph: s(EMPTY_MODULE_GRAPH_HASH),
        fs_graph: s("fs"),
    });
    let metadata_text = format!(r#"{{"fsGraph":{{"hash":"fs"}},"moduleGraph":{{"hash":"{EMPTY_MODULE_GRAPH_HASH}"}}}}"#);
    let healed = settle_fetch(&q, &name, false, &pin, json_document(&metadata_text).ok(), &fetched("1.0.0", "fresh")).unwrap();
    assert_eq!(text_at(&healed.metadata, "moduleGraph", "hash"), Some(s("fresh")));
    let kept = settle_fetch(&q, &name, true, &pin, json_document(&metadata_text).ok(), &fetched("1.0.0", "fresh")).unwrap();
    assert_eq!(text_at(&kept.metadata, "moduleGraph", "hash"), Some(s(EMPTY_MODULE_GRAPH_HASH)));
    assert!(settle_fetch(&q, &name, true, &pin, json_document(&metadata_text).ok(), &fetched("2.0.0", "fresh")).is_err());
}

#[test]
fn lock_documents_are_read_into_entries() {
    let lock = r#"{"lockfileVersion":1,"packages":{
        "@deka/a":["@deka/a@1.0.0","deka.gg:@deka/a",{"moduleGraph":{"hash":"ma"},"fsGraph":{"hash":"fa"}},""],
        "@deka/b":["@deka/b@2.0.0","deka.gg:@deka/b",{"moduleGraph":{}},""],
        "bad":[1,2]}}"#;
    let doc = json_document(lock).unwrap();
    let entries = lock_entries(&doc);
    assert_eq!(entries.len(), 2);
    assert_eq!(entries[0].0, "@deka/a");
    assert_eq!(entries[0].1.module_graph_hash, Some(s("ma")));
    assert_eq!(entries[0].1.fs_graph_hash, Some(s("fa")));
    assert_eq!(entries[1].1.module_graph_hash, None);
    assert_eq!(entries[1].1.fs_graph_hash, None);
    let meta = locked_metadata(json_document(lock).unwrap(), "@deka/a").unwrap();
    let e = lock_entry_of("@deka/a@1.0.0", "deka.gg:@deka/a", &meta);
    assert_eq!(e.module_graph_hash, Some(s("ma")));
    assert!(locked_metadata(json_document(lock).unwrap(), "@deka/zz").is_none());
}
