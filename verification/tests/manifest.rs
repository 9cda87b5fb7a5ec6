use deka_pm::manifest::{
    linked_package_name, locked_descriptors, manifest_dependency_specs, repin_staged_lock, unlink_entry,
};

fn s(v: &str) -> String {
    v.to_string()
}

#[test]
fn linked_package_name_is_the_trimmed_scoped_manifest_name() {
    assert_eq!(
        linked_package_name(r#"{"name":" @deka/example ","version":"0.1.0"}"#, "/p/deka.json"),
        Ok(s("@deka/example"))
    );
}

#[test]
fn link_rejects_unscoped_or_missing_names_and_bad_manifests() {
    assert_eq!(
        linked_package_name(r#"{"name":"example"}"#, "/p/deka.json"),
        Err(s("linked package name must use @scope/name format: `example`"))
    );
    assert_eq!(
        linked_package_name(r#"{"name":"   "}"#, "/p/deka.json"),
        Err(s("linked package deka.json must contain a non-empty `name`"))
    );
    assert_eq!(
        linked_package_name(r#"{"name":3}"#, "/p/deka.json"),
        Err(s("linked package deka.json must contain a non-empty `name`"))
    );
    assert_eq!(
        linked_package_name("{not json", "/p/deka.json"),
        Err(s("linked package manifest is invalid: /p/deka.json"))
    );
}

#[test]
fn unlink_removes_only_the_named_link() {
    let links = vec![(s("@deka/a"), s("/src/a")), (s("@deka/b"), s("/src/b"))];
    assert_eq!(
        unlink_entry(&links, "a", Some("@deka/a")),
        Ok((vec![(s("@deka/b"), s("/src/b"))], s("/src/a")))
    );
    assert_eq!(
        unlink_entry(&links, "@deka/c", Some("@deka/c")),
        Err(s("no local link registered for @deka/c"))
    );
    assert_eq!(
        unlink_entry(&links, "x y", None),
        Err(s("invalid linked package name `x y` (expected @scope/name)"))
    );
}

#[test]
fn lock_descriptors_take_each_entrys_first_string() {
    let lock = r#"{"lockfileVersion":1,"packages":{"@deka/a":["@deka/a@1.0.0","r",{}],"@deka/b":[3],"@deka/c":["0.2.0"]}}"#;
    assert_eq!(
        locked_descriptors(lock),
        vec![(s("@deka/a"), s("@deka/a@1.0.0")), (s("@deka/c"), s("0.2.0"))]
    );
    assert!(locked_descriptors("not json").is_empty());
    assert!(locked_descriptors(r#"{"packages":[]}"#).is_empty());
}

#[test]
fn manifest_dependencies_become_install_specs() {
    let manifest = r#"{"name":"app","dependencies":{"@deka/a":"^1.0.0","@deka/b":"latest","@deka/c":2}}"#;
    assert_eq!(
        manifest_dependency_specs(manifest, "/p/deka.json"),
        Ok(vec![s("@deka/a@^1.0.0"), s("@deka/b"), s("@deka/c")])
    );
    assert_eq!(manifest_dependency_specs(r#"{"name":"app"}"#, "/p/deka.json"), Ok(vec![]));
    assert_eq!(
        manifest_dependency_specs("{", "/p/deka.json"),
        Err(s("failed to parse /p/deka.json"))
    );
}

#[test]
fn staged_lock_is_repinned_after_the_real_tree_checks_out() {
    let lock = r#"{"lockfileVersion":1,"packages":{"@deka/a":["@deka/a@1.0.0","r",{"fsGraph":{"hash":"H1"},"moduleGraph":{"hash":""}}]}}"#;
    let pins = vec![(s("ds_modules"), s("@deka/a"), s("H1"), s("H2"))];
    let text = repin_staged_lock(lock, "/p/deka.lock", "[v] ", &pins).expect("repinned");
    let doc: serde_json::Value = serde_json::from_str(&text).expect("json");
    assert_eq!(doc["packages"]["@deka/a"][2]["fsGraph"]["hash"], "H2");
    assert_eq!(doc["packages"]["@deka/a"][0], "@deka/a@1.0.0");
    assert!(text.contains("\n  \""));
}

#[test]
fn staged_lock_refuses_a_tree_that_does_not_match_the_lock() {
    let lock = r#"{"packages":{"@deka/a":["@deka/a@1.0.0","r",{"fsGraph":{"hash":"H1"}}]}}"#;
    let pins = vec![(s("ds_modules"), s("@deka/a"), s("OTHER"), s("H2"))];
    assert_eq!(
        repin_staged_lock(lock, "/p/deka.lock", "[v] ", &pins),
        Err(s("[v] ❌ Integrity Mismatch\n\n    module '@deka/a' in ds_modules/ does not match deka.lock\n\n    = help: run `deka install` or `deka add @deka/a`. dsc does not fetch packages or write deka.lock."))
    );
    let missing = vec![(s("ds_modules"), s("@deka/b"), s("H1"), s("H2"))];
    assert!(repin_staged_lock(lock, "/p/deka.lock", "[v] ", &missing).is_err());
    assert!(repin_staged_lock("{", "/p/deka.lock", "[v] ", &pins)
        .unwrap_err()
        .starts_with("[v] failed to parse /p/deka.lock: "));
}
