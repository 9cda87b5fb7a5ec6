use deka_pm::grants::{
    catalog_kinds_for_package, derive_grant_table, plan_grant_table_write, same_table, GrantTable,
    GrantTablePlan, HostKind,
};
use deka_pm::lockfile::{locked_package, LockEntry};

fn s(text: &str) -> String {
    text.to_string()
}

/// The host catalog the grant tests run against: each kind and the package
/// identity that owns its grant.
fn host_catalog() -> Vec<HostKind> {
    [("fs", "@deka/fs"), ("crypto", "@deka/crypto"), ("net", "@deka/tcp"), ("tls", "@deka/tls"), ("process", "@deka/process")]
        .iter()
        .map(|(name, owner)| HostKind { name: s(name), grant_owner: s(owner) })
        .collect()
}

fn installed_fixture() -> Vec<(String, LockEntry)> {
    vec![
        (
            s("@deka/fs"),
            LockEntry {
                descriptor: s("@deka/fs@9.9.9-fixture"),
                resolved: s("deka.gg:@deka/fs"),
                module_graph_hash: Some(s("sha256:mod")),
                fs_graph_hash: Some(s("sha256:fsdigest")),
            },
        ),
        (
            s("@deka/json"),
            LockEntry {
                descriptor: s("@deka/json@1.0.0"),
                resolved: s("deka.gg:@deka/json"),
                module_graph_hash: None,
                fs_graph_hash: Some(s("sha256:jsondigest")),
            },
        ),
    ]
}

#[test]
fn catalog_kinds_follow_the_grant_owner_binding() {
    let catalog = host_catalog();
    assert_eq!(catalog_kinds_for_package(&catalog, "@deka/fs"), vec!["fs"]);
    assert_eq!(catalog_kinds_for_package(&catalog, "@deka/crypto"), vec!["crypto"]);
    assert_eq!(catalog_kinds_for_package(&catalog, "@deka/tcp"), vec!["net"]);
    assert_eq!(catalog_kinds_for_package(&catalog, "@deka/tls"), vec!["tls"]);
    assert!(catalog_kinds_for_package(&catalog, "@deka/json").is_empty());
    assert!(catalog_kinds_for_package(&catalog, "@user/evil").is_empty());
}

#[test]
fn derive_grant_table_keys_records_by_lockfile_fsgraph_digest() {
    let table = derive_grant_table(&host_catalog(), &installed_fixture());
    assert_eq!(table.grants.len(), 1, "json package derives no grant");
    let grant = &table.grants[0];
    assert_eq!(grant.name, "@deka/fs");
    assert_eq!(grant.version, "9.9.9-fixture");
    assert_eq!(grant.digest, "sha256:fsdigest");
    assert_eq!(grant.kinds, vec!["fs"]);
}

#[test]
fn derive_grant_table_skips_entries_without_fsgraph_digest() {
    let mut installed = installed_fixture();
    installed[0].1.fs_graph_hash = None;
    assert!(derive_grant_table(&host_catalog(), &installed).grants.is_empty());
    installed[0].1.fs_graph_hash = Some(String::new());
    assert!(derive_grant_table(&host_catalog(), &installed).grants.is_empty());
}

#[test]
fn grant_version_falls_back_to_the_whole_descriptor() {
    let mut installed = installed_fixture();
    installed[0].1.descriptor = s("@deka/fs@");
    assert_eq!(derive_grant_table(&host_catalog(), &installed).grants[0].version, "@deka/fs@");
    installed[0].1.descriptor = s("1.2.3");
    assert_eq!(derive_grant_table(&host_catalog(), &installed).grants[0].version, "1.2.3");
}

#[test]
fn grant_table_plan_write_remove_unchanged() {
    let derived = derive_grant_table(&host_catalog(), &installed_fixture());

    // No file, non-empty table: write.
    let written = match plan_grant_table_write(&derived, None) {
        GrantTablePlan::Write(table) => table,
        _ => panic!("expected a write"),
    };
    assert!(same_table(&written, &derived));

    // Identical table on disk: unchanged.
    assert!(matches!(plan_grant_table_write(&derived, Some(&written)), GrantTablePlan::Unchanged));

    // Different table: rewrite.
    let mut changed = derive_grant_table(&host_catalog(), &installed_fixture());
    changed.grants[0].digest = s("sha256:other");
    assert!(matches!(plan_grant_table_write(&changed, Some(&written)), GrantTablePlan::Write(_)));

    // Empty table with a file on disk: remove.
    let empty = GrantTable { grants: Vec::new() };
    assert!(matches!(plan_grant_table_write(&empty, Some(&written)), GrantTablePlan::Remove));

    // Empty table, no file: nothing to do.
    assert!(matches!(plan_grant_table_write(&empty, None), GrantTablePlan::Unchanged));
}

#[test]
fn locked_package_accepts_legacy_version_descriptor() {
    let lock = vec![(
        s("@deka/core"),
        LockEntry {
            descriptor: s("0.1.0"),
            resolved: s("linkhash:@deka/core"),
            module_graph_hash: Some(s("module-hash")),
            fs_graph_hash: Some(s("fs-hash")),
        },
    )];
    let locked = locked_package(&lock, "@deka/core").expect("lock parse").expect("locked package");
    assert_eq!(locked.version, "0.1.0");
    assert_eq!(locked.module_graph, "module-hash");
    assert_eq!(locked.fs_graph, "fs-hash");
}

#[test]
fn locked_package_reports_each_missing_pin() {
    let entry = |descriptor: &str, module: Option<&str>, fs: Option<&str>| {
        vec![(
            s("@deka/core"),
            LockEntry {
                descriptor: s(descriptor),
                resolved: s("deka.gg:@deka/core"),
                module_graph_hash: module.map(s),
                fs_graph_hash: fs.map(s),
            },
        )]
    };
    assert!(locked_package(&entry("@deka/core@1.0.0", Some("m"), Some("f")), "@deka/other").unwrap().is_none());
    assert_eq!(
        locked_package(&entry("@deka/core", Some("m"), Some("f")), "@deka/core").err().unwrap(),
        "locked package @deka/core is missing an exact version"
    );
    assert_eq!(
        locked_package(&entry("@deka/core@1.0.0", Some(""), Some("f")), "@deka/core").err().unwrap(),
        "locked package @deka/core is missing moduleGraph hash"
    );
    assert_eq!(
        locked_package(&entry("@deka/core@1.0.0", Some("m"), None), "@deka/core").err().unwrap(),
        "locked package @deka/core is missing fsGraph hash"
    );
    let ok = locked_package(&entry("@deka/core@1.0.0", Some("m"), Some("f")), "@deka/core").unwrap().unwrap();
    assert_eq!((ok.version.as_str(), ok.resolved.as_str()), ("1.0.0", "deka.gg:@deka/core"));
}
