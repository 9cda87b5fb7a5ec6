use deka_pm::install_queue::{
    normalize_php_spec, package_dependency_specs, package_install_path, InstallQueue,
};
use deka_pm::package_spec::parse_package_spec;

fn s(v: &str) -> String {
    v.to_string()
}

/// The module-spec rules' canonical names for the bare stdlib names these
/// tests use.
fn canonical(bare: &str) -> Option<&'static str> {
    match bare {
        "crypto" => Some("@deka/crypto"),
        "bytes" => Some("@deka/bytes"),
        _ => None,
    }
}

fn enqueue(queue: &mut InstallQueue, spec: &str, requested_by: &str) -> Result<bool, String> {
    let (raw, version) = parse_package_spec(spec.trim());
    queue.enqueue_package_spec(&raw, version, canonical(raw.trim()), requested_by)
}

const MODULES: &str = "/proj/ds_modules";

#[test]
fn scoped_package_installs_to_scoped_php_modules_path() {
    assert_eq!(package_install_path(MODULES, "@deka/component").unwrap(), "/proj/ds_modules/@deka/component");
}

#[test]
fn non_deka_scoped_package_preserves_scope_in_path() {
    assert_eq!(package_install_path(MODULES, "@tana/store").unwrap(), "/proj/ds_modules/@tana/store");
}

#[test]
fn unscoped_package_preserves_legacy_path() {
    assert_eq!(package_install_path(MODULES, "legacy").unwrap(), "/proj/ds_modules/legacy");
}

#[test]
fn deka_packages_always_install_to_canonical_scoped_paths() {
    assert_eq!(package_install_path(MODULES, "@deka/array").unwrap(), "/proj/ds_modules/@deka/array");
    assert_eq!(package_install_path(MODULES, "@deka/crypto").unwrap(), "/proj/ds_modules/@deka/crypto");
}

#[test]
fn package_names_may_not_traverse() {
    for bad in ["@deka/../x", "a//b", "./a", "a/"] {
        assert_eq!(package_install_path(MODULES, bad).unwrap_err(), "invalid package name segment");
    }
}

#[test]
fn php_specs_normalize_to_scoped_names() {
    assert_eq!(normalize_php_spec(" @tana/b ", None).unwrap(), "@tana/b");
    assert_eq!(normalize_php_spec("crypto", Some("@deka/crypto")).unwrap(), "@deka/crypto");
    assert_eq!(
        normalize_php_spec("@bad", None).unwrap_err(),
        "invalid php package `@bad` (expected @scope/name[@version])"
    );
    assert_eq!(
        normalize_php_spec("left-pad", None).unwrap_err(),
        "unscoped php package `left-pad` is not allowed. use @scope/name (bare names map to @deka/*)"
    );
}

#[test]
fn transitive_dependencies_are_queued_as_a_flat_scoped_graph() {
    let deps = package_dependency_specs(&vec![(s("@tana/b"), Some(s("^1.0.0"))), (s("crypto"), Some(s("0.1.0")))]);
    assert_eq!(deps, vec!["@tana/b@^1.0.0", "crypto@0.1.0"]);

    let mut queue = InstallQueue::new();
    enqueue(&mut queue, "@tana/a@1.0.0", "root").expect("root");
    for dep in &deps {
        enqueue(&mut queue, dep, "@tana/a").expect("dependency");
    }
    assert_eq!(queue.pending.iter().cloned().collect::<Vec<_>>(), vec!["@tana/a", "@tana/b", "@deka/crypto"]);
    assert_eq!(package_install_path(MODULES, "@tana/b").unwrap(), "/proj/ds_modules/@tana/b");
    assert_eq!(package_install_path(MODULES, "@deka/crypto").unwrap(), "/proj/ds_modules/@deka/crypto");
}

#[test]
fn repeated_requirements_do_not_requeue() {
    let mut queue = InstallQueue::new();
    assert_eq!(enqueue(&mut queue, "@deka/x@1.0.0", "root"), Ok(true));
    assert_eq!(enqueue(&mut queue, "@deka/x@1.0.0", "root"), Ok(false));
    assert_eq!(enqueue(&mut queue, "@deka/x", "@deka/y"), Ok(true));
    assert_eq!(queue.pending.len(), 2);
    assert_eq!(queue.next(), Some((s("@deka/x"), s("1.0.0"))));
    let conflict = queue.first_unsatisfied(&s("@deka/x"), "2.0.0").expect("conflict");
    assert_eq!((conflict.range.as_str(), conflict.requested_by.as_str()), ("1.0.0", "root"));
    assert!(queue.first_unsatisfied(&s("@deka/x"), "1.0.0").is_none());
    assert_eq!(queue.next(), Some((s("@deka/x"), s("1.0.0"))));
    assert_eq!(queue.next(), None);
}

#[test]
fn manifest_dependencies_are_sorted_specs() {
    let deps = package_dependency_specs(&vec![
        (s("@z/last"), Some(s(" latest "))),
        (s("@a/first"), Some(s("*"))),
        (s("@m/mid"), None),
        (s("@b/two"), Some(s(" 2.0.0 "))),
    ]);
    assert_eq!(deps, vec!["@a/first", "@b/two@2.0.0", "@m/mid", "@z/last"]);
}

#[test]
fn refused_package_spec_leaves_the_queue_unchanged() {
    let mut queue = InstallQueue::new();
    assert_eq!(
        queue.enqueue_package_spec("left-pad", None, None, "root"),
        Err(s("unscoped php package `left-pad` is not allowed. use @scope/name (bare names map to @deka/*)"))
    );
    assert_eq!(queue.next(), None);
    assert_eq!(queue.enqueue_package_spec("crypto", None, Some("@deka/crypto"), "root"), Ok(true));
    assert_eq!(queue.next(), Some((s("@deka/crypto"), s("latest"))));
}
