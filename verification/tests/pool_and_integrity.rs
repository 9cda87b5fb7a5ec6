use deka_pm::integrity::{
    release_metadata_url, verify_locked_integrity, verify_package_digest, InstalledSource,
    LockedPackage, PackageIntegrity, EMPTY_MODULE_GRAPH_HASH,
};
use deka_pm::package_spec::{parse_package_spec, strip_semver_range_prefix};
use deka_pm::pool_types::{
    install_source_override_hint, parse_exit_code, wrap_with_host_bindings, HandlerKey,
    SourceOverrideHint, SourceOverrideSlot,
};

fn integrity(module_graph: &str, fs_graph: &str) -> PackageIntegrity {
    PackageIntegrity { module_graph: module_graph.to_string(), fs_graph: fs_graph.to_string() }
}

fn locked(version: &str, resolved: &str, module_graph: &str, fs_graph: &str) -> LockedPackage {
    LockedPackage {
        version: version.to_string(),
        resolved: resolved.to_string(),
        module_graph: module_graph.to_string(),
        fs_graph: fs_graph.to_string(),
    }
}

fn installed(version: &str) -> InstalledSource {
    InstalledSource {
        version: version.to_string(),
        repo: None,
        git_ref: None,
        source: "deka.gg".to_string(),
        requires_registry_digest: true,
    }
}

#[test]
fn handler_key_keeps_its_name() {
    assert_eq!(HandlerKey::new("api/users").name, "api/users");
}

#[test]
fn exit_code_is_read_after_the_marker() {
    assert_eq!(parse_exit_code("Uncaught Error: DekaExit:3"), Some(3));
    assert_eq!(parse_exit_code("DekaExit:-1 trailing"), Some(-1));
    assert_eq!(parse_exit_code("DekaExit:0"), Some(0));
}

#[test]
fn exit_code_is_absent_without_marker_or_digits() {
    assert_eq!(parse_exit_code("plain failure"), None);
    assert_eq!(parse_exit_code("DekaExit:"), None);
    assert_eq!(parse_exit_code("DekaExit:abc"), None);
}

#[test]
fn host_binding_wrapper_encloses_the_body() {
    let wrapped = wrap_with_host_bindings("return 1;");
    assert!(wrapped.starts_with("(function() {\nconst __h = globalThis[Symbol.for('deka.host.internal')];\n"));
    assert!(wrapped.contains("__deka_to_result) {\nreturn 1;\n})(__h && __h.host"));
    assert!(wrapped.ends_with("__h && __h.toResult);\n})();"));
}

#[test]
fn first_source_override_hint_wins() {
    let mut slot = SourceOverrideSlot::new();
    assert!(slot.hint.is_none());
    install_source_override_hint(
        &mut slot,
        SourceOverrideHint { compiled_root: "/tmp/a".to_string(), original_root: "/src".to_string() },
    );
    install_source_override_hint(
        &mut slot,
        SourceOverrideHint { compiled_root: "/tmp/b".to_string(), original_root: "/other".to_string() },
    );
    let hint = slot.hint.expect("hint installed");
    assert_eq!(hint.compiled_root, "/tmp/a");
    assert_eq!(hint.original_root, "/src");
}

#[test]
fn range_prefix_is_stripped() {
    assert_eq!(strip_semver_range_prefix("^1.2.3"), "1.2.3");
    assert_eq!(strip_semver_range_prefix("~0.4.0"), "0.4.0");
    assert_eq!(strip_semver_range_prefix(">=2.0.0"), "2.0.0");
    assert_eq!(strip_semver_range_prefix("3.1.4"), "3.1.4");
}

#[test]
fn package_spec_splits_name_and_version() {
    assert_eq!(parse_package_spec("lodash@4.17.21"), ("lodash".to_string(), Some("4.17.21".to_string())));
    assert_eq!(parse_package_spec("lodash"), ("lodash".to_string(), None));
    assert_eq!(
        parse_package_spec("@scope/pkg@1.0.0"),
        ("@scope/pkg".to_string(), Some("1.0.0".to_string()))
    );
    assert_eq!(parse_package_spec("@scope/pkg"), ("@scope/pkg".to_string(), None));
}

#[test]
fn package_digest_must_match_the_registry() {
    assert!(verify_package_digest("@a/b", "abc", &integrity("m", "abc")).is_ok());
    assert_eq!(
        verify_package_digest("@a/b", "abc", &integrity("m", "def")).unwrap_err(),
        "package digest mismatch for @a/b: registry abc, downloaded def"
    );
}

#[test]
fn locked_integrity_accepts_a_matching_install() {
    let lock = locked("1.0.0", "deka.gg:@a/b@1.0.0", "mg", "fs");
    assert_eq!(verify_locked_integrity("@a/b", &lock, &installed("1.0.0"), &integrity("mg", "fs")), Ok(false));
}

#[test]
fn locked_integrity_heals_the_legacy_module_graph_hash() {
    let lock = locked("1.0.0", "github:owner/repo", EMPTY_MODULE_GRAPH_HASH, "fs");
    assert_eq!(verify_locked_integrity("@a/b", &lock, &installed("1.0.0"), &integrity("fresh", "fs")), Ok(true));
}

#[test]
fn locked_integrity_reports_each_failure() {
    let ok = integrity("mg", "fs");
    assert_eq!(
        verify_locked_integrity("@a/b", &locked("1.0.0", "deka.gg:x", "mg", "fs"), &installed("2.0.0"), &ok)
            .unwrap_err(),
        "integrity verification failed for @a/b: locked version 1.0.0 but installed 2.0.0"
    );
    assert_eq!(
        verify_locked_integrity("@a/b", &locked("1.0.0", "nocolon", "mg", "fs"), &installed("1.0.0"), &ok)
            .unwrap_err(),
        "integrity verification failed for @a/b: malformed lock source nocolon"
    );
    assert_eq!(
        verify_locked_integrity("@a/b", &locked("1.0.0", "npm:x", "mg", "fs"), &installed("1.0.0"), &ok)
            .unwrap_err(),
        "integrity verification failed for @a/b: unsupported lock source npm:x"
    );
    assert_eq!(
        verify_locked_integrity("@a/b", &locked("1.0.0", "linkhash:x", "other", "fs"), &installed("1.0.0"), &ok)
            .unwrap_err(),
        "integrity verification failed for @a/b: moduleGraph hash mismatch (locked other, got mg)"
    );
    assert_eq!(
        verify_locked_integrity("@a/b", &locked("1.0.0", "linkhash:x", "mg", "zz"), &installed("1.0.0"), &ok)
            .unwrap_err(),
        "integrity verification failed for @a/b: fsGraph hash mismatch (locked zz, got fs)"
    );
}

#[test]
fn release_metadata_url_for_scoped_names() {
    assert_eq!(
        release_metadata_url("https://deka.gg/", "@scope/pkg", "1.2.3").unwrap(),
        "https://deka.gg/api/scoped-packages/scope/pkg/1.2.3"
    );
    assert_eq!(
        release_metadata_url("https://deka.gg", "pkg", "1.2.3").unwrap_err(),
        "invalid scoped package name: pkg"
    );
}

fn linkhash_installed() -> InstalledSource {
    InstalledSource {
        version: "0.1.0".to_string(),
        repo: None,
        git_ref: None,
        source: "linkhash".to_string(),
        requires_registry_digest: false,
    }
}

#[test]
fn locked_integrity_rejects_tampered_package_hashes() {
    let locked = locked("0.1.0", "linkhash:@deka/core", "locked-module", "locked-fs");
    let integrity = integrity("attacker-module", "attacker-fs");
    let err = verify_locked_integrity("@deka/core", &locked, &linkhash_installed(), &integrity).unwrap_err();
    assert!(err.contains("moduleGraph hash mismatch"), "unexpected error: {err}");
}

#[test]
fn locked_integrity_flags_legacy_empty_module_graph_hash_for_healing() {
    let locked = locked("0.1.0", "linkhash:@deka/core", EMPTY_MODULE_GRAPH_HASH, "locked-fs");
    let heal = verify_locked_integrity(
        "@deka/core",
        &locked,
        &linkhash_installed(),
        &integrity("recomputed-module", "locked-fs"),
    )
    .expect("verify");
    assert!(heal, "legacy empty moduleGraph hash must be flagged for self-healing, not rejected");
    let heal = verify_locked_integrity(
        "@deka/core",
        &locked,
        &linkhash_installed(),
        &integrity(EMPTY_MODULE_GRAPH_HASH, "locked-fs"),
    )
    .expect("verify");
    assert!(!heal, "a genuinely empty package must verify without healing");
}
