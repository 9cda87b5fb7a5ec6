use deka_pm::integrity::normalize_sha256_digest;
use deka_pm::recovery::{backup_removal_warning, format_backups, journal_backups};
use deka_pm::releases::{download_url, trim_end_matches, BinaryInfo, LatestRelease};
use deka_pm::stage::{
    file_diagnostics, lock_entry_pointer, plan_compile_root, rewritten_packages, CompilePlan,
    ScanDiagnostic, StageGuard, stdlib_source_name,
};
use deka_pm::transforms::{append_entry_footer, entry_wrapper_source, host_bindings_preamble, prepend_host_bindings};

#[test]
fn format_backups_is_empty_string_when_nothing_survived() {
    assert_eq!(format_backups(&[].to_vec()), "");
}

#[test]
fn accepts_prefixed_sha256() {
    assert_eq!(
        normalize_sha256_digest(&format!("sha256:{}", "a".repeat(64))).unwrap(),
        "a".repeat(64)
    );
}

#[test]
fn rejects_malformed_sha256() {
    assert!(normalize_sha256_digest("sha256:not-a-digest").is_err());
}

#[test]
fn wrapper_accepts_exported_dekascript_app() {
    let source = entry_wrapper_source("file:///main.ds");
    assert!(source.contains("__dekaMain.App"));
    assert!(source.contains("ui/router"));
    assert!(source.contains("file:///main.ds"));
}

// ---- further cases -------------------------------------------------------

#[test]
fn format_backups_lists_surviving_backups() {
    let backups = vec![
        ("/p/.cache/lock".to_string(), "previous deka.lock".to_string(), true),
        ("/p/.cache/json".to_string(), "previous deka.json".to_string(), false),
        ("/p/.cache/grants".to_string(), "previous deka.grants.json".to_string(), true),
    ];
    assert_eq!(
        format_backups(&backups),
        "\nA recovery backup was left behind and can be used to restore prior state:\n  - /p/.cache/lock (recovery backup of previous deka.lock)\n  - /p/.cache/grants (recovery backup of previous deka.grants.json)"
    );
    assert_eq!(
        backup_removal_warning("/p/x", "denied"),
        "failed to remove backup file /p/x after successful install: denied"
    );
}

#[test]
fn journal_lists_lock_manifest_and_grant_backups() {
    let list = journal_backups(
        Some("/l".to_string()),
        Some(("/m".to_string(), Some("/mb".to_string()))),
        Some("/g".to_string()),
    );
    assert_eq!(
        list,
        vec![
            ("/l".to_string(), "previous deka.lock".to_string()),
            ("/mb".to_string(), "previous deka.json".to_string()),
            ("/g".to_string(), "previous deka.grants.json".to_string()),
        ]
    );
    assert!(journal_backups(None, Some(("/m".to_string(), None)), None).is_empty());
}

#[test]
fn download_url_uses_the_versioned_release_path() {
    let release = LatestRelease {
        version: "9.9.9".to_string(),
        tag: "v9.9.9".to_string(),
        binaries: vec![(
            "linux-x64".to_string(),
            BinaryInfo { name: "deka-linux-x64".to_string(), sha256: "x".to_string() },
        )],
    };
    assert_eq!(
        download_url("https://r.example/latest.json", &release, Some("linux-x64")).as_deref(),
        Some("https://r.example/9.9.9/deka-linux-x64")
    );
    assert_eq!(download_url("https://r.example/latest.json", &release, Some("darwin-arm64")), None);
    assert_eq!(download_url("https://r.example/latest.json", &release, None), None);
    assert_eq!(trim_end_matches("a/latest.json/latest.json", "/latest.json"), "a");
}

#[test]
fn host_bindings_wrap_module_sources() {
    let kinds = vec!["fs".to_string(), "net".to_string()];
    let pre = host_bindings_preamble(&kinds);
    assert!(pre.contains("Object.freeze([\"fs\",\"net\"])"), "{pre}");
    assert!(prepend_host_bindings("x();", &kinds).ends_with("x();"));
    assert!(append_entry_footer("let app = 1;").starts_with("let app = 1;\nif (typeof globalThis.app"));
}

#[test]
fn stage_guard_maps_paths_both_ways() {
    let guard = StageGuard::new("/tmp/stage".to_string(), "/tmp/root".to_string());
    assert_eq!(guard.map_path("/tmp/root/main.ds"), "/tmp/stage/main.ds");
    assert_eq!(guard.unmap_path("/tmp/stage/main.ds"), "/tmp/root/main.ds");
    assert_eq!(guard.remap_diagnostic("/tmp/stage/main.ds:1:1: bad"), "/tmp/root/main.ds:1:1: bad");
    assert_eq!(guard.root(), "/tmp/stage");
}

#[test]
fn diagnostics_are_placed_and_reported() {
    let src = "\n\nconst n = safe { deka.bogus.len(b) }\n";
    let diags = file_diagnostics("/p/main.ds", src, &vec![(19, "unknown".to_string())]);
    assert_eq!(diags[0].to_string(), "/p/main.ds:3:18: unknown");
    match plan_compile_root("E:", &diags, 0) {
        Err(e) => assert_eq!(e, "E:/p/main.ds:3:18: unknown"),
        Ok(_) => panic!("diagnostics fail the compile"),
    }
    let none: Vec<ScanDiagnostic> = Vec::new();
    assert!(matches!(plan_compile_root("E:", &none, 0), Ok(CompilePlan::InPlace)));
    assert!(matches!(plan_compile_root("E:", &none, 2), Ok(CompilePlan::Stage)));
}

#[test]
fn rewritten_packages_are_distinct_and_scoped() {
    let paths = vec![
        "/p/ds_modules/@deka/demo/index.ds".to_string(),
        "/p/ds_modules/@deka/demo/other.ds".to_string(),
        "/p/main.ds".to_string(),
        "/p/php_modules/plain/x.ds".to_string(),
    ];
    assert_eq!(
        rewritten_packages("/p", &paths),
        vec![
            ("ds_modules".to_string(), "@deka/demo".to_string()),
            ("php_modules".to_string(), "plain".to_string()),
        ]
    );
    assert_eq!(lock_entry_pointer("@deka/demo"), "/packages/@deka~1demo/2");
}

#[test]
fn stdlib_source_is_decided_by_the_owning_package_name() {
    let root = "/p";
    let name = |path: &str| {
        stdlib_source_name(root, path, Some("@deka/root".to_string()), Some("@acme/near".to_string()))
    };
    assert_eq!(name("/p/ds_modules/@deka/http/src/a.ds"), Some("@deka/http".to_string()));
    assert_eq!(name("/p/php_modules/util/a.ds"), Some("util".to_string()));
    assert_eq!(name("/p/ds_modules/@deka"), None);
    assert_eq!(name("/p/src/main.ds"), Some("@deka/root".to_string()));
    assert_eq!(name("/elsewhere/lib/a.ds"), Some("@acme/near".to_string()));
    assert_eq!(stdlib_source_name(root, "/p/src/main.ds", None, Some("x".to_string())), None);
}

#[test]
fn the_project_root_maps_onto_the_stage_root() {
    let guard = StageGuard::new("/tmp/stage".to_string(), "/tmp/root".to_string());
    let mapped = guard.map_path("/tmp/root");
    assert_eq!(std::path::Path::new(&mapped), std::path::Path::new(guard.root()));
    let back = guard.unmap_path(&mapped);
    assert_eq!(std::path::Path::new(&back), std::path::Path::new("/tmp/root"));
}
