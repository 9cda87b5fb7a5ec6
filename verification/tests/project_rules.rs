use deka_pm::install_rules::{
    collect_locked_deka_specs, ensure_lookup_succeeded, first_unsatisfied_requirement,
    is_deka_package, is_valid_scoped_name, is_version_descriptor, lock_diff, locked_version,
    manifest_dep_key, manifest_dep_spec, reject_source_less_package, version_satisfies,
    VersionRequirement,
};
use deka_pm::project::{
    ancestors, dependency_package_name, grant_table_path, is_javascript_entry, js_path, next_steps,
    project_name_from_dir, project_search_start, resolve_project_root, safe_path,
};

fn s(v: &str) -> String {
    v.to_string()
}

#[test]
fn install_version_satisfaction_uses_semver_ranges() {
    assert!(version_satisfies(" latest ", "1.0.0"));
    assert!(version_satisfies("", "1.0.0"));
    assert!(version_satisfies("1.2.3", "v1.2.3"));
    assert!(version_satisfies("^1.2.0", "1.4.0"));
    assert!(!version_satisfies("~1.2.0", "1.3.0"));
    assert!(!version_satisfies("1.2.3", "1.2.4"));
}

#[test]
fn first_unsatisfied_requirement_names_the_dependent() {
    let reqs = vec![
        VersionRequirement { range: s("latest"), requested_by: s("root") },
        VersionRequirement { range: s("1.0.0"), requested_by: s("@deka/a") },
    ];
    let u = first_unsatisfied_requirement(&reqs, "2.0.0").expect("conflict");
    assert_eq!(u.range, "1.0.0");
    assert_eq!(u.requested_by, "@deka/a");
    assert!(first_unsatisfied_requirement(&reqs, "1.0.0").is_none());
}

#[test]
fn lock_descriptor_rules() {
    assert!(is_deka_package("@deka/fs"));
    assert!(!is_deka_package("@dekax/fs"));
    assert!(is_version_descriptor("0.1.0"));
    assert!(!is_version_descriptor("0.1"));
    assert!(!is_version_descriptor("0.1.x"));
    assert_eq!(locked_version("@deka/core", "@deka/core@0.1.0").as_deref(), Some("0.1.0"));
    assert_eq!(locked_version("@deka/core", "0.1.0").as_deref(), Some("0.1.0"));
    assert_eq!(locked_version("@deka/core", "@deka/core@ "), None);
    assert_eq!(locked_version("@deka/core", "linkhash:x"), None);
}

#[test]
fn scoped_names() {
    assert!(is_valid_scoped_name("@deka/fs"));
    assert!(is_valid_scoped_name("@user/my-pkg@1.0.0"));
    assert!(!is_valid_scoped_name("deka/fs"));
    assert!(!is_valid_scoped_name("@/fs"));
    assert!(!is_valid_scoped_name("@deka/"));
    assert!(!is_valid_scoped_name("@deka/fs/extra"));
    assert!(!is_valid_scoped_name("@de ka/fs"));
}

#[test]
fn manifest_keys_and_specs() {
    let deps = vec![s("json"), s("@deka/fs")];
    assert_eq!(manifest_dep_key(&deps, "json", "@deka/json"), "json");
    assert_eq!(manifest_dep_key(&deps, "fs", "@deka/fs"), "@deka/fs");
    assert_eq!(manifest_dep_key(&deps, "@x/y", "@x/y"), "@x/y");
    assert_eq!(manifest_dep_key(&deps, "time", "@deka/time"), "time");
    assert_eq!(manifest_dep_spec("@deka/fs", Some(" 1.0.0 ")), "@deka/fs@1.0.0");
    assert_eq!(manifest_dep_spec("@deka/fs", Some("latest")), "@deka/fs");
    assert_eq!(manifest_dep_spec("@deka/fs", None), "@deka/fs");
}

#[test]
fn lock_diff_reports_the_first_difference() {
    let lock = vec![(s("@deka/a"), s("@deka/a@1.0.0")), (s("@deka/b"), s("@deka/b@1.0.0"))];
    assert_eq!(lock_diff(&lock, &lock), None);
    let moved = vec![(s("@deka/a"), s("@deka/a@2.0.0")), (s("@deka/b"), s("@deka/b@1.0.0"))];
    assert_eq!(
        lock_diff(&lock, &moved).as_deref(),
        Some("@deka/a resolved to @deka/a@2.0.0 but lock has @deka/a@1.0.0")
    );
    let fewer = vec![(s("@deka/a"), s("@deka/a@1.0.0"))];
    assert_eq!(lock_diff(&lock, &fewer).as_deref(), Some("@deka/b is present in lock but was not installed"));
    let more = vec![(s("@deka/c"), s("@deka/c@1.0.0"))];
    assert_eq!(lock_diff(&fewer, &more).as_deref(), Some("@deka/c is not in the existing lock"));
}

#[test]
fn locked_specs_of_official_packages() {
    let entries = vec![
        (s("@deka/a"), s("@deka/a@1.0.0")),
        (s("@user/b"), s("@user/b@1.0.0")),
        (s("@deka/c"), s("0.2.0")),
        (s("@deka/d"), s("linkhash:x")),
    ];
    assert_eq!(collect_locked_deka_specs(&entries), vec![s("@deka/a@1.0.0"), s("@deka/c@0.2.0"), s("@deka/d")]);
}

#[test]
fn lookup_status_distinguishes_missing_from_registry_faults() {
    let missing = ensure_lookup_succeeded("@deka/time", 404, "404 Not Found")
        .expect_err("404 must remain a package failure");
    assert_eq!(missing, "package @deka/time not found in deka.gg registry (status 404 Not Found)");
    let fault = ensure_lookup_succeeded("@deka/time", 502, "502 Bad Gateway")
        .expect_err("5xx must remain a registry fault");
    assert_eq!(fault, "registry lookup failed for @deka/time: status 502 Bad Gateway");
}

#[test]
fn registry_status_and_source_rules() {
    assert!(ensure_lookup_succeeded("@deka/time", 200, "200 OK").is_ok());
    assert!(reject_source_less_package(true, "@deka/x").is_ok());
    assert!(reject_source_less_package(false, "@deka/x").unwrap_err().contains("no .ds/.dsx sources"));
}

#[test]
fn project_paths() {
    assert_eq!(grant_table_path("/proj"), "/proj/deka.grants.json");
    assert!(is_javascript_entry("/a/handler.MJS"));
    assert!(is_javascript_entry("worker.js"));
    assert!(!is_javascript_entry("/a/main.ds"));
    assert_eq!(project_search_start("/a/b/main.ds", false), "/a/b");
    assert_eq!(project_search_start("main.ds", false), "");
    assert_eq!(ancestors("/a/b"), vec![s("/a/b"), s("/a"), s("/")]);
    assert_eq!(ancestors("a/b"), vec![s("a/b"), s("a"), s("")]);
    assert_eq!(resolve_project_root("/a/b/main.ds", "/a/b", Some(s("/a"))).unwrap(), "/a");
    assert_eq!(resolve_project_root("/a/b/h.js", "/a/b", None).unwrap(), "/a/b");
    assert_eq!(
        resolve_project_root("/a/b/main.ds", "/a/b", None).unwrap_err(),
        "deka runtime requires a deka.json project root (searched from /a/b/main.ds)"
    );
    assert_eq!(dependency_package_name("/p/ds_modules/@deka/fs", "/p"), "@deka/fs");
    assert_eq!(dependency_package_name("/p/php_modules/x", "/p"), "x");
    assert_eq!(dependency_package_name("/elsewhere/x", "/p"), "/elsewhere/x");
    assert_eq!(project_name_from_dir("/home/me/demo"), "demo");
    assert_eq!(project_name_from_dir("/"), "app");
}

#[test]
fn jsr_paths() {
    assert_eq!(safe_path("mod/index.ts").unwrap(), "mod/index.ts");
    assert_eq!(safe_path("../etc").unwrap_err(), "unsafe JSR file path: ../etc");
    assert!(safe_path("").is_err());
    assert!(safe_path("a//b").is_err());
    assert!(safe_path("a/.deka-staged-package/b").is_err());
    assert!(safe_path("a b").is_err());
    assert_eq!(js_path("mod.ts"), "mod.mjs");
    assert_eq!(js_path("mod.mts"), "mod.mjs");
    assert_eq!(js_path("mod.js"), "mod.js");
}

#[test]
fn init_next_steps_depend_on_the_directory_argument() {
    assert_eq!(next_steps(Some("site")), vec!["[init] DekaScript app ready", "  cd site", "  deka serve"]);
    assert_eq!(next_steps(Some(".")), vec!["[init] DekaScript app ready", "  deka serve", "  deka dev"]);
    assert_eq!(next_steps(Some("")), next_steps(None));
}

#[test]
fn javascript_entries_are_read_by_their_last_component() {
    assert!(is_javascript_entry("handler.js"));
    assert!(is_javascript_entry("a.MJS"));
    assert!(is_javascript_entry("h.js//"));
    assert!(is_javascript_entry("h.js/."));
    assert!(is_javascript_entry("./x/./h.cjs"));
    assert!(!is_javascript_entry("main.ds"));
    assert!(!is_javascript_entry("Makefile"));
    assert!(!is_javascript_entry("h.js/.."));
    assert!(!is_javascript_entry(".js"));
}
