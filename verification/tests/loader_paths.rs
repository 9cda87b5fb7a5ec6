use deka_pm::loader_paths::{
    cache_path_for, dependency_package_root, entry_wrapper_path, grant_scope, import_meta_prelude, logical_source_candidates,
    GrantScope,
};

#[test]
fn source_extensions_have_distinct_cache_paths() {
    let ds = cache_path_for("/proj", "/proj/.cache/dsc", "/proj/main.ds");
    let js = cache_path_for("/proj", "/proj/.cache/dsc", "/proj/main.js");
    assert_ne!(ds, js);
    assert!(ds.ends_with("main.ds.js"));
    assert!(js.ends_with("main.js.js"));
}

#[test]
fn cache_paths_mirror_the_project_tree() {
    assert_eq!(cache_path_for("/proj", "/cache", "/proj/src/a.ds"), "/cache/src/a.ds.js");
    assert_eq!(cache_path_for("/proj", "/cache", "/elsewhere/b.dsx"), "/elsewhere/b.dsx.js");
    assert_eq!(cache_path_for("/proj", "/cache", "rel/c.ds"), "/cache/rel/c.ds.js");
}

#[test]
fn dependency_roots_take_one_or_two_segments() {
    assert_eq!(
        dependency_package_root("/proj", "/proj/ds_modules/@deka/crypto/src/index.ds").as_deref(),
        Some("/proj/ds_modules/@deka/crypto")
    );
    assert_eq!(
        dependency_package_root("/proj", "/proj/ds_modules/lodash/index.ds").as_deref(),
        Some("/proj/ds_modules/lodash")
    );
    assert_eq!(dependency_package_root("/proj", "/proj/php_modules/x/index.ds"), None);
    assert_eq!(dependency_package_root("/proj", "/proj/ds_modules/@deka"), None);
}

#[test]
fn grant_scope_checks_dependencies_before_the_project() {
    match grant_scope("/proj", "/proj/ds_modules/@deka/fs/mod.ds") {
        GrantScope::Dependency { root, name } => {
            assert_eq!(root, "/proj/ds_modules/@deka/fs");
            assert_eq!(name, "@deka/fs");
        }
        _ => panic!("expected a dependency"),
    }
    assert!(matches!(grant_scope("/proj", "/proj/src/app.ds"), GrantScope::Project));
    assert!(matches!(grant_scope("/proj", "/linked/pkg/mod.ds"), GrantScope::Outside));
}

#[test]
fn import_meta_prelude_reports_the_original_source() {
    let text = import_meta_prelude("file:///proj/src/a.ds", "/proj/src", "/proj/src/a.ds", true, "file:///proj/.cache/a.ds.js");
    assert!(text.starts_with("Object.defineProperty(import.meta, \"url\", { value: \"file:///proj/src/a.ds\", enumerable: true, configurable: true });\n"));
    assert!(text.contains("Object.defineProperty(import.meta, \"main\", { value: true, enumerable"));
    assert!(text.contains("return __h.resolveImportMeta(String(specifier), \"file:///proj/.cache/a.ds.js\"); }"));
    assert!(text.ends_with("Object.freeze(import.meta);\n"));
}

#[test]
fn compiled_copies_map_back_to_their_sources() {
    let (alts, base) = logical_source_candidates("/cache/loose/out", "/home/me/app", "/cache/loose/out/src/page.js").unwrap();
    assert_eq!(base, "/home/me/app/src/page.js");
    assert_eq!(alts, vec!["/home/me/app/src/page.ds", "/home/me/app/src/page.dsx"]);
    assert!(logical_source_candidates("/cache/loose/out", "/home/me/app", "/proj/ds_modules/x.js").is_none());
    let (alts, _) = logical_source_candidates("/c", "/o", "/c/.hidden").unwrap();
    assert_eq!(alts, vec!["/o/.hidden.ds", "/o/.hidden.dsx"]);
    let (alts, _) = logical_source_candidates("/c", "/o", "/c/a.b.js").unwrap();
    assert_eq!(alts[0], "/o/a.b.ds");
}

#[test]
fn entry_wrapper_sits_in_the_compiler_cache() {
    assert_eq!(entry_wrapper_path("/proj/.cache/dsc"), "/proj/.cache/dsc/__deka_entry.js");
    assert_eq!(entry_wrapper_path("/proj/.cache/dsc/"), "/proj/.cache/dsc/__deka_entry.js");
}
