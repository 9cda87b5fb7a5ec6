use deka_pm::module_loading::{
    artifact_specifier_error, build_value_id, build_value_paths, extensionless_candidates,
    phpx_import_error, unresolved_bare_message,
};

#[test]
fn build_values_have_plain_ids() {
    assert_eq!(build_value_id("deka:dev/site-map_2").as_deref(), Some("site-map_2"));
    assert_eq!(build_value_id("deka:dev/"), None);
    assert_eq!(build_value_id("deka:dev/../x"), None);
    assert_eq!(build_value_id("encoding/json"), None);
    assert_eq!(
        build_value_paths("/proj/.cache", "/proj", "routes"),
        ("/proj/.cache/build-values/routes.js".to_string(), "/proj/dist/app/.build-values/routes.js".to_string())
    );
}

#[test]
fn unresolved_specifiers_say_what_to_do() {
    assert_eq!(
        unresolved_bare_message("deka:dev/routes"),
        "build value 'deka:dev/routes' has not been materialized; run deka build"
    );
    assert_eq!(unresolved_bare_message("left-pad"), "unable to resolve module 'left-pad'; check ds_modules");
    assert_eq!(
        phpx_import_error("./Legacy.PHPX").as_deref(),
        Some("DekaScript uses .ds imports only; migrate './Legacy.PHPX'")
    );
    assert_eq!(phpx_import_error("./a.ds"), None);
}

#[test]
fn artifact_imports_are_jailed_to_relative_js() {
    let w = "file:///dist/__deka_entry.js";
    assert_eq!(artifact_specifier_error("./a.js", "file:///dist/server/x.js", w, false), None);
    assert_eq!(artifact_specifier_error("file:///dist/server/entry.js", w, w, false), None);
    assert_eq!(
        artifact_specifier_error("file:///dist/server/entry.js", "file:///other.js", w, false).as_deref(),
        Some("artifact module specifier `file:///dist/server/entry.js` must be an explicit relative .js path")
    );
    assert_eq!(
        artifact_specifier_error("./a.ts", "file:///x.js", w, false).as_deref(),
        Some("artifact module specifier `./a.ts` must name an explicit .js file")
    );
    assert_eq!(
        artifact_specifier_error("deka:dev/x", "file:///x.js", w, true).as_deref(),
        Some("artifact module imports `deka:dev/x`, but deka:dev/* is a dev-only scheme; rebuild with `deka build`")
    );
    assert!(artifact_specifier_error("react", "file:///x.js", w, true).unwrap().contains("unsupported bare specifier `react`"));
}

#[test]
fn extensionless_imports_try_sources_then_index_files() {
    assert_eq!(
        extensionless_candidates("/proj/src/shared"),
        vec![
            "/proj/src/shared.ds", "/proj/src/shared.dsx", "/proj/src/shared.js",
            "/proj/src/shared/index.ds", "/proj/src/shared/index.dsx", "/proj/src/shared/index.js",
        ]
    );
    assert!(extensionless_candidates("/proj/src/shared.ds").is_empty());
}
