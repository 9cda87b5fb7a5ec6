use deka_pm::dsc_rules::{isolate_specifier_candidates, restore_isolate_specifiers};
use deka_pm::install_rules::{
    collect_project_install_specs, conflict_message, registry_metadata_url, requested_range,
    stdlib_artifact, UnsatisfiedRequirement, VersionRequirement,
};
use deka_pm::jsr::{
    check_emitted_paths, jsr_entry, jsr_manifest_path, jsr_module_kind, parse_jsr_source,
    requested_jsr_version, resolve_in_package, rewrite_specifier, unresolved_imports_error,
};
use deka_pm::summon_rules::{
    check_summon_scheme, default_vendor_name, is_archive_name, minified_warning, summon_url_text, unresolved_summon_imports_error,
    url_basename, UrlParts,
};
use deka_pm::versions::select_jsr_version;

fn s(v: &str) -> String {
    v.to_string()
}

#[test]
fn jsr_sources_are_read_and_validated() {
    let j = parse_jsr_source("jsr:@std/path@1.0.0").unwrap();
    assert_eq!((j.scope.as_str(), j.name.as_str(), j.requested.as_deref()), ("std", "path", Some("1.0.0")));
    let j = parse_jsr_source("jsr:@std/path").unwrap();
    assert!(j.requested.is_none());
    assert_eq!(parse_jsr_source("npm:x").unwrap_err(), "expected jsr:@scope/name[@version]");
    assert_eq!(parse_jsr_source("jsr:@std").unwrap_err(), "expected jsr:@scope/name[@version]");
    assert_eq!(parse_jsr_source("jsr:@Std/path").unwrap_err(), "invalid JSR scope or package name");
    assert!(requested_jsr_version(Some("1.0.0")).unwrap().is_some());
    assert_eq!(
        requested_jsr_version(Some("latest")).unwrap_err(),
        "JSR version must be an exact semantic version"
    );
}

#[test]
fn jsr_version_selection_skips_yanked_and_prereleases() {
    let versions = vec![(s("1.0.0"), false), (s("1.2.0"), true), (s("1.1.0"), false), (s("2.0.0-rc.1"), false), (s("junk"), false)];
    assert_eq!(select_jsr_version(&versions, None).unwrap(), "1.1.0");
    let exact = requested_jsr_version(Some("2.0.0-rc.1")).unwrap();
    assert_eq!(select_jsr_version(&versions, exact.as_ref()).unwrap(), "2.0.0-rc.1");
    let missing = requested_jsr_version(Some("1.2.0")).unwrap();
    assert_eq!(select_jsr_version(&versions, missing.as_ref()).unwrap_err(), "no matching non-yanked JSR version");
}

#[test]
fn jsr_files_and_modules() {
    assert_eq!(jsr_entry(Some("./mod.ts")).unwrap(), "mod.ts");
    assert_eq!(jsr_entry(Some("mod.ts")).unwrap_err(), "JSR package requires a root (.) export");
    assert_eq!(jsr_entry(None).unwrap_err(), "JSR package requires a root (.) export");
    assert_eq!(jsr_manifest_path("/src/a.ts").unwrap(), "src/a.ts");
    assert_eq!(jsr_manifest_path("src/a.ts").unwrap_err(), "JSR manifest paths must start with /");
    assert_eq!(jsr_module_kind("a.ts").unwrap(), true);
    assert_eq!(jsr_module_kind("README.md").unwrap(), false);
    assert!(jsr_module_kind("a.tsx").unwrap_err().starts_with("unsupported JSR module dialect: a.tsx"));
    assert!(check_emitted_paths(&vec![s("a.ts"), s("b.js")]).is_ok());
    assert_eq!(
        check_emitted_paths(&vec![s("a.ts"), s("a.mts")]).unwrap_err(),
        "JSR emitted module path collision: a.mts"
    );
}

#[test]
fn jsr_imports_resolve_inside_the_package() {
    assert_eq!(resolve_in_package("src/a/mod.ts", "../b.ts").as_deref(), Some("src/b.ts"));
    assert_eq!(resolve_in_package("mod.ts", "./x/./y.ts").as_deref(), Some("x/y.ts"));
    assert_eq!(resolve_in_package("mod.ts", "../up.ts"), None);
    assert_eq!(rewrite_specifier("./a.ts"), "./a.mjs");
    assert_eq!(rewrite_specifier("npm:x"), "npm:x");
    assert_eq!(
        unresolved_imports_error(&vec![s("npm:a"), s("jsr:@b/c"), s("npm:a")]),
        "no transitive fetching: unresolved JSR imports (including type-only imports):\n  jsr:@b/c\n  npm:a"
    );
}

#[test]
fn summon_sources_and_names() {
    assert_eq!(summon_url_text("url:https://x/y.js").unwrap(), "https://x/y.js");
    assert_eq!(summon_url_text("https://x/y.js").unwrap(), "https://x/y.js");
    assert!(summon_url_text("jsr:@a/b").unwrap_err().starts_with("jsr: sources are planned"));
    assert!(summon_url_text("infer").unwrap_err().starts_with("deka summon infer"));
    assert!(check_summon_scheme("https").is_ok());
    assert!(check_summon_scheme("ftp").is_err());
    assert_eq!(url_basename(&vec![s("npm"), s("three.min.js"), s("")]), "three.min.js");
    assert_eq!(url_basename(&vec![]), "module");
    assert!(is_archive_name("pkg-1.0.0.tgz"));
    assert!(is_archive_name("pkg.tar.gz"));
    assert!(!is_archive_name("pkg.js"));
    assert_eq!(default_vendor_name("three.min.js"), "three-min");
    assert_eq!(default_vendor_name("pkg-1.0.0.tgz"), "pkg-1-0-0");
}

#[test]
fn restores_js_imports_to_ds_when_source_exists() {
    let js = "import { a } from './a.js';\nimport { b } from \"./b.js\";\nimport { c } from './c.js';\n";
    let peers = vec![(s("./a.js"), s("ds")), (s("./b.js"), s("dsx"))];
    assert_eq!(
        restore_isolate_specifiers(js, &peers),
        "import { a } from './a.ds';\nimport { b } from \"./b.dsx\";\nimport { c } from './c.js';\n"
    );
    assert_eq!(isolate_specifier_candidates(js), vec![s("./a.js"), s("./c.js"), s("./b.js")]);
}

#[test]
fn install_planning_helpers() {
    let specs = collect_project_install_specs(
        &vec![s("@deka/b@1.0.0"), s("@deka/a@0.1.0")],
        &vec![s("@deka/a@0.2.0"), s("@deka/c")],
    );
    assert_eq!(specs, vec![s("@deka/a@0.2.0"), s("@deka/b@1.0.0"), s("@deka/c")]);
    let reqs = vec![
        VersionRequirement { range: s("latest"), requested_by: s("root") },
        VersionRequirement { range: s("1.0.0"), requested_by: s("@deka/x") },
    ];
    assert_eq!(requested_range(&reqs), "1.0.0");
    assert_eq!(requested_range(&reqs[..1].iter().map(|r| VersionRequirement { range: r.range.clone(), requested_by: r.requested_by.clone() }).collect()), "latest");
    let u = UnsatisfiedRequirement { range: s("1.0.0"), requested_by: s("@deka/x") };
    assert_eq!(conflict_message("@deka/y", "2.0.0", &u), "@deka/y 2.0.0 does not satisfy requirement 1.0.0 from @deka/x");
    assert_eq!(registry_metadata_url("https://deka.gg", "@deka/fs").unwrap(), "https://deka.gg/api/registry/fs.json");
    assert!(registry_metadata_url("https://deka.gg", "@user/fs").is_err());
    let art = stdlib_artifact("https://cdn", "fs", "1.2.3");
    assert_eq!(art.repo_url, "https://github.com/dekaruntime/fs.git");
    assert_eq!(art.tag, "v1.2.3");
    assert_eq!(art.tarball_url, "https://cdn/fs/1.2.3/fs-1.2.3.tgz");
}

fn url_parts(host: Option<&str>, before_path: &str, path: &str, after_path: &str) -> UrlParts {
    UrlParts { host: host.map(s), before_path: s(before_path), path: s(path), after_path: s(after_path) }
}

#[test]
fn minified_cdn_hint_is_nonblocking_and_does_not_fetch() {
    // https://cdn.jsdelivr.net/npm/three/build/three.min.js?v=1
    let url = url_parts(Some("cdn.jsdelivr.net"), "https://cdn.jsdelivr.net", "/npm/three/build/three.min.js", "?v=1");
    let warnings = minified_warning(&url, "export function f() {}");
    assert_eq!(warnings.len(), 1);
    assert!(warnings[0].contains("three.module.js?v=1"));
    // https://example.com/readable.mjs
    let readable = url_parts(Some("example.com"), "https://example.com", "/readable.mjs", "");
    assert!(minified_warning(&readable, "export function f() {}\n").is_empty());
}

#[test]
fn minified_warning_exact_texts() {
    let url = url_parts(Some("unpkg.com"), "https://unpkg.com", "/a.min.js", "#x");
    assert_eq!(
        minified_warning(&url, ""),
        vec![s("minified distribution detected; prefer a readable ES module build for review; possible module build URL (check availability): https://unpkg.com/a.module.js#x")]
    );
    let other = url_parts(Some("example.com"), "https://example.com", "/a.min.js", "");
    assert_eq!(
        minified_warning(&other, ""),
        vec![s("minified distribution detected; prefer a readable ES module build for review")]
    );
}

#[test]
fn long_lines_count_bytes_without_the_line_ending() {
    let url = url_parts(Some("example.com"), "https://example.com", "/a.js", "");
    let exactly = "x".repeat(1000);
    assert!(minified_warning(&url, &format!("{exactly}\r\nshort")).is_empty());
    assert_eq!(minified_warning(&url, &format!("short\n{exactly}y")).len(), 1);
    assert_eq!(minified_warning(&url, &format!("{exactly}\r")).len(), 1);
}

#[test]
fn unresolved_summon_imports_are_listed_once_in_order() {
    assert_eq!(
        unresolved_summon_imports_error(&vec![s("zlib"), s("./gone.js"), s("zlib"), s("<non-literal dynamic import/require: use explicit module specifiers>")]),
        "no transitive fetching: unresolved inner imports (summon each explicitly, then reference its @js/<name> in a vetted module):\n  ./gone.js\n  <non-literal dynamic import/require: use explicit module specifiers>\n  zlib"
    );
}
