use deka_pm::islands::{
    compile_file, concat_esm_graph, lookup_js, normalize_path, resolve_relative, strip_exports,
    strip_relative_imports, next_import,
};

fn chars(s: &str) -> Vec<char> {
    s.chars().collect()
}

#[test]
fn concat_inlines_relative_and_keeps_js_builtins() {
    let counter = "/proj/src/ui/Counter.dsx".to_string();
    let entry = "/proj/.cache/dekascript/islands.js".to_string();
    let modules = vec![
        (
            counter.clone(),
            "import { jsx } from \"@js/react/jsx-runtime\";\n\
             import { useState } from \"@js/react\";\n\
             export function Counter(props) {\n\
               return jsx(\"button\", { children: props.start });\n\
             }\n"
                .to_string(),
        ),
        (
            entry.clone(),
            "import { hydrateRoot } from \"@js/react-dom/client\";\n\
             import { jsx } from \"@js/react/jsx-runtime\";\n\
             import { Counter } from \"../../src/ui/Counter.js\";\n\
             hydrateRoot(document.body, jsx(Counter, { start: 1 }));\n"
                .to_string(),
        ),
    ];
    let bundled = concat_esm_graph(&entry, &modules).expect("concat");
    assert!(bundled.contains("function Counter(props)"));
    assert!(bundled.contains("from \"@js/react-dom/client\""));
    assert!(bundled.contains("from \"@js/react/jsx-runtime\""));
    assert!(!bundled.contains("from \"../../src/ui/Counter.js\""));
    assert!(bundled.contains("hydrateRoot(document.body"));
}

#[test]
fn lookup_js_matches_macos_private_var_alias() {
    let modules = vec![("/var/folders/x/pkg/index.ds".to_string(), "export const n = 1".to_string())];
    let source = "/private/var/folders/x/pkg/index.ds";
    let hit = lookup_js(&modules, source, source);
    assert_eq!(hit.as_deref(), Some("export const n = 1"));
}

// ---- further cases -------------------------------------------------------

#[test]
fn concat_registers_imported_modules_and_orders_them_first() {
    let modules = vec![
        ("/a/main.js".to_string(), "import { x as y } from \"./lib.js\";\nconsole.log(y);\n".to_string()),
        ("/a/lib.js".to_string(), "export const x = 1;\n".to_string()),
    ];
    let bundled = concat_esm_graph("/a/main.js", &modules).expect("concat");
    let lib_at = bundled.find("__deka_island_export(\"/a/lib.js\", { x });").expect("lib registered");
    let main_at = bundled.find("const { x: y } = __deka_island_import(\"/a/lib.js\");").expect("main imports");
    assert!(lib_at < main_at);
    assert!(bundled.starts_with("// deka: shared islands bundle"));
}

#[test]
fn concat_reports_a_missing_module() {
    let modules = vec![("/a/main.js".to_string(), "import { x } from \"./gone.js\";\n".to_string())];
    let err = concat_esm_graph("/a/main.js", &modules).unwrap_err();
    assert_eq!(err, "island graph does not contain /a/gone.js");
}

#[test]
fn normalize_and_resolve_paths() {
    assert_eq!(normalize_path("/a/b/../c/./d"), "/a/c/d");
    assert_eq!(normalize_path("a/../../b"), "b");
    assert_eq!(resolve_relative("/proj/.cache/x/islands.js", "../../src/C.js"), "/proj/src/C.js");
}

#[test]
fn strip_exports_collects_names() {
    let (body, names) = strip_exports(&chars(
        "export function f() {}\nexport async function g() {}\nexport const k = 1;\nconst z = 2;\nexport { z as zed, q };\nexport default 3;\n",
    ));
    assert_eq!(
        body,
        "function f() {}\nasync function g() {}\nconst k = 1;\nconst z = 2;\nexport default 3;\n"
    );
    assert_eq!(names, vec!["f", "g", "k", "zed", "q"]);
}

#[test]
fn next_import_finds_a_declaration_with_renamed_bindings() {
    let src = chars("let a = 1;\nimport { b as c, d } from './m.js';\nrest");
    let (start, end, spec, names) = next_import(&src).expect("import");
    assert_eq!(start, 11);
    assert_eq!(end, 47);
    assert_eq!(spec, "./m.js");
    assert_eq!(names, vec!["b: c", "d"]);
    assert!(next_import(&chars("importer.run()")).is_none());
}

#[test]
fn strip_relative_imports_keeps_bare_ones() {
    let modules = vec![("/p/m.ds".to_string(), String::new())];
    let (body, links) = strip_relative_imports("import { a } from \"./m.js\";\nimport \"side\";\nx();\n", "/p/main.js", &modules);
    assert_eq!(body, "import \"side\";\nx();\n");
    assert_eq!(links, vec![("/p/m.ds".to_string(), vec!["a".to_string()])]);
}

#[test]
fn compile_file_takes_the_emitted_module_or_names_the_missing_one() {
    let modules = vec![("/lib/pkg/a.ds".to_string(), "export const a = 1".to_string())];
    assert_eq!(
        compile_file(&modules, "/lib/pkg/a.ds", "/lib/pkg/a.ds", "[validation] "),
        Ok("export const a = 1".to_string())
    );
    assert_eq!(
        compile_file(&modules, "/lib/pkg/b.ds", "/lib/pkg/b.ds", "[validation] "),
        Err("[validation] dsc did not emit /lib/pkg/b.ds".to_string())
    );
}
