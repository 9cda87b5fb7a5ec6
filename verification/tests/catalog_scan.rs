use deka_pm::catalog_scan::{locate, scan_source, Catalog, CatalogKind, CatalogMethod, Safety, ScanResult};

fn method(name: &str, safety: Safety, min_args: usize, max_args: usize) -> CatalogMethod {
    CatalogMethod { name: name.to_string(), safety, min_args, max_args, doc: String::new() }
}

fn catalog() -> Catalog {
    Catalog {
        kinds: vec![
            CatalogKind {
                name: "bytes".to_string(),
                methods: vec![
                    method("len", Safety::Safe, 1, 1),
                    method("concat", Safety::Safe, 2, 2),
                    method("from_string", Safety::Safe, 1, 1),
                    method("get", Safety::Safe, 2, 2),
                    method("slice", Safety::Safe, 2, 3),
                    method("to_string", Safety::Throws, 1, 1),
                    method("to_hex", Safety::Safe, 1, 1),
                ],
            },
            CatalogKind { name: "io".to_string(), methods: vec![method("echo", Safety::Safe, 1, 1)] },
            CatalogKind { name: "json".to_string(), methods: vec![method("parse", Safety::Throws, 1, 1)] },
            CatalogKind { name: "time".to_string(), methods: vec![method("now", Safety::Safe, 0, 0)] },
        ],
    }
}

fn scan(src: &str) -> ScanResult {
    scan_source(src, true, &catalog())
}

fn messages(result: &ScanResult) -> Vec<String> {
    result.diagnostics.iter().map(|(_, m)| m.clone()).collect()
}

#[test]
fn safe_block_is_lowered_to_the_verbatim_call() {
    let result = scan("const n = safe { deka.bytes.len(b) }\n");
    assert!(result.diagnostics.is_empty(), "{:?}", messages(&result));
    let rewritten = result.rewritten.expect("safe site lowered");
    assert_eq!(rewritten, "const n = deka.bytes.len(b)\n");
}

#[test]
fn safe_lowering_handles_multiline_and_nested_args() {
    let src = "const x = safe { deka.bytes.concat(\n  deka.bytes.from_string(\"a, }({\\\"\\\"\"),\n  other,\n) }\n";
    let result = scan(src);
    assert!(result.diagnostics.is_empty(), "{:?}", messages(&result));
    let rewritten = result.rewritten.expect("lowered");
    assert!(rewritten.contains("const x = deka.bytes.concat(\n  deka.bytes.from_string(\"a, }({\\\"\\\"\"),\n  other\n)\n"), "{rewritten}");
    assert!(!rewritten.contains("safe {"));
}

#[test]
fn safe_statement_position_lowering() {
    let result = scan("safe { deka.io.echo(message) }\n");
    assert!(result.diagnostics.is_empty(), "{:?}", messages(&result));
    assert_eq!(result.rewritten.unwrap(), "deka.io.echo(message)\n");
}

#[test]
fn unknown_kind_is_a_diagnostic() {
    let result = scan("const n = safe { deka.bogus.len(b) }\n");
    let msgs = messages(&result);
    assert_eq!(msgs.len(), 1, "{msgs:?}");
    assert!(msgs[0].contains("unknown `deka` kind `bogus`"), "{msgs:?}");
    assert!(result.rewritten.is_none());
}

#[test]
fn unknown_method_is_a_diagnostic() {
    let result = scan("const n = safe { deka.bytes.bogus(b) }\n");
    let msgs = messages(&result);
    assert_eq!(msgs.len(), 1, "{msgs:?}");
    assert!(msgs[0].contains("unknown `deka.bytes` helper `bogus`"), "{msgs:?}");
}

#[test]
fn wrong_arity_is_a_diagnostic() {
    let result = scan("const n = safe { deka.bytes.get(b) }\n");
    let msgs = messages(&result);
    assert_eq!(msgs.len(), 1, "{msgs:?}");
    assert!(msgs[0].contains("expected 2 argument(s), found 1"), "{msgs:?}");

    let ok = scan("const n = safe { deka.bytes.slice(b, 0, 1) }\n");
    assert!(ok.diagnostics.is_empty(), "{:?}", messages(&ok));
    let too_many = scan("const n = safe { deka.bytes.slice(b, 0, 1, 2) }\n");
    assert_eq!(too_many.diagnostics.len(), 1);
}

#[test]
fn throwing_helper_under_safe_is_rejected() {
    let result = scan("const s = safe { deka.bytes.to_string(b) }\n");
    let msgs = messages(&result);
    assert_eq!(msgs.len(), 1, "{msgs:?}");
    assert!(msgs[0].contains("may throw"), "{msgs:?}");
    assert!(msgs[0].contains("unsafe"), "{msgs:?}");
}

#[test]
fn unsafe_catalog_call_is_validated_not_rewritten() {
    let result = scan("const r = unsafe { deka.json.parse(s) }\n");
    assert!(result.diagnostics.is_empty(), "{:?}", messages(&result));
    assert!(result.rewritten.is_none(), "unsafe blocks pass through to dsc");
}

#[test]
fn unsafe_with_type_annotation_still_validates() {
    let result = scan("const r = unsafe<object> { deka.json.parse(s) }\n");
    assert!(result.diagnostics.is_empty(), "{:?}", messages(&result));
}

#[test]
fn unsafe_trailing_semicolon_is_accepted() {
    let result = scan("const r = unsafe { deka.json.parse(s); }\n");
    assert!(result.diagnostics.is_empty(), "{:?}", messages(&result));
}

#[test]
fn malformed_safe_body_is_a_diagnostic() {
    let result = scan("safe { console.log(message) }\n");
    let msgs = messages(&result);
    assert_eq!(msgs.len(), 1, "{msgs:?}");
    assert!(msgs[0].contains("must be exactly one `deka.<kind>.<method>(...)`"), "{msgs:?}");
}

#[test]
fn bare_catalog_call_outside_the_doors_is_a_diagnostic() {
    let result = scan("const n = deka.bytes.len(b)\n");
    let msgs = messages(&result);
    assert_eq!(msgs.len(), 1, "{msgs:?}");
    assert!(msgs[0].contains("must appear as the body of `safe { }` or `unsafe { }`"), "{msgs:?}");
}

#[test]
fn deka_ui_is_not_a_catalog_kind() {
    let result = scan("const f = unsafe { deka.ui.Foo.create() }\n");
    assert!(result.diagnostics.is_empty(), "{:?}", messages(&result));
}

#[test]
fn user_package_may_not_use_the_catalog() {
    for src in [
        "const n = safe { deka.bytes.len(b) }\n",
        "const r = unsafe { deka.json.parse(s) }\n",
        "const n = deka.bytes.len(b)\n",
    ] {
        let result = scan_source(src, false, &catalog());
        assert_eq!(result.diagnostics.len(), 1, "{src}");
        assert!(messages(&result)[0].contains("stdlib-only"), "{src}");
        assert!(result.rewritten.is_none(), "{src}");
    }
}

#[test]
fn strings_and_comments_do_not_trigger() {
    let src = "// safe { deka.bytes.len(b) } in a comment\n\
               const s = \"safe { deka.bytes.len(b) } in a string\"\n\
               const t = `safe { deka.bytes.len(b) } in a template`\n";
    let result = scan(src);
    assert!(result.diagnostics.is_empty(), "{:?}", messages(&result));
    assert!(result.rewritten.is_none());
}

#[test]
fn template_args_with_nested_delimiters_scan_cleanly() {
    let src = "const b = safe { deka.bytes.from_string(`x${name},(})`) }\n";
    let result = scan(src);
    assert!(result.diagnostics.is_empty(), "{:?}", messages(&result));
    assert_eq!(result.rewritten.unwrap(), "const b = deka.bytes.from_string(`x${name},(})`)\n");
}

#[test]
fn unsafe_raw_platform_js_is_untouched() {
    let result = scan("const r = unsafe { JSON.parse(s) }\nconst v = unsafe { console.log(1) }\n");
    assert!(result.diagnostics.is_empty(), "{:?}", messages(&result));
    assert!(result.rewritten.is_none());
}

#[test]
fn nested_safe_blocks_are_rejected_with_guidance() {
    let result = scan("const h = safe { deka.bytes.to_hex(safe { deka.bytes.slice(b, 1) }) }\n");
    let msgs = messages(&result);
    assert_eq!(msgs.len(), 1, "{msgs:?}");
    assert!(msgs[0].contains("nested"), "{msgs:?}");
    assert!(result.rewritten.is_none());
}

#[test]
fn line_col_are_one_based() {
    let result = scan("\n\nconst n = safe { deka.bogus.len(b) }\n");
    assert_eq!(result.diagnostics.len(), 1);
    assert_eq!(result.diagnostics[0].0, 19);
}

// ---- further cases -------------------------------------------------------

#[test]
fn locate_gives_one_based_line_and_column() {
    let src = "\n\nconst n = safe { deka.bogus.len(b) }\n";
    assert_eq!(locate(src, 19), (3, 18));
    assert_eq!(locate(src, 0), (1, 1));
}

#[test]
fn zero_argument_helper_lowers() {
    let result = scan("export const n = safe { deka.time.now() }\n");
    assert!(result.diagnostics.is_empty(), "{:?}", messages(&result));
    assert_eq!(result.rewritten.unwrap(), "export const n = deka.time.now()\n");
}
