use deka_pm::boot_gates::{non_official_catalog_reference, ungranted_bridge_caller, CompiledModule};

fn module(path: &str, js: &str, package: &str, allowed: bool) -> CompiledModule {
    CompiledModule { path: path.to_string(), js: js.to_string(), package: package.to_string(), allowed }
}

#[test]
fn bridge_callers_need_granted_kinds() {
    let modules = vec![
        module("/p/src/z.js", "__deka_host('fs', 'read_file', [])", "app", false),
        module("/p/src/a.js", "__deka_host('fs', 'read_file', [])", "app", false),
        module("/p/ds_modules/@deka/fs/m.js", "__deka_host('fs', 'x', [])", "@deka/fs", true),
        module("/p/src/b.js", "export const b = 1;", "app", false),
    ];
    assert_eq!(
        ungranted_bridge_caller(&modules).as_deref(),
        Some("package 'app' is not granted any host kinds but contains bridge calls (/p/src/a.js)")
    );
    let fine = vec![
        module("/p/ds_modules/@deka/fs/m.js", "__deka_host('fs', 'x', [])", "@deka/fs", true),
        module("/p/src/b.js", "export const b = 1;", "app", false),
    ];
    assert_eq!(ungranted_bridge_caller(&fine), None);
}

#[test]
fn non_official_modules_may_not_reference_the_catalog() {
    let kinds = vec!["fs".to_string(), "crypto".to_string()];
    let modules = vec![
        module("/p/ds_modules/@deka/fs/m.js", "deka.fs.read()", "@deka/fs", true),
        module("/p/src/app.js", "const h = deka.crypto.hash(x) + deka.fs.read();", "app", false),
        module("/p/src/ui.js", "deka.ui.render()", "app", false),
    ];
    assert_eq!(
        non_official_catalog_reference(&modules, &kinds).as_deref(),
        Some("package 'app' references the closed deka.* catalog (deka.fs) but is not an official @deka/* stdlib package (/p/src/app.js)")
    );
    let fine = vec![
        module("/p/ds_modules/@deka/fs/m.js", "deka.fs.read()", "@deka/fs", true),
        module("/p/src/ui.js", "deka.ui.render()", "app", false),
    ];
    assert_eq!(non_official_catalog_reference(&fine, &kinds), None);
}
