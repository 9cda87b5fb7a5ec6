use deka_pm::handler_script::{
    exec_mode_name, exec_mode_script, execution_call, is_pre_bundled_iife, legacy_handler_script,
    script_failure,
};
use deka_pm::pool_types::ExecutionMode;

#[test]
fn bundled_iifes_are_recognized_after_leading_white_space() {
    assert!(is_pre_bundled_iife("  \n(async function() { globalThis.app = 1; })()"));
    assert!(is_pre_bundled_iife("(function() {})()"));
    assert!(!is_pre_bundled_iife("const app = 1;"));
    assert!(!is_pre_bundled_iife("(async () => {})()"));
}

#[test]
fn inline_handlers_use_runtime_globals_and_capture_the_app() {
    let script = legacy_handler_script(
        "import { Router } from 'deka/router'\nconst app = new Router();\nexport default app",
    );
    assert!(script.starts_with("(function() {\nconst __h = globalThis[Symbol.for('deka.host.internal')];"));
    assert!(script.contains("const { Router } = globalThis.__dekaRouter;\nconst app = new Router();\n// const __dekaDefault = app\nif (typeof globalThis.app === 'undefined')"));
    assert!(!script.contains("import {"));
    let other = legacy_handler_script("export default { fetch() {} }");
    assert!(other.contains("const __dekaDefault = { fetch() {} }\nif (typeof globalThis.app"));
}

#[test]
fn each_mode_has_its_name_and_call() {
    assert_eq!(exec_mode_name(ExecutionMode::StaticRender), "static-render");
    assert_eq!(exec_mode_script(ExecutionMode::Build), "globalThis.__dekaExecMode = \"build\";");
    assert_eq!(execution_call(ExecutionMode::Request), "globalThis.__dekaExecuteRequest()");
    assert_eq!(execution_call(ExecutionMode::Module), "undefined");
    assert!(execution_call(ExecutionMode::Build).contains("globalThis.__dekaBuild()"));
}

#[test]
fn a_deka_exit_marker_ends_the_request_with_its_code() {
    assert_eq!(script_failure("Uncaught Error: DekaExit:2"), Ok(2));
    assert_eq!(
        script_failure("ReferenceError: x is not defined"),
        Err("Handler execution failed: ReferenceError: x is not defined".to_string())
    );
}
