use deka_pm::boot_gates::{choose_grant_table, loader_plan, root_grant_refusal};
use deka_pm::grants::{GrantTable, HostGrant};
use deka_pm::handler_script::{assemble_bootstrap, bootstrap_has_marker};
use deka_pm::islands::json_str;
use deka_pm::worker_book::policy_refusal;

#[test]
fn the_loader_compiles_only_non_javascript_file_entries() {
    let plan = loader_plan("/p/app.ds", true, false);
    assert!(plan.create_cache_dir);
    assert!(plan.compile_graph);
    let plan = loader_plan("/p/handler.js", true, true);
    assert!(!plan.create_cache_dir);
    assert!(!plan.compile_graph);
    let plan = loader_plan("/p/src", false, false);
    assert!(!plan.compile_graph);
}

fn table(name: &str) -> GrantTable {
    GrantTable {
        grants: vec![HostGrant {
            name: name.to_string(),
            version: "1.0.0".to_string(),
            digest: "sha256-x".to_string(),
            kinds: vec!["fs".to_string()],
        }],
    }
}

#[test]
fn an_explicit_grant_table_wins_over_the_installed_one() {
    let chosen = choose_grant_table(Some(table("@deka/a")), Some(table("@deka/b"))).unwrap();
    assert_eq!(chosen.grants[0].name, "@deka/a");
    let chosen = choose_grant_table(None, Some(table("@deka/b"))).unwrap();
    assert_eq!(chosen.grants[0].name, "@deka/b");
    assert!(choose_grant_table(None, None).is_none());
}

#[test]
fn root_host_kinds_are_refused_with_the_grant_table_hint() {
    assert_eq!(
        root_grant_refusal("bad"),
        "bad; deka.json 'host.kinds' is reserved for official @deka stdlib packages; apps acquire bridge authority only via the published grant table"
    );
}

#[test]
fn the_bootstrap_fills_its_three_markers() {
    let template = "/*__DEKA_POOL_ENUM_PRELUDE__*/\nconst r = __DEKA_TO_RESULT__;\n/*__DEKA_WINTERTC__*/";
    assert_eq!(
        assemble_bootstrap(template, "const E = 1;", "toResult", "shim();"),
        Some("const E = 1;\nconst r = toResult;\nshim();".to_string())
    );
    assert!(assemble_bootstrap("__DEKA_WINTERTC__", "", "", "").is_none());
    assert!(bootstrap_has_marker("x __DEKA_TO_RESULT__ y"));
    assert!(!bootstrap_has_marker("plain"));
}

#[test]
fn a_policy_refusal_answers_before_the_handler_runs() {
    assert!(policy_refusal(Ok(()), 7).is_none());
    let head = policy_refusal(Err("blocked".to_string()), 42).unwrap();
    assert!(!head.success);
    assert_eq!(head.error, Some("blocked".to_string()));
    assert_eq!(head.warm_time_us, 0);
    assert_eq!(head.total_time_us, 42);
    assert!(!head.cache_hit);
}

#[test]
fn strings_are_written_as_json_literals() {
    assert_eq!(json_str("plain"), "\"plain\"");
    assert_eq!(json_str("a\"b\\c"), "\"a\\\"b\\\\c\"");
    assert_eq!(json_str("line\nnext\ttab"), "\"line\\nnext\\ttab\"");
    assert_eq!(json_str("\u{1}"), "\"\\u0001\"");
}
