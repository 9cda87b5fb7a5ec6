use deka_pm::scaffold::{files_to_write, init_report, project_name, scaffold_files, scaffold_manifest};

#[test]
fn the_scaffold_is_the_app_router_tree() {
    assert_eq!(
        scaffold_files(),
        vec![
            "deka.json", "deka.lock", ".gitignore", "index.html", "app/layout.dsx", "app/page.dsx",
            "app/Counter.dsx", "public/style.css", "public/404.html",
        ]
    );
    assert!(!scaffold_files().iter().any(|f| f.starts_with("src/")));
}

#[test]
fn a_project_is_named_after_its_directory() {
    assert_eq!(project_name("/home/me/demo"), "demo");
    assert_eq!(project_name("/home/me/demo/"), "demo");
    assert_eq!(project_name("/"), "app");
    assert_eq!(project_name("/home/me/ "), "app");
}

#[test]
fn the_manifest_template_gets_the_project_name() {
    assert_eq!(
        scaffold_manifest("{\"name\": \"__APP_NAME__\", \"tasks\": {}}", "demo"),
        "{\"name\": \"demo\", \"tasks\": {}}"
    );
}

#[test]
fn existing_files_are_left_alone() {
    let mut exists = vec![false; 9];
    assert_eq!(files_to_write(&exists).len(), 9);
    exists[0] = true;
    exists[4] = true;
    let written = files_to_write(&exists);
    assert_eq!(written.len(), 7);
    assert_eq!(written[0], "deka.lock");
    assert!(!written.contains(&"app/layout.dsx".to_string()));
    assert!(files_to_write(&vec![true; 9]).is_empty());
}

#[test]
fn init_reports_next_steps() {
    assert_eq!(init_report(Some("demo"), 0), vec!["[init] project is already initialized"]);
    assert_eq!(
        init_report(Some("demo"), 3),
        vec!["[init] DekaScript app ready", "  cd demo", "  deka serve"]
    );
    assert_eq!(init_report(Some("."), 3), vec!["[init] DekaScript app ready", "  deka serve", "  deka dev"]);
    assert_eq!(init_report(None, 1), vec!["[init] DekaScript app ready", "  deka serve", "  deka dev"]);
}

#[test]
fn a_second_run_over_a_complete_scaffold_writes_nothing() {
    let mut exists = vec![true; 9];
    assert!(files_to_write(&exists).is_empty());
    exists[8] = false;
    assert_eq!(files_to_write(&exists), vec!["public/404.html"]);
}
