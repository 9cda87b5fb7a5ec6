use deka_pm::install_recovery::{finish_cleanup, CleanupStep};
use deka_pm::install_rules::{
    check_declared_specs, check_locked_entry, check_locked_lock, check_locked_unchanged,
    heals_legacy_module_graph,
};

fn pairs(items: &[(&str, &str)]) -> Vec<(String, String)> {
    items.iter().map(|(a, b)| (a.to_string(), b.to_string())).collect()
}

#[test]
fn a_locked_install_needs_a_lock() {
    assert_eq!(
        check_locked_lock(true, true),
        Err("--locked install requires an existing deka.lock".to_string())
    );
    assert_eq!(check_locked_lock(true, false), Ok(()));
    assert_eq!(check_locked_lock(false, true), Ok(()));
}

#[test]
fn a_locked_install_needs_each_package_in_the_lock() {
    assert_eq!(
        check_locked_entry(true, "@deka/fs", false),
        Err("--locked install requires '@deka/fs' in deka.lock".to_string())
    );
    assert_eq!(check_locked_entry(true, "@deka/fs", true), Ok(()));
    assert_eq!(check_locked_entry(false, "@deka/fs", false), Ok(()));
}

#[test]
fn a_locked_install_may_not_change_the_lock() {
    let existing = pairs(&[("a", "a@1.0.0"), ("b", "b@2.0.0")]);
    assert_eq!(check_locked_unchanged(true, &existing, &existing), Ok(()));
    let changed = pairs(&[("a", "a@1.1.0"), ("b", "b@2.0.0")]);
    assert_eq!(
        check_locked_unchanged(true, &existing, &changed),
        Err("--locked install would change deka.lock: a resolved to a@1.1.0 but lock has a@1.0.0".to_string())
    );
    let fewer = pairs(&[("a", "a@1.0.0")]);
    assert_eq!(
        check_locked_unchanged(true, &existing, &fewer),
        Err("--locked install would change deka.lock: b is present in lock but was not installed".to_string())
    );
    let more = pairs(&[("a", "a@1.0.0"), ("b", "b@2.0.0"), ("c", "c@3.0.0")]);
    assert_eq!(
        check_locked_unchanged(true, &existing, &more),
        Err("--locked install would change deka.lock: c is not in the existing lock".to_string())
    );
    assert_eq!(check_locked_unchanged(false, &existing, &changed), Ok(()));
}

#[test]
fn legacy_graph_hashes_heal_only_without_locked() {
    assert!(heals_legacy_module_graph(true, false));
    assert!(!heals_legacy_module_graph(true, true));
    assert!(!heals_legacy_module_graph(false, false));
}

#[test]
fn an_install_with_nothing_declared_is_refused() {
    assert_eq!(
        check_declared_specs(0),
        Err("no packages declared in deka.json or deka.lock".to_string())
    );
    assert_eq!(check_declared_specs(2), Ok(()));
}

fn describe(steps: &[CleanupStep]) -> Vec<(bool, String)> {
    steps
        .iter()
        .map(|s| match s {
            CleanupStep::RemoveFile { path } => (false, path.clone()),
            CleanupStep::RemoveTree { path } => (true, path.clone()),
        })
        .collect()
}

#[test]
fn finishing_removes_the_backup_then_each_staging_leftover() {
    let packages = pairs(&[("/p/ds_modules/a", "/p/.deka-staging/a"), ("/p/ds_modules/b", "/p/.deka-staging/b")]);
    let steps = finish_cleanup(Some("/p/deka.lock.bak"), &packages);
    assert_eq!(
        describe(&steps),
        vec![
            (false, "/p/deka.lock.bak".to_string()),
            (false, "/p/ds_modules/a/.deka-staged-package".to_string()),
            (true, "/p/.deka-staging/a".to_string()),
            (false, "/p/ds_modules/b/.deka-staged-package".to_string()),
            (true, "/p/.deka-staging/b".to_string()),
        ]
    );
    assert!(finish_cleanup(None, &Vec::new()).is_empty());
}
