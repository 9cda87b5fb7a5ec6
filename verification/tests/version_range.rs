use deka_pm::versions::{
    is_newer, latest_version, satisfies, select_best, select_registry_version, select_version,
    RegistryPackage,
};

fn versions(raw: &[&str]) -> Vec<String> {
    raw.iter().map(|value| value.to_string()).collect()
}

#[test]
fn caret_picks_highest_compatible_minor_and_patch() {
    let catalog = versions(&["0.3.0", "0.3.1", "0.3.4", "0.4.0", "1.0.0"]);
    assert_eq!(select_best("^0.3.1", &catalog).unwrap(), "0.3.4");
}

#[test]
fn caret_on_zero_major_is_locked_to_minor() {
    let catalog = versions(&["0.3.1", "0.3.9", "0.4.0"]);
    assert_eq!(select_best("^0.3.1", &catalog).unwrap(), "0.3.9");
}

#[test]
fn tilde_picks_highest_patch_only() {
    let catalog = versions(&["1.2.3", "1.2.9", "1.3.0"]);
    assert_eq!(select_best("~1.2.3", &catalog).unwrap(), "1.2.9");
}

#[test]
fn gte_picks_highest_available() {
    let catalog = versions(&["1.2.3", "1.9.0", "2.0.0"]);
    assert_eq!(select_best(">=1.2.3", &catalog).unwrap(), "2.0.0");
}

#[test]
fn gt_excludes_the_named_version() {
    let catalog = versions(&["1.2.3", "1.2.4"]);
    assert_eq!(select_best(">1.2.3", &catalog).unwrap(), "1.2.4");
    assert!(select_best(">1.2.4", &catalog).is_err());
}

#[test]
fn lt_and_lte_pick_the_highest_below_the_bound() {
    let catalog = versions(&["1.0.0", "1.5.0", "2.0.0"]);
    assert_eq!(select_best("<2.0.0", &catalog).unwrap(), "1.5.0");
    assert_eq!(select_best("<=1.5.0", &catalog).unwrap(), "1.5.0");
    assert!(select_best("<1.0.0", &catalog).is_err());
}

#[test]
fn explicit_eq_behaves_like_a_pin() {
    let catalog = versions(&["1.2.3", "1.2.4"]);
    assert_eq!(select_best("=1.2.3", &catalog).unwrap(), "1.2.3");
}

#[test]
fn bare_version_is_an_exact_pin_not_an_implicit_caret() {
    let catalog = versions(&["1.2.3", "1.2.4"]);
    assert_eq!(select_best("1.2.3", &catalog).unwrap(), "1.2.3");
    assert!(select_best("1.2.5", &catalog).is_err());
}

#[test]
fn latest_and_star_and_empty_all_mean_highest_stable() {
    let catalog = versions(&["0.1.0", "0.2.0"]);
    assert_eq!(select_best("latest", &catalog).unwrap(), "0.2.0");
    assert_eq!(select_best("*", &catalog).unwrap(), "0.2.0");
    assert_eq!(select_best("", &catalog).unwrap(), "0.2.0");
}

#[test]
fn latest_skips_prereleases_when_a_stable_release_exists() {
    let catalog = versions(&["0.2.0", "0.3.0-beta.1"]);
    assert_eq!(select_best("latest", &catalog).unwrap(), "0.2.0");
}

#[test]
fn latest_falls_back_to_prerelease_when_nothing_stable_exists() {
    let catalog = versions(&["0.1.0-alpha.1", "0.1.0-alpha.2"]);
    assert_eq!(select_best("latest", &catalog).unwrap(), "0.1.0-alpha.2");
}

#[test]
fn range_excludes_prerelease_of_a_different_triple() {
    let catalog = versions(&["1.2.0", "1.3.0-alpha.1"]);
    assert_eq!(select_best("^1.2.0", &catalog).unwrap(), "1.2.0");
}

#[test]
fn range_matches_prerelease_of_the_same_triple_when_named() {
    let catalog = versions(&["1.2.3-alpha.1", "1.2.3-alpha.2", "1.2.3-beta.1"]);
    assert_eq!(select_best("^1.2.3-alpha.1", &catalog).unwrap(), "1.2.3-beta.1");
}

#[test]
fn no_match_names_the_constraint_and_the_available_versions() {
    let catalog = versions(&["0.1.0", "0.2.0"]);
    let err = select_best("^1.0.0", &catalog).unwrap_err();
    assert!(err.contains("^1.0.0"), "error should name the constraint: {err}");
    assert!(err.contains("0.1.0"), "error should list available versions: {err}");
    assert!(err.contains("0.2.0"), "error should list available versions: {err}");
}

#[test]
fn no_match_reports_none_available_for_an_empty_catalog() {
    let err = select_best("^1.0.0", &Vec::new()).unwrap_err();
    assert!(err.contains("none"), "error should say none available: {err}");
}

#[test]
fn invalid_range_syntax_is_a_clear_error_not_a_panic() {
    let err = select_best("^not-a-version", &versions(&["1.0.0"])).unwrap_err();
    assert!(err.contains("^not-a-version"));
}

#[test]
fn satisfies_checks_an_already_resolved_version_against_a_range() {
    assert!(satisfies("^1.2.0", "1.4.0"));
    assert!(!satisfies("^1.2.0", "2.0.0"));
    assert!(satisfies("~1.2.0", "1.2.9"));
    assert!(!satisfies("~1.2.0", "1.3.0"));
    assert!(satisfies("1.2.3", "1.2.3"));
    assert!(!satisfies("1.2.3", "1.2.4"));
    assert!(satisfies("latest", "9.9.9"));
}

#[test]
fn latest_and_star_and_empty_satisfy_a_prerelease_resolved_version() {
    assert!(satisfies("latest", "9.9.9-fixture"));
    assert!(satisfies("*", "0.1.0-alpha.1"));
    assert!(satisfies("", "2.0.0-rc.1"));
}

#[test]
fn select_version_uses_latest_usable_registry_version() {
    let registry = RegistryPackage {
        versions: vec!["0.1.0".into(), "0.1.1".into(), "0.2.0".into()],
    };
    assert_eq!(select_version(&registry, "latest").expect("latest"), "0.2.0");
    assert_eq!(select_version(&registry, "0.1.1").expect("exact"), "0.1.1");
    assert_ne!(
        select_version(
            &RegistryPackage {
                versions: vec!["0.1.1".into()],
            },
            "latest"
        )
        .expect("catalog latest"),
        "0.1.0"
    );
}

#[test]
fn unlocked_add_selects_latest_registry_version() {
    let registry = RegistryPackage {
        versions: vec!["0.1.0".into(), "0.1.1".into(), "0.2.0".into()],
    };
    assert_eq!(select_registry_version(&registry, "latest").expect("latest"), "0.2.0");
    assert_eq!(select_registry_version(&registry, "0.1.1").expect("exact"), "0.1.1");
    assert_ne!(
        select_registry_version(
            &RegistryPackage {
                versions: vec!["0.1.1".into()],
            },
            "latest"
        )
        .expect("catalog latest"),
        "0.1.0"
    );
}

#[test]
fn older_running_version_than_manifest_is_not_newer_in_reverse() {
    assert!(is_newer("1.1.0", "1.2.0"));
    assert!(!is_newer("1.2.0", "1.1.0"));
    assert!(!is_newer("1.2.0", "1.2.0"));
}

#[test]
fn non_semver_versions_fall_back_to_string_inequality() {
    assert!(is_newer("dev", "0.53.0"));
    assert!(!is_newer("dev", "dev"));
}

// ---- further cases -------------------------------------------------------

#[test]
fn no_match_lists_available_versions_sorted_as_text() {
    let err = select_best("^9.0.0", &versions(&["0.2.0", "0.10.0", "0.1.0"])).unwrap_err();
    assert_eq!(
        err,
        "no published version satisfies `^9.0.0` -- available versions: 0.1.0, 0.10.0, 0.2.0"
    );
}

#[test]
fn leading_v_and_blank_catalog_entries_are_tolerated() {
    let catalog = versions(&["  ", "v1.0.0", " v1.1.0 "]);
    assert_eq!(select_best("^1.0.0", &catalog).unwrap(), "1.1.0");
}

#[test]
fn unparseable_catalog_entry_is_reported() {
    let err = select_best("latest", &versions(&["1.0.0", "garbage"])).unwrap_err();
    assert!(err.starts_with("registry version `garbage` is not semver: "), "{err}");
}

#[test]
fn bare_version_parse_error_names_the_raw_text() {
    let err = select_best("1.x", &versions(&["1.0.0"])).unwrap_err();
    assert!(err.starts_with("`1.x` is not a valid semver version: "), "{err}");
}

#[test]
fn latest_version_keeps_the_first_of_equal_versions_as_listed() {
    let list = versions(&["v1.0.0", "1.0.0", "0.9.0"]);
    assert_eq!(latest_version(&list).unwrap(), "1.0.0");
    assert_eq!(latest_version(&versions(&["v2.0.0"])).unwrap(), "2.0.0");
}

#[test]
fn latest_version_errors() {
    assert_eq!(latest_version(&versions(&["", "  "])).unwrap_err(), "registry listed no usable versions");
    assert_eq!(
        latest_version(&versions(&["1.0.0", "nope"])).unwrap_err(),
        "registry version `nope` is not semver"
    );
}

#[test]
fn select_version_picks_the_highest_version_a_range_admits() {
    let registry = RegistryPackage {
        versions: vec!["0.1.0".into(), "0.1.1".into(), "0.2.0".into()],
    };
    assert_eq!(select_version(&registry, "^0.1.0").unwrap(), "0.1.1");
    assert_eq!(select_version(&registry, " >=0.1.0 ").unwrap(), "0.2.0");
    assert!(select_version(&registry, "^1.0.0").is_err());
    assert!(select_version(&RegistryPackage { versions: vec![] }, "*").is_err());
}

#[test]
fn satisfies_rejects_unparseable_input() {
    assert!(!satisfies("^bogus", "1.0.0"));
    assert!(!satisfies("^1.0.0", "not-a-version"));
}

#[test]
fn install_version_prefers_the_lock() {
    let registry = deka_pm::versions::RegistryPackage { versions: vec!["0.1.0".to_string(), "0.2.0".to_string()] };
    assert_eq!(deka_pm::versions::registry_install_version(Some("0.1.0"), &registry, "latest", "@deka/x").unwrap(), "0.1.0");
    assert_eq!(deka_pm::versions::registry_install_version(None, &registry, "latest", "@deka/x").unwrap(), "0.2.0");
    let broken = deka_pm::versions::RegistryPackage { versions: vec!["not-semver".to_string()] };
    assert_eq!(
        deka_pm::versions::registry_install_version(None, &broken, "latest", "@deka/x").unwrap_err(),
        "failed to select a version for @deka/x"
    );
}

#[test]
fn a_selected_version_satisfies_its_own_constraint() {
    let catalog = versions(&["1.0.0", "1.2.0-beta.1", "1.4.2+build.7", "2.0.0"]);
    for constraint in ["^1.0.0", "~1.4.0", ">=1.2.0-beta.1", "1.4.2+build.7", "latest", "<2.0.0"] {
        let chosen = select_best(constraint, &catalog).unwrap();
        assert!(satisfies(constraint, &chosen), "{constraint} chose {chosen}");
    }
    let registry = RegistryPackage { versions: catalog.clone() };
    let chosen = select_version(&registry, " ^1.0.0 ").unwrap();
    assert_eq!(chosen, "1.4.2+build.7");
    assert!(satisfies(" ^1.0.0 ", &chosen));
}
