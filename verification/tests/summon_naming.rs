use deka_pm::manifest::{json_document, json_member, object_keys, record_link, unlink_entry};
use deka_pm::summon_rules::{summon_dependency, summon_metadata, summon_step, vendor_name_taken, SummonAction};
use deka_pm::manifest::json_text;

fn s(v: &str) -> String {
    v.to_string()
}

#[test]
fn a_name_is_taken_by_the_manifest_the_lock_or_the_vendor_tree() {
    let deps = vec![s("@js/lodash")];
    let locked = vec![s("@js/three")];
    assert!(vendor_name_taken("lodash", &deps, &locked, false));
    assert!(vendor_name_taken("three", &deps, &locked, false));
    assert!(vendor_name_taken("react", &deps, &locked, true));
    assert!(!vendor_name_taken("react", &deps, &locked, false));
}

#[test]
fn a_free_valid_name_is_installed() {
    assert!(matches!(summon_step("react", true, false, None), SummonAction::Install { spec } if spec == "@js/react"));
}

#[test]
fn a_taken_name_asks_and_retries_with_the_answer() {
    assert!(matches!(summon_step("lodash", true, true, None), SummonAction::AskConflict { name } if name == "lodash"));
    assert!(matches!(
        summon_step("lodash", true, true, Some(s("lodash2"))),
        SummonAction::Retry { name } if name == "lodash2"
    ));
    match summon_step("lodash", true, true, Some(s("lodash"))) {
        SummonAction::Fail { error } => {
            assert_eq!(error, "summon conflict: @js/lodash already exists; choose a different name")
        }
        _ => panic!("expected Fail"),
    }
}

#[test]
fn an_invalid_name_is_refused_before_anything_else() {
    match summon_step("Bad Name", false, true, None) {
        SummonAction::Fail { error } => assert_eq!(
            error,
            "invalid vendor name \"Bad Name\"; @js/ requires an unscoped name containing letters, digits, '-' or '_'"
        ),
        _ => panic!("expected Fail"),
    }
}

#[test]
fn the_naming_loop_never_installs_over_an_existing_package() {
    // Replay the loop over a project that has `lodash` and `lodash2`.
    let deps = vec![s("@js/lodash"), s("@js/lodash2")];
    let mut answers = vec![s("lodash3"), s("lodash2")];
    let mut name = s("lodash");
    let mut answer = None;
    let spec = loop {
        let taken = vendor_name_taken(&name, &deps, &vec![], false);
        match summon_step(&name, true, taken, answer.take()) {
            SummonAction::AskConflict { .. } => answer = answers.pop(),
            SummonAction::Retry { name: next } => name = next,
            SummonAction::Install { spec } => break spec,
            SummonAction::Fail { error } => panic!("{error}"),
        }
    };
    assert_eq!(spec, "@js/lodash3");
    assert_eq!(summon_dependency("https://x.test/a.js"), "url:https://x.test/a.js");
}

#[test]
fn dependency_and_package_names_come_from_the_documents() {
    let manifest = json_document(r#"{"name":"app","dependencies":{"@js/a":"url:x","@js/b":"url:y"}}"#).unwrap();
    assert_eq!(object_keys(json_member(&manifest, "dependencies")), vec![s("@js/a"), s("@js/b")]);
    assert!(object_keys(json_member(&manifest, "missing")).is_empty());
}

#[test]
fn linking_then_unlinking_gives_back_the_target() {
    let links = vec![(s("@a/x"), s("/x")), (s("@c/z"), s("/z"))];
    let linked = record_link(links.clone(), "@b/y", "/y");
    assert_eq!(linked, vec![(s("@a/x"), s("/x")), (s("@b/y"), s("/y")), (s("@c/z"), s("/z"))]);
    let relinked = record_link(linked.clone(), "@b/y", "/y2");
    assert_eq!(relinked[1], (s("@b/y"), s("/y2")));
    let (rest, target) = unlink_entry(&linked, "@b/y", Some("@b/y")).unwrap();
    assert_eq!(target, "/y");
    assert_eq!(rest, links);
}

#[test]
fn summoned_packages_are_locked_with_their_file_digests() {
    let files = vec![(s("index.mjs"), s("sha256-a")), (s("lib/x.js"), s("sha256-b"))];
    let doc = summon_metadata("sha256-all", &files);
    assert_eq!(object_keys(Some(&doc)), vec![s("files"), s("integrity"), s("source")]);
    assert_eq!(json_text(json_member(&doc, "source")), Some(s("url")));
    assert_eq!(json_text(json_member(&doc, "integrity")), Some(s("sha256-all")));
    let f = json_member(&doc, "files");
    assert_eq!(object_keys(f), vec![s("index.mjs"), s("lib/x.js")]);
    assert_eq!(json_text(json_member(f.unwrap(), "lib/x.js")), Some(s("sha256-b")));
}
