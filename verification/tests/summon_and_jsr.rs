use deka_pm::jsr::{
    check_jsr_file, check_jsr_registry, jsr_base_text, jsr_charge, jsr_read_limit, jsr_registry,
};
use deka_pm::summon_rules::{
    check_summon_size, conflict_answer, initial_vendor_name, prompt_answer, unprompted_conflict,
    vendor_name_check, MAX_SUMMON_BYTES,
};

const MIB_64: u64 = 64 * 1024 * 1024;

#[test]
fn summoned_sources_are_limited_to_64_mib() {
    assert_eq!(MAX_SUMMON_BYTES, MIB_64);
    assert_eq!(check_summon_size(MIB_64), Ok(()));
    assert_eq!(check_summon_size(MIB_64 + 1), Err("summon source exceeds 64 MiB".to_string()));
}

#[test]
fn the_first_vendor_name_comes_from_package_json_or_the_basename() {
    assert_eq!(initial_vendor_name(Some("{\"name\": \"left-pad\"}"), "x.js"), Ok("left-pad".to_string()));
    assert_eq!(initial_vendor_name(Some("{\"version\": \"1.0.0\"}"), "three.min.js"), Ok("three-min".to_string()));
    assert_eq!(initial_vendor_name(None, "pkg-1.0.0.tgz"), Ok("pkg-1-0-0".to_string()));
    assert_eq!(
        initial_vendor_name(Some("{\"name\": 3}"), "x.js"),
        Err("package.json name must be a string".to_string())
    );
    assert!(initial_vendor_name(Some("{not json"), "x.js").is_err());
}

#[test]
fn vendor_names_are_checked_before_conflicts() {
    assert_eq!(
        vendor_name_check("Bad Name", false, false),
        Err("invalid vendor name \"Bad Name\"; @js/ requires an unscoped name containing letters, digits, '-' or '_'".to_string())
    );
    assert_eq!(vendor_name_check("lodash", true, true), Ok(true));
    assert_eq!(vendor_name_check("lodash", true, false), Ok(false));
}

#[test]
fn conflicts_need_a_different_name() {
    assert_eq!(
        conflict_answer("lodash", "lodash".to_string()),
        Err("summon conflict: @js/lodash already exists; choose a different name".to_string())
    );
    assert_eq!(conflict_answer("lodash", "lodash2".to_string()), Ok("lodash2".to_string()));
    assert_eq!(
        unprompted_conflict("lodash"),
        "summon conflict: @js/lodash already exists; use --prompt to choose a different vendor name"
    );
}

#[test]
fn an_empty_prompt_answer_cancels() {
    assert_eq!(prompt_answer("  lodash2 \n"), Ok("lodash2".to_string()));
    assert_eq!(prompt_answer(" \n"), Err("summon cancelled; existing package unchanged".to_string()));
}

#[test]
fn the_jsr_registry_defaults_and_gets_one_trailing_slash() {
    assert_eq!(jsr_registry(None), "https://jsr.io/");
    assert_eq!(jsr_registry(Some("http://localhost:9000")), "http://localhost:9000");
    assert_eq!(jsr_base_text("http://localhost:9000"), "http://localhost:9000/");
    assert_eq!(jsr_base_text("https://jsr.io///"), "https://jsr.io/");
}

#[test]
fn the_jsr_registry_must_be_a_plain_http_base() {
    assert_eq!(check_jsr_registry("https", false, false), Ok(()));
    assert_eq!(check_jsr_registry("http", false, false), Ok(()));
    let refused = Err("JSR registry must be an HTTP(S) base URL".to_string());
    assert_eq!(check_jsr_registry("ftp", false, false), refused);
    assert_eq!(check_jsr_registry("https", true, false), refused);
    assert_eq!(check_jsr_registry("https", false, true), refused);
}

#[test]
fn jsr_downloads_share_a_64_mib_budget() {
    assert_eq!(jsr_read_limit(0), MIB_64 + 1);
    assert_eq!(jsr_read_limit(MIB_64 - 10), 11);
    assert_eq!(jsr_read_limit(MIB_64 + 5), 1);
    assert_eq!(jsr_charge(10, 20), Ok(30));
    assert_eq!(jsr_charge(MIB_64 - 1, 1), Ok(MIB_64));
    assert_eq!(jsr_charge(MIB_64, 1), Err("JSR package exceeds 64 MiB".to_string()));
    assert_eq!(jsr_charge(0, u64::MAX), Err("JSR package exceeds 64 MiB".to_string()));
}

#[test]
fn jsr_files_must_match_their_pins() {
    assert_eq!(check_jsr_file("/mod.ts", Some("sha256-abc"), Some(3), "abc", 3), Ok(()));
    let refused = Err("JSR integrity mismatch: /mod.ts".to_string());
    assert_eq!(check_jsr_file("/mod.ts", Some("sha256-abd"), Some(3), "abc", 3), refused);
    assert_eq!(check_jsr_file("/mod.ts", Some("sha256-abc"), Some(4), "abc", 3), refused);
    assert_eq!(check_jsr_file("/mod.ts", None, Some(3), "abc", 3), refused);
    assert_eq!(check_jsr_file("/mod.ts", Some("sha256-abc"), None, "abc", 3), refused);
}
