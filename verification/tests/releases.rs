use deka_pm::releases::{check_release_response, download_url, releases_url, BinaryInfo, LatestRelease};
use deka_pm::versions::is_newer;

const MANIFEST_URL: &str = "http://127.0.0.1:8080/latest.json";

/// The platform key the fixture manifest publishes a binary under.
fn platform_key() -> Option<&'static str> {
    Some("linux-x64")
}

fn sample_manifest(version: &str) -> LatestRelease {
    let key = platform_key().expect("test host has a published platform key");
    LatestRelease {
        version: version.to_string(),
        tag: format!("v{}", version),
        binaries: vec![(
            key.to_string(),
            BinaryInfo { name: format!("deka-{}", key), sha256: "deadbeef".to_string() },
        )],
    }
}

#[test]
fn reports_up_to_date_when_manifest_matches_running_version() {
    let release = sample_manifest("0.53.0");
    assert_eq!(release.version, "0.53.0");
    assert!(!is_newer("0.53.0", &release.version));
}

#[test]
fn reports_newer_version_and_builds_a_download_url() {
    let release = sample_manifest("9.9.9");
    assert!(is_newer("0.53.0", &release.version));
    let download =
        download_url(MANIFEST_URL, &release, platform_key()).expect("download url for current platform");
    let key = platform_key().unwrap();
    let expected_base = MANIFEST_URL.trim_end_matches("/latest.json");
    assert_eq!(download, format!("{}/9.9.9/deka-{}", expected_base, key));
}

#[test]
fn download_url_needs_a_platform_and_a_published_binary() {
    let release = sample_manifest("1.0.0");
    assert_eq!(download_url(MANIFEST_URL, &release, None), None);
    assert_eq!(download_url(MANIFEST_URL, &release, Some("plan9-mips")), None);
}

#[test]
fn a_platform_key_names_one_binary() {
    let mut release = LatestRelease::new("1.2.0".to_string(), "v1.2.0".to_string());
    release.insert_binary(
        "linux-x64".to_string(),
        BinaryInfo { name: "deka-old".to_string(), sha256: String::new() },
    );
    release.insert_binary(
        "darwin-arm64".to_string(),
        BinaryInfo { name: "deka-mac".to_string(), sha256: String::new() },
    );
    release.insert_binary(
        "linux-x64".to_string(),
        BinaryInfo { name: "deka-linux".to_string(), sha256: String::new() },
    );
    assert_eq!(release.binaries.len(), 2);
    assert_eq!(
        download_url("https://releases.deka.gg/latest.json", &release, Some("linux-x64")).as_deref(),
        Some("https://releases.deka.gg/1.2.0/deka-linux")
    );
}

#[test]
fn the_release_url_override_wins_unless_empty() {
    assert_eq!(releases_url(Some("http://127.0.0.1:9/latest.json")), "http://127.0.0.1:9/latest.json");
    assert_eq!(releases_url(Some("")), "https://releases.deka.gg/latest.json");
    assert_eq!(releases_url(None), "https://releases.deka.gg/latest.json");
    assert_eq!(
        check_release_response("u", false, "404 Not Found"),
        Err("release manifest request to u failed: 404 Not Found".to_string())
    );
}
