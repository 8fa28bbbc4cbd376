use fastzip::update::{extract_json_string, is_newer, parse_semver, release_from_response};

#[test]
fn test_extract_json_string() {
    let json = r#"{"tag_name": "v0.2.0", "html_url": "https://example.com/releases/tag/v0.2.0", "body": "Release notes - Feature A - Bug fix B"}"#;
    assert_eq!(extract_json_string(json, "tag_name"), Some("v0.2.0"));
    assert_eq!(
        extract_json_string(json, "html_url"),
        Some("https://example.com/releases/tag/v0.2.0")
    );
    assert_eq!(
        extract_json_string(json, "body"),
        Some("Release notes - Feature A - Bug fix B")
    );
}

#[test]
fn test_semver_comparison() {
    assert!(is_newer("0.2.0", "0.1.0"));
    assert!(is_newer("1.0.0", "0.9.9"));
    assert!(!is_newer("0.1.0", "0.1.0"));
    assert!(!is_newer("0.0.9", "0.1.0"));
    assert!(is_newer("0.1.1", "0.1.0"));
}

#[test]
fn test_strips_v_prefix() {
    assert!(is_newer("v0.2.0", "0.1.0"));
}

#[test]
fn json_string_keeps_escaped_quotes_and_misses_absent_keys() {
    let json = r#"{"body": "say \"hi\" now", "n": 3}"#;
    assert_eq!(extract_json_string(json, "body"), Some(r#"say \"hi\" now"#));
    assert_eq!(extract_json_string(json, "missing"), None);
    assert_eq!(extract_json_string(r#"{"open": "never closed"#, "open"), None);
}

#[test]
fn semver_reads_digit_runs_and_defaults_to_zero() {
    assert_eq!(parse_semver("v1.2.3"), (1, 2, 3));
    assert_eq!(parse_semver("release-10.0"), (10, 0, 0));
    assert_eq!(parse_semver(""), (0, 0, 0));
    assert_eq!(parse_semver("1..2-beta.7.9"), (1, 2, 7));
    assert_eq!(parse_semver("99999999999.1.1"), (0, 1, 1));
}

#[test]
fn newer_is_irreflexive_asymmetric_and_transitive_on_examples() {
    assert!(!is_newer("1.4.2", "1.4.2"));
    assert!(is_newer("1.5.0", "1.4.9") && !is_newer("1.4.9", "1.5.0"));
    assert!(is_newer("2.0.0", "1.5.0") && is_newer("1.5.0", "1.4.9") && is_newer("2.0.0", "1.4.9"));
    assert_eq!(is_newer("x1.2.3", "1.2.2"), is_newer("1.2.3", "1.2.2"));
}

#[test]
fn release_is_offered_only_when_newer() {
    let body = r#"{"tag_name": "v0.3.1", "html_url": "https://example.com/r/v0.3.1", "body": "Fixes"}"#;
    let info = release_from_response(body, "0.3.0").expect("newer release");
    assert_eq!(info.version, "0.3.1");
    assert_eq!(info.download_url, "https://example.com/r/v0.3.1");
    assert_eq!(info.body, "Fixes");
    assert!(release_from_response(body, "0.3.1").is_none());
}

#[test]
fn release_fields_fall_back_when_missing() {
    let body = r#"{"tag_name": "9.0.0"}"#;
    let info = release_from_response(body, "1.0.0").expect("newer release");
    assert_eq!(info.version, "9.0.0");
    assert_eq!(info.download_url, "https://github.com/ccccyccccc/fastZIP/releases/latest");
    assert_eq!(info.body, "");
    assert!(release_from_response("{}", "0.0.1").is_none());
}
