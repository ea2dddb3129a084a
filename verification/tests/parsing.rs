//! Tests of path normalization, size parsing, configuration validation,
//! version-history parsing, rule matching, and the scan helpers.

use yek::config::PriorityRule;
use yek::config::YekConfig;
use yek::config::validate_config;
use yek::pathnorm::config_path_in;
use yek::pathnorm::is_effectively_absolute;
use yek::pathnorm::parent_path;
use yek::pathnorm::normalize_path;
use yek::recency::parse_commit_times;
use yek::scan::derive_chunk_file_name;
use yek::scan::extension_in_list;
use yek::scan::is_text_content;
use yek::size::parse_size_input;

#[test]
fn test_normalize_path() {
    let base = "/base/path";
    let path = "/base/path/foo/bar.txt";
    assert_eq!(normalize_path(&base, &path), "foo/bar.txt");

    // Test with path not under base
    let other_path = "/other/path/baz.txt";
    assert_eq!(normalize_path(&base, &other_path), "/other/path/baz.txt");

    // Test with relative paths
    let rel_base = "base";
    let rel_path = "base/foo/bar.txt";
    assert_eq!(normalize_path(&rel_base, &rel_path), "foo/bar.txt");

    // Test with current directory
    let current = ".";
    assert_eq!(normalize_path(&base, &current), ".");
}

#[test]
fn normalize_path_edge_cases() {
    assert_eq!(normalize_path("/base", "/base"), ".");
    assert_eq!(normalize_path("/base", "/base//sub/./x.txt"), "sub/x.txt");
    assert_eq!(normalize_path("/unrelated", "./foo"), "./foo");
    assert!(is_effectively_absolute("/anything"));
    assert!(!is_effectively_absolute("relative/path"));
    assert!(!is_effectively_absolute(""));
}

#[test]
fn parse_size_bytes_suffixes() {
    assert_eq!(parse_size_input("1KB", false), Ok(1024));
    assert_eq!(parse_size_input("2MB", false), Ok(2 * 1024 * 1024));
    assert_eq!(parse_size_input("1GB", false), Ok(1024 * 1024 * 1024));
    assert_eq!(parse_size_input("10kb", false), Ok(10 * 1024));
    assert_eq!(parse_size_input(" 512 ", false), Ok(512));
    assert_eq!(parse_size_input("7 KB", false), Ok(7 * 1024));
    assert_eq!(parse_size_input("0", false), Ok(0));
    assert!(parse_size_input("12XB", false).is_err());
    assert!(parse_size_input("KB", false).is_err());
    assert!(parse_size_input("", false).is_err());
    assert!(parse_size_input("-5", false).is_err());
}

#[test]
fn parse_size_tokens() {
    assert_eq!(parse_size_input("128K", true), Ok(128_000));
    assert_eq!(parse_size_input("128k", true), Ok(128_000));
    assert_eq!(parse_size_input("999", true), Ok(999));
    assert!(parse_size_input("1KB", true).is_err());
    assert!(parse_size_input("x", true).is_err());
}

#[test]
fn validate_config_reports_each_error() {
    let mut config = YekConfig::default();
    config.priority_rules = vec![
        PriorityRule {
            pattern: "ok".to_string(),
            score: 2000,
        },
        PriorityRule {
            pattern: String::new(),
            score: 10,
        },
    ];
    config.max_size = Some(0);
    let errors = validate_config(&config);
    assert_eq!(errors.len(), 3);
    assert_eq!(errors[0].field, "priority_rules");
    assert_eq!(
        errors[0].message,
        "Priority score 2000 must be between 0 and 1000"
    );
    assert_eq!(errors[1].field, "priority_rules");
    assert_eq!(errors[1].message, "Priority rule must have a pattern");
    assert_eq!(errors[2].field, "max_size");
    assert_eq!(errors[2].message, "Max size cannot be 0");
}

#[test]
fn validate_config_accepts_sound_values() {
    let mut config = YekConfig::default();
    config.priority_rules = vec![PriorityRule {
        pattern: "src/".to_string(),
        score: 1000,
    }];
    config.max_size = Some(1024);
    let errors = validate_config(&config);
    assert!(errors.is_empty());
}

#[test]
fn validate_config_negative_score_message() {
    let mut config = YekConfig::default();
    config.priority_rules = vec![PriorityRule {
        pattern: "x".to_string(),
        score: -3,
    }];
    let errors = validate_config(&config);
    assert_eq!(errors.len(), 1);
    assert_eq!(
        errors[0].message,
        "Priority score -3 must be between 0 and 1000"
    );
}

#[test]
fn commit_times_parse_and_overwrite() {
    let text = "1700000000\nsrc/lib.rs\nREADME.md\n\n1600000000\nsrc/lib.rs\n";
    let parsed = parse_commit_times(text).expect("expected a map");
    assert_eq!(parsed.len(), 2);
    // the later occurrence of src/lib.rs overwrote the earlier timestamp
    assert_eq!(parsed[0], ("src/lib.rs".to_string(), 1_600_000_000));
    assert_eq!(parsed[1], ("README.md".to_string(), 1_700_000_000));
}

#[test]
fn commit_times_without_files_is_none() {
    assert!(parse_commit_times("").is_none());
    assert!(parse_commit_times("1700000000\n\n").is_none());
}

#[test]
fn rule_matching_uses_regular_expressions() {
    let anchored = PriorityRule {
        pattern: "^src/".to_string(),
        score: 10,
    };
    assert!(anchored.matches("src/lib.rs"));
    assert!(!anchored.matches("tests/src/lib.rs"));
    let invalid = PriorityRule {
        pattern: "(".to_string(),
        score: 10,
    };
    assert!(!invalid.matches("anything("));
}

#[test]
fn text_detection_rejects_null_bytes() {
    assert!(is_text_content(&b"plain text".to_vec()));
    assert!(is_text_content(&Vec::new()));
    assert!(!is_text_content(&vec![104, 105, 0, 33]));
}

#[test]
fn extension_list_ignores_leading_dots() {
    let exts = vec![".png".to_string(), "exe".to_string()];
    assert!(extension_in_list(&"png".to_string(), &exts));
    assert!(extension_in_list(&"exe".to_string(), &exts));
    assert!(!extension_in_list(&"rs".to_string(), &exts));
}

#[test]
fn chunk_file_name_comes_from_header() {
    let payload = b"chunk 0\n>>>> my/file.txt:part 2\nbody\n".to_vec();
    assert_eq!(derive_chunk_file_name(&payload, 0), b"my/file.txt".to_vec());
    let plain = b"chunk 3\n>>>> plain.txt\nbody\n".to_vec();
    assert_eq!(derive_chunk_file_name(&plain, 3), b"plain.txt".to_vec());
    let headerless = b"no header here\n".to_vec();
    assert_eq!(derive_chunk_file_name(&headerless, 7), b"chunk-7".to_vec());
}

#[test]
fn parent_path_walks_up() {
    assert_eq!(parent_path("/a/b/c"), Some("/a/b".to_string()));
    assert_eq!(parent_path("/a"), Some("/".to_string()));
    assert_eq!(parent_path("/"), None);
    assert_eq!(parent_path("a/b"), Some("a".to_string()));
    assert_eq!(parent_path("a"), Some("".to_string()));
    assert_eq!(parent_path(""), None);
}

#[test]
fn config_path_joins_cleanly() {
    assert_eq!(config_path_in("/repo"), "/repo/yek.toml");
    assert_eq!(config_path_in("/"), "/yek.toml");
    assert_eq!(config_path_in(""), "yek.toml");
}
