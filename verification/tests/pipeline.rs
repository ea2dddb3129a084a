//! End-to-end tests of the scoring, ordering and packing pipeline.

use yek::config::PriorityRule;
use yek::config::YekConfig;
use yek::order::plan_chunks;
use yek::order::sort_entries_by_priority;
use yek::pack::write_chunks;
use yek::priority::get_file_priority;
use yek::recency::compute_recentness_boost;

fn rule(pattern: &str, score: i32) -> PriorityRule {
    PriorityRule { pattern: pattern.to_string(), score }
}

fn config_with(max_size: Option<usize>, token_mode: bool, rules: Vec<PriorityRule>) -> YekConfig {
    let mut config = YekConfig::default();
    config.max_size = max_size;
    config.token_mode = token_mode;
    config.priority_rules = rules;
    config
}

fn payload_strings(chunks: &[Vec<u8>]) -> Vec<String> {
    chunks
        .iter()
        .map(|c| String::from_utf8_lossy(c).into_owned())
        .collect()
}

/// The last-written chunk contains the highest-priority file: a small
/// low-priority file lands before a large high-priority one in the chunk
/// stream.
#[test]
fn chunk_order_reflects_priority() {
    let rules = vec![rule("^low_priority/", 10), rule("^high_priority/", 999)];
    let big_content = "HIGH PRIORITY\n".repeat(1000);
    let files = vec![
        (
            "high_priority/foo.txt".to_string(),
            big_content.clone(),
        ),
        (
            "low_priority/foo.txt".to_string(),
            "low priority content".to_string(),
        ),
    ];
    let config = config_with(Some(1024), false, rules);
    let chunks = plan_chunks(&files, &config, &None);
    let texts = payload_strings(&chunks);
    let mut found_low = false;
    let mut found_high = false;
    for text in &texts {
        for line in text.lines() {
            if line.contains("low_priority/foo.txt") {
                found_low = true;
            } else if line.contains("high_priority/foo.txt") {
                found_high = true;
                assert!(
                    found_low,
                    "Low priority file should appear before high priority file"
                );
            }
        }
    }
    assert!(found_low, "Low priority file should be in the output");
    assert!(found_high, "High priority file should be in the output");
}

/// Higher-scored paths are emitted after lower-scored ones.
#[test]
fn priority_rules_are_applied() {
    let rules = vec![rule("^very_important/", 100), rule("^less_important/", 10)];
    let files = vec![
        (
            "very_important/one.txt".to_string(),
            "high priority".to_string(),
        ),
        (
            "less_important/two.txt".to_string(),
            "lower priority".to_string(),
        ),
    ];
    let config = config_with(None, false, rules);
    let chunks = plan_chunks(&files, &config, &None);
    let all: String = payload_strings(&chunks).concat();
    let less = all
        .find("less_important")
        .expect("less_important not found");
    let very = all
        .find("very_important")
        .expect("very_important not found");
    assert!(
        less < very,
        "very_important should appear after less_important"
    );
}

/// A single file that fits in one chunk is emitted verbatim with its
/// header, and the chunk text is exact.
#[test]
fn single_small_file_payload_is_exact() {
    let entries = vec![("a.txt".to_string(), "hello".to_string(), 0i32)];
    let config = config_with(Some(1024), false, vec![]);
    let chunks = write_chunks(&entries, &config);
    assert_eq!(chunks.len(), 1);
    assert_eq!(chunks[0], b"chunk 0\n>>>> a.txt\nhello\n".to_vec());
}

/// Two small files are packed into the same chunk, each under its own
/// record header carrying the shared chunk index.
#[test]
fn small_files_share_a_chunk() {
    let entries = vec![
        ("a.txt".to_string(), "one".to_string(), 0i32),
        ("b.txt".to_string(), "two".to_string(), 0i32),
    ];
    let config = config_with(Some(1024), false, vec![]);
    let chunks = write_chunks(&entries, &config);
    assert_eq!(chunks.len(), 1);
    assert_eq!(
        chunks[0],
        b"chunk 0\n>>>> a.txt\none\nchunk 0\n>>>> b.txt\ntwo\n".to_vec()
    );
}

/// A file of size exactly the capacity is never split.
#[test]
fn exact_fit_is_not_split() {
    let content = "x".repeat(64);
    let entries = vec![("big.txt".to_string(), content.clone(), 0i32)];
    let config = config_with(Some(64), false, vec![]);
    let chunks = write_chunks(&entries, &config);
    assert_eq!(chunks.len(), 1);
    let text = String::from_utf8_lossy(&chunks[0]).into_owned();
    assert!(!text.contains(":part"));
    assert!(text.contains(&content));
}

/// A file one byte over the capacity is force-split into two part chunks
/// that together carry the whole content.
#[test]
fn oversized_file_splits_by_bytes() {
    let content: String = "abcdefgh".repeat(8) + "z";
    let entries = vec![("big.txt".to_string(), content.clone(), 0i32)];
    let config = config_with(Some(64), false, vec![]);
    let chunks = write_chunks(&entries, &config);
    assert_eq!(chunks.len(), 2);
    let expected0 = format!("chunk 0\n>>>> big.txt:part 0\n{}\n", &content[..64]);
    let expected1 = format!("chunk 1\n>>>> big.txt:part 1\n{}\n", &content[64..]);
    assert_eq!(chunks[0], expected0.as_bytes().to_vec());
    assert_eq!(chunks[1], expected1.as_bytes().to_vec());
}

/// A capacity below a file's token count makes that file alone produce
/// `ceil(tokens / capacity)` part chunks, each holding exactly `capacity`
/// tokens except the last.
#[test]
fn oversized_file_splits_by_tokens() {
    let content = "alpha beta gamma delta epsilon".to_string();
    let entries = vec![("words.txt".to_string(), content.clone(), 0i32)];
    let config = config_with(Some(2), true, vec![]);
    let chunks = write_chunks(&entries, &config);
    assert_eq!(chunks.len(), 3);
    assert_eq!(chunks[0], b"chunk 0\n>>>> words.txt:part 0\nalpha beta \n".to_vec());
    assert_eq!(chunks[1], b"chunk 1\n>>>> words.txt:part 1\ngamma delta \n".to_vec());
    assert_eq!(chunks[2], b"chunk 2\n>>>> words.txt:part 2\nepsilon\n".to_vec());
    let mut reassembled = String::new();
    for (k, chunk) in chunks.iter().enumerate() {
        let text = String::from_utf8_lossy(chunk).into_owned();
        let header_len = format!("chunk {}\n>>>> words.txt:part {}\n", k, k).len();
        let body = &text[header_len..text.len() - 1];
        let tokens = body.split_whitespace().count();
        if k + 1 < chunks.len() {
            assert_eq!(tokens, 2);
        } else {
            assert_eq!(tokens, 1);
        }
        reassembled.push_str(body);
    }
    assert_eq!(reassembled, content);
}

/// A token-mode forced split cuts at token boundaries without normalising
/// whitespace: the parts reassemble the content byte for byte.
#[test]
fn token_split_preserves_whitespace() {
    let content = "a  b\tc\n d".to_string();
    let entries = vec![("ws.txt".to_string(), content.clone(), 0i32)];
    let config = config_with(Some(1), true, vec![]);
    let chunks = write_chunks(&entries, &config);
    assert_eq!(chunks.len(), 4);
    let mut reassembled = String::new();
    for (k, chunk) in chunks.iter().enumerate() {
        let text = String::from_utf8_lossy(chunk).into_owned();
        let header = format!("chunk {}\n>>>> ws.txt:part {}\n", k, k);
        assert!(text.starts_with(&header));
        reassembled.push_str(&text[header.len()..text.len() - 1]);
    }
    assert_eq!(reassembled, content);
}

/// Concatenating the bodies of all chunks reproduces every input file's
/// content, byte for byte, in input order.
#[test]
fn bodies_reconstruct_contents() {
    let contents = vec![
        ("a.txt".to_string(), "first file".to_string(), 0i32),
        ("b.txt".to_string(), "0123456789".repeat(20), 0i32),
        ("c.txt".to_string(), "last".to_string(), 0i32),
    ];
    let config = config_with(Some(64), false, vec![]);
    let chunks = write_chunks(&contents, &config);
    let mut bodies = String::new();
    for chunk in &chunks {
        let text = String::from_utf8_lossy(chunk).into_owned();
        let mut lines = text.lines();
        while let Some(line) = lines.next() {
            if line.starts_with("chunk ") {
                // the record header is two lines: the index and the path
                let _path = lines.next().unwrap();
            } else {
                bodies.push_str(line);
            }
        }
    }
    let expected: String = contents.iter().map(|e| e.1.clone()).collect();
    assert_eq!(bodies, expected);
}

/// Tokens are delimited by any Unicode whitespace, and a split through
/// multi-byte whitespace still reassembles the content byte for byte.
#[test]
fn token_split_handles_unicode_whitespace() {
    let content = "one\u{00A0}two three".to_string();
    let entries = vec![("u.txt".to_string(), content.clone(), 0i32)];
    let config = config_with(Some(1), true, vec![]);
    let chunks = write_chunks(&entries, &config);
    assert_eq!(chunks.len(), 3);
    let mut reassembled = String::new();
    for (k, chunk) in chunks.iter().enumerate() {
        let text = String::from_utf8_lossy(chunk).into_owned();
        let header = format!("chunk {}\n>>>> u.txt:part {}\n", k, k);
        assert!(text.starts_with(&header));
        reassembled.push_str(&text[header.len()..text.len() - 1]);
    }
    assert_eq!(reassembled, content);
}

/// The static score is the maximum among matching rules, zero without a
/// match, and shuffling the rule list changes nothing.
#[test]
fn scorer_is_order_independent() {
    let rules1 = vec![rule("src/", 10), rule(".rs", 100), rule("main", 50)];
    let rules2 = vec![rule("main", 50), rule(".rs", 100), rule("src/", 10)];
    assert_eq!(get_file_priority("src/main.rs", &rules1), 100);
    assert_eq!(get_file_priority("src/main.rs", &rules2), 100);
    assert_eq!(get_file_priority("docs/readme.md", &rules1), 0);
    assert_eq!(get_file_priority("src/lib.c", &rules1), 10);
}

/// A rule matches by substring containment or as a valid regular
/// expression; an invalid expression still matches as a plain substring.
#[test]
fn scorer_accepts_regex_and_substring_matches() {
    // regex-only match: "^x" is not a substring of "xy"
    assert_eq!(get_file_priority("xy", &vec![rule("^x", 7)]), 7);
    assert_eq!(get_file_priority("zy", &vec![rule("^x", 7)]), 0);
    // anchored rules score through the regex engine
    let rules = vec![rule("^low/", 10), rule("^high/", 999)];
    assert_eq!(get_file_priority("low/a.txt", &rules), 10);
    assert_eq!(get_file_priority("high/b.txt", &rules), 999);
    assert_eq!(get_file_priority("other/high/b.txt", &rules), 0);
    // an invalid expression still matches as a substring, never errors
    assert_eq!(get_file_priority("a(b", &vec![rule("(", 5)]), 5);
    assert_eq!(get_file_priority("ab", &vec![rule("(", 5)]), 0);
}

/// One known path gets boost zero; two paths with distinct timestamps get
/// zero and the full maximum, whatever the absolute timestamps are.
#[test]
fn recency_boost_extremes() {
    let single = vec![("only.txt".to_string(), 1_700_000_000u64)];
    let boosts = compute_recentness_boost(&single, 50);
    assert_eq!(boosts.len(), 1);
    assert_eq!(boosts[0], ("only.txt".to_string(), 0));

    let pair = vec![
        ("newer.txt".to_string(), 9_999_999u64),
        ("older.txt".to_string(), 3u64),
    ];
    let boosts = compute_recentness_boost(&pair, 50);
    assert_eq!(boosts.len(), 2);
    assert_eq!(boosts[0], ("older.txt".to_string(), 0));
    assert_eq!(boosts[1], ("newer.txt".to_string(), 50));
}

/// Intermediate ranks scale linearly: three files get 0, 25 and 50.
#[test]
fn recency_boost_scales_linearly() {
    let times = vec![
        ("b.txt".to_string(), 200u64),
        ("a.txt".to_string(), 100u64),
        ("c.txt".to_string(), 300u64),
    ];
    let boosts = compute_recentness_boost(&times, 50);
    assert_eq!(boosts[0], ("a.txt".to_string(), 0));
    assert_eq!(boosts[1], ("b.txt".to_string(), 25));
    assert_eq!(boosts[2], ("c.txt".to_string(), 50));
}

/// The sort is stable: entries with equal priority keep their input order.
#[test]
fn sort_is_stable_on_ties() {
    let entries = vec![
        ("z.txt".to_string(), "1".to_string(), 5i32),
        ("a.txt".to_string(), "2".to_string(), 5i32),
        ("m.txt".to_string(), "3".to_string(), 1i32),
    ];
    let sorted = sort_entries_by_priority(&entries);
    assert_eq!(sorted[0].0, "m.txt");
    assert_eq!(sorted[1].0, "z.txt");
    assert_eq!(sorted[2].0, "a.txt");
}

/// The file matching the rule lands at or after the non-matching file in
/// emission order.
#[test]
fn matching_file_lands_last() {
    let rules = vec![rule("foo", 5)];
    let files = vec![
        ("foo.txt".to_string(), "matched".to_string()),
        ("bar.txt".to_string(), "unmatched".to_string()),
    ];
    let config = config_with(None, false, rules);
    let chunks = plan_chunks(&files, &config, &None);
    let all: String = payload_strings(&chunks).concat();
    let bar = all.find(">>>> bar.txt").expect("bar.txt not found");
    let foo = all.find(">>>> foo.txt").expect("foo.txt not found");
    assert!(bar < foo);
}

/// A path known to the version history gains its recency boost on top of
/// the static score, and unknown paths gain nothing.
#[test]
fn recency_boost_feeds_priorities() {
    let rules = vec![rule("a", 10), rule("b", 10)];
    let times = Some(vec![
        ("a.txt".to_string(), 100u64),
        ("b.txt".to_string(), 200u64),
    ]);
    let files = vec![
        ("b.txt".to_string(), "newer".to_string()),
        ("a.txt".to_string(), "older".to_string()),
    ];
    let config = config_with(None, false, rules);
    let chunks = plan_chunks(&files, &config, &times);
    let all: String = payload_strings(&chunks).concat();
    // a.txt: 10 + 0, b.txt: 10 + 50, so a.txt is emitted first
    let a = all.find(">>>> a.txt").expect("a.txt not found");
    let b = all.find(">>>> b.txt").expect("b.txt not found");
    assert!(a < b);
}
