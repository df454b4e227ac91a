use kernelizer_rs::patterns::{is_skipped_dir, is_source_extension, search_terms, PatternScan};

#[test]
fn search_terms_keywords_then_pairs() {
    let terms = search_terms("add rate limiting to the API handler");
    let expected: Vec<String> = [
        "rate",
        "limiting",
        "handler",
        "ratelimiting",
        "rate_limiting",
        "limitinghandler",
        "limiting_handler",
    ]
    .iter()
    .map(|s| s.to_string())
    .collect();
    assert_eq!(terms, expected);
}

#[test]
fn search_terms_are_distinct_lowercase_keywords() {
    let terms = search_terms("Cache cache `Cache`, cache_layer!");
    assert_eq!(terms[0], "cache");
    assert_eq!(terms[1], "cache_layer");
    assert_eq!(terms.iter().filter(|t| t.as_str() == "cache").count(), 1);
}

#[test]
fn search_terms_of_stop_words_only_are_empty() {
    assert!(search_terms("add the code to our file").is_empty());
}

#[test]
fn scan_makes_a_snippet_around_the_first_matching_line() {
    let terms = search_terms("pagination");
    let mut scan = PatternScan::new(&terms);
    assert!(scan.wants_more());
    let content: String = (1..=30).map(|i| {
        if i == 5 { "fn Pagination() {}\n".to_string() } else { format!("line {}\n", i) }
    }).collect();
    scan.visit("src/api.rs", &content);
    let mut expected = String::from("**src/api.rs** (line 5):\n```\n");
    let shown: Vec<String> = (3..=22).map(|i| {
        if i == 5 { "fn Pagination() {}".to_string() } else { format!("line {}", i) }
    }).collect();
    expected.push_str(&shown.join("\n"));
    expected.push_str("\n```");
    assert_eq!(scan.finish(), expected);
}

#[test]
fn scan_skips_files_without_terms_and_seen_files() {
    let terms = search_terms("pagination");
    let mut scan = PatternScan::new(&terms);
    scan.visit("a.rs", "nothing here");
    scan.visit("b.rs", "pagination");
    scan.visit("b.rs", "pagination again");
    assert_eq!(scan.finish(), "**b.rs** (line 1):\n```\npagination\n```");
}

#[test]
fn scan_stops_at_five_snippets() {
    let terms = search_terms("widget");
    let mut scan = PatternScan::new(&terms);
    for i in 0..8 {
        scan.visit(&format!("f{}.rs", i), "widget");
    }
    assert!(!scan.wants_more());
    assert_eq!(scan.finish().matches("**f").count(), 5);
}

#[test]
fn scan_without_terms_wants_nothing() {
    let scan = PatternScan::new(&Vec::new());
    assert!(!scan.wants_more());
    assert_eq!(scan.finish(), "");
}

#[test]
fn extensions_and_skipped_directories() {
    assert!(is_source_extension("rs"));
    assert!(is_source_extension("tsx"));
    assert!(!is_source_extension("md"));
    assert!(is_skipped_dir("node_modules"));
    assert!(is_skipped_dir(".git"));
    assert!(!is_skipped_dir("src"));
}

#[test]
fn search_terms_ignore_ascii_case() {
    let p = "add rate limiting to the API handler";
    assert_eq!(search_terms(p), search_terms(&p.to_ascii_uppercase()));
    assert_eq!(search_terms("Add Rate Limiting"), search_terms("add rate limiting"));
    assert_eq!(search_terms("ADD RATE LIMITING")[0], "rate");
}
