use kernelizer_rs::template::{
    at_file_tags, compile_kernel, detects_follow_pattern_intent, extract_at_files_with,
    file_block, KernelParams, TagResolution, DEFAULT_CONSTRAINTS, DEFAULT_FORMAT, DEFAULT_VERIFY,
    PATTERN_ADVISORY, PATTERN_STRICT, TOOL_USAGE_FILES, TOOL_USAGE_OPEN, TOOL_USAGE_PATTERNS,
};

#[test]
fn follow_intent_is_detected_case_insensitively() {
    assert!(detects_follow_pattern_intent("Add caching LIKE WE DO in the user service"));
    assert!(detects_follow_pattern_intent("keep it Consistent With the rest"));
    assert!(detects_follow_pattern_intent("use our pattern for errors"));
    assert!(!detects_follow_pattern_intent("fix the auth bug in @src/auth.rs"));
    assert!(!detects_follow_pattern_intent(""));
}

#[test]
fn tags_are_listed_in_order() {
    let tags = at_file_tags("see @src/a.rs and @ plus @docs/ and mail@x");
    assert_eq!(tags, vec!["src/a.rs".to_string(), "docs/".to_string()]);
}

#[test]
fn file_tag_becomes_label_and_content() {
    let res = vec![TagResolution::File(Some("fn x() {}".to_string()))];
    let parsed = extract_at_files_with("fix   the bug in @src/auth.rs\nnow", &res);
    assert_eq!(parsed.cleaned_prompt(), "fix the bug in `auth.rs` now");
    assert_eq!(parsed.explicit_content(), "**File: src/auth.rs**\n```\nfn x() {}\n```\n\n");
}

#[test]
fn unreadable_file_keeps_label_without_content() {
    let res = vec![TagResolution::File(None)];
    let parsed = extract_at_files_with("@a/b.txt please", &res);
    assert_eq!(parsed.cleaned_prompt(), "`b.txt` please");
    assert_eq!(parsed.explicit_content(), "");
}

#[test]
fn directory_tag_brings_its_blocks() {
    let res = vec![TagResolution::Directory(vec![
        ("src/models/a.rs".to_string(), "A".to_string()),
        ("src/models/b.rs".to_string(), "B".to_string()),
    ])];
    let parsed = extract_at_files_with("look at @src/models/", &res);
    assert_eq!(parsed.cleaned_prompt(), "look at `models`");
    assert_eq!(
        parsed.explicit_content(),
        "**File: src/models/a.rs**\n```\nA\n```\n\n**File: src/models/b.rs**\n```\nB\n```\n\n"
    );
}

#[test]
fn missing_tag_stays_as_a_word() {
    let res = vec![TagResolution::Missing, TagResolution::File(Some("x".to_string()))];
    let parsed = extract_at_files_with("ask @alice about @notes.md", &res);
    assert_eq!(parsed.cleaned_prompt(), "ask @alice about `notes.md`");
    assert_eq!(parsed.explicit_content(), "**File: notes.md**\n```\nx\n```\n\n");
}

#[test]
fn tags_beyond_the_resolutions_count_as_missing() {
    let parsed = extract_at_files_with("@a.rs @b.rs", &Vec::new());
    assert_eq!(parsed.cleaned_prompt(), "@a.rs @b.rs");
    assert_eq!(parsed.explicit_content(), "");
}

#[test]
fn path_without_file_name_labels_itself() {
    let res = vec![TagResolution::Directory(Vec::new())];
    let parsed = extract_at_files_with("@..", &res);
    assert_eq!(parsed.cleaned_prompt(), "`..`");
}

#[test]
fn file_block_format() {
    assert_eq!(file_block("p.rs", "body"), "**File: p.rs**\n```\nbody\n```\n\n");
}

fn plain(prompt: &str) -> kernelizer_rs::ParsedPrompt {
    extract_at_files_with(prompt, &Vec::new())
}

#[test]
fn deterministic_template_without_context() {
    let out = compile_kernel(&plain("add pagination"), "", false, "", None);
    let expected = format!(
        "# Task (function)\nadd pagination\n\n# Constraints (parameters)\n{}{}\n# Format (output)\n{}# Verify\n{}",
        DEFAULT_CONSTRAINTS, TOOL_USAGE_OPEN, DEFAULT_FORMAT, DEFAULT_VERIFY
    );
    assert_eq!(out, expected);
}

#[test]
fn context_sections_and_strict_patterns() {
    let res = vec![TagResolution::File(Some("C".to_string()))];
    let parsed = extract_at_files_with("fix @f.rs", &res);
    let out = compile_kernel(&parsed, "PAT", true, "IN", None);
    let expected = format!(
        "# Context (input)\n## Explicitly Tagged Files:\n**File: f.rs**\n```\nC\n```\n\n## Repo Map (function & type signatures):\nPAT\n\n## Piped Standard Input:\n```\nIN\n```\n\n# Task (function)\nfix `f.rs`\n\n# Constraints (parameters)\n{}{}{}\n# Format (output)\n{}# Verify\n{}",
        DEFAULT_CONSTRAINTS, TOOL_USAGE_FILES, PATTERN_STRICT, DEFAULT_FORMAT, DEFAULT_VERIFY
    );
    assert_eq!(out, expected);
}

#[test]
fn advisory_patterns_with_translated_params() {
    let params = KernelParams {
        task: "T".to_string(),
        constraints: vec!["c1".to_string(), "c2".to_string()],
        format: "F".to_string(),
        verify: "V".to_string(),
    };
    let out = compile_kernel(&plain("p"), "PAT", false, "", Some(&params));
    let expected = format!(
        "# Context (input)\n## Repo Map (function & type signatures):\nPAT\n\n# Task (function)\nT\n\n# Constraints (parameters)\n- c1\n- c2\n{}{}\n# Format (output)\nF\n\n# Verify\nV\n",
        TOOL_USAGE_PATTERNS, PATTERN_ADVISORY
    );
    assert_eq!(out, expected);
}

#[test]
fn at_most_four_constraints_are_listed() {
    let params = KernelParams {
        task: "T".to_string(),
        constraints: vec!["a".into(), "b".into(), "c".into(), "d".into(), "e".into()],
        format: "F".to_string(),
        verify: "V".to_string(),
    };
    let out = compile_kernel(&plain("fix it"), "", false, "", Some(&params));
    let expected = format!(
        "# Task (function)\nT\n\n# Constraints (parameters)\n- a\n- b\n- c\n- d\n{}\n# Format (output)\nF\n\n# Verify\nV\n",
        TOOL_USAGE_OPEN
    );
    assert_eq!(out, expected);
    assert!(!out.contains("- e\n"));
}

#[test]
fn follow_pattern_without_patterns_changes_nothing() {
    let a = compile_kernel(&plain("x y"), "", true, "stdin", None);
    let b = compile_kernel(&plain("x y"), "", false, "stdin", None);
    assert_eq!(a, b);
    assert!(a.starts_with("# Context (input)\n## Piped Standard Input:"));
}

#[test]
fn missing_tags_are_kept_verbatim() {
    let res = vec![TagResolution::Missing, TagResolution::Missing];
    let parsed = extract_at_files_with(" hi  @bob\t@carol ", &res);
    assert_eq!(parsed.cleaned_prompt(), "hi @bob @carol");
    assert_eq!(parsed.explicit_content(), "");
}

#[test]
fn empty_directory_brings_no_content() {
    let res = vec![TagResolution::Directory(Vec::new())];
    let parsed = extract_at_files_with("see @docs", &res);
    assert_eq!(parsed.cleaned_prompt(), "see `docs`");
    assert_eq!(parsed.explicit_content(), "");
}

#[test]
fn explicit_content_is_made_of_blocks() {
    let res = vec![
        TagResolution::File(Some("one".to_string())),
        TagResolution::Missing,
        TagResolution::Directory(vec![("d/x".to_string(), "two".to_string())]),
    ];
    let parsed = extract_at_files_with("@f.rs @nobody @d", &res);
    let content = parsed.explicit_content();
    assert!(content.starts_with("**File: "));
    assert!(content.ends_with("\n```\n\n"));
    assert_eq!(parsed.cleaned_prompt(), "`f.rs` @nobody `d`");
}

#[test]
fn cleaned_prompt_is_single_spaced() {
    let res = vec![TagResolution::File(None)];
    let parsed = extract_at_files_with("\t  fix \n the   bug in @src/lib.rs  now ", &res);
    let cleaned = parsed.cleaned_prompt();
    assert_eq!(cleaned, "fix the bug in `lib.rs` now");
    assert_eq!(cleaned, cleaned.split_whitespace().collect::<Vec<_>>().join(" "));
}

#[test]
fn follow_detection_ignores_ascii_case() {
    for p in ["FOLLOW OUR conventions", "follow our conventions", "Follow Our Conventions"] {
        assert!(detects_follow_pattern_intent(p));
        assert_eq!(
            detects_follow_pattern_intent(p),
            detects_follow_pattern_intent(&p.to_ascii_uppercase())
        );
    }
    assert!(!detects_follow_pattern_intent("FOLLOW the docs"));
}

#[test]
fn follow_detection_survives_added_text() {
    let p = "Project Style please";
    assert!(detects_follow_pattern_intent(p));
    assert!(detects_follow_pattern_intent(&format!("{p} and add tests")));
    assert!(detects_follow_pattern_intent(&format!("Refactor the parser; {p}")));
}

#[test]
fn ascii_prompt_without_a_phrase_is_not_detected() {
    assert!(!detects_follow_pattern_intent("add rate limiting to the api"));
    assert!(detects_follow_pattern_intent("add rate limiting to the api as we have elsewhere"));
}
