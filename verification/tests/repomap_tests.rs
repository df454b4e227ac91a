use kernelizer_rs::repomap::{
    collect_calls_in, extract_sig, language_for_ext, parse_file, render_repo_map,
    FileSignatures, SigEntry, SourceLanguage, SyntaxNode,
};

fn leaf(kind: &str, start: usize, end: usize) -> SyntaxNode {
    SyntaxNode {
        kind: kind.to_string(),
        start_byte: start,
        end_byte: end,
        start_row: 0,
        function_span: None,
        method_span: None,
        children: Vec::new(),
    }
}

#[test]
fn languages_by_extension() {
    assert!(language_for_ext("rs") == Some(SourceLanguage::Rust));
    assert!(language_for_ext("jsx") == Some(SourceLanguage::JavaScript));
    assert!(language_for_ext("tsx") == Some(SourceLanguage::Tsx));
    assert!(language_for_ext("go") == Some(SourceLanguage::Go));
    assert!(language_for_ext("md").is_none());
}

#[test]
fn rust_file_entries() {
    let src = "fn main() {\n    foo();\n    bar::baz(1);\n    x.qux();\n    foo();\n}\n\nstruct S {\n    a: u8,\n}\n";
    let entries = parse_file(src.as_bytes(), SourceLanguage::Rust);
    assert_eq!(entries.len(), 2);
    assert_eq!(entries[0].line, 1);
    assert_eq!(entries[0].sig, "fn main()");
    assert_eq!(entries[0].calls, vec!["baz".to_string(), "foo".to_string(), "qux".to_string()]);
    assert_eq!(entries[1].line, 8);
    assert_eq!(entries[1].sig, "struct S");
    assert!(entries[1].calls.is_empty());
}

#[test]
fn python_multi_line_signature_is_collapsed() {
    let src = "def f(a,\n      b):\n    return g(a)\n\nclass C(Base):\n    pass\n";
    let entries = parse_file(src.as_bytes(), SourceLanguage::Python);
    assert_eq!(entries.len(), 2);
    assert_eq!(entries[0].sig, "def f(a, b)");
    assert_eq!(entries[1].sig, "class C(Base)");
    assert_eq!(entries[1].line, 5);
}

#[test]
fn calls_are_filtered_by_name() {
    let source = b"a::b::helper  bad name  x.m  ok";
    let mut call1 = leaf("call_expression", 0, 13);
    call1.function_span = Some((0, 13));
    let mut call2 = leaf("call_expression", 14, 22);
    call2.function_span = Some((14, 22));
    let mut method = leaf("method_call_expression", 24, 27);
    method.method_span = Some((26, 27));
    let mut root = leaf("block", 0, source.len());
    root.children = vec![call1, call2, method];
    let mut out = Vec::new();
    collect_calls_in(&root, source, &mut out);
    assert_eq!(out, vec!["helper".to_string(), "m".to_string()]);
}

#[test]
fn invalid_utf8_callee_is_ignored() {
    let source: &[u8] = &[0xff, 0xfe];
    let mut call = leaf("call_expression", 0, 2);
    call.function_span = Some((0, 2));
    let mut out = Vec::new();
    collect_calls_in(&call, source, &mut out);
    assert!(out.is_empty());
}

#[test]
fn signature_stops_at_the_body() {
    let source = b"impl Foo for Bar {\n}";
    let mut node = leaf("impl_item", 0, source.len());
    node.children = vec![leaf("declaration_list", 17, source.len())];
    assert_eq!(extract_sig(&node, source), Some("impl Foo for Bar".to_string()));
    let mut bad = leaf("impl_item", 5, 2);
    bad.children = Vec::new();
    assert_eq!(extract_sig(&bad, source), None);
    let long = "x".repeat(201);
    let node = leaf("type_alias_item", 0, long.len());
    assert_eq!(extract_sig(&node, long.as_bytes()), None);
}

fn entry(line: usize, sig: &str, calls: &[&str]) -> SigEntry {
    SigEntry { line, sig: sig.to_string(), calls: calls.iter().map(|c| c.to_string()).collect() }
}

#[test]
fn repo_map_ranks_files_by_keywords() {
    let files = vec![
        FileSignatures { path: "src/db.rs".to_string(), entries: vec![entry(3, "fn connect()", &[])] },
        FileSignatures { path: "src/empty.rs".to_string(), entries: vec![] },
        FileSignatures {
            path: "src/auth.rs".to_string(),
            entries: vec![entry(1, "fn login(user: &User)", &["check", "hash"])],
        },
    ];
    let out = render_repo_map("fix the Login flow", &files);
    assert_eq!(
        out,
        "src/auth.rs:\n  L1: fn login(user: &User)  \u{2192}[check, hash]\nsrc/db.rs:\n  L3: fn connect()\n"
    );
}

#[test]
fn repo_map_stays_within_budget() {
    let files: Vec<FileSignatures> = (0..100)
        .map(|i| FileSignatures {
            path: format!("src/file{}.rs", i),
            entries: vec![entry(i + 1, &"fn a_fairly_long_function_name()".repeat(3), &[])],
        })
        .collect();
    let out = render_repo_map("nothing", &files);
    assert!(out.len() <= 4000);
    assert!(out.len() > 3800);
    assert!(out.ends_with("\n"));
    assert!(out.starts_with("src/file0.rs:\n"));
}

#[test]
fn call_lists_are_sorted_distinct_and_capped() {
    let src = "fn f() { zz(); k(); yy(); xx(); ww(); vv(); uu(); tt(); ss(); zz(); rr(); }\n";
    let entries = parse_file(src.as_bytes(), SourceLanguage::Rust);
    assert_eq!(entries.len(), 1);
    let expected: Vec<String> =
        ["rr", "ss", "tt", "uu", "vv", "ww", "xx"].iter().map(|s| s.to_string()).collect();
    assert_eq!(entries[0].calls, expected);
}

#[test]
fn equal_ranks_keep_discovery_order() {
    let files = vec![
        FileSignatures { path: "b.rs".to_string(), entries: vec![entry(1, "fn b()", &[])] },
        FileSignatures { path: "a.rs".to_string(), entries: vec![entry(2, "fn a()", &[])] },
    ];
    assert_eq!(render_repo_map("", &files), "b.rs:\n  L1: fn b()\na.rs:\n  L2: fn a()\n");
}
