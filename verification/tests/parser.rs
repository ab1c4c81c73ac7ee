use tree_to_excel::parser::TreeParser;

#[test]
fn test_parse_line() {
    let parser = TreeParser::new();

    let test_cases = vec![
        ("├── src", Some((1, "src".to_string()))),
        ("│   ├── main.rs", Some((2, "main.rs".to_string()))),
        ("│   │   └── lib.rs", Some((3, "lib.rs".to_string()))),
    ];

    for (input, expected) in test_cases {
        let result = parser.parse_line(input);
        assert_eq!(result, expected, "Failed for input: {}", input);
    }
}

#[test]
fn round_trip_three_items() {
    let parser = TreeParser::new();
    let items = parser.parse("├── src\n│   ├── main.rs\n│   └── lib.rs\n", false);
    assert_eq!(items.len(), 4);
    assert_eq!(items[0].name, "src");
    assert_eq!(items[0].level, 1);
    assert!(!items[0].is_file);
    assert_eq!(items[0].full_path, "src");
    assert_eq!(items[1].name, "main.rs");
    assert_eq!(items[1].level, 2);
    assert!(items[1].is_file);
    assert_eq!(items[1].full_path, "src/main.rs");
    assert_eq!(items[2].name, "lib.rs");
    assert_eq!(items[2].level, 2);
    assert!(items[2].is_file);
    assert_eq!(items[2].full_path, "src/lib.rs");
    assert_eq!(items[3].level, 0);
}

#[test]
fn hidden_subtree_excluded_and_included() {
    let parser = TreeParser::new();
    let input = "├── .git\n│   ├── config\n├── src\n";
    let filtered = parser.parse(input, false);
    assert_eq!(filtered.len(), 2);
    assert_eq!(filtered[0].name, "src");
    assert!(!filtered.iter().any(|it| it.full_path.contains(".git")));
    let all = parser.parse(input, true);
    assert_eq!(all.len(), 4);
    assert_eq!(all[0].name, ".git");
    assert_eq!(all[1].name, "config");
    assert_eq!(all[1].full_path, ".git/config");
}

#[test]
fn sibling_after_hidden_subtree_is_kept() {
    let parser = TreeParser::new();
    let input = "├── a\n│   ├── .cache\n│   │   └── blob\n│   └── kept.rs\n";
    let items = parser.parse(input, false);
    assert_eq!(items.len(), 3);
    assert_eq!(items[0].name, "a");
    assert_eq!(items[1].name, "kept.rs");
    assert_eq!(items[1].full_path, "a/kept.rs");
}

#[test]
fn empty_input_yields_summary_only() {
    let parser = TreeParser::new();
    let items = parser.parse("", false);
    assert_eq!(items.len(), 1);
    assert_eq!(items[0].level, 0);
    assert!(items[0].name.ends_with("0 directories, 0 files"));

    let stats_only = parser.parse("3 directories, 5 files\n", false);
    assert_eq!(stats_only.len(), 1);
    assert!(stats_only[0].name.ends_with("0 directories, 0 files"));

    let kept = parser.parse("3 directories, 5 files\n", true);
    assert_eq!(kept.len(), 1);
    assert!(kept[0].name.ends_with("3 directories, 5 files"));
}

#[test]
fn summary_recomputed_after_filtering() {
    let parser = TreeParser::new();
    let input = "├── .git\n│   └── config\n├── src\n│   └── main.rs\n10 directories, 20 files\n";
    let filtered = parser.parse(input, false);
    assert_eq!(filtered.len(), 3);
    assert!(filtered[2].name.ends_with("1 directories, 1 files"));
    let all = parser.parse(input, true);
    assert_eq!(all.len(), 5);
    assert!(all[4].name.ends_with("10 directories, 20 files"));
}

#[test]
fn ansi_stripping_is_idempotent() {
    let parser = TreeParser::new();
    let input = "\u{1b}[01;34m├── src\u{1b}[0m plain";
    let once = parser.remove_ansi_codes(input);
    assert_eq!(once, "├── src plain");
    let twice = parser.remove_ansi_codes(&once);
    assert_eq!(twice, once);
}

#[test]
fn connectors_yield_equal_depth() {
    let parser = TreeParser::new();
    let a = parser.parse_line("│   ├── x").unwrap();
    let b = parser.parse_line("│   └── x").unwrap();
    assert_eq!(a.0, 2);
    assert_eq!(a.0, b.0);
    let c = parser.parse_line("    └── y").unwrap();
    assert_eq!(c.0, 2);
}

#[test]
fn classification_of_names() {
    let parser = TreeParser::new();
    assert!(parser.is_file("main.rs"));
    assert!(!parser.is_file("src"));
    assert!(parser.is_file("Makefile"));
    assert!(parser.is_file("Cargo.lock"));
    assert!(parser.is_file("LICENSE"));
    assert!(!parser.is_file(".git"));
    assert!(!parser.is_file(".hidden"));
    assert!(!parser.is_file("archive."));
    assert!(parser.is_file(".tar.gz"));
    assert!(parser.is_file("a.b."));
}

#[test]
fn root_markers_and_malformed_lines_skipped() {
    let parser = TreeParser::new();
    assert_eq!(parser.parse_line("."), None);
    assert_eq!(parser.parse_line("myproj/"), None);
    assert_eq!(parser.parse_line("plain text"), None);
    assert_eq!(parser.parse_line("├─ bad"), None);
    assert_eq!(parser.parse_line("├── "), None);
}

#[test]
fn name_is_trimmed() {
    let parser = TreeParser::new();
    let r = parser.parse_line("├──   spaced   ").unwrap();
    assert_eq!(r.0, 1);
    assert_eq!(r.1, "spaced");
}

#[test]
fn known_plain_files_are_configurable() {
    let mut parser = TreeParser::new();
    assert!(!parser.is_file("Justfile"));
    parser.known_files.push("Justfile".to_string());
    assert!(parser.is_file("Justfile"));
    assert!(!parser.is_file("Justfile2"));
}
