use hide_feature_preprocessor::{filter_features, find_links, replace_all, LinkError, LinkType, SourceFile};

fn file(path: &str, contents: &str) -> SourceFile {
    SourceFile { path: path.to_string(), contents: contents.to_string() }
}

fn expand(s: &str, files: &[SourceFile]) -> Result<String, LinkError> {
    replace_all(s, &files.to_vec())
}

#[test]
fn text_without_directives_is_unchanged() {
    let s = "# Title\n\nSome {braces} and } stray { ones, no newline at end";
    assert_eq!(expand(s, &[file("a.rs", "x")]).unwrap(), s);
    assert_eq!(expand("", &[]).unwrap(), "");
}

#[test]
fn escaped_directive_is_kept_and_not_read() {
    let s = "before \\{{#includehidetest a.rs}} after\n";
    assert!(find_links(s).is_empty());
    assert_eq!(expand(s, &[]).unwrap(), s);
}

#[test]
fn escape_runs_to_last_close_of_its_line() {
    let s = "\\{{#x}} and {{#includehidetest a.rs}}\n{{#includehidetest b.rs}}";
    let links = find_links(s);
    assert_eq!(links.len(), 1);
    assert_eq!(links[0].start_index, 38);
    assert_eq!(expand(s, &[file("b.rs", "B")]).unwrap(), "\\{{#x}} and {{#includehidetest a.rs}}\nB\n");
}

#[test]
fn directives_are_spliced_in_place() {
    let s = "A {{#includehidetest a.rs}} B {{#includehidetest b.rs}} C";
    let files = [file("a.rs", "x"), file("b.rs", "a much longer text\nover two lines")];
    assert_eq!(
        expand(s, &files).unwrap(),
        "A x\n B a much longer text\nover two lines\n C"
    );
}

#[test]
fn expanded_text_is_not_scanned_again() {
    let s = "{{#includehidetest a.rs}}";
    let files = [file("a.rs", "{{#includehidetest b.rs}}")];
    assert_eq!(expand(s, &files).unwrap(), "{{#includehidetest b.rs}}\n");
}

#[test]
fn brace_balance_suppresses_the_marked_block() {
    let contents = "fn a() {}\n#[cfg(feature = \"test\")]\nfn b() {\n    assert!(true);\n}\nfn c() {}\n";
    assert_eq!(
        filter_features(contents, "test"),
        "fn a() {}\n# #[cfg(feature = \"test\")]\n# fn b() {\n#     assert!(true);\n# }\nfn c() {}\n"
    );
}

#[test]
fn missing_file_fails_the_whole_text() {
    let s = "intro\n{{#includehidetest present.rs}}\n{{#includehidetest missing.rs}}\n";
    match expand(s, &[file("present.rs", "ok")]) {
        Err(LinkError::UnresolvedFile { path, link_text }) => {
            assert_eq!(path, "missing.rs");
            assert_eq!(link_text, "{{#includehidetest missing.rs}}");
        }
        Ok(t) => panic!("expected an error, got {t:?}"),
    }
}

#[test]
fn unknown_kind_passes_through() {
    let s = "see {{#unknownkind foo.txt}} here";
    assert!(find_links(s).is_empty());
    assert_eq!(expand(s, &[]).unwrap(), s);
}

#[test]
fn directive_spans_and_paths() {
    let s = "é {{ #includehidetest  dir/a-b_c.rs  extra props }} z";
    let links = find_links(s);
    assert_eq!(links.len(), 1);
    assert_eq!(links[0].start_index, 2);
    assert_eq!(links[0].end_index, 51);
    assert_eq!(links[0].link_text, "{{ #includehidetest  dir/a-b_c.rs  extra props }}");
    match &links[0].link {
        LinkType::IncludeHideTest(p) => assert_eq!(p, "dir/a-b_c.rs"),
    }
}

#[test]
fn malformed_directives_are_ignored() {
    for s in [
        "{{#includehidetest}}",
        "{{#includehidetest }}",
        "{{#includehidetest a.rs}",
        "{{includehidetest a.rs}}",
        "{{#includehidetest a*b.rs}}",
        "{#includehidetest a.rs}}",
    ] {
        assert!(find_links(s).is_empty(), "{s}");
        assert_eq!(expand(s, &[]).unwrap(), s);
    }
}

#[test]
fn directive_may_span_lines() {
    let s = "{{#includehidetest\n  a.rs\n}}";
    assert_eq!(find_links(s).len(), 1);
    assert_eq!(expand(s, &[file("a.rs", "A")]).unwrap(), "A\n");
}

#[test]
fn first_file_with_the_path_is_used() {
    let s = "{{#includehidetest a.rs}}";
    let files = [file("b.rs", "no"), file("a.rs", "first"), file("a.rs", "second")];
    assert_eq!(expand(s, &files).unwrap(), "first\n");
}

#[test]
fn included_file_is_filtered() {
    let s = "```rust\n{{#includehidetest lib.rs}}```\n";
    let lib = "pub fn f() {}\n  #  [cfg(feature = \"test\")]\nmod tests {\n    fn t() {}\n}\n";
    assert_eq!(
        expand(s, &[file("lib.rs", lib)]).unwrap(),
        "```rust\npub fn f() {}\n#   #  [cfg(feature = \"test\")]\n# mod tests {\n#     fn t() {}\n# }\n```\n"
    );
}

#[test]
fn filter_adds_final_newline_and_strips_crlf() {
    assert_eq!(filter_features("a\r\nb", "test"), "a\nb\n");
    assert_eq!(filter_features("", "test"), "");
    assert_eq!(filter_features("\n", "test"), "\n");
    assert_eq!(filter_features("a\r", "test"), "a\r\n");
}

#[test]
fn filter_other_feature_is_kept() {
    let contents = "#[cfg(feature = \"other\")]\nfn b() {}\n";
    assert_eq!(filter_features(contents, "test"), contents);
    assert_eq!(
        filter_features(contents, "other"),
        "# #[cfg(feature = \"other\")]\n# fn b() {}\n"
    );
}

#[test]
fn block_without_braces_ends_after_one_line() {
    let contents = "#[cfg(feature = \"test\")] fn b() {}\nlet x = 1;\nlet y = 2;";
    assert_eq!(
        filter_features(contents, "test"),
        "# #[cfg(feature = \"test\")] fn b() {}\n# let x = 1;\nlet y = 2;\n"
    );
}

#[test]
fn depth_may_go_below_zero() {
    let contents = "#[cfg(feature = \"test\")]\n}\n{\nfn c() {}\nx\n";
    assert_eq!(
        filter_features(contents, "test"),
        "# #[cfg(feature = \"test\")]\n# }\n# {\nfn c() {}\nx\n"
    );
}

#[test]
fn nested_braces_close_together() {
    let contents = "#[cfg(feature = \"test\")]\nmod m {\n    fn f() {\n    }\n}\nfn after() {}\n";
    assert_eq!(
        filter_features(contents, "test"),
        "# #[cfg(feature = \"test\")]\n# mod m {\n#     fn f() {\n#     }\n# }\nfn after() {}\n"
    );
}

#[test]
fn unbalanced_block_runs_to_the_end() {
    let contents = "#[cfg(feature = \"test\")]\nfn b() {\nlet x = 1;\nfn c() {}";
    assert_eq!(
        filter_features(contents, "test"),
        "# #[cfg(feature = \"test\")]\n# fn b() {\n# let x = 1;\n# fn c() {}\n"
    );
}

#[test]
fn unicode_whitespace_in_directive() {
    let s = "{{\u{3000}#includehidetest\u{a0}a.rs\u{2003}}}";
    assert_eq!(find_links(s).len(), 1);
    assert_eq!(expand(s, &[file("a.rs", "A")]).unwrap(), "A\n");
}
