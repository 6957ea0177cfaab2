use std::str::FromStr;

use docgarden::cli::{
    match_query_terms, render_targets, run_fails, shell_escape, list_arguments_error,
};
use docgarden::config::{Config, FileConfig, Rule};
use docgarden::diagnostics::{Diagnostic, FixSummary, PatternMatcher, Severity};
use docgarden::documents::{
    document_metadata, escape_pipe, fallback_name_from_path, path_prefix, render_metadata_row,
    DocumentMetadata,
};
use docgarden::edits::Edit;
use docgarden::frontmatter::{parse_from_str, FrontmatterParseResult, YamlValue};
use docgarden::lint::{count_lines, fix_text, summarize, Mode};
use docgarden::local_paths::{anchor_verdict, is_markdown_target};
use docgarden::matching::{escape_row_field, field_priority, render_match_field, ColorRendering};
use docgarden::paths::{extension, file_name, file_stem, parent, repository_relative_path};
use docgarden::references::{
    classify_inline_reference, classify_link_reference, decode_fragment, is_external,
    resolve_candidate, CandidateReference, ReferenceKind, ReferenceSyntax,
};
use docgarden::root::{common_ancestor, config_root, find_root_by_markers, ancestors};
use docgarden::score::{best_field_hit, term_frequency, Field};
use docgarden::skills::{
    apply_edits, inline_code_translation_edit, is_shell_fenced_block, is_translatable_command,
};

fn terms(words: &[&str]) -> Vec<String> {
    words.iter().map(|w| w.to_string()).collect()
}

fn test_config() -> Config {
    let parsed = FileConfig {
        skills_dir: ".agents/skills".to_string(),
        plans_dir: "docs/exec-plans".to_string(),
        include_patterns: Vec::new(),
        exclude: Vec::new(),
        extend_extensions: Vec::new(),
        remove_extensions: Vec::new(),
        extend_special_filenames: Vec::new(),
        remove_special_filenames: Vec::new(),
        respect_gitignore: true,
        rules: Vec::new(),
        match_exclude: Vec::new(),
    };
    Config::from_file_config("/tmp/repo".to_string(), None, false, parsed).unwrap()
}

fn diagnostic(rule: &str, severity: Severity, fixable: bool) -> Diagnostic {
    Diagnostic {
        file: "docs/guide.md".to_string(),
        line: 1,
        column: 1,
        severity,
        rule: rule.to_string(),
        message: "message".to_string(),
        fixable,
    }
}

// ---------------------------------------------------------------------------
// Configuration and diagnostics
// ---------------------------------------------------------------------------
#[test]
fn rule_names_cover_diagnostic_only_identifiers() {
    assert_eq!(
        Rule::from_str("frontmatter-field-missing").unwrap(),
        Rule::FrontmatterFieldMissing
    );
    assert_eq!(
        Rule::from_str("frontmatter-malformed").unwrap(),
        Rule::FrontmatterMalformed
    );
    assert_eq!(
        Rule::from_str("frontmatter-field-max-chars").unwrap(),
        Rule::FrontmatterFieldMaxChars
    );
    assert!(Rule::from_str("frontmatter_malformed").is_err());
    assert!(Rule::from_str("frontmatter_field_max_chars").is_err());
    assert_eq!(
        Rule::FrontmatterFieldMaxChars.as_str(),
        "frontmatter-field-max-chars"
    );
    assert_eq!(Rule::MaxTokens.as_str(), "max-tokens");
    assert_eq!(Rule::MaxLines.as_str(), "max-lines");
}

#[test]
fn fix_summary_counts_only_fixable_diagnostics() {
    let mut summary = FixSummary::default();
    summary.record(&Diagnostic {
        file: "docs/guide.md".to_string(),
        line: 1,
        column: 1,
        severity: Severity::Error,
        rule: "prefer-links-for-local-paths".to_string(),
        message: "rewrite".to_string(),
        fixable: true,
    });
    summary.record(&Diagnostic {
        file: "docs/guide.md".to_string(),
        line: 2,
        column: 1,
        severity: Severity::Error,
        rule: "unresolved-link-path".to_string(),
        message: "broken link".to_string(),
        fixable: false,
    });

    assert_eq!(summary.fixable_count, 1);
    assert!(summary.fixable_rules.contains("prefer-links-for-local-paths"));
    assert!(!summary.fixable_rules.contains("unresolved-link-path"));
}

#[test]
fn pattern_matcher_uses_gitignore_style_matching() {
    let matcher =
        PatternMatcher::new(&vec!["docs/**/*.md".to_string(), "README.md".to_string()]).unwrap();

    assert!(matcher.is_match("docs/guide/intro.md", false));
    assert!(matcher.is_match("README.md", false));
    assert!(!matcher.is_match("src/main.rs", false));
}

#[test]
fn summarize_counts_each_fixable_diagnostic_and_its_rule_once() {
    let ds = vec![
        diagnostic("prefer-links-for-local-paths", Severity::Error, true),
        diagnostic("prefer-links-for-local-paths", Severity::Error, true),
        diagnostic("max-lines", Severity::Warning, false),
    ];
    let summary = summarize(&ds);
    assert_eq!(summary.fixable_count, 2);
    assert_eq!(summary.fixable_rules.len(), 1);
}

#[test]
fn check_fails_on_errors_and_fix_on_unfixable_errors() {
    let fixable = vec![diagnostic("prefer-links-for-local-paths", Severity::Error, true)];
    assert!(run_fails(Mode::Check, &fixable));
    assert!(!run_fails(Mode::Fix, &fixable));
    let warning = vec![diagnostic("max-lines", Severity::Warning, false)];
    assert!(!run_fails(Mode::Check, &warning));
    let broken = vec![diagnostic("unresolved-link-path", Severity::Error, false)];
    assert!(run_fails(Mode::Fix, &broken));
}

// ---------------------------------------------------------------------------
// Paths and documents
// ---------------------------------------------------------------------------
#[test]
fn returns_relative_path_when_under_root() {
    assert_eq!(
        repository_relative_path("/repo", "/repo/docs/guide.md").unwrap(),
        "docs/guide.md"
    );
}

#[test]
fn errors_when_path_is_not_under_root() {
    let err = repository_relative_path("/repo", "/other/file.md").unwrap_err();
    assert!(err.contains("is not under"));
    assert_eq!(err, "/other/file.md is not under /repo");
}

#[test]
fn path_components_follow_std_path() {
    assert_eq!(file_name("docs/guide.md").as_deref(), Some("guide.md"));
    assert_eq!(file_name("docs/"), Some("docs".to_string()));
    assert_eq!(file_name("docs/.."), None);
    assert_eq!(file_stem(".bashrc").as_deref(), Some(".bashrc"));
    assert_eq!(file_stem("archive.tar.gz").as_deref(), Some("archive.tar"));
    assert_eq!(extension("archive.tar.gz").as_deref(), Some("gz"));
    assert_eq!(extension(".bashrc"), None);
    assert_eq!(extension("README"), None);
    assert_eq!(parent("docs//skills/SKILL.md").as_deref(), Some("docs//skills"));
    assert_eq!(parent("/").as_deref(), None);
    assert_eq!(parent("guide.md").as_deref(), Some(""));
    assert_eq!(parent("").as_deref(), None);
    assert_eq!(
        repository_relative_path("/repo/", "/repo//docs/./a.md").unwrap(),
        "docs/./a.md"
    );
    assert_eq!(repository_relative_path("/repo", "/repo").unwrap(), "");
}

#[test]
fn fallback_name_uses_file_stem() {
    assert_eq!(
        fallback_name_from_path("docs/no-frontmatter.md"),
        "no-frontmatter"
    );
}

#[test]
fn fallback_name_handles_path_without_file_stem() {
    assert_eq!(fallback_name_from_path(""), "");
}

#[test]
fn path_prefix_is_empty_for_repo_root_documents() {
    assert_eq!(path_prefix("root-guide.md"), "");
}

#[test]
fn path_prefix_uses_directory_only() {
    assert_eq!(path_prefix("docs/skills/SKILL.md"), "docs/skills");
}

#[test]
fn metadata_rows_escape_pipes_and_fall_back_to_file_names() {
    let doc = document_metadata(
        "docs/a|b.md",
        "---\nname: Guide\ndescription: one | two\n---\n# Body\n",
    );
    assert_eq!(doc.name, "Guide");
    assert_eq!(doc.description.as_deref(), Some("one | two"));
    assert_eq!(doc.path_prefix, "docs");
    assert_eq!(render_metadata_row(&doc), "docs/a\\|b.md | Guide | one \\| two");

    let bare = document_metadata("notes/plain.md", "# No frontmatter\n");
    assert_eq!(bare.name, "plain");
    assert_eq!(bare.description, None);
    let row = render_metadata_row(&DocumentMetadata {
        repo_relative_path: "x.md".to_string(),
        path_prefix: String::new(),
        name: "x".to_string(),
        description: None,
    });
    assert_eq!(row, "x.md | x | ");
    assert_eq!(escape_pipe("a|b|"), "a\\|b\\|");
}

// ---------------------------------------------------------------------------
// References
// ---------------------------------------------------------------------------
#[test]
fn resolve_candidate_normalizes_relative_segments_and_separators() {
    let candidate = CandidateReference {
        display_text: "./nested\\..\\real.md".to_string(),
        path_text: "./nested\\..\\real.md".to_string(),
        anchor: None,
        syntax: ReferenceSyntax::Relative,
        is_directory_like: false,
    };

    let resolved =
        resolve_candidate("docs/guide.md", &candidate, ReferenceKind::Backtick).unwrap();

    assert_eq!(resolved.repo_relative_path, "docs/real.md");
}

#[test]
fn resolve_candidate_rejects_escape_above_repository_root() {
    let candidate = CandidateReference {
        display_text: "../../../secret.md".to_string(),
        path_text: "../../../secret.md".to_string(),
        anchor: None,
        syntax: ReferenceSyntax::Relative,
        is_directory_like: false,
    };

    assert!(resolve_candidate("docs/guide.md", &candidate, ReferenceKind::Backtick).is_none());
    assert!(resolve_candidate("docs/guide.md", &candidate, ReferenceKind::Link).is_none());
}

#[test]
fn inline_reference_accepts_relative_and_workspace_root_paths() {
    let config = test_config();

    let relative = classify_inline_reference(&config, "./docs/guide.md").unwrap();
    assert_eq!(relative.display_text, "./docs/guide.md");
    assert_eq!(relative.syntax, ReferenceSyntax::Relative);

    let workspace_root = classify_inline_reference(&config, "/docs/guide.md").unwrap();
    assert_eq!(workspace_root.display_text, "/docs/guide.md");
    assert_eq!(workspace_root.syntax, ReferenceSyntax::WorkspaceRoot);
}

#[test]
fn inline_reference_accepts_directory_suffixes_and_known_filenames() {
    let config = test_config();

    let directory = classify_inline_reference(&config, "docs/").unwrap();
    assert_eq!(directory.display_text, "docs/");

    let readme = classify_inline_reference(&config, "README.md").unwrap();
    assert_eq!(readme.display_text, "README.md");

    let agents = classify_inline_reference(&config, "AGENTS.md").unwrap();
    assert_eq!(agents.display_text, "AGENTS.md");
}

#[test]
fn inline_reference_rejects_disallowed_backtick_syntax() {
    let config = test_config();

    for value in [
        "",
        "https://example.com/docs",
        "docs/**/*.md",
        "C:/tmp/file.txt",
        "/Users/alice/...",
        "//foo",
        "// test test_name",
        "docs/(draft).md",
    ] {
        assert!(
            classify_inline_reference(&config, value).is_none(),
            "{value}"
        );
    }
}

#[test]
fn link_reference_accepts_relative_and_known_repo_paths() {
    let config = test_config();

    let relative = classify_link_reference(&config, "../README.md").unwrap();
    assert_eq!(relative.display_text, "../README.md");
    assert_eq!(relative.syntax, ReferenceSyntax::Relative);

    let nested = classify_link_reference(&config, "docs/guide").unwrap();
    assert_eq!(nested.display_text, "docs/guide");
    assert_ne!(nested.syntax, ReferenceSyntax::Relative);

    let readme = classify_link_reference(&config, "README.md").unwrap();
    assert_eq!(readme.display_text, "README.md");
}

#[test]
fn link_reference_rejects_empty_and_external_destinations() {
    let config = test_config();

    for value in [
        "",
        "https://example.com/docs",
        "mailto:hi@example.com",
        "#section",
    ] {
        assert!(classify_link_reference(&config, value).is_none(), "{value}");
    }
}

#[test]
fn link_anchors_are_split_off_and_percent_decoded() {
    let config = test_config();
    let link = classify_link_reference(&config, "docs/guide.md#Set%20up").unwrap();
    assert_eq!(link.path_text, "docs/guide.md");
    assert_eq!(link.anchor.as_deref(), Some("Set up"));
    assert!(!link.is_directory_like);
    assert_eq!(decode_fragment("a%2"), "a%2");
    assert_eq!(decode_fragment("%ff"), "%ff");
    assert_eq!(decode_fragment("caf%C3%A9"), "café");
    assert!(is_external("https://x"));
    assert!(!is_external("docs/https.md"));
}

#[test]
fn is_markdown_target_accepts_markdown_extensions_and_readme() {
    assert!(is_markdown_target("docs/guide.md"));
    assert!(is_markdown_target("docs/guide.markdown"));
    assert!(is_markdown_target("README"));
    assert!(!is_markdown_target("openapi.yaml"));
    assert!(is_markdown_target("NOTES.MD"));
    assert!(is_markdown_target("ReadMe"));
}

#[test]
fn anchors_on_directories_and_missing_headings_do_not_resolve() {
    let anchor = Some("testing-guidance".to_string());
    assert!(!anchor_verdict(&anchor, "docs", false, false));
    assert!(anchor_verdict(&anchor, "docs/data.yaml", true, false));
    assert!(!anchor_verdict(&anchor, "docs/guide.md", true, false));
    assert!(anchor_verdict(&anchor, "docs/guide.md", true, true));
    assert!(anchor_verdict(&None, "docs", false, false));
}

// ---------------------------------------------------------------------------
// Matching
// ---------------------------------------------------------------------------
#[test]
fn field_priority_orders_path_and_none_after_named_fields() {
    assert_eq!(field_priority(Some(Field::Description)), 1);
    assert_eq!(field_priority(Some(Field::Path)), 2);
    assert_eq!(field_priority(None), 3);
}

#[test]
fn render_match_field_highlights_matching_text_terms() {
    let query_terms = terms(&["review"]);
    let rendered =
        render_match_field("Review the active plan", &query_terms, ColorRendering::Ansi);
    assert!(rendered.contains("\u{1b}[1mReview\u{1b}[0m"));
    assert!(rendered.contains("active"));
}

#[test]
fn render_match_field_highlights_matching_path_terms() {
    let query_terms = terms(&["score"]);
    let rendered =
        render_match_field("docs/active-scoring.md", &query_terms, ColorRendering::Ansi);
    assert!(rendered.contains("\u{1b}[1mscoring\u{1b}[0m"));
}

#[test]
fn render_match_field_highlights_surface_token_by_stem() {
    let query_terms = terms(&["plan"]);
    let rendered = render_match_field(
        "Review the active plans",
        &query_terms,
        ColorRendering::Ansi,
    );
    assert!(rendered.contains("\u{1b}[1mplans\u{1b}[0m"));
}

#[test]
fn render_match_field_does_not_highlight_stopword_surface_token() {
    let query_terms = terms(&["the"]);
    let rendered = render_match_field("the plan", &query_terms, ColorRendering::Ansi);
    assert!(!rendered.contains("\u{1b}[1mthe\u{1b}[0m"));
    assert!(rendered.contains("the"));
}

#[test]
fn render_match_field_highlights_camel_case_halves() {
    let plan_terms = terms(&["plan"]);
    let plan_rendered = render_match_field("ExecPlan", &plan_terms, ColorRendering::Ansi);
    assert!(plan_rendered.contains("Exec\u{1b}[1mPlan\u{1b}[0m"));
    assert!(!plan_rendered.contains("\u{1b}[1mExec\u{1b}[0mPlan"));

    let exec_terms = terms(&["exec"]);
    let exec_rendered = render_match_field("ExecPlan", &exec_terms, ColorRendering::Ansi);
    assert!(exec_rendered.contains("\u{1b}[1mExec\u{1b}[0mPlan"));
}

#[test]
fn render_match_field_highlights_possessive_base_only() {
    let query_terms = terms(&["jim"]);
    let rendered = render_match_field("Jim's notebook", &query_terms, ColorRendering::Ansi);
    assert!(rendered.contains("\u{1b}[1mJim\u{1b}[0m's"));
}

#[test]
fn render_match_field_does_not_match_inside_internal_apostrophe() {
    let query_terms = terms(&["the"]);
    let rendered = render_match_field("there's", &query_terms, ColorRendering::Ansi);
    assert!(!rendered.contains("\u{1b}[1mthe\u{1b}[0m"));
}

#[test]
fn render_match_field_normalizes_newlines() {
    let query_terms: Vec<String> = Vec::new();
    let rendered = render_match_field(
        "First paragraph.\nSecond paragraph.",
        &query_terms,
        ColorRendering::Plain,
    );

    assert_eq!(rendered, "First paragraph. Second paragraph.");
}

#[test]
fn render_match_field_highlights_compound_dictionary_parts() {
    let query_terms = terms(&["plan"]);
    let rendered = render_match_field("execplan", &query_terms, ColorRendering::Ansi);
    assert_eq!(rendered, "exec\u{1b}[1mplan\u{1b}[0m");
}

#[test]
fn plain_rendering_only_escapes() {
    let query_terms = terms(&["plan", "review"]);
    for input in ["a | b\r\nc", "Review ExecPlan's plans", "x|y"] {
        let rendered = render_match_field(input, &query_terms, ColorRendering::Plain);
        assert_eq!(rendered, escape_row_field(input));
    }
    assert_eq!(escape_row_field("a|b\nc"), "a\\|b c");
}

#[test]
fn score_normalize_text_lowercases_splits_and_filters_stopwords() {
    let toks = docgarden::score::normalize_text("Hello, The World!");
    assert_eq!(toks, vec!["hello", "world"]);
}

#[test]
fn score_normalize_path_strips_extension_and_splits_separators() {
    let toks = docgarden::score::normalize_path("docs/the-active-plan/my_guide.md");
    assert_eq!(toks, vec!["docs", "active", "plan", "my", "guide"]);
}

#[test]
fn term_frequency_and_strongest_field() {
    let tokens = terms(&["plan", "review", "plan"]);
    assert_eq!(term_frequency(&tokens, "plan"), 2);
    assert_eq!(term_frequency(&tokens, "guide"), 0);
    assert_eq!(best_field_hit(None, Field::Path), Some(Field::Path));
    assert_eq!(best_field_hit(Some(Field::Path), Field::Description), Some(Field::Description));
    assert_eq!(best_field_hit(Some(Field::Name), Field::Description), Some(Field::Name));
}

#[test]
fn match_queries_need_a_word_that_is_not_a_stop_word() {
    assert_eq!(
        match_query_terms(&terms(&["  ", ""])).unwrap_err(),
        "query must contain at least one non-empty word"
    );
    assert_eq!(
        match_query_terms(&terms(&["the", "a"])).unwrap_err(),
        "query must contain at least one non-stopword term"
    );
    assert_eq!(match_query_terms(&terms(&["review", "plans"])).unwrap(), vec!["review", "plan"]);
    assert!(list_arguments_error(true, true).is_some());
    assert!(list_arguments_error(true, false).is_none());
}

#[test]
fn targets_are_quoted_for_the_shell_when_needed() {
    assert_eq!(shell_escape("docs/guide.md"), "docs/guide.md");
    assert_eq!(shell_escape("my docs"), "'my docs'");
    assert_eq!(shell_escape("it's"), "'it'\\''s'");
    assert_eq!(render_targets(&terms(&[".", "a b"])), ". 'a b'");
}

// ---------------------------------------------------------------------------
// Roots
// ---------------------------------------------------------------------------
#[test]
fn common_ancestor_returns_shared_prefix() {
    let paths = terms(&["/tmp/repo/docs/a.md", "/tmp/repo/src/lib.rs"]);
    assert_eq!(common_ancestor(&paths), Some("/tmp/repo".to_string()));
    assert_eq!(common_ancestor(&terms(&["a/b", "c/d"])), None);
    assert_eq!(common_ancestor(&Vec::new()), None);
}

#[test]
fn roots_come_from_markers_or_the_configuration_file() {
    assert_eq!(ancestors("/a/b"), vec!["/a/b", "/a", "/"]);
    assert_eq!(
        find_root_by_markers("/a/b", &vec![false, true, true]),
        Some("/a".to_string())
    );
    assert_eq!(find_root_by_markers("/a/b", &vec![false, false, false]), None);
    assert_eq!(config_root("/repo/config/custom.toml"), "/repo/config");
    assert_eq!(config_root("/"), "/");
}

// ---------------------------------------------------------------------------
// Lint pieces
// ---------------------------------------------------------------------------
#[test]
fn lines_are_counted_as_str_lines_counts_them() {
    assert_eq!(count_lines(""), 0);
    assert_eq!(count_lines("a"), 1);
    assert_eq!(count_lines("a\n"), 1);
    assert_eq!(count_lines("a\nb"), 2);
    assert_eq!(count_lines("\n\n"), 2);
}

#[test]
fn frontmatter_is_parsed_into_entries() {
    match parse_from_str("---\ndescription: >-\n  Folded skill\n  description frontmatter.\n---\n# Guide\n") {
        FrontmatterParseResult::Valid(fm) => {
            assert!(fm.has_key("description"));
            match fm.get("description") {
                Some(YamlValue::Scalar(s)) => {
                    assert_eq!(s, "Folded skill description frontmatter.")
                }
                _ => panic!("expected a scalar"),
            }
        }
        _ => panic!("expected valid frontmatter"),
    }
    match parse_from_str("---\ndescription: A guide.\n\n# Body starts without closing delimiter\n") {
        FrontmatterParseResult::Malformed { line } => assert_eq!(line, 1),
        _ => panic!("expected malformed frontmatter"),
    }
    match parse_from_str("# Guide\n") {
        FrontmatterParseResult::Absent => {}
        _ => panic!("expected no frontmatter"),
    }
    match parse_from_str("---\nname: 'quoted'\ntags:\n  - a\nnothing:\n---\n") {
        FrontmatterParseResult::Valid(fm) => {
            assert_eq!(fm.scalar_char_count("name"), Some(6));
            assert!(matches!(fm.get("tags"), Some(YamlValue::Nested)));
            assert!(matches!(fm.get("nothing"), Some(YamlValue::Null)));
            assert_eq!(fm.scalar_char_count("tags"), None);
        }
        _ => panic!("expected valid frontmatter"),
    }
    match parse_from_str("---\n  indented: no\n---\n") {
        FrontmatterParseResult::Malformed { line } => assert_eq!(line, 2),
        _ => panic!("expected malformed frontmatter"),
    }
}

#[test]
fn fix_text_applies_edits_or_reports_overlaps() {
    let edits = vec![
        Edit { start_offset: 4, end_offset: 8, replacement: "[docs](docs)".to_string() },
    ];
    assert_eq!(fix_text("See docs here", &edits).unwrap(), Some("See [docs](docs) here".to_string()));
    assert_eq!(fix_text("unchanged", &Vec::new()).unwrap(), None);
    let overlapping = vec![
        Edit { start_offset: 0, end_offset: 4, replacement: "X".to_string() },
        Edit { start_offset: 2, end_offset: 6, replacement: "Y".to_string() },
    ];
    assert_eq!(
        fix_text("abcdef", &overlapping).unwrap_err(),
        "overlapping fix edits at byte offsets 0..4 and 2..6"
    );
}

// ---------------------------------------------------------------------------
// Skill translation
// ---------------------------------------------------------------------------
#[test]
fn is_translatable_command_detection() {
    assert!(!is_translatable_command("docgarden match"));
    assert!(!is_translatable_command("docgarden lint"));
    assert!(is_translatable_command("docgarden match <query>"));
    assert!(is_translatable_command("docgarden lint . --color never"));
    assert!(is_translatable_command("docgarden match --explain <query>"));
    assert!(!is_translatable_command("something else"));
    assert!(!is_translatable_command("docgarden"));
    assert!(!is_translatable_command("docgarden "));
}

#[test]
fn apply_edits_rejects_overlapping_edits() {
    let source = "abcdef";
    let edits = vec![
        Edit {
            start_offset: 0,
            end_offset: 4,
            replacement: "X".into(),
        },
        Edit {
            start_offset: 2,
            end_offset: 6,
            replacement: "Y".into(),
        },
    ];
    let result = apply_edits(source, &edits);
    assert!(result.is_err());
    assert!(result.unwrap_err().to_string().contains("overlapping"));
}

#[test]
fn apply_edits_replaces_each_range_and_keeps_insertion_order() {
    let source = "héllo world";
    let edits = vec![
        Edit { start_offset: 7, end_offset: 12, replacement: "there".into() },
        Edit { start_offset: 0, end_offset: 1, replacement: "H".into() },
        Edit { start_offset: 3, end_offset: 3, replacement: "1".into() },
        Edit { start_offset: 3, end_offset: 3, replacement: "2".into() },
    ];
    assert_eq!(apply_edits(source, &edits).unwrap(), "Hé21llo there");
    assert_eq!(apply_edits(source, &Vec::new()).unwrap(), source);
}

#[test]
fn inline_code_translation_preserves_backtick_count() {
    let source = "``docgarden match <query>``";
    let source_len = source.len();
    let value = "docgarden match <query>";
    let edit = inline_code_translation_edit(source, 0, source_len, value).unwrap();
    assert_eq!(edit.start_offset, 0);
    assert_eq!(edit.end_offset, source_len);
    assert_eq!(edit.replacement, "``cargo run -- match <query>``");
}

#[test]
fn shell_blocks_are_those_without_language_or_with_a_shell() {
    assert!(is_shell_fenced_block(None));
    assert!(is_shell_fenced_block(Some("sh")));
    assert!(is_shell_fenced_block(Some("bash")));
    assert!(is_shell_fenced_block(Some("shell")));
    assert!(!is_shell_fenced_block(Some("yaml")));
}
