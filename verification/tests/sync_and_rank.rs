use docgarden::config::{Config, FileConfig, Rule, RuleConfig, RuleSeverity};
use docgarden::diagnostics::Severity;
use docgarden::lint::{evaluate_file_rules, lint_source, Mode};
use docgarden::local_paths::{references_of_source, source_contains_anchor, TargetProbe};
use docgarden::diagnostics::PatternMatcher;
use docgarden::discover::{apply_match_exclude, explicit_target_error, is_markdown_path, keeps_walked_file};
use docgarden::local_paths::anchor_verdict;
use docgarden::ranking::{
    build_corpus_counts, candidate_terms, combine_field_stats, query_hits, Candidate,
};
use docgarden::analyzer::normalize_text;
use docgarden::score::{Field, FieldStats};
use docgarden::skills::{
    check_outcome, copy_problem, skill_dir_error, source_root_error, translate_skill_commands,
};

fn translate(source: &str) -> Result<String, String> {
    translate_skill_commands(source)
}

fn strings(words: &[&str]) -> Vec<String> {
    words.iter().map(|w| w.to_string()).collect()
}

// ---------------------------------------------------------------------------
// Skill translation
// ---------------------------------------------------------------------------
#[test]
fn translate_inline_command_with_args() {
    let source = "Run `docgarden match <query>` to search.\n";
    let result = translate(source).unwrap();
    assert_eq!(result, "Run `cargo run -- match <query>` to search.\n");
}

#[test]
fn translate_inline_command_with_flags() {
    let source = "Use `docgarden match --explain <query>` for details.\n";
    let result = translate(source).unwrap();
    assert_eq!(
        result,
        "Use `cargo run -- match --explain <query>` for details.\n"
    );
}

#[test]
fn translate_inline_command_with_multiple_args() {
    let source = "Run `docgarden lint <changed-files> --color never`.\n";
    let result = translate(source).unwrap();
    assert_eq!(
        result,
        "Run `cargo run -- lint <changed-files> --color never`.\n"
    );
}

#[test]
fn preserve_conceptual_reference_without_args() {
    let source = "`docgarden match` is metadata-first discovery.\n";
    let result = translate(source).unwrap();
    assert_eq!(result, source);
}

#[test]
fn preserve_conceptual_reference_in_description() {
    let source = "Use `docgarden match` for routing.\n";
    let result = translate(source).unwrap();
    assert_eq!(result, source);
}

#[test]
fn translate_in_fenced_code_block() {
    let source = "```\ndocgarden match query\n```\n";
    let result = translate(source).unwrap();
    assert_eq!(result, "```\ncargo run -- match query\n```\n");
}

#[test]
fn translate_in_fenced_shell_block() {
    let source = "```sh\ndocgarden lint .\n```\n";
    let result = translate(source).unwrap();
    assert_eq!(result, "```sh\ncargo run -- lint .\n```\n");
}

#[test]
fn preserve_non_shell_fenced_block() {
    let source = "```yaml\ndescription: \"`docgarden match` routing\"\n```\n";
    let result = translate(source).unwrap();
    assert_eq!(result, source);
}

#[test]
fn preserve_double_backtick_inline() {
    let source = "Example: ``docgarden match``.\n";
    let result = translate(source).unwrap();
    assert_eq!(result, source);
}

#[test]
fn remove_leading_docgarden_no_space() {
    let source = "`docgarden` is the tool name.\n";
    let result = translate(source).unwrap();
    assert_eq!(result, source);
}

#[test]
fn translate_complex_inline_with_angle_brackets() {
    let source = "Run `docgarden match <query>`.\n";
    let result = translate(source).unwrap();
    assert_eq!(result, "Run `cargo run -- match <query>`.\n");
}

#[test]
fn translate_keeps_double_backticks_around_a_translated_command() {
    let source = "Run ``docgarden match <query>`` now.\n";
    let result = translate(source).unwrap();
    assert_eq!(result, "Run ``cargo run -- match <query>`` now.\n");
}

#[test]
fn translate_rewrites_every_command_line_of_a_bash_block() {
    let source = "```bash\ndocgarden lint .\necho done\ndocgarden match plan\n```\n";
    let result = translate(source).unwrap();
    assert_eq!(
        result,
        "```bash\ncargo run -- lint .\necho done\ncargo run -- match plan\n```\n"
    );
}

#[test]
fn target_anchor_exists_rejects_anchors_on_directories() {
    let exists = anchor_verdict(
        &Some("testing-guidance".to_string()),
        "/tmp/some-directory",
        false,
        false,
    );
    assert!(!exists);
}

// ---------------------------------------------------------------------------
// Keeping the copies in step
// ---------------------------------------------------------------------------
#[test]
fn check_reports_a_missing_copy() {
    assert_eq!(
        copy_problem(".agents/skills/builder/SKILL.md", None, "text"),
        Some("missing generated file: .agents/skills/builder/SKILL.md".to_string())
    );
}

#[test]
fn check_reports_a_stale_copy() {
    assert_eq!(
        copy_problem(".agents/skills/builder/SKILL.md", Some("old"), "new"),
        Some("stale generated file: .agents/skills/builder/SKILL.md".to_string())
    );
    assert_eq!(copy_problem("x/SKILL.md", Some("same"), "same"), None);
}

#[test]
fn check_outcome_lists_every_problem() {
    assert_eq!(check_outcome(&Vec::new()), Ok(()));
    let problems = strings(&["missing generated file: a", "stale generated file: b"]);
    assert_eq!(
        check_outcome(&problems),
        Err("sync-skills --check failed:\nmissing generated file: a\nstale generated file: b".to_string())
    );
}

#[test]
fn source_root_errors_name_the_directory() {
    assert_eq!(
        source_root_error("skills", false, false),
        Some("source skills directory does not exist: skills".to_string())
    );
    assert_eq!(
        source_root_error("skills", true, false),
        Some("source skills path is not a directory: skills".to_string())
    );
    assert_eq!(source_root_error("skills", true, true), None);
}

#[test]
fn skill_directory_errors_name_what_is_missing() {
    assert_eq!(
        skill_dir_error("skills", 0, None),
        Some("no skill directories found under skills".to_string())
    );
    assert_eq!(
        skill_dir_error("skills", 2, Some("skills/builder")),
        Some("skill directory skills/builder has no SKILL.md".to_string())
    );
    assert_eq!(skill_dir_error("skills", 2, None), None);
}

// ---------------------------------------------------------------------------
// Discovery
// ---------------------------------------------------------------------------
#[test]
fn markdown_paths_are_those_with_an_md_extension() {
    assert!(is_markdown_path("/repo/docs/guide.md"));
    assert!(!is_markdown_path("/repo/docs/notes.txt"));
    assert!(!is_markdown_path("/repo/docs/guide.markdown"));
    assert!(!is_markdown_path("/repo/.md"));
}

#[test]
fn explicit_targets_must_be_markdown() {
    assert_eq!(explicit_target_error("docs/guide.md"), None);
    assert_eq!(
        explicit_target_error("docs/notes.txt"),
        Some(
            "docs/notes.txt is not a Markdown file; only .md files are supported as explicit targets"
                .to_string()
        )
    );
}

#[test]
fn match_exclude_without_patterns_keeps_every_file() {
    let config = Config::for_testing("/tmp/repo".to_string());
    let files = strings(&["/tmp/repo/a.md", "/elsewhere/b.md"]);
    assert_eq!(apply_match_exclude(&config, files.clone()), Ok(files));
}

#[test]
fn walked_files_are_kept_by_their_relative_path() {
    let included = PatternMatcher::new(&strings(&["docs/**", "*.md"])).unwrap();
    let excluded = PatternMatcher::new(&strings(&["docs/archive/**"])).unwrap();
    assert_eq!(keeps_walked_file("/repo", &included, &excluded, "/repo/docs/guide.md"), Ok(true));
    assert_eq!(
        keeps_walked_file("/repo", &included, &excluded, "/repo/docs/archive/old.md"),
        Ok(false)
    );
    assert_eq!(keeps_walked_file("/repo", &included, &excluded, "/repo/docs/notes.txt"), Ok(false));
    assert_eq!(
        keeps_walked_file("/repo", &included, &excluded, "/elsewhere/guide.md"),
        Err("/elsewhere/guide.md is not under /repo".to_string())
    );
}

#[test]
fn match_exclusions_drop_files_by_their_relative_path() {
    let mut parsed = FileConfig {
        skills_dir: ".agents/skills".to_string(),
        plans_dir: "docs/exec-plans".to_string(),
        include_patterns: Vec::new(),
        exclude: Vec::new(),
        extend_extensions: Vec::new(),
        remove_extensions: Vec::new(),
        extend_special_filenames: Vec::new(),
        remove_special_filenames: Vec::new(),
        respect_gitignore: true,
        rules: Vec::new(),
        match_exclude: strings(&["skills/**"]),
    };
    let config = Config::from_file_config("/repo".to_string(), None, false, parsed).unwrap();
    let files = strings(&["/repo/skills/builder/SKILL.md", "/repo/docs/guide.md", "/other/x.md"]);
    assert_eq!(
        apply_match_exclude(&config, files),
        Ok(strings(&["/repo/docs/guide.md", "/other/x.md"]))
    );
    parsed = FileConfig {
        skills_dir: ".agents/skills".to_string(),
        plans_dir: "docs/exec-plans".to_string(),
        include_patterns: Vec::new(),
        exclude: Vec::new(),
        extend_extensions: Vec::new(),
        remove_extensions: Vec::new(),
        extend_special_filenames: Vec::new(),
        remove_special_filenames: Vec::new(),
        respect_gitignore: true,
        rules: Vec::new(),
        match_exclude: strings(&["{a,b"]),
    };
    let broken = Config::from_file_config("/repo".to_string(), None, false, parsed).unwrap();
    assert_eq!(
        apply_match_exclude(&broken, strings(&["/repo/a.md"])),
        Err("invalid pattern {a,b".to_string())
    );
}

// ---------------------------------------------------------------------------
// Ranking counts
// ---------------------------------------------------------------------------
fn candidate(name: Option<&str>, path_prefix: &str, description: Option<&str>) -> Candidate {
    Candidate {
        name: name.map(str::to_string),
        path_prefix: path_prefix.to_string(),
        description: description.map(str::to_string),
    }
}

#[test]
fn field_hit_prefers_name_then_description_then_path() {
    let first = candidate_terms(&candidate(Some("review"), "", Some("active plan")));
    let second = candidate_terms(&candidate(None, "docs/review", Some("active plan")));
    let query = normalize_text("review active plan");
    let a = query_hits(&query, &first);
    let b = query_hits(&query, &second);
    assert_eq!(a.matched_terms, 3);
    assert_eq!(b.matched_terms, 3);
    assert_eq!(a.first_field_hit, Some(Field::Name));
    assert_eq!(b.first_field_hit, Some(Field::Description));
}

#[test]
fn empty_query_finds_nothing() {
    let terms = candidate_terms(&candidate(Some("anything"), "", None));
    let hits = query_hits(&Vec::new(), &terms);
    assert_eq!(hits.matched_terms, 0);
    assert_eq!(hits.first_field_hit, None);
    assert!(hits.frequencies.is_empty());
}

#[test]
fn query_hits_count_each_field() {
    let terms = candidate_terms(&candidate(
        Some("review review"),
        "docs/review",
        Some("nothing here"),
    ));
    let hits = query_hits(&strings(&["review", "absent"]), &terms);
    assert_eq!(hits.frequencies.len(), 2);
    assert_eq!(hits.frequencies[0].name, 2);
    assert_eq!(hits.frequencies[0].path_prefix, 1);
    assert_eq!(hits.frequencies[0].description, 0);
    assert_eq!(hits.frequencies[1].name, 0);
    assert_eq!(hits.matched_terms, 1);
    assert_eq!(hits.first_field_hit, Some(Field::Name));
}

#[test]
fn corpus_counts_take_the_largest_field() {
    let docs = vec![
        candidate(Some("rare guide"), "", None),
        candidate(Some("common guide"), "docs", None),
        candidate(Some("common plan"), "", Some("common")),
    ];
    let counts = build_corpus_counts(&docs);
    assert_eq!(counts.doc_count, 3);
    // name terms 6 (boosted 18), path terms 1, description terms 1
    assert_eq!(counts.weighted_term_total, 20);
    let term = |word: &str| normalize_text(word)[0].clone();
    assert_eq!(counts.df.get(&term("common")), Some(&2));
    assert_eq!(counts.df.get(&term("guide")), Some(&2));
    assert_eq!(counts.df.get(&term("rare")), Some(&1));
    assert_eq!(counts.df.get(&term("docs")), Some(&1));
    assert_eq!(counts.df.get("absent"), None);
}

#[test]
fn corpus_counts_of_an_empty_corpus_are_zero() {
    let counts = build_corpus_counts(&Vec::new());
    assert_eq!(counts.doc_count, 0);
    assert_eq!(counts.weighted_term_total, 0);
    assert!(counts.df.is_empty());
}

#[test]
fn combining_field_stats_keeps_the_largest_frequency() {
    let mut name = FieldStats::new();
    let mut path = FieldStats::new();
    let description = FieldStats::new();
    name.record(strings(&["a", "b"]));
    name.record(strings(&["a"]));
    path.record(strings(&["b"]));
    path.record(strings(&["b", "c"]));
    path.record(strings(&["c"]));
    let counts = combine_field_stats(&name, &path, &description);
    assert_eq!(counts.doc_count, 3);
    assert_eq!(counts.weighted_term_total, 3 * 3 + 4);
    assert_eq!(counts.df.get("a"), Some(&2));
    assert_eq!(counts.df.get("b"), Some(&2));
    assert_eq!(counts.df.get("c"), Some(&2));
}

// ---------------------------------------------------------------------------
// Linting one file
// ---------------------------------------------------------------------------
fn config_with_rules(rules: Vec<RuleConfig>) -> Config {
    let parsed = FileConfig {
        skills_dir: ".agents/skills".to_string(),
        plans_dir: "docs/exec-plans".to_string(),
        include_patterns: Vec::new(),
        exclude: Vec::new(),
        extend_extensions: Vec::new(),
        remove_extensions: Vec::new(),
        extend_special_filenames: Vec::new(),
        remove_special_filenames: Vec::new(),
        respect_gitignore: true,
        rules,
        match_exclude: Vec::new(),
    };
    Config::from_file_config("/tmp/repo".to_string(), None, false, parsed).unwrap()
}

fn rule(path: &str, enable: Vec<Rule>, disable: Vec<Rule>) -> RuleConfig {
    RuleConfig {
        path: path.to_string(),
        exclude: Vec::new(),
        disable,
        enable,
        max_tokens: None,
        max_lines: None,
        severity: None,
        reason: None,
        frontmatter: None,
    }
}

fn lint_with(config: &Config, source: &str, exists: bool, mode: Mode) -> docgarden::lint::LintOutcome {
    let references = references_of_source(config, "docs/guide.md", source).unwrap();
    let probes: Vec<TargetProbe> = references
        .iter()
        .map(|_| TargetProbe { exists, is_dir: false, anchor_present: exists })
        .collect();
    lint_source(config, "docs/guide.md", source, &references, &probes, mode).unwrap()
}

#[test]
fn lint_reports_an_unresolved_link() {
    let config = config_with_rules(Vec::new());
    let outcome = lint_with(&config, "See [the plan](missing.md).\n", false, Mode::Check);
    assert_eq!(outcome.diagnostics.len(), 1);
    let d = &outcome.diagnostics[0];
    assert_eq!(d.rule, "unresolved-link-path");
    assert_eq!(d.severity, Severity::Error);
    assert!(!d.fixable);
    assert_eq!((d.line, d.column), (1, 5));
    assert_eq!(
        d.message,
        "Local repository link `[the plan](missing.md)` does not resolve within the repository."
    );
    assert!(outcome.rewritten.is_none());
}

#[test]
fn lint_ignores_a_disabled_rule() {
    let config = config_with_rules(vec![rule("*.md", Vec::new(), vec![Rule::UnresolvedLinkPath])]);
    let outcome = lint_with(&config, "See [the plan](missing.md).\n", false, Mode::Check);
    assert!(outcome.diagnostics.is_empty());
}

#[test]
fn check_reports_a_fixable_path_and_changes_nothing() {
    let config = config_with_rules(vec![rule("*.md", vec![Rule::PreferLinksForLocalPaths], Vec::new())]);
    let outcome = lint_with(&config, "Read `docs/real.md` first.\n", true, Mode::Check);
    assert_eq!(outcome.diagnostics.len(), 1);
    assert_eq!(outcome.diagnostics[0].rule, "prefer-links-for-local-paths");
    assert!(outcome.diagnostics[0].fixable);
    assert_eq!(
        outcome.diagnostics[0].message,
        "Local repository path `docs/real.md` should use Markdown link syntax."
    );
    assert!(outcome.rewritten.is_none());
}

#[test]
fn fix_rewrites_a_path_into_a_link() {
    let config = config_with_rules(vec![rule("*.md", vec![Rule::PreferLinksForLocalPaths], Vec::new())]);
    let outcome = lint_with(&config, "Read `docs/real.md` first.\n", true, Mode::Fix);
    assert_eq!(outcome.diagnostics.len(), 1);
    assert_eq!(
        outcome.rewritten,
        Some("Read [docs/real.md](real.md) first.\n".to_string())
    );
}

#[test]
fn for_testing_configuration_has_the_defaults() {
    let config = Config::for_testing("/tmp/repo".to_string());
    assert_eq!(config.repository_root(), "/tmp/repo");
    assert_eq!(config.skills_dir(), ".agents/skills");
    assert_eq!(config.plans_dir(), "docs/exec-plans");
    assert_eq!(config.skills_root(), "/tmp/repo/.agents/skills");
    assert_eq!(config.plans_root(), "/tmp/repo/docs/exec-plans");
    assert!(config.include_patterns().is_empty());
    assert!(config.known_extensions().contains(".md"));
    assert!(config.special_filenames().contains("AGENTS.md"));
    assert!(config.respect_gitignore());
    assert!(config.config_path().is_none());
}

#[test]
fn budgets_report_tokens_and_lines_over_the_limit() {
    let mut agents = rule("AGENTS.md", Vec::new(), Vec::new());
    agents.max_tokens = Some(1);
    agents.max_lines = Some(1);
    agents.severity = Some(RuleSeverity::Warn);
    let config = config_with_rules(vec![agents]);
    let policy = config.effective_rule_policy_for_path("AGENTS.md");
    let findings = evaluate_file_rules(&policy, "AGENTS.md", "hello world\nsecond line\n");
    assert_eq!(findings.len(), 2);
    assert_eq!(findings[0].rule, Rule::MaxTokens);
    assert!(findings[0].message.starts_with("File has "));
    assert!(findings[0]
        .message
        .ends_with(" tokens, which exceeds configured max-tokens = 1."));
    assert_ne!(findings[0].message, "File has 1 tokens, which exceeds configured max-tokens = 1.");
    assert_eq!(findings[1].rule, Rule::MaxLines);
    assert_eq!(
        findings[1].message,
        "File has 2 lines, which exceeds configured max-lines = 1."
    );
    assert_eq!(findings[0].severity, Severity::Warning);
    assert!(findings.iter().all(|f| f.edit.is_none() && !f.fixable));
    let other = config.effective_rule_policy_for_path("docs/guide.md");
    assert!(evaluate_file_rules(&other, "docs/guide.md", "hello world\nsecond line\n").is_empty());
}

#[test]
fn anchors_are_found_by_heading_slug() {
    let source = "# Testing Guidance\n\n## Setup\n\n## Setup\n";
    assert_eq!(source_contains_anchor(source, "testing-guidance"), Ok(true));
    assert_eq!(source_contains_anchor(source, "setup"), Ok(true));
    assert_eq!(source_contains_anchor(source, "setup-1"), Ok(true));
    assert_eq!(source_contains_anchor(source, "setup-2"), Ok(false));
    assert_eq!(source_contains_anchor(source, "Testing Guidance"), Ok(false));
}

#[test]
fn a_singular_query_meets_plural_field_words() {
    let terms = candidate_terms(&candidate(
        Some("Release Plans"),
        "docs",
        Some("Operational plans archive."),
    ));
    let hits = query_hits(&normalize_text("plan"), &terms);
    assert_eq!(hits.matched_terms, 1);
    assert_eq!(hits.frequencies[0].name, 1);
    assert_eq!(hits.frequencies[0].description, 1);
    assert_eq!(hits.first_field_hit, Some(Field::Name));
    let other = candidate_terms(&candidate(Some("Other"), "docs", Some("Unrelated archive.")));
    assert_eq!(query_hits(&normalize_text("plan"), &other).matched_terms, 0);
}

#[test]
fn stop_words_are_dropped_from_fields_and_queries_alike() {
    let terms = candidate_terms(&candidate(
        Some("the active plan"),
        "docs/the-active-plan",
        Some("implement from the active plan"),
    ));
    let query = normalize_text("the active plan");
    assert_eq!(query.len(), 2);
    let hits = query_hits(&query, &terms);
    assert_eq!(hits.matched_terms, 2);
    assert_eq!(hits.frequencies[0].path_prefix, 1);
    assert_eq!(terms.path_prefix.len(), 3);
}
