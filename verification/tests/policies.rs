use docgarden::config::{
    BudgetLimit, Config, FileConfig, FrontmatterFieldConfig, FrontmatterRuleConfig, Rule,
    RuleConfig, RuleSeverity,
};
use docgarden::diagnostics::Severity;
use docgarden::paths::repository_relative_path;
use docgarden::skills::{is_translatable_command, translate_command};
use docgarden::cli::{lists_document, scope_field_name, Scope};
use docgarden::config::{default_file_config, path_fits_root};
use docgarden::edits::Edit;
use docgarden::references::render_relative_path;
use docgarden::skills::apply_edits;
use docgarden::text::is_whitespace;
use docgarden::diagnostics::{Diagnostic, PatternMatcher};
use docgarden::lint::summarize;
use docgarden::tasks::{
    command_line, coverage_args, covgate_args, release_version_text, stable_coverage_path,
    updated_manifest, ReleaseVersionSummary,
};

fn config(rules: Vec<RuleConfig>) -> Config {
    let parsed = FileConfig {
        skills_dir: ".agents/skills".to_string(),
        plans_dir: "docs/exec-plans".to_string(),
        include_patterns: Vec::new(),
        exclude: Vec::new(),
        extend_extensions: Vec::new(),
        remove_extensions: Vec::new(),
        extend_special_filenames: Vec::new(),
        remove_special_filenames: Vec::new(),
        respect_gitignore: true,
        rules,
        match_exclude: Vec::new(),
    };
    Config::from_file_config("/tmp/repo".to_string(), None, false, parsed).unwrap()
}

fn entry(path: &str) -> RuleConfig {
    RuleConfig {
        path: path.to_string(),
        exclude: Vec::new(),
        disable: Vec::new(),
        enable: Vec::new(),
        max_tokens: None,
        max_lines: None,
        severity: None,
        reason: None,
        frontmatter: None,
    }
}

#[test]
fn an_entry_for_another_path_changes_nothing() {
    let mut readme = entry("README.md");
    readme.disable = vec![Rule::UnresolvedLinkPath];
    readme.max_lines = Some(3);
    let config = config(vec![readme]);
    let guide = config.effective_rule_policy_for_path("docs/guide.md");
    assert!(guide.ignored_rules.is_empty());
    assert_eq!(guide.max_lines, None);
    let root_readme = config.effective_rule_policy_for_path("README.md");
    assert_eq!(root_readme.ignored_rules, vec![Rule::UnresolvedLinkPath]);
    assert_eq!(
        root_readme.max_lines,
        Some(BudgetLimit { limit: 3, severity: RuleSeverity::Error })
    );
}

#[test]
fn the_last_matching_budget_wins() {
    let mut first = entry("*.md");
    first.max_lines = Some(100);
    first.max_tokens = Some(1000);
    let mut second = entry("AGENTS.md");
    second.max_lines = Some(10);
    second.severity = Some(RuleSeverity::Warn);
    let config = config(vec![first, second]);
    let policy = config.effective_rule_policy_for_path("AGENTS.md");
    assert_eq!(
        policy.max_lines,
        Some(BudgetLimit { limit: 10, severity: RuleSeverity::Warn })
    );
    assert_eq!(
        policy.max_tokens,
        Some(BudgetLimit { limit: 1000, severity: RuleSeverity::Error })
    );
}

#[test]
fn a_later_enable_restores_a_disabled_opt_in_rule() {
    let mut on = entry("*.md");
    on.enable = vec![Rule::UnresolvedBacktickPath, Rule::PreferLinksForLocalPaths];
    let mut off = entry("docs/**");
    off.disable = vec![Rule::UnresolvedBacktickPath, Rule::PreferLinksForLocalPaths];
    let mut again = entry("docs/guide.md");
    again.enable = vec![Rule::UnresolvedBacktickPath];
    again.severity = Some(RuleSeverity::Warn);
    let config = config(vec![on, off, again]);
    let guide = config.effective_rule_policy_for_path("docs/guide.md");
    assert_eq!(guide.backtick_path_severity, Some(Severity::Warning));
    assert!(!guide.prefer_links_for_local_paths);
    let other = config.effective_rule_policy_for_path("docs/other.md");
    assert_eq!(other.backtick_path_severity, None);
    let top = config.effective_rule_policy_for_path("top.md");
    assert_eq!(top.backtick_path_severity, Some(Severity::Error));
    assert!(top.prefer_links_for_local_paths);
}

#[test]
fn ignored_rules_are_never_taken_back() {
    let mut off = entry("*.md");
    off.disable = vec![Rule::FrontmatterFieldMissing];
    let mut on = entry("*.md");
    on.enable = vec![Rule::UnresolvedBacktickPath];
    let config = config(vec![off, on]);
    let policy = config.effective_rule_policy_for_path("guide.md");
    assert_eq!(policy.ignored_rules, vec![Rule::FrontmatterFieldMissing]);
}

#[test]
fn the_last_matching_frontmatter_rule_wins() {
    let mut broad = entry("*.md");
    broad.frontmatter = Some(FrontmatterRuleConfig {
        required: vec!["description".to_string()],
        fields: vec![(
            "description".to_string(),
            FrontmatterFieldConfig { max_chars: Some(1024) },
        )],
    });
    let mut skills = entry("SKILL.md");
    skills.frontmatter = Some(FrontmatterRuleConfig {
        required: vec!["name".to_string(), "description".to_string()],
        fields: vec![(
            "description".to_string(),
            FrontmatterFieldConfig { max_chars: Some(200) },
        )],
    });
    let config = config(vec![broad, skills]);
    let skill = config.frontmatter_policy_for_path("skills/builder/SKILL.md");
    assert_eq!(skill.required, vec!["name".to_string(), "description".to_string()]);
    assert_eq!(skill.field_max_chars.get("description"), Some(&200));
    let guide = config.frontmatter_policy_for_path("docs/guide.md");
    assert_eq!(guide.required, vec!["description".to_string()]);
    assert_eq!(guide.field_max_chars.get("description"), Some(&1024));
}

#[test]
fn rule_names_round_trip_and_differ() {
    let all = [
        Rule::UnresolvedLinkPath,
        Rule::UnresolvedBacktickPath,
        Rule::PreferLinksForLocalPaths,
        Rule::MaxTokens,
        Rule::MaxLines,
        Rule::FrontmatterFieldMissing,
        Rule::FrontmatterMalformed,
        Rule::FrontmatterFieldMaxChars,
    ];
    for (i, a) in all.iter().enumerate() {
        assert_eq!(docgarden::config::parse_rule(a.as_str()), Ok(*a));
        for b in all.iter().skip(i + 1) {
            assert_ne!(a.as_str(), b.as_str());
        }
    }
}

#[test]
fn a_path_relative_to_itself_is_empty() {
    assert_eq!(repository_relative_path("/tmp/repo", "/tmp/repo"), Ok(String::new()));
}

#[test]
fn a_translated_command_is_not_translated_again() {
    let once = translate_command("docgarden match <query>");
    assert_eq!(once, "cargo run -- match <query>");
    assert!(!is_translatable_command(&once));
    assert_eq!(translate_command(&once), once);
}

// ---------------------------------------------------------------------------
// Maintenance tasks
// ---------------------------------------------------------------------------

#[test]
fn coverage_runs_use_nextest_when_it_is_installed() {
    let extra = vec!["--lib".to_string()];
    assert_eq!(
        coverage_args(true, stable_coverage_path(), &extra),
        vec![
            "llvm-cov",
            "nextest",
            "--status-level",
            "none",
            "--failure-output",
            "immediate-final",
            "--show-progress",
            "none",
            "--json",
            "--output-path",
            "target/coverage.json",
            "--fail-under-regions=90",
            "--lib",
        ]
    );
    assert_eq!(
        coverage_args(false, "cov.json", &Vec::new()),
        vec!["llvm-cov", "-q", "--json", "--output-path", "cov.json", "--fail-under-regions=90"]
    );
}

#[test]
fn covgate_checks_the_report_with_extra_arguments() {
    assert_eq!(
        covgate_args("target/coverage.json", &vec!["--min".to_string(), "90".to_string()]),
        vec!["check", "target/coverage.json", "--min", "90"]
    );
}

#[test]
fn commands_are_echoed_with_their_arguments() {
    assert_eq!(
        command_line("cargo", &vec!["fmt".to_string()]),
        "> cargo fmt"
    );
    assert_eq!(
        command_line("cargo", &vec!["update".to_string(), "-p".to_string(), "docgarden".to_string()]),
        "> cargo update -p docgarden"
    );
}

#[test]
fn release_versions_must_be_semver() {
    assert_eq!(release_version_text("1.2.3"), Ok("1.2.3".to_string()));
    assert_eq!(release_version_text("1.2.3-rc.1"), Ok("1.2.3-rc.1".to_string()));
    assert_eq!(
        release_version_text("v1.2"),
        Err("invalid SemVer version `v1.2`".to_string())
    );
}

#[test]
fn release_summary_lists_changed_files_in_order() {
    let both = ReleaseVersionSummary { manifest_changed: true, lockfile_changed: true };
    assert_eq!(both.changed_files(), vec!["Cargo.toml", "Cargo.lock"]);
    let lock = ReleaseVersionSummary { manifest_changed: false, lockfile_changed: true };
    assert_eq!(lock.changed_files(), vec!["Cargo.lock"]);
    let none = ReleaseVersionSummary { manifest_changed: false, lockfile_changed: false };
    assert!(none.changed_files().is_empty());
}

#[test]
fn the_manifest_version_is_replaced_in_place() {
    let manifest = "[package]\nname = \"docgarden\"\nversion = \"0.1.0\"\nedition = \"2021\"\n";
    assert_eq!(
        updated_manifest(manifest, "0.2.0"),
        Ok(Some("[package]\nname = \"docgarden\"\nversion = \"0.2.0\"\nedition = \"2021\"\n".to_string()))
    );
    assert_eq!(updated_manifest(manifest, "0.1.0"), Ok(None));
    assert_eq!(
        updated_manifest("[workspace]\nmembers = []\n", "0.2.0"),
        Err("Cargo.toml has no [package].version".to_string())
    );
    assert_eq!(
        updated_manifest("[package]\nversion = 1\n", "0.2.0"),
        Err("Cargo.toml has non-string [package].version".to_string())
    );
    assert!(updated_manifest("[package\n", "0.2.0").is_err());
}

#[test]
fn scope_errors_name_the_configuration_keys() {
    assert_eq!(scope_field_name(Scope::Skills), "skills-dir");
    assert_eq!(scope_field_name(Scope::Plans), "plans-dir");
    assert_eq!(scope_field_name(Scope::ActivePlans), "plans-dir");
    assert_eq!(scope_field_name(Scope::CompletedPlans), "plans-dir");
}

#[test]
fn undescribed_documents_are_listed_only_when_named() {
    assert!(lists_document(true, false));
    assert!(lists_document(false, true));
    assert!(!lists_document(false, false));
}

#[test]
fn rule_matchers_take_paths_that_are_not_rooted_after_the_root() {
    assert!(path_fits_root("/repo", "docs/guide.md"));
    assert!(path_fits_root("/repo", "./docs/guide.md"));
    assert!(path_fits_root("/repo", "docs//a.md"));
    assert!(!path_fits_root("/repo", "/docs/guide.md"));
    assert!(!path_fits_root("/repo", ".//docs/a.md"));
    assert!(!path_fits_root("docs", "docs//a.md"));
    assert!(!path_fits_root("./docs", "./docs//a.md"));
    assert!(path_fits_root("docs", "docs/a.md"));
}

#[test]
fn comment_and_blank_pattern_lines_match_nothing() {
    let patterns = vec!["# a comment".to_string(), "   ".to_string(), "docs/*.md   ".to_string()];
    let matcher = PatternMatcher::new(&patterns).unwrap();
    assert!(matcher.is_match("docs/guide.md", false));
    assert!(!matcher.is_match("# a comment", false));
    assert!(!matcher.is_match("README.md", false));
}

fn diagnostic(rule: &str, fixable: bool) -> Diagnostic {
    Diagnostic {
        file: "docs/guide.md".to_string(),
        line: 1,
        column: 1,
        severity: Severity::Error,
        rule: rule.to_string(),
        message: String::new(),
        fixable,
    }
}

#[test]
fn summaries_of_two_runs_add_up_in_any_order() {
    let a = vec![diagnostic("prefer-links-for-local-paths", true), diagnostic("unresolved-link-path", false)];
    let b = vec![diagnostic("prefer-links-for-local-paths", true), diagnostic("max-lines", false)];
    let ab: Vec<Diagnostic> = a.iter().chain(b.iter()).cloned().collect();
    let ba: Vec<Diagnostic> = b.iter().chain(a.iter()).cloned().collect();
    let (sa, sb, sab, sba) = (summarize(&a), summarize(&b), summarize(&ab), summarize(&ba));
    assert_eq!(sab.fixable_count, sa.fixable_count + sb.fixable_count);
    assert_eq!(sab.fixable_count, sba.fixable_count);
    assert_eq!(sab.fixable_rules.len(), 1);
    assert!(sab.fixable_rules.contains("prefer-links-for-local-paths"));
    assert_eq!(sba.fixable_rules.len(), 1);
}

#[test]
fn summaries_do_not_depend_on_the_order_of_the_diagnostics() {
    let ds = vec![
        diagnostic("prefer-links-for-local-paths", true),
        diagnostic("max-lines", false),
        diagnostic("unresolved-link-path", true),
        diagnostic("prefer-links-for-local-paths", true),
    ];
    let mut reversed = ds.clone();
    reversed.reverse();
    let (forward, backward) = (summarize(&ds), summarize(&reversed));
    assert_eq!(forward.fixable_count, 3);
    assert_eq!(backward.fixable_count, 3);
    assert_eq!(forward.fixable_rules.len(), 2);
    assert_eq!(backward.fixable_rules.len(), 2);
    assert!(backward.fixable_rules.contains("unresolved-link-path"));
    assert!(backward.fixable_rules.contains("prefer-links-for-local-paths"));
}

#[test]
fn edits_with_distinct_starts_apply_alike_in_any_order() {
    let edit = |start: usize, end: usize, text: &str| Edit {
        start_offset: start,
        end_offset: end,
        replacement: text.to_string(),
    };
    let given = vec![edit(4, 6, "Y"), edit(0, 2, "X")];
    let swapped = vec![edit(0, 2, "X"), edit(4, 6, "Y")];
    assert_eq!(apply_edits("abcdef", &given).unwrap(), "XcdY");
    assert_eq!(apply_edits("abcdef", &swapped).unwrap(), "XcdY");
}

#[test]
fn relative_links_climb_to_the_shared_directory() {
    assert_eq!(render_relative_path("docs", "README.md", false), "../README.md");
    assert_eq!(render_relative_path("docs", "docs/real.md", false), "real.md");
    assert_eq!(render_relative_path("docs", "docs", true), "./");
    assert_eq!(render_relative_path("docs/a", "docs/b/c.md", false), "../b/c.md");
    assert_eq!(render_relative_path("", "skills/", true), "skills/");
}

#[test]
fn a_second_release_at_the_same_version_changes_nothing() {
    let manifest = "[package]\nname = \"docgarden\"\nversion = \"0.1.0\" # current\n";
    let updated = updated_manifest(manifest, "0.3.1").unwrap().unwrap();
    assert_eq!(updated, "[package]\nname = \"docgarden\"\nversion = \"0.3.1\" # current\n");
    assert_eq!(updated_manifest(&updated, "0.3.1"), Ok(None));
}

#[test]
fn the_default_configuration_holds_the_documented_budgets() {
    let config = Config::from_file_config("/tmp/repo".to_string(), None, false, default_file_config())
        .unwrap();
    let agents = config.effective_rule_policy_for_path("AGENTS.md");
    assert_eq!(agents.max_lines, Some(BudgetLimit { limit: 100, severity: RuleSeverity::Error }));
    assert_eq!(agents.max_tokens, Some(BudgetLimit { limit: 1000, severity: RuleSeverity::Error }));
    let skill = config.effective_rule_policy_for_path(".agents/skills/builder/SKILL.md");
    assert_eq!(skill.max_lines, Some(BudgetLimit { limit: 500, severity: RuleSeverity::Error }));
    assert_eq!(skill.max_tokens, Some(BudgetLimit { limit: 5000, severity: RuleSeverity::Error }));
    let guide = config.effective_rule_policy_for_path("docs/guide.md");
    assert_eq!(guide.max_lines, None);
    let guide_fields = config.frontmatter_policy_for_path("docs/guide.md");
    assert_eq!(guide_fields.required, vec!["description".to_string()]);
    assert_eq!(guide_fields.field_max_chars.get("description"), Some(&1024));
    let readme_fields = config.frontmatter_policy_for_path("README.md");
    assert!(readme_fields.required.is_empty());
    let skill_fields = config.frontmatter_policy_for_path(".agents/skills/builder/SKILL.md");
    assert_eq!(skill_fields.required, vec!["name".to_string(), "description".to_string()]);
}

#[test]
fn whitespace_is_the_unicode_white_space_property() {
    assert!(is_whitespace(' '));
    assert!(is_whitespace('\t'));
    assert!(is_whitespace('\u{a0}'));
    assert!(is_whitespace('\u{3000}'));
    assert!(!is_whitespace('a'));
    assert!(!is_whitespace('/'));
    assert!(!is_whitespace('\u{200b}'));
}
