//! Configuration: the parsed `docgarden.toml` shape, its validation and
//! lowering into rule applications, and the per-path policies that the
//! ordered `[[rules]]` entries produce.
use vstd::prelude::*;

use ignore::gitignore::Gitignore;

use crate::defaults::{
    default_extension_list, default_extensions, default_scan_patterns, default_scan_patterns_vec,
    default_special_filename_list, default_special_filenames,
};
use crate::diagnostics::Severity;
use crate::matcher::{
    compile_outcome, compile_patterns, gitignore_matched_or_parents, gitignore_matches_or_parents,
    gitignore_source, kept_lines, parents_safe, views, without_dot_slash,
};
use crate::strset::{StringMap, StringSet};
use crate::text::{
    all_white, chars_of, concat_chars, is_blank, push_str, seq_starts_with, spec_trim,
    starts_with, str_eq, string_from_chars, trim,
};

verus! {

// ---------------------------------------------------------------------------
// Rule names
// ---------------------------------------------------------------------------
#[derive(Clone, Copy, Debug, PartialEq, Eq, Structural, PartialOrd, Ord, Hash)]
pub enum Rule {
    UnresolvedLinkPath,
    UnresolvedBacktickPath,
    PreferLinksForLocalPaths,
    MaxTokens,
    MaxLines,
    FrontmatterFieldMissing,
    FrontmatterMalformed,
    FrontmatterFieldMaxChars,
}

/// The canonical kebab-case name of a rule.
pub open spec fn rule_name(rule: Rule) -> Seq<char> {
    match rule {
        Rule::UnresolvedLinkPath => "unresolved-link-path"@,
        Rule::UnresolvedBacktickPath => "unresolved-backtick-path"@,
        Rule::PreferLinksForLocalPaths => "prefer-links-for-local-paths"@,
        Rule::MaxTokens => "max-tokens"@,
        Rule::MaxLines => "max-lines"@,
        Rule::FrontmatterFieldMissing => "frontmatter-field-missing"@,
        Rule::FrontmatterMalformed => "frontmatter-malformed"@,
        Rule::FrontmatterFieldMaxChars => "frontmatter-field-max-chars"@,
    }
}

/// Rules that an `enable` list may name: the opt-in path rules.
pub open spec fn spec_supported_in_enable(rule: Rule) -> bool {
    rule == Rule::UnresolvedBacktickPath || rule == Rule::PreferLinksForLocalPaths
}

impl Rule {
    pub fn as_str(self) -> (s: &'static str)
        ensures
            s@ == rule_name(self),
    {
        match self {
            Rule::UnresolvedLinkPath => "unresolved-link-path",
            Rule::UnresolvedBacktickPath => "unresolved-backtick-path",
            Rule::PreferLinksForLocalPaths => "prefer-links-for-local-paths",
            Rule::MaxTokens => "max-tokens",
            Rule::MaxLines => "max-lines",
            Rule::FrontmatterFieldMissing => "frontmatter-field-missing",
            Rule::FrontmatterMalformed => "frontmatter-malformed",
            Rule::FrontmatterFieldMaxChars => "frontmatter-field-max-chars",
        }
    }

    pub fn supported_in_enable(self) -> (r: bool)
        ensures
            r == spec_supported_in_enable(self),
    {
        match self {
            Rule::UnresolvedBacktickPath | Rule::PreferLinksForLocalPaths => true,
            _ => false,
        }
    }
}

/// Distinct rules have distinct names.
pub proof fn lemma_rule_name_injective(a: Rule, b: Rule)
    ensures
        rule_name(a) == rule_name(b) ==> a == b,
{
    reveal_strlit("unresolved-link-path");
    reveal_strlit("unresolved-backtick-path");
    reveal_strlit("prefer-links-for-local-paths");
    reveal_strlit("max-tokens");
    reveal_strlit("max-lines");
    reveal_strlit("frontmatter-field-missing");
    reveal_strlit("frontmatter-malformed");
    reveal_strlit("frontmatter-field-max-chars");
    if rule_name(a) == rule_name(b) && a != b {
        assert(rule_name(a).len() != rule_name(b).len() || exists|i: int|
            0 <= i < rule_name(a).len() && rule_name(a)[i] != rule_name(b)[i]) by {
            match (a, b) {
                (Rule::UnresolvedLinkPath, Rule::UnresolvedBacktickPath) => {
                    assert(rule_name(a)[11] != rule_name(b)[11]);
                },
                (Rule::UnresolvedBacktickPath, Rule::UnresolvedLinkPath) => {
                    assert(rule_name(a)[11] != rule_name(b)[11]);
                },
                (Rule::MaxTokens, Rule::MaxLines) => {
                    assert(rule_name(a)[4] != rule_name(b)[4]);
                },
                (Rule::MaxLines, Rule::MaxTokens) => {
                    assert(rule_name(a)[4] != rule_name(b)[4]);
                },
                _ => {},
            }
        }
    }
}

/// The message for a rule name that is not one of the canonical ones.
pub open spec fn unsupported_rule_message(value: Seq<char>) -> Seq<char> {
    "unsupported rule `"@ + value + "`"@
}

/// Parses a canonical rule name; any other spelling is refused.
pub fn parse_rule(value: &str) -> (r: Result<Rule, String>)
    ensures
        r matches Ok(rule) ==> rule_name(rule) == value@,
        (exists|rule: Rule| rule_name(rule) == value@) ==> r is Ok,
        r matches Err(m) ==> m@ == unsupported_rule_message(value@),
{
    let all: [Rule; 8] = [
        Rule::UnresolvedLinkPath,
        Rule::UnresolvedBacktickPath,
        Rule::PreferLinksForLocalPaths,
        Rule::MaxTokens,
        Rule::MaxLines,
        Rule::FrontmatterFieldMissing,
        Rule::FrontmatterMalformed,
        Rule::FrontmatterFieldMaxChars,
    ];
    let mut i: usize = 0;
    while i < 8
        invariant
            i <= 8,
            all@ == seq![
                Rule::UnresolvedLinkPath,
                Rule::UnresolvedBacktickPath,
                Rule::PreferLinksForLocalPaths,
                Rule::MaxTokens,
                Rule::MaxLines,
                Rule::FrontmatterFieldMissing,
                Rule::FrontmatterMalformed,
                Rule::FrontmatterFieldMaxChars,
            ],
            forall|j: int| 0 <= j < i ==> rule_name(all@[j]) != value@,
        decreases 8 - i,
    {
        if str_eq(all[i].as_str(), value) {
            return Ok(all[i]);
        }
        i += 1;
    }
    proof {
        assert forall|rule: Rule| rule_name(rule) != value@ by {
            match rule {
                Rule::UnresolvedLinkPath => assert(rule_name(all@[0]) != value@),
                Rule::UnresolvedBacktickPath => assert(rule_name(all@[1]) != value@),
                Rule::PreferLinksForLocalPaths => assert(rule_name(all@[2]) != value@),
                Rule::MaxTokens => assert(rule_name(all@[3]) != value@),
                Rule::MaxLines => assert(rule_name(all@[4]) != value@),
                Rule::FrontmatterFieldMissing => assert(rule_name(all@[5]) != value@),
                Rule::FrontmatterMalformed => assert(rule_name(all@[6]) != value@),
                Rule::FrontmatterFieldMaxChars => assert(rule_name(all@[7]) != value@),
            }
        }
    }
    let mut msg = chars_of("unsupported rule `");
    push_str(&mut msg, value);
    push_str(&mut msg, "`");
    Err(string_from_chars(msg.as_slice()))
}

impl core::str::FromStr for Rule {
    type Err = String;

    fn from_str(value: &str) -> Result<Self, Self::Err> {
        parse_rule(value)
    }
}

/// Reading back the name of a rule gives the rule.
pub proof fn lemma_parse_rule_name_roundtrip(rule: Rule, parsed: Rule)
    requires
        rule_name(parsed) == rule_name(rule),
    ensures
        parsed == rule,
{
    lemma_rule_name_injective(parsed, rule);
}

// ---------------------------------------------------------------------------
// Severities and budgets
// ---------------------------------------------------------------------------
#[derive(Clone, Copy, Debug, PartialEq, Eq, Structural)]
pub enum RuleSeverity {
    Error,
    Warn,
}

pub open spec fn spec_severity_of(s: RuleSeverity) -> Severity {
    match s {
        RuleSeverity::Error => Severity::Error,
        RuleSeverity::Warn => Severity::Warning,
    }
}

/// The diagnostic severity that a configured rule severity stands for.
pub fn severity_of(s: RuleSeverity) -> (r: Severity)
    ensures
        r == spec_severity_of(s),
{
    match s {
        RuleSeverity::Error => Severity::Error,
        RuleSeverity::Warn => Severity::Warning,
    }
}

#[derive(Clone, Copy, Debug, PartialEq, Eq, Structural)]
pub struct BudgetLimit {
    pub limit: usize,
    pub severity: RuleSeverity,
}

/// `<rule> must be greater than zero`.
pub open spec fn zero_budget_message(rule: Seq<char>) -> Seq<char> {
    rule + " must be greater than zero"@
}

pub fn budget_limit(rule: &str, limit: usize, severity: RuleSeverity) -> (r: Result<
    BudgetLimit,
    String,
>)
    ensures
        limit == 0 ==> (r matches Err(m) && m@ == zero_budget_message(rule@)),
        limit > 0 ==> r == Ok::<BudgetLimit, String>(BudgetLimit { limit, severity }),
{
    if limit == 0 {
        let mut msg = chars_of(rule);
        push_str(&mut msg, " must be greater than zero");
        return Err(string_from_chars(msg.as_slice()));
    }
    Ok(BudgetLimit { limit, severity })
}

// ---------------------------------------------------------------------------
// The parsed configuration file
// ---------------------------------------------------------------------------
#[derive(Debug)]
pub struct FrontmatterFieldConfig {
    pub max_chars: Option<usize>,
}

/// The `[rules.frontmatter]` table.  `fields` holds the field tables in
/// ascending name order.
#[derive(Debug)]
pub struct FrontmatterRuleConfig {
    pub required: Vec<String>,
    pub fields: Vec<(String, FrontmatterFieldConfig)>,
}

#[derive(Debug)]
pub struct RuleConfig {
    pub path: String,
    pub exclude: Vec<String>,
    pub disable: Vec<Rule>,
    pub enable: Vec<Rule>,
    pub max_tokens: Option<usize>,
    pub max_lines: Option<usize>,
    pub severity: Option<RuleSeverity>,
    pub reason: Option<String>,
    pub frontmatter: Option<FrontmatterRuleConfig>,
}

#[derive(Debug)]
pub struct FileConfig {
    pub skills_dir: String,
    pub plans_dir: String,
    pub include_patterns: Vec<String>,
    pub exclude: Vec<String>,
    pub extend_extensions: Vec<String>,
    pub remove_extensions: Vec<String>,
    pub extend_special_filenames: Vec<String>,
    pub remove_special_filenames: Vec<String>,
    pub respect_gitignore: bool,
    pub rules: Vec<RuleConfig>,
    /// The `exclude` list of the `[match]` table.
    pub match_exclude: Vec<String>,
}

pub fn default_respect_gitignore() -> (r: bool)
    ensures
        r,
{
    true
}

pub fn default_skills_dir() -> (r: String)
    ensures
        r@ == ".agents/skills"@,
{
    String::from_str(".agents/skills")
}

pub fn default_plans_dir() -> (r: String)
    ensures
        r@ == "docs/exec-plans"@,
{
    String::from_str("docs/exec-plans")
}

/// A `[[rules]]` entry for `path` with nothing set.
fn empty_rule(path: &str) -> (r: RuleConfig)
    ensures
        r.path@ == path@,
        r.exclude@.len() == 0,
        r.disable@.len() == 0,
        r.enable@.len() == 0,
        r.max_tokens is None,
        r.max_lines is None,
        r.severity is None,
        r.reason is None,
        r.frontmatter is None,
{
    RuleConfig {
        path: String::from_str(path),
        exclude: Vec::new(),
        disable: Vec::new(),
        enable: Vec::new(),
        max_tokens: None,
        max_lines: None,
        severity: None,
        reason: None,
        frontmatter: None,
    }
}

fn string_vec2(a: &str, b: &str) -> (r: Vec<String>)
    ensures
        views(r@) == seq![a@, b@],
{
    let r = vec![String::from_str(a), String::from_str(b)];
    assert(views(r@) =~= seq![a@, b@]);
    r
}

/// The configuration used where a repository has no `docgarden.toml`:
/// every Markdown file's `description` is at most 1024 characters; every
/// Markdown file but `AGENTS.md` and `README.md` must have a description;
/// `AGENTS.md` is held to 100 lines and 1000 tokens; `SKILL.md` to 500
/// lines and 5000 tokens and must have a name and a description.
pub fn default_file_config() -> (c: FileConfig)
    ensures
        c.skills_dir@ == ".agents/skills"@,
        c.plans_dir@ == "docs/exec-plans"@,
        c.include_patterns@.len() == 0,
        c.exclude@.len() == 0,
        c.extend_extensions@.len() == 0,
        c.remove_extensions@.len() == 0,
        c.extend_special_filenames@.len() == 0,
        c.remove_special_filenames@.len() == 0,
        c.respect_gitignore,
        c.match_exclude@.len() == 0,
        c.rules@.len() == 4,
        c.rules@[0].path@ == "*.md"@,
        c.rules@[0].exclude@.len() == 0,
        c.rules@[0].disable@.len() == 0 && c.rules@[0].enable@.len() == 0,
        c.rules@[0].max_tokens is None && c.rules@[0].max_lines is None,
        c.rules@[0].severity is None,
        c.rules@[0].frontmatter matches Some(fm) && fm.required@.len() == 0 && fm.fields@.len() == 1
            && fm.fields@[0].0@ == "description"@ && fm.fields@[0].1.max_chars == Some(1024usize),
        c.rules@[1].path@ == "*.md"@,
        views(c.rules@[1].exclude@) == seq!["AGENTS.md"@, "README.md"@],
        c.rules@[1].disable@.len() == 0 && c.rules@[1].enable@.len() == 0,
        c.rules@[1].max_tokens is None && c.rules@[1].max_lines is None,
        c.rules@[1].severity is None,
        c.rules@[1].frontmatter matches Some(fm) && views(fm.required@) == seq!["description"@]
            && fm.fields@.len() == 0,
        c.rules@[2].path@ == "AGENTS.md"@,
        c.rules@[2].exclude@.len() == 0,
        c.rules@[2].disable@.len() == 0 && c.rules@[2].enable@.len() == 0,
        c.rules@[2].max_lines == Some(100usize) && c.rules@[2].max_tokens == Some(1000usize),
        c.rules@[2].severity is None && c.rules@[2].frontmatter is None,
        c.rules@[3].path@ == "SKILL.md"@,
        c.rules@[3].exclude@.len() == 0,
        c.rules@[3].disable@.len() == 0 && c.rules@[3].enable@.len() == 0,
        c.rules@[3].max_lines == Some(500usize) && c.rules@[3].max_tokens == Some(5000usize),
        c.rules@[3].severity is None,
        c.rules@[3].frontmatter matches Some(fm) && views(fm.required@) == seq!["name"@, "description"@]
            && fm.fields@.len() == 0,
{
    let mut described = empty_rule("*.md");
    let fields = vec![(String::from_str("description"), FrontmatterFieldConfig { max_chars: Some(1024) })];
    described.frontmatter = Some(FrontmatterRuleConfig { required: Vec::new(), fields });
    let mut required = empty_rule("*.md");
    required.exclude = string_vec2("AGENTS.md", "README.md");
    let req = vec![String::from_str("description")];
    assert(views(req@) =~= seq!["description"@]);
    required.frontmatter = Some(FrontmatterRuleConfig { required: req, fields: Vec::new() });
    let mut agents = empty_rule("AGENTS.md");
    agents.max_lines = Some(100);
    agents.max_tokens = Some(1000);
    let mut skill = empty_rule("SKILL.md");
    skill.max_lines = Some(500);
    skill.max_tokens = Some(5000);
    skill.frontmatter = Some(FrontmatterRuleConfig { required: string_vec2("name", "description"), fields: Vec::new() });
    FileConfig {
        skills_dir: default_skills_dir(),
        plans_dir: default_plans_dir(),
        include_patterns: Vec::new(),
        exclude: Vec::new(),
        extend_extensions: Vec::new(),
        remove_extensions: Vec::new(),
        extend_special_filenames: Vec::new(),
        remove_special_filenames: Vec::new(),
        respect_gitignore: true,
        rules: vec![described, required, agents, skill],
        match_exclude: Vec::new(),
    }
}

// ---------------------------------------------------------------------------
// Field validation
// ---------------------------------------------------------------------------
/// A relative path's components, as `Path::components` splits them on `/`.
pub open spec fn has_parent_component(path: Seq<char>) -> bool {
    exists|i: int| parent_component_at(path, i)
}

/// A `..` component starts at index `i` of `path`.
pub open spec fn parent_component_at(path: Seq<char>, i: int) -> bool {
    0 <= i && i + 2 <= path.len() && path[i] == '.' && path[i + 1] == '.' && (i == 0 || path[i
        - 1] == '/') && (i + 2 == path.len() || path[i + 2] == '/')
}

/// Why a configured directory is refused, if it is.
pub open spec fn relative_dir_error(field: Seq<char>, value: Seq<char>) -> Option<Seq<char>> {
    let trimmed = spec_trim(value);
    if trimmed.len() == 0 {
        Some(field + " must not be empty"@)
    } else if trimmed[0] == '/' {
        Some(field + " must be a relative path under the repository root"@)
    } else if has_parent_component(trimmed) {
        Some(field + " must stay under the repository root"@)
    } else {
        None
    }
}

fn has_parent_dir(path: &[char]) -> (r: bool)
    ensures
        r == has_parent_component(path@),
{
    let mut i: usize = 0;
    while i < path.len() && 2 <= path.len() - i
        invariant
            i <= path@.len(),
            forall|j: int| 0 <= j < i ==> !parent_component_at(path@, j),
        decreases path@.len() - i,
    {
        if path[i] == '.' && path[i + 1] == '.' && (i == 0 || path[i - 1] == '/') && (i + 2
            == path.len() || path[i + 2] == '/') {
            assert(parent_component_at(path@, i as int));
            return true;
        }
        i += 1;
    }
    assert forall|j: int| !parent_component_at(path@, j) by {
        if 0 <= j < i {
        }
    }
    false
}

/// Checks that a configured directory is a non-empty relative path that
/// stays under the repository root; gives it back trimmed.
pub fn validate_repository_relative_dir(field: &str, value: &str) -> (r: Result<String, String>)
    ensures
        r matches Ok(p) ==> relative_dir_error(field@, value@) is None && p@ == spec_trim(value@),
        r matches Err(m) ==> relative_dir_error(field@, value@) == Some(m@),
        relative_dir_error(field@, value@) is None ==> r is Ok,
{
    let v = chars_of(value);
    let trimmed = trim(v.as_slice());
    if trimmed.len() == 0 {
        let mut msg = chars_of(field);
        push_str(&mut msg, " must not be empty");
        return Err(string_from_chars(msg.as_slice()));
    }
    if trimmed[0] == '/' {
        let mut msg = chars_of(field);
        push_str(&mut msg, " must be a relative path under the repository root");
        return Err(string_from_chars(msg.as_slice()));
    }
    if has_parent_dir(trimmed.as_slice()) {
        let mut msg = chars_of(field);
        push_str(&mut msg, " must stay under the repository root");
        return Err(string_from_chars(msg.as_slice()));
    }
    Ok(string_from_chars(trimmed.as_slice()))
}

/// An extension with a leading dot.
pub open spec fn spec_normalize_extension(value: Seq<char>) -> Seq<char> {
    if value.len() > 0 && value[0] == '.' {
        value
    } else {
        seq!['.'] + value
    }
}

/// A normalized extension starts with `.`: a value that starts with one is
/// kept as it is, any other gets exactly one `.` in front.
pub proof fn lemma_normalized_extension(value: Seq<char>)
    ensures
        spec_normalize_extension(value).len() > 0,
        spec_normalize_extension(value)[0] == '.',
        value.len() > 0 && value[0] == '.' ==> spec_normalize_extension(value) == value,
        !(value.len() > 0 && value[0] == '.') ==> spec_normalize_extension(value).len() == value.len()
            + 1 && spec_normalize_extension(value).drop_first() == value,
{
    if !(value.len() > 0 && value[0] == '.') {
        assert((seq!['.'] + value).drop_first() =~= value);
    }
}

/// The known extensions after the settings: `base` with the normalized
/// added names, less the normalized removed ones.
pub open spec fn merged_extensions(base: Set<Seq<char>>, extend: Seq<Seq<char>>, remove: Seq<Seq<char>>) -> Set<
    Seq<char>,
> {
    merged_names(base, extend, remove, |s: Seq<char>| spec_normalize_extension(s))
}

/// What the extension settings do to a set of known extensions: every
/// name in the result starts with `.` when every known one did; an added
/// name without a dot is known with one, unless it is also removed, with
/// or without its dot; a removed name without a dot is no longer known
/// with one.
pub proof fn lemma_merged_extensions(
    base: Set<Seq<char>>,
    extend: Seq<Seq<char>>,
    remove: Seq<Seq<char>>,
    name: Seq<char>,
)
    ensures
        (forall|x: Seq<char>| #[trigger] base.contains(x) ==> x.len() > 0 && x[0] == '.') ==> (forall|
            x: Seq<char>,
        |
            #[trigger] merged_extensions(base, extend, remove).contains(x) ==> x.len() > 0 && x[0] == '.'),
        extend.contains(name) && !(name.len() > 0 && name[0] == '.') && !remove.contains(name)
            && !remove.contains(seq!['.'] + name) ==> merged_extensions(base, extend, remove).contains(seq!['.'] + name),
        remove.contains(name) && !(name.len() > 0 && name[0] == '.') ==> !merged_extensions(base, extend, remove).contains(seq!['.'] + name),
{
    let f = |s: Seq<char>| spec_normalize_extension(s);
    let m = merged_extensions(base, extend, remove);
    if forall|x: Seq<char>| #[trigger] base.contains(x) ==> x.len() > 0 && x[0] == '.' {
        assert forall|x: Seq<char>| #[trigger] m.contains(x) implies x.len() > 0 && x[0] == '.' by {
            if !base.contains(x) {
                assert(extend.map_values(f).to_set().contains(x));
                assert(extend.map_values(f).contains(x));
                let i = choose|i: int| 0 <= i < extend.map_values(f).len() && extend.map_values(f)[i] == x;
                lemma_normalized_extension(extend[i]);
            }
        }
    }
    let dotted = seq!['.'] + name;
    if extend.contains(name) && !(name.len() > 0 && name[0] == '.') && !remove.contains(name)
        && !remove.contains(dotted) {
        let i = choose|i: int| 0 <= i < extend.len() && extend[i] == name;
        assert(extend.map_values(f)[i] == dotted);
        assert(extend.map_values(f).to_set().contains(dotted));
        if remove.map_values(f).to_set().contains(dotted) {
            assert(remove.map_values(f).contains(dotted));
            let j = choose|j: int| 0 <= j < remove.map_values(f).len() && remove.map_values(f)[j] == dotted;
            let r = remove[j];
            if r.len() > 0 && r[0] == '.' {
                assert(r == dotted);
            } else {
                assert((seq!['.'] + r).drop_first() =~= r);
                assert(dotted.drop_first() =~= name);
                assert(r == name);
            }
        }
    }
    if remove.contains(name) && !(name.len() > 0 && name[0] == '.') {
        let j = choose|j: int| 0 <= j < remove.len() && remove[j] == name;
        assert(remove.map_values(f)[j] == dotted);
        assert(remove.map_values(f).to_set().contains(dotted));
    }
}

pub fn normalize_extension(value: &str) -> (r: String)
    ensures
        r@ == spec_normalize_extension(value@),
{
    let v = chars_of(value);
    if v.len() > 0 && v[0] == '.' {
        return string_from_chars(v.as_slice());
    }
    let mut out: Vec<char> = Vec::new();
    out.push('.');
    crate::text::push_all(&mut out, v.as_slice());
    assert(out@ == seq!['.'] + value@);
    string_from_chars(out.as_slice())
}

/// `base` with each of `extend` added, then each of `remove` taken out,
/// every name passed through `f` first.
pub open spec fn merged_names(
    base: Set<Seq<char>>,
    extend: Seq<Seq<char>>,
    remove: Seq<Seq<char>>,
    f: spec_fn(Seq<char>) -> Seq<char>,
) -> Set<Seq<char>> {
    base.union(extend.map_values(f).to_set()).difference(remove.map_values(f).to_set())
}

pub open spec fn identity_name(s: Seq<char>) -> Seq<char> {
    s
}

/// Adds and then removes names; each name is first passed through
/// `normalize_extension` when `normalize` is set.
fn merge_names(base: StringSet, extend: &Vec<String>, remove: &Vec<String>, normalize: bool) -> (r:
    StringSet)
    requires
        base.wf(),
    ensures
        r.wf(),
        normalize ==> r.members() == merged_names(
            base.members(),
            views(extend@),
            views(remove@),
            |s: Seq<char>| spec_normalize_extension(s),
        ),
        !normalize ==> r.members() == merged_names(
            base.members(),
            views(extend@),
            views(remove@),
            |s: Seq<char>| identity_name(s),
        ),
{
    let ghost f = if normalize {
        |s: Seq<char>| spec_normalize_extension(s)
    } else {
        |s: Seq<char>| identity_name(s)
    };
    let mut set = base;
    let ghost b = set.members();
    let mut i: usize = 0;
    assert(views(extend@).map_values(f).take(0).to_set() =~= Set::<Seq<char>>::empty());
    while i < extend.len()
        invariant
            i <= extend@.len(),
            set.wf(),
            f == (if normalize {
                |s: Seq<char>| spec_normalize_extension(s)
            } else {
                |s: Seq<char>| identity_name(s)
            }),
            set.members() == b.union(views(extend@).map_values(f).take(i as int).to_set()),
        decreases extend@.len() - i,
    {
        let name = if normalize {
            normalize_extension(extend[i].as_str())
        } else {
            extend[i].clone()
        };
        proof {
            let all = views(extend@).map_values(f);
            assert(all.take(i + 1) =~= all.take(i as int).push(all[i as int]));
            all.take(i as int).lemma_push_to_set_commute(all[i as int]);
            assert(name@ == all[i as int]);
        }
        set.insert(name);
        proof {
            let all = views(extend@).map_values(f);
            assert(set.members() =~= b.union(all.take(i + 1).to_set()));
        }
        i += 1;
    }
    let ghost added = set.members();
    assert(views(extend@).map_values(f).take(extend@.len() as int) =~= views(extend@).map_values(f));
    let mut j: usize = 0;
    assert(views(remove@).map_values(f).take(0).to_set() =~= Set::<Seq<char>>::empty());
    assert(added.difference(Set::<Seq<char>>::empty()) =~= added);
    while j < remove.len()
        invariant
            j <= remove@.len(),
            set.wf(),
            f == (if normalize {
                |s: Seq<char>| spec_normalize_extension(s)
            } else {
                |s: Seq<char>| identity_name(s)
            }),
            set.members() == added.difference(views(remove@).map_values(f).take(j as int).to_set()),
        decreases remove@.len() - j,
    {
        let name = if normalize {
            normalize_extension(remove[j].as_str())
        } else {
            remove[j].clone()
        };
        proof {
            let all = views(remove@).map_values(f);
            assert(all.take(j + 1) =~= all.take(j as int).push(all[j as int]));
            all.take(j as int).lemma_push_to_set_commute(all[j as int]);
            assert(name@ == all[j as int]);
        }
        set.remove(name.as_str());
        proof {
            let all = views(remove@).map_values(f);
            assert(set.members() =~= added.difference(all.take(j + 1).to_set()));
        }
        j += 1;
    }
    assert(views(remove@).map_values(f).take(remove@.len() as int) =~= views(remove@).map_values(
        f,
    ));
    set
}

/// The default extensions with `extend` added and `remove` taken out, each
/// with a leading dot.
pub fn merge_extensions(extend: &Vec<String>, remove: &Vec<String>) -> (r: StringSet)
    ensures
        r.wf(),
        r.members() == merged_names(
            default_extension_list().to_set(),
            views(extend@),
            views(remove@),
            |s: Seq<char>| spec_normalize_extension(s),
        ),
{
    merge_names(default_extensions(), extend, remove, true)
}

/// The default special file names with `extend` added and `remove` taken
/// out.
pub fn merge_special_filenames(extend: &Vec<String>, remove: &Vec<String>) -> (r: StringSet)
    ensures
        r.wf(),
        r.members() == merged_names(
            default_special_filename_list().to_set(),
            views(extend@),
            views(remove@),
            |s: Seq<char>| identity_name(s),
        ),
{
    merge_names(default_special_filenames(), extend, remove, false)
}

/// The configured include patterns, or the default scan patterns when
/// there are none.
pub fn include_patterns_or_default(patterns: Vec<String>) -> (r: Vec<String>)
    ensures
        patterns@.len() == 0 ==> views(r@) == default_scan_patterns(),
        patterns@.len() > 0 ==> r@ == patterns@,
{
    if patterns.len() == 0 {
        default_scan_patterns_vec()
    } else {
        patterns
    }
}

// ---------------------------------------------------------------------------
// Lowered rules
// ---------------------------------------------------------------------------
/// The message prefix for a rule path pattern that does not parse.
pub open spec fn invalid_rule_pattern_prefix() -> Seq<char> {
    "invalid rule path pattern "@
}

/// What compiling a rule's path pattern and its exclusions gives.
pub open spec fn target_outcome(root: Seq<char>, path: Seq<char>, exclude: Seq<Seq<char>>) -> Result<
    (),
    Seq<char>,
> {
    match compile_outcome(root, seq![path], invalid_rule_pattern_prefix()) {
        Err(e) => Err(e),
        Ok(_) => compile_outcome(root, exclude, invalid_rule_pattern_prefix()),
    }
}

/// A path pattern with exclusions, both matched under the repository root.
pub struct CompiledRuleTarget {
    path_matcher: Gitignore,
    exclude_matcher: Gitignore,
}

/// A path that the rule matchers of a repository at `root` take: the parent
/// walk of `Gitignore::matched_path_or_any_parents` does not fail on it.
/// Without a leading `./` the path is not rooted, and where it starts with
/// the root (itself without a leading `./`), what follows is not `//`.
pub open spec fn fits_root(root: Seq<char>, path: Seq<char>) -> bool {
    parents_safe(without_dot_slash(root), path)
}

/// Whether the rule matchers of a repository at `root` take `path`.
pub fn path_fits_root(root: &str, path: &str) -> (r: bool)
    ensures
        r == fits_root(root@, path@),
{
    let p = chars_of(path);
    let n = p.len();
    let start: usize = if n >= 2 && p[0] == '.' && p[1] == '/' {
        2
    } else {
        0
    };
    let ghost ps = without_dot_slash(path@);
    assert(ps =~= p@.skip(start as int));
    if start < n && p[start] == '/' {
        return false;
    }
    let r = chars_of(root);
    let m = r.len();
    let rstart: usize = if m >= 2 && r[0] == '.' && r[1] == '/' {
        2
    } else {
        0
    };
    assert(!(ps.len() > 0 && ps[0] == '/'));
    let ghost rs = without_dot_slash(root@);
    assert(rs =~= r@.skip(rstart as int));
    let k = m - rstart;
    if n - start < 2 || n - start - 2 < k {
        assert(!seq_starts_with(ps, rs) || !seq_starts_with(ps.skip(k as int), seq!['/', '/']));
        return true;
    }
    let mut i: usize = 0;
    while i < k
        invariant
            i <= k,
            k == rs.len(),
            start + k + 2 <= n,
            n == p@.len(),
            m == r@.len(),
            rstart + k == m,
            ps =~= p@.skip(start as int),
            rs =~= r@.skip(rstart as int),
            forall|j: int| 0 <= j < i ==> ps[j] == rs[j],
            !(ps.len() > 0 && ps[0] == '/'),
            ps == without_dot_slash(path@),
            rs == without_dot_slash(root@),
        decreases k - i,
    {
        if p[start + i] != r[rstart + i] {
            assert(ps[i as int] != rs[i as int]);
            assert(!seq_starts_with(ps, rs)) by {
                if seq_starts_with(ps, rs) {
                    assert(ps.subrange(0, k as int)[i as int] == ps[i as int]);
                }
            }
            return true;
        }
        i += 1;
    }
    assert(ps.subrange(0, k as int) =~= rs);
    assert(seq_starts_with(ps, rs));
    let doubled = p[start + k] == '/' && p[start + k + 1] == '/';
    assert(ps.skip(k as int)[0] == ps[k as int] && ps.skip(k as int)[1] == ps[k + 1]);
    if doubled {
        assert(ps.skip(k as int).subrange(0, 2) =~= seq!['/', '/']);
    } else {
        assert(ps.skip(k as int).subrange(0, 2) != seq!['/', '/']) by {
            if ps.skip(k as int).subrange(0, 2) == seq!['/', '/'] {
                assert(ps.skip(k as int).subrange(0, 2)[0] == '/');
                assert(ps.skip(k as int).subrange(0, 2)[1] == '/');
            }
        }
    }
    !doubled
}

impl CompiledRuleTarget {
    /// The root and pattern lines of the path matcher.
    pub closed spec fn path_source(self) -> (Seq<char>, Seq<Seq<char>>) {
        gitignore_source(self.path_matcher)
    }

    /// The root and pattern lines of the exclusion matcher.
    pub closed spec fn exclude_source(self) -> (Seq<char>, Seq<Seq<char>>) {
        gitignore_source(self.exclude_matcher)
    }

    /// The path, or one of its parent directories, matches the pattern, and
    /// neither it nor a parent matches an exclusion.
    pub open spec fn spec_matches(self, relative_path: Seq<char>) -> bool {
        gitignore_matches_or_parents(self.path_source().0, self.path_source().1, relative_path, false)
            && !gitignore_matches_or_parents(
            self.exclude_source().0,
            self.exclude_source().1,
            relative_path,
            false,
        )
    }

    pub fn new(root: &str, pattern: &str, exclude: &Vec<String>) -> (r: Result<Self, String>)
        ensures
            r is Ok <==> target_outcome(root@, pattern@, views(exclude@)) is Ok,
            r matches Err(e) ==> (target_outcome(root@, pattern@, views(exclude@)) matches Err(m) && m
                == e@),
            r matches Ok(t) ==> t.path_source() == (without_dot_slash(root@), kept_lines(seq![pattern@]))
                && t.exclude_source() == (without_dot_slash(root@), kept_lines(views(exclude@))),
    {
        let patterns: Vec<String> = vec![String::from_str(pattern)];
        assert(views(patterns@) =~= seq![pattern@]);
        let path_matcher = match compile_patterns(root, &patterns, "invalid rule path pattern ") {
            Ok(m) => m,
            Err(e) => return Err(e),
        };
        let exclude_matcher = match compile_patterns(root, exclude, "invalid rule path pattern ") {
            Ok(m) => m,
            Err(e) => return Err(e),
        };
        Ok(CompiledRuleTarget { path_matcher, exclude_matcher })
    }

    /// Both matchers take `relative_path` (see `fits_root`).
    pub open spec fn takes(self, relative_path: Seq<char>) -> bool {
        &&& parents_safe(self.path_source().0, relative_path)
        &&& parents_safe(self.exclude_source().0, relative_path)
    }

    pub fn matches(&self, relative_path: &str) -> (r: bool)
        requires
            self.takes(relative_path@),
        ensures
            r == self.spec_matches(relative_path@),
    {
        gitignore_matched_or_parents(&self.path_matcher, relative_path, false)
            && !gitignore_matched_or_parents(&self.exclude_matcher, relative_path, false)
    }
}

/// A lowered `[[rules]]` entry carrying everything but frontmatter rules.
/// The entries keep the order of the configuration file, so that later ones
/// override earlier ones.
pub struct RuleApplication {
    pub target: CompiledRuleTarget,
    pub disable: Vec<Rule>,
    pub enable: Vec<Rule>,
    /// Severity used when `enable` names `unresolved-backtick-path`, and
    /// for the budgets of this entry.
    pub severity: RuleSeverity,
    pub max_tokens: Option<BudgetLimit>,
    pub max_lines: Option<BudgetLimit>,
}

impl RuleApplication {
    pub open spec fn spec_matches(self, relative_path: Seq<char>) -> bool {
        self.target.spec_matches(relative_path)
    }

    pub fn matches(&self, relative_path: &str) -> (r: bool)
        requires
            self.target.takes(relative_path@),
        ensures
            r == self.spec_matches(relative_path@),
    {
        self.target.matches(relative_path)
    }
}

/// A lowered frontmatter rule: required fields and per-field limits for
/// the paths its target matches.
pub struct FrontmatterRule {
    pub target: CompiledRuleTarget,
    pub required: Vec<String>,
    pub field_max_chars: StringMap,
}

impl FrontmatterRule {
    pub open spec fn spec_matches(self, relative_path: Seq<char>) -> bool {
        self.target.spec_matches(relative_path)
    }

    pub fn matches(&self, relative_path: &str) -> (r: bool)
        requires
            self.target.takes(relative_path@),
        ensures
            r == self.spec_matches(relative_path@),
    {
        self.target.matches(relative_path)
    }
}

// ---------------------------------------------------------------------------
// Lowering
// ---------------------------------------------------------------------------
/// The entry sets a rule state or a budget.
pub open spec fn rule_has_content(rule: RuleConfig) -> bool {
    rule.disable@.len() > 0 || rule.enable@.len() > 0 || rule.max_tokens is Some
        || rule.max_lines is Some
}

/// Index of the first rule in `rules` that `enable` may not name.
pub open spec fn first_unsupported(rules: Seq<Rule>) -> Option<int>
    decreases rules.len(),
{
    if rules.len() == 0 {
        None
    } else {
        match first_unsupported(rules.drop_last()) {
            Some(k) => Some(k),
            None => if spec_supported_in_enable(rules.last()) {
                None
            } else {
                Some(rules.len() - 1)
            },
        }
    }
}

pub open spec fn entry_severity(rule: RuleConfig) -> RuleSeverity {
    match rule.severity {
        Some(s) => s,
        None => RuleSeverity::Error,
    }
}

pub open spec fn budget_of(limit: Option<usize>, severity: RuleSeverity) -> Option<BudgetLimit> {
    match limit {
        Some(l) => Some(BudgetLimit { limit: l, severity }),
        None => None,
    }
}

/// What lowering an entry's rule settings gives: an error, whether there is
/// an application, in the order the checks run.
pub open spec fn application_outcome(root: Seq<char>, rule: RuleConfig) -> Result<bool, Seq<char>> {
    match first_unsupported(rule.enable@) {
        Some(k) => Err("unsupported rule `"@ + rule_name(rule.enable@[k]) + "` in `enable`"@),
        None => if rule.max_tokens == Some(0usize) {
            Err(zero_budget_message("max-tokens"@))
        } else if rule.max_lines == Some(0usize) {
            Err(zero_budget_message("max-lines"@))
        } else if !rule_has_content(rule) {
            Ok(false)
        } else {
            match target_outcome(root, rule.path@, views(rule.exclude@)) {
                Err(e) => Err(e),
                Ok(_) => Ok(true),
            }
        },
    }
}

/// The application was lowered from `rule` under `root`.
pub open spec fn lowered_application(app: RuleApplication, root: Seq<char>, rule: RuleConfig) -> bool {
    &&& app.disable@ == rule.disable@
    &&& app.enable@ == rule.enable@
    &&& app.severity == entry_severity(rule)
    &&& app.max_tokens == budget_of(rule.max_tokens, entry_severity(rule))
    &&& app.max_lines == budget_of(rule.max_lines, entry_severity(rule))
    &&& app.target.path_source() == (without_dot_slash(root), kept_lines(seq![rule.path@]))
    &&& app.target.exclude_source() == (without_dot_slash(root), kept_lines(views(rule.exclude@)))
}

fn first_unsupported_enable(rules: &Vec<Rule>) -> (r: Option<usize>)
    ensures
        r matches Some(k) ==> first_unsupported(rules@) == Some(k as int) && k < rules@.len(),
        r is None ==> first_unsupported(rules@) is None,
{
    let mut i: usize = 0;
    while i < rules.len()
        invariant
            i <= rules@.len(),
            first_unsupported(rules@.take(i as int)) is None,
        decreases rules@.len() - i,
    {
        assert(rules@.take(i + 1).drop_last() =~= rules@.take(i as int));
        if !rules[i].supported_in_enable() {
            proof {
                lemma_first_unsupported_prefix(rules@, i + 1);
            }
            return Some(i);
        }
        i += 1;
    }
    assert(rules@.take(rules@.len() as int) =~= rules@);
    None
}

proof fn lemma_first_unsupported_prefix(rules: Seq<Rule>, n: int)
    requires
        0 <= n <= rules.len(),
        first_unsupported(rules.take(n)) is Some,
    ensures
        first_unsupported(rules) == first_unsupported(rules.take(n)),
    decreases rules.len(),
{
    if n < rules.len() {
        assert(rules.drop_last().take(n) =~= rules.take(n));
        lemma_first_unsupported_prefix(rules.drop_last(), n);
    } else {
        assert(rules.take(n) =~= rules);
    }
}

pub fn lower_rule_application(root: &str, rule: &RuleConfig) -> (r: Result<
    Option<RuleApplication>,
    String,
>)
    ensures
        r matches Err(e) ==> (application_outcome(root@, *rule) matches Err(m) && m == e@),
        r matches Ok(None) ==> application_outcome(root@, *rule) == Ok::<bool, Seq<char>>(false),
        r matches Ok(Some(app)) ==> application_outcome(root@, *rule) == Ok::<bool, Seq<char>>(true)
            && lowered_application(app, root@, *rule),
        application_outcome(root@, *rule) is Ok ==> r is Ok,
{
    if let Some(k) = first_unsupported_enable(&rule.enable) {
        let mut msg = chars_of("unsupported rule `");
        push_str(&mut msg, rule.enable[k].as_str());
        push_str(&mut msg, "` in `enable`");
        return Err(string_from_chars(msg.as_slice()));
    }
    let severity = match rule.severity {
        Some(s) => s,
        None => RuleSeverity::Error,
    };
    let max_tokens = match rule.max_tokens {
        Some(limit) => match budget_limit("max-tokens", limit, severity) {
            Ok(b) => Some(b),
            Err(e) => return Err(e),
        },
        None => None,
    };
    let max_lines = match rule.max_lines {
        Some(limit) => match budget_limit("max-lines", limit, severity) {
            Ok(b) => Some(b),
            Err(e) => return Err(e),
        },
        None => None,
    };
    let has_rule_content = rule.disable.len() > 0 || rule.enable.len() > 0 || max_tokens.is_some()
        || max_lines.is_some();
    if !has_rule_content {
        return Ok(None);
    }
    let target = match CompiledRuleTarget::new(root, rule.path.as_str(), &rule.exclude) {
        Ok(t) => t,
        Err(e) => return Err(e),
    };
    Ok(
        Some(
            RuleApplication {
                target,
                disable: rule.disable.clone(),
                enable: rule.enable.clone(),
                severity,
                max_tokens,
                max_lines,
            },
        ),
    )
}

/// Why a `[rules.frontmatter.fields.<name>]` table is refused, if it is.
pub open spec fn field_error(field: (String, FrontmatterFieldConfig)) -> Option<Seq<char>> {
    if all_white(field.0@) {
        Some("frontmatter field name must not be empty"@)
    } else if field.1.max_chars == Some(0usize) {
        Some(
            "frontmatter field `"@ + field.0@ + "` max-chars must be greater than zero"@,
        )
    } else {
        None
    }
}

/// The first refused field table, in order.
pub open spec fn first_field_error(fields: Seq<(String, FrontmatterFieldConfig)>) -> Option<
    Seq<char>,
>
    decreases fields.len(),
{
    if fields.len() == 0 {
        None
    } else {
        match first_field_error(fields.drop_last()) {
            Some(e) => Some(e),
            None => field_error(fields.last()),
        }
    }
}

/// The limits that the field tables set; a later table for the same name
/// replaces an earlier one.
pub open spec fn field_limits_map(fields: Seq<(String, FrontmatterFieldConfig)>) -> Map<
    Seq<char>,
    usize,
>
    decreases fields.len(),
{
    if fields.len() == 0 {
        Map::empty()
    } else {
        match fields.last().1.max_chars {
            Some(n) => field_limits_map(fields.drop_last()).insert(fields.last().0@, n),
            None => field_limits_map(fields.drop_last()),
        }
    }
}

/// The frontmatter table asks for something: a required field or a limit.
pub open spec fn frontmatter_has_content(fm: FrontmatterRuleConfig) -> bool {
    fm.required@.len() > 0 || field_limits_map(fm.fields@) != Map::<Seq<char>, usize>::empty()
}

/// What lowering an entry's frontmatter table gives: an error, or whether
/// there is a frontmatter rule.
pub open spec fn frontmatter_outcome(root: Seq<char>, rule: RuleConfig) -> Result<bool, Seq<char>> {
    match rule.frontmatter {
        None => Ok(false),
        Some(fm) => match first_field_error(fm.fields@) {
            Some(e) => Err(e),
            None => if !frontmatter_has_content(fm) {
                Ok(false)
            } else {
                match target_outcome(root, rule.path@, views(rule.exclude@)) {
                    Err(e) => Err(e),
                    Ok(_) => Ok(true),
                }
            },
        },
    }
}

/// The frontmatter rule was lowered from `rule` under `root`.
pub open spec fn lowered_frontmatter(fr: FrontmatterRule, root: Seq<char>, rule: RuleConfig) -> bool {
    &&& rule.frontmatter is Some
    &&& views(fr.required@) == views(rule.frontmatter->0.required@)
    &&& fr.field_max_chars.wf()
    &&& fr.field_max_chars.as_map() == field_limits_map(rule.frontmatter->0.fields@)
    &&& fr.target.path_source() == (without_dot_slash(root), kept_lines(seq![rule.path@]))
    &&& fr.target.exclude_source() == (without_dot_slash(root), kept_lines(views(rule.exclude@)))
}

pub fn lower_frontmatter_rule(root: &str, rule: &RuleConfig) -> (r: Result<
    Option<FrontmatterRule>,
    String,
>)
    ensures
        r matches Err(e) ==> (frontmatter_outcome(root@, *rule) matches Err(m) && m == e@),
        r matches Ok(None) ==> frontmatter_outcome(root@, *rule) == Ok::<bool, Seq<char>>(false),
        r matches Ok(Some(fr)) ==> frontmatter_outcome(root@, *rule) == Ok::<bool, Seq<char>>(true)
            && lowered_frontmatter(fr, root@, *rule),
        frontmatter_outcome(root@, *rule) is Ok ==> r is Ok,
{
    let frontmatter = match &rule.frontmatter {
        None => return Ok(None),
        Some(fm) => fm,
    };
    assert(rule.frontmatter == Some(*frontmatter));
    let mut limits = StringMap::new();
    let mut i: usize = 0;
    while i < frontmatter.fields.len()
        invariant
            i <= frontmatter.fields@.len(),
            rule.frontmatter == Some(*frontmatter),
            limits.wf(),
            first_field_error(frontmatter.fields@.take(i as int)) is None,
            limits.as_map() == field_limits_map(frontmatter.fields@.take(i as int)),
        decreases frontmatter.fields@.len() - i,
    {
        let (name, field_cfg) = &frontmatter.fields[i];
        proof {
            assert(frontmatter.fields@.take(i + 1).drop_last() =~= frontmatter.fields@.take(
                i as int,
            ));
            assert(frontmatter.fields@.take(i + 1).last() == frontmatter.fields@[i as int]);
        }
        let name_chars = chars_of(name.as_str());
        assert(frontmatter.fields@[i as int].0@ == name@);
        if is_blank(name_chars.as_slice()) {
            proof {
                assert(field_error(frontmatter.fields@[i as int]) == Some(
                    "frontmatter field name must not be empty"@,
                ));
                assert(first_field_error(frontmatter.fields@.take(i + 1)) == Some(
                    "frontmatter field name must not be empty"@,
                ));
                lemma_first_field_error_prefix(frontmatter.fields@, i + 1);
            }
            let msg = String::from_str("frontmatter field name must not be empty");
            assert(msg@ == "frontmatter field name must not be empty"@);
            return Err(msg);
        }
        if let Some(max_chars) = field_cfg.max_chars {
            if max_chars == 0 {
                let mut msg = chars_of("frontmatter field `");
                push_str(&mut msg, name.as_str());
                push_str(&mut msg, "` max-chars must be greater than zero");
                proof {
                    lemma_first_field_error_prefix(frontmatter.fields@, i + 1);
                }
                return Err(string_from_chars(msg.as_slice()));
            }
            limits.insert(name.clone(), max_chars);
        }
        i += 1;
    }
    assert(frontmatter.fields@.take(frontmatter.fields@.len() as int) =~= frontmatter.fields@);
    if frontmatter.required.len() == 0 && limits.is_empty() {
        return Ok(None);
    }
    let target = match CompiledRuleTarget::new(root, rule.path.as_str(), &rule.exclude) {
        Ok(t) => t,
        Err(e) => return Err(e),
    };
    let required = frontmatter.required.clone();
    proof {
        assert(views(required@) =~= views(frontmatter.required@));
    }
    Ok(Some(FrontmatterRule { target, required, field_max_chars: limits }))
}

proof fn lemma_first_field_error_prefix(fields: Seq<(String, FrontmatterFieldConfig)>, n: int)
    requires
        0 <= n <= fields.len(),
        first_field_error(fields.take(n)) is Some,
    ensures
        first_field_error(fields) == first_field_error(fields.take(n)),
    decreases fields.len(),
{
    if n < fields.len() {
        assert(fields.drop_last().take(n) =~= fields.take(n));
        lemma_first_field_error_prefix(fields.drop_last(), n);
    } else {
        assert(fields.take(n) =~= fields);
    }
}

/// What lowering one `[[rules]]` entry gives: an error, or whether it
/// yields a rule application and whether it yields a frontmatter rule.
pub open spec fn rule_outcome(root: Seq<char>, rule: RuleConfig) -> Result<(bool, bool), Seq<char>> {
    if all_white(rule.path@) {
        Err("rule path must not be empty"@)
    } else if rule.reason is Some && all_white(rule.reason->0@) {
        Err("rule reason must not be empty"@)
    } else {
        match application_outcome(root, rule) {
            Err(e) => Err(e),
            Ok(a) => match frontmatter_outcome(root, rule) {
                Err(e) => Err(e),
                Ok(f) => Ok((a, f)),
            },
        }
    }
}

/// The first error among the entries, in order.
pub open spec fn rules_outcome(root: Seq<char>, rules: Seq<RuleConfig>) -> Result<(), Seq<char>>
    decreases rules.len(),
{
    if rules.len() == 0 {
        Ok(())
    } else {
        match rules_outcome(root, rules.drop_last()) {
            Err(e) => Err(e),
            Ok(_) => match rule_outcome(root, rules.last()) {
                Err(e) => Err(e),
                Ok(_) => Ok(()),
            },
        }
    }
}

/// Indices of the entries that yield rule applications, in order.
pub open spec fn application_indices(rules: Seq<RuleConfig>) -> Seq<int>
    decreases rules.len(),
{
    if rules.len() == 0 {
        Seq::empty()
    } else if rule_has_content(rules.last()) {
        application_indices(rules.drop_last()).push(rules.len() - 1)
    } else {
        application_indices(rules.drop_last())
    }
}

/// Indices of the entries that yield frontmatter rules, in order.
pub open spec fn frontmatter_indices(rules: Seq<RuleConfig>) -> Seq<int>
    decreases rules.len(),
{
    if rules.len() == 0 {
        Seq::empty()
    } else if rules.last().frontmatter is Some && frontmatter_has_content(
        rules.last().frontmatter->0,
    ) {
        frontmatter_indices(rules.drop_last()).push(rules.len() - 1)
    } else {
        frontmatter_indices(rules.drop_last())
    }
}

/// `apps` and `fms` are what lowering `rules` under `root` yields.
pub open spec fn lowered_rules(
    apps: Seq<RuleApplication>,
    fms: Seq<FrontmatterRule>,
    root: Seq<char>,
    rules: Seq<RuleConfig>,
) -> bool {
    &&& apps.len() == application_indices(rules).len()
    &&& forall|j: int|
        0 <= j < apps.len() ==> lowered_application(
            #[trigger] apps[j],
            root,
            rules[application_indices(rules)[j]],
        )
    &&& fms.len() == frontmatter_indices(rules).len()
    &&& forall|j: int|
        0 <= j < fms.len() ==> lowered_frontmatter(
            #[trigger] fms[j],
            root,
            rules[frontmatter_indices(rules)[j]],
        )
}

proof fn lemma_rules_outcome_prefix(root: Seq<char>, rules: Seq<RuleConfig>, n: int)
    requires
        0 <= n <= rules.len(),
        rules_outcome(root, rules.take(n)) is Err,
    ensures
        rules_outcome(root, rules) == rules_outcome(root, rules.take(n)),
    decreases rules.len(),
{
    if n < rules.len() {
        assert(rules.drop_last().take(n) =~= rules.take(n));
        lemma_rules_outcome_prefix(root, rules.drop_last(), n);
    } else {
        assert(rules.take(n) =~= rules);
    }
}

/// Validates and lowers the `[[rules]]` entries in order; the first
/// problem is reported.
pub fn lower_rules(root: &str, rules: &Vec<RuleConfig>) -> (r: Result<
    (Vec<RuleApplication>, Vec<FrontmatterRule>),
    String,
>)
    ensures
        r is Ok <==> rules_outcome(root@, rules@) is Ok,
        r matches Err(e) ==> (rules_outcome(root@, rules@) matches Err(m) && m == e@),
        r matches Ok((apps, fms)) ==> lowered_rules(apps@, fms@, root@, rules@),
{
    let mut applications: Vec<RuleApplication> = Vec::new();
    let mut frontmatter_rules: Vec<FrontmatterRule> = Vec::new();
    let mut i: usize = 0;
    while i < rules.len()
        invariant
            i <= rules@.len(),
            rules_outcome(root@, rules@.take(i as int)) is Ok,
            lowered_rules(applications@, frontmatter_rules@, root@, rules@.take(i as int)),
        decreases rules@.len() - i,
    {
        let rule = &rules[i];
        let ghost pre = rules@.take(i as int);
        let ghost cur = rules@.take(i + 1);
        proof {
            assert(cur.drop_last() =~= pre);
            assert(cur.last() == *rule);
        }
        let path = chars_of(rule.path.as_str());
        if is_blank(path.as_slice()) {
            proof {
                lemma_rules_outcome_prefix(root@, rules@, i + 1);
            }
            return Err(String::from_str("rule path must not be empty"));
        }
        if let Some(reason) = &rule.reason {
            let rc = chars_of(reason.as_str());
            if is_blank(rc.as_slice()) {
                proof {
                    lemma_rules_outcome_prefix(root@, rules@, i + 1);
                }
                return Err(String::from_str("rule reason must not be empty"));
            }
        }
        let application = match lower_rule_application(root, rule) {
            Ok(a) => a,
            Err(e) => {
                proof {
                    lemma_rules_outcome_prefix(root@, rules@, i + 1);
                }
                return Err(e);
            },
        };
        let frontmatter_rule = match lower_frontmatter_rule(root, rule) {
            Ok(f) => f,
            Err(e) => {
                proof {
                    lemma_rules_outcome_prefix(root@, rules@, i + 1);
                }
                return Err(e);
            },
        };
        let ghost apps0 = applications@;
        let ghost fms0 = frontmatter_rules@;
        match application {
            Some(a) => {
                applications.push(a);
            },
            None => {},
        }
        match frontmatter_rule {
            Some(f) => {
                frontmatter_rules.push(f);
            },
            None => {},
        }
        proof {
            let ai = application_indices(cur);
            let fi = frontmatter_indices(cur);
            assert(application_indices(cur.drop_last()) == application_indices(pre));
            assert(frontmatter_indices(cur.drop_last()) == frontmatter_indices(pre));
            assert forall|j: int| 0 <= j < application_indices(pre).len() implies ai[j]
                == application_indices(pre)[j] && cur[ai[j]] == pre[ai[j]] by {
                lemma_indices_below(pre);
            }
            assert forall|j: int| 0 <= j < frontmatter_indices(pre).len() implies fi[j]
                == frontmatter_indices(pre)[j] && cur[fi[j]] == pre[fi[j]] by {
                lemma_indices_below(pre);
            }
            assert forall|j: int| 0 <= j < applications@.len() implies lowered_application(
                #[trigger] applications@[j],
                root@,
                cur[ai[j]],
            ) by {
                if j < apps0.len() {
                    assert(applications@[j] == apps0[j]);
                }
            }
            assert forall|j: int| 0 <= j < frontmatter_rules@.len() implies lowered_frontmatter(
                #[trigger] frontmatter_rules@[j],
                root@,
                cur[fi[j]],
            ) by {
                if j < fms0.len() {
                    assert(frontmatter_rules@[j] == fms0[j]);
                }
            }
        }
        i += 1;
    }
    assert(rules@.take(rules@.len() as int) =~= rules@);
    Ok((applications, frontmatter_rules))
}

/// The recorded indices point into the list.
proof fn lemma_indices_below(rules: Seq<RuleConfig>)
    ensures
        forall|j: int|
            0 <= j < application_indices(rules).len() ==> 0 <= #[trigger] application_indices(
                rules,
            )[j] < rules.len(),
        forall|j: int|
            0 <= j < frontmatter_indices(rules).len() ==> 0 <= #[trigger] frontmatter_indices(
                rules,
            )[j] < rules.len(),
    decreases rules.len(),
{
    if rules.len() > 0 {
        lemma_indices_below(rules.drop_last());
        let a = application_indices(rules);
        let a0 = application_indices(rules.drop_last());
        assert forall|j: int| 0 <= j < a.len() implies 0 <= #[trigger] a[j] < rules.len() by {
            if j < a0.len() {
                assert(a[j] == a0[j]);
            }
        }
        let f = frontmatter_indices(rules);
        let f0 = frontmatter_indices(rules.drop_last());
        assert forall|j: int| 0 <= j < f.len() implies 0 <= #[trigger] f[j] < rules.len() by {
            if j < f0.len() {
                assert(f[j] == f0[j]);
            }
        }
    }
}

// ---------------------------------------------------------------------------
// Per-path policies
// ---------------------------------------------------------------------------
/// The per-file rule state that the ordered `[[rules]]` entries produce.
#[derive(Clone, Debug, PartialEq, Eq)]
pub struct EffectiveRulePolicy {
    /// Always-on rules switched off for the file (no rule twice).
    pub ignored_rules: Vec<Rule>,
    pub backtick_path_severity: Option<Severity>,
    pub prefer_links_for_local_paths: bool,
    pub max_tokens: Option<BudgetLimit>,
    pub max_lines: Option<BudgetLimit>,
}

/// The mathematical content of a rule policy: the ignored rules, the
/// severity of unresolved backtick paths if that rule is on, whether links
/// are preferred, and the two budgets.
pub type RulePolicyModel = (Set<Rule>, Option<Severity>, bool, Option<BudgetLimit>, Option<BudgetLimit>);

pub open spec fn policy_model(p: EffectiveRulePolicy) -> RulePolicyModel {
    (
        p.ignored_rules@.to_set(),
        p.backtick_path_severity,
        p.prefer_links_for_local_paths,
        p.max_tokens,
        p.max_lines,
    )
}

pub open spec fn empty_policy_model() -> RulePolicyModel {
    (Set::empty(), None, false, None, None)
}

/// One `disable` entry: opt-in rules and budgets are switched off, always-on
/// rules are added to the ignored set.
pub open spec fn disable_one(m: RulePolicyModel, rule: Rule) -> RulePolicyModel {
    match rule {
        Rule::UnresolvedBacktickPath => (m.0, None, m.2, m.3, m.4),
        Rule::PreferLinksForLocalPaths => (m.0, m.1, false, m.3, m.4),
        Rule::MaxTokens => (m.0, m.1, m.2, None, m.4),
        Rule::MaxLines => (m.0, m.1, m.2, m.3, None),
        _ => (m.0.insert(rule), m.1, m.2, m.3, m.4),
    }
}

pub open spec fn disable_all(m: RulePolicyModel, rules: Seq<Rule>) -> RulePolicyModel
    decreases rules.len(),
{
    if rules.len() == 0 {
        m
    } else {
        disable_one(disable_all(m, rules.drop_last()), rules.last())
    }
}

/// One `enable` entry: only the opt-in path rules can be switched on.
pub open spec fn enable_one(m: RulePolicyModel, rule: Rule, severity: RuleSeverity) -> RulePolicyModel {
    match rule {
        Rule::UnresolvedBacktickPath => (m.0, Some(spec_severity_of(severity)), m.2, m.3, m.4),
        Rule::PreferLinksForLocalPaths => (m.0, m.1, true, m.3, m.4),
        _ => m,
    }
}

pub open spec fn enable_all(m: RulePolicyModel, rules: Seq<Rule>, severity: RuleSeverity) -> RulePolicyModel
    decreases rules.len(),
{
    if rules.len() == 0 {
        m
    } else {
        enable_one(enable_all(m, rules.drop_last(), severity), rules.last(), severity)
    }
}

/// One matching application: its disables, then its enables, then its
/// budgets.
pub open spec fn apply_application(m: RulePolicyModel, app: RuleApplication) -> RulePolicyModel {
    let m1 = enable_all(disable_all(m, app.disable@), app.enable@, app.severity);
    (
        m1.0,
        m1.1,
        m1.2,
        if app.max_tokens is Some {
            app.max_tokens
        } else {
            m1.3
        },
        if app.max_lines is Some {
            app.max_lines
        } else {
            m1.4
        },
    )
}

/// The policy for `path`: every application that matches it, in order.
pub open spec fn rule_policy_for(apps: Seq<RuleApplication>, path: Seq<char>) -> RulePolicyModel
    decreases apps.len(),
{
    if apps.len() == 0 {
        empty_policy_model()
    } else {
        let prev = rule_policy_for(apps.drop_last(), path);
        if apps.last().spec_matches(path) {
            apply_application(prev, apps.last())
        } else {
            prev
        }
    }
}

fn contains_rule(rules: &Vec<Rule>, rule: Rule) -> (r: bool)
    ensures
        r == rules@.contains(rule),
{
    let mut i: usize = 0;
    while i < rules.len()
        invariant
            i <= rules@.len(),
            forall|j: int| 0 <= j < i ==> rules@[j] != rule,
        decreases rules@.len() - i,
    {
        if rules[i] == rule {
            assert(rules@[i as int] == rule);
            return true;
        }
        i += 1;
    }
    false
}

fn apply_disable(policy: &mut EffectiveRulePolicy, rule: Rule)
    requires
        old(policy).ignored_rules@.no_duplicates(),
    ensures
        final(policy).ignored_rules@.no_duplicates(),
        policy_model(*final(policy)) == disable_one(policy_model(*old(policy)), rule),
{
    match rule {
        Rule::UnresolvedBacktickPath => policy.backtick_path_severity = None,
        Rule::PreferLinksForLocalPaths => policy.prefer_links_for_local_paths = false,
        Rule::MaxTokens => policy.max_tokens = None,
        Rule::MaxLines => policy.max_lines = None,
        _ => {
            let ghost before = policy.ignored_rules@;
            if !contains_rule(&policy.ignored_rules, rule) {
                policy.ignored_rules.push(rule);
                proof {
                    before.lemma_push_to_set_commute(rule);
                    assert forall|a: int, b: int|
                        0 <= a < b < policy.ignored_rules@.len() implies policy.ignored_rules@[a]
                        != policy.ignored_rules@[b] by {
                        if b == before.len() {
                            assert(before.contains(before[a]));
                        }
                    }
                }
            } else {
                assert(before.to_set().insert(rule) =~= before.to_set());
            }
        },
    }
}

fn apply_enable(policy: &mut EffectiveRulePolicy, rule: Rule, severity: RuleSeverity)
    ensures
        final(policy).ignored_rules@ == old(policy).ignored_rules@,
        policy_model(*final(policy)) == enable_one(policy_model(*old(policy)), rule, severity),
{
    match rule {
        Rule::UnresolvedBacktickPath => {
            policy.backtick_path_severity = Some(severity_of(severity));
        },
        Rule::PreferLinksForLocalPaths => policy.prefer_links_for_local_paths = true,
        _ => {},
    }
}

fn apply_rule_application(policy: &mut EffectiveRulePolicy, app: &RuleApplication)
    requires
        old(policy).ignored_rules@.no_duplicates(),
    ensures
        final(policy).ignored_rules@.no_duplicates(),
        policy_model(*final(policy)) == apply_application(policy_model(*old(policy)), *app),
{
    let ghost start = policy_model(*policy);
    let mut i: usize = 0;
    while i < app.disable.len()
        invariant
            i <= app.disable@.len(),
            policy.ignored_rules@.no_duplicates(),
            policy_model(*policy) == disable_all(start, app.disable@.take(i as int)),
        decreases app.disable@.len() - i,
    {
        assert(app.disable@.take(i + 1).drop_last() =~= app.disable@.take(i as int));
        apply_disable(policy, app.disable[i]);
        i += 1;
    }
    assert(app.disable@.take(app.disable@.len() as int) =~= app.disable@);
    let ghost mid = policy_model(*policy);
    let mut k: usize = 0;
    while k < app.enable.len()
        invariant
            k <= app.enable@.len(),
            policy.ignored_rules@.no_duplicates(),
            policy_model(*policy) == enable_all(mid, app.enable@.take(k as int), app.severity),
        decreases app.enable@.len() - k,
    {
        assert(app.enable@.take(k + 1).drop_last() =~= app.enable@.take(k as int));
        apply_enable(policy, app.enable[k], app.severity);
        k += 1;
    }
    assert(app.enable@.take(app.enable@.len() as int) =~= app.enable@);
    if let Some(limit) = app.max_tokens {
        policy.max_tokens = Some(limit);
    }
    if let Some(limit) = app.max_lines {
        policy.max_lines = Some(limit);
    }
}

/// Reduces the applications that match `relative_path`, in order.
pub fn rule_policy_for_path(apps: &Vec<RuleApplication>, relative_path: &str) -> (p:
    EffectiveRulePolicy)
    requires
        forall|i: int| 0 <= i < apps@.len() ==> (#[trigger] apps@[i]).target.takes(relative_path@),
    ensures
        p.ignored_rules@.no_duplicates(),
        policy_model(p) == rule_policy_for(apps@, relative_path@),
{
    let mut policy = EffectiveRulePolicy {
        ignored_rules: Vec::new(),
        backtick_path_severity: None,
        prefer_links_for_local_paths: false,
        max_tokens: None,
        max_lines: None,
    };
    assert(policy.ignored_rules@.to_set() =~= Set::<Rule>::empty());
    let mut i: usize = 0;
    while i < apps.len()
        invariant
            i <= apps@.len(),
            forall|i: int| 0 <= i < apps@.len() ==> (#[trigger] apps@[i]).target.takes(relative_path@),
            policy.ignored_rules@.no_duplicates(),
            policy_model(policy) == rule_policy_for(apps@.take(i as int), relative_path@),
        decreases apps@.len() - i,
    {
        assert(apps@.take(i + 1).drop_last() =~= apps@.take(i as int));
        if apps[i].matches(relative_path) {
            apply_rule_application(&mut policy, &apps[i]);
        }
        i += 1;
    }
    assert(apps@.take(apps@.len() as int) =~= apps@);
    policy
}

/// The frontmatter requirements for a file.
#[derive(Clone, Debug)]
pub struct EffectiveFrontmatterPolicy {
    pub required: Vec<String>,
    pub field_max_chars: StringMap,
}

/// The frontmatter policy for `path`: the required fields of the last
/// matching rule that names any, and the limits of all matching rules, a
/// later limit for a field replacing an earlier one.
pub open spec fn frontmatter_policy_for(rules: Seq<FrontmatterRule>, path: Seq<char>) -> (
    Seq<Seq<char>>,
    Map<Seq<char>, usize>,
)
    decreases rules.len(),
{
    if rules.len() == 0 {
        (Seq::empty(), Map::empty())
    } else {
        let prev = frontmatter_policy_for(rules.drop_last(), path);
        let rule = rules.last();
        if rule.spec_matches(path) {
            (
                if rule.required@.len() > 0 {
                    views(rule.required@)
                } else {
                    prev.0
                },
                prev.1.union_prefer_right(rule.field_max_chars.as_map()),
            )
        } else {
            prev
        }
    }
}

pub open spec fn frontmatter_model(p: EffectiveFrontmatterPolicy) -> (
    Seq<Seq<char>>,
    Map<Seq<char>, usize>,
) {
    (views(p.required@), p.field_max_chars.as_map())
}

fn merge_limits(into: &mut StringMap, from: &StringMap)
    requires
        old(into).wf(),
        from.wf(),
    ensures
        final(into).wf(),
        final(into).as_map() == old(into).as_map().union_prefer_right(from.as_map()),
{
    let ghost start = into.as_map();
    let ghost fk = from.keys();
    let mut i: usize = 0;
    while i < from.len()
        invariant
            from.wf(),
            into.wf(),
            fk == from.keys(),
            i <= fk.len(),
            into.as_map() == start.union_prefer_right(
                Map::new(|k: Seq<char>| fk.take(i as int).contains(k), |k: Seq<char>| from.as_map()[k]),
            ),
        decreases fk.len() - i,
    {
        let (key, value) = from.entry(i);
        into.insert(key.clone(), value);
        proof {
            assert(fk.take(i + 1) =~= fk.take(i as int).push(fk[i as int]));
            let before = Map::new(
                |k: Seq<char>| fk.take(i as int).contains(k),
                |k: Seq<char>| from.as_map()[k],
            );
            let after = Map::new(
                |k: Seq<char>| fk.take(i + 1).contains(k),
                |k: Seq<char>| from.as_map()[k],
            );
            assert(from.as_map()[fk[i as int]] == value);
            let t1 = fk.take(i + 1);
            let t0 = fk.take(i as int);
            assert forall|k: Seq<char>| t1.contains(k) <==> (t0.contains(k) || k == fk[i as int]) by {
                if t1.contains(k) {
                    let t = choose|t: int| 0 <= t < t1.len() && t1[t] == k;
                    if t < i {
                        assert(t0[t] == k);
                    }
                }
                if t0.contains(k) {
                    let t = choose|t: int| 0 <= t < t0.len() && t0[t] == k;
                    assert(t1[t] == k);
                }
                if k == fk[i as int] {
                    assert(t1[i as int] == k);
                }
            }
            assert(after =~= before.insert(fk[i as int], value));
            assert(start.union_prefer_right(after) =~= start.union_prefer_right(before).insert(
                fk[i as int],
                value,
            ));
        }
        i += 1;
    }
    proof {
        assert(fk.take(fk.len() as int) =~= fk);
        assert(Map::new(|k: Seq<char>| fk.contains(k), |k: Seq<char>| from.as_map()[k])
            =~= from.as_map());
    }
}

/// Merges the frontmatter rules that match `relative_path`, in order.
pub fn frontmatter_policy_for_path(rules: &Vec<FrontmatterRule>, relative_path: &str) -> (p:
    EffectiveFrontmatterPolicy)
    requires
        forall|i: int| 0 <= i < rules@.len() ==> (#[trigger] rules@[i]).target.takes(relative_path@),
        forall|i: int| 0 <= i < rules@.len() ==> (#[trigger] rules@[i]).field_max_chars.wf(),
    ensures
        p.field_max_chars.wf(),
        frontmatter_model(p) == frontmatter_policy_for(rules@, relative_path@),
{
    let mut policy = EffectiveFrontmatterPolicy {
        required: Vec::new(),
        field_max_chars: StringMap::new(),
    };
    assert(views(policy.required@) =~= Seq::<Seq<char>>::empty());
    let mut i: usize = 0;
    while i < rules.len()
        invariant
            i <= rules@.len(),
            forall|i: int| 0 <= i < rules@.len() ==> (#[trigger] rules@[i]).target.takes(relative_path@),
            forall|i: int| 0 <= i < rules@.len() ==> (#[trigger] rules@[i]).field_max_chars.wf(),
            policy.field_max_chars.wf(),
            frontmatter_model(policy) == frontmatter_policy_for(rules@.take(i as int), relative_path@),
        decreases rules@.len() - i,
    {
        assert(rules@.take(i + 1).drop_last() =~= rules@.take(i as int));
        let rule = &rules[i];
        if rule.matches(relative_path) {
            if rule.required.len() > 0 {
                policy.required = rule.required.clone();
            }
            merge_limits(&mut policy.field_max_chars, &rule.field_max_chars);
        }
        i += 1;
    }
    assert(rules@.take(rules@.len() as int) =~= rules@);
    policy
}

// ---------------------------------------------------------------------------
// The loaded configuration
// ---------------------------------------------------------------------------
pub struct Config {
    repository_root: String,
    skills_dir: String,
    plans_dir: String,
    include_patterns: Vec<String>,
    exclude: Vec<String>,
    match_exclude: Vec<String>,
    rule_applications: Vec<RuleApplication>,
    known_extensions: StringSet,
    special_filenames: StringSet,
    config_path: Option<String>,
    config_was_explicit: bool,
    frontmatter_rules: Vec<FrontmatterRule>,
    respect_gitignore: bool,
}

/// Why a parsed configuration is refused, if it is: the checks in the
/// order they run.
pub open spec fn config_error(root: Seq<char>, parsed: FileConfig) -> Option<Seq<char>> {
    match relative_dir_error("skills-dir"@, parsed.skills_dir@) {
        Some(e) => Some(e),
        None => match relative_dir_error("plans-dir"@, parsed.plans_dir@) {
            Some(e) => Some(e),
            None => match rules_outcome(root, parsed.rules@) {
                Err(e) => Some(e),
                Ok(_) => None,
            },
        },
    }
}

impl Config {
    pub closed spec fn spec_repository_root(self) -> Seq<char> {
        self.repository_root@
    }

    pub closed spec fn spec_skills_dir(self) -> Seq<char> {
        self.skills_dir@
    }

    pub closed spec fn spec_plans_dir(self) -> Seq<char> {
        self.plans_dir@
    }

    pub closed spec fn spec_include_patterns(self) -> Seq<Seq<char>> {
        views(self.include_patterns@)
    }

    pub closed spec fn spec_exclude(self) -> Seq<Seq<char>> {
        views(self.exclude@)
    }

    pub closed spec fn spec_match_exclude(self) -> Seq<Seq<char>> {
        views(self.match_exclude@)
    }

    pub closed spec fn spec_known_extensions(self) -> StringSet {
        self.known_extensions
    }

    pub closed spec fn spec_special_filenames(self) -> StringSet {
        self.special_filenames
    }

    pub closed spec fn spec_config_path(self) -> Option<Seq<char>> {
        match self.config_path {
            Some(p) => Some(p@),
            None => None,
        }
    }

    pub closed spec fn spec_config_was_explicit(self) -> bool {
        self.config_was_explicit
    }

    pub closed spec fn spec_respect_gitignore(self) -> bool {
        self.respect_gitignore
    }

    pub closed spec fn applications(self) -> Seq<RuleApplication> {
        self.rule_applications@
    }

    pub closed spec fn frontmatter_rules(self) -> Seq<FrontmatterRule> {
        self.frontmatter_rules@
    }

    pub closed spec fn wf(self) -> bool {
        &&& self.known_extensions.wf()
        &&& self.special_filenames.wf()
        &&& forall|i: int|
            0 <= i < self.frontmatter_rules@.len()
                ==> (#[trigger] self.frontmatter_rules@[i]).field_max_chars.wf()
        &&& forall|i: int|
            0 <= i < self.rule_applications@.len() ==> {
                &&& (#[trigger] self.rule_applications@[i]).target.path_source().0
                    == without_dot_slash(self.repository_root@)
                &&& self.rule_applications@[i].target.exclude_source().0 == without_dot_slash(
                    self.repository_root@,
                )
            }
        &&& forall|i: int|
            0 <= i < self.frontmatter_rules@.len() ==> {
                &&& (#[trigger] self.frontmatter_rules@[i]).target.path_source().0
                    == without_dot_slash(self.repository_root@)
                &&& self.frontmatter_rules@[i].target.exclude_source().0 == without_dot_slash(
                    self.repository_root@,
                )
            }
    }

    /// Builds the configuration for `repository_root` from a parsed file:
    /// checks the scope directories, merges the extension and file name
    /// sets, falls back to the default scan patterns, and lowers the rules.
    pub fn from_file_config(
        repository_root: String,
        config_path: Option<String>,
        config_was_explicit: bool,
        parsed: FileConfig,
    ) -> (r: Result<Config, String>)
        ensures
            r is Ok <==> config_error(repository_root@, parsed) is None,
            r matches Err(e) ==> config_error(repository_root@, parsed) == Some(e@),
            r matches Ok(c) ==> {
                &&& c.wf()
                &&& c.spec_repository_root() == repository_root@
                &&& c.spec_skills_dir() == spec_trim(parsed.skills_dir@)
                &&& c.spec_plans_dir() == spec_trim(parsed.plans_dir@)
                &&& (parsed.include_patterns@.len() == 0 ==> c.spec_include_patterns()
                    == default_scan_patterns())
                &&& (parsed.include_patterns@.len() > 0 ==> c.spec_include_patterns() == views(
                    parsed.include_patterns@,
                ))
                &&& c.spec_exclude() == views(parsed.exclude@)
                &&& c.spec_match_exclude() == views(parsed.match_exclude@)
                &&& c.spec_known_extensions().members() == merged_names(
                    default_extension_list().to_set(),
                    views(parsed.extend_extensions@),
                    views(parsed.remove_extensions@),
                    |s: Seq<char>| spec_normalize_extension(s),
                )
                &&& c.spec_special_filenames().members() == merged_names(
                    default_special_filename_list().to_set(),
                    views(parsed.extend_special_filenames@),
                    views(parsed.remove_special_filenames@),
                    |s: Seq<char>| identity_name(s),
                )
                &&& c.spec_config_path() == (match config_path {
                    Some(p) => Some(p@),
                    None => None,
                })
                &&& c.spec_config_was_explicit() == config_was_explicit
                &&& c.spec_respect_gitignore() == parsed.respect_gitignore
                &&& lowered_rules(
                    c.applications(),
                    c.frontmatter_rules(),
                    repository_root@,
                    parsed.rules@,
                )
            },
    {
        let skills_dir = match validate_repository_relative_dir(
            "skills-dir",
            parsed.skills_dir.as_str(),
        ) {
            Ok(d) => d,
            Err(e) => return Err(e),
        };
        let plans_dir = match validate_repository_relative_dir(
            "plans-dir",
            parsed.plans_dir.as_str(),
        ) {
            Ok(d) => d,
            Err(e) => return Err(e),
        };
        let known_extensions = merge_extensions(
            &parsed.extend_extensions,
            &parsed.remove_extensions,
        );
        let special_filenames = merge_special_filenames(
            &parsed.extend_special_filenames,
            &parsed.remove_special_filenames,
        );
        let include_patterns = include_patterns_or_default(parsed.include_patterns);
        assert(views(include_patterns@).len() == include_patterns@.len());
        if include_patterns.len() == 0 {
            return Err(String::from_str("include patterns must not be empty"));
        }
        let (rule_applications, frontmatter_rules) = match lower_rules(
            repository_root.as_str(),
            &parsed.rules,
        ) {
            Ok(lowered) => lowered,
            Err(e) => return Err(e),
        };
        proof {
            assert forall|i: int| 0 <= i < frontmatter_rules@.len() implies (
            #[trigger] frontmatter_rules@[i]).field_max_chars.wf() by {
                assert(lowered_frontmatter(
                    frontmatter_rules@[i],
                    repository_root@,
                    parsed.rules@[frontmatter_indices(parsed.rules@)[i]],
                ));
            }
            assert forall|i: int| 0 <= i < rule_applications@.len() implies (
            #[trigger] rule_applications@[i]).target.path_source().0 == without_dot_slash(
                repository_root@,
            ) && rule_applications@[i].target.exclude_source().0 == without_dot_slash(
                repository_root@,
            ) by {
                assert(lowered_application(
                    rule_applications@[i],
                    repository_root@,
                    parsed.rules@[application_indices(parsed.rules@)[i]],
                ));
            }
            assert forall|i: int| 0 <= i < frontmatter_rules@.len() implies (
            #[trigger] frontmatter_rules@[i]).target.path_source().0 == without_dot_slash(
                repository_root@,
            ) && frontmatter_rules@[i].target.exclude_source().0 == without_dot_slash(
                repository_root@,
            ) by {
                assert(lowered_frontmatter(
                    frontmatter_rules@[i],
                    repository_root@,
                    parsed.rules@[frontmatter_indices(parsed.rules@)[i]],
                ));
            }
        }
        Ok(
            Config {
                repository_root,
                skills_dir,
                plans_dir,
                include_patterns,
                exclude: parsed.exclude,
                match_exclude: parsed.match_exclude,
                rule_applications,
                known_extensions,
                special_filenames,
                config_path,
                config_was_explicit,
                frontmatter_rules,
                respect_gitignore: parsed.respect_gitignore,
            },
        )
    }

    /// A configuration with the built-in defaults and no rules, for
    /// `repository_root`: no include or exclude patterns, the default
    /// extensions and file names, and gitignore respected.
    pub fn for_testing(repository_root: String) -> (c: Config)
        ensures
            c.wf(),
            c.spec_repository_root() == repository_root@,
            c.spec_skills_dir() == ".agents/skills"@,
            c.spec_plans_dir() == "docs/exec-plans"@,
            c.spec_include_patterns().len() == 0,
            c.spec_exclude().len() == 0,
            c.spec_match_exclude().len() == 0,
            c.spec_known_extensions().members() == default_extension_list().to_set(),
            c.spec_special_filenames().members() == default_special_filename_list().to_set(),
            c.spec_config_path() is None,
            !c.spec_config_was_explicit(),
            c.spec_respect_gitignore(),
            c.applications().len() == 0,
            c.frontmatter_rules().len() == 0,
    {
        let c = Config {
            repository_root,
            skills_dir: String::from_str(".agents/skills"),
            plans_dir: String::from_str("docs/exec-plans"),
            include_patterns: Vec::new(),
            exclude: Vec::new(),
            match_exclude: Vec::new(),
            rule_applications: Vec::new(),
            known_extensions: default_extensions(),
            special_filenames: default_special_filenames(),
            config_path: None,
            config_was_explicit: false,
            frontmatter_rules: Vec::new(),
            respect_gitignore: true,
        };
        assert(views(c.include_patterns@).len() == 0);
        assert(views(c.exclude@).len() == 0);
        assert(views(c.match_exclude@).len() == 0);
        c
    }

    /// The skills directory under the repository root.
    pub fn skills_root(&self) -> (r: String)
        ensures
            r@ == crate::root::spec_join(self.spec_repository_root(), self.spec_skills_dir()),
    {
        crate::root::join(self.repository_root.as_str(), self.skills_dir.as_str())
    }

    /// The plans directory under the repository root.
    pub fn plans_root(&self) -> (r: String)
        ensures
            r@ == crate::root::spec_join(self.spec_repository_root(), self.spec_plans_dir()),
    {
        crate::root::join(self.repository_root.as_str(), self.plans_dir.as_str())
    }

    pub fn repository_root(&self) -> (r: &String)
        ensures
            r@ == self.spec_repository_root(),
    {
        &self.repository_root
    }

    pub fn skills_dir(&self) -> (r: &String)
        ensures
            r@ == self.spec_skills_dir(),
    {
        &self.skills_dir
    }

    pub fn plans_dir(&self) -> (r: &String)
        ensures
            r@ == self.spec_plans_dir(),
    {
        &self.plans_dir
    }

    pub fn include_patterns(&self) -> (r: &Vec<String>)
        ensures
            views(r@) == self.spec_include_patterns(),
    {
        &self.include_patterns
    }

    pub fn exclude(&self) -> (r: &Vec<String>)
        ensures
            views(r@) == self.spec_exclude(),
    {
        &self.exclude
    }

    pub fn match_exclude(&self) -> (r: &Vec<String>)
        ensures
            views(r@) == self.spec_match_exclude(),
    {
        &self.match_exclude
    }

    pub fn known_extensions(&self) -> (r: &StringSet)
        ensures
            *r == self.spec_known_extensions(),
            self.wf() ==> r.wf(),
    {
        &self.known_extensions
    }

    pub fn special_filenames(&self) -> (r: &StringSet)
        ensures
            *r == self.spec_special_filenames(),
            self.wf() ==> r.wf(),
    {
        &self.special_filenames
    }

    pub fn config_was_explicit(&self) -> (r: bool)
        ensures
            r == self.spec_config_was_explicit(),
    {
        self.config_was_explicit
    }

    pub fn respect_gitignore(&self) -> (r: bool)
        ensures
            r == self.spec_respect_gitignore(),
    {
        self.respect_gitignore
    }

    pub fn config_path(&self) -> (r: Option<&String>)
        ensures
            match r {
                Some(p) => self.spec_config_path() == Some(p@),
                None => self.spec_config_path() is None,
            },
    {
        match &self.config_path {
            Some(p) => Some(p),
            None => None,
        }
    }

    /// Turns off `.gitignore` handling; nothing else changes.
    pub fn disable_gitignore(&mut self)
        ensures
            !final(self).spec_respect_gitignore(),
            final(self).wf() == old(self).wf(),
            final(self).spec_repository_root() == old(self).spec_repository_root(),
            final(self).spec_skills_dir() == old(self).spec_skills_dir(),
            final(self).spec_plans_dir() == old(self).spec_plans_dir(),
            final(self).spec_include_patterns() == old(self).spec_include_patterns(),
            final(self).spec_exclude() == old(self).spec_exclude(),
            final(self).spec_match_exclude() == old(self).spec_match_exclude(),
            final(self).spec_known_extensions() == old(self).spec_known_extensions(),
            final(self).spec_special_filenames() == old(self).spec_special_filenames(),
            final(self).spec_config_path() == old(self).spec_config_path(),
            final(self).spec_config_was_explicit() == old(self).spec_config_was_explicit(),
            final(self).applications() == old(self).applications(),
            final(self).frontmatter_rules() == old(self).frontmatter_rules(),
    {
        self.respect_gitignore = false;
        assert(self.frontmatter_rules@ == old(self).frontmatter_rules@);
        assert(self.known_extensions == old(self).known_extensions);
        assert(self.special_filenames == old(self).special_filenames);
    }

    /// Derives the per-file rule state for `relative_path` by applying all
    /// matching `[[rules]]` entries in order; the last writer wins.
    pub fn effective_rule_policy_for_path(&self, relative_path: &str) -> (p: EffectiveRulePolicy)
        requires
            self.wf(),
            fits_root(self.spec_repository_root(), relative_path@),
        ensures
            p.ignored_rules@.no_duplicates(),
            policy_model(p) == rule_policy_for(self.applications(), relative_path@),
    {
        assert forall|i: int| 0 <= i < self.rule_applications@.len() implies (
        #[trigger] self.rule_applications@[i]).target.takes(relative_path@) by {
            assert(self.rule_applications@[i].target.path_source().0 == without_dot_slash(
                self.repository_root@,
            ));
        }
        rule_policy_for_path(&self.rule_applications, relative_path)
    }

    pub fn frontmatter_policy_for_path(&self, relative_path: &str) -> (p:
        EffectiveFrontmatterPolicy)
        requires
            self.wf(),
            fits_root(self.spec_repository_root(), relative_path@),
        ensures
            p.field_max_chars.wf(),
            frontmatter_model(p) == frontmatter_policy_for(self.frontmatter_rules(), relative_path@),
    {
        assert forall|i: int| 0 <= i < self.frontmatter_rules@.len() implies (
        #[trigger] self.frontmatter_rules@[i]).target.takes(relative_path@) by {
            assert(self.frontmatter_rules@[i].target.path_source().0 == without_dot_slash(
                self.repository_root@,
            ));
        }
        frontmatter_policy_for_path(&self.frontmatter_rules, relative_path)
    }
}

// ---------------------------------------------------------------------------
// Laws of the rule policy
// ---------------------------------------------------------------------------
/// An entry whose path does not match leaves the policy of a file as it
/// was.
pub proof fn lemma_unmatched_entry_changes_nothing(
    apps: Seq<RuleApplication>,
    app: RuleApplication,
    path: Seq<char>,
)
    requires
        !app.spec_matches(path),
    ensures
        rule_policy_for(apps.push(app), path) == rule_policy_for(apps, path),
{
    assert(apps.push(app).drop_last() =~= apps);
}

/// The budgets that the last matching entry sets are the file's budgets,
/// whatever came before (last writer wins).
pub proof fn lemma_last_budget_wins(apps: Seq<RuleApplication>, app: RuleApplication, path: Seq<char>)
    requires
        app.spec_matches(path),
    ensures
        app.max_tokens is Some ==> rule_policy_for(apps.push(app), path).3 == app.max_tokens,
        app.max_lines is Some ==> rule_policy_for(apps.push(app), path).4 == app.max_lines,
{
    assert(apps.push(app).drop_last() =~= apps);
}

proof fn lemma_enable_all_sets(m: RulePolicyModel, rules: Seq<Rule>, severity: RuleSeverity)
    ensures
        rules.contains(Rule::UnresolvedBacktickPath) ==> enable_all(m, rules, severity).1 == Some(
            spec_severity_of(severity),
        ),
        rules.contains(Rule::PreferLinksForLocalPaths) ==> enable_all(m, rules, severity).2,
        enable_all(m, rules, severity).0 == m.0,
    decreases rules.len(),
{
    if rules.len() > 0 {
        lemma_enable_all_sets(m, rules.drop_last(), severity);
        if rules.contains(Rule::UnresolvedBacktickPath) && rules.last() != Rule::UnresolvedBacktickPath {
            let i = choose|i: int| 0 <= i < rules.len() && rules[i] == Rule::UnresolvedBacktickPath;
            assert(rules.drop_last()[i] == Rule::UnresolvedBacktickPath);
        }
        if rules.contains(Rule::PreferLinksForLocalPaths) && rules.last() != Rule::PreferLinksForLocalPaths {
            let i = choose|i: int| 0 <= i < rules.len() && rules[i] == Rule::PreferLinksForLocalPaths;
            assert(rules.drop_last()[i] == Rule::PreferLinksForLocalPaths);
        }
    }
}

/// An opt-in path rule that the last matching entry enables is on for the
/// file, even when an earlier entry disabled it: a later `enable` restores
/// what an earlier `disable` cleared.
pub proof fn lemma_later_enable_restores(apps: Seq<RuleApplication>, app: RuleApplication, path: Seq<char>)
    requires
        app.spec_matches(path),
    ensures
        app.enable@.contains(Rule::UnresolvedBacktickPath) ==> rule_policy_for(apps.push(app), path).1
            == Some(spec_severity_of(app.severity)),
        app.enable@.contains(Rule::PreferLinksForLocalPaths) ==> rule_policy_for(apps.push(app), path).2,
{
    assert(apps.push(app).drop_last() =~= apps);
    lemma_enable_all_sets(
        disable_all(rule_policy_for(apps, path), app.disable@),
        app.enable@,
        app.severity,
    );
}

proof fn lemma_disable_all_grows(m: RulePolicyModel, rules: Seq<Rule>)
    ensures
        m.0.subset_of(disable_all(m, rules).0),
    decreases rules.len(),
{
    if rules.len() > 0 {
        lemma_disable_all_grows(m, rules.drop_last());
    }
}

/// An always-on rule that an entry switched off for a file stays off:
/// later entries only add to the ignored rules.
pub proof fn lemma_ignored_rules_only_grow(apps: Seq<RuleApplication>, app: RuleApplication, path: Seq<char>)
    ensures
        rule_policy_for(apps, path).0.subset_of(rule_policy_for(apps.push(app), path).0),
{
    assert(apps.push(app).drop_last() =~= apps);
    let prev = rule_policy_for(apps, path);
    lemma_disable_all_grows(prev, app.disable@);
    lemma_enable_all_sets(disable_all(prev, app.disable@), app.enable@, app.severity);
}

/// The required fields of the last matching rule that names any are the
/// file's, and a matching rule's limit for a field replaces any earlier
/// one.
pub proof fn lemma_last_frontmatter_rule_wins(
    rules: Seq<FrontmatterRule>,
    rule: FrontmatterRule,
    path: Seq<char>,
    field: Seq<char>,
)
    requires
        rule.spec_matches(path),
    ensures
        rule.required@.len() > 0 ==> frontmatter_policy_for(rules.push(rule), path).0 == views(
            rule.required@,
        ),
        rule.field_max_chars.as_map().contains_key(field) ==> frontmatter_policy_for(
            rules.push(rule),
            path,
        ).1[field] == rule.field_max_chars.as_map()[field],
{
    assert(rules.push(rule).drop_last() =~= rules);
}

} // verus!
