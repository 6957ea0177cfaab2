//! The decisions of the command line that do not touch the file system:
//! scopes, output modes, query checks, the text of reports and hints, and
//! when a run fails.
use vstd::prelude::*;

use crate::analyzer::{normalize_text, text_terms};
use crate::config::{rule_name, Config};
use crate::diagnostics::{Diagnostic, FixSummary, Severity};
use crate::lint::Mode;
use crate::matcher::views;
use crate::matching::{render_field, render_match_field, ColorRendering, MatchOutputMode};
use crate::paths::{file_name, spec_file_name, spec_strip_prefix, strip_prefix};
use crate::root::{join, spec_join};
use crate::text::{
    all_white, chars_of, decimal, is_blank, push_all, push_decimal, push_str, spec_is_ascii_alphanumeric,
    string_from_chars,
};

verus! {

broadcast use vstd::seq_lib::group_seq_properties;

/// A configured document set.
#[derive(Clone, Copy, Debug, PartialEq, Eq, Structural)]
pub enum Scope {
    Skills,
    Plans,
    ActivePlans,
    CompletedPlans,
}

/// The `match` scope that the switches select (they exclude each other).
pub fn match_scope(skills: bool, plans: bool) -> (r: Option<Scope>)
    ensures
        r == if skills {
            Some(Scope::Skills)
        } else if plans {
            Some(Scope::Plans)
        } else {
            None::<Scope>
        },
{
    if skills {
        Some(Scope::Skills)
    } else if plans {
        Some(Scope::Plans)
    } else {
        None
    }
}

/// The `list` scope that the switches select (they exclude each other).
pub fn list_scope(skills: bool, plans: bool, active_plans: bool, completed_plans: bool) -> (r: Option<
    Scope,
>)
    ensures
        r == if skills {
            Some(Scope::Skills)
        } else if plans {
            Some(Scope::Plans)
        } else if active_plans {
            Some(Scope::ActivePlans)
        } else if completed_plans {
            Some(Scope::CompletedPlans)
        } else {
            None::<Scope>
        },
{
    if skills {
        Some(Scope::Skills)
    } else if plans {
        Some(Scope::Plans)
    } else if active_plans {
        Some(Scope::ActivePlans)
    } else if completed_plans {
        Some(Scope::CompletedPlans)
    } else {
        None
    }
}

/// The output mode that `--path-only` and `--explain` select.
pub fn match_output_mode(path_only: bool, explain: bool) -> (r: MatchOutputMode)
    ensures
        r == if path_only {
            MatchOutputMode::PathOnly
        } else if explain {
            MatchOutputMode::Explain
        } else {
            MatchOutputMode::Default
        },
{
    if path_only {
        MatchOutputMode::PathOnly
    } else if explain {
        MatchOutputMode::Explain
    } else {
        MatchOutputMode::Default
    }
}

/// The configuration field that names a scope's directory.
pub open spec fn spec_scope_field_name(scope: Scope) -> Seq<char> {
    match scope {
        Scope::Skills => "skills-dir"@,
        _ => "plans-dir"@,
    }
}

pub fn scope_field_name(scope: Scope) -> (r: &'static str)
    ensures
        r@ == spec_scope_field_name(scope),
{
    match scope {
        Scope::Skills => "skills-dir",
        _ => "plans-dir",
    }
}

/// The directory of a scope: the skills or plans directory, or the
/// `active` or `completed` directory under the plans directory.
pub open spec fn spec_scope_root(config: Config, scope: Scope) -> Seq<char> {
    let skills = spec_join(config.spec_repository_root(), config.spec_skills_dir());
    let plans = spec_join(config.spec_repository_root(), config.spec_plans_dir());
    match scope {
        Scope::Skills => skills,
        Scope::Plans => plans,
        Scope::ActivePlans => spec_join(plans, "active"@),
        Scope::CompletedPlans => spec_join(plans, "completed"@),
    }
}

/// The scope directories: the active and the completed plans are the
/// directories `active` and `completed` directly under the plans
/// directory (one `/` between them unless the plans directory is empty or
/// already ends in one), and the skills and plans directories end in the
/// configured relative directories.
pub proof fn lemma_scope_roots(config: Config)
    ensures
        ({
            let plans = spec_scope_root(config, Scope::Plans);
            let under = if plans.len() == 0 || plans.last() == '/' {
                plans
            } else {
                plans + seq!['/']
            };
            &&& spec_scope_root(config, Scope::ActivePlans) == under + seq!['a', 'c', 't', 'i', 'v', 'e']
            &&& spec_scope_root(config, Scope::CompletedPlans) == under + seq![
                'c',
                'o',
                'm',
                'p',
                'l',
                'e',
                't',
                'e',
                'd',
            ]
        }),
        spec_scope_root(config, Scope::ActivePlans) != spec_scope_root(config, Scope::CompletedPlans),
        crate::text::seq_ends_with(spec_scope_root(config, Scope::Plans), config.spec_plans_dir()),
        crate::text::seq_ends_with(spec_scope_root(config, Scope::Skills), config.spec_skills_dir()),
{
    reveal_strlit("active");
    reveal_strlit("completed");
    let plans = spec_scope_root(config, Scope::Plans);
    let under = if plans.len() == 0 || plans.last() == '/' {
        plans
    } else {
        plans + seq!['/']
    };
    let a = under + seq!['a', 'c', 't', 'i', 'v', 'e'];
    let c = under + seq!['c', 'o', 'm', 'p', 'l', 'e', 't', 'e', 'd'];
    assert(spec_scope_root(config, Scope::ActivePlans) =~= a);
    assert(spec_scope_root(config, Scope::CompletedPlans) =~= c);
    assert(a.last() == 'e' && c.last() == 'd');
    lemma_join_ends_with(config.spec_repository_root(), config.spec_plans_dir());
    lemma_join_ends_with(config.spec_repository_root(), config.spec_skills_dir());
}

proof fn lemma_join_ends_with(base: Seq<char>, rel: Seq<char>)
    ensures
        crate::text::seq_ends_with(spec_join(base, rel), rel),
{
    let j = spec_join(base, rel);
    assert(j.subrange(j.len() - rel.len(), j.len() as int) =~= rel);
}

pub fn scope_root(config: &Config, scope: Scope) -> (r: String)
    ensures
        r@ == spec_scope_root(*config, scope),
{
    let skills = join(config.repository_root().as_str(), config.skills_dir().as_str());
    let plans = join(config.repository_root().as_str(), config.plans_dir().as_str());
    match scope {
        Scope::Skills => skills,
        Scope::Plans => plans,
        Scope::ActivePlans => join(plans.as_str(), "active"),
        Scope::CompletedPlans => join(plans.as_str(), "completed"),
    }
}

/// Whether a discovered file belongs to the scope: the skills scope holds
/// only `SKILL.md` files.
pub open spec fn spec_keeps_scope_file(scope: Scope, path: Seq<char>) -> bool {
    scope != Scope::Skills || spec_file_name(path) == Some("SKILL.md"@)
}

pub fn keeps_scope_file(scope: Scope, path: &str) -> (r: bool)
    ensures
        r == spec_keeps_scope_file(scope, path@),
{
    if scope != Scope::Skills {
        return true;
    }
    match file_name(path) {
        Some(n) => crate::text::str_eq(n.as_str(), "SKILL.md"),
        None => false,
    }
}

// ---------------------------------------------------------------------------
// Queries
// ---------------------------------------------------------------------------
/// The words of a query joined with single spaces.
pub open spec fn joined_query(words: Seq<Seq<char>>) -> Seq<char>
    decreases words.len(),
{
    if words.len() == 0 {
        seq![]
    } else if words.len() == 1 {
        words[0]
    } else {
        joined_query(words.drop_last()) + seq![' '] + words.last()
    }
}

pub open spec fn empty_query_message() -> Seq<char> {
    "query must contain at least one non-empty word"@
}

pub open spec fn stopword_query_message() -> Seq<char> {
    "query must contain at least one non-stopword term"@
}

/// The terms of a `match` query, or why it is refused: a query of
/// whitespace only, or one whose words are all stop words.
pub fn match_query_terms(raw_query: &Vec<String>) -> (r: Result<Vec<String>, String>)
    ensures
        ({
            let q = joined_query(views(raw_query@));
            if all_white(q) {
                r is Err && r->Err_0@ == empty_query_message()
            } else if text_terms(q).len() == 0 {
                r is Err && r->Err_0@ == stopword_query_message()
            } else {
                r is Ok && views(r->Ok_0@) == text_terms(q)
            }
        }),
{
    let ghost words = views(raw_query@);
    let mut q: Vec<char> = Vec::new();
    let mut i: usize = 0;
    while i < raw_query.len()
        invariant
            i <= raw_query@.len(),
            words == views(raw_query@),
            q@ == joined_query(words.take(i as int)),
        decreases raw_query@.len() - i,
    {
        assert(words.take(i + 1).drop_last() =~= words.take(i as int));
        assert(words.take(i + 1).last() == raw_query@[i as int]@);
        if i > 0 {
            q.push(' ');
        }
        push_str(&mut q, raw_query[i].as_str());
        i += 1;
        assert(q@ =~= joined_query(words.take(i as int)));
    }
    assert(words.take(raw_query@.len() as int) =~= words);
    if is_blank(q.as_slice()) {
        return Err(String::from_str("query must contain at least one non-empty word"));
    }
    let text = string_from_chars(q.as_slice());
    let terms = normalize_text(text.as_str());
    if terms.len() == 0 {
        return Err(String::from_str("query must contain at least one non-stopword term"));
    }
    Ok(terms)
}

/// `list` refuses a scope switch together with targets.
pub fn list_arguments_error(has_scope: bool, has_targets: bool) -> (r: Option<String>)
    ensures
        (has_scope && has_targets) == r is Some,
        r matches Some(m) ==> m@ == "scope switches cannot be combined with targets"@,
{
    if has_scope && has_targets {
        Some(String::from_str("scope switches cannot be combined with targets"))
    } else {
        None
    }
}

/// Whether `list` prints a document: one with a description always, one
/// without only when it was named as a file target.
pub fn lists_document(has_description: bool, named_as_file: bool) -> (r: bool)
    ensures
        r == (has_description || named_as_file),
{
    has_description || named_as_file
}

/// A default `match` row: `path | name | description`, each field
/// rendered with the query terms highlighted.
pub fn render_default_row(
    path: &str,
    name: &str,
    description: &Option<String>,
    query_terms: &Vec<String>,
    color: ColorRendering,
) -> (r: String)
    ensures
        r@ == render_field(path@, views(query_terms@), color == ColorRendering::Ansi) + " | "@
            + render_field(name@, views(query_terms@), color == ColorRendering::Ansi) + " | "@
            + match description {
            Some(d) => render_field(d@, views(query_terms@), color == ColorRendering::Ansi),
            None => Seq::<char>::empty(),
        },
{
    let mut out: Vec<char> = Vec::new();
    push_str(&mut out, render_match_field(path, query_terms, color).as_str());
    push_str(&mut out, " | ");
    push_str(&mut out, render_match_field(name, query_terms, color).as_str());
    push_str(&mut out, " | ");
    match description {
        Some(d) => push_str(&mut out, render_match_field(d.as_str(), query_terms, color).as_str()),
        None => {},
    }
    assert(out@ =~= render_field(path@, views(query_terms@), color == ColorRendering::Ansi) + " | "@
        + render_field(name@, views(query_terms@), color == ColorRendering::Ansi) + " | "@
        + match description {
        Some(d) => render_field(d@, views(query_terms@), color == ColorRendering::Ansi),
        None => Seq::<char>::empty(),
    });
    string_from_chars(out.as_slice())
}

// ---------------------------------------------------------------------------
// Reports
// ---------------------------------------------------------------------------
/// The severity as printed, in red or yellow when colors are on.
pub open spec fn spec_severity_label(severity: Severity, colorize: bool) -> Seq<char> {
    match (severity, colorize) {
        (Severity::Error, true) => "\u{1b}[31merror\u{1b}[0m"@,
        (Severity::Warning, true) => "\u{1b}[33mwarning\u{1b}[0m"@,
        (Severity::Error, false) => "error"@,
        (Severity::Warning, false) => "warning"@,
    }
}

pub fn severity_label(severity: Severity, colorize: bool) -> (r: &'static str)
    ensures
        r@ == spec_severity_label(severity, colorize),
{
    match (severity, colorize) {
        (Severity::Error, true) => "\u{1b}[31merror\u{1b}[0m",
        (Severity::Warning, true) => "\u{1b}[33mwarning\u{1b}[0m",
        (Severity::Error, false) => "error",
        (Severity::Warning, false) => "warning",
    }
}

/// The first line of a reported diagnostic:
/// `file:line:column  severity  rule`, then `  fixable` for a fixable one.
pub open spec fn spec_diagnostic_header(d: Diagnostic, colorize: bool) -> Seq<char> {
    d.file@ + ":"@ + decimal(d.line as nat) + ":"@ + decimal(d.column as nat) + "  "@
        + spec_severity_label(d.severity, colorize) + "  "@ + d.rule@ + if d.fixable {
        "  fixable"@
    } else {
        Seq::<char>::empty()
    }
}

/// The header of a diagnostic starts with its file, then its line, then
/// its column, each after a `:`, and two spaces; without color it goes on
/// with `error` or `warning`, two spaces and the rule, and ends in
/// `  fixable` exactly for a fixable diagnostic.
pub proof fn lemma_diagnostic_header(d: Diagnostic, colorize: bool)
    ensures
        crate::text::seq_starts_with(
            spec_diagnostic_header(d, colorize),
            d.file@ + seq![':'] + decimal(d.line as nat) + seq![':'] + decimal(d.column as nat) + seq![' ', ' '],
        ),
        spec_diagnostic_header(d, false) == d.file@ + seq![':'] + decimal(d.line as nat) + seq![':']
            + decimal(d.column as nat) + seq![' ', ' '] + (if d.severity == Severity::Error {
            seq!['e', 'r', 'r', 'o', 'r']
        } else {
            seq!['w', 'a', 'r', 'n', 'i', 'n', 'g']
        }) + seq![' ', ' '] + d.rule@ + (if d.fixable {
            seq![' ', ' ', 'f', 'i', 'x', 'a', 'b', 'l', 'e']
        } else {
            Seq::<char>::empty()
        }),
{
    reveal_strlit(":");
    reveal_strlit("  ");
    reveal_strlit("error");
    reveal_strlit("warning");
    reveal_strlit("  fixable");
    let head = d.file@ + seq![':'] + decimal(d.line as nat) + seq![':'] + decimal(d.column as nat) + seq![' ', ' '];
    let h = spec_diagnostic_header(d, colorize);
    let rest = spec_severity_label(d.severity, colorize) + "  "@ + d.rule@ + if d.fixable {
        "  fixable"@
    } else {
        Seq::<char>::empty()
    };
    assert(h =~= head + rest);
    assert(h.subrange(0, head.len() as int) =~= head);
    assert(spec_diagnostic_header(d, false) =~= d.file@ + seq![':'] + decimal(d.line as nat) + seq![':']
        + decimal(d.column as nat) + seq![' ', ' '] + (if d.severity == Severity::Error {
        seq!['e', 'r', 'r', 'o', 'r']
    } else {
        seq!['w', 'a', 'r', 'n', 'i', 'n', 'g']
    }) + seq![' ', ' '] + d.rule@ + (if d.fixable {
        seq![' ', ' ', 'f', 'i', 'x', 'a', 'b', 'l', 'e']
    } else {
        Seq::<char>::empty()
    }));
}

pub fn diagnostic_header(d: &Diagnostic, colorize: bool) -> (r: String)
    ensures
        r@ == spec_diagnostic_header(*d, colorize),
{
    let mut out: Vec<char> = Vec::new();
    push_str(&mut out, d.file.as_str());
    push_str(&mut out, ":");
    push_decimal(&mut out, d.line);
    push_str(&mut out, ":");
    push_decimal(&mut out, d.column);
    push_str(&mut out, "  ");
    push_str(&mut out, severity_label(d.severity, colorize));
    push_str(&mut out, "  ");
    push_str(&mut out, d.rule.as_str());
    if d.fixable {
        push_str(&mut out, "  fixable");
    }
    assert(out@ =~= spec_diagnostic_header(*d, colorize));
    string_from_chars(out.as_slice())
}

/// Whether a run fails: checking fails on any error, fixing on an error
/// that cannot be fixed.
pub open spec fn spec_run_fails(mode: Mode, ds: Seq<Diagnostic>) -> bool {
    match mode {
        Mode::Check => exists|i: int| 0 <= i < ds.len() && (#[trigger] ds[i]).severity == Severity::Error,
        Mode::Fix => exists|i: int|
            0 <= i < ds.len() && (#[trigger] ds[i]).severity == Severity::Error && !ds[i].fixable,
    }
}

pub fn run_fails(mode: Mode, diagnostics: &Vec<Diagnostic>) -> (r: bool)
    ensures
        r == spec_run_fails(mode, diagnostics@),
{
    let mut i: usize = 0;
    while i < diagnostics.len()
        invariant
            i <= diagnostics@.len(),
            forall|j: int|
                0 <= j < i ==> !((#[trigger] diagnostics@[j]).severity == Severity::Error && (mode
                    == Mode::Check || !diagnostics@[j].fixable)),
        decreases diagnostics@.len() - i,
    {
        let d = &diagnostics[i];
        if d.severity == Severity::Error && (mode == Mode::Check || !d.fixable) {
            assert(diagnostics@[i as int] == *d);
            return true;
        }
        i += 1;
    }
    false
}

/// A target as a shell word: as it is when it holds only ASCII letters,
/// digits and `./_-`, else single-quoted with each `'` written `'\''`.
pub open spec fn is_shell_safe(c: char) -> bool {
    spec_is_ascii_alphanumeric(c) || c == '.' || c == '/' || c == '_' || c == '-'
}

pub open spec fn quote_escaped(s: Seq<char>) -> Seq<char>
    decreases s.len(),
{
    if s.len() == 0 {
        seq![]
    } else {
        quote_escaped(s.drop_last()) + if s.last() == '\'' {
            seq!['\'', '\\', '\'', '\'']
        } else {
            seq![s.last()]
        }
    }
}

pub open spec fn spec_shell_escape(s: Seq<char>) -> Seq<char> {
    if forall|i: int| 0 <= i < s.len() ==> is_shell_safe(#[trigger] s[i]) {
        s
    } else {
        seq!['\''] + quote_escaped(s) + seq!['\'']
    }
}

pub fn shell_escape(value: &str) -> (r: String)
    ensures
        r@ == spec_shell_escape(value@),
{
    let v = chars_of(value);
    let mut safe = true;
    let mut i: usize = 0;
    while i < v.len()
        invariant
            i <= v@.len(),
            v@ == value@,
            safe == forall|j: int| 0 <= j < i ==> is_shell_safe(#[trigger] v@[j]),
        decreases v@.len() - i,
    {
        let c = v[i];
        let ok = crate::text::is_ascii_alphanumeric(c) || c == '.' || c == '/' || c == '_' || c
            == '-';
        if !ok {
            assert(!is_shell_safe(v@[i as int]));
        }
        safe = safe && ok;
        i += 1;
    }
    if safe {
        return string_from_chars(v.as_slice());
    }
    let mut out: Vec<char> = Vec::new();
    out.push('\'');
    let mut k: usize = 0;
    while k < v.len()
        invariant
            k <= v@.len(),
            out@ == seq!['\''] + quote_escaped(v@.take(k as int)),
        decreases v@.len() - k,
    {
        assert(v@.take(k + 1).drop_last() =~= v@.take(k as int));
        if v[k] == '\'' {
            out.push('\'');
            out.push('\\');
            out.push('\'');
            out.push('\'');
        } else {
            out.push(v[k]);
        }
        k += 1;
        assert(out@ =~= seq!['\''] + quote_escaped(v@.take(k as int)));
    }
    assert(v@.take(v@.len() as int) =~= v@);
    out.push('\'');
    string_from_chars(out.as_slice())
}

/// Shell words joined with spaces.
pub open spec fn spec_render_targets(targets: Seq<Seq<char>>) -> Seq<char>
    decreases targets.len(),
{
    if targets.len() == 0 {
        seq![]
    } else if targets.len() == 1 {
        spec_shell_escape(targets[0])
    } else {
        spec_render_targets(targets.drop_last()) + seq![' '] + spec_shell_escape(targets.last())
    }
}

pub fn render_targets(targets: &Vec<String>) -> (r: String)
    ensures
        r@ == spec_render_targets(views(targets@)),
{
    let ghost tv = views(targets@);
    let mut out: Vec<char> = Vec::new();
    let mut i: usize = 0;
    while i < targets.len()
        invariant
            i <= targets@.len(),
            tv == views(targets@),
            out@ == spec_render_targets(tv.take(i as int)),
        decreases targets@.len() - i,
    {
        assert(tv.take(i + 1).drop_last() =~= tv.take(i as int));
        assert(tv.take(i + 1).last() == targets@[i as int]@);
        if i > 0 {
            out.push(' ');
        }
        push_str(&mut out, shell_escape(targets[i].as_str()).as_str());
        i += 1;
        assert(out@ =~= spec_render_targets(tv.take(i as int)));
    }
    assert(tv.take(targets@.len() as int) =~= tv);
    string_from_chars(out.as_slice())
}

/// A path shown relative to the root when it lies under it.
pub open spec fn spec_display_relative(root: Seq<char>, path: Seq<char>) -> Seq<char> {
    match spec_strip_prefix(path, root) {
        Some(rel) => rel,
        None => path,
    }
}

pub fn display_relative(root: &str, path: &str) -> (r: String)
    ensures
        r@ == spec_display_relative(root@, path@),
{
    match strip_prefix(path, root) {
        Some(rel) => rel,
        None => String::from_str(path),
    }
}

/// The fixable rules, joined with `, `.
pub open spec fn joined_rules(rules: Seq<Seq<char>>) -> Seq<char>
    decreases rules.len(),
{
    if rules.len() == 0 {
        seq![]
    } else if rules.len() == 1 {
        rules[0]
    } else {
        joined_rules(rules.drop_last()) + ", "@ + rules.last()
    }
}

/// The hint printed after a check that found fixable violations: the
/// count, the rules in ascending order, and the command that fixes them.
pub open spec fn spec_fix_hint(count: nat, rules: Seq<Seq<char>>, targets: Seq<char>, config_suffix: Seq<char>) -> Seq<Seq<char>> {
    seq![
        Seq::<char>::empty(),
        decimal(count) + " fixable violation"@ + (if count == 1 {
            Seq::<char>::empty()
        } else {
            "s"@
        }) + " found."@,
        "Fixable rules in this run: "@ + joined_rules(rules),
        "Run `docgarden fix "@ + targets + config_suffix + "` to apply fixes."@,
    ]
}

pub fn fix_hint_lines(summary: &FixSummary, rendered_targets: &str, config_suffix: &str) -> (r: Option<
    Vec<String>,
>)
    ensures
        summary.fixable_count == 0 ==> r is None,
        summary.fixable_count > 0 ==> r is Some && views(r->0@) == spec_fix_hint(
            summary.fixable_count as nat,
            summary.fixable_rules.keys(),
            rendered_targets@,
            config_suffix@,
        ),
{
    if summary.fixable_count == 0 {
        return None;
    }
    let mut count_line: Vec<char> = Vec::new();
    push_decimal(&mut count_line, summary.fixable_count);
    push_str(&mut count_line, " fixable violation");
    if summary.fixable_count != 1 {
        push_str(&mut count_line, "s");
    }
    push_str(&mut count_line, " found.");
    let mut rules_line: Vec<char> = Vec::new();
    push_str(&mut rules_line, "Fixable rules in this run: ");
    let ghost keys = summary.fixable_rules.keys();
    let ghost start = rules_line@;
    let mut i: usize = 0;
    while i < summary.fixable_rules.len()
        invariant
            i <= keys.len(),
            keys == summary.fixable_rules.keys(),
            rules_line@ == start + joined_rules(keys.take(i as int)),
        decreases keys.len() - i,
    {
        assert(keys.take(i + 1).drop_last() =~= keys.take(i as int));
        if i > 0 {
            push_str(&mut rules_line, ", ");
        }
        push_str(&mut rules_line, summary.fixable_rules.get(i).as_str());
        i += 1;
        assert(rules_line@ =~= start + joined_rules(keys.take(i as int)));
    }
    assert(keys.take(keys.len() as int) =~= keys);
    let mut run_line: Vec<char> = Vec::new();
    push_str(&mut run_line, "Run `docgarden fix ");
    push_str(&mut run_line, rendered_targets);
    push_str(&mut run_line, config_suffix);
    push_str(&mut run_line, "` to apply fixes.");
    let mut lines: Vec<String> = Vec::new();
    lines.push(String::new());
    lines.push(string_from_chars(count_line.as_slice()));
    lines.push(string_from_chars(rules_line.as_slice()));
    lines.push(string_from_chars(run_line.as_slice()));
    assert(views(lines@) =~= spec_fix_hint(
        summary.fixable_count as nat,
        keys,
        rendered_targets@,
        config_suffix@,
    ));
    Some(lines)
}

/// ` --config <path>` for a configuration given explicitly, shown
/// relative to the repository root; empty otherwise.
pub fn config_suffix(config: &Config, repository_root: &str) -> (r: String)
    ensures
        r@ == match config.spec_config_path() {
            Some(p) => if config.spec_config_was_explicit() {
                " --config "@ + spec_display_relative(repository_root@, p)
            } else {
                Seq::<char>::empty()
            },
            None => Seq::<char>::empty(),
        },
{
    match config.config_path() {
        Some(p) => if config.config_was_explicit() {
            let mut out: Vec<char> = Vec::new();
            push_str(&mut out, " --config ");
            push_str(&mut out, display_relative(repository_root, p.as_str()).as_str());
            string_from_chars(out.as_slice())
        } else {
            String::new()
        },
        None => String::new(),
    }
}

/// Fixing fails only where checking fails: a fix run fails on an error
/// that cannot be fixed, which a check run fails on too.
pub proof fn lemma_fix_fails_only_if_check_fails(ds: Seq<Diagnostic>)
    ensures
        spec_run_fails(Mode::Fix, ds) ==> spec_run_fails(Mode::Check, ds),
{
    if spec_run_fails(Mode::Fix, ds) {
        let i = choose|i: int|
            0 <= i < ds.len() && (#[trigger] ds[i]).severity == Severity::Error && !ds[i].fixable;
        assert(ds[i].severity == Severity::Error);
    }
}

/// A target that is already a safe shell word is written as it is.
pub proof fn lemma_safe_targets_unquoted(s: Seq<char>)
    requires
        forall|i: int| 0 <= i < s.len() ==> is_shell_safe(#[trigger] s[i]),
    ensures
        spec_shell_escape(s) == s,
{
}

} // verus!
