//! Linting one Markdown file: the findings of the file rules, the
//! frontmatter rules and the local-path rules, their reporting under the
//! file's rule policy, and the fixes they bring.
use vstd::prelude::*;

use crate::config::{rule_name, BudgetLimit, EffectiveRulePolicy, Rule, spec_severity_of, severity_of};
use crate::diagnostics::{fixable_count, fixable_rules, Diagnostic, FixSummary, Severity};
use crate::edits::{bytes_of, edits_fit, first_overlap, overlap_message, sorted_desc, spliced, Edit};
use crate::markdown::SourcePosition;
use crate::text::{chars_of, decimal, push_decimal, push_str, string_from_chars};
use crate::config::{Config, EffectiveFrontmatterPolicy, fits_root, frontmatter_policy_for, policy_model, rule_policy_for};
use crate::local_paths::{decision_matches, reference_findings, somes, LocalReference, TargetProbe};
use crate::frontmatter::{
    entry_views, frontmatter_of, parse_from_str, parse_view, value_for, FrontmatterParseResult,
    FrontmatterView, YamlValueView,
};
use crate::matcher::views;

verus! {

broadcast use vstd::seq_lib::group_seq_properties;

/// Whether a run only reports or also fixes.
#[derive(Clone, Copy, Debug, PartialEq, Eq, Structural)]
pub enum Mode {
    Check,
    Fix,
}

/// What a rule found: where, which rule, the message, whether a fix
/// exists and how severe it is, and the fix itself.
pub struct Finding {
    pub file: String,
    pub position: Option<SourcePosition>,
    pub rule: Rule,
    pub message: String,
    pub fixable: bool,
    pub severity: Severity,
    pub edit: Option<Edit>,
}

/// The diagnostic that a finding is reported as: at the start of its node,
/// or at line 1, column 1 when it has no position.
pub open spec fn reported(f: Finding, d: Diagnostic) -> bool {
    &&& d.file@ == f.file@
    &&& d.line == match f.position {
        Some(p) => p.start_line,
        None => 1,
    }
    &&& d.column == match f.position {
        Some(p) => p.start_column,
        None => 1,
    }
    &&& d.severity == f.severity
    &&& d.rule@ == rule_name(f.rule)
    &&& d.message@ == f.message@
    &&& d.fixable == f.fixable
}

/// The findings that are reported: those whose rule the policy does not
/// switch off.
pub open spec fn kept_findings(findings: Seq<Finding>, ignored: Set<Rule>) -> Seq<Finding>
    decreases findings.len(),
{
    if findings.len() == 0 {
        seq![]
    } else {
        kept_findings(findings.drop_last(), ignored) + if ignored.contains(findings.last().rule) {
            seq![]
        } else {
            seq![findings.last()]
        }
    }
}

/// The edits that a run applies: those of the reported findings, in fix
/// mode only.
pub open spec fn kept_edits(findings: Seq<Finding>, ignored: Set<Rule>, mode: Mode) -> Seq<
    (int, int, Seq<char>),
>
    decreases findings.len(),
{
    if findings.len() == 0 {
        seq![]
    } else {
        kept_edits(findings.drop_last(), ignored, mode) + if mode == Mode::Fix && !ignored.contains(
            findings.last().rule,
        ) && findings.last().edit is Some {
            seq![crate::edits::edit_view(findings.last().edit->0)]
        } else {
            seq![]
        }
    }
}

fn contains_rule(rules: &Vec<Rule>, rule: Rule) -> (r: bool)
    ensures
        r == rules@.contains(rule),
{
    let mut i: usize = 0;
    while i < rules.len()
        invariant
            i <= rules@.len(),
            forall|j: int| 0 <= j < i ==> rules@[j] != rule,
        decreases rules@.len() - i,
    {
        if rules[i] == rule {
            assert(rules@[i as int] == rule);
            return true;
        }
        i += 1;
    }
    false
}

fn diagnostic_of(f: &Finding) -> (d: Diagnostic)
    ensures
        reported(*f, d),
{
    let (line, column) = match f.position {
        Some(p) => (p.start_line, p.start_column),
        None => (1, 1),
    };
    Diagnostic {
        file: f.file.clone(),
        line,
        column,
        severity: f.severity,
        rule: String::from_str(f.rule.as_str()),
        message: f.message.clone(),
        fixable: f.fixable,
    }
}

/// Reports the findings that the policy does not switch off and, when
/// fixing, collects their edits.
pub fn emit_findings(
    diagnostics: &mut Vec<Diagnostic>,
    edits: &mut Vec<Edit>,
    policy: &EffectiveRulePolicy,
    mode: Mode,
    findings: Vec<Finding>,
)
    ensures
        final(diagnostics)@.len() == old(diagnostics)@.len() + kept_findings(
            findings@,
            policy.ignored_rules@.to_set(),
        ).len(),
        final(diagnostics)@.take(old(diagnostics)@.len() as int) == old(diagnostics)@,
        forall|k: int|
            0 <= k < kept_findings(findings@, policy.ignored_rules@.to_set()).len() ==> reported(
                #[trigger] kept_findings(findings@, policy.ignored_rules@.to_set())[k],
                final(diagnostics)@[old(diagnostics)@.len() + k],
            ),
        crate::edits::edit_views(final(edits)@) == crate::edits::edit_views(old(edits)@) + kept_edits(
            findings@,
            policy.ignored_rules@.to_set(),
            mode,
        ),
{
    let ghost ignored = policy.ignored_rules@.to_set();
    let ghost d0 = diagnostics@;
    let ghost e0 = crate::edits::edit_views(edits@);
    let mut findings = findings;
    let ghost all = findings@;
    // Take the findings in order: reverse once, then pop.
    let mut reversed: Vec<Finding> = Vec::new();
    while findings.len() > 0
        invariant
            all.len() == findings@.len() + reversed@.len(),
            findings@ == all.take(findings@.len() as int),
            forall|j: int| 0 <= j < reversed@.len() ==> #[trigger] reversed@[j] == all[all.len() - 1 - j],
        decreases findings@.len(),
    {
        let f = findings.pop().unwrap();
        reversed.push(f);
    }
    let ghost mut i: int = 0;
    while reversed.len() > 0
        invariant
            all.len() == i + reversed@.len(),
            forall|j: int| 0 <= j < reversed@.len() ==> #[trigger] reversed@[j] == all[all.len() - 1 - j],
            ignored == policy.ignored_rules@.to_set(),
            0 <= i,
            diagnostics@.len() == d0.len() + kept_findings(all.take(i), ignored).len(),
            diagnostics@.take(d0.len() as int) == d0,
            forall|k: int|
                0 <= k < kept_findings(all.take(i), ignored).len() ==> reported(
                    #[trigger] kept_findings(all.take(i), ignored)[k],
                    diagnostics@[d0.len() + k],
                ),
            crate::edits::edit_views(edits@) == e0 + kept_edits(all.take(i), ignored, mode),
        decreases reversed@.len(),
    {
        let f = reversed.pop().unwrap();
        assert(f == all[i]);
        assert(all.take(i + 1).drop_last() =~= all.take(i));
        assert(all.take(i + 1).last() == f);
        let ghost kept_before = kept_findings(all.take(i), ignored);
        let ghost dbefore = diagnostics@;
        let ghost ebefore = crate::edits::edit_views(edits@);
        if !contains_rule(&policy.ignored_rules, f.rule) {
            let d = diagnostic_of(&f);
            diagnostics.push(d);
            assert(kept_findings(all.take(i + 1), ignored) == kept_before.push(f));
            assert(diagnostics@.take(d0.len() as int) =~= dbefore.take(d0.len() as int));
            assert forall|k: int|
                0 <= k < kept_findings(all.take(i + 1), ignored).len() implies reported(
                #[trigger] kept_findings(all.take(i + 1), ignored)[k],
                diagnostics@[d0.len() + k],
            ) by {
                if k < kept_before.len() {
                    assert(kept_findings(all.take(i + 1), ignored)[k] == kept_before[k]);
                    assert(diagnostics@[d0.len() + k] == dbefore[d0.len() + k]);
                }
            }
            if mode == Mode::Fix {
                match f.edit {
                    Some(e) => {
                        edits.push(e);
                        assert(crate::edits::edit_views(edits@) =~= ebefore.push(
                            crate::edits::edit_view(e),
                        ));
                    },
                    None => {
                        assert(crate::edits::edit_views(edits@) =~= ebefore + Seq::<
                            (int, int, Seq<char>),
                        >::empty());
                    },
                }
            } else {
                assert(crate::edits::edit_views(edits@) =~= ebefore + Seq::<
                    (int, int, Seq<char>),
                >::empty());
            }
        } else {
            assert(kept_findings(all.take(i + 1), ignored) =~= kept_before);
            assert(crate::edits::edit_views(edits@) =~= ebefore + Seq::<
                (int, int, Seq<char>),
            >::empty());
        }
        proof {
            i = i + 1;
        }
    }
    assert(all.take(i) =~= all);
}

/// The edit that replaces a node, when the node has a position.
pub fn edit_from_position(position: Option<SourcePosition>, replacement: String) -> (r: Option<
    Edit,
>)
    ensures
        match position {
            Some(p) => r is Some && r->0.start_offset == p.start_offset && r->0.end_offset
                == p.end_offset && r->0.replacement@ == replacement@,
            None => r is None,
        },
{
    match position {
        Some(p) => Some(
            Edit { start_offset: p.start_offset, end_offset: p.end_offset, replacement },
        ),
        None => None,
    }
}

/// The summary of fixable diagnostics.
pub fn summarize(diagnostics: &[Diagnostic]) -> (s: FixSummary)
    ensures
        s.fixable_rules.wf(),
        s.fixable_count == fixable_count(diagnostics@),
        s.fixable_rules.members() == fixable_rules(diagnostics@),
{
    let mut summary = FixSummary::default();
    let mut i: usize = 0;
    while i < diagnostics.len()
        invariant
            i <= diagnostics@.len(),
            summary.fixable_rules.wf(),
            summary.fixable_count == fixable_count(diagnostics@.take(i as int)),
            summary.fixable_rules.members() == fixable_rules(diagnostics@.take(i as int)),
        decreases diagnostics@.len() - i,
    {
        assert(diagnostics@.take(i + 1).drop_last() =~= diagnostics@.take(i as int));
        proof {
            crate::diagnostics::lemma_fixable_count_bound(diagnostics@.take(i as int));
        }
        summary.record(&diagnostics[i]);
        i += 1;
    }
    assert(diagnostics@.take(diagnostics@.len() as int) =~= diagnostics@);
    summary
}

// ---------------------------------------------------------------------------
// File rules
// ---------------------------------------------------------------------------
pub open spec fn newline_fn() -> spec_fn(char) -> bool {
    |c: char| c == '\n'
}

/// The number of lines `str::lines` gives: the pieces between line feeds,
/// without an empty last one.
pub open spec fn line_count(s: Seq<char>) -> nat {
    let ps = crate::analyzer::split_pieces(s, newline_fn());
    if ps.len() > 0 && ps.last().len() == 0 {
        (ps.len() - 1) as nat
    } else {
        ps.len()
    }
}

pub fn count_lines(source: &str) -> (n: usize)
    ensures
        n == line_count(source@),
{
    let ghost sep = newline_fn();
    let s = chars_of(source);
    let mut newlines: usize = 0;
    let mut cur_len: usize = 0;
    let mut i: usize = 0;
    assert(s@.take(0) =~= Seq::<char>::empty());
    while i < s.len()
        invariant
            sep == newline_fn(),
            i <= s@.len(),
            s@ == source@,
            crate::analyzer::split_pieces(s@.take(i as int), sep).len() == newlines + 1,
            cur_len == crate::analyzer::split_pieces(s@.take(i as int), sep).last().len(),
            newlines + cur_len <= i,
        decreases s@.len() - i,
    {
        let c = s[i];
        let ghost prefix = s@.take(i as int);
        let ghost next = s@.take(i + 1);
        assert(next.drop_last() =~= prefix);
        assert(next.last() == c);
        if c == '\n' {
            newlines += 1;
            cur_len = 0;
        } else {
            cur_len += 1;
        }
        i += 1;
    }
    assert(s@.take(s@.len() as int) =~= s@);
    if cur_len == 0 {
        newlines
    } else {
        newlines + 1
    }
}

/// The number of tokens that the o200k_base encoding of `tiktoken_rs`
/// gives for a text (`CoreBPE::encode_ordinary`).
pub uninterp spec fn o200k_token_count(text: Seq<char>) -> nat;

/// Calls `tiktoken_rs::o200k_base_singleton().encode_ordinary(source)` and
/// counts the tokens.  The count depends on the text alone; the contract
/// names it.  The singleton is built once from data embedded in the crate.
#[verifier::external_body]
pub(crate) fn count_tokens(source: &str) -> (n: usize)
    ensures
        n == o200k_token_count(source@),
{
    tiktoken_rs::o200k_base_singleton().encode_ordinary(source).len()
}

/// `File has <observed> <unit>, which exceeds configured <rule> = <limit>.`
pub open spec fn budget_message(observed: nat, unit: Seq<char>, rule: Rule, limit: nat) -> Seq<
    char,
> {
    "File has "@ + decimal(observed) + " "@ + unit + ", which exceeds configured "@ + rule_name(
        rule,
    ) + " = "@ + decimal(limit) + "."@
}

fn budget_finding(file: &str, observed: usize, unit: &str, rule: Rule, limit: BudgetLimit) -> (f:
    Finding)
    ensures
        f.file@ == file@,
        f.position is None,
        f.rule == rule,
        f.message@ == budget_message(observed as nat, unit@, rule, limit.limit as nat),
        !f.fixable,
        f.severity == spec_severity_of(limit.severity),
        f.edit is None,
{
    let mut msg: Vec<char> = Vec::new();
    push_str(&mut msg, "File has ");
    push_decimal(&mut msg, observed);
    push_str(&mut msg, " ");
    push_str(&mut msg, unit);
    push_str(&mut msg, ", which exceeds configured ");
    push_str(&mut msg, rule.as_str());
    push_str(&mut msg, " = ");
    push_decimal(&mut msg, limit.limit);
    push_str(&mut msg, ".");
    assert(msg@ =~= budget_message(observed as nat, unit@, rule, limit.limit as nat));
    Finding {
        file: String::from_str(file),
        position: None,
        rule,
        message: string_from_chars(msg.as_slice()),
        fixable: false,
        severity: severity_of(limit.severity),
        edit: None,
    }
}

/// The budget findings for `file` with text `source`, tokens first: a
/// budget is exceeded when the observed count is above its limit.
pub open spec fn file_findings_match(
    fs: Seq<Finding>,
    file: Seq<char>,
    source: Seq<char>,
    max_tokens: Option<BudgetLimit>,
    max_lines: Option<BudgetLimit>,
) -> bool {
    let token_hit = max_tokens matches Some(l) && o200k_token_count(source) > l.limit;
    let line_hit = max_lines matches Some(l) && line_count(source) > l.limit;
    &&& fs.len() == (if token_hit {
        1int
    } else {
        0int
    }) + (if line_hit {
        1int
    } else {
        0int
    })
    &&& token_hit ==> {
        &&& fs[0].rule == Rule::MaxTokens
        &&& fs[0].file@ == file
        &&& fs[0].position is None
        &&& fs[0].message@ == budget_message(
            o200k_token_count(source),
            "tokens"@,
            Rule::MaxTokens,
            max_tokens->0.limit as nat,
        )
        &&& !fs[0].fixable
        &&& fs[0].severity == spec_severity_of(max_tokens->0.severity)
        &&& fs[0].edit is None
    }
    &&& line_hit ==> {
        let f = fs[fs.len() - 1];
        &&& f.rule == Rule::MaxLines
        &&& f.file@ == file
        &&& f.position is None
        &&& f.message@ == budget_message(
            line_count(source),
            "lines"@,
            Rule::MaxLines,
            max_lines->0.limit as nat,
        )
        &&& !f.fixable
        &&& f.severity == spec_severity_of(max_lines->0.severity)
        &&& f.edit is None
    }
}

/// The findings of the budget rules that the policy turns on.
pub fn evaluate_file_rules(policy: &EffectiveRulePolicy, file: &str, source: &str) -> (r: Vec<
    Finding,
>)
    ensures
        file_findings_match(r@, file@, source@, policy.max_tokens, policy.max_lines),
{
    let mut findings: Vec<Finding> = Vec::new();
    match policy.max_tokens {
        Some(limit) => {
            let observed = count_tokens(source);
            if observed > limit.limit {
                findings.push(budget_finding(file, observed, "tokens", Rule::MaxTokens, limit));
            }
        },
        None => {},
    }
    match policy.max_lines {
        Some(limit) => {
            let observed = count_lines(source);
            if observed > limit.limit {
                findings.push(budget_finding(file, observed, "lines", Rule::MaxLines, limit));
            }
        },
        None => {},
    }
    findings
}

// ---------------------------------------------------------------------------
// Frontmatter rules
// ---------------------------------------------------------------------------
/// ``Required frontmatter field `<field>` is missing.``
pub open spec fn missing_field_message(field: Seq<char>) -> Seq<char> {
    "Required frontmatter field `"@ + field + "` is missing."@
}

/// `Frontmatter block is malformed or uses unsupported YAML constructs (line <n>).`
pub open spec fn malformed_message(line: nat) -> Seq<char> {
    "Frontmatter block is malformed or uses unsupported YAML constructs (line "@ + decimal(line)
        + ")."@
}

/// ``Frontmatter field `<field>` has <n> characters, which exceeds configured max-chars = <limit>.``
pub open spec fn max_chars_message(field: Seq<char>, count: nat, limit: nat) -> Seq<char> {
    "Frontmatter field `"@ + field + "` has "@ + decimal(count) + " characters, which exceeds configured max-chars = "@
        + decimal(limit) + "."@
}

/// The required fields that `present` says are missing, as findings.
pub open spec fn missing_fields(required: Seq<Seq<char>>, present: spec_fn(Seq<char>) -> bool) -> Seq<(Rule, Seq<char>)>
    decreases required.len(),
{
    if required.len() == 0 {
        seq![]
    } else {
        missing_fields(required.drop_last(), present) + if present(required.last()) {
            seq![]
        } else {
            seq![(Rule::FrontmatterFieldMissing, missing_field_message(required.last()))]
        }
    }
}

/// The limited fields whose scalar values are too long, in ascending field
/// order.
pub open spec fn long_fields(
    keys: Seq<Seq<char>>,
    limits: Seq<usize>,
    es: Seq<(Seq<char>, YamlValueView)>,
) -> Seq<(Rule, Seq<char>)>
    decreases keys.len(),
{
    if keys.len() == 0 {
        seq![]
    } else {
        let k = keys.len() - 1;
        long_fields(keys.drop_last(), limits, es) + match value_for(es, keys[k]) {
            Some(YamlValueView::Scalar(v)) => if v.len() > limits[k] {
                seq![
                    (
                        Rule::FrontmatterFieldMaxChars,
                        max_chars_message(keys[k], v.len(), limits[k] as nat),
                    ),
                ]
            } else {
                seq![]
            },
            _ => seq![],
        }
    }
}

/// What the frontmatter rules report, as rule and message: nothing when no
/// policy applies; every required field when there is no frontmatter; the
/// malformed block alone; else the missing required fields, then the
/// fields over their limits.
pub open spec fn frontmatter_reports(
    required: Seq<Seq<char>>,
    keys: Seq<Seq<char>>,
    limits: Seq<usize>,
    fm: FrontmatterView,
) -> Seq<(Rule, Seq<char>)> {
    if required.len() == 0 && keys.len() == 0 {
        seq![]
    } else {
        match fm {
            FrontmatterView::Absent => missing_fields(required, |f: Seq<char>| false),
            FrontmatterView::Malformed(line) => seq![
                (Rule::FrontmatterMalformed, malformed_message(line)),
            ],
            FrontmatterView::Valid(es) => missing_fields(
                required,
                |f: Seq<char>| value_for(es, f) is Some,
            ) + long_fields(keys, limits, es),
        }
    }
}

/// The findings are the reports of the frontmatter rules under `policy`.
pub open spec fn frontmatter_findings_match(
    r: Seq<Finding>,
    file: Seq<char>,
    policy: EffectiveFrontmatterPolicy,
    source: Seq<char>,
) -> bool {
    let reports = frontmatter_reports(
        views(policy.required@),
        policy.field_max_chars.keys(),
        policy.field_max_chars.values(),
        frontmatter_of(source),
    );
    r.len() == reports.len() && forall|i: int| 0 <= i < r.len() ==> plain_error(#[trigger] r[i], file, reports[i])
}

/// A required field missing from the reports' frontmatter is reported.
proof fn lemma_missing_field_listed(
    required: Seq<Seq<char>>,
    present: spec_fn(Seq<char>) -> bool,
    field: Seq<char>,
)
    requires
        required.contains(field),
        !present(field),
    ensures
        exists|j: int|
            0 <= j < missing_fields(required, present).len() && #[trigger] missing_fields(
                required,
                present,
            )[j] == (Rule::FrontmatterFieldMissing, missing_field_message(field)),
    decreases required.len(),
{
    let init = required.drop_last();
    let prev = missing_fields(init, present);
    let all = missing_fields(required, present);
    if required.last() == field {
        assert(all[prev.len() as int] == (Rule::FrontmatterFieldMissing, missing_field_message(field)));
    } else {
        let i = choose|i: int| 0 <= i < required.len() && required[i] == field;
        assert(init[i] == field);
        lemma_missing_field_listed(init, present, field);
        let j = choose|j: int| 0 <= j < prev.len() && #[trigger] prev[j] == (
            Rule::FrontmatterFieldMissing,
            missing_field_message(field),
        );
        assert(all[j] == prev[j]);
    }
}

proof fn lemma_value_for_absent(es: Seq<(Seq<char>, YamlValueView)>, key: Seq<char>)
    requires
        forall|k: int| 0 <= k < es.len() ==> (#[trigger] es[k]).0 != key,
    ensures
        value_for(es, key) is None,
    decreases es.len(),
{
    if es.len() > 0 {
        assert(es[0].0 != key);
        assert forall|k: int| 0 <= k < es.drop_first().len() implies (#[trigger] es.drop_first()[k]).0 != key by {
            assert(es.drop_first()[k] == es[k + 1]);
        }
        lemma_value_for_absent(es.drop_first(), key);
    }
}

/// Every required field that the document does not give is reported
/// missing: when the document has no frontmatter block at all, and when
/// its block has no entry for the field, the findings hold an error of
/// the missing-field rule whose message names the field.
pub proof fn lemma_required_fields_reported(
    r: Seq<Finding>,
    file: Seq<char>,
    policy: EffectiveFrontmatterPolicy,
    source: Seq<char>,
    field: Seq<char>,
)
    requires
        frontmatter_findings_match(r, file, policy, source),
        views(policy.required@).contains(field),
        match frontmatter_of(source) {
            FrontmatterView::Absent => true,
            FrontmatterView::Valid(es) => forall|k: int| 0 <= k < es.len() ==> (#[trigger] es[k]).0 != field,
            FrontmatterView::Malformed(_) => false,
        },
    ensures
        exists|i: int|
            0 <= i < r.len() && (#[trigger] r[i]).rule == Rule::FrontmatterFieldMissing && r[i].message@
                == "Required frontmatter field `"@ + field + "` is missing."@ && r[i].severity
                == Severity::Error && r[i].file@ == file,
{
    let required = views(policy.required@);
    let keys = policy.field_max_chars.keys();
    let limits = policy.field_max_chars.values();
    let reports = frontmatter_reports(required, keys, limits, frontmatter_of(source));
    assert(required.len() > 0);
    let j = match frontmatter_of(source) {
        FrontmatterView::Valid(es) => {
            let present = |f: Seq<char>| value_for(es, f) is Some;
            lemma_value_for_absent(es, field);
            lemma_missing_field_listed(required, present, field);
            let j = choose|j: int|
                0 <= j < missing_fields(required, present).len() && #[trigger] missing_fields(
                    required,
                    present,
                )[j] == (Rule::FrontmatterFieldMissing, missing_field_message(field));
            assert(reports[j] == missing_fields(required, present)[j]);
            j
        },
        _ => {
            let present = |f: Seq<char>| false;
            lemma_missing_field_listed(required, present, field);
            let j = choose|j: int|
                0 <= j < missing_fields(required, present).len() && #[trigger] missing_fields(
                    required,
                    present,
                )[j] == (Rule::FrontmatterFieldMissing, missing_field_message(field));
            j
        },
    };
    assert(plain_error(r[j], file, reports[j]));
}

/// A frontmatter finding: an error without a fix or a position.
pub open spec fn plain_error(f: Finding, file: Seq<char>, report: (Rule, Seq<char>)) -> bool {
    &&& f.file@ == file
    &&& f.position is None
    &&& f.rule == report.0
    &&& f.message@ == report.1
    &&& !f.fixable
    &&& f.severity == Severity::Error
    &&& f.edit is None
}

fn plain_finding(file: &str, rule: Rule, message: Vec<char>) -> (f: Finding)
    ensures
        plain_error(f, file@, (rule, message@)),
{
    Finding {
        file: String::from_str(file),
        position: None,
        rule,
        message: string_from_chars(message.as_slice()),
        fixable: false,
        severity: Severity::Error,
        edit: None,
    }
}

fn missing_message_chars(field: &str) -> (m: Vec<char>)
    ensures
        m@ == missing_field_message(field@),
{
    let mut m: Vec<char> = Vec::new();
    push_str(&mut m, "Required frontmatter field `");
    push_str(&mut m, field);
    push_str(&mut m, "` is missing.");
    assert(m@ =~= missing_field_message(field@));
    m
}

/// The findings of the frontmatter rules for `file` with text `source`,
/// under the frontmatter policy of the configuration for that path.
pub fn evaluate_frontmatter_rules(config: &Config, file: &str, source: &str) -> (r: Vec<Finding>)
    requires
        config.wf(),
        fits_root(config.spec_repository_root(), file@),
    ensures
        exists|policy: EffectiveFrontmatterPolicy|
            #![trigger crate::config::frontmatter_model(policy)]
            crate::config::frontmatter_model(policy) == frontmatter_policy_for(
                config.frontmatter_rules(),
                file@,
            ) && policy.field_max_chars.wf() && frontmatter_findings_match(r@, file@, policy, source@),
{
    let policy = config.frontmatter_policy_for_path(file);
    let ghost keys = policy.field_max_chars.keys();
    let ghost limits = policy.field_max_chars.values();
    let ghost required = views(policy.required@);
    let ghost fm = frontmatter_of(source@);
    let ghost reports = frontmatter_reports(required, keys, limits, fm);
    let mut findings: Vec<Finding> = Vec::new();
    if policy.required.len() == 0 && policy.field_max_chars.is_empty() {
        assert(keys.len() == 0) by {
            if keys.len() > 0 {
                assert(policy.field_max_chars.as_map().contains_key(keys[0]));
            }
        }
        assert(reports =~= Seq::<(Rule, Seq<char>)>::empty());
        return findings;
    }
    assert(!(required.len() == 0 && keys.len() == 0)) by {
        if keys.len() == 0 {
            assert(policy.field_max_chars.as_map() =~= Map::<Seq<char>, usize>::empty());
        }
    }
    let parsed = parse_from_str(source);
    match parsed {
        FrontmatterParseResult::Absent => {
            let ghost present = |f: Seq<char>| false;
            let mut i: usize = 0;
            while i < policy.required.len()
                invariant
                    i <= policy.required@.len(),
                    required == views(policy.required@),
                    present == (|f: Seq<char>| false),
                    findings@.len() == missing_fields(required.take(i as int), present).len(),
                    forall|j: int| 0 <= j < findings@.len() ==> plain_error(#[trigger] findings@[j], file@, missing_fields(required.take(i as int), present)[j]),
                decreases policy.required@.len() - i,
            {
                assert(required.take(i + 1).drop_last() =~= required.take(i as int));
                assert(required.take(i + 1).last() == policy.required@[i as int]@);
                let ghost before = missing_fields(required.take(i as int), present);
                let ghost fb = findings@;
                let m = missing_message_chars(policy.required[i].as_str());
                findings.push(plain_finding(file, Rule::FrontmatterFieldMissing, m));
                assert(!present(policy.required@[i as int]@));
                assert(missing_fields(required.take(i + 1), present) == before.push(
                    (Rule::FrontmatterFieldMissing, missing_field_message(policy.required@[i as int]@)),
                ));
                assert forall|j: int| 0 <= j < findings@.len() implies plain_error(#[trigger] findings@[j], file@, missing_fields(required.take(i + 1), present)[j]) by {
                    if j < fb.len() {
                        assert(findings@[j] == fb[j]);
                    }
                }
                i += 1;
            }
            assert(required.take(required.len() as int) =~= required);
        },
        FrontmatterParseResult::Malformed { line } => {
            let mut m: Vec<char> = Vec::new();
            push_str(&mut m, "Frontmatter block is malformed or uses unsupported YAML constructs (line ");
            push_decimal(&mut m, line);
            push_str(&mut m, ").");
            assert(m@ =~= malformed_message(line as nat));
            findings.push(plain_finding(file, Rule::FrontmatterMalformed, m));
        },
        FrontmatterParseResult::Valid(fm_exec) => {
            let ghost es = entry_views(fm_exec.entries@);
            let ghost present = |f: Seq<char>| value_for(es, f) is Some;
            let mut i: usize = 0;
            while i < policy.required.len()
                invariant
                    i <= policy.required@.len(),
                    required == views(policy.required@),
                    es == entry_views(fm_exec.entries@),
                    present == (|f: Seq<char>| value_for(es, f) is Some),
                    findings@.len() == missing_fields(required.take(i as int), present).len(),
                    forall|j: int| 0 <= j < findings@.len() ==> plain_error(#[trigger] findings@[j], file@, missing_fields(required.take(i as int), present)[j]),
                decreases policy.required@.len() - i,
            {
                assert(required.take(i + 1).drop_last() =~= required.take(i as int));
                let field = &policy.required[i];
                assert(required.take(i + 1).last() == field@);
                let ghost before = missing_fields(required.take(i as int), present);
                let ghost fb = findings@;
                let key_present = fm_exec.has_key(field.as_str());
                assert(present(field@) == key_present);
                if !key_present {
                    let m = missing_message_chars(field.as_str());
                    findings.push(plain_finding(file, Rule::FrontmatterFieldMissing, m));
                    assert(missing_fields(required.take(i + 1), present) == before.push(
                        (Rule::FrontmatterFieldMissing, missing_field_message(field@)),
                    ));
                } else {
                    assert(missing_fields(required.take(i + 1), present) =~= before);
                }
                assert forall|j: int| 0 <= j < findings@.len() implies plain_error(#[trigger] findings@[j], file@, missing_fields(required.take(i + 1), present)[j]) by {
                    if j < fb.len() {
                        assert(findings@[j] == fb[j]);
                    }
                }
                i += 1;
            }
            assert(required.take(required.len() as int) =~= required);
            let ghost missing = missing_fields(required, present);
            proof {
                policy.field_max_chars.lemma_lengths();
            }
            let mut k: usize = 0;
            while k < policy.field_max_chars.len()
                invariant
                    k <= keys.len(),
                    policy.field_max_chars.wf(),
                    keys == policy.field_max_chars.keys(),
                    limits == policy.field_max_chars.values(),
                    keys.len() == limits.len(),
                    es == entry_views(fm_exec.entries@),
                    findings@.len() == missing.len() + long_fields(keys.take(k as int), limits, es).len(),
                    forall|j: int| 0 <= j < findings@.len() ==> plain_error(#[trigger] findings@[j], file@, (missing + long_fields(keys.take(k as int), limits, es))[j]),
                decreases keys.len() - k,
            {
                let (field, max_chars) = policy.field_max_chars.entry(k);
                assert(keys.take(k + 1).drop_last() =~= keys.take(k as int));
                assert(keys.take(k + 1)[k as int] == keys[k as int]);
                let ghost lb = long_fields(keys.take(k as int), limits, es);
                let ghost fb = findings@;
                let ghost la = long_fields(keys.take(k + 1), limits, es);
                assert(missing + la == (missing + lb) + (la.subrange(lb.len() as int, la.len() as int))) by {
                    assert(la == lb + la.subrange(lb.len() as int, la.len() as int));
                }
                match fm_exec.scalar_char_count(field.as_str()) {
                    Some(count) => {
                        if count > max_chars {
                            let mut m: Vec<char> = Vec::new();
                            push_str(&mut m, "Frontmatter field `");
                            push_str(&mut m, field.as_str());
                            push_str(&mut m, "` has ");
                            push_decimal(&mut m, count);
                            push_str(&mut m, " characters, which exceeds configured max-chars = ");
                            push_decimal(&mut m, max_chars);
                            push_str(&mut m, ".");
                            assert(m@ =~= max_chars_message(field@, count as nat, max_chars as nat));
                            findings.push(plain_finding(file, Rule::FrontmatterFieldMaxChars, m));
                        }
                    },
                    None => {},
                }
                assert forall|j: int| 0 <= j < findings@.len() implies plain_error(#[trigger] findings@[j], file@, (missing + la)[j]) by {
                    if j < fb.len() {
                        assert(findings@[j] == fb[j]);
                        assert((missing + la)[j] == (missing + lb)[j]);
                    }
                }
                k += 1;
            }
            assert(keys.take(keys.len() as int) =~= keys);
        },
    }
    assert(frontmatter_findings_match(findings@, file@, policy, source@));
    findings
}

// ---------------------------------------------------------------------------
// Fixes
// ---------------------------------------------------------------------------
/// Whether every edit lies within `source` and at character boundaries.
pub fn edits_fit_source(source: &str, edits: &Vec<Edit>) -> (r: bool)
    requires
        crate::edits::bytes_of(source@).len() <= usize::MAX,
    ensures
        r == crate::edits::edits_fit(source@, crate::edits::edit_views(edits@)),
{
    let len = source.len();
    let ghost b = crate::edits::bytes_of(source@);
    let ghost ev = crate::edits::edit_views(edits@);
    let mut k: usize = 0;
    while k < edits.len()
        invariant
            k <= edits@.len(),
            ev == crate::edits::edit_views(edits@),
            b == crate::edits::bytes_of(source@),
            len == b.len(),
            forall|j: int|
                0 <= j < k ==> {
                    &&& 0 <= (#[trigger] ev[j]).0 <= ev[j].1 <= b.len()
                    &&& vstd::utf8::is_char_boundary(b, ev[j].0)
                    &&& vstd::utf8::is_char_boundary(b, ev[j].1)
                },
        decreases edits@.len() - k,
    {
        let e = &edits[k];
        assert(ev[k as int] == crate::edits::edit_view(*e));
        if !(e.start_offset <= e.end_offset && e.end_offset <= len && source.is_char_boundary(
            e.start_offset,
        ) && source.is_char_boundary(e.end_offset)) {
            return false;
        }
        k += 1;
    }
    true
}

/// What fixing `source` with `edits` gives: no new text without edits; an
/// error when an edit falls outside the text or two edits overlap; else
/// the text with the edits spliced in, latest start first, or none when
/// that is the text as it was.
pub open spec fn fix_outcome(
    source: Seq<char>,
    edits: Seq<(int, int, Seq<char>)>,
    r: Result<Option<String>, String>,
) -> bool {
    &&& edits.len() == 0 ==> r == Ok::<Option<String>, String>(None)
    &&& edits.len() > 0 && !edits_fit(source, edits) ==> r is Err
    &&& edits.len() > 0 && edits_fit(source, edits) ==> match first_overlap(sorted_desc(edits)) {
        Some(k) => r is Err && r->Err_0@ == overlap_message(
            "fix"@,
            sorted_desc(edits)[k + 1],
            sorted_desc(edits)[k],
        ),
        None => r is Ok && match r->Ok_0 {
            Some(t) => bytes_of(t@) == spliced(bytes_of(source), sorted_desc(edits)) && t@ != source,
            None => spliced(bytes_of(source), sorted_desc(edits)) == bytes_of(source),
        },
    }
}

/// The text of a file after its fixes: none when there is no edit or the
/// edits leave the text as it was; an error when two edits overlap or an
/// edit falls outside the text.
pub fn fix_text(source: &str, edits: &Vec<Edit>) -> (r: Result<Option<String>, String>)
    requires
        crate::edits::bytes_of(source@).len() <= usize::MAX,
    ensures
        fix_outcome(source@, crate::edits::edit_views(edits@), r),
{
    if edits.len() == 0 {
        return Ok(None);
    }
    if !edits_fit_source(source, edits) {
        return Err(String::from_str("fix edits fall outside the text"));
    }
    match crate::edits::apply_edits_named(source, edits, "fix") {
        Err(e) => Err(e),
        Ok(rewritten) => {
            if crate::text::str_eq(rewritten.as_str(), source) {
                Ok(None)
            } else {
                Ok(Some(rewritten))
            }
        },
    }
}

// ---------------------------------------------------------------------------
// One file
// ---------------------------------------------------------------------------
/// What linting one file gives: its diagnostics, and in a fix run the new
/// text when the fixes change it.
pub struct LintOutcome {
    pub diagnostics: Vec<Diagnostic>,
    pub rewritten: Option<String>,
}

/// The findings of one file in the order they are reported: those of the
/// budget rules (`a`), of the frontmatter rules under the file's
/// frontmatter policy (`b`), then of each reference decided with its probe
/// (`os`).
pub open spec fn findings_in_parts(
    config: Config,
    policy: EffectiveRulePolicy,
    file: Seq<char>,
    source: Seq<char>,
    references: Seq<LocalReference>,
    probes: Seq<TargetProbe>,
    a: Seq<Finding>,
    b: Seq<Finding>,
    fp: EffectiveFrontmatterPolicy,
    os: Seq<Option<Finding>>,
    fs: Seq<Finding>,
) -> bool {
    &&& file_findings_match(a, file, source, policy.max_tokens, policy.max_lines)
    &&& crate::config::frontmatter_model(fp) == frontmatter_policy_for(config.frontmatter_rules(), file)
    &&& fp.field_max_chars.wf()
    &&& frontmatter_findings_match(b, file, fp, source)
    &&& os.len() == references.len()
    &&& forall|k: int|
        0 <= k < os.len() ==> decision_matches(policy, file, references[k], probes[k], #[trigger] os[k])
    &&& fs == a + b + somes(os)
}

/// The outcome of a run over findings `fs`: the findings whose rule is
/// not ignored, each reported; in a fix run, the text that their edits
/// give, or the error of those edits.
pub open spec fn outcome_matches(
    fs: Seq<Finding>,
    ignored: Set<Rule>,
    mode: Mode,
    source: Seq<char>,
    r: Result<LintOutcome, String>,
) -> bool {
    let kept = kept_findings(fs, ignored);
    match r {
        Ok(o) => {
            &&& o.diagnostics@.len() == kept.len()
            &&& forall|k: int| 0 <= k < kept.len() ==> reported(#[trigger] kept[k], o.diagnostics@[k])
            &&& mode == Mode::Check ==> o.rewritten is None
            &&& mode == Mode::Fix ==> fix_outcome(
                source,
                kept_edits(fs, ignored, mode),
                Ok::<Option<String>, String>(o.rewritten),
            )
        },
        Err(e) => mode == Mode::Fix && fix_outcome(
            source,
            kept_edits(fs, ignored, mode),
            Err::<Option<String>, String>(e),
        ),
    }
}

/// Lints the file at repository-relative path `file` with text `source`:
/// the budget rules, the frontmatter rules, then the references that were
/// collected from its tree, each with what the file system said of its
/// target.  A fix run also applies the fixes of the reported findings.
pub fn lint_source(
    config: &Config,
    file: &str,
    source: &str,
    references: &Vec<LocalReference>,
    probes: &Vec<TargetProbe>,
    mode: Mode,
) -> (r: Result<LintOutcome, String>)
    requires
        config.wf(),
        fits_root(config.spec_repository_root(), file@),
        probes@.len() == references@.len(),
        bytes_of(source@).len() <= usize::MAX,
    ensures
        exists|
            policy: EffectiveRulePolicy,
            a: Seq<Finding>,
            b: Seq<Finding>,
            fp: EffectiveFrontmatterPolicy,
            os: Seq<Option<Finding>>,
            fs: Seq<Finding>,
        |
            #![trigger findings_in_parts(*config, policy, file@, source@, references@, probes@, a, b, fp, os, fs)]
            policy_model(policy) == rule_policy_for(config.applications(), file@)
                && findings_in_parts(
                *config,
                policy,
                file@,
                source@,
                references@,
                probes@,
                a,
                b,
                fp,
                os,
                fs,
            ) && outcome_matches(fs, policy.ignored_rules@.to_set(), mode, source@, r),
{
    let policy = config.effective_rule_policy_for_path(file);
    let mut all = evaluate_file_rules(&policy, file, source);
    let ghost a = all@;
    let mut fm = evaluate_frontmatter_rules(config, file, source);
    let ghost b = fm@;
    let ghost fp = choose|fp: EffectiveFrontmatterPolicy|
        #![trigger crate::config::frontmatter_model(fp)]
        crate::config::frontmatter_model(fp) == frontmatter_policy_for(config.frontmatter_rules(), file@)
            && fp.field_max_chars.wf() && frontmatter_findings_match(b, file@, fp, source@);
    all.append(&mut fm);
    let mut refs = reference_findings(&policy, file, references, probes);
    let ghost os = choose|os: Seq<Option<Finding>>|
        #![trigger somes(os)]
        os.len() == references@.len() && (forall|k: int|
            0 <= k < os.len() ==> decision_matches(
                policy,
                file@,
                references@[k],
                probes@[k],
                #[trigger] os[k],
            )) && refs@ == somes(os);
    all.append(&mut refs);
    let ghost fs = all@;
    assert(fs =~= a + b + somes(os));
    assert(findings_in_parts(*config, policy, file@, source@, references@, probes@, a, b, fp, os, fs));
    let mut diagnostics: Vec<Diagnostic> = Vec::new();
    let mut edits: Vec<Edit> = Vec::new();
    let ghost ignored = policy.ignored_rules@.to_set();
    emit_findings(&mut diagnostics, &mut edits, &policy, mode, all);
    assert(crate::edits::edit_views(edits@) =~= kept_edits(fs, ignored, mode));
    let rewritten = if mode == Mode::Fix {
        match fix_text(source, &edits) {
            Ok(t) => t,
            Err(e) => {
                assert(outcome_matches(fs, ignored, mode, source@, Err::<LintOutcome, String>(e)));
                return Err(e);
            },
        }
    } else {
        None
    };
    let outcome = LintOutcome { diagnostics, rewritten };
    assert(outcome_matches(fs, ignored, mode, source@, Ok::<LintOutcome, String>(outcome)));
    Ok(outcome)
}

// ---------------------------------------------------------------------------
// Laws of reporting
// ---------------------------------------------------------------------------
/// A rule that the policy switches off is never reported.
pub proof fn lemma_ignored_rules_never_reported(findings: Seq<Finding>, ignored: Set<Rule>)
    ensures
        forall|k: int|
            0 <= k < kept_findings(findings, ignored).len() ==> !ignored.contains(
                #[trigger] kept_findings(findings, ignored)[k].rule,
            ),
    decreases findings.len(),
{
    if findings.len() > 0 {
        lemma_ignored_rules_never_reported(findings.drop_last(), ignored);
        let prev = kept_findings(findings.drop_last(), ignored);
        let all = kept_findings(findings, ignored);
        assert forall|k: int| 0 <= k < all.len() implies !ignored.contains(#[trigger] all[k].rule) by {
            if k < prev.len() {
                assert(all[k] == prev[k]);
            }
        }
    }
}

/// A check run changes no file: it collects no edit.
pub proof fn lemma_check_collects_no_edits(findings: Seq<Finding>, ignored: Set<Rule>)
    ensures
        kept_edits(findings, ignored, Mode::Check) == Seq::<(int, int, Seq<char>)>::empty(),
    decreases findings.len(),
{
    if findings.len() > 0 {
        lemma_check_collects_no_edits(findings.drop_last(), ignored);
    }
}

} // verus!
