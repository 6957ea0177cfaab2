//! The local-path rules: inline code and links that name repository
//! paths are found in the Markdown tree and resolved; whether their targets
//! exist is asked of the file system by the caller, and the answers decide
//! the findings.
use vstd::prelude::*;

use github_slugger::Slugger;

use crate::config::{Config, EffectiveRulePolicy, Rule};
use crate::diagnostics::Severity;
use crate::edits::Edit;
use crate::gfm::{gfm_tree, parse_markdown};
use crate::lint::{edit_from_position, Finding};
use crate::markdown::{is_parent, label_of_nodes, label_text, spec_is_parent, MarkdownNode, NodeKind, SourcePosition};
use crate::paths::{extension, file_name, spec_extension, spec_file_name};
use crate::references::{
    candidate_matches, classify_inline_reference, classify_link_reference, is_external,
    render_link_destination, resolve_candidate, spec_classify, spec_is_external,
    spec_render_link_destination, spec_resolve, CandidateReference, ReferenceKind,
    ResolvedReference,
};
use crate::text::{chars_of, decimal, push_str, spec_trim, string_from_chars, trim};

verus! {

broadcast use vstd::seq_lib::group_seq_properties;

// ---------------------------------------------------------------------------
// Finding the references
// ---------------------------------------------------------------------------
/// A reference found in the tree, classified and resolved, with the label
/// of its link.
pub struct LocalReference {
    pub kind: ReferenceKind,
    pub candidate: CandidateReference,
    pub resolved: ResolvedReference,
    pub position: Option<SourcePosition>,
    pub label: String,
}

/// The value of a node as a reference: the trimmed code of inline code,
/// the trimmed destination of a link that is not a URL.
pub open spec fn node_reference_value(node: MarkdownNode) -> Option<(ReferenceKind, Seq<char>)> {
    if node.kind == NodeKind::InlineCode {
        Some((ReferenceKind::Backtick, spec_trim(node.value@)))
    } else if node.kind == NodeKind::Link && !spec_is_external(spec_trim(node.value@)) {
        Some((ReferenceKind::Link, spec_trim(node.value@)))
    } else {
        None
    }
}

/// The node names a repository path that resolves.
pub open spec fn node_is_reference(config: Config, file: Seq<char>, node: MarkdownNode) -> bool {
    match node_reference_value(node) {
        Some((kind, value)) => match spec_classify(
            config.spec_known_extensions().members(),
            config.spec_special_filenames().members(),
            value,
            kind,
        ) {
            Some(syntax) => spec_resolve(
                file,
                crate::references::spec_link_path_text(value, kind),
                syntax,
                kind,
            ) is Some,
            None => false,
        },
        None => false,
    }
}

/// The nodes whose references are checked, in document order: every node
/// of the tree, but not the contents of links.
pub open spec fn checked_nodes(nodes: Seq<MarkdownNode>) -> Seq<MarkdownNode>
    decreases nodes,
{
    if nodes.len() == 0 {
        seq![]
    } else {
        checked_nodes(nodes.drop_last()) + checked_from(nodes.last())
    }
}

pub open spec fn checked_from(node: MarkdownNode) -> Seq<MarkdownNode>
    decreases node,
{
    if node.kind != NodeKind::Link && spec_is_parent(node.kind) {
        seq![node] + checked_nodes(node.children@)
    } else {
        seq![node]
    }
}

/// The references among the checked nodes.
pub open spec fn references_of(config: Config, file: Seq<char>, nodes: Seq<MarkdownNode>) -> Seq<
    MarkdownNode,
>
    decreases nodes.len(),
{
    if nodes.len() == 0 {
        seq![]
    } else {
        references_of(config, file, nodes.drop_last()) + if node_is_reference(
            config,
            file,
            nodes.last(),
        ) {
            seq![nodes.last()]
        } else {
            seq![]
        }
    }
}

/// A reference found in `node`.
pub open spec fn reference_from(config: Config, file: Seq<char>, r: LocalReference, node: MarkdownNode) -> bool {
    let (kind, value) = node_reference_value(node)->0;
    let syntax = spec_classify(
        config.spec_known_extensions().members(),
        config.spec_special_filenames().members(),
        value,
        kind,
    )->0;
    &&& r.kind == kind
    &&& candidate_matches(r.candidate, value, syntax, kind)
    &&& Some(r.resolved.repo_relative_path@) == spec_resolve(
        file,
        crate::references::spec_link_path_text(value, kind),
        syntax,
        kind,
    )
    &&& r.position == node.position
    &&& (kind == ReferenceKind::Link ==> r.label@ == label_of_nodes(node.children@))
}

fn reference_of_node(config: &Config, file: &str, node: &MarkdownNode) -> (r: Option<LocalReference>)
    requires
        config.wf(),
    ensures
        r is Some <==> node_is_reference(*config, file@, *node),
        r matches Some(lr) ==> reference_from(*config, file@, lr, *node),
{
    let kind = if node.kind == NodeKind::InlineCode {
        ReferenceKind::Backtick
    } else if node.kind == NodeKind::Link {
        ReferenceKind::Link
    } else {
        return None;
    };
    let value_chars = trim(chars_of(node.value.as_str()).as_slice());
    let value = string_from_chars(value_chars.as_slice());
    if kind == ReferenceKind::Link && is_external(value.as_str()) {
        return None;
    }
    let candidate = match kind {
        ReferenceKind::Backtick => classify_inline_reference(config, value.as_str()),
        ReferenceKind::Link => classify_link_reference(config, value.as_str()),
    };
    match candidate {
        None => None,
        Some(candidate) => match resolve_candidate(file, &candidate, kind) {
            None => None,
            Some(resolved) => {
                let label = if kind == ReferenceKind::Link {
                    label_text(&node.children)
                } else {
                    String::new()
                };
                Some(LocalReference { kind, candidate, resolved, position: node.position, label })
            },
        },
    }
}

/// `after` is `before` with a reference for each of `nodes` appended.
pub open spec fn appended(
    config: Config,
    file: Seq<char>,
    before: Seq<LocalReference>,
    after: Seq<LocalReference>,
    nodes: Seq<MarkdownNode>,
) -> bool {
    &&& after.len() == before.len() + nodes.len()
    &&& after.take(before.len() as int) == before
    &&& forall|k: int|
        0 <= k < nodes.len() ==> reference_from(config, file, after[before.len() + k], #[trigger] nodes[k])
}

proof fn lemma_appended_trans(
    config: Config,
    file: Seq<char>,
    a: Seq<LocalReference>,
    b: Seq<LocalReference>,
    c: Seq<LocalReference>,
    x: Seq<MarkdownNode>,
    y: Seq<MarkdownNode>,
)
    requires
        appended(config, file, a, b, x),
        appended(config, file, b, c, y),
    ensures
        appended(config, file, a, c, x + y),
{
    assert(c.take(a.len() as int) =~= a) by {
        assert forall|k: int| 0 <= k < a.len() implies c[k] == a[k] by {
            assert(c[k] == c.take(b.len() as int)[k]);
            assert(b[k] == b.take(a.len() as int)[k]);
        }
    }
    assert forall|k: int| 0 <= k < (x + y).len() implies reference_from(
        config,
        file,
        c[a.len() + k],
        #[trigger] (x + y)[k],
    ) by {
        if k < x.len() {
            assert((x + y)[k] == x[k]);
            assert(c[a.len() + k] == c.take(b.len() as int)[a.len() + k]);
        } else {
            assert((x + y)[k] == y[k - x.len()]);
        }
    }
}

proof fn lemma_references_concat(config: Config, file: Seq<char>, a: Seq<MarkdownNode>, b: Seq<MarkdownNode>)
    ensures
        references_of(config, file, a + b) == references_of(config, file, a) + references_of(
            config,
            file,
            b,
        ),
    decreases b.len(),
{
    if b.len() == 0 {
        assert(a + b =~= a);
        assert(references_of(config, file, b) =~= Seq::<MarkdownNode>::empty());
    } else {
        assert((a + b).drop_last() =~= a + b.drop_last());
        assert((a + b).last() == b.last());
        lemma_references_concat(config, file, a, b.drop_last());
    }
}

fn collect_from_node(config: &Config, file: &str, node: &MarkdownNode, out: &mut Vec<LocalReference>)
    requires
        config.wf(),
    ensures
        appended(*config, file@, old(out)@, final(out)@, references_of(*config, file@, checked_from(*node))),
    decreases *node,
{
    let ghost o0 = out@;
    let ghost one = seq![*node];
    match reference_of_node(config, file, node) {
        Some(r) => {
            out.push(r);
        },
        None => {},
    }
    proof {
        assert(one.drop_last() =~= Seq::<MarkdownNode>::empty());
        assert(references_of(*config, file@, Seq::<MarkdownNode>::empty()) == Seq::<MarkdownNode>::empty());
        assert(appended(*config, file@, o0, out@, references_of(*config, file@, one))) by {
            assert(out@.take(o0.len() as int) =~= o0);
        }
    }
    let ghost o1 = out@;
    if node.kind != NodeKind::Link && is_parent(node.kind) {
        assert(decreases_to!(*node => node.children@)) by {
            assert(decreases_to!(*node => node.children));
            assert(decreases_to!(node.children => node.children@));
        }
        collect_in_nodes(config, file, &node.children, out);
        proof {
            lemma_appended_trans(*config, file@, o0, o1, out@, references_of(*config, file@, one),
                references_of(*config, file@, checked_nodes(node.children@)));
            lemma_references_concat(*config, file@, one, checked_nodes(node.children@));
        }
    } else {
        assert(checked_from(*node) == one);
    }
}

fn collect_in_nodes(config: &Config, file: &str, nodes: &Vec<MarkdownNode>, out: &mut Vec<LocalReference>)
    requires
        config.wf(),
    ensures
        appended(*config, file@, old(out)@, final(out)@, references_of(*config, file@, checked_nodes(nodes@))),
    decreases nodes@,
{
    let ghost o0 = out@;
    let mut i: usize = 0;
    assert(nodes@.take(0) =~= Seq::<MarkdownNode>::empty());
    assert(appended(*config, file@, o0, out@, Seq::<MarkdownNode>::empty())) by {
        assert(out@.take(o0.len() as int) =~= o0);
    }
    while i < nodes.len()
        invariant
            config.wf(),
            i <= nodes@.len(),
            appended(*config, file@, o0, out@, references_of(*config, file@, checked_nodes(nodes@.take(i as int)))),
        decreases nodes@.len() - i,
    {
        let node = &nodes[i];
        assert(nodes@.take(i + 1).drop_last() =~= nodes@.take(i as int));
        assert(nodes@.take(i + 1).last() == *node);
        let ghost ob = out@;
        assert(decreases_to!(nodes@ => *node)) by {
            assert(decreases_to!(nodes@ => nodes@[i as int]));
        }
        collect_from_node(config, file, node, out);
        proof {
            let before = checked_nodes(nodes@.take(i as int));
            let here = checked_from(*node);
            assert(checked_nodes(nodes@.take(i + 1)) == before + here);
            lemma_references_concat(*config, file@, before, here);
            lemma_appended_trans(*config, file@, o0, ob, out@, references_of(*config, file@, before), references_of(*config, file@, here));
        }
        i += 1;
    }
    assert(nodes@.take(nodes@.len() as int) =~= nodes@);
}

/// The references in a Markdown tree, in document order; the contents of
/// links are not searched.
pub fn collect_references(config: &Config, file: &str, tree: &MarkdownNode) -> (r: Vec<LocalReference>)
    requires
        config.wf(),
    ensures
        appended(*config, file@, Seq::empty(), r@, references_of(*config, file@, checked_from(*tree))),
{
    let mut out: Vec<LocalReference> = Vec::new();
    collect_from_node(config, file, tree, &mut out);
    out
}

// ---------------------------------------------------------------------------
// Findings
// ---------------------------------------------------------------------------
/// `Local repository path `<display>` does not resolve within the repository.`
pub open spec fn unresolved_path_message(display: Seq<char>) -> Seq<char> {
    "Local repository path `"@ + display + "` does not resolve within the repository."@
}

/// `Local repository path `<display>` should use Markdown link syntax.`
pub open spec fn prefer_link_message(display: Seq<char>) -> Seq<char> {
    "Local repository path `"@ + display + "` should use Markdown link syntax."@
}

/// `Local repository link `[<label>](<display>)` does not resolve within the repository.`
pub open spec fn unresolved_link_message(label: Seq<char>, display: Seq<char>) -> Seq<char> {
    "Local repository link `["@ + label + "]("@ + display + ")` does not resolve within the repository."@
}

/// The link that replaces inline code: `[<display>](<destination>)`.
pub open spec fn link_markup(display: Seq<char>, destination: Seq<char>) -> Seq<char> {
    "["@ + display + "]("@ + destination + ")"@
}

/// What inline code that names a repository path gives: nothing for a
/// missing directory-like path; for another missing path the
/// unresolved-path finding when that rule is on; for an existing path the
/// prefer-links finding, with its fix, when that rule is on.
pub open spec fn inline_finding_matches(
    policy: EffectiveRulePolicy,
    file: Seq<char>,
    r: LocalReference,
    present: bool,
    is_dir: bool,
    f: Option<Finding>,
) -> bool {
    let display = r.candidate.display_text@;
    if !present && r.candidate.is_directory_like {
        f is None
    } else if !present {
        match policy.backtick_path_severity {
            Some(severity) => f matches Some(x) && x.file@ == file && x.position == r.position
                && x.rule == Rule::UnresolvedBacktickPath && x.message@ == unresolved_path_message(
                display,
            ) && !x.fixable && x.severity == severity && x.edit is None,
            None => f is None,
        }
    } else if policy.prefer_links_for_local_paths {
        let destination = spec_render_link_destination(
            file,
            r.candidate.syntax,
            r.resolved.repo_relative_path@,
            is_dir,
        );
        f matches Some(x) && x.file@ == file && x.position == r.position && x.rule
            == Rule::PreferLinksForLocalPaths && x.message@ == prefer_link_message(display)
            && x.fixable && x.severity == Severity::Error && match r.position {
            Some(p) => x.edit matches Some(e) && e.start_offset == p.start_offset && e.end_offset
                == p.end_offset && e.replacement@ == link_markup(display, destination),
            None => x.edit is None,
        }
    } else {
        f is None
    }
}

/// Decides the finding of inline code, given whether its target exists
/// and is a directory.
pub fn inline_code_finding(
    policy: &EffectiveRulePolicy,
    file: &str,
    r: &LocalReference,
    present: bool,
    is_dir: bool,
) -> (f: Option<Finding>)
    ensures
        inline_finding_matches(*policy, file@, *r, present, is_dir, f),
{
    if !present && r.candidate.is_directory_like {
        return None;
    }
    if !present {
        return match policy.backtick_path_severity {
            Some(severity) => {
                let mut msg: Vec<char> = Vec::new();
                push_str(&mut msg, "Local repository path `");
                push_str(&mut msg, r.candidate.display_text.as_str());
                push_str(&mut msg, "` does not resolve within the repository.");
                assert(msg@ =~= unresolved_path_message(r.candidate.display_text@));
                Some(
                    Finding {
                        file: String::from_str(file),
                        position: r.position,
                        rule: Rule::UnresolvedBacktickPath,
                        message: string_from_chars(msg.as_slice()),
                        fixable: false,
                        severity,
                        edit: None,
                    },
                )
            },
            None => None,
        };
    }
    if policy.prefer_links_for_local_paths {
        let destination = render_link_destination(file, &r.candidate, &r.resolved, is_dir);
        let mut msg: Vec<char> = Vec::new();
        push_str(&mut msg, "Local repository path `");
        push_str(&mut msg, r.candidate.display_text.as_str());
        push_str(&mut msg, "` should use Markdown link syntax.");
        assert(msg@ =~= prefer_link_message(r.candidate.display_text@));
        let mut markup: Vec<char> = Vec::new();
        push_str(&mut markup, "[");
        push_str(&mut markup, r.candidate.display_text.as_str());
        push_str(&mut markup, "](");
        push_str(&mut markup, destination.as_str());
        push_str(&mut markup, ")");
        assert(markup@ =~= link_markup(r.candidate.display_text@, destination@));
        let edit = edit_from_position(r.position, string_from_chars(markup.as_slice()));
        return Some(
            Finding {
                file: String::from_str(file),
                position: r.position,
                rule: Rule::PreferLinksForLocalPaths,
                message: string_from_chars(msg.as_slice()),
                fixable: true,
                severity: Severity::Error,
                edit,
            },
        );
    }
    None
}

/// What a link that names a repository path gives: nothing for a missing
/// directory-like path, else the unresolved-link finding when the target
/// or its anchor is missing.
pub open spec fn link_finding_matches(
    file: Seq<char>,
    r: LocalReference,
    present: bool,
    anchor_present: bool,
    f: Option<Finding>,
) -> bool {
    if !present && r.candidate.is_directory_like {
        f is None
    } else if !present || !anchor_present {
        f matches Some(x) && x.file@ == file && x.position == r.position && x.rule
            == Rule::UnresolvedLinkPath && x.message@ == unresolved_link_message(
            r.label@,
            r.candidate.display_text@,
        ) && !x.fixable && x.severity == Severity::Error && x.edit is None
    } else {
        f is None
    }
}

/// A link passes only when its target exists and holds its anchor: a link
/// to an existing file whose anchor is missing, like one to a missing file
/// that is not directory-like, is reported as an unresolved link, an error
/// that names the link; a missing directory-like target is let pass.
pub proof fn lemma_link_decision(
    file: Seq<char>,
    r: LocalReference,
    present: bool,
    anchor_present: bool,
    f: Option<Finding>,
)
    requires
        link_finding_matches(file, r, present, anchor_present, f),
    ensures
        f is None <==> (present && anchor_present) || (!present && r.candidate.is_directory_like),
        (present && !anchor_present) || (!present && !r.candidate.is_directory_like) ==> (f matches Some(
            x,
        ) && x.rule == Rule::UnresolvedLinkPath && x.severity == Severity::Error && !x.fixable
            && x.file@ == file && x.message@ == "Local repository link `["@ + r.label@ + "]("@
            + r.candidate.display_text@ + ")` does not resolve within the repository."@),
{
}

/// Decides the finding of a link, given whether its target exists and
/// holds its anchor.
pub fn link_finding(file: &str, r: &LocalReference, present: bool, anchor_present: bool) -> (f: Option<
    Finding,
>)
    ensures
        link_finding_matches(file@, *r, present, anchor_present, f),
{
    if !present && r.candidate.is_directory_like {
        return None;
    }
    if !present || !anchor_present {
        let mut msg: Vec<char> = Vec::new();
        push_str(&mut msg, "Local repository link `[");
        push_str(&mut msg, r.label.as_str());
        push_str(&mut msg, "](");
        push_str(&mut msg, r.candidate.display_text.as_str());
        push_str(&mut msg, ")` does not resolve within the repository.");
        assert(msg@ =~= unresolved_link_message(r.label@, r.candidate.display_text@));
        return Some(
            Finding {
                file: String::from_str(file),
                position: r.position,
                rule: Rule::UnresolvedLinkPath,
                message: string_from_chars(msg.as_slice()),
                fixable: false,
                severity: Severity::Error,
                edit: None,
            },
        );
    }
    None
}

// ---------------------------------------------------------------------------
// Anchors
// ---------------------------------------------------------------------------
/// `c` is `l`, or the capital of the lowercase ASCII letter `l`.
pub open spec fn ci_char_eq(c: char, l: char) -> bool {
    c == l || ('a' <= l <= 'z' && c as u32 + 32 == l as u32)
}

/// `s` equals the lowercase word `word`, ignoring ASCII letter case.
pub open spec fn eq_ignore_ascii_case(s: Seq<char>, word: Seq<char>) -> bool {
    s.len() == word.len() && forall|k: int| 0 <= k < s.len() ==> ci_char_eq(#[trigger] s[k], word[k])
}

fn eq_ignore_case(s: &str, word: &str) -> (r: bool)
    ensures
        r == eq_ignore_ascii_case(s@, word@),
{
    let a = chars_of(s);
    let b = chars_of(word);
    if a.len() != b.len() {
        return false;
    }
    let mut k: usize = 0;
    while k < a.len()
        invariant
            k <= a@.len(),
            a@.len() == b@.len(),
            a@ == s@,
            b@ == word@,
            forall|j: int| 0 <= j < k ==> ci_char_eq(#[trigger] a@[j], b@[j]),
        decreases a@.len() - k,
    {
        let c = a[k];
        let l = b[k];
        if !(c == l || ('a' <= l && l <= 'z' && (c as u32) == (l as u32) - 32)) {
            return false;
        }
        k += 1;
    }
    true
}

/// A Markdown file by its extension (`md`, `markdown`, `mdown`) or its
/// name (`README`), in any ASCII letter case.
pub open spec fn spec_is_markdown_target(path: Seq<char>) -> bool {
    (spec_extension(path) matches Some(e) && (eq_ignore_ascii_case(e, "md"@) || eq_ignore_ascii_case(
        e,
        "markdown"@,
    ) || eq_ignore_ascii_case(e, "mdown"@))) || (spec_file_name(path) matches Some(n)
        && eq_ignore_ascii_case(n, "readme"@))
}

pub fn is_markdown_target(path: &str) -> (r: bool)
    ensures
        r == spec_is_markdown_target(path@),
{
    let by_extension = match extension(path) {
        Some(e) => eq_ignore_case(e.as_str(), "md") || eq_ignore_case(e.as_str(), "markdown")
            || eq_ignore_case(e.as_str(), "mdown"),
        None => false,
    };
    let by_name = match file_name(path) {
        Some(n) => eq_ignore_case(n.as_str(), "readme"),
        None => false,
    };
    by_extension || by_name
}

/// An anchor needs the target's headings when the target is a Markdown
/// file.
pub open spec fn spec_anchor_needs_target(anchor: Option<Seq<char>>, target: Seq<char>, is_file: bool) -> bool {
    anchor is Some && is_file && spec_is_markdown_target(target)
}

/// Whether the anchor of a link to an existing target is there: no
/// anchor is always there, none is in a directory, any is in a file that
/// is not Markdown, and in a Markdown file it must match a heading.
pub open spec fn spec_anchor_verdict(
    anchor: Option<Seq<char>>,
    target: Seq<char>,
    is_file: bool,
    found_in_headings: bool,
) -> bool {
    match anchor {
        None => true,
        Some(_) => if !is_file {
            false
        } else if !spec_is_markdown_target(target) {
            true
        } else {
            found_in_headings
        },
    }
}

pub fn anchor_needs_target(anchor: &Option<String>, target: &str, is_file: bool) -> (r: bool)
    ensures
        r == spec_anchor_needs_target(
            match anchor {
                Some(a) => Some(a@),
                None => None,
            },
            target@,
            is_file,
        ),
{
    anchor.is_some() && is_file && is_markdown_target(target)
}

pub fn anchor_verdict(anchor: &Option<String>, target: &str, is_file: bool, found_in_headings: bool) -> (r:
    bool)
    ensures
        r == spec_anchor_verdict(
            match anchor {
                Some(a) => Some(a@),
                None => None,
            },
            target@,
            is_file,
            found_in_headings,
        ),
{
    match anchor {
        None => true,
        Some(_) => if !is_file {
            false
        } else if !is_markdown_target(target) {
            true
        } else {
            found_in_headings
        },
    }
}

#[verifier::external_type_specification]
#[verifier::external_body]
pub struct ExSlugger(github_slugger::Slugger);

/// The slugs that a `Slugger` has given out.
pub uninterp spec fn slugs_given(s: Slugger) -> Set<Seq<char>>;

/// The slug that `github_slugger::slug` makes of a heading text.
pub uninterp spec fn github_slug(text: Seq<char>) -> Seq<char>;

/// `base-<i>`.
pub open spec fn numbered_slug(base: Seq<char>, i: nat) -> Seq<char> {
    base + seq!['-'] + decimal(i)
}

/// The slug a `Slugger` gives next for `base`: `base` itself when it is
/// new, else `base-1`, `base-2`, ... the first that is new.
pub open spec fn next_unique_slug(given: Set<Seq<char>>, base: Seq<char>) -> Seq<char> {
    if !given.contains(base) {
        base
    } else {
        numbered_slug(
            base,
            choose|i: nat|
                i >= 1 && !given.contains(numbered_slug(base, i)) && forall|j: nat|
                    1 <= j < i ==> given.contains(numbered_slug(base, j)),
        )
    }
}

/// Calls `Slugger::default()`: a slugger that has given out no slug.
#[verifier::external_body]
fn new_slugger() -> (s: Slugger)
    ensures
        slugs_given(s) == Set::<Seq<char>>::empty(),
{
    Slugger::default()
}

/// Calls `Slugger::slug`: the slug of `text` made unique among those the
/// slugger gave before, which it then remembers.
#[verifier::external_body]
fn next_slug(slugger: &mut Slugger, text: &str) -> (r: String)
    ensures
        r@ == next_unique_slug(slugs_given(*old(slugger)), github_slug(text@)),
        slugs_given(*final(slugger)) == slugs_given(*old(slugger)).insert(r@),
{
    slugger.slug(text)
}

/// Searching a node for an anchor: whether a heading's slug is the anchor,
/// and the slugs given out by then.  A heading ends the search of its
/// subtree; the search stops at the first match.
pub open spec fn search_node(node: MarkdownNode, anchor: Seq<char>, given: Set<Seq<char>>) -> (
    bool,
    Set<Seq<char>>,
)
    decreases node,
{
    if node.kind == NodeKind::Heading {
        let slug = next_unique_slug(given, github_slug(label_of_nodes(node.children@)));
        (slug == anchor, given.insert(slug))
    } else if spec_is_parent(node.kind) {
        search_nodes(node.children@, anchor, given)
    } else {
        (false, given)
    }
}

pub open spec fn search_nodes(nodes: Seq<MarkdownNode>, anchor: Seq<char>, given: Set<Seq<char>>) -> (
    bool,
    Set<Seq<char>>,
)
    decreases nodes,
{
    if nodes.len() == 0 {
        (false, given)
    } else {
        let prev = search_nodes(nodes.drop_last(), anchor, given);
        if prev.0 {
            prev
        } else {
            search_node(nodes.last(), anchor, prev.1)
        }
    }
}

fn search_node_exec(node: &MarkdownNode, anchor: &str, slugger: &mut Slugger) -> (found: bool)
    ensures
        (found, slugs_given(*final(slugger))) == search_node(*node, anchor@, slugs_given(*old(slugger))),
    decreases *node,
{
    if node.kind == NodeKind::Heading {
        let text = label_text(&node.children);
        let slug = next_slug(slugger, text.as_str());
        return crate::text::str_eq(slug.as_str(), anchor);
    }
    if is_parent(node.kind) {
        assert(decreases_to!(*node => node.children@)) by {
            assert(decreases_to!(*node => node.children));
            assert(decreases_to!(node.children => node.children@));
        }
        return search_nodes_exec(&node.children, anchor, slugger);
    }
    false
}

fn search_nodes_exec(nodes: &Vec<MarkdownNode>, anchor: &str, slugger: &mut Slugger) -> (found: bool)
    ensures
        (found, slugs_given(*final(slugger))) == search_nodes(nodes@, anchor@, slugs_given(*old(slugger))),
    decreases nodes@,
{
    let ghost g0 = slugs_given(*slugger);
    let mut i: usize = 0;
    assert(nodes@.take(0) =~= Seq::<MarkdownNode>::empty());
    while i < nodes.len()
        invariant
            i <= nodes@.len(),
            g0 == slugs_given(*old(slugger)),
            search_nodes(nodes@.take(i as int), anchor@, g0) == (false, slugs_given(*slugger)),
        decreases nodes@.len() - i,
    {
        let node = &nodes[i];
        assert(nodes@.take(i + 1).drop_last() =~= nodes@.take(i as int));
        assert(nodes@.take(i + 1).last() == *node);
        assert(decreases_to!(nodes@ => *node)) by {
            assert(decreases_to!(nodes@ => nodes@[i as int]));
        }
        if search_node_exec(node, anchor, slugger) {
            proof {
                lemma_search_stops(nodes@, i as int + 1, anchor@, g0);
            }
            return true;
        }
        i += 1;
    }
    assert(nodes@.take(nodes@.len() as int) =~= nodes@);
    false
}

proof fn lemma_search_stops(nodes: Seq<MarkdownNode>, i: int, anchor: Seq<char>, given: Set<Seq<char>>)
    requires
        0 < i <= nodes.len(),
        search_nodes(nodes.take(i), anchor, given).0,
    ensures
        search_nodes(nodes, anchor, given) == search_nodes(nodes.take(i), anchor, given),
    decreases nodes.len() - i,
{
    if i < nodes.len() {
        assert(nodes.take(i + 1).drop_last() =~= nodes.take(i));
        lemma_search_stops(nodes, i + 1, anchor, given);
    } else {
        assert(nodes.take(i) =~= nodes);
    }
}

/// Whether one of the headings of a document has `anchor` as its slug,
/// slugs being made unique in document order as GitHub does.
pub fn node_contains_anchor(tree: &MarkdownNode, anchor: &str) -> (r: bool)
    ensures
        r == search_node(*tree, anchor@, Set::empty()).0,
{
    let mut slugger = new_slugger();
    search_node_exec(tree, anchor, &mut slugger)
}

/// Whether the document with text `source` has a heading whose slug is
/// `anchor`; a text that does not parse is an error.
pub fn source_contains_anchor(source: &str, anchor: &str) -> (r: Result<bool, String>)
    ensures
        match gfm_tree(source@) {
            Ok(t) => r == Ok::<bool, String>(search_node(t, anchor@, Set::empty()).0),
            Err(e) => r is Err && r->Err_0@ == e,
        },
{
    match parse_markdown(source) {
        Ok(tree) => Ok(node_contains_anchor(&tree, anchor)),
        Err(e) => Err(e),
    }
}

/// The references of the document with text `source` at repository path
/// `file`, in document order; a text that does not parse is an error.  A
/// run asks the file system about these targets, then lints the text with
/// the answers (`lint::lint_source`).
pub fn references_of_source(config: &Config, file: &str, source: &str) -> (r: Result<
    Vec<LocalReference>,
    String,
>)
    requires
        config.wf(),
    ensures
        match gfm_tree(source@) {
            Ok(t) => r is Ok && appended(
                *config,
                file@,
                Seq::empty(),
                r->Ok_0@,
                references_of(*config, file@, checked_from(t)),
            ),
            Err(e) => r is Err && r->Err_0@ == e,
        },
{
    match parse_markdown(source) {
        Ok(tree) => Ok(collect_references(config, file, &tree)),
        Err(e) => Err(e),
    }
}

// ---------------------------------------------------------------------------
// The findings of all references
// ---------------------------------------------------------------------------
/// What the file system says of a reference's target: whether it exists,
/// whether it is a directory, and whether the link's anchor is there.
#[derive(Clone, Copy, Debug, PartialEq, Eq, Structural)]
pub struct TargetProbe {
    pub exists: bool,
    pub is_dir: bool,
    pub anchor_present: bool,
}

/// The finding of one reference under its probe.
pub open spec fn decision_matches(
    policy: EffectiveRulePolicy,
    file: Seq<char>,
    r: LocalReference,
    probe: TargetProbe,
    f: Option<Finding>,
) -> bool {
    match r.kind {
        ReferenceKind::Backtick => inline_finding_matches(policy, file, r, probe.exists, probe.is_dir, f),
        ReferenceKind::Link => link_finding_matches(file, r, probe.exists, probe.anchor_present, f),
    }
}

/// The findings among optional ones, in order.
pub open spec fn somes(os: Seq<Option<Finding>>) -> Seq<Finding>
    decreases os.len(),
{
    if os.len() == 0 {
        seq![]
    } else {
        somes(os.drop_last()) + match os.last() {
            Some(f) => seq![f],
            None => seq![],
        }
    }
}

/// The findings of the references, each decided with its probe.
pub fn reference_findings(
    policy: &EffectiveRulePolicy,
    file: &str,
    references: &Vec<LocalReference>,
    probes: &Vec<TargetProbe>,
) -> (r: Vec<Finding>)
    requires
        probes@.len() == references@.len(),
    ensures
        exists|os: Seq<Option<Finding>>|
            #![trigger somes(os)]
            os.len() == references@.len() && (forall|k: int|
                0 <= k < os.len() ==> decision_matches(
                    *policy,
                    file@,
                    references@[k],
                    probes@[k],
                    #[trigger] os[k],
                )) && r@ == somes(os),
{
    let mut out: Vec<Finding> = Vec::new();
    let ghost mut os: Seq<Option<Finding>> = seq![];
    let mut k: usize = 0;
    while k < references.len()
        invariant
            k <= references@.len(),
            probes@.len() == references@.len(),
            os.len() == k,
            forall|j: int|
                0 <= j < os.len() ==> decision_matches(
                    *policy,
                    file@,
                    references@[j],
                    probes@[j],
                    #[trigger] os[j],
                ),
            out@ == somes(os),
        decreases references@.len() - k,
    {
        let r = &references[k];
        let probe = probes[k];
        let f = match r.kind {
            ReferenceKind::Backtick => inline_code_finding(policy, file, r, probe.exists, probe.is_dir),
            ReferenceKind::Link => link_finding(file, r, probe.exists, probe.anchor_present),
        };
        let ghost before = os;
        proof {
            os = os.push(f);
            assert(os.drop_last() =~= before);
        }
        match f {
            Some(x) => out.push(x),
            None => {},
        }
        assert forall|j: int| 0 <= j < os.len() implies decision_matches(
            *policy,
            file@,
            references@[j],
            probes@[j],
            #[trigger] os[j],
        ) by {
            if j < before.len() {
                assert(os[j] == before[j]);
            }
        }
        k += 1;
    }
    out
}

} // verus!
