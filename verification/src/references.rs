//! Local references in Markdown: which inline-code spans and link
//! destinations name repository paths, how they resolve against the file
//! that holds them, and how a link to the resolved path is written.
use vstd::prelude::*;

use crate::config::Config;
use crate::paths::{
    components, path_components, spec_extension, spec_parent, to_forward_slashes,
    forward_slashes, ComponentKind, ComponentSpan, span_seq, ranges_ok, extension, parent,
    clean_piece, is_rooted, lemma_components_facts, lemma_scan_facts, lemma_scan_no_slash,
    lemma_scan_prefix, scan_components,
};
use crate::strset::StringSet;
use crate::text::{
    chars_of, contains_sub, ends_with, is_whitespace, push_all, push_str, seq_contains_sub,
    seq_ends_with, seq_starts_with, slice_chars, starts_with, string_from_chars,
    unicode_white_space,
};

verus! {

broadcast use vstd::seq_lib::group_seq_properties;

/// How a reference is written relative to the repository root.
#[derive(Clone, Copy, Debug, PartialEq, Eq, Structural)]
pub enum ReferenceSyntax {
    /// A bare name or path (`docs/guide.md`).
    Standard,
    /// A path that starts with `./` or `../`.
    Relative,
    /// A path that starts with `/`, anchored at the workspace root.
    WorkspaceRoot,
}

/// Where a reference was found.
#[derive(Clone, Copy, Debug, PartialEq, Eq, Structural)]
pub enum ReferenceKind {
    /// An inline code span.
    Backtick,
    /// A link destination.
    Link,
}

/// A reference that names a repository path.
pub struct CandidateReference {
    pub display_text: String,
    pub path_text: String,
    pub anchor: Option<String>,
    pub syntax: ReferenceSyntax,
    pub is_directory_like: bool,
}

/// A reference resolved to a repository-relative path.
pub struct ResolvedReference {
    pub repo_relative_path: String,
}

// ---------------------------------------------------------------------------
// Syntax checks
// ---------------------------------------------------------------------------
/// A URL with a web or mail scheme.
pub open spec fn spec_is_external(value: Seq<char>) -> bool {
    seq_starts_with(value, "http://"@) || seq_starts_with(value, "https://"@) || seq_starts_with(
        value,
        "mailto:"@,
    )
}

pub fn is_external(value: &str) -> (r: bool)
    ensures
        r == spec_is_external(value@),
{
    let v = chars_of(value);
    starts_with(v.as_slice(), "http://") || starts_with(v.as_slice(), "https://") || starts_with(
        v.as_slice(),
        "mailto:",
    )
}

/// Characters that mark inline code as something other than a path: a
/// glob, a URL, a call, a quotation.
pub open spec fn is_disallowed_char(ch: char) -> bool {
    unicode_white_space(ch) || ch == '*' || ch == '?' || ch == '[' || ch == '{' || ch == ':' || ch
        == '(' || ch == ')' || ch == '<' || ch == '>' || ch == '"' || ch == '\''
}

pub open spec fn spec_contains_disallowed_backtick_syntax(value: Seq<char>) -> bool {
    seq_contains_sub(value, "//"@) || seq_contains_sub(value, "..."@) || exists|i: int|
        0 <= i < value.len() && is_disallowed_char(#[trigger] value[i])
}

pub fn contains_disallowed_backtick_syntax(value: &str) -> (r: bool)
    ensures
        r == spec_contains_disallowed_backtick_syntax(value@),
{
    let v = chars_of(value);
    if contains_sub(v.as_slice(), "//") || contains_sub(v.as_slice(), "...") {
        return true;
    }
    let mut i: usize = 0;
    while i < v.len()
        invariant
            i <= v@.len(),
            v@ == value@,
            forall|j: int| 0 <= j < i ==> !is_disallowed_char(#[trigger] v@[j]),
        decreases v@.len() - i,
    {
        let ch = v[i];
        if is_whitespace(ch) || ch == '*' || ch == '?' || ch == '[' || ch == '{' || ch == ':' || ch
            == '(' || ch == ')' || ch == '<' || ch == '>' || ch == '"' || ch == '\'' {
            assert(is_disallowed_char(v@[i as int]));
            return true;
        }
        i += 1;
    }
    false
}

pub open spec fn spec_has_relative_prefix(value: Seq<char>) -> bool {
    seq_starts_with(value, "./"@) || seq_starts_with(value, "../"@)
}

pub open spec fn spec_has_workspace_root_prefix(value: Seq<char>) -> bool {
    value.len() > 0 && value[0] == '/'
}

/// The index of the first `#`, if any.
pub open spec fn first_hash(value: Seq<char>) -> Option<int> {
    if exists|i: int| 0 <= i < value.len() && value[i] == '#' {
        Some(
            choose|i: int|
                0 <= i < value.len() && value[i] == '#' && forall|j: int|
                    0 <= j < i ==> value[j] != '#',
        )
    } else {
        None
    }
}

fn find_first_hash(v: &[char]) -> (r: Option<usize>)
    ensures
        match r {
            Some(i) => first_hash(v@) == Some(i as int) && i < v@.len(),
            None => first_hash(v@) is None,
        },
{
    let mut i: usize = 0;
    while i < v.len()
        invariant
            i <= v@.len(),
            forall|j: int| 0 <= j < i ==> v@[j] != '#',
        decreases v@.len() - i,
    {
        if v[i] == '#' {
            let ghost w = choose|k: int|
                0 <= k < v@.len() && v@[k] == '#' && forall|j: int| 0 <= j < k ==> v@[j] != '#';
            assert(0 <= i < v@.len() && v@[i as int] == '#' && forall|j: int|
                0 <= j < i ==> v@[j] != '#');
            assert(w == i) by {
                if w < i {
                    assert(v@[w] != '#');
                }
                if w > i {
                    assert(v@[i as int] != '#');
                }
            }
            return Some(i);
        }
        i += 1;
    }
    None
}

/// The path part of a reference: for a link, what precedes the first `#`.
pub open spec fn spec_link_path_text(value: Seq<char>, kind: ReferenceKind) -> Seq<char> {
    match (kind, first_hash(value)) {
        (ReferenceKind::Link, Some(i)) => value.take(i),
        _ => value,
    }
}

/// The anchor of a link: what follows the first `#`, when it is not empty.
pub open spec fn spec_link_anchor(value: Seq<char>, kind: ReferenceKind) -> Option<Seq<char>> {
    match (kind, first_hash(value)) {
        (ReferenceKind::Link, Some(i)) => if i + 1 < value.len() {
            Some(value.skip(i + 1))
        } else {
            None
        },
        _ => None,
    }
}

fn link_path_text(v: &[char], kind: ReferenceKind) -> (r: Vec<char>)
    ensures
        r@ == spec_link_path_text(v@, kind),
{
    if kind == ReferenceKind::Link {
        match find_first_hash(v) {
            Some(i) => return slice_chars(v, 0, i),
            None => {},
        }
    }
    slice_chars(v, 0, v.len())
}

fn link_anchor(v: &[char], kind: ReferenceKind) -> (r: Option<Vec<char>>)
    ensures
        match r {
            Some(a) => spec_link_anchor(v@, kind) == Some(a@),
            None => spec_link_anchor(v@, kind) is None,
        },
{
    if kind == ReferenceKind::Link {
        match find_first_hash(v) {
            Some(i) => {
                if i < v.len() - 1 {
                    return Some(slice_chars(v, i + 1, v.len()));
                }
            },
            None => {},
        }
    }
    None
}

// ---------------------------------------------------------------------------
// Fragments
// ---------------------------------------------------------------------------
/// The value of a hexadecimal digit byte.
pub open spec fn hex_value(b: u8) -> Option<int> {
    if 48 <= b <= 57 {
        Some(b - 48)
    } else if 97 <= b <= 102 {
        Some(b - 87)
    } else if 65 <= b <= 70 {
        Some(b - 55)
    } else {
        None
    }
}

/// Percent-decoding: every `%` followed by two hexadecimal digits stands
/// for the byte they spell; every other byte stands for itself.
pub open spec fn percent_decoded(b: Seq<u8>) -> Seq<u8>
    decreases b.len(),
{
    if b.len() == 0 {
        seq![]
    } else if b[0] == 37 && b.len() >= 3 && hex_value(b[1]) is Some && hex_value(b[2]) is Some {
        seq![(hex_value(b[1])->0 * 16 + hex_value(b[2])->0) as u8] + percent_decoded(b.skip(3))
    } else {
        seq![b[0]] + percent_decoded(b.skip(1))
    }
}

/// The text that a fragment stands for: its percent-decoded bytes read as
/// UTF-8.
pub open spec fn decoded_fragment_bytes(value: Seq<char>) -> Seq<u8> {
    percent_decoded(vstd::utf8::encode_utf8(value))
}

/// Calls `percent_encoding::percent_decode_str(value).decode_utf8()`.  The
/// contract states what its documentation and source show: the bytes are
/// percent-decoded as `percent_decoded` says, and the call succeeds exactly
/// when they are valid UTF-8, with the characters they encode.
#[verifier::external_body]
fn percent_decode_utf8(value: &str) -> (r: Option<String>)
    ensures
        r is Some <==> vstd::utf8::valid_utf8(decoded_fragment_bytes(value@)),
        r matches Some(s) ==> s@ == vstd::utf8::decode_utf8(decoded_fragment_bytes(value@)),
{
    match percent_encoding::percent_decode_str(value).decode_utf8() {
        Ok(decoded) => Some(decoded.into_owned()),
        Err(_) => None,
    }
}

/// A link fragment, percent-decoded; left as written when the decoded
/// bytes are not UTF-8.
pub open spec fn spec_decode_fragment(value: Seq<char>) -> Seq<char> {
    if vstd::utf8::valid_utf8(decoded_fragment_bytes(value)) {
        vstd::utf8::decode_utf8(decoded_fragment_bytes(value))
    } else {
        value
    }
}

pub fn decode_fragment(value: &str) -> (r: String)
    ensures
        r@ == spec_decode_fragment(value@),
{
    match percent_decode_utf8(value) {
        Some(decoded) => decoded,
        None => string_from_chars(chars_of(value).as_slice()),
    }
}

// ---------------------------------------------------------------------------
// Classification
// ---------------------------------------------------------------------------
pub open spec fn spec_syntax_of(path_text: Seq<char>) -> ReferenceSyntax {
    if spec_has_relative_prefix(path_text) {
        ReferenceSyntax::Relative
    } else if spec_has_workspace_root_prefix(path_text) {
        ReferenceSyntax::WorkspaceRoot
    } else {
        ReferenceSyntax::Standard
    }
}

/// A path by its shape: prefixed, or (inline code) ending in a separator,
/// or (link) holding one.
pub open spec fn spec_is_path_like(value: Seq<char>, kind: ReferenceKind, syntax: ReferenceSyntax) -> bool {
    syntax != ReferenceSyntax::Standard || match kind {
        ReferenceKind::Backtick => seq_ends_with(value, "/"@) || seq_ends_with(value, "\\"@),
        ReferenceKind::Link => value.contains('/') || value.contains('\\'),
    }
}

/// The syntax that a value classifies with, or none when it names no
/// repository path: empty values, URLs, inline code with glob or URL
/// syntax, links to an anchor of the same document, and values that
/// neither look like a path nor carry a known extension nor are a known
/// file name.
pub open spec fn spec_classify(
    extensions: Set<Seq<char>>,
    special_filenames: Set<Seq<char>>,
    value: Seq<char>,
    kind: ReferenceKind,
) -> Option<ReferenceSyntax> {
    let path_text = spec_link_path_text(value, kind);
    let syntax = spec_syntax_of(path_text);
    if value.len() == 0 || spec_is_external(value) {
        None
    } else if kind == ReferenceKind::Backtick && spec_contains_disallowed_backtick_syntax(value) {
        None
    } else if spec_is_path_like(path_text, kind, syntax) || (kind == ReferenceKind::Link
        && path_text.len() > 0 && spec_link_anchor(value, kind) is Some) {
        Some(syntax)
    } else if spec_extension(path_text) is Some && extensions.contains(
        seq!['.'] + spec_extension(path_text)->0,
    ) {
        Some(ReferenceSyntax::Standard)
    } else if special_filenames.contains(path_text) {
        Some(ReferenceSyntax::Standard)
    } else {
        None
    }
}

/// The candidate that `value` gives with `syntax`.
pub open spec fn candidate_matches(
    c: CandidateReference,
    value: Seq<char>,
    syntax: ReferenceSyntax,
    kind: ReferenceKind,
) -> bool {
    let path_text = spec_link_path_text(value, kind);
    &&& c.display_text@ == value
    &&& c.path_text@ == path_text
    &&& c.anchor is Some == spec_link_anchor(value, kind) is Some
    &&& (c.anchor matches Some(a) ==> a@ == spec_decode_fragment(spec_link_anchor(value, kind)->0))
    &&& c.syntax == syntax
    &&& c.is_directory_like == (seq_ends_with(path_text, "/"@) || seq_ends_with(path_text, "\\"@))
}

impl CandidateReference {
    fn new(value: &[char], syntax: ReferenceSyntax, kind: ReferenceKind) -> (c: CandidateReference)
        ensures
            candidate_matches(c, value@, syntax, kind),
    {
        let path_text = link_path_text(value, kind);
        let anchor = match link_anchor(value, kind) {
            Some(a) => {
                let text = string_from_chars(a.as_slice());
                Some(decode_fragment(text.as_str()))
            },
            None => None,
        };
        let is_directory_like = ends_with(path_text.as_slice(), "/") || ends_with(
            path_text.as_slice(),
            "\\",
        );
        CandidateReference {
            display_text: string_from_chars(value),
            path_text: string_from_chars(path_text.as_slice()),
            anchor,
            syntax,
            is_directory_like,
        }
    }
}

fn contains_char_slice(v: &[char], c: char) -> (r: bool)
    ensures
        r == v@.contains(c),
{
    crate::text::contains_char(v, c)
}

fn classify_with(
    extensions: &StringSet,
    special_filenames: &StringSet,
    value: &str,
    kind: ReferenceKind,
) -> (r: Option<CandidateReference>)
    requires
        extensions.wf(),
        special_filenames.wf(),
    ensures
        match spec_classify(extensions.members(), special_filenames.members(), value@, kind) {
            Some(syntax) => r is Some && candidate_matches(r->0, value@, syntax, kind),
            None => r is None,
        },
{
    let v = chars_of(value);
    if v.len() == 0 || is_external(value) {
        return None;
    }
    if kind == ReferenceKind::Backtick && contains_disallowed_backtick_syntax(value) {
        return None;
    }
    let path_text = link_path_text(v.as_slice(), kind);
    let syntax = if starts_with(path_text.as_slice(), "./") || starts_with(
        path_text.as_slice(),
        "../",
    ) {
        ReferenceSyntax::Relative
    } else if path_text.len() > 0 && path_text[0] == '/' {
        ReferenceSyntax::WorkspaceRoot
    } else {
        ReferenceSyntax::Standard
    };
    let path_like = syntax != ReferenceSyntax::Standard || match kind {
        ReferenceKind::Backtick => ends_with(path_text.as_slice(), "/") || ends_with(
            path_text.as_slice(),
            "\\",
        ),
        ReferenceKind::Link => contains_char_slice(path_text.as_slice(), '/')
            || contains_char_slice(path_text.as_slice(), '\\'),
    };
    let has_anchor = kind == ReferenceKind::Link && path_text.len() > 0 && link_anchor(
        v.as_slice(),
        kind,
    ).is_some();
    if path_like || has_anchor {
        return Some(CandidateReference::new(v.as_slice(), syntax, kind));
    }
    let path_string = string_from_chars(path_text.as_slice());
    match extension(path_string.as_str()) {
        Some(ext) => {
            let mut dotted: Vec<char> = Vec::new();
            dotted.push('.');
            push_str(&mut dotted, ext.as_str());
            let dotted_string = string_from_chars(dotted.as_slice());
            assert(dotted_string@ =~= seq!['.'] + ext@);
            if extensions.contains(dotted_string.as_str()) {
                return Some(CandidateReference::new(v.as_slice(), ReferenceSyntax::Standard, kind));
            }
        },
        None => {},
    }
    if special_filenames.contains(path_string.as_str()) {
        return Some(CandidateReference::new(v.as_slice(), ReferenceSyntax::Standard, kind));
    }
    None
}

/// Classifies the text of an inline code span.
pub fn classify_inline_reference(config: &Config, value: &str) -> (r: Option<CandidateReference>)
    requires
        config.wf(),
    ensures
        match spec_classify(
            config.spec_known_extensions().members(),
            config.spec_special_filenames().members(),
            value@,
            ReferenceKind::Backtick,
        ) {
            Some(syntax) => r is Some && candidate_matches(
                r->0,
                value@,
                syntax,
                ReferenceKind::Backtick,
            ),
            None => r is None,
        },
{
    classify_with(
        config.known_extensions(),
        config.special_filenames(),
        value,
        ReferenceKind::Backtick,
    )
}

/// Classifies a link destination.
pub fn classify_link_reference(config: &Config, value: &str) -> (r: Option<CandidateReference>)
    requires
        config.wf(),
    ensures
        match spec_classify(
            config.spec_known_extensions().members(),
            config.spec_special_filenames().members(),
            value@,
            ReferenceKind::Link,
        ) {
            Some(syntax) => r is Some && candidate_matches(r->0, value@, syntax, ReferenceKind::Link),
            None => r is None,
        },
{
    classify_with(config.known_extensions(), config.special_filenames(), value, ReferenceKind::Link)
}

// ---------------------------------------------------------------------------
// Resolution
// ---------------------------------------------------------------------------
/// The components of a path, each with its text.
pub open spec fn named_components(s: Seq<char>) -> Seq<(ComponentKind, Seq<char>)> {
    path_components(s).map_values(|c: (ComponentKind, int, int)| (c.0, s.subrange(c.1, c.2)))
}

/// The names that a sequence of components leads to: `.` stays, `..`
/// steps back; none when `..` would leave the top or a root occurs.
pub open spec fn resolve_names(comps: Seq<(ComponentKind, Seq<char>)>) -> Option<Seq<Seq<char>>>
    decreases comps.len(),
{
    if comps.len() == 0 {
        Some(seq![])
    } else {
        match resolve_names(comps.drop_last()) {
            None => None,
            Some(names) => match comps.last().0 {
                ComponentKind::CurDir => Some(names),
                ComponentKind::Normal => Some(names.push(comps.last().1)),
                ComponentKind::ParentDir => if names.len() == 0 {
                    None
                } else {
                    Some(names.drop_last())
                },
                ComponentKind::RootDir => None,
            },
        }
    }
}

/// Names joined with `/`.
pub open spec fn join_names(names: Seq<Seq<char>>) -> Seq<char>
    decreases names.len(),
{
    if names.len() == 0 {
        seq![]
    } else if names.len() == 1 {
        names[0]
    } else {
        join_names(names.drop_last()) + seq!['/'] + names.last()
    }
}

/// The number of leading `/`.
pub open spec fn leading_slashes(s: Seq<char>) -> nat
    decreases s.len(),
{
    if s.len() > 0 && s[0] == '/' {
        1 + leading_slashes(s.drop_first())
    } else {
        0
    }
}

/// The directory that a reference is resolved against: the file's own for
/// relative inline code and for links not anchored at the root, else the
/// repository root.
pub open spec fn resolution_base(file: Seq<char>, syntax: ReferenceSyntax, kind: ReferenceKind) -> Seq<
    char,
> {
    let dir = match spec_parent(file) {
        Some(p) => p,
        None => seq![],
    };
    match kind {
        ReferenceKind::Backtick => if syntax == ReferenceSyntax::Relative {
            dir
        } else {
            seq![]
        },
        ReferenceKind::Link => if syntax == ReferenceSyntax::WorkspaceRoot {
            seq![]
        } else {
            dir
        },
    }
}

/// The repository-relative path a reference resolves to: a link without a
/// path names its own file; otherwise the reference, with `/` separators
/// and without leading `/`, is joined to its base and normalized; none when
/// it climbs above the repository or names nothing.
pub open spec fn spec_resolve(
    file: Seq<char>,
    path_text: Seq<char>,
    syntax: ReferenceSyntax,
    kind: ReferenceKind,
) -> Option<Seq<char>> {
    if kind == ReferenceKind::Link && path_text.len() == 0 {
        Some(file)
    } else {
        let display = forward_slashes(path_text);
        let rel = display.skip(leading_slashes(display) as int);
        match resolve_names(
            named_components(resolution_base(file, syntax, kind)) + named_components(rel),
        ) {
            None => None,
            Some(names) => if names.len() == 0 {
                None
            } else {
                Some(join_names(names))
            },
        }
    }
}

fn skip_leading_slashes(s: &[char]) -> (r: Vec<char>)
    ensures
        r@ == s@.skip(leading_slashes(s@) as int),
{
    let mut i: usize = 0;
    while i < s.len() && s[i] == '/'
        invariant
            i <= s@.len(),
            leading_slashes(s@) == i + leading_slashes(s@.skip(i as int)),
        decreases s@.len() - i,
    {
        assert(s@.skip(i as int).drop_first() =~= s@.skip(i + 1));
        i += 1;
    }
    slice_chars(s, i, s.len())
}

/// Applies the components of `s` to the stack of names.
fn apply_components(s: &[char], names: &mut Vec<Vec<char>>) -> (ok: bool)
    ensures
        ok ==> resolve_names_from(char_name_views(old(names)@), named_components(s@)) == Some(
            char_name_views(final(names)@),
        ),
        !ok ==> resolve_names_from(char_name_views(old(names)@), named_components(s@)) is None,
{
    let comps = components(s);
    let ghost nc = named_components(s@);
    let ghost start = char_name_views(names@);
    let mut k: usize = 0;
    while k < comps.len()
        invariant
            k <= comps@.len(),
            span_seq(comps@) == path_components(s@),
            ranges_ok(span_seq(comps@), s@.len() as int),
            nc == named_components(s@),
            start == char_name_views(old(names)@),
            resolve_names_from(start, nc.take(k as int)) == Some(char_name_views(names@)),
        decreases comps@.len() - k,
    {
        let c: &ComponentSpan = &comps[k];
        assert(span_seq(comps@)[k as int] == crate::paths::span_of(*c));
        assert(nc.take(k + 1).drop_last() =~= nc.take(k as int));
        assert(nc[k as int] == (c.kind, s@.subrange(c.start as int, c.end as int)));
        match c.kind {
            ComponentKind::CurDir => {},
            ComponentKind::Normal => {
                let ghost before = char_name_views(names@);
                names.push(slice_chars(s, c.start, c.end));
                assert(char_name_views(names@) =~= before.push(
                    s@.subrange(c.start as int, c.end as int),
                ));
            },
            ComponentKind::ParentDir => {
                if names.len() == 0 {
                    proof {
                        assert(nc.take(k + 1).last() == nc[k as int]);
                        assert(char_name_views(names@).len() == 0);
                        assert(resolve_names_from(start, nc.take(k + 1)) is None);
                        assert(nc.take(k + 1).len() == k + 1);
                        lemma_resolve_from_none(start, nc.take(k + 1), nc);
                    }
                    return false;
                }
                let ghost before = char_name_views(names@);
                names.pop();
                assert(char_name_views(names@) =~= before.drop_last());
            },
            ComponentKind::RootDir => {
                proof {
                    assert(nc.take(k + 1).last() == nc[k as int]);
                    assert(resolve_names_from(start, nc.take(k + 1)) is None);
                    assert(nc.take(k + 1).len() == k + 1);
                    lemma_resolve_from_none(start, nc.take(k + 1), nc);
                }
                return false;
            },
        }
        k += 1;
    }
    assert(nc.take(comps@.len() as int) =~= nc);
    true
}

pub open spec fn char_name_views(v: Seq<Vec<char>>) -> Seq<Seq<char>> {
    v.map_values(|x: Vec<char>| x@)
}

/// `resolve_names`, from a given stack of names.
pub open spec fn resolve_names_from(
    start: Seq<Seq<char>>,
    comps: Seq<(ComponentKind, Seq<char>)>,
) -> Option<Seq<Seq<char>>>
    decreases comps.len(),
{
    if comps.len() == 0 {
        Some(start)
    } else {
        match resolve_names_from(start, comps.drop_last()) {
            None => None,
            Some(names) => match comps.last().0 {
                ComponentKind::CurDir => Some(names),
                ComponentKind::Normal => Some(names.push(comps.last().1)),
                ComponentKind::ParentDir => if names.len() == 0 {
                    None
                } else {
                    Some(names.drop_last())
                },
                ComponentKind::RootDir => None,
            },
        }
    }
}

proof fn lemma_resolve_from_none(
    start: Seq<Seq<char>>,
    prefix: Seq<(ComponentKind, Seq<char>)>,
    all: Seq<(ComponentKind, Seq<char>)>,
)
    requires
        resolve_names_from(start, prefix) is None,
        prefix.len() <= all.len(),
        prefix == all.take(prefix.len() as int),
    ensures
        resolve_names_from(start, all) is None,
    decreases all.len() - prefix.len(),
{
    if prefix.len() < all.len() {
        let next = all.take((prefix.len() + 1) as int);
        assert(next.drop_last() =~= prefix);
        lemma_resolve_from_none(start, next, all);
    } else {
        assert(all.take(all.len() as int) =~= all);
    }
}

proof fn lemma_resolve_from_concat(
    a: Seq<(ComponentKind, Seq<char>)>,
    b: Seq<(ComponentKind, Seq<char>)>,
)
    ensures
        resolve_names(a + b) == match resolve_names_from(seq![], a) {
            None => None,
            Some(mid) => resolve_names_from(mid, b),
        },
    decreases b.len(),
{
    lemma_resolve_from_empty(a);
    if b.len() == 0 {
        assert(a + b =~= a);
    } else {
        assert((a + b).drop_last() =~= a + b.drop_last());
        assert((a + b).last() == b.last());
        lemma_resolve_from_concat(a, b.drop_last());
        lemma_resolve_from_empty(a + b);
        lemma_resolve_from_empty(a + b.drop_last());
    }
}

proof fn lemma_resolve_from_empty(a: Seq<(ComponentKind, Seq<char>)>)
    ensures
        resolve_names(a) == resolve_names_from(seq![], a),
    decreases a.len(),
{
    if a.len() > 0 {
        lemma_resolve_from_empty(a.drop_last());
    }
}

fn join_char_names(names: &Vec<Vec<char>>) -> (r: Vec<char>)
    ensures
        r@ == join_names(char_name_views(names@)),
{
    let mut out: Vec<char> = Vec::new();
    let mut k: usize = 0;
    while k < names.len()
        invariant
            k <= names@.len(),
            out@ == join_names(char_name_views(names@).take(k as int)),
        decreases names@.len() - k,
    {
        let ghost before = out@;
        assert(char_name_views(names@).take(k + 1).drop_last() =~= char_name_views(names@).take(
            k as int,
        ));
        if k > 0 {
            out.push('/');
        }
        push_all(&mut out, names[k].as_slice());
        k += 1;
        assert(out@ =~= join_names(char_name_views(names@).take(k as int)));
    }
    assert(char_name_views(names@).take(names@.len() as int) =~= char_name_views(names@));
    out
}

/// Resolves a candidate found in `file` to a repository-relative path.
pub fn resolve_candidate(file: &str, candidate: &CandidateReference, kind: ReferenceKind) -> (r:
    Option<ResolvedReference>)
    ensures
        match spec_resolve(file@, candidate.path_text@, candidate.syntax, kind) {
            Some(p) => r is Some && r->0.repo_relative_path@ == p,
            None => r is None,
        },
{
    if kind == ReferenceKind::Link && candidate.path_text.as_str().is_empty() {
        return Some(ResolvedReference { repo_relative_path: string_from_chars(chars_of(file).as_slice()) });
    }
    proof {
        assert(!(kind == ReferenceKind::Link && candidate.path_text@.len() == 0));
    }
    let path = chars_of(candidate.path_text.as_str());
    let display = to_forward_slashes(path.as_slice());
    let rel = skip_leading_slashes(display.as_slice());
    let use_dir = match kind {
        ReferenceKind::Backtick => candidate.syntax == ReferenceSyntax::Relative,
        ReferenceKind::Link => candidate.syntax != ReferenceSyntax::WorkspaceRoot,
    };
    let base: Vec<char> = if use_dir {
        match parent(file) {
            Some(p) => chars_of(p.as_str()),
            None => Vec::new(),
        }
    } else {
        Vec::new()
    };
    assert(base@ == resolution_base(file@, candidate.syntax, kind));
    let mut names: Vec<Vec<char>> = Vec::new();
    assert(char_name_views(names@) =~= Seq::<Seq<char>>::empty());
    proof {
        lemma_resolve_from_concat(named_components(base@), named_components(rel@));
    }
    if !apply_components(base.as_slice(), &mut names) {
        return None;
    }
    if !apply_components(rel.as_slice(), &mut names) {
        return None;
    }
    if names.len() == 0 {
        return None;
    }
    let joined = join_char_names(&names);
    Some(ResolvedReference { repo_relative_path: string_from_chars(joined.as_slice()) })
}

// ---------------------------------------------------------------------------
// Rendering links
// ---------------------------------------------------------------------------
/// A resolved path as written from the repository root, with a trailing
/// `/` for a directory.
pub open spec fn spec_render_repo_relative(path: Seq<char>, is_directory: bool) -> Seq<char> {
    if is_directory {
        path.push('/')
    } else {
        path
    }
}

pub fn render_repo_relative(resolved: &ResolvedReference, is_directory: bool) -> (r: String)
    ensures
        r@ == spec_render_repo_relative(resolved.repo_relative_path@, is_directory),
{
    let mut v = chars_of(resolved.repo_relative_path.as_str());
    if is_directory {
        v.push('/');
    }
    string_from_chars(v.as_slice())
}

/// The names of the name components of a path.
pub open spec fn normal_names(comps: Seq<(ComponentKind, Seq<char>)>) -> Seq<Seq<char>>
    decreases comps.len(),
{
    if comps.len() == 0 {
        seq![]
    } else {
        normal_names(comps.drop_last()) + if comps.last().0 == ComponentKind::Normal {
            seq![comps.last().1]
        } else {
            seq![]
        }
    }
}

/// The length of the longest common prefix.
pub open spec fn common_prefix_len(a: Seq<Seq<char>>, b: Seq<Seq<char>>) -> nat
    decreases a.len(),
{
    if a.len() == 0 || b.len() == 0 || a[0] != b[0] {
        0
    } else {
        1 + common_prefix_len(a.drop_first(), b.drop_first())
    }
}

/// The relative path from `from_dir` to `target`: `..` for every name of
/// `from_dir` past the shared ones, then the rest of `target`; `.` when
/// nothing is left; a trailing `/` for a directory.
pub open spec fn spec_render_relative(from_dir: Seq<char>, target: Seq<char>, is_directory: bool) -> Seq<
    char,
> {
    let f = normal_names(named_components(from_dir));
    let t = normal_names(named_components(target));
    let k = common_prefix_len(f, t);
    let parts = Seq::new((f.len() - k) as nat, |i: int| seq!['.', '.']) + t.skip(k as int);
    let rendered = if parts.len() == 0 {
        seq!['.']
    } else {
        join_names(parts)
    };
    if is_directory && !(rendered.len() > 0 && rendered.last() == '/') {
        rendered.push('/')
    } else {
        rendered
    }
}

fn normal_names_of(s: &[char]) -> (r: Vec<Vec<char>>)
    ensures
        char_name_views(r@) == normal_names(named_components(s@)),
{
    let comps = components(s);
    let ghost nc = named_components(s@);
    let mut out: Vec<Vec<char>> = Vec::new();
    let mut k: usize = 0;
    while k < comps.len()
        invariant
            k <= comps@.len(),
            span_seq(comps@) == path_components(s@),
            ranges_ok(span_seq(comps@), s@.len() as int),
            nc == named_components(s@),
            char_name_views(out@) == normal_names(nc.take(k as int)),
        decreases comps@.len() - k,
    {
        let c: &ComponentSpan = &comps[k];
        assert(span_seq(comps@)[k as int] == crate::paths::span_of(*c));
        assert(nc.take(k + 1).drop_last() =~= nc.take(k as int));
        assert(nc[k as int] == (c.kind, s@.subrange(c.start as int, c.end as int)));
        let ghost before = char_name_views(out@);
        if c.kind == ComponentKind::Normal {
            out.push(slice_chars(s, c.start, c.end));
        }
        assert(char_name_views(out@) =~= normal_names(nc.take(k + 1)));
        k += 1;
    }
    assert(nc.take(comps@.len() as int) =~= nc);
    out
}

/// Writes the path from `from_dir` to `target`.
pub fn render_relative_path(from_dir: &str, target: &str, is_directory: bool) -> (r: String)
    ensures
        r@ == spec_render_relative(from_dir@, target@, is_directory),
{
    let f = normal_names_of(chars_of(from_dir).as_slice());
    let t = normal_names_of(chars_of(target).as_slice());
    let ghost fv = char_name_views(f@);
    let ghost tv = char_name_views(t@);
    let mut shared: usize = 0;
    while shared < f.len() && shared < t.len() && crate::text::eq_chars(
        f[shared].as_slice(),
        t[shared].as_slice(),
    )
        invariant
            shared <= f@.len(),
            shared <= t@.len(),
            fv == char_name_views(f@),
            tv == char_name_views(t@),
            common_prefix_len(fv, tv) == shared + common_prefix_len(
                fv.skip(shared as int),
                tv.skip(shared as int),
            ),
        decreases f@.len() - shared,
    {
        assert(fv.skip(shared as int)[0] == fv[shared as int]);
        assert(tv.skip(shared as int)[0] == tv[shared as int]);
        assert(fv.skip(shared as int).drop_first() =~= fv.skip(shared + 1));
        assert(tv.skip(shared as int).drop_first() =~= tv.skip(shared + 1));
        shared += 1;
    }
    assert(shared < f@.len() && shared < t@.len() ==> fv.skip(shared as int)[0] == fv[shared as int]
        && tv.skip(shared as int)[0] == tv[shared as int]);
    assert(common_prefix_len(fv.skip(shared as int), tv.skip(shared as int)) == 0);
    let mut parts: Vec<Vec<char>> = Vec::new();
    let mut i: usize = shared;
    while i < f.len()
        invariant
            shared <= i <= f@.len(),
            char_name_views(parts@) == Seq::new((i - shared) as nat, |j: int| seq!['.', '.']),
        decreases f@.len() - i,
    {
        let ghost before = char_name_views(parts@);
        let mut up: Vec<char> = Vec::new();
        up.push('.');
        up.push('.');
        assert(up@ =~= seq!['.', '.']);
        parts.push(up);
        assert(char_name_views(parts@) =~= before.push(seq!['.', '.']));
        i += 1;
        assert(char_name_views(parts@) =~= Seq::new((i - shared) as nat, |j: int| seq!['.', '.']));
    }
    let mut j: usize = shared;
    let ghost ups = char_name_views(parts@);
    while j < t.len()
        invariant
            shared <= j <= t@.len(),
            tv == char_name_views(t@),
            char_name_views(parts@) == ups + tv.subrange(shared as int, j as int),
        decreases t@.len() - j,
    {
        let ghost before = char_name_views(parts@);
        let name = crate::text::copy_chars(t[j].as_slice());
        assert(name@ == tv[j as int]);
        parts.push(name);
        assert(char_name_views(parts@) =~= before.push(tv[j as int]));
        j += 1;
        assert(char_name_views(parts@) =~= ups + tv.subrange(shared as int, j as int));
    }
    assert(tv.subrange(shared as int, t@.len() as int) =~= tv.skip(shared as int));
    let mut rendered: Vec<char> = if parts.len() == 0 {
        let mut dot: Vec<char> = Vec::new();
        dot.push('.');
        dot
    } else {
        join_char_names(&parts)
    };
    let n = rendered.len();
    if is_directory && !(n > 0 && rendered[n - 1] == '/') {
        rendered.push('/');
    }
    string_from_chars(rendered.as_slice())
}

/// Names as name components.
pub open spec fn as_normal(names: Seq<Seq<char>>) -> Seq<(ComponentKind, Seq<char>)> {
    names.map_values(|n: Seq<char>| (ComponentKind::Normal, n))
}

/// The components a relative path from the names `f` to the names `t` is
/// written with: a `..` for every name of `f` past the shared ones, then
/// the rest of `t`.
pub open spec fn relative_components(f: Seq<Seq<char>>, t: Seq<Seq<char>>) -> Seq<
    (ComponentKind, Seq<char>),
> {
    let k = common_prefix_len(f, t);
    Seq::new((f.len() - k) as nat, |i: int| (ComponentKind::ParentDir, seq!['.', '.'])) + as_normal(
        t.skip(k as int),
    )
}

proof fn lemma_common_prefix(a: Seq<Seq<char>>, b: Seq<Seq<char>>)
    ensures
        common_prefix_len(a, b) <= a.len(),
        common_prefix_len(a, b) <= b.len(),
        a.take(common_prefix_len(a, b) as int) == b.take(common_prefix_len(a, b) as int),
    decreases a.len(),
{
    if !(a.len() == 0 || b.len() == 0 || a[0] != b[0]) {
        lemma_common_prefix(a.drop_first(), b.drop_first());
        let k = common_prefix_len(a, b) as int;
        assert(a.take(k) =~= seq![a[0]] + a.drop_first().take(k - 1));
        assert(b.take(k) =~= seq![b[0]] + b.drop_first().take(k - 1));
    } else {
        assert(a.take(0) =~= b.take(0));
    }
}

proof fn lemma_resolve_after_names(f: Seq<Seq<char>>, comps: Seq<(ComponentKind, Seq<char>)>)
    ensures
        resolve_names(as_normal(f) + comps) == resolve_names_from(f, comps),
    decreases comps.len(),
{
    if comps.len() == 0 {
        assert(as_normal(f) + comps =~= as_normal(f));
        lemma_resolve_names_of_names(f);
    } else {
        lemma_resolve_after_names(f, comps.drop_last());
        assert((as_normal(f) + comps).drop_last() =~= as_normal(f) + comps.drop_last());
    }
}

proof fn lemma_resolve_names_of_names(f: Seq<Seq<char>>)
    ensures
        resolve_names(as_normal(f)) == Some(f),
    decreases f.len(),
{
    if f.len() > 0 {
        lemma_resolve_names_of_names(f.drop_last());
        assert(as_normal(f).drop_last() =~= as_normal(f.drop_last()));
        assert(f.drop_last().push(f.last()) =~= f);
    } else {
        assert(as_normal(f) =~= Seq::<(ComponentKind, Seq<char>)>::empty());
    }
}

proof fn lemma_resolve_ups(f: Seq<Seq<char>>, m: int)
    requires
        0 <= m <= f.len(),
    ensures
        resolve_names_from(f, Seq::new(m as nat, |i: int| (ComponentKind::ParentDir, seq!['.', '.'])))
            == Some(f.take(f.len() - m)),
    decreases m,
{
    let ups = Seq::new(m as nat, |i: int| (ComponentKind::ParentDir, seq!['.', '.']));
    if m == 0 {
        assert(f.take(f.len() as int) =~= f);
    } else {
        lemma_resolve_ups(f, m - 1);
        assert(ups.drop_last() =~= Seq::new((m - 1) as nat, |i: int| (ComponentKind::ParentDir, seq!['.', '.'])));
        assert(f.take(f.len() - (m - 1)).drop_last() =~= f.take(f.len() - m));
    }
}

proof fn lemma_resolve_then_names(
    f: Seq<Seq<char>>,
    ups: Seq<(ComponentKind, Seq<char>)>,
    mid: Seq<Seq<char>>,
    rest: Seq<Seq<char>>,
)
    requires
        resolve_names_from(f, ups) == Some(mid),
    ensures
        resolve_names_from(f, ups + as_normal(rest)) == Some(mid + rest),
    decreases rest.len(),
{
    if rest.len() == 0 {
        assert(ups + as_normal(rest) =~= ups);
        assert(mid + rest =~= mid);
    } else {
        lemma_resolve_then_names(f, ups, mid, rest.drop_last());
        assert((ups + as_normal(rest)).drop_last() =~= ups + as_normal(rest.drop_last()));
        assert((mid + rest.drop_last()).push(rest.last()) =~= mid + rest);
    }
}

/// Following a relative link undoes writing it: the components that the
/// path from the names `f` of a directory to the names `t` of a target is
/// written with, walked from `f`, lead back to `t`.
pub proof fn lemma_relative_components_resolve(f: Seq<Seq<char>>, t: Seq<Seq<char>>)
    ensures
        resolve_names(as_normal(f) + relative_components(f, t)) == Some(t),
{
    let k = common_prefix_len(f, t) as int;
    lemma_common_prefix(f, t);
    let ups = Seq::new((f.len() - k) as nat, |i: int| (ComponentKind::ParentDir, seq!['.', '.']));
    lemma_resolve_after_names(f, relative_components(f, t));
    lemma_resolve_ups(f, f.len() - k);
    assert(f.take(f.len() - (f.len() - k)) =~= f.take(k));
    lemma_resolve_then_names(f, ups, f.take(k), t.skip(k));
    assert(f.take(k) + t.skip(k) =~= t);
}

/// The components that clean pieces joined with `/` read as: `..` steps
/// back, anything else is a name.
pub open spec fn written_components(pieces: Seq<Seq<char>>) -> Seq<(ComponentKind, Seq<char>)> {
    pieces.map_values(
        |p: Seq<char>|
            (
                if p == seq!['.', '.'] {
                    ComponentKind::ParentDir
                } else {
                    ComponentKind::Normal
                },
                p,
            ),
    )
}

/// Every piece is clean (`paths::clean_piece`).
pub open spec fn all_clean(pieces: Seq<Seq<char>>) -> bool {
    forall|k: int| 0 <= k < pieces.len() ==> clean_piece(#[trigger] pieces[k])
}

/// The components of a path lie within it and those of the first `n`
/// characters of a longer path read the same there.
proof fn lemma_named_prefix(pre: Seq<char>, rest: Seq<char>, kind: ComponentKind, a: int)
    requires
        0 <= a <= pre.len() + rest.len(),
        path_components(pre + rest) == path_components(pre).push((kind, a, (pre.len() + rest.len()) as int)),
    ensures
        named_components(pre + rest) == named_components(pre).push(
            (kind, (pre + rest).subrange(a, (pre.len() + rest.len()) as int)),
        ),
{
    let s = pre + rest;
    lemma_components_facts(pre);
    let pc = path_components(pre);
    assert forall|k: int| 0 <= k < pc.len() implies #[trigger] s.subrange(pc[k].1, pc[k].2)
        == pre.subrange(pc[k].1, pc[k].2) by {
        assert(s.subrange(pc[k].1, pc[k].2) =~= pre.subrange(pc[k].1, pc[k].2));
    }
    assert(named_components(s) =~= named_components(pre).push((kind, s.subrange(a, s.len() as int))))
        by {
        assert forall|k: int| 0 <= k < pc.len() implies #[trigger] named_components(s)[k]
            == named_components(pre)[k] by {
            assert(path_components(s)[k] == pc[k]);
        }
    }
}

/// Clean pieces joined with `/` read back as their written components.
proof fn lemma_components_of_join(ps: Seq<Seq<char>>)
    requires
        ps.len() > 0,
        all_clean(ps),
    ensures
        named_components(join_names(ps)) == written_components(ps),
        join_names(ps).len() > 0,
        join_names(ps).last() != '/',
    decreases ps.len(),
{
    let last = ps.last();
    assert(clean_piece(last));
    assert(forall|j: int| 0 <= j < last.len() ==> last[j] != '/') by {
        assert forall|j: int| 0 <= j < last.len() implies last[j] != '/' by {
            if last[j] == '/' {
                assert(last.contains('/'));
            }
        }
    }
    let kind = if last == seq!['.', '.'] {
        ComponentKind::ParentDir
    } else {
        ComponentKind::Normal
    };
    if ps.len() == 1 {
        let s = join_names(ps);
        assert(s == last);
        lemma_scan_no_slash(s, 0, s.len() as int);
        assert(s.subrange(0, s.len() as int) =~= s);
        assert(path_components(s) =~= seq![(kind, 0int, s.len() as int)]);
        assert(named_components(s) =~= written_components(ps));
    } else {
        let init = ps.drop_last();
        assert(all_clean(init)) by {
            assert forall|k: int| 0 <= k < init.len() implies clean_piece(#[trigger] init[k]) by {
                assert(init[k] == ps[k]);
            }
        }
        lemma_components_of_join(init);
        let pre = join_names(init);
        let rest = seq!['/'] + last;
        let s = join_names(ps);
        assert(s =~= pre + rest);
        let l = pre.len() as int;
        let n = s.len() as int;
        lemma_scan_prefix(pre, rest, l);
        lemma_scan_facts(pre, l);
        let st = scan_components(pre, l);
        assert(s[l] == '/');
        assert(s.subrange(st.1, l) =~= pre.subrange(st.1, l));
        assert(is_rooted(s) == is_rooted(pre));
        assert(scan_components(s, l + 1) == (path_components(pre), l + 1));
        assert forall|j: int| l + 1 <= j < n implies s[j] != '/' by {
            assert(s[j] == last[j - l - 1]);
        }
        lemma_scan_no_slash(s, l + 1, n);
        assert(s.subrange(l + 1, n) =~= last);
        assert(path_components(s) == path_components(pre).push((kind, l + 1, n)));
        lemma_named_prefix(pre, rest, kind, l + 1);
        assert(named_components(s) =~= written_components(ps));
        assert(s.last() == last.last());
    }
}

/// The pieces a relative path is written with are clean, and read back as
/// its components, when the target's names are clean and none is `..`.
proof fn lemma_relative_parts_clean(f: Seq<Seq<char>>, t: Seq<Seq<char>>)
    requires
        all_clean(t),
        forall|k: int| 0 <= k < t.len() ==> #[trigger] t[k] != seq!['.', '.'],
    ensures
        all_clean(relative_components(f, t).map_values(|c: (ComponentKind, Seq<char>)| c.1)),
        written_components(relative_components(f, t).map_values(|c: (ComponentKind, Seq<char>)| c.1))
            == relative_components(f, t),
{
    let comps = relative_components(f, t);
    let parts = comps.map_values(|c: (ComponentKind, Seq<char>)| c.1);
    let k = common_prefix_len(f, t);
    lemma_common_prefix(f, t);
    let up = seq!['.', '.'];
    assert(!up.contains('/')) by {
        if up.contains('/') {
            let j = choose|j: int| 0 <= j < up.len() && up[j] == '/';
            assert(up[j] == '.');
        }
    }
    assert(up != seq!['.']) by {
        assert(up.len() != seq!['.'].len());
    }
    assert forall|i: int| 0 <= i < parts.len() implies clean_piece(#[trigger] parts[i]) by {
        if i < f.len() - k {
            assert(parts[i] == up);
        } else {
            assert(parts[i] == t[k + i - (f.len() - k)]);
        }
    }
    assert forall|i: int| 0 <= i < parts.len() implies #[trigger] written_components(parts)[i]
        == comps[i] by {
        if i >= f.len() - k {
            assert(parts[i] == t[k + i - (f.len() - k)]);
        }
    }
    assert(written_components(parts) =~= comps);
}

/// `.` and `./` are the current directory.
proof fn lemma_current_dir_components(out: Seq<char>)
    requires
        out == seq!['.'] || out == seq!['.', '/'],
    ensures
        named_components(out) == seq![(ComponentKind::CurDir, seq!['.'])],
{
    if out.len() == 2 {
        lemma_scan_prefix(seq!['.'], seq!['/'], 1);
        assert(seq!['.'] + seq!['/'] =~= out);
        lemma_scan_no_slash(seq!['.'], 0, 1);
        assert(seq!['.'].subrange(0, 1) =~= seq!['.']);
        assert(out.subrange(0, 1) =~= seq!['.']);
        assert(scan_components(out, 2) == (seq![(ComponentKind::CurDir, 0int, 1int)], 2int));
        assert(out.subrange(2, 2) =~= Seq::<char>::empty());
        assert(path_components(out) == seq![(ComponentKind::CurDir, 0int, 1int)]);
    } else {
        lemma_scan_no_slash(out, 0, 1);
        assert(out.subrange(0, 1) =~= seq!['.']);
        assert(path_components(out) == seq![(ComponentKind::CurDir, 0int, 1int)]);
    }
    assert(named_components(out) =~= seq![(ComponentKind::CurDir, seq!['.'])]);
}

/// A trailing `/` adds no component.
proof fn lemma_trailing_slash_components(rendered: Seq<char>)
    requires
        rendered.len() > 0,
    ensures
        named_components(rendered + seq!['/']) == named_components(rendered),
{
    let out = rendered + seq!['/'];
    let n = rendered.len() as int;
    lemma_scan_prefix(rendered, seq!['/'], n);
    lemma_scan_facts(rendered, n);
    let st = scan_components(rendered, n);
    assert(out.subrange(st.1, n) =~= rendered.subrange(st.1, n));
    assert(is_rooted(out) == is_rooted(rendered));
    assert(scan_components(out, n + 1) == (path_components(rendered), n + 1));
    assert(out.subrange(n + 1, n + 1) =~= Seq::<char>::empty());
    assert(path_components(out) == path_components(rendered));
    lemma_components_facts(rendered);
    let pc = path_components(rendered);
    assert forall|i: int| 0 <= i < pc.len() implies #[trigger] named_components(out)[i]
        == named_components(rendered)[i] by {
        assert(out.subrange(pc[i].1, pc[i].2) =~= rendered.subrange(pc[i].1, pc[i].2));
    }
    assert(named_components(out) =~= named_components(rendered));
}

/// Following a written relative path undoes writing it: resolving the path
/// that `render_relative_path` writes from `from_dir` to `target`, against
/// `from_dir`, gives the target's names back, for a directory and a target
/// that are made of names only (no root, `.` or `..`).
pub proof fn lemma_rendered_path_resolves(from_dir: Seq<char>, target: Seq<char>, is_directory: bool)
    requires
        forall|k: int|
            0 <= k < named_components(from_dir).len() ==> (#[trigger] named_components(from_dir)[k]).0
                == ComponentKind::Normal,
        forall|k: int|
            0 <= k < named_components(target).len() ==> (#[trigger] named_components(target)[k]).0
                == ComponentKind::Normal,
    ensures
        resolve_names(
            named_components(from_dir) + named_components(
                spec_render_relative(from_dir, target, is_directory),
            ),
        ) == Some(normal_names(named_components(target))),
{
    let f = normal_names(named_components(from_dir));
    let t = normal_names(named_components(target));
    lemma_normal_names_of_names(named_components(from_dir));
    lemma_clean_names(target);
    let comps = relative_components(f, t);
    let parts = comps.map_values(|c: (ComponentKind, Seq<char>)| c.1);
    lemma_render_relative_joins(from_dir, target, is_directory);
    lemma_relative_components_resolve(f, t);
    lemma_relative_parts_clean(f, t);
    let out = spec_render_relative(from_dir, target, is_directory);
    if parts.len() == 0 {
        assert(comps =~= Seq::<(ComponentKind, Seq<char>)>::empty());
        if is_directory {
            assert(out =~= seq!['.', '/']);
        } else {
            assert(out =~= seq!['.']);
        }
        lemma_current_dir_components(out);
        assert(as_normal(f) + comps =~= as_normal(f));
        assert((as_normal(f) + named_components(out)).drop_last() =~= as_normal(f));
        lemma_resolve_names_of_names(f);
    } else {
        lemma_components_of_join(parts);
        let joined = join_names(parts);
        if is_directory {
            assert(out =~= joined + seq!['/']);
            lemma_trailing_slash_components(joined);
        } else {
            assert(out == joined);
        }
        assert(named_components(out) == comps);
    }
}

/// The names of components that are all names.
proof fn lemma_normal_names_of_names(comps: Seq<(ComponentKind, Seq<char>)>)
    requires
        forall|k: int| 0 <= k < comps.len() ==> (#[trigger] comps[k]).0 == ComponentKind::Normal,
    ensures
        as_normal(normal_names(comps)) == comps,
    decreases comps.len(),
{
    if comps.len() > 0 {
        let init = comps.drop_last();
        assert forall|k: int| 0 <= k < init.len() implies (#[trigger] init[k]).0 == ComponentKind::Normal by {
            assert(init[k] == comps[k]);
        }
        lemma_normal_names_of_names(init);
        assert(comps.last().0 == ComponentKind::Normal);
        assert(normal_names(comps) =~= normal_names(init).push(comps.last().1));
        assert(as_normal(normal_names(comps)) =~= as_normal(normal_names(init)).push(
            (ComponentKind::Normal, comps.last().1),
        ));
        assert(init.push(comps.last()) =~= comps);
    } else {
        assert(as_normal(normal_names(comps)) =~= comps);
    }
}

/// The names of a path are clean pieces other than `..`.
proof fn lemma_clean_names(s: Seq<char>)
    ensures
        all_clean(normal_names(named_components(s))),
        forall|k: int|
            0 <= k < normal_names(named_components(s)).len() ==> #[trigger] normal_names(
                named_components(s),
            )[k] != seq!['.', '.'],
{
    lemma_components_facts(s);
    lemma_clean_normal_names(s, named_components(s));
}

proof fn lemma_clean_normal_names(s: Seq<char>, comps: Seq<(ComponentKind, Seq<char>)>)
    requires
        forall|k: int|
            0 <= k < comps.len() && (#[trigger] comps[k]).0 == ComponentKind::Normal ==> clean_piece(
                comps[k].1,
            ) && comps[k].1 != seq!['.', '.'],
    ensures
        all_clean(normal_names(comps)),
        forall|k: int| 0 <= k < normal_names(comps).len() ==> #[trigger] normal_names(comps)[k] != seq![
            '.',
            '.',
        ],
    decreases comps.len(),
{
    if comps.len() > 0 {
        lemma_clean_normal_names(s, comps.drop_last());
        let prev = normal_names(comps.drop_last());
        assert forall|k: int| 0 <= k < normal_names(comps).len() implies clean_piece(
            #[trigger] normal_names(comps)[k],
        ) && normal_names(comps)[k] != seq!['.', '.'] by {
            if k < prev.len() {
                assert(normal_names(comps)[k] == prev[k]);
            } else {
                assert(normal_names(comps)[k] == comps.last().1);
            }
        }
    }
}

/// The path that `render_relative_path` writes is those components joined
/// with `/`: each `..`, then the target's names past the shared ones.
pub proof fn lemma_render_relative_joins(from_dir: Seq<char>, target: Seq<char>, is_directory: bool)
    ensures
        ({
            let f = normal_names(named_components(from_dir));
            let t = normal_names(named_components(target));
            let parts = relative_components(f, t).map_values(|c: (ComponentKind, Seq<char>)| c.1);
            let rendered = if parts.len() == 0 {
                seq!['.']
            } else {
                join_names(parts)
            };
            spec_render_relative(from_dir, target, is_directory) == if is_directory && !(
            rendered.len() > 0 && rendered.last() == '/') {
                rendered.push('/')
            } else {
                rendered
            }
        }),
{
    let f = normal_names(named_components(from_dir));
    let t = normal_names(named_components(target));
    let k = common_prefix_len(f, t);
    let parts = relative_components(f, t).map_values(|c: (ComponentKind, Seq<char>)| c.1);
    assert(parts =~= Seq::new((f.len() - k) as nat, |i: int| seq!['.', '.']) + t.skip(k as int));
}

/// The link destination for a resolved inline path: anchored at the root
/// when it was written so, else relative to the file's directory.
pub open spec fn spec_render_link_destination(
    file: Seq<char>,
    syntax: ReferenceSyntax,
    resolved: Seq<char>,
    is_directory: bool,
) -> Seq<char> {
    if syntax == ReferenceSyntax::WorkspaceRoot {
        seq!['/'] + spec_render_repo_relative(resolved, is_directory)
    } else {
        spec_render_relative(
            match spec_parent(file) {
                Some(p) => p,
                None => seq![],
            },
            resolved,
            is_directory,
        )
    }
}

pub fn render_link_destination(
    file: &str,
    candidate: &CandidateReference,
    resolved: &ResolvedReference,
    is_directory: bool,
) -> (r: String)
    ensures
        r@ == spec_render_link_destination(
            file@,
            candidate.syntax,
            resolved.repo_relative_path@,
            is_directory,
        ),
{
    if candidate.syntax == ReferenceSyntax::WorkspaceRoot {
        let mut v: Vec<char> = Vec::new();
        v.push('/');
        let rest = render_repo_relative(resolved, is_directory);
        push_str(&mut v, rest.as_str());
        return string_from_chars(v.as_slice());
    }
    let from_dir = match parent(file) {
        Some(p) => p,
        None => String::new(),
    };
    render_relative_path(from_dir.as_str(), resolved.repo_relative_path.as_str(), is_directory)
}

} // verus!
