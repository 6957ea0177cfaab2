//! Rendering of `match` results: a field is split into tokens at the
//! analyzer's separators, every token into its analyzed spans, and a span
//! whose terms hit the query is set in bold; separators and surfaces are
//! escaped for the ` | `-separated row format.
use vstd::prelude::*;

use crate::analyzer::{
    analyze_surface_spans, is_separator, lemma_surface_spans_cover, spans_view,
    spec_is_separator, surface_spans, surfaces_text, AnalyzedSpan,
};
use crate::matcher::views;
use crate::score::Field;
use crate::text::{chars_of, str_eq, string_from_chars};

verus! {

broadcast use vstd::seq_lib::group_seq_properties;

/// Output mode for `match`: exactly one is active per invocation.
#[derive(Clone, Copy, Debug, PartialEq, Eq, Structural)]
pub enum MatchOutputMode {
    Default,
    PathOnly,
    Explain,
}

/// Whether ANSI styling is applied to rendered output.
#[derive(Clone, Copy, Debug, PartialEq, Eq, Structural)]
pub enum ColorRendering {
    Plain,
    Ansi,
}

/// The rank of a result's strongest field when ties are broken: name,
/// description, path, then no field.
pub open spec fn spec_field_priority(field: Option<Field>) -> u8 {
    match field {
        Some(Field::Name) => 0,
        Some(Field::Description) => 1,
        Some(Field::Path) => 2,
        None => 3,
    }
}

pub fn field_priority(field: Option<Field>) -> (r: u8)
    ensures
        r == spec_field_priority(field),
{
    match field {
        Some(Field::Name) => 0,
        Some(Field::Description) => 1,
        Some(Field::Path) => 2,
        None => 3,
    }
}

// ---------------------------------------------------------------------------
// Escaping
// ---------------------------------------------------------------------------
/// A `|` becomes `\|` and a line break a space, so that a field stays on
/// its row and in its column.
pub open spec fn escaped_char(c: char) -> Seq<char> {
    if c == '|' {
        seq!['\\', '|']
    } else if c == '\n' || c == '\r' {
        seq![' ']
    } else {
        seq![c]
    }
}

pub open spec fn escape_field(s: Seq<char>) -> Seq<char>
    decreases s.len(),
{
    if s.len() == 0 {
        seq![]
    } else {
        escape_field(s.drop_last()) + escaped_char(s.last())
    }
}

pub proof fn lemma_escape_concat(a: Seq<char>, b: Seq<char>)
    ensures
        escape_field(a + b) == escape_field(a) + escape_field(b),
    decreases b.len(),
{
    if b.len() == 0 {
        assert(a + b =~= a);
        assert(escape_field(a) + escape_field(b) =~= escape_field(a));
    } else {
        assert((a + b).drop_last() =~= a + b.drop_last());
        assert((a + b).last() == b.last());
        lemma_escape_concat(a, b.drop_last());
        assert(escape_field(a) + escape_field(b.drop_last()) + escaped_char(b.last()) =~= escape_field(
            a,
        ) + (escape_field(b.drop_last()) + escaped_char(b.last())));
    }
}

/// Appends `ch`, escaped, to `rendered`.
pub fn push_escaped_char(rendered: &mut Vec<char>, ch: char)
    ensures
        final(rendered)@ == old(rendered)@ + escaped_char(ch),
{
    if ch == '|' {
        rendered.push('\\');
        rendered.push('|');
    } else if ch == '\n' || ch == '\r' {
        rendered.push(' ');
    } else {
        rendered.push(ch);
    }
    assert(rendered@ =~= old(rendered)@ + escaped_char(ch));
}

fn push_escaped(rendered: &mut Vec<char>, s: &[char])
    ensures
        final(rendered)@ == old(rendered)@ + escape_field(s@),
{
    let ghost start = rendered@;
    let mut i: usize = 0;
    while i < s.len()
        invariant
            i <= s@.len(),
            rendered@ == start + escape_field(s@.take(i as int)),
        decreases s@.len() - i,
    {
        assert(s@.take(i + 1).drop_last() =~= s@.take(i as int));
        push_escaped_char(rendered, s[i]);
        i += 1;
        assert(rendered@ =~= start + escape_field(s@.take(i as int)));
    }
    assert(s@.take(s@.len() as int) =~= s@);
}

/// A row field with `|` escaped and line breaks turned into spaces.
pub fn escape_row_field(s: &str) -> (r: String)
    ensures
        r@ == escape_field(s@),
{
    let chars = chars_of(s);
    let mut out: Vec<char> = Vec::new();
    push_escaped(&mut out, chars.as_slice());
    assert(out@ =~= escape_field(s@));
    string_from_chars(out.as_slice())
}

// ---------------------------------------------------------------------------
// Highlighting
// ---------------------------------------------------------------------------
pub open spec fn bold_on() -> Seq<char> {
    seq!['\u{1b}', '[', '1', 'm']
}

pub open spec fn bold_off() -> Seq<char> {
    seq!['\u{1b}', '[', '0', 'm']
}

/// One of `terms` is a query term.
pub open spec fn hits_query(terms: Seq<Seq<char>>, query: Seq<Seq<char>>) -> bool {
    exists|k: int| 0 <= k < terms.len() && query.contains(#[trigger] terms[k])
}

/// A span as rendered: its escaped surface, in bold when colors are on and
/// one of its terms is a query term.
pub open spec fn render_span(
    span: (Seq<char>, Seq<Seq<char>>),
    query: Seq<Seq<char>>,
    ansi: bool,
) -> Seq<char> {
    if ansi && hits_query(span.1, query) {
        bold_on() + escape_field(span.0) + bold_off()
    } else {
        escape_field(span.0)
    }
}

pub open spec fn render_spans(
    spans: Seq<(Seq<char>, Seq<Seq<char>>)>,
    query: Seq<Seq<char>>,
    ansi: bool,
) -> Seq<char>
    decreases spans.len(),
{
    if spans.len() == 0 {
        seq![]
    } else {
        render_spans(spans.drop_last(), query, ansi) + render_span(spans.last(), query, ansi)
    }
}

/// A token as rendered; an empty token renders as nothing.
pub open spec fn render_token(token: Seq<char>, query: Seq<Seq<char>>, ansi: bool) -> Seq<char> {
    if token.len() == 0 {
        seq![]
    } else {
        render_spans(surface_spans(token), query, ansi)
    }
}

/// What has been rendered of `s`, and the token still being read.
pub open spec fn render_state(s: Seq<char>, query: Seq<Seq<char>>, ansi: bool) -> (
    Seq<char>,
    Seq<char>,
)
    decreases s.len(),
{
    if s.len() == 0 {
        (seq![], seq![])
    } else {
        let prev = render_state(s.drop_last(), query, ansi);
        let c = s.last();
        if spec_is_separator(c) {
            (prev.0 + render_token(prev.1, query, ansi) + escaped_char(c), seq![])
        } else {
            (prev.0, prev.1.push(c))
        }
    }
}

/// A field as rendered: every token as `render_token` renders it, every
/// separator escaped.
pub open spec fn render_field(s: Seq<char>, query: Seq<Seq<char>>, ansi: bool) -> Seq<char> {
    render_state(s, query, ansi).0 + render_token(render_state(s, query, ansi).1, query, ansi)
}

fn contains_term(query: &Vec<String>, term: &String) -> (r: bool)
    ensures
        r == views(query@).contains(term@),
{
    let mut i: usize = 0;
    while i < query.len()
        invariant
            i <= query@.len(),
            forall|j: int| 0 <= j < i ==> views(query@)[j] != term@,
        decreases query@.len() - i,
    {
        if str_eq(query[i].as_str(), term.as_str()) {
            assert(views(query@)[i as int] == term@);
            return true;
        }
        i += 1;
    }
    false
}

fn span_hits(terms: &Vec<String>, query: &Vec<String>) -> (r: bool)
    ensures
        r == hits_query(views(terms@), views(query@)),
{
    let mut i: usize = 0;
    while i < terms.len()
        invariant
            i <= terms@.len(),
            forall|j: int| 0 <= j < i ==> !views(query@).contains(#[trigger] views(terms@)[j]),
        decreases terms@.len() - i,
    {
        if contains_term(query, &terms[i]) {
            assert(views(query@).contains(views(terms@)[i as int]));
            return true;
        }
        i += 1;
    }
    false
}

/// Appends the rendering of `token` to `rendered` and empties `token`.
pub fn flush_render_token(
    rendered: &mut Vec<char>,
    token: &mut Vec<char>,
    query_terms: &Vec<String>,
    color: ColorRendering,
)
    ensures
        final(rendered)@ == old(rendered)@ + render_token(
            old(token)@,
            views(query_terms@),
            color == ColorRendering::Ansi,
        ),
        final(token)@ == Seq::<char>::empty(),
{
    let ghost q = views(query_terms@);
    let ghost ansi = color == ColorRendering::Ansi;
    if token.len() == 0 {
        assert(rendered@ =~= old(rendered)@ + render_token(old(token)@, q, ansi));
        return;
    }
    let text = string_from_chars(token.as_slice());
    let spans = analyze_surface_spans(text.as_str());
    let ghost start = rendered@;
    let ghost sv = spans_view(spans@);
    let mut k: usize = 0;
    while k < spans.len()
        invariant
            k <= spans@.len(),
            sv == spans_view(spans@),
            q == views(query_terms@),
            ansi == (color == ColorRendering::Ansi),
            rendered@ == start + render_spans(sv.take(k as int), q, ansi),
        decreases spans@.len() - k,
    {
        let span: &AnalyzedSpan = &spans[k];
        assert(sv.take(k + 1).drop_last() =~= sv.take(k as int));
        assert(sv[k as int] == (span.surface@, views(span.terms@)));
        let surface = chars_of(span.surface.as_str());
        let bold = color == ColorRendering::Ansi && span_hits(&span.terms, query_terms);
        let ghost mid = rendered@;
        if bold {
            rendered.push('\u{1b}');
            rendered.push('[');
            rendered.push('1');
            rendered.push('m');
            push_escaped(rendered, surface.as_slice());
            rendered.push('\u{1b}');
            rendered.push('[');
            rendered.push('0');
            rendered.push('m');
            assert(rendered@ =~= mid + (bold_on() + escape_field(surface@) + bold_off()));
        } else {
            push_escaped(rendered, surface.as_slice());
        }
        k += 1;
        assert(rendered@ =~= start + render_spans(sv.take(k as int), q, ansi));
    }
    assert(sv.take(spans@.len() as int) =~= sv);
    token.clear();
}

/// Renders a field of a result row, with query terms in bold when colors
/// are on.
pub fn render_match_field(input: &str, query_terms: &Vec<String>, color: ColorRendering) -> (r:
    String)
    ensures
        r@ == render_field(input@, views(query_terms@), color == ColorRendering::Ansi),
{
    let ghost q = views(query_terms@);
    let ghost ansi = color == ColorRendering::Ansi;
    let chars = chars_of(input);
    let mut rendered: Vec<char> = Vec::new();
    let mut token: Vec<char> = Vec::new();
    let mut i: usize = 0;
    assert(chars@.take(0) =~= Seq::<char>::empty());
    while i < chars.len()
        invariant
            i <= chars@.len(),
            chars@ == input@,
            q == views(query_terms@),
            ansi == (color == ColorRendering::Ansi),
            rendered@ == render_state(chars@.take(i as int), q, ansi).0,
            token@ == render_state(chars@.take(i as int), q, ansi).1,
        decreases chars@.len() - i,
    {
        let ch = chars[i];
        assert(chars@.take(i + 1).drop_last() =~= chars@.take(i as int));
        if is_separator(ch) {
            flush_render_token(&mut rendered, &mut token, query_terms, color);
            push_escaped_char(&mut rendered, ch);
        } else {
            token.push(ch);
        }
        i += 1;
    }
    assert(chars@.take(chars@.len() as int) =~= chars@);
    flush_render_token(&mut rendered, &mut token, query_terms, color);
    string_from_chars(rendered.as_slice())
}

// ---------------------------------------------------------------------------
// Laws
// ---------------------------------------------------------------------------
proof fn lemma_render_spans_plain(spans: Seq<(Seq<char>, Seq<Seq<char>>)>, query: Seq<Seq<char>>)
    ensures
        render_spans(spans, query, false) == escape_field(surfaces_text(spans)),
    decreases spans.len(),
{
    if spans.len() > 0 {
        lemma_render_spans_plain(spans.drop_last(), query);
        lemma_escape_concat(surfaces_text(spans.drop_last()), spans.last().0);
    }
}

proof fn lemma_render_token_plain(token: Seq<char>, query: Seq<Seq<char>>)
    ensures
        render_token(token, query, false) == escape_field(token),
{
    if token.len() > 0 {
        lemma_render_spans_plain(surface_spans(token), query);
        lemma_surface_spans_cover(token);
    }
}

proof fn lemma_render_state_plain(s: Seq<char>, query: Seq<Seq<char>>)
    ensures
        render_state(s, query, false).0 + escape_field(render_state(s, query, false).1)
            == escape_field(s),
    decreases s.len(),
{
    if s.len() > 0 {
        let prev = render_state(s.drop_last(), query, false);
        lemma_render_state_plain(s.drop_last(), query);
        let c = s.last();
        if spec_is_separator(c) {
            lemma_render_token_plain(prev.1, query);
            assert(escape_field(Seq::<char>::empty()) =~= Seq::<char>::empty());
            assert(prev.0 + escape_field(prev.1) + escaped_char(c) + escape_field(Seq::<char>::empty())
                =~= prev.0 + escape_field(prev.1) + escaped_char(c));
        } else {
            assert(prev.1.push(c).drop_last() =~= prev.1);
            assert(prev.0 + escape_field(prev.1.push(c)) =~= prev.0 + escape_field(prev.1)
                + escaped_char(c));
        }
    }
}

/// Without colors a field renders as itself, with `|` escaped and line
/// breaks flattened: no character is lost, added or reordered.
pub proof fn lemma_plain_rendering_is_escaping(s: Seq<char>, query: Seq<Seq<char>>)
    ensures
        render_field(s, query, false) == escape_field(s),
{
    lemma_render_state_plain(s, query);
    lemma_render_token_plain(render_state(s, query, false).1, query);
}

} // verus!
