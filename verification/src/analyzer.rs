//! The text analyzer behind `match`: a token is split at camel-case
//! boundaries and at a trailing possessive, a curated compound is split
//! into its parts, and every part is lowercased, freed of its possessive,
//! checked against the stop words and reduced to its English stem.
use vstd::prelude::*;

use crate::matcher::views;
use crate::text::{
    chars_of, is_ascii_lowercase, is_ascii_punctuation, is_ascii_uppercase, is_whitespace,
    slice_chars, spec_is_ascii_lowercase, spec_is_ascii_punctuation, spec_is_ascii_uppercase,
    str_eq, string_from_chars, to_lowercase, unicode_lowercase, unicode_white_space,
};

verus! {

broadcast use vstd::seq_lib::group_seq_properties;

// ---------------------------------------------------------------------------
// Stop words and stemming
// ---------------------------------------------------------------------------
/// The English stop words, which are never indexed nor searched for.
pub open spec fn stopword_list() -> Seq<Seq<char>> {
    seq![
        "a"@, "an"@, "and"@, "are"@, "as"@, "at"@, "be"@, "but"@, "by"@, "for"@, "if"@, "in"@,
        "into"@, "is"@, "it"@, "no"@, "not"@, "of"@, "on"@, "or"@, "such"@, "that"@, "the"@,
        "their"@, "then"@, "there"@, "these"@, "they"@, "this"@, "to"@, "was"@, "will"@,
        "with"@,
    ]
}

pub fn is_stopword(term: &str) -> (r: bool)
    ensures
        r == stopword_list().contains(term@),
{
    let words: Vec<&str> = vec![
        "a", "an", "and", "are", "as", "at", "be", "but", "by", "for", "if", "in", "into", "is",
        "it", "no", "not", "of", "on", "or", "such", "that", "the", "their", "then", "there",
        "these", "they", "this", "to", "was", "will", "with",
    ];
    assert(words@.map_values(|w: &str| w@) =~= stopword_list());
    let mut i: usize = 0;
    while i < words.len()
        invariant
            i <= words@.len(),
            words@.map_values(|w: &str| w@) == stopword_list(),
            forall|j: int| 0 <= j < i ==> stopword_list()[j] != term@,
        decreases words@.len() - i,
    {
        if str_eq(words[i], term) {
            assert(stopword_list()[i as int] == term@);
            return true;
        }
        i += 1;
    }
    false
}

/// The stem that the English (Porter2) algorithm of `rust_stemmers`
/// gives for `word`.
pub uninterp spec fn english_stem(word: Seq<char>) -> Seq<char>;

/// Calls `rust_stemmers::Stemmer::stem` on a stemmer made by
/// `Stemmer::create(Algorithm::English)`.  The stem depends on the word
/// alone; the contract only names it.
#[verifier::external_body]
pub(crate) fn stem_word(word: &str) -> (r: String)
    ensures
        r@ == english_stem(word@),
{
    rust_stemmers::Stemmer::create(rust_stemmers::Algorithm::English).stem(word).into_owned()
}

// ---------------------------------------------------------------------------
// Separators and splitting
// ---------------------------------------------------------------------------
/// Whitespace and ASCII punctuation separate tokens; the apostrophe does
/// not, so `you're` and `Jim's` stay whole.
pub open spec fn spec_is_separator(ch: char) -> bool {
    unicode_white_space(ch) || (spec_is_ascii_punctuation(ch) && ch != '\'')
}

pub fn is_separator(ch: char) -> (r: bool)
    ensures
        r == spec_is_separator(ch),
{
    is_whitespace(ch) || (is_ascii_punctuation(ch) && ch != '\'')
}

/// The pieces that `str::split` gives for a separator predicate: the runs
/// between separators, empty ones included; there is always at least one.
pub open spec fn split_pieces(s: Seq<char>, sep: spec_fn(char) -> bool) -> Seq<Seq<char>>
    decreases s.len(),
{
    if s.len() == 0 {
        seq![Seq::empty()]
    } else {
        let prev = split_pieces(s.drop_last(), sep);
        if sep(s.last()) {
            prev.push(Seq::empty())
        } else {
            prev.update(prev.len() - 1, prev.last().push(s.last()))
        }
    }
}

pub proof fn lemma_split_pieces_nonempty(s: Seq<char>, sep: spec_fn(char) -> bool)
    ensures
        split_pieces(s, sep).len() >= 1,
    decreases s.len(),
{
    if s.len() > 0 {
        lemma_split_pieces_nonempty(s.drop_last(), sep);
    }
}

pub open spec fn separator_fn() -> spec_fn(char) -> bool {
    |c: char| spec_is_separator(c)
}

// ---------------------------------------------------------------------------
// Camel case
// ---------------------------------------------------------------------------
/// A part starts at `i` where an uppercase ASCII letter follows a lowercase
/// one, or ends a run of capitals and is followed by a lowercase letter
/// (`XMLParser` splits before `P`).
pub open spec fn camel_boundary(s: Seq<char>, i: int) -> bool {
    &&& spec_is_ascii_uppercase(s[i])
    &&& (spec_is_ascii_lowercase(s[i - 1]) || (spec_is_ascii_uppercase(s[i - 1]) && i + 1 < s.len()
        && spec_is_ascii_lowercase(s[i + 1])))
}

/// The camel-case parts of `s[start..]`, with the boundaries before `i`
/// already taken into account.
pub open spec fn camel_parts_from(s: Seq<char>, start: int, i: int) -> Seq<Seq<char>>
    decreases s.len() - i,
{
    if i >= s.len() {
        seq![s.subrange(start, s.len() as int)]
    } else if camel_boundary(s, i) {
        seq![s.subrange(start, i)] + camel_parts_from(s, i, i + 1)
    } else {
        camel_parts_from(s, start, i + 1)
    }
}

/// The camel-case parts of `s`; none for the empty string.
pub open spec fn camel_parts(s: Seq<char>) -> Seq<Seq<char>> {
    if s.len() == 0 {
        seq![]
    } else {
        camel_parts_from(s, 0, 1)
    }
}

proof fn lemma_camel_parts_from(s: Seq<char>, start: int, i: int)
    requires
        0 <= start < i <= s.len(),
    ensures
        camel_parts_from(s, start, i).flatten() == s.subrange(start, s.len() as int),
        forall|k: int|
            0 <= k < camel_parts_from(s, start, i).len() ==> (#[trigger] camel_parts_from(
                s,
                start,
                i,
            )[k]).len() > 0,
    decreases s.len() - i,
{
    let parts = camel_parts_from(s, start, i);
    if i >= s.len() {
        seq![s.subrange(start, s.len() as int)].lemma_flatten_singleton();
    } else if camel_boundary(s, i) {
        lemma_camel_parts_from(s, i, i + 1);
        let head = seq![s.subrange(start, i)];
        let rest = camel_parts_from(s, i, i + 1);
        vstd::seq_lib::lemma_flatten_concat(head, rest);
        head.lemma_flatten_singleton();
        assert(s.subrange(start, i) + s.subrange(i, s.len() as int) =~= s.subrange(
            start,
            s.len() as int,
        ));
        assert forall|k: int| 0 <= k < parts.len() implies (#[trigger] parts[k]).len() > 0 by {
            if k > 0 {
                assert(parts[k] == rest[k - 1]);
            }
        }
    } else {
        lemma_camel_parts_from(s, start, i + 1);
    }
}

/// Joined in order, the camel-case parts give back the input, and none of
/// them is empty.
pub proof fn lemma_camel_parts_cover(s: Seq<char>)
    ensures
        camel_parts(s).flatten() == s,
        forall|k: int| 0 <= k < camel_parts(s).len() ==> (#[trigger] camel_parts(s)[k]).len() > 0,
{
    if s.len() > 0 {
        lemma_camel_parts_from(s, 0, 1);
        assert(s.subrange(0, s.len() as int) =~= s);
    }
}

pub open spec fn char_views(v: Seq<Vec<char>>) -> Seq<Seq<char>> {
    v.map_values(|x: Vec<char>| x@)
}

fn is_camel_boundary(s: &[char], i: usize) -> (r: bool)
    requires
        1 <= i < s@.len(),
    ensures
        r == camel_boundary(s@, i as int),
{
    let previous = s[i - 1];
    let current = s[i];
    let next_is_lower = i + 1 < s.len() && is_ascii_lowercase(s[i + 1]);
    is_ascii_uppercase(current) && (is_ascii_lowercase(previous) || (is_ascii_uppercase(previous)
        && next_is_lower))
}

fn camel_split_chars(s: &[char]) -> (r: Vec<Vec<char>>)
    ensures
        char_views(r@) == camel_parts(s@),
{
    let n = s.len();
    let mut parts: Vec<Vec<char>> = Vec::new();
    if n == 0 {
        assert(char_views(parts@) =~= camel_parts(s@));
        return parts;
    }
    let mut start: usize = 0;
    let mut i: usize = 1;
    assert(char_views(parts@) + camel_parts_from(s@, 0, 1) =~= camel_parts(s@));
    while i < n
        invariant
            n == s@.len(),
            0 <= start < i <= n,
            char_views(parts@) + camel_parts_from(s@, start as int, i as int) == camel_parts(s@),
        decreases n - i,
    {
        if is_camel_boundary(s, i) {
            let ghost before = char_views(parts@);
            let piece = slice_chars(s, start, i);
            parts.push(piece);
            assert(char_views(parts@) =~= before.push(s@.subrange(start as int, i as int)));
            assert(before + camel_parts_from(s@, start as int, i as int) =~= before.push(
                s@.subrange(start as int, i as int),
            ) + camel_parts_from(s@, i as int, i + 1));
            start = i;
        }
        i += 1;
    }
    let ghost before = char_views(parts@);
    let last = slice_chars(s, start, n);
    parts.push(last);
    assert(char_views(parts@) =~= before + camel_parts_from(s@, start as int, n as int));
    parts
}

/// Splits `input` at its camel-case boundaries.
pub fn split_camel_case(input: &str) -> (r: Vec<String>)
    ensures
        views(r@) == camel_parts(input@),
{
    let chars = chars_of(input);
    let parts = camel_split_chars(chars.as_slice());
    let mut out: Vec<String> = Vec::new();
    let mut k: usize = 0;
    while k < parts.len()
        invariant
            k <= parts@.len(),
            char_views(parts@) == camel_parts(input@),
            views(out@) == char_views(parts@).take(k as int),
        decreases parts@.len() - k,
    {
        let ghost before = out@;
        let piece = string_from_chars(parts[k].as_slice());
        out.push(piece);
        assert(out@ == before.push(piece));
        assert(piece@ == char_views(parts@)[k as int]);
        assert(views(out@) =~= views(before).push(piece@));
        k += 1;
        assert(views(out@) =~= char_views(parts@).take(k as int));
    }
    assert(char_views(parts@).take(parts@.len() as int) =~= char_views(parts@));
    out
}

// ---------------------------------------------------------------------------
// Possessives and compounds
// ---------------------------------------------------------------------------
pub open spec fn is_letter_s(c: char) -> bool {
    c == 's' || c == 'S'
}

/// The token ends in `'s` or `s'`, in either letter case; those are the
/// tokens whose lowercase form ends in `'s` or `s'`.
pub open spec fn has_possessive_surface(t: Seq<char>) -> bool {
    &&& t.len() >= 2
    &&& ((t[t.len() - 2] == '\'' && is_letter_s(t[t.len() - 1])) || (is_letter_s(t[t.len() - 2])
        && t[t.len() - 1] == '\''))
}

fn possessive_surface(t: &[char]) -> (r: bool)
    ensures
        r == has_possessive_surface(t@),
{
    let n = t.len();
    if n < 2 {
        return false;
    }
    let a = t[n - 2];
    let b = t[n - 1];
    (a == '\'' && (b == 's' || b == 'S')) || ((a == 's' || a == 'S') && b == '\'')
}

/// A lowercase token without its trailing `'s` or `s'`.
pub open spec fn strip_possessive(l: Seq<char>) -> Seq<char> {
    if l.len() >= 2 && ((l[l.len() - 2] == '\'' && l[l.len() - 1] == 's') || (l[l.len() - 2]
        == 's' && l[l.len() - 1] == '\'')) {
        l.take(l.len() - 2)
    } else {
        l
    }
}

fn strip_possessive_chars(l: &[char]) -> (r: Vec<char>)
    ensures
        r@ == strip_possessive(l@),
{
    let n = l.len();
    if n >= 2 && ((l[n - 2] == '\'' && l[n - 1] == 's') || (l[n - 2] == 's' && l[n - 1] == '\'')) {
        slice_chars(l, 0, n - 2)
    } else {
        slice_chars(l, 0, n)
    }
}

/// The compound `execplan`, in any letter case; its lowercase form is
/// `execplan` exactly when this holds.
pub open spec fn is_execplan(t: Seq<char>) -> bool {
    let lower = seq!['e', 'x', 'e', 'c', 'p', 'l', 'a', 'n'];
    let upper = seq!['E', 'X', 'E', 'C', 'P', 'L', 'A', 'N'];
    t.len() == 8 && forall|k: int| 0 <= k < 8 ==> (t[k] == lower[k] || t[k] == upper[k])
}

fn execplan(t: &[char]) -> (r: bool)
    ensures
        r == is_execplan(t@),
{
    if t.len() != 8 {
        return false;
    }
    let lower: [char; 8] = ['e', 'x', 'e', 'c', 'p', 'l', 'a', 'n'];
    let upper: [char; 8] = ['E', 'X', 'E', 'C', 'P', 'L', 'A', 'N'];
    assert(lower@ =~= seq!['e', 'x', 'e', 'c', 'p', 'l', 'a', 'n']);
    assert(upper@ =~= seq!['E', 'X', 'E', 'C', 'P', 'L', 'A', 'N']);
    let mut k: usize = 0;
    while k < 8
        invariant
            t@.len() == 8,
            k <= 8,
            lower@ == seq!['e', 'x', 'e', 'c', 'p', 'l', 'a', 'n'],
            upper@ == seq!['E', 'X', 'E', 'C', 'P', 'L', 'A', 'N'],
            forall|j: int| 0 <= j < k ==> (t@[j] == lower@[j] || t@[j] == upper@[j]),
        decreases 8 - k,
    {
        if t[k] != lower[k] && t[k] != upper[k] {
            return false;
        }
        k += 1;
    }
    true
}

// ---------------------------------------------------------------------------
// Terms and spans
// ---------------------------------------------------------------------------
/// The terms of one token: lowercased, without a trailing possessive, none
/// when that leaves nothing or a stop word, else its stem.
pub open spec fn token_terms(token: Seq<char>) -> Seq<Seq<char>> {
    let n = strip_possessive(unicode_lowercase(token));
    if n.len() == 0 || stopword_list().contains(n) {
        seq![]
    } else {
        seq![english_stem(n)]
    }
}

/// The terms of a single token.
pub fn analyze_token(token: &str) -> (r: Vec<String>)
    ensures
        views(r@) == token_terms(token@),
{
    let lower = to_lowercase(token);
    let lc = chars_of(lower.as_str());
    let n = strip_possessive_chars(lc.as_slice());
    let mut out: Vec<String> = Vec::new();
    if n.len() == 0 {
        assert(views(out@) =~= token_terms(token@));
        return out;
    }
    let ns = string_from_chars(n.as_slice());
    if is_stopword(ns.as_str()) {
        assert(views(out@) =~= token_terms(token@));
        return out;
    }
    out.push(stem_word(ns.as_str()));
    assert(views(out@) =~= token_terms(token@));
    out
}

/// A piece of a token as it appears in the text, with the terms that it
/// contributes.
pub struct AnalyzedSpan {
    pub surface: String,
    pub terms: Vec<String>,
}

pub open spec fn span_view(sp: AnalyzedSpan) -> (Seq<char>, Seq<Seq<char>>) {
    (sp.surface@, views(sp.terms@))
}

pub open spec fn spans_view(v: Seq<AnalyzedSpan>) -> Seq<(Seq<char>, Seq<Seq<char>>)> {
    v.map_values(|sp: AnalyzedSpan| span_view(sp))
}

/// The spans of one camel-case part: the two halves of a curated compound,
/// or the part itself.
pub open spec fn part_spans(part: Seq<char>) -> Seq<(Seq<char>, Seq<Seq<char>>)> {
    if is_execplan(part) {
        seq![
            (part.take(4), seq![english_stem("exec"@)]),
            (part.skip(4), seq![english_stem("plan"@)]),
        ]
    } else {
        seq![(part, token_terms(part))]
    }
}

/// The spans of a sequence of parts, empty parts contributing none.
pub open spec fn parts_spans(parts: Seq<Seq<char>>) -> Seq<(Seq<char>, Seq<Seq<char>>)>
    decreases parts.len(),
{
    if parts.len() == 0 {
        seq![]
    } else {
        parts_spans(parts.drop_last()) + if parts.last().len() > 0 {
            part_spans(parts.last())
        } else {
            seq![]
        }
    }
}

/// The spans of a token: those of its camel-case parts, then a termless
/// span for a trailing possessive.
pub open spec fn surface_spans(token: Seq<char>) -> Seq<(Seq<char>, Seq<Seq<char>>)> {
    if has_possessive_surface(token) {
        parts_spans(camel_parts(token.take(token.len() - 2))).push(
            (token.skip(token.len() - 2), seq![]),
        )
    } else {
        parts_spans(camel_parts(token))
    }
}

fn analyze_surface_part(part: &[char]) -> (r: Vec<AnalyzedSpan>)
    ensures
        spans_view(r@) == part_spans(part@),
{
    let mut out: Vec<AnalyzedSpan> = Vec::new();
    if execplan(part) {
        let mut first_terms: Vec<String> = Vec::new();
        first_terms.push(stem_word("exec"));
        let mut second_terms: Vec<String> = Vec::new();
        second_terms.push(stem_word("plan"));
        assert(views(first_terms@) =~= seq![english_stem("exec"@)]);
        assert(views(second_terms@) =~= seq![english_stem("plan"@)]);
        out.push(
            AnalyzedSpan { surface: string_from_chars(slice_chars(part, 0, 4).as_slice()), terms: first_terms },
        );
        out.push(
            AnalyzedSpan { surface: string_from_chars(slice_chars(part, 4, 8).as_slice()), terms: second_terms },
        );
    } else {
        let surface = string_from_chars(part);
        let terms = analyze_token(surface.as_str());
        out.push(AnalyzedSpan { surface, terms });
    }
    assert(spans_view(out@) =~= part_spans(part@));
    out
}

/// Splits a token into the spans that the renderer highlights one by one.
pub fn analyze_surface_spans(token: &str) -> (r: Vec<AnalyzedSpan>)
    ensures
        spans_view(r@) == surface_spans(token@),
{
    let t = chars_of(token);
    let n = t.len();
    let possessive = possessive_surface(t.as_slice());
    let base_len = if possessive {
        n - 2
    } else {
        n
    };
    let base = slice_chars(t.as_slice(), 0, base_len);
    let parts = camel_split_chars(base.as_slice());
    let mut spans: Vec<AnalyzedSpan> = Vec::new();
    let mut k: usize = 0;
    while k < parts.len()
        invariant
            k <= parts@.len(),
            spans_view(spans@) == parts_spans(char_views(parts@).take(k as int)),
        decreases parts@.len() - k,
    {
        let ghost before = spans_view(spans@);
        assert(char_views(parts@).take(k + 1).drop_last() =~= char_views(parts@).take(k as int));
        if parts[k].len() > 0 {
            let mut more = analyze_surface_part(parts[k].as_slice());
            let ghost added = spans_view(more@);
            spans.append(&mut more);
            assert(spans_view(spans@) =~= before + added);
        } else {
            assert(spans_view(spans@) =~= before + seq![]);
        }
        k += 1;
    }
    assert(char_views(parts@).take(parts@.len() as int) =~= char_views(parts@));
    if possessive {
        let ghost before = spans_view(spans@);
        let suffix = string_from_chars(slice_chars(t.as_slice(), n - 2, n).as_slice());
        spans.push(AnalyzedSpan { surface: suffix, terms: Vec::new() });
        assert(views(Seq::<String>::empty()) =~= Seq::<Seq<char>>::empty());
        assert(spans_view(spans@) =~= before.push((t@.skip(n - 2), seq![])));
    } else {
        assert(base@ =~= t@);
    }
    spans
}

/// The surfaces of a sequence of spans, joined in order.
pub open spec fn surfaces_text(spans: Seq<(Seq<char>, Seq<Seq<char>>)>) -> Seq<char>
    decreases spans.len(),
{
    if spans.len() == 0 {
        seq![]
    } else {
        surfaces_text(spans.drop_last()) + spans.last().0
    }
}

proof fn lemma_surfaces_concat(
    a: Seq<(Seq<char>, Seq<Seq<char>>)>,
    b: Seq<(Seq<char>, Seq<Seq<char>>)>,
)
    ensures
        surfaces_text(a + b) == surfaces_text(a) + surfaces_text(b),
    decreases b.len(),
{
    if b.len() == 0 {
        assert(a + b =~= a);
        assert(surfaces_text(a) + surfaces_text(b) =~= surfaces_text(a));
    } else {
        assert((a + b).drop_last() =~= a + b.drop_last());
        assert((a + b).last() == b.last());
        lemma_surfaces_concat(a, b.drop_last());
        assert(surfaces_text(a) + surfaces_text(b.drop_last()) + b.last().0 =~= surfaces_text(a)
            + (surfaces_text(b.drop_last()) + b.last().0));
    }
}

proof fn lemma_part_spans_cover(part: Seq<char>)
    ensures
        surfaces_text(part_spans(part)) == part,
{
    let sp = part_spans(part);
    let empty = Seq::<(Seq<char>, Seq<Seq<char>>)>::empty();
    assert(surfaces_text(empty) == Seq::<char>::empty());
    if is_execplan(part) {
        let one = sp.drop_last();
        assert(one.drop_last() =~= empty);
        assert(surfaces_text(one) == surfaces_text(one.drop_last()) + one.last().0);
        assert(surfaces_text(one) =~= part.take(4));
        assert(surfaces_text(sp) == surfaces_text(one) + sp.last().0);
        assert(part.take(4) + part.skip(4) =~= part);
    } else {
        assert(sp.drop_last() =~= empty);
        assert(surfaces_text(sp) == surfaces_text(sp.drop_last()) + sp.last().0);
        assert(surfaces_text(sp) =~= part);
    }
}

proof fn lemma_parts_spans_cover(parts: Seq<Seq<char>>)
    ensures
        surfaces_text(parts_spans(parts)) == parts.flatten_alt(),
    decreases parts.len(),
{
    if parts.len() > 0 {
        lemma_parts_spans_cover(parts.drop_last());
        let tail = if parts.last().len() > 0 {
            part_spans(parts.last())
        } else {
            seq![]
        };
        lemma_surfaces_concat(parts_spans(parts.drop_last()), tail);
        if parts.last().len() > 0 {
            lemma_part_spans_cover(parts.last());
        } else {
            assert(parts.drop_last().flatten_alt() + parts.last() =~= parts.drop_last().flatten_alt());
            assert(surfaces_text(tail) =~= Seq::<char>::empty());
        }
    }
}

/// The surfaces of a token's spans, joined in order, give back the token:
/// splitting loses and adds no character.
pub proof fn lemma_surface_spans_cover(token: Seq<char>)
    ensures
        surfaces_text(surface_spans(token)) == token,
{
    let base = if has_possessive_surface(token) {
        token.take(token.len() - 2)
    } else {
        token
    };
    lemma_camel_parts_cover(base);
    camel_parts(base).lemma_flatten_and_flatten_alt_are_equivalent();
    lemma_parts_spans_cover(camel_parts(base));
    if has_possessive_surface(token) {
        let sp = surface_spans(token);
        let inner = parts_spans(camel_parts(base));
        assert(sp.drop_last() =~= inner);
        assert(base + token.skip(token.len() - 2) =~= token);
    }
}

/// The terms of a sequence of spans, in order.
pub open spec fn spans_terms(spans: Seq<(Seq<char>, Seq<Seq<char>>)>) -> Seq<Seq<char>>
    decreases spans.len(),
{
    if spans.len() == 0 {
        seq![]
    } else {
        spans_terms(spans.drop_last()) + spans.last().1
    }
}

/// The terms of the pieces of a text, in order.
pub open spec fn pieces_terms(pieces: Seq<Seq<char>>) -> Seq<Seq<char>>
    decreases pieces.len(),
{
    if pieces.len() == 0 {
        seq![]
    } else {
        pieces_terms(pieces.drop_last()) + spans_terms(surface_spans(pieces.last()))
    }
}

/// The terms of a text: the terms of the spans of its pieces between
/// separators, in order.
pub open spec fn text_terms(s: Seq<char>) -> Seq<Seq<char>> {
    pieces_terms(split_pieces(s, separator_fn()))
}

/// `path` without a trailing `.md`.
pub open spec fn strip_md(path: Seq<char>) -> Seq<char> {
    if path.len() >= 3 && path[path.len() - 3] == '.' && path[path.len() - 2] == 'm' && path[path.len()
        - 1] == 'd' {
        path.take(path.len() - 3)
    } else {
        path
    }
}

fn append_span_terms(out: &mut Vec<String>, spans: &Vec<AnalyzedSpan>)
    ensures
        views(final(out)@) == views(old(out)@) + spans_terms(spans_view(spans@)),
{
    let ghost start = views(out@);
    let mut k: usize = 0;
    while k < spans.len()
        invariant
            k <= spans@.len(),
            views(out@) == start + spans_terms(spans_view(spans@).take(k as int)),
        decreases spans@.len() - k,
    {
        let ghost mid = views(out@);
        let terms = &spans[k].terms;
        let mut j: usize = 0;
        while j < terms.len()
            invariant
                j <= terms@.len(),
                views(out@) == mid + views(terms@).take(j as int),
            decreases terms@.len() - j,
        {
            let ghost before = out@;
            let term = terms[j].clone();
            out.push(term);
            assert(out@ == before.push(term));
            assert(views(out@) =~= views(before).push(term@));
            assert(term@ == views(terms@)[j as int]);
            j += 1;
            assert(views(out@) =~= mid + views(terms@).take(j as int));
        }
        assert(views(terms@).take(terms@.len() as int) =~= views(terms@));
        assert(spans_view(spans@).take(k + 1).drop_last() =~= spans_view(spans@).take(k as int));
        k += 1;
    }
    assert(spans_view(spans@).take(spans@.len() as int) =~= spans_view(spans@));
}

fn tokenize(input: &[char]) -> (r: Vec<String>)
    ensures
        views(r@) == text_terms(input@),
{
    let ghost sep = separator_fn();
    let mut out: Vec<String> = Vec::new();
    let mut cur: Vec<char> = Vec::new();
    let mut i: usize = 0;
    assert(input@.take(0) =~= Seq::<char>::empty());
    while i < input.len()
        invariant
            sep == separator_fn(),
            i <= input@.len(),
            split_pieces(input@.take(i as int), sep).len() >= 1,
            views(out@) == pieces_terms(split_pieces(input@.take(i as int), sep).drop_last()),
            cur@ == split_pieces(input@.take(i as int), sep).last(),
        decreases input@.len() - i,
    {
        let c = input[i];
        let ghost prefix = input@.take(i as int);
        let ghost next = input@.take(i + 1);
        let ghost ps = split_pieces(prefix, sep);
        assert(next.drop_last() =~= prefix);
        assert(next.last() == c);
        if is_separator(c) {
            let piece = string_from_chars(cur.as_slice());
            let spans = analyze_surface_spans(piece.as_str());
            append_span_terms(&mut out, &spans);
            cur = Vec::new();
            assert(split_pieces(next, sep) == ps.push(Seq::<char>::empty()));
            assert(ps.push(Seq::<char>::empty()).drop_last() =~= ps);
            assert(ps =~= ps.drop_last().push(ps.last()));
            assert(cur@ =~= Seq::<char>::empty());
        } else {
            cur.push(c);
            assert(split_pieces(next, sep) == ps.update(ps.len() - 1, ps.last().push(c)));
            assert(ps.update(ps.len() - 1, ps.last().push(c)).drop_last() =~= ps.drop_last());
        }
        i += 1;
    }
    assert(input@.take(input@.len() as int) =~= input@);
    let ghost ps = split_pieces(input@, sep);
    let piece = string_from_chars(cur.as_slice());
    let spans = analyze_surface_spans(piece.as_str());
    append_span_terms(&mut out, &spans);
    assert(ps =~= ps.drop_last().push(ps.last()));
    out
}

/// The analyzed terms of free text.
pub fn normalize_text(text: &str) -> (r: Vec<String>)
    ensures
        views(r@) == text_terms(text@),
{
    let chars = chars_of(text);
    tokenize(chars.as_slice())
}

/// The analyzed terms of a repository path, without its `.md` extension.
pub fn normalize_path(path: &str) -> (r: Vec<String>)
    ensures
        views(r@) == text_terms(strip_md(path@)),
{
    let chars = chars_of(path);
    let n = chars.len();
    if n >= 3 && chars[n - 3] == '.' && chars[n - 2] == 'm' && chars[n - 1] == 'd' {
        let stem = slice_chars(chars.as_slice(), 0, n - 3);
        tokenize(stem.as_slice())
    } else {
        tokenize(chars.as_slice())
    }
}

} // verus!
