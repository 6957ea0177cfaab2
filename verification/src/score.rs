//! Pieces of BM25F scoring: a plain (unstemmed) tokenizer, term
//! frequencies, per-field document statistics and the strongest field a
//! query hit.  Ranking analyzes fields with the stemming analyzer (see
//! `ranking`); the floating-point formulas live with the program that
//! prints the scores.
use vstd::prelude::*;

use crate::analyzer::{is_stopword, split_pieces, stopword_list, strip_md};
use crate::matcher::views;
use crate::strset::{StringMap, StringSet};
use crate::text::{
    chars_of, is_ascii_punctuation, is_whitespace, slice_chars, spec_is_ascii_punctuation,
    str_eq, string_from_chars, to_lowercase, unicode_lowercase, unicode_white_space,
};

verus! {

broadcast use vstd::seq_lib::group_seq_properties;

/// The fields of a document that a query is scored against.
#[derive(Clone, Copy, Debug, PartialEq, Eq, Structural)]
pub enum Field {
    Name,
    Description,
    Path,
}

/// The order of the fields when a hit is attributed: name, then
/// description, then path.
pub open spec fn field_rank(f: Field) -> nat {
    match f {
        Field::Name => 0,
        Field::Description => 1,
        Field::Path => 2,
    }
}

/// The earlier of the current strongest field and `candidate`.
pub fn best_field_hit(current: Option<Field>, candidate: Field) -> (r: Option<Field>)
    ensures
        r == Some(
            match current {
                Some(existing) => if field_rank(existing) <= field_rank(candidate) {
                    existing
                } else {
                    candidate
                },
                None => candidate,
            },
        ),
{
    match current {
        Some(existing) => {
            let keep = match (existing, candidate) {
                (Field::Name, _) => true,
                (Field::Description, Field::Name) => false,
                (Field::Description, _) => true,
                (Field::Path, Field::Path) => true,
                (Field::Path, _) => false,
            };
            if keep {
                Some(existing)
            } else {
                Some(candidate)
            }
        },
        None => Some(candidate),
    }
}

/// How often `term` occurs in `tokens`.
pub open spec fn occurrences(tokens: Seq<Seq<char>>, term: Seq<char>) -> nat
    decreases tokens.len(),
{
    if tokens.len() == 0 {
        0
    } else {
        occurrences(tokens.drop_last(), term) + if tokens.last() == term {
            1nat
        } else {
            0nat
        }
    }
}

proof fn lemma_occurrences_bound(tokens: Seq<Seq<char>>, term: Seq<char>)
    ensures
        occurrences(tokens, term) <= tokens.len(),
    decreases tokens.len(),
{
    if tokens.len() > 0 {
        lemma_occurrences_bound(tokens.drop_last(), term);
    }
}

/// The number of tokens equal to `term`, as a `u32` (the count is taken
/// modulo 2^32, as `as u32` does).
pub fn term_frequency(tokens: &[String], term: &str) -> (r: u32)
    ensures
        r as int == occurrences(views(tokens@), term@) % 0x1_0000_0000,
{
    let mut count: usize = 0;
    let mut i: usize = 0;
    while i < tokens.len()
        invariant
            i <= tokens@.len(),
            count == occurrences(views(tokens@).take(i as int), term@),
        decreases tokens@.len() - i,
    {
        proof {
            assert(views(tokens@).take(i + 1).drop_last() =~= views(tokens@).take(i as int));
            lemma_occurrences_bound(views(tokens@).take(i as int), term@);
        }
        if str_eq(tokens[i].as_str(), term) {
            count += 1;
        }
        i += 1;
    }
    assert(views(tokens@).take(tokens@.len() as int) =~= views(tokens@));
    let wide = count as u64;
    #[verifier::truncate]
    let r = wide as u32;
    assert(r == wide % 0x1_0000_0000) by (bit_vector)
        requires
            r == wide as u32,
    ;
    r
}

// ---------------------------------------------------------------------------
// The plain tokenizer
// ---------------------------------------------------------------------------
/// Whitespace and every ASCII punctuation character separate terms.
pub open spec fn spec_is_term_separator(ch: char) -> bool {
    unicode_white_space(ch) || spec_is_ascii_punctuation(ch)
}

pub open spec fn term_separator_fn() -> spec_fn(char) -> bool {
    |c: char| spec_is_term_separator(c)
}

/// The non-empty pieces that are not stop words, in order.
pub open spec fn kept_terms(pieces: Seq<Seq<char>>) -> Seq<Seq<char>>
    decreases pieces.len(),
{
    if pieces.len() == 0 {
        seq![]
    } else {
        kept_terms(pieces.drop_last()) + if pieces.last().len() > 0 && !stopword_list().contains(
            pieces.last(),
        ) {
            seq![pieces.last()]
        } else {
            seq![]
        }
    }
}

/// The terms of lowercased text.
pub open spec fn plain_terms(lowered: Seq<char>) -> Seq<Seq<char>> {
    kept_terms(split_pieces(lowered, term_separator_fn()))
}

/// The statistics terms of free text.
pub open spec fn score_text_terms(text: Seq<char>) -> Seq<Seq<char>> {
    plain_terms(unicode_lowercase(text))
}

/// The statistics terms of a path: lowercased, without `.md`.
pub open spec fn score_path_terms(path: Seq<char>) -> Seq<Seq<char>> {
    plain_terms(unicode_lowercase(strip_md(unicode_lowercase(path))))
}

fn keep_piece(out: &mut Vec<String>, piece: &[char])
    ensures
        views(final(out)@) == views(old(out)@) + if piece@.len() > 0
            && !stopword_list().contains(piece@) {
            seq![piece@]
        } else {
            seq![]
        },
{
    if piece.len() > 0 {
        let s = string_from_chars(piece);
        if !is_stopword(s.as_str()) {
            let ghost before = out@;
            out.push(s);
            assert(views(out@) =~= views(before) + seq![piece@]);
            return;
        }
    }
    assert(views(out@) =~= views(out@) + Seq::<Seq<char>>::empty());
}

fn split_terms(input: &[char]) -> (r: Vec<String>)
    ensures
        views(r@) == plain_terms(input@),
{
    let ghost sep = term_separator_fn();
    let mut out: Vec<String> = Vec::new();
    let mut cur: Vec<char> = Vec::new();
    let mut i: usize = 0;
    assert(input@.take(0) =~= Seq::<char>::empty());
    while i < input.len()
        invariant
            sep == term_separator_fn(),
            i <= input@.len(),
            split_pieces(input@.take(i as int), sep).len() >= 1,
            views(out@) == kept_terms(split_pieces(input@.take(i as int), sep).drop_last()),
            cur@ == split_pieces(input@.take(i as int), sep).last(),
        decreases input@.len() - i,
    {
        let c = input[i];
        let ghost prefix = input@.take(i as int);
        let ghost next = input@.take(i + 1);
        let ghost ps = split_pieces(prefix, sep);
        assert(next.drop_last() =~= prefix);
        assert(next.last() == c);
        if is_whitespace(c) || is_ascii_punctuation(c) {
            keep_piece(&mut out, cur.as_slice());
            cur = Vec::new();
            assert(split_pieces(next, sep) == ps.push(Seq::<char>::empty()));
            assert(ps.push(Seq::<char>::empty()).drop_last() =~= ps);
            assert(ps =~= ps.drop_last().push(ps.last()));
            assert(cur@ =~= Seq::<char>::empty());
        } else {
            cur.push(c);
            assert(split_pieces(next, sep) == ps.update(ps.len() - 1, ps.last().push(c)));
            assert(ps.update(ps.len() - 1, ps.last().push(c)).drop_last() =~= ps.drop_last());
        }
        i += 1;
    }
    assert(input@.take(input@.len() as int) =~= input@);
    let ghost ps = split_pieces(input@, sep);
    keep_piece(&mut out, cur.as_slice());
    assert(ps =~= ps.drop_last().push(ps.last()));
    out
}

/// The statistics terms of free text: lowercased, split at whitespace and
/// ASCII punctuation, without empty pieces and stop words.
pub fn normalize_text(text: &str) -> (r: Vec<String>)
    ensures
        views(r@) == score_text_terms(text@),
{
    let lower = to_lowercase(text);
    let chars = chars_of(lower.as_str());
    split_terms(chars.as_slice())
}

/// The statistics terms of a path: lowercased, without a trailing `.md`,
/// then split as text is.
pub fn normalize_path(path: &str) -> (r: Vec<String>)
    ensures
        views(r@) == score_path_terms(path@),
{
    let lower = to_lowercase(path);
    let chars = chars_of(lower.as_str());
    let n = chars.len();
    let stem = if n >= 3 && chars[n - 3] == '.' && chars[n - 2] == 'm' && chars[n - 1] == 'd' {
        slice_chars(chars.as_slice(), 0, n - 3)
    } else {
        slice_chars(chars.as_slice(), 0, n)
    };
    assert(stem@ == strip_md(unicode_lowercase(path@)));
    let stem_string = string_from_chars(stem.as_slice());
    let lowered = to_lowercase(stem_string.as_str());
    let lowered_chars = chars_of(lowered.as_str());
    split_terms(lowered_chars.as_slice())
}

// ---------------------------------------------------------------------------
// Field statistics
// ---------------------------------------------------------------------------
/// `counts` with one more document for each term of `terms`.
pub open spec fn bump_counts(counts: Map<Seq<char>, usize>, terms: Set<Seq<char>>) -> Map<
    Seq<char>,
    usize,
> {
    Map::new(
        |k: Seq<char>| counts.contains_key(k) || terms.contains(k),
        |k: Seq<char>|
            ((if counts.contains_key(k) {
                counts[k] as int
            } else {
                0int
            }) + (if terms.contains(k) {
                1int
            } else {
                0int
            })) as usize,
    )
}

/// The statistics of one field over the documents recorded so far: in how
/// many documents each term occurs, how many documents have terms in the
/// field, and how many terms they have in all.
pub struct FieldStats {
    pub df: StringMap,
    pub doc_count: u32,
    pub sum_total_term_freq: u32,
}

impl FieldStats {
    /// No term occurs in more documents than were recorded.
    pub open spec fn wf(self) -> bool {
        &&& self.df.wf()
        &&& forall|k: Seq<char>| #[trigger]
            self.df.as_map().contains_key(k) ==> self.df.as_map()[k] <= self.doc_count
    }

    pub fn new() -> (s: Self)
        ensures
            s.wf(),
            s.df.as_map() == Map::<Seq<char>, usize>::empty(),
            s.doc_count == 0,
            s.sum_total_term_freq == 0,
    {
        FieldStats { df: StringMap::new(), doc_count: 0, sum_total_term_freq: 0 }
    }

    /// Records the terms of one document.  A document without terms is not
    /// counted.
    pub fn record(&mut self, tokens: Vec<String>)
        requires
            old(self).wf(),
            tokens@.len() > 0 ==> old(self).doc_count < u32::MAX,
            tokens@.len() > 0 ==> old(self).sum_total_term_freq + tokens@.len() % 0x1_0000_0000
                <= u32::MAX,
        ensures
            final(self).wf(),
            tokens@.len() == 0 ==> final(self).df.as_map() == old(self).df.as_map()
                && final(self).doc_count == old(self).doc_count && final(self).sum_total_term_freq
                == old(self).sum_total_term_freq,
            tokens@.len() > 0 ==> final(self).doc_count == old(self).doc_count + 1
                && final(self).sum_total_term_freq == old(self).sum_total_term_freq + tokens@.len()
                % 0x1_0000_0000 && final(self).df.as_map() == bump_counts(
                old(self).df.as_map(),
                views(tokens@).to_set(),
            ),
    {
        if tokens.len() == 0 {
            return;
        }
        let wide = tokens.len() as u64;
        #[verifier::truncate]
        let added = wide as u32;
        assert(added == wide % 0x1_0000_0000) by (bit_vector)
            requires
                added == wide as u32,
        ;
        self.doc_count = self.doc_count + 1;
        self.sum_total_term_freq = self.sum_total_term_freq + added;
        let ghost start = self.df.as_map();
        let ghost terms = views(tokens@);
        let mut seen = StringSet::new();
        assert(bump_counts(start, terms.take(0).to_set()) =~= start);
        let mut i: usize = 0;
        while i < tokens.len()
            invariant
                i <= tokens@.len(),
                terms == views(tokens@),
                self.df.wf(),
                seen.wf(),
                seen.members() == terms.take(i as int).to_set(),
                self.df.as_map() == bump_counts(start, terms.take(i as int).to_set()),
                forall|k: Seq<char>| #[trigger]
                    start.contains_key(k) ==> start[k] < self.doc_count,
                self.doc_count == old(self).doc_count + 1,
                self.doc_count >= 1,
                self.sum_total_term_freq == old(self).sum_total_term_freq + tokens@.len()
                    % 0x1_0000_0000,
                start == old(self).df.as_map(),
            decreases tokens@.len() - i,
        {
            let token = &tokens[i];
            let ghost set_before = terms.take(i as int).to_set();
            let ghost t = token@;
            assert(terms[i as int] == t);
            assert(terms.take(i + 1).to_set() =~= set_before.insert(t)) by {
                assert forall|x: Seq<char>| #[trigger]
                    terms.take(i + 1).to_set().contains(x) <==> (set_before.contains(x) || x
                        == t) by {
                    if terms.take(i + 1).to_set().contains(x) {
                        let j = choose|j: int| 0 <= j < i + 1 && #[trigger] terms.take(i + 1)[j] == x;
                        if j < i {
                            assert(terms.take(i as int)[j] == x);
                        }
                    }
                    if set_before.contains(x) {
                        let j = choose|j: int| 0 <= j < i && #[trigger] terms.take(i as int)[j] == x;
                        assert(terms.take(i + 1)[j] == x);
                    }
                    if x == t {
                        assert(terms.take(i + 1)[i as int] == x);
                    }
                }
            }
            if !seen.contains(token.as_str()) {
                let ghost before = self.df.as_map();
                let next: usize = match self.df.get(token.as_str()) {
                    Some(v) => *v + 1,
                    None => 1,
                };
                self.df.insert(token.clone(), next);
                seen.insert(token.clone());
                assert(!set_before.contains(t));
                assert(bump_counts(start, set_before.insert(t)) =~= before.insert(t, next));
            } else {
                assert(set_before.insert(t) =~= set_before);
            }
            i += 1;
        }
        assert(terms.take(tokens@.len() as int) =~= terms);
        assert forall|k: Seq<char>| #[trigger]
            self.df.as_map().contains_key(k) implies self.df.as_map()[k] <= self.doc_count by {
            if start.contains_key(k) {
                assert(start[k] < self.doc_count);
            }
        }
    }
}

/// The strongest field of a result does not depend on the order in which
/// the fields were hit: it is the earliest in name, description, path
/// order.
pub proof fn lemma_best_field_hit_order_free(current: Option<Field>, a: Field, b: Field)
    ensures
        ({
            let ab = match current {
                Some(x) => if field_rank(x) <= field_rank(a) { x } else { a },
                None => a,
            };
            let ba = match current {
                Some(x) => if field_rank(x) <= field_rank(b) { x } else { b },
                None => b,
            };
            (if field_rank(ab) <= field_rank(b) { ab } else { b }) == (if field_rank(ba) <= field_rank(a) { ba } else { a })
        }),
{
    assert(field_rank(a) == field_rank(b) ==> a == b) by {
        match a {
            Field::Name => {},
            Field::Description => {},
            Field::Path => {},
        }
    }
    match current {
        Some(x) => {
            assert(field_rank(x) == field_rank(a) ==> x == a) by {
                match x {
                    Field::Name => {},
                    Field::Description => {},
                    Field::Path => {},
                }
            }
            assert(field_rank(x) == field_rank(b) ==> x == b) by {
                match x {
                    Field::Name => {},
                    Field::Description => {},
                    Field::Path => {},
                }
            }
        },
        None => {},
    }
}

} // verus!
