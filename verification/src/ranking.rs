//! The counts that BM25F ranking is computed from.  The three fields of a
//! document (name, path prefix, description) are folded into one pseudo
//! field: its document count and document frequencies are the largest over
//! the fields, its length is the boosted sum of the field lengths.  What is
//! counted is exact here; the logarithms and quotients of the score itself
//! are floating point and are left to the program that prints them.
use vstd::prelude::*;

use crate::matcher::views;
use crate::analyzer::{self, strip_md, text_terms};
use crate::score::{FieldStats, Field, best_field_hit, field_rank, occurrences, term_frequency, bump_counts};
use crate::strset::StringMap;

verus! {

/// How many times the name field weighs in the pseudo field; the path
/// prefix and the description weigh once.
pub const NAME_BOOST: u64 = 3;

/// The count of `k` in `m`, zero where `k` is absent.
pub open spec fn count_in(m: Map<Seq<char>, usize>, k: Seq<char>) -> int {
    if m.contains_key(k) {
        m[k] as int
    } else {
        0
    }
}

pub open spec fn max3(a: int, b: int, c: int) -> int {
    if a >= b && a >= c {
        a
    } else if b >= c {
        b
    } else {
        c
    }
}

/// The document frequencies of the pseudo field: every term of any field,
/// with the largest of its per-field document frequencies.
pub open spec fn combined_df(
    a: Map<Seq<char>, usize>,
    b: Map<Seq<char>, usize>,
    c: Map<Seq<char>, usize>,
) -> Map<Seq<char>, usize> {
    Map::new(
        |k: Seq<char>| a.contains_key(k) || b.contains_key(k) || c.contains_key(k),
        |k: Seq<char>| max3(count_in(a, k), count_in(b, k), count_in(c, k)) as usize,
    )
}

/// The corpus figures of the pseudo field.
pub struct CorpusCounts {
    /// The largest number of documents with terms in any one field.
    pub doc_count: u32,
    /// The boosted total of terms over all documents and fields.
    pub weighted_term_total: u64,
    /// Per term, the largest number of documents of one field that hold it.
    pub df: StringMap,
}

fn max_count(a: usize, b: usize, c: usize) -> (r: usize)
    ensures
        r == max3(a as int, b as int, c as int),
{
    if a >= b && a >= c {
        a
    } else if b >= c {
        b
    } else {
        c
    }
}

fn count_of(m: &StringMap, key: &str) -> (r: usize)
    requires
        m.wf(),
    ensures
        r == count_in(m.as_map(), key@),
{
    match m.get(key) {
        Some(v) => *v,
        None => 0,
    }
}

/// Adds every key of `source` to `acc`, with its combined frequency.
fn absorb_keys(
    acc: &mut StringMap,
    source: &StringMap,
    a: &StringMap,
    b: &StringMap,
    c: &StringMap,
)
    requires
        old(acc).wf(),
        source.wf(),
        a.wf(),
        b.wf(),
        c.wf(),
        forall|k: Seq<char>| #[trigger]
            source.as_map().contains_key(k) ==> combined_df(a.as_map(), b.as_map(), c.as_map()).contains_key(k),
        forall|k: Seq<char>| #[trigger]
            old(acc).as_map().contains_key(k) ==> combined_df(a.as_map(), b.as_map(), c.as_map()).contains_key(k)
                && old(acc).as_map()[k] == combined_df(a.as_map(), b.as_map(), c.as_map())[k],
    ensures
        final(acc).wf(),
        forall|k: Seq<char>| #[trigger]
            final(acc).as_map().contains_key(k) <==> (old(acc).as_map().contains_key(k)
                || source.as_map().contains_key(k)),
        forall|k: Seq<char>| #[trigger]
            final(acc).as_map().contains_key(k) ==> combined_df(a.as_map(), b.as_map(), c.as_map()).contains_key(k)
                && final(acc).as_map()[k] == combined_df(a.as_map(), b.as_map(), c.as_map())[k],
{
    let ghost goal = combined_df(a.as_map(), b.as_map(), c.as_map());
    let ghost start = acc.as_map();
    proof {
        source.lemma_lengths();
    }
    let n = source.len();
    let mut i: usize = 0;
    while i < n
        invariant
            n == source.keys().len(),
            i <= n,
            source.wf(),
            a.wf(),
            b.wf(),
            c.wf(),
            acc.wf(),
            goal == combined_df(a.as_map(), b.as_map(), c.as_map()),
            start == old(acc).as_map(),
            forall|k: Seq<char>| #[trigger]
                source.as_map().contains_key(k) ==> goal.contains_key(k),
            forall|k: Seq<char>| #[trigger]
                acc.as_map().contains_key(k) <==> (start.contains_key(k) || exists|j: int|
                    0 <= j < i && source.keys()[j] == k),
            forall|k: Seq<char>| #[trigger]
                acc.as_map().contains_key(k) ==> goal.contains_key(k) && acc.as_map()[k] == goal[k],
        decreases n - i,
    {
        let (key, _) = source.entry(i);
        let v = max_count(count_of(a, key.as_str()), count_of(b, key.as_str()), count_of(c, key.as_str()));
        proof {
            assert(source.as_map().contains_key(key@));
        }
        acc.insert(key.clone(), v);
        proof {
            assert forall|k: Seq<char>|
                (start.contains_key(k) || exists|j: int| 0 <= j < i + 1 && source.keys()[j] == k)
                    implies #[trigger] acc.as_map().contains_key(k) by {
                if exists|j: int| 0 <= j < i + 1 && source.keys()[j] == k {
                    let j = choose|j: int| 0 <= j < i + 1 && source.keys()[j] == k;
                    if j < i {
                        assert(exists|j2: int| 0 <= j2 < i && source.keys()[j2] == k);
                    }
                }
            }
            assert forall|k: Seq<char>| #[trigger]
                acc.as_map().contains_key(k) implies (start.contains_key(k) || exists|j: int|
                    0 <= j < i + 1 && source.keys()[j] == k) by {
                if k != key@ {
                    if exists|j: int| 0 <= j < i && source.keys()[j] == k {
                        let j = choose|j: int| 0 <= j < i && source.keys()[j] == k;
                        assert(0 <= j < i + 1 && source.keys()[j] == k);
                    }
                }
                if k == key@ {
                    assert(0 <= i < i + 1 && source.keys()[i as int] == k);
                }
            }
        }
        i += 1;
    }
    proof {
        assert forall|k: Seq<char>| #[trigger]
            acc.as_map().contains_key(k) <==> (old(acc).as_map().contains_key(k)
                || source.as_map().contains_key(k)) by {
            if source.as_map().contains_key(k) {
                let j = source.keys().index_of(k);
                assert(0 <= j < n && source.keys()[j] == k);
            }
            if exists|j: int| 0 <= j < n && source.keys()[j] == k {
                let j = choose|j: int| 0 <= j < n && source.keys()[j] == k;
                assert(source.keys().contains(k));
            }
        }
    }
}

/// Folds the statistics of the three fields into the pseudo field.
pub fn combine_field_stats(
    name: &FieldStats,
    path_prefix: &FieldStats,
    description: &FieldStats,
) -> (r: CorpusCounts)
    requires
        name.wf(),
        path_prefix.wf(),
        description.wf(),
    ensures
        r.df.wf(),
        r.df.as_map() == combined_df(
            name.df.as_map(),
            path_prefix.df.as_map(),
            description.df.as_map(),
        ),
        r.doc_count as int == max3(
            name.doc_count as int,
            path_prefix.doc_count as int,
            description.doc_count as int,
        ),
        r.weighted_term_total == NAME_BOOST * name.sum_total_term_freq
            + path_prefix.sum_total_term_freq + description.sum_total_term_freq,
        forall|k: Seq<char>| #[trigger]
            r.df.as_map().contains_key(k) ==> r.df.as_map()[k] <= r.doc_count,
{
    let ghost goal = combined_df(
        name.df.as_map(),
        path_prefix.df.as_map(),
        description.df.as_map(),
    );
    let mut df = StringMap::new();
    absorb_keys(&mut df, &name.df, &name.df, &path_prefix.df, &description.df);
    absorb_keys(&mut df, &path_prefix.df, &name.df, &path_prefix.df, &description.df);
    absorb_keys(&mut df, &description.df, &name.df, &path_prefix.df, &description.df);
    assert(df.as_map() =~= goal);
    let a = name.doc_count;
    let b = path_prefix.doc_count;
    let c = description.doc_count;
    let doc_count = if a >= b && a >= c {
        a
    } else if b >= c {
        b
    } else {
        c
    };
    let weighted_term_total = NAME_BOOST * (name.sum_total_term_freq as u64)
        + path_prefix.sum_total_term_freq as u64 + description.sum_total_term_freq as u64;
    assert forall|k: Seq<char>| #[trigger]
        df.as_map().contains_key(k) implies df.as_map()[k] <= doc_count by {
        assert(count_in(name.df.as_map(), k) <= a);
        assert(count_in(path_prefix.df.as_map(), k) <= b);
        assert(count_in(description.df.as_map(), k) <= c);
    }
    CorpusCounts { doc_count, weighted_term_total, df }
}

// ---------------------------------------------------------------------------
// Documents and their terms
// ---------------------------------------------------------------------------
/// A document as the ranking sees it.
pub struct Candidate {
    pub name: Option<String>,
    pub path_prefix: String,
    pub description: Option<String>,
}

/// The analyzed terms of an optional text field, as a query's terms are
/// analyzed (lowercased, split, stop words dropped, stemmed with
/// `english_stem`): none where the field is absent.
pub open spec fn optional_text_terms(text: Option<String>) -> Seq<Seq<char>> {
    match text {
        Some(t) => text_terms(t@),
        None => Seq::empty(),
    }
}

/// The analyzed terms of a path prefix: without a trailing `.md`, then
/// analyzed as text is.
pub open spec fn path_terms(path: Seq<char>) -> Seq<Seq<char>> {
    text_terms(strip_md(path))
}

/// The terms of each field of a document.
pub struct CandidateTerms {
    pub name: Vec<String>,
    pub path_prefix: Vec<String>,
    pub description: Vec<String>,
}

fn optional_terms(text: &Option<String>) -> (r: Vec<String>)
    ensures
        views(r@) == optional_text_terms(*text),
{
    match text {
        Some(t) => analyzer::normalize_text(t.as_str()),
        None => {
            let v: Vec<String> = Vec::new();
            assert(views(v@) =~= Seq::<Seq<char>>::empty());
            v
        },
    }
}

/// Analyzes each field of `candidate` into its terms, stemmed as query
/// terms are, so that a query term meets the forms of its word.
pub fn candidate_terms(candidate: &Candidate) -> (r: CandidateTerms)
    ensures
        views(r.name@) == optional_text_terms(candidate.name),
        views(r.path_prefix@) == path_terms(candidate.path_prefix@),
        views(r.description@) == optional_text_terms(candidate.description),
{
    CandidateTerms {
        name: optional_terms(&candidate.name),
        path_prefix: analyzer::normalize_path(candidate.path_prefix.as_str()),
        description: optional_terms(&candidate.description),
    }
}

// ---------------------------------------------------------------------------
// Query hits
// ---------------------------------------------------------------------------
/// The frequency of `term` in `tokens` as the ranking counts it (a `u32`).
pub open spec fn tf(tokens: Seq<Seq<char>>, term: Seq<char>) -> int {
    occurrences(tokens, term) as int % 0x1_0000_0000
}

/// Whether `term` counts as occurring in `tokens`.
pub open spec fn hits(tokens: Seq<Seq<char>>, term: Seq<char>) -> bool {
    tf(tokens, term) > 0
}

/// Whether `term` occurs in any field.
pub open spec fn hits_any(
    name: Seq<Seq<char>>,
    path: Seq<Seq<char>>,
    description: Seq<Seq<char>>,
    term: Seq<char>,
) -> bool {
    hits(name, term) || hits(path, term) || hits(description, term)
}

/// How many of the first `k` query terms occur in some field.
pub open spec fn matched_count(
    query: Seq<Seq<char>>,
    k: int,
    name: Seq<Seq<char>>,
    path: Seq<Seq<char>>,
    description: Seq<Seq<char>>,
) -> nat
    decreases k,
{
    if k <= 0 {
        0
    } else {
        matched_count(query, k - 1, name, path, description) + if hits_any(
            name,
            path,
            description,
            query[k - 1],
        ) {
            1nat
        } else {
            0nat
        }
    }
}

/// The strongest field that one of the first `k` query terms occurs in:
/// the name, else the description, else the path prefix.
pub open spec fn strongest_field(
    query: Seq<Seq<char>>,
    k: int,
    name: Seq<Seq<char>>,
    path: Seq<Seq<char>>,
    description: Seq<Seq<char>>,
) -> Option<Field> {
    if exists|j: int| 0 <= j < k && #[trigger] hits(name, query[j]) {
        Some(Field::Name)
    } else if exists|j: int| 0 <= j < k && #[trigger] hits(description, query[j]) {
        Some(Field::Description)
    } else if exists|j: int| 0 <= j < k && #[trigger] hits(path, query[j]) {
        Some(Field::Path)
    } else {
        None
    }
}

/// The field frequencies of one query term.
#[derive(Clone, Copy, Debug, PartialEq, Eq, Structural)]
pub struct TermFrequencies {
    pub name: u32,
    pub path_prefix: u32,
    pub description: u32,
}

/// What a query finds in one document: the field frequencies of each query
/// term, how many query terms occur at all, and the strongest field hit.
pub struct QueryHits {
    pub frequencies: Vec<TermFrequencies>,
    pub matched_terms: u32,
    pub first_field_hit: Option<Field>,
}

proof fn lemma_matched_count_bound(
    query: Seq<Seq<char>>,
    k: int,
    name: Seq<Seq<char>>,
    path: Seq<Seq<char>>,
    description: Seq<Seq<char>>,
)
    ensures
        k >= 0 ==> matched_count(query, k, name, path, description) <= k,
    decreases k,
{
    if k > 0 {
        lemma_matched_count_bound(query, k - 1, name, path, description);
    }
}

/// Counts the query terms in the fields of a document.
pub fn query_hits(query: &Vec<String>, terms: &CandidateTerms) -> (r: QueryHits)
    requires
        query@.len() <= u32::MAX,
    ensures
        r.frequencies@.len() == query@.len(),
        forall|i: int|
            0 <= i < query@.len() ==> {
                &&& (#[trigger] r.frequencies@[i]).name == tf(views(terms.name@), query@[i]@)
                &&& r.frequencies@[i].path_prefix == tf(views(terms.path_prefix@), query@[i]@)
                &&& r.frequencies@[i].description == tf(views(terms.description@), query@[i]@)
            },
        r.matched_terms == matched_count(
            views(query@),
            query@.len() as int,
            views(terms.name@),
            views(terms.path_prefix@),
            views(terms.description@),
        ),
        r.first_field_hit == strongest_field(
            views(query@),
            query@.len() as int,
            views(terms.name@),
            views(terms.path_prefix@),
            views(terms.description@),
        ),
        r.matched_terms <= query@.len(),
{
    let ghost q = views(query@);
    let ghost n = views(terms.name@);
    let ghost p = views(terms.path_prefix@);
    let ghost d = views(terms.description@);
    let mut frequencies: Vec<TermFrequencies> = Vec::new();
    let mut matched_terms: u32 = 0;
    let mut first_field_hit: Option<Field> = None;
    let mut i: usize = 0;
    while i < query.len()
        invariant
            q == views(query@),
            n == views(terms.name@),
            p == views(terms.path_prefix@),
            d == views(terms.description@),
            query@.len() <= u32::MAX,
            i <= query@.len(),
            frequencies@.len() == i,
            forall|j: int|
                0 <= j < i ==> {
                    &&& (#[trigger] frequencies@[j]).name == tf(n, q[j])
                    &&& frequencies@[j].path_prefix == tf(p, q[j])
                    &&& frequencies@[j].description == tf(d, q[j])
                },
            matched_terms == matched_count(q, i as int, n, p, d),
            first_field_hit == strongest_field(q, i as int, n, p, d),
        decreases query@.len() - i,
    {
        let term = query[i].as_str();
        assert(q[i as int] == term@);
        let name_tf = term_frequency(terms.name.as_slice(), term);
        let path_tf = term_frequency(terms.path_prefix.as_slice(), term);
        let description_tf = term_frequency(terms.description.as_slice(), term);
        proof {
            lemma_matched_count_bound(q, i as int, n, p, d);
        }
        frequencies.push(
            TermFrequencies { name: name_tf, path_prefix: path_tf, description: description_tf },
        );
        let ghost before = first_field_hit;
        if name_tf > 0 || path_tf > 0 || description_tf > 0 {
            matched_terms = matched_terms + 1;
            if name_tf > 0 {
                first_field_hit = best_field_hit(first_field_hit, Field::Name);
            }
            if path_tf > 0 {
                first_field_hit = best_field_hit(first_field_hit, Field::Path);
            }
            if description_tf > 0 {
                first_field_hit = best_field_hit(first_field_hit, Field::Description);
            }
        }
        proof {
            let k = i as int;
            assert(hits(n, q[k]) == (name_tf > 0));
            assert(hits(p, q[k]) == (path_tf > 0));
            assert(hits(d, q[k]) == (description_tf > 0));
            let sn = exists|j: int| 0 <= j < k + 1 && #[trigger] hits(n, q[j]);
            let so = exists|j: int| 0 <= j < k && #[trigger] hits(n, q[j]);
            assert(sn == (so || hits(n, q[k]))) by {
                if sn {
                    let j = choose|j: int| 0 <= j < k + 1 && #[trigger] hits(n, q[j]);
                    if j < k {
                        assert(so);
                    }
                }
            }
            let dn = exists|j: int| 0 <= j < k + 1 && #[trigger] hits(d, q[j]);
            let dold = exists|j: int| 0 <= j < k && #[trigger] hits(d, q[j]);
            assert(dn == (dold || hits(d, q[k]))) by {
                if dn {
                    let j = choose|j: int| 0 <= j < k + 1 && #[trigger] hits(d, q[j]);
                    if j < k {
                        assert(dold);
                    }
                }
            }
            let pn = exists|j: int| 0 <= j < k + 1 && #[trigger] hits(p, q[j]);
            let pold = exists|j: int| 0 <= j < k && #[trigger] hits(p, q[j]);
            assert(pn == (pold || hits(p, q[k]))) by {
                if pn {
                    let j = choose|j: int| 0 <= j < k + 1 && #[trigger] hits(p, q[j]);
                    if j < k {
                        assert(pold);
                    }
                }
            }
        }
        i += 1;
    }
    proof {
        lemma_matched_count_bound(q, query@.len() as int, n, p, d);
    }
    QueryHits { frequencies, matched_terms, first_field_hit }
}

/// A document has a strongest field hit exactly when some query term
/// occurs in it.
pub proof fn lemma_field_hit_iff_matched(
    query: Seq<Seq<char>>,
    k: int,
    name: Seq<Seq<char>>,
    path: Seq<Seq<char>>,
    description: Seq<Seq<char>>,
)
    requires
        0 <= k <= query.len(),
    ensures
        (strongest_field(query, k, name, path, description) is None) <==> matched_count(
            query,
            k,
            name,
            path,
            description,
        ) == 0,
    decreases k,
{
    if k > 0 {
        lemma_field_hit_iff_matched(query, k - 1, name, path, description);
        let last = query[k - 1];
        if hits(name, last) {
            assert(0 <= k - 1 < k && hits(name, query[k - 1]));
        }
        if hits(description, last) {
            assert(0 <= k - 1 < k && hits(description, query[k - 1]));
        }
        if hits(path, last) {
            assert(0 <= k - 1 < k && hits(path, query[k - 1]));
        }
        if strongest_field(query, k - 1, name, path, description) is Some {
            if exists|j: int| 0 <= j < k - 1 && #[trigger] hits(name, query[j]) {
                let j = choose|j: int| 0 <= j < k - 1 && #[trigger] hits(name, query[j]);
                assert(0 <= j < k && hits(name, query[j]));
            } else if exists|j: int| 0 <= j < k - 1 && #[trigger] hits(description, query[j]) {
                let j = choose|j: int| 0 <= j < k - 1 && #[trigger] hits(description, query[j]);
                assert(0 <= j < k && hits(description, query[j]));
            } else {
                let j = choose|j: int| 0 <= j < k - 1 && #[trigger] hits(path, query[j]);
                assert(0 <= j < k && hits(path, query[j]));
            }
        }
        if strongest_field(query, k, name, path, description) is Some && !hits_any(name, path, description, last) {
            if exists|j: int| 0 <= j < k && #[trigger] hits(name, query[j]) {
                let j = choose|j: int| 0 <= j < k && #[trigger] hits(name, query[j]);
                assert(0 <= j < k - 1 && hits(name, query[j]));
            } else if exists|j: int| 0 <= j < k && #[trigger] hits(description, query[j]) {
                let j = choose|j: int| 0 <= j < k && #[trigger] hits(description, query[j]);
                assert(0 <= j < k - 1 && hits(description, query[j]));
            } else {
                let j = choose|j: int| 0 <= j < k && #[trigger] hits(path, query[j]);
                assert(0 <= j < k - 1 && hits(path, query[j]));
            }
        }
    }
}

// ---------------------------------------------------------------------------
// Corpus statistics
// ---------------------------------------------------------------------------
/// How many of the term lists are not empty: the documents a field counts.
pub open spec fn recorded_doc_count(lists: Seq<Seq<Seq<char>>>) -> nat
    decreases lists.len(),
{
    if lists.len() == 0 {
        0
    } else {
        recorded_doc_count(lists.drop_last()) + if lists.last().len() > 0 {
            1nat
        } else {
            0nat
        }
    }
}

/// The number of terms over all the lists.
pub open spec fn recorded_term_total(lists: Seq<Seq<Seq<char>>>) -> nat
    decreases lists.len(),
{
    if lists.len() == 0 {
        0
    } else {
        recorded_term_total(lists.drop_last()) + lists.last().len()
    }
}

/// For each term, the number of lists that hold it.
pub open spec fn recorded_df(lists: Seq<Seq<Seq<char>>>) -> Map<Seq<char>, usize>
    decreases lists.len(),
{
    if lists.len() == 0 {
        Map::empty()
    } else if lists.last().len() == 0 {
        recorded_df(lists.drop_last())
    } else {
        bump_counts(recorded_df(lists.drop_last()), lists.last().to_set())
    }
}

/// The name terms of each document.
pub open spec fn name_lists(cs: Seq<Candidate>) -> Seq<Seq<Seq<char>>> {
    cs.map_values(|c: Candidate| optional_text_terms(c.name))
}

/// The path prefix terms of each document.
pub open spec fn path_lists(cs: Seq<Candidate>) -> Seq<Seq<Seq<char>>> {
    cs.map_values(|c: Candidate| path_terms(c.path_prefix@))
}

/// The description terms of each document.
pub open spec fn description_lists(cs: Seq<Candidate>) -> Seq<Seq<Seq<char>>> {
    cs.map_values(|c: Candidate| optional_text_terms(c.description))
}

proof fn lemma_doc_count_bound(lists: Seq<Seq<Seq<char>>>)
    ensures
        recorded_doc_count(lists) <= lists.len(),
    decreases lists.len(),
{
    if lists.len() > 0 {
        lemma_doc_count_bound(lists.drop_last());
    }
}

proof fn lemma_term_total_prefix(lists: Seq<Seq<Seq<char>>>, k: int)
    requires
        0 <= k <= lists.len(),
    ensures
        recorded_term_total(lists.take(k)) <= recorded_term_total(lists),
    decreases lists.len(),
{
    if k < lists.len() {
        assert(lists.drop_last().take(k) =~= lists.take(k));
        lemma_term_total_prefix(lists.drop_last(), k);
    } else {
        assert(lists.take(k) =~= lists);
    }
}

/// Records one document's terms of one field.
fn record_field(stats: &mut FieldStats, tokens: Vec<String>, Ghost(lists): Ghost<Seq<Seq<Seq<char>>>>, Ghost(k): Ghost<int>)
    requires
        old(stats).wf(),
        0 <= k < lists.len(),
        lists.len() < u32::MAX,
        recorded_term_total(lists) <= u32::MAX,
        views(tokens@) == lists[k],
        old(stats).df.as_map() == recorded_df(lists.take(k)),
        old(stats).doc_count == recorded_doc_count(lists.take(k)),
        old(stats).sum_total_term_freq == recorded_term_total(lists.take(k)),
    ensures
        final(stats).wf(),
        final(stats).df.as_map() == recorded_df(lists.take(k + 1)),
        final(stats).doc_count == recorded_doc_count(lists.take(k + 1)),
        final(stats).sum_total_term_freq == recorded_term_total(lists.take(k + 1)),
{
    proof {
        let next = lists.take(k + 1);
        assert(next.drop_last() =~= lists.take(k));
        assert(next.last() == lists[k]);
        lemma_doc_count_bound(lists.take(k));
        lemma_term_total_prefix(lists, k + 1);
        assert(views(tokens@).len() == tokens@.len());
    }
    stats.record(tokens);
}

/// The corpus figures of a set of documents: each field's statistics over
/// all documents, folded into the pseudo field.
pub fn build_corpus_counts(candidates: &Vec<Candidate>) -> (r: CorpusCounts)
    requires
        candidates@.len() < u32::MAX,
        recorded_term_total(name_lists(candidates@)) <= u32::MAX,
        recorded_term_total(path_lists(candidates@)) <= u32::MAX,
        recorded_term_total(description_lists(candidates@)) <= u32::MAX,
    ensures
        r.df.wf(),
        r.df.as_map() == combined_df(
            recorded_df(name_lists(candidates@)),
            recorded_df(path_lists(candidates@)),
            recorded_df(description_lists(candidates@)),
        ),
        r.doc_count as int == max3(
            recorded_doc_count(name_lists(candidates@)) as int,
            recorded_doc_count(path_lists(candidates@)) as int,
            recorded_doc_count(description_lists(candidates@)) as int,
        ),
        r.weighted_term_total == NAME_BOOST * recorded_term_total(name_lists(candidates@))
            + recorded_term_total(path_lists(candidates@)) + recorded_term_total(
            description_lists(candidates@),
        ),
        forall|k: Seq<char>| #[trigger]
            r.df.as_map().contains_key(k) ==> r.df.as_map()[k] <= r.doc_count,
{
    let ghost nl = name_lists(candidates@);
    let ghost pl = path_lists(candidates@);
    let ghost dl = description_lists(candidates@);
    let mut name = FieldStats::new();
    let mut path_prefix = FieldStats::new();
    let mut description = FieldStats::new();
    assert(nl.take(0) =~= Seq::<Seq<Seq<char>>>::empty());
    assert(pl.take(0) =~= Seq::<Seq<Seq<char>>>::empty());
    assert(dl.take(0) =~= Seq::<Seq<Seq<char>>>::empty());
    let mut i: usize = 0;
    while i < candidates.len()
        invariant
            i <= candidates@.len(),
            candidates@.len() < u32::MAX,
            nl == name_lists(candidates@),
            pl == path_lists(candidates@),
            dl == description_lists(candidates@),
            recorded_term_total(nl) <= u32::MAX,
            recorded_term_total(pl) <= u32::MAX,
            recorded_term_total(dl) <= u32::MAX,
            name.wf(),
            path_prefix.wf(),
            description.wf(),
            name.df.as_map() == recorded_df(nl.take(i as int)),
            name.doc_count == recorded_doc_count(nl.take(i as int)),
            name.sum_total_term_freq == recorded_term_total(nl.take(i as int)),
            path_prefix.df.as_map() == recorded_df(pl.take(i as int)),
            path_prefix.doc_count == recorded_doc_count(pl.take(i as int)),
            path_prefix.sum_total_term_freq == recorded_term_total(pl.take(i as int)),
            description.df.as_map() == recorded_df(dl.take(i as int)),
            description.doc_count == recorded_doc_count(dl.take(i as int)),
            description.sum_total_term_freq == recorded_term_total(dl.take(i as int)),
        decreases candidates@.len() - i,
    {
        let terms = candidate_terms(&candidates[i]);
        record_field(&mut name, terms.name, Ghost(nl), Ghost(i as int));
        record_field(&mut path_prefix, terms.path_prefix, Ghost(pl), Ghost(i as int));
        record_field(&mut description, terms.description, Ghost(dl), Ghost(i as int));
        i += 1;
    }
    assert(nl.take(candidates@.len() as int) =~= nl);
    assert(pl.take(candidates@.len() as int) =~= pl);
    assert(dl.take(candidates@.len() as int) =~= dl);
    combine_field_stats(&name, &path_prefix, &description)
}

} // verus!
