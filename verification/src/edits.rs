//! Text edits addressed by byte offsets, and their application: the edits
//! are ordered by start offset, last first (a stable order), refused when
//! two of them overlap, and otherwise each range is replaced by its text.
use vstd::prelude::*;

use vstd::utf8::{
    encode_utf8, is_char_boundary, is_char_boundary_iff_not_is_continuation_byte,
    is_char_boundary_start_end_of_seq, valid_utf8, valid_utf8_split, encode_utf8_valid_utf8,
};

use crate::text::{decimal, push_decimal, push_str, string_from_chars};

verus! {

broadcast use vstd::seq_lib::group_seq_properties;

/// Replace the bytes `start_offset..end_offset` of a text with
/// `replacement`.
pub struct Edit {
    pub start_offset: usize,
    pub end_offset: usize,
    pub replacement: String,
}

pub open spec fn edit_view(e: Edit) -> (int, int, Seq<char>) {
    (e.start_offset as int, e.end_offset as int, e.replacement@)
}

pub open spec fn edit_views(v: Seq<Edit>) -> Seq<(int, int, Seq<char>)> {
    v.map_values(|e: Edit| edit_view(e))
}

/// The UTF-8 bytes of a text.
pub open spec fn bytes_of(s: Seq<char>) -> Seq<u8> {
    encode_utf8(s)
}

// ---------------------------------------------------------------------------
// Ordering
// ---------------------------------------------------------------------------
/// The position before which `e` goes in a list ordered by descending
/// start: before the first edit that starts earlier.
pub open spec fn insert_position(sorted: Seq<(int, int, Seq<char>)>, start: int) -> int
    decreases sorted.len(),
{
    if sorted.len() == 0 || sorted[0].0 < start {
        0
    } else {
        1 + insert_position(sorted.drop_first(), start)
    }
}

/// The edits ordered by descending start, edits with the same start kept
/// in their given order (a stable sort).
pub open spec fn sorted_desc(edits: Seq<(int, int, Seq<char>)>) -> Seq<(int, int, Seq<char>)>
    decreases edits.len(),
{
    if edits.len() == 0 {
        seq![]
    } else {
        let prev = sorted_desc(edits.drop_last());
        let p = insert_position(prev, edits.last().0);
        prev.take(p) + seq![edits.last()] + prev.skip(p)
    }
}

proof fn lemma_insert_position_bound(sorted: Seq<(int, int, Seq<char>)>, start: int)
    ensures
        0 <= insert_position(sorted, start) <= sorted.len(),
        forall|k: int| 0 <= k < insert_position(sorted, start) ==> sorted[k].0 >= start,
        insert_position(sorted, start) < sorted.len() ==> sorted[insert_position(sorted, start)].0
            < start,
    decreases sorted.len(),
{
    if sorted.len() > 0 && sorted[0].0 >= start {
        lemma_insert_position_bound(sorted.drop_first(), start);
        assert forall|k: int| 0 <= k < insert_position(sorted, start) implies sorted[k].0 >= start by {
            if k > 0 {
                assert(sorted[k] == sorted.drop_first()[k - 1]);
            }
        }
    }
}

proof fn lemma_insert_position_unique(sorted: Seq<(int, int, Seq<char>)>, start: int, p: int)
    requires
        0 <= p <= sorted.len(),
        forall|k: int| 0 <= k < p ==> sorted[k].0 >= start,
        p < sorted.len() ==> sorted[p].0 < start,
    ensures
        insert_position(sorted, start) == p,
    decreases sorted.len(),
{
    if sorted.len() > 0 && sorted[0].0 >= start {
        assert(p > 0);
        assert forall|k: int| 0 <= k < p - 1 implies sorted.drop_first()[k].0 >= start by {
            assert(sorted.drop_first()[k] == sorted[k + 1]);
        }
        lemma_insert_position_unique(sorted.drop_first(), start, p - 1);
    }
}

pub open spec fn ordered_view(edits: Seq<(int, int, Seq<char>)>, order: Seq<usize>) -> Seq<
    (int, int, Seq<char>),
> {
    order.map_values(|i: usize| edits[i as int])
}

/// The positions of the edits in descending start order (stable).
fn sort_order(edits: &Vec<Edit>) -> (order: Vec<usize>)
    ensures
        order@.len() == edits@.len(),
        forall|k: int| 0 <= k < order@.len() ==> (#[trigger] order@[k]) < edits@.len(),
        ordered_view(edit_views(edits@), order@) == sorted_desc(edit_views(edits@)),
{
    let ghost ev = edit_views(edits@);
    let mut order: Vec<usize> = Vec::new();
    let mut k: usize = 0;
    assert(ev.take(0) =~= Seq::<(int, int, Seq<char>)>::empty());
    assert(ordered_view(ev, order@) =~= sorted_desc(ev.take(0)));
    while k < edits.len()
        invariant
            k <= edits@.len(),
            ev == edit_views(edits@),
            order@.len() == k,
            forall|j: int| 0 <= j < order@.len() ==> (#[trigger] order@[j]) < k,
            ordered_view(ev, order@) == sorted_desc(ev.take(k as int)),
        decreases edits@.len() - k,
    {
        let start = edits[k].start_offset;
        let ghost prev = ordered_view(ev, order@);
        let mut p: usize = 0;
        while p < order.len() && edits[order[p]].start_offset >= start
            invariant
                p <= order@.len(),
                k < edits@.len(),
                ev == edit_views(edits@),
                start == ev[k as int].0,
                prev == ordered_view(ev, order@),
                forall|j: int| 0 <= j < order@.len() ==> (#[trigger] order@[j]) < k,
                forall|j: int| 0 <= j < p ==> prev[j].0 >= start,
            decreases order@.len() - p,
        {
            assert(prev[p as int] == ev[order@[p as int] as int]);
            p += 1;
        }
        proof {
            if p < order@.len() {
                assert(prev[p as int] == ev[order@[p as int] as int]);
            }
            lemma_insert_position_unique(prev, start as int, p as int);
            assert(ev.take(k + 1).drop_last() =~= ev.take(k as int));
            assert(ev.take(k + 1).last() == ev[k as int]);
        }
        let ghost old_order = order@;
        order.insert(p, k);
        proof {
            assert(ordered_view(ev, order@) =~= prev.take(p as int) + seq![ev[k as int]] + prev.skip(
                p as int,
            ));
            assert forall|j: int| 0 <= j < order@.len() implies (#[trigger] order@[j]) < k + 1 by {
                if j < p {
                    assert(order@[j] == old_order[j]);
                } else if j > p {
                    assert(order@[j] == old_order[j - 1]);
                }
            }
        }
        k += 1;
    }
    assert(ev.take(edits@.len() as int) =~= ev);
    order
}

/// No two edits start at the same offset.
pub open spec fn distinct_starts(edits: Seq<(int, int, Seq<char>)>) -> bool {
    forall|i: int, j: int| 0 <= i < j < edits.len() ==> #[trigger] edits[i].0 != #[trigger] edits[j].0
}

/// Ordering keeps the edits: it only moves them.
proof fn lemma_sorted_desc_multiset(edits: Seq<(int, int, Seq<char>)>)
    ensures
        sorted_desc(edits).to_multiset() =~= edits.to_multiset(),
    decreases edits.len(),
{
    broadcast use vstd::seq_lib::group_to_multiset_ensures;
    broadcast use vstd::multiset::group_multiset_axioms;

    if edits.len() > 0 {
        let rest = edits.drop_last();
        let x = edits.last();
        let prev = sorted_desc(rest);
        lemma_sorted_desc_multiset(rest);
        let p = insert_position(prev, x.0);
        lemma_insert_position_bound(prev, x.0);
        let head = prev.take(p);
        let tail = prev.skip(p);
        assert(head + tail =~= prev);
        vstd::seq_lib::lemma_multiset_commutative(head, tail);
        vstd::seq_lib::lemma_multiset_commutative(head + seq![x], tail);
        vstd::seq_lib::lemma_multiset_commutative(head, seq![x]);
        assert(seq![x] =~= Seq::<(int, int, Seq<char>)>::empty().push(x));
        assert(rest.push(x) =~= edits);
    }
}

/// Ordering puts the edits in descending order of start.
proof fn lemma_sorted_desc_descending(edits: Seq<(int, int, Seq<char>)>)
    ensures
        forall|i: int, j: int|
            0 <= i < j < sorted_desc(edits).len() ==> #[trigger] sorted_desc(edits)[i].0
                >= #[trigger] sorted_desc(edits)[j].0,
    decreases edits.len(),
{
    broadcast use vstd::seq_lib::group_to_multiset_ensures;

    if edits.len() > 0 {
        let rest = edits.drop_last();
        let x = edits.last();
        let prev = sorted_desc(rest);
        lemma_sorted_desc_descending(rest);
        lemma_sorted_desc_multiset(rest);
        assert(prev.len() == rest.len()) by {
            assert(prev.to_multiset().len() == rest.to_multiset().len());
        }
        let p = insert_position(prev, x.0);
        lemma_insert_position_bound(prev, x.0);
        let s = sorted_desc(edits);
        assert(s =~= prev.take(p) + seq![x] + prev.skip(p));
        assert forall|i: int, j: int| 0 <= i < j < s.len() implies #[trigger] s[i].0 >= #[trigger] s[j].0 by {
            if j < p {
                assert(s[i] == prev[i] && s[j] == prev[j]);
            } else if j == p {
                assert(s[i] == prev[i]);
            } else if i < p {
                assert(s[i] == prev[i] && s[j] == prev[j - 1]);
                assert(prev[i].0 >= prev[j - 1].0);
            } else if i == p {
                assert(s[j] == prev[j - 1]);
                assert(prev[p].0 < x.0);
                if j - 1 > p {
                    assert(prev[p].0 >= prev[j - 1].0);
                }
            } else {
                assert(s[i] == prev[i - 1] && s[j] == prev[j - 1]);
            }
        }
    }
}

/// Two lists in descending order of start, each without two edits that
/// start at the same offset, that hold the same edits are the same list.
proof fn lemma_descending_unique(s: Seq<(int, int, Seq<char>)>, t: Seq<(int, int, Seq<char>)>)
    requires
        s.to_multiset() =~= t.to_multiset(),
        distinct_starts(s),
        distinct_starts(t),
        forall|i: int, j: int| 0 <= i < j < s.len() ==> #[trigger] s[i].0 >= #[trigger] s[j].0,
        forall|i: int, j: int| 0 <= i < j < t.len() ==> #[trigger] t[i].0 >= #[trigger] t[j].0,
    ensures
        s == t,
    decreases s.len(),
{
    broadcast use vstd::seq_lib::group_to_multiset_ensures;

    if s.len() == 0 {
        assert(s.to_multiset().len() == 0);
        assert(t.to_multiset().len() == 0);
        assert(t =~= s);
    } else {
        assert(s.to_multiset().len() == t.to_multiset().len());
        assert(s.to_multiset().count(s[0]) > 0);
        assert(t.to_multiset().count(t[0]) > 0);
        let j = choose|j: int| 0 <= j < t.len() && t[j] == s[0];
        let i = choose|i: int| 0 <= i < s.len() && s[i] == t[0];
        if i > 0 {
            assert(s[0].0 >= s[i].0);
        }
        if j > 0 {
            assert(t[0].0 >= t[j].0);
        }
        assert(j == 0);
        assert(s.remove(0).to_multiset() =~= s.to_multiset().remove(s[0]));
        assert(t.remove(0).to_multiset() =~= t.to_multiset().remove(t[0]));
        let s1 = s.remove(0);
        let t1 = t.remove(0);
        assert forall|a: int, b: int| 0 <= a < b < s1.len() implies #[trigger] s1[a].0 != #[trigger] s1[b].0 by {
            assert(s1[a] == s[a + 1] && s1[b] == s[b + 1]);
        }
        assert forall|a: int, b: int| 0 <= a < b < t1.len() implies #[trigger] t1[a].0 != #[trigger] t1[b].0 by {
            assert(t1[a] == t[a + 1] && t1[b] == t[b + 1]);
        }
        assert forall|a: int, b: int| 0 <= a < b < s1.len() implies #[trigger] s1[a].0 >= #[trigger] s1[b].0 by {
            assert(s1[a] == s[a + 1] && s1[b] == s[b + 1]);
        }
        assert forall|a: int, b: int| 0 <= a < b < t1.len() implies #[trigger] t1[a].0 >= #[trigger] t1[b].0 by {
            assert(t1[a] == t[a + 1] && t1[b] == t[b + 1]);
        }
        lemma_descending_unique(s1, t1);
        assert(s =~= seq![s[0]] + s1);
        assert(t =~= seq![t[0]] + t1);
    }
}

/// A list with the same edits as one without two edits at the same start
/// has none either.
proof fn lemma_distinct_starts_permutation(a: Seq<(int, int, Seq<char>)>, b: Seq<(int, int, Seq<char>)>)
    requires
        a.to_multiset() =~= b.to_multiset(),
        distinct_starts(a),
    ensures
        distinct_starts(b),
{
    broadcast use vstd::seq_lib::group_to_multiset_ensures;
    broadcast use vstd::multiset::group_multiset_axioms;

    assert forall|i: int, j: int| 0 <= i < j < b.len() implies #[trigger] b[i].0 != #[trigger] b[j].0 by {
        if b[i].0 == b[j].0 {
            assert(b.to_multiset().count(b[i]) > 0);
            let x = choose|x: int| 0 <= x < a.len() && a[x] == b[i];
            if b[i] == b[j] {
                let bi = b.remove(i);
                assert(bi[j - 1] == b[j]);
                assert(bi.to_multiset().count(b[i]) > 0);
                assert(bi.to_multiset() =~= b.to_multiset().remove(b[i]));
                let ax = a.remove(x);
                assert(ax.to_multiset() =~= a.to_multiset().remove(a[x]));
                assert(ax.to_multiset().count(b[i]) > 0);
                let y = choose|y: int| 0 <= y < ax.len() && ax[y] == b[i];
                if y < x {
                    assert(ax[y] == a[y]);
                } else {
                    assert(ax[y] == a[y + 1]);
                }
            } else {
                assert(b.to_multiset().count(b[j]) > 0);
                let y = choose|y: int| 0 <= y < a.len() && a[y] == b[j];
                assert(x != y);
            }
        }
    }
}

/// The order in which edits are given does not matter when no two start at
/// the same offset: lists that hold the same edits are put in the same
/// order, so applying them gives the same text, or the same refusal.
pub proof fn lemma_edit_order_free(a: Seq<(int, int, Seq<char>)>, b: Seq<(int, int, Seq<char>)>)
    requires
        a.to_multiset() =~= b.to_multiset(),
        distinct_starts(a),
    ensures
        sorted_desc(a) == sorted_desc(b),
{
    lemma_distinct_starts_permutation(a, b);
    lemma_sorted_desc_multiset(a);
    lemma_sorted_desc_multiset(b);
    lemma_sorted_desc_descending(a);
    lemma_sorted_desc_descending(b);
    lemma_distinct_starts_permutation(a, sorted_desc(a));
    lemma_distinct_starts_permutation(a, sorted_desc(b));
    lemma_descending_unique(sorted_desc(a), sorted_desc(b));
}

// ---------------------------------------------------------------------------
// Overlaps and splicing
// ---------------------------------------------------------------------------
/// The first pair of neighbours (in descending order), from `k` on, where
/// the earlier edit runs into the later one.
pub open spec fn first_overlap_from(sorted: Seq<(int, int, Seq<char>)>, k: int) -> Option<int>
    decreases sorted.len() - k,
{
    if k < 0 || k + 1 >= sorted.len() {
        None
    } else if sorted[k + 1].1 > sorted[k].0 {
        Some(k)
    } else {
        first_overlap_from(sorted, k + 1)
    }
}

pub open spec fn first_overlap(sorted: Seq<(int, int, Seq<char>)>) -> Option<int> {
    first_overlap_from(sorted, 0)
}

proof fn lemma_no_overlap(sorted: Seq<(int, int, Seq<char>)>, k: int)
    requires
        0 <= k,
        first_overlap_from(sorted, k) is None,
    ensures
        forall|j: int| k <= j < sorted.len() - 1 ==> sorted[j + 1].1 <= sorted[j].0,
    decreases sorted.len() - k,
{
    if k + 1 < sorted.len() {
        lemma_no_overlap(sorted, k + 1);
    }
}

proof fn lemma_splice_step(src: Seq<u8>, sorted: Seq<(int, int, Seq<char>)>, i: int, cut: int)
    requires
        0 <= i < sorted.len(),
        0 <= sorted[i].0 <= sorted[i].1 <= cut <= src.len(),
    ensures
        spliced(src.take(cut), sorted.skip(i)) == spliced(src.take(sorted[i].0), sorted.skip(i + 1))
            + bytes_of(sorted[i].2) + src.subrange(sorted[i].1, cut),
{
    let rest = sorted.skip(i);
    assert(rest[0] == sorted[i]);
    assert(rest.drop_first() =~= sorted.skip(i + 1));
    let head = src.take(cut);
    assert(head.take(sorted[i].0) =~= src.take(sorted[i].0));
    assert(head.skip(sorted[i].1) =~= src.subrange(sorted[i].1, cut));
}

/// The bytes of `src` with every edit's range replaced by the bytes of its
/// replacement; the edits are in descending order and do not overlap.
pub open spec fn spliced(src: Seq<u8>, sorted: Seq<(int, int, Seq<char>)>) -> Seq<u8>
    decreases sorted.len(),
{
    if sorted.len() == 0 {
        src
    } else {
        spliced(src.take(sorted[0].0), sorted.drop_first()) + bytes_of(sorted[0].2) + src.skip(
            sorted[0].1,
        )
    }
}

/// How much the edits change a text's length: the sum, over the edits, of
/// the replacement's length less the replaced range's.
pub open spec fn size_change(sorted: Seq<(int, int, Seq<char>)>) -> int
    decreases sorted.len(),
{
    if sorted.len() == 0 {
        0
    } else {
        bytes_of(sorted[0].2).len() - (sorted[0].1 - sorted[0].0) + size_change(sorted.drop_first())
    }
}

/// Edits in descending order that lie within a text of `n` bytes and do not
/// run into each other.
pub open spec fn descending_disjoint(sorted: Seq<(int, int, Seq<char>)>, n: int) -> bool {
    &&& forall|k: int| 0 <= k < sorted.len() ==> 0 <= (#[trigger] sorted[k]).0 <= sorted[k].1 <= n
    &&& forall|k: int| 0 <= k < sorted.len() - 1 ==> sorted[k + 1].1 <= (#[trigger] sorted[k]).0
}

proof fn lemma_ends_before_first(sorted: Seq<(int, int, Seq<char>)>, n: int, k: int)
    requires
        descending_disjoint(sorted, n),
        1 <= k < sorted.len(),
    ensures
        sorted[k].1 <= sorted[0].0,
    decreases k,
{
    if k > 1 {
        lemma_ends_before_first(sorted, n, k - 1);
        assert(sorted[k].1 <= sorted[k - 1].0);
    } else {
        assert(sorted[1].1 <= sorted[0].0);
    }
}

/// Splicing changes the length of a text by the edits' size change.
pub proof fn lemma_spliced_length(src: Seq<u8>, sorted: Seq<(int, int, Seq<char>)>)
    requires
        descending_disjoint(sorted, src.len() as int),
    ensures
        spliced(src, sorted).len() == src.len() + size_change(sorted),
    decreases sorted.len(),
{
    if sorted.len() > 0 {
        let rest = sorted.drop_first();
        let cut = sorted[0].0;
        assert(sorted[0] == sorted[0]);
        assert forall|k: int| 0 <= k < rest.len() implies 0 <= (#[trigger] rest[k]).0 <= rest[k].1
            <= cut by {
            assert(rest[k] == sorted[k + 1]);
            lemma_ends_before_first(sorted, src.len() as int, k + 1);
        }
        assert forall|k: int| 0 <= k < rest.len() - 1 implies rest[k + 1].1 <= (#[trigger] rest[k]).0 by {
            assert(rest[k + 1] == sorted[k + 2]);
            assert(rest[k] == sorted[k + 1]);
            assert(sorted[k + 2].1 <= sorted[k + 1].0);
        }
        lemma_spliced_length(src.take(cut), rest);
    }
}

/// Applying no edit leaves a text as it was.
pub proof fn lemma_spliced_nothing(src: Seq<u8>)
    ensures
        spliced(src, Seq::empty()) == src,
{
}

/// `overlapping <what> edits at byte offsets <a>..<b> and <c>..<d>`, for
/// an earlier edit `a..b` that runs into a later edit `c..d`.
pub open spec fn overlap_message(
    what: Seq<char>,
    earlier: (int, int, Seq<char>),
    later: (int, int, Seq<char>),
) -> Seq<char> {
    "overlapping "@ + what + " edits at byte offsets "@ + decimal(earlier.0 as nat) + ".."@
        + decimal(earlier.1 as nat) + " and "@ + decimal(later.0 as nat) + ".."@ + decimal(
        later.1 as nat,
    )
}

/// Every edit lies within the text and starts and ends at character
/// boundaries, as `String::replace_range` requires.
pub open spec fn edits_fit(src: Seq<char>, edits: Seq<(int, int, Seq<char>)>) -> bool {
    forall|k: int|
        0 <= k < edits.len() ==> {
            &&& 0 <= (#[trigger] edits[k]).0 <= edits[k].1 <= bytes_of(src).len()
            &&& is_char_boundary(bytes_of(src), edits[k].0)
            &&& is_char_boundary(bytes_of(src), edits[k].1)
        }
}

pub proof fn lemma_encode_concat(a: Seq<char>, b: Seq<char>)
    ensures
        encode_utf8(a + b) == encode_utf8(a) + encode_utf8(b),
    decreases a.len(),
{
    if a.len() == 0 {
        assert(a + b =~= b);
    } else {
        assert((a + b).drop_first() =~= a.drop_first() + b);
        assert((a + b)[0] == a[0]);
        lemma_encode_concat(a.drop_first(), b);
    }
}

proof fn lemma_boundary_in_prefix(bytes: Seq<u8>, a: int, b: int)
    requires
        valid_utf8(bytes),
        0 <= a <= b <= bytes.len(),
        is_char_boundary(bytes, a),
        is_char_boundary(bytes, b),
    ensures
        valid_utf8(bytes.take(b)),
        is_char_boundary(bytes.take(b), a),
{
    valid_utf8_split(bytes, b);
    assert(bytes.subrange(0, b) =~= bytes.take(b));
    let head = bytes.take(b);
    if a == b {
        is_char_boundary_start_end_of_seq(head);
    } else {
        is_char_boundary_iff_not_is_continuation_byte(bytes, a);
        is_char_boundary_iff_not_is_continuation_byte(head, a);
    }
}

/// The text of `s` between the byte offsets `a` and `b`.
fn byte_slice(s: &str, a: usize, b: usize) -> (r: String)
    requires
        a <= b <= bytes_of(s@).len(),
        is_char_boundary(bytes_of(s@), a as int),
        is_char_boundary(bytes_of(s@), b as int),
    ensures
        bytes_of(r@) == bytes_of(s@).subrange(a as int, b as int),
{
    proof {
        encode_utf8_valid_utf8(s@);
        lemma_boundary_in_prefix(bytes_of(s@), a as int, b as int);
    }
    let (head, _) = s.split_at(b);
    assert(bytes_of(head@) =~= bytes_of(s@).take(b as int));
    let (_, piece) = head.split_at(a);
    assert(bytes_of(piece@) =~= bytes_of(s@).subrange(a as int, b as int));
    String::from_str(piece)
}

fn push_overlap_message(out: &mut Vec<char>, what: &str, earlier: &Edit, later: &Edit)
    ensures
        final(out)@ == old(out)@ + overlap_message(what@, edit_view(*earlier), edit_view(*later)),
{
    push_str(out, "overlapping ");
    push_str(out, what);
    push_str(out, " edits at byte offsets ");
    push_decimal(out, earlier.start_offset);
    push_str(out, "..");
    push_decimal(out, earlier.end_offset);
    push_str(out, " and ");
    push_decimal(out, later.start_offset);
    push_str(out, "..");
    push_decimal(out, later.end_offset);
    assert(out@ =~= old(out)@ + overlap_message(what@, edit_view(*earlier), edit_view(*later)));
}

/// Applies `edits` to `source`, or refuses them when two overlap; `what`
/// names the edits in the refusal.
#[verifier::spinoff_prover]
#[verifier::rlimit(40)]
pub fn apply_edits_named(source: &str, edits: &Vec<Edit>, what: &str) -> (r: Result<String, String>)
    requires
        edits_fit(source@, edit_views(edits@)),
        bytes_of(source@).len() <= usize::MAX,
    ensures
        match first_overlap(sorted_desc(edit_views(edits@))) {
            Some(k) => r is Err && r->Err_0@ == overlap_message(
                what@,
                sorted_desc(edit_views(edits@))[k + 1],
                sorted_desc(edit_views(edits@))[k],
            ),
            None => r is Ok && bytes_of(r->Ok_0@) == spliced(
                bytes_of(source@),
                sorted_desc(edit_views(edits@)),
            ),
        },
{
    let ghost ev = edit_views(edits@);
    let order = sort_order(edits);
    let ghost sorted = sorted_desc(ev);
    assert(sorted.len() == order@.len());
    assert forall|k: int| 0 <= k < sorted.len() implies #[trigger] sorted[k] == ev[order@[k] as int] by {
        assert(ordered_view(ev, order@)[k] == ev[order@[k] as int]);
    }
    // Refuse overlapping neighbours.
    let mut k: usize = 0;
    while order.len() > 0 && k < order.len() - 1
        invariant
            order@.len() == sorted.len(),
            k <= order@.len(),
            forall|j: int| 0 <= j < order@.len() ==> (#[trigger] order@[j]) < edits@.len(),
            forall|j: int| 0 <= j < sorted.len() ==> #[trigger] sorted[j] == ev[order@[j] as int],
            ev == edit_views(edits@),
            sorted == sorted_desc(ev),
            first_overlap(sorted) == first_overlap_from(sorted, k as int),
        decreases order@.len() - k,
    {
        let later = &edits[order[k]];
        let earlier = &edits[order[k + 1]];
        assert(sorted[k as int] == edit_view(*later));
        assert(sorted[k + 1] == edit_view(*earlier));
        if earlier.end_offset > later.start_offset {
            assert(first_overlap_from(sorted, k as int) == Some(k as int));
            let mut msg: Vec<char> = Vec::new();
            push_overlap_message(&mut msg, what, earlier, later);
            let text = string_from_chars(msg.as_slice());
            assert(text@ == overlap_message(what@, sorted[k + 1], sorted[k as int]));
            return Err(text);
        }
        k += 1;
    }
    assert(first_overlap(sorted) is None);
    proof {
        lemma_no_overlap(sorted, 0);
    }
    // Splice from the last edit to the first.
    let ghost src = bytes_of(source@);
    proof {
        encode_utf8_valid_utf8(source@);
        is_char_boundary_start_end_of_seq(src);
    }
    let total = source.len();
    let mut acc = String::new();
    let mut cut: usize = total;
    let mut i: usize = 0;
    assert(sorted.skip(0) =~= sorted);
    assert(src.take(total as int) =~= src);
    assert(spliced(src, sorted) =~= spliced(src.take(cut as int), sorted.skip(0)) + bytes_of(acc@));
    while i < order.len()
        invariant
            i <= order@.len(),
            order@.len() == sorted.len(),
            forall|j: int| 0 <= j < order@.len() ==> (#[trigger] order@[j]) < edits@.len(),
            forall|j: int| 0 <= j < sorted.len() ==> #[trigger] sorted[j] == ev[order@[j] as int],
            forall|j: int| 0 <= j < sorted.len() - 1 ==> sorted[j + 1].1 <= #[trigger] sorted[j].0,
            ev == edit_views(edits@),
            sorted == sorted_desc(ev),
            edits_fit(source@, ev),
            src == bytes_of(source@),
            total == src.len(),
            cut <= total,
            is_char_boundary(src, cut as int),
            i == 0 ==> cut == total,
            i > 0 ==> cut == sorted[i - 1].0,
            spliced(src, sorted) == spliced(src.take(cut as int), sorted.skip(i as int)) + bytes_of(
                acc@,
            ),
        decreases order@.len() - i,
    {
        let e = &edits[order[i]];
        assert(sorted[i as int] == edit_view(*e));
        assert(ev[order@[i as int] as int] == edit_view(*e));
        assert(e.end_offset <= cut) by {
            if i > 0 {
                assert(sorted[i as int].1 <= sorted[i - 1].0);
            }
        }
        let piece = byte_slice(source, e.end_offset, cut);
        let mut next = e.replacement.clone();
        next.append(piece.as_str());
        next.append(acc.as_str());
        proof {
            lemma_splice_step(src, sorted, i as int, cut as int);
            lemma_encode_concat(e.replacement@, piece@);
            lemma_encode_concat(e.replacement@ + piece@, acc@);
            assert(bytes_of(next@) == bytes_of(sorted[i as int].2) + src.subrange(
                e.end_offset as int,
                cut as int,
            ) + bytes_of(acc@));
        }
        acc = next;
        cut = e.start_offset;
        i += 1;
    }
    let prefix = byte_slice(source, 0, cut);
    let mut result = prefix;
    result.append(acc.as_str());
    proof {
        assert(sorted.skip(i as int) =~= Seq::<(int, int, Seq<char>)>::empty());
        assert(src.subrange(0, cut as int) =~= src.take(cut as int));
        lemma_encode_concat(prefix@, acc@);
    }
    Ok(result)
}

} // verus!
