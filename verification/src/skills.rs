//! Translation of skill documents for the in-repository copies: every
//! `docgarden <subcommand> <argument>...` command in inline code or in a
//! shell code block is rewritten to `cargo run -- <subcommand> ...`.
use vstd::prelude::*;

use crate::analyzer::split_pieces;
use crate::edits::{apply_edits_named, bytes_of, edit_view, edit_views, edits_fit, first_overlap, lemma_encode_concat, overlap_message, sorted_desc, spliced, Edit};
use crate::frontmatter::{line_views, lines_of, text_lines};
use crate::lint::newline_fn;
use crate::gfm::{gfm_tree, parse_markdown};
use crate::markdown::{is_parent, spec_is_parent, MarkdownNode, NodeKind};
use crate::text::{
    chars_of, is_whitespace, matches_at, occurs_at, push_all, push_str, seq_starts_with,
    slice_chars, starts_with, string_from_chars, unicode_white_space,
};

verus! {

broadcast use vstd::seq_lib::group_seq_properties;

pub open spec fn whitespace_fn() -> spec_fn(char) -> bool {
    |c: char| unicode_white_space(c)
}

/// The number of non-empty pieces (the words of `split_whitespace`).
pub open spec fn word_count(pieces: Seq<Seq<char>>) -> nat
    decreases pieces.len(),
{
    if pieces.len() == 0 {
        0
    } else {
        word_count(pieces.drop_last()) + if pieces.last().len() > 0 {
            1nat
        } else {
            0nat
        }
    }
}

/// `docgarden ` followed by a subcommand and at least one more word.
pub open spec fn spec_is_translatable_command(value: Seq<char>) -> bool {
    seq_starts_with(value, "docgarden "@) && word_count(
        split_pieces(value.skip("docgarden "@.len() as int), whitespace_fn()),
    ) >= 2
}

fn count_words(s: &[char]) -> (n: usize)
    ensures
        n == word_count(split_pieces(s@, whitespace_fn())),
{
    let ghost sep = whitespace_fn();
    let mut count: usize = 0;
    let mut cur_len: usize = 0;
    let mut i: usize = 0;
    assert(s@.take(0) =~= Seq::<char>::empty());
    while i < s.len()
        invariant
            sep == whitespace_fn(),
            i <= s@.len(),
            split_pieces(s@.take(i as int), sep).len() >= 1,
            count == word_count(split_pieces(s@.take(i as int), sep).drop_last()),
            count + cur_len <= i,
            cur_len == split_pieces(s@.take(i as int), sep).last().len(),
        decreases s@.len() - i,
    {
        let c = s[i];
        let ghost prefix = s@.take(i as int);
        let ghost next = s@.take(i + 1);
        let ghost ps = split_pieces(prefix, sep);
        assert(next.drop_last() =~= prefix);
        assert(next.last() == c);
        proof {
            crate::analyzer::lemma_split_pieces_nonempty(next, sep);
        }
        if is_whitespace(c) {
            if cur_len > 0 {
                count += 1;
            }
            cur_len = 0;
            assert(split_pieces(next, sep) == ps.push(Seq::<char>::empty()));
            assert(ps.push(Seq::<char>::empty()).drop_last() =~= ps);
            assert(ps =~= ps.drop_last().push(ps.last()));
        } else {
            cur_len += 1;
            assert(split_pieces(next, sep) == ps.update(ps.len() - 1, ps.last().push(c)));
            assert(ps.update(ps.len() - 1, ps.last().push(c)).drop_last() =~= ps.drop_last());
        }
        i += 1;
    }
    assert(s@.take(s@.len() as int) =~= s@);
    let ghost ps = split_pieces(s@, sep);
    assert(ps =~= ps.drop_last().push(ps.last()));
    if cur_len > 0 {
        count + 1
    } else {
        count
    }
}

/// Whether inline code or a code line is a command worth translating.
pub fn is_translatable_command(value: &str) -> (r: bool)
    ensures
        r == spec_is_translatable_command(value@),
{
    let v = chars_of(value);
    if !starts_with(v.as_slice(), "docgarden ") {
        return false;
    }
    proof {
        reveal_strlit("docgarden ");
    }
    let rest = slice_chars(v.as_slice(), 10, v.len());
    assert(rest@ =~= value@.skip("docgarden "@.len() as int));
    count_words(rest.as_slice()) >= 2
}

/// Code blocks without a language and shell blocks are translated.
pub open spec fn spec_is_shell_fenced_block(lang: Option<Seq<char>>) -> bool {
    match lang {
        None => true,
        Some(l) => l == "sh"@ || l == "bash"@ || l == "shell"@,
    }
}

pub fn is_shell_fenced_block(lang: Option<&str>) -> (r: bool)
    ensures
        r == spec_is_shell_fenced_block(
            match lang {
                Some(l) => Some(l@),
                None => None,
            },
        ),
{
    match lang {
        None => true,
        Some(l) => crate::text::str_eq(l, "sh") || crate::text::str_eq(l, "bash")
            || crate::text::str_eq(l, "shell"),
    }
}

/// The number of backtick bytes at the start of `b`.
pub open spec fn leading_backticks(b: Seq<u8>) -> nat
    decreases b.len(),
{
    if b.len() > 0 && b[0] == 96 {
        1 + leading_backticks(b.drop_first())
    } else {
        0
    }
}

proof fn lemma_leading_backticks_bound(b: Seq<u8>)
    ensures
        leading_backticks(b) <= b.len(),
        forall|k: int| 0 <= k < leading_backticks(b) ==> b[k] == 96,
    decreases b.len(),
{
    if b.len() > 0 && b[0] == 96 {
        lemma_leading_backticks_bound(b.drop_first());
        assert forall|k: int| 0 <= k < leading_backticks(b) implies b[k] == 96 by {
            if k > 0 {
                assert(b[k] == b.drop_first()[k - 1]);
            }
        }
    }
}

/// The number of backticks at byte `offset` of `source`.
pub fn count_leading_backticks(source: &str, offset: usize) -> (n: usize)
    requires
        offset <= bytes_of(source@).len(),
        vstd::utf8::is_char_boundary(bytes_of(source@), offset as int),
    ensures
        n == leading_backticks(bytes_of(source@).skip(offset as int)),
        offset + n <= bytes_of(source@).len(),
{
    let bytes = source.as_bytes();
    let ghost b = bytes_of(source@);
    assert(bytes@ == b);
    let mut i: usize = offset;
    while i < bytes.len() && bytes[i] == 96
        invariant
            offset <= i <= b.len(),
            bytes@ == b,
            leading_backticks(b.skip(offset as int)) == (i - offset) + leading_backticks(b.skip(i as int)),
        decreases b.len() - i,
    {
        assert(b.skip(i as int).drop_first() =~= b.skip(i + 1));
        i += 1;
    }
    i - offset
}

/// `value` between runs of `backtick_count` backticks (at least one).
pub open spec fn spec_render_inline_code(value: Seq<char>, backtick_count: nat) -> Seq<char> {
    let n = if backtick_count == 0 {
        1
    } else {
        backtick_count
    };
    Seq::new(n, |i: int| '`') + value + Seq::new(n, |i: int| '`')
}

pub fn render_inline_code(value: &str, backtick_count: usize) -> (r: String)
    ensures
        r@ == spec_render_inline_code(value@, backtick_count as nat),
{
    let n = if backtick_count == 0 {
        1
    } else {
        backtick_count
    };
    let mut fence: Vec<char> = Vec::new();
    let mut i: usize = 0;
    while i < n
        invariant
            i <= n,
            fence@ == Seq::new(i as nat, |j: int| '`'),
        decreases n - i,
    {
        fence.push('`');
        i += 1;
        assert(fence@ =~= Seq::new(i as nat, |j: int| '`'));
    }
    let mut out: Vec<char> = Vec::new();
    push_all(&mut out, fence.as_slice());
    push_str(&mut out, value);
    push_all(&mut out, fence.as_slice());
    string_from_chars(out.as_slice())
}

/// The first index where `p` occurs in `s`.
pub open spec fn first_occurrence(s: Seq<char>, p: Seq<char>) -> Option<int> {
    if exists|i: int| occurs_at(s, p, i) {
        Some(choose|i: int| occurs_at(s, p, i) && forall|j: int| 0 <= j < i ==> !occurs_at(s, p, j))
    } else {
        None
    }
}

/// `s` with its first `docgarden ` turned into `cargo run -- `.
pub open spec fn spec_translate_command(s: Seq<char>) -> Seq<char> {
    match first_occurrence(s, "docgarden "@) {
        Some(i) => s.take(i) + "cargo run -- "@ + s.skip(i + "docgarden "@.len()),
        None => s,
    }
}

pub fn translate_command(value: &str) -> (r: String)
    ensures
        r@ == spec_translate_command(value@),
{
    let v = chars_of(value);
    let pat = chars_of("docgarden ");
    let mut i: usize = 0;
    while i < v.len()
        invariant
            i <= v@.len(),
            v@ == value@,
            pat@ == "docgarden "@,
            forall|j: int| 0 <= j < i ==> !occurs_at(v@, pat@, j),
        decreases v@.len() - i,
    {
        if matches_at(v.as_slice(), pat.as_slice(), i) {
            proof {
                let w = choose|w: int|
                    occurs_at(v@, pat@, w) && forall|j: int| 0 <= j < w ==> !occurs_at(v@, pat@, j);
                assert(occurs_at(v@, pat@, i as int));
                assert(w == i) by {
                    if w < i {
                        assert(!occurs_at(v@, pat@, w));
                    }
                    if w > i {
                        assert(!occurs_at(v@, pat@, i as int));
                    }
                }
            }
            let mut out = slice_chars(v.as_slice(), 0, i);
            push_str(&mut out, "cargo run -- ");
            let rest = slice_chars(v.as_slice(), i + pat.len(), v.len());
            push_all(&mut out, rest.as_slice());
            return string_from_chars(out.as_slice());
        }
        i += 1;
    }
    assert(first_occurrence(v@, pat@) is None) by {
        if exists|w: int| occurs_at(v@, pat@, w) {
            let w = choose|w: int| occurs_at(v@, pat@, w);
            reveal_strlit("docgarden ");
            assert(w < i);
        }
    }
    string_from_chars(v.as_slice())
}

/// A translated command is not translated again: what the translation
/// gives starts with `cargo run -- `, so a second sync leaves it alone.
pub proof fn lemma_translated_command_is_final(value: Seq<char>)
    requires
        spec_is_translatable_command(value),
    ensures
        !spec_is_translatable_command(spec_translate_command(value)),
{
    reveal_strlit("docgarden ");
    reveal_strlit("cargo run -- ");
    let p = "docgarden "@;
    assert(occurs_at(value, p, 0));
    let w = choose|w: int| occurs_at(value, p, w) && forall|j: int| 0 <= j < w ==> !occurs_at(value, p, j);
    assert(w == 0);
    let t = spec_translate_command(value);
    assert(t[0] == 'c');
    assert(!seq_starts_with(t, p)) by {
        if seq_starts_with(t, p) {
            assert(t.subrange(0, p.len() as int)[0] == p[0]);
        }
    }
}

/// The edit that translates inline code `value` at `start..end`, when the
/// source there holds the value between equal runs of backticks.
pub open spec fn spec_inline_code_edit(
    source: Seq<char>,
    start: int,
    end: int,
    value: Seq<char>,
) -> Option<(int, int, Seq<char>)> {
    let b = bytes_of(source);
    let n = leading_backticks(b.skip(start)) as int;
    if b.subrange(start + n, end - n) == bytes_of(value) {
        Some((start, end, spec_render_inline_code(spec_translate_command(value), n as nat)))
    } else {
        None
    }
}

/// The inline code node fits the source: its range holds an opening run
/// of backticks, and as many bytes before its end.
pub open spec fn inline_code_fits(source: Seq<char>, start: int, end: int) -> bool {
    let b = bytes_of(source);
    let n = leading_backticks(b.skip(start)) as int;
    &&& 0 <= start <= end <= b.len()
    &&& vstd::utf8::is_char_boundary(b, start)
    &&& start + 2 * n <= end
}

pub fn inline_code_translation_edit(source: &str, start: usize, end: usize, value: &str) -> (r:
    Option<Edit>)
    requires
        inline_code_fits(source@, start as int, end as int),
    ensures
        match spec_inline_code_edit(source@, start as int, end as int, value@) {
            Some(e) => r is Some && crate::edits::edit_view(r->0) == e,
            None => r is None,
        },
{
    let n = count_leading_backticks(source, start);
    let bytes = source.as_bytes();
    let vb = value.as_bytes();
    let ghost b = bytes_of(source@);
    let value_start = start + n;
    let value_end = end - n;
    let mut same = vb.len() == value_end - value_start;
    let mut k: usize = 0;
    while same && k < vb.len()
        invariant
            same ==> vb@.len() == value_end - value_start,
            bytes@ == b,
            vb@ == bytes_of(value@),
            value_start <= value_end <= b.len(),
            k <= vb@.len(),
            same ==> forall|j: int| 0 <= j < k ==> vb@[j] == b[value_start + j],
            !same ==> b.subrange(value_start as int, value_end as int) != bytes_of(value@),
        decreases vb@.len() - k + if same {
            1int
        } else {
            0int
        },
    {
        if bytes[value_start + k] != vb[k] {
            assert(b.subrange(value_start as int, value_end as int)[k as int] != vb@[k as int]);
            same = false;
        } else {
            k += 1;
        }
    }
    if !same {
        return None;
    }
    assert(b.subrange(value_start as int, value_end as int) =~= bytes_of(value@));
    let translated = translate_command(value);
    Some(Edit {
        start_offset: start,
        end_offset: end,
        replacement: render_inline_code(translated.as_str(), n),
    })
}

// ---------------------------------------------------------------------------
// Code blocks
// ---------------------------------------------------------------------------
/// `p` is a range of `s`.
pub open spec fn is_range_of(s: Seq<char>, p: Seq<char>) -> bool {
    exists|a: int, b: int| 0 <= a <= b <= s.len() && p == #[trigger] s.subrange(a, b)
}

/// Every piece of a split is a range of the text, and the last piece runs
/// to its end.
proof fn lemma_pieces_are_ranges(s: Seq<char>, sep: spec_fn(char) -> bool)
    ensures
        forall|k: int| 0 <= k < split_pieces(s, sep).len() ==> is_range_of(s, #[trigger] split_pieces(s, sep)[k]),
        exists|a: int| 0 <= a <= s.len() && split_pieces(s, sep).last() == #[trigger] s.subrange(a, s.len() as int),
    decreases s.len(),
{
    crate::analyzer::lemma_split_pieces_nonempty(s, sep);
    if s.len() == 0 {
        assert(split_pieces(s, sep)[0] == s.subrange(0, 0));
        assert(split_pieces(s, sep).last() == s.subrange(0, 0));
    } else {
        let prev_s = s.drop_last();
        lemma_pieces_are_ranges(prev_s, sep);
        crate::analyzer::lemma_split_pieces_nonempty(prev_s, sep);
        let prev = split_pieces(prev_s, sep);
        let ps = split_pieces(s, sep);
        assert forall|k: int| 0 <= k < prev.len() implies is_range_of(s, #[trigger] prev[k]) by {
            assert(is_range_of(prev_s, prev[k]));
            let (a, b) = choose|a: int, b: int| 0 <= a <= b <= prev_s.len() && prev[k] == #[trigger] prev_s.subrange(a, b);
            assert(prev_s.subrange(a, b) =~= s.subrange(a, b));
        }
        let a0 = choose|a: int| 0 <= a <= prev_s.len() && prev.last() == #[trigger] prev_s.subrange(a, prev_s.len() as int);
        if sep(s.last()) {
            assert(ps == prev.push(Seq::<char>::empty()));
            assert(ps.last() == s.subrange(s.len() as int, s.len() as int));
            assert forall|k: int| 0 <= k < ps.len() implies is_range_of(s, #[trigger] ps[k]) by {
                if k < prev.len() {
                    assert(ps[k] == prev[k]);
                } else {
                    assert(ps[k] == s.subrange(s.len() as int, s.len() as int));
                }
            }
        } else {
            assert(ps == prev.update(prev.len() - 1, prev.last().push(s.last())));
            assert(prev.last().push(s.last()) =~= s.subrange(a0, s.len() as int));
            assert(ps.last() == s.subrange(a0, s.len() as int));
            assert forall|k: int| 0 <= k < ps.len() implies is_range_of(s, #[trigger] ps[k]) by {
                if k < prev.len() - 1 {
                    assert(ps[k] == prev[k]);
                } else {
                    assert(ps[k] == s.subrange(a0, s.len() as int));
                }
            }
        }
    }
}

proof fn lemma_range_bytes(s: Seq<char>, a: int, b: int)
    requires
        0 <= a <= b <= s.len(),
    ensures
        bytes_of(s.subrange(a, b)).len() <= bytes_of(s).len(),
{
    assert(s =~= s.subrange(0, a) + s.subrange(a, b) + s.subrange(b, s.len() as int));
    lemma_encode_concat(s.subrange(0, a) + s.subrange(a, b), s.subrange(b, s.len() as int));
    lemma_encode_concat(s.subrange(0, a), s.subrange(a, b));
}

proof fn lemma_line_bytes(value: Seq<char>, k: int)
    requires
        0 <= k < text_lines(value).len(),
    ensures
        bytes_of(text_lines(value)[k]).len() <= bytes_of(value).len(),
{
    let ps = split_pieces(value, newline_fn());
    lemma_pieces_are_ranges(value, newline_fn());
    crate::analyzer::lemma_split_pieces_nonempty(value, newline_fn());
    assert(is_range_of(value, ps[k]));
    let (a, b) = choose|a: int, b: int| 0 <= a <= b <= value.len() && ps[k] == #[trigger] value.subrange(a, b);
    let line = text_lines(value)[k];
    if line.len() < ps[k].len() {
        assert(line =~= value.subrange(a, b - 1));
        lemma_range_bytes(value, a, b - 1);
    } else {
        assert(line == ps[k]);
        lemma_range_bytes(value, a, b);
    }
}

/// The first and last positions of a byte.
pub open spec fn first_byte(b: Seq<u8>, x: u8) -> Option<int>
    decreases b.len(),
{
    if b.len() == 0 {
        None
    } else if b[0] == x {
        Some(0)
    } else {
        match first_byte(b.drop_first(), x) {
            Some(i) => Some(i + 1),
            None => None,
        }
    }
}

pub open spec fn last_byte(b: Seq<u8>, x: u8) -> Option<int>
    decreases b.len(),
{
    if b.len() == 0 {
        None
    } else if b.last() == x {
        Some(b.len() - 1)
    } else {
        last_byte(b.drop_last(), x)
    }
}

/// The edits of the lines of a code block from line `k` on, the line
/// starting at byte `line_start`: each line moves the start on by its
/// length and one, and the scan ends once the start passes `content_end`.
pub open spec fn code_block_edits_from(
    lines: Seq<Seq<char>>,
    k: int,
    line_start: int,
    content_end: int,
) -> Seq<(int, int, Seq<char>)>
    decreases lines.len() - k,
{
    if k < 0 || k >= lines.len() {
        seq![]
    } else {
        let line = lines[k];
        let len = bytes_of(line).len() as int;
        let here = if spec_is_translatable_command(line) {
            seq![(line_start, line_start + len, spec_translate_command(line))]
        } else {
            seq![]
        };
        let next = line_start + len + 1;
        here + if next > content_end {
            seq![]
        } else {
            code_block_edits_from(lines, k + 1, next, content_end)
        }
    }
}

/// The edits of a code block at bytes `start..end` with content `value`:
/// its lines are placed after the opening fence line; none when the block
/// holds no line feed.
pub open spec fn spec_code_block_edits(source: Seq<char>, start: int, end: int, value: Seq<char>) -> Seq<
    (int, int, Seq<char>),
> {
    let block = bytes_of(source).subrange(start, end);
    match (first_byte(block, 10), last_byte(block, 10)) {
        (Some(f), Some(l)) => code_block_edits_from(text_lines(value), 0, start + f + 1, start + l),
        _ => seq![],
    }
}

pub open spec fn block_fits(source: Seq<char>, start: int, end: int) -> bool {
    &&& 0 <= start <= end <= bytes_of(source).len()
    &&& vstd::utf8::is_char_boundary(bytes_of(source), start)
    &&& vstd::utf8::is_char_boundary(bytes_of(source), end)
}

fn byte_len(line: &[char]) -> (n: usize)
    requires
        bytes_of(line@).len() <= usize::MAX,
    ensures
        n == bytes_of(line@).len(),
{
    let s = string_from_chars(line);
    s.as_str().len()
}

#[verifier::spinoff_prover]
#[verifier::rlimit(40)]
fn newline_bounds(source: &str, start: usize, end: usize) -> (r: Option<(usize, usize)>)
    requires
        block_fits(source@, start as int, end as int),
    ensures
        ({
            let block = bytes_of(source@).subrange(start as int, end as int);
            match r {
                Some((f, l)) => first_byte(block, 10) == Some(f - start) && last_byte(block, 10)
                    == Some(l - start) && start <= f <= l < end,
                None => first_byte(block, 10) is None || last_byte(block, 10) is None,
            }
        }),
{
    let bytes = source.as_bytes();
    let ghost block = bytes_of(source@).subrange(start as int, end as int);
    let mut f: usize = start;
    while f < end && bytes[f] != 10
        invariant
            start <= f <= end,
            end <= bytes@.len(),
            bytes@ == bytes_of(source@),
            block == bytes_of(source@).subrange(start as int, end as int),
            first_byte(block, 10) == match first_byte(block.skip(f - start), 10) {
                Some(i) => Some(i + (f - start)),
                None => None::<int>,
            },
        decreases end - f,
    {
        assert(block.skip(f - start).drop_first() =~= block.skip(f - start + 1));
        f += 1;
    }
    if f >= end {
        assert(block.skip(f - start).len() == 0);
        return None;
    }
    assert(block.skip(f - start)[0] == 10);
    let mut l: usize = end;
    while l > start && bytes[l - 1] != 10
        invariant
            start <= l <= end,
            end <= bytes@.len(),
            bytes@ == bytes_of(source@),
            block == bytes_of(source@).subrange(start as int, end as int),
            last_byte(block, 10) == last_byte(block.take(l - start), 10),
            f < end && block[f - start] == 10,
            forall|j: int| l - start <= j < end - start ==> block[j] != 10,
        decreases l,
    {
        assert(block[l - 1 - start] == bytes@[l - 1]);
        assert(block.take(l - start).drop_last() =~= block.take(l - start - 1));
        l -= 1;
    }
    assert(l > f);
    assert(block[l - 1 - start] == bytes@[l - 1]);
    assert(block.take(l - start).last() == 10);
    Some((f, l - 1))
}

pub fn code_block_translation_edits(source: &str, start: usize, end: usize, value: &str) -> (r: Vec<
    Edit,
>)
    requires
        block_fits(source@, start as int, end as int),
        bytes_of(source@).len() + bytes_of(value@).len() < usize::MAX,
    ensures
        edit_views(r@) == spec_code_block_edits(source@, start as int, end as int, value@),
{
    let mut out: Vec<Edit> = Vec::new();
    let (f, l) = match newline_bounds(source, start, end) {
        Some(b) => b,
        None => {
            assert(edit_views(out@) =~= spec_code_block_edits(source@, start as int, end as int, value@));
            return out;
        },
    };
    let content_start = f + 1;
    let content_end = l;
    let chars = chars_of(value);
    let lines = lines_of(chars.as_slice());
    let ghost lv = line_views(lines@);
    assert(lv == text_lines(value@));
    let mut line_start: usize = content_start;
    let mut k: usize = 0;
    let ghost target = code_block_edits_from(lv, 0, content_start as int, content_end as int);
    assert(edit_views(out@) + code_block_edits_from(lv, 0, line_start as int, content_end as int) =~= target);
    while k < lines.len()
        invariant_except_break
            k <= lines@.len(),
            lv == line_views(lines@),
            lv == text_lines(value@),
            line_start <= bytes_of(source@).len(),
            content_end < bytes_of(source@).len(),
            bytes_of(source@).len() + bytes_of(value@).len() < usize::MAX,
            edit_views(out@) + code_block_edits_from(lv, k as int, line_start as int, content_end as int) == target,
        ensures
            edit_views(out@) == target,
        decreases lines@.len() - k,
    {
        let line = &lines[k];
        assert(lv[k as int] == line@);
        proof {
            lemma_line_bytes(value@, k as int);
        }
        let len = byte_len(line.as_slice());
        let ghost before = edit_views(out@);
        let text = string_from_chars(line.as_slice());
        if is_translatable_command(text.as_str()) {
            let replacement = translate_command(text.as_str());
            out.push(Edit { start_offset: line_start, end_offset: line_start + len, replacement });
            assert(edit_views(out@) =~= before.push((line_start as int, line_start + len, spec_translate_command(line@))));
        }
        let next = line_start + len + 1;
        k += 1;
        if next > content_end {
            assert(edit_views(out@) =~= target);
            break;
        }
        assert(edit_views(out@) + code_block_edits_from(lv, k as int, next as int, content_end as int) =~= target);
        line_start = next;
    }
    assert(edit_views(out@) =~= spec_code_block_edits(source@, start as int, end as int, value@));
    out
}

// ---------------------------------------------------------------------------
// Documents
// ---------------------------------------------------------------------------
pub open spec fn lang_view(lang: Option<String>) -> Option<Seq<char>> {
    match lang {
        Some(l) => Some(l@),
        None => None,
    }
}

/// The translation edits of a node alone: translatable inline code whose
/// position fits the source, and every line of a shell code block.
pub open spec fn own_edits(source: Seq<char>, node: MarkdownNode) -> Seq<(int, int, Seq<char>)> {
    match node.position {
        Some(p) => if node.kind == NodeKind::InlineCode {
            if spec_is_translatable_command(node.value@) && inline_code_fits(
                source,
                p.start_offset as int,
                p.end_offset as int,
            ) {
                match spec_inline_code_edit(
                    source,
                    p.start_offset as int,
                    p.end_offset as int,
                    node.value@,
                ) {
                    Some(e) => seq![e],
                    None => seq![],
                }
            } else {
                seq![]
            }
        } else if node.kind == NodeKind::Code {
            if spec_is_shell_fenced_block(lang_view(node.lang)) && block_fits(
                source,
                p.start_offset as int,
                p.end_offset as int,
            ) {
                spec_code_block_edits(source, p.start_offset as int, p.end_offset as int, node.value@)
            } else {
                seq![]
            }
        } else {
            seq![]
        },
        None => seq![],
    }
}

/// The translation edits of a tree, in document order.
pub open spec fn node_edits(source: Seq<char>, node: MarkdownNode) -> Seq<(int, int, Seq<char>)>
    decreases node,
{
    own_edits(source, node) + if spec_is_parent(node.kind) {
        nodes_edits(source, node.children@)
    } else {
        seq![]
    }
}

pub open spec fn nodes_edits(source: Seq<char>, nodes: Seq<MarkdownNode>) -> Seq<(int, int, Seq<char>)>
    decreases nodes,
{
    if nodes.len() == 0 {
        seq![]
    } else {
        nodes_edits(source, nodes.drop_last()) + node_edits(source, nodes.last())
    }
}

/// Every code node's text and the source fit together in memory.
pub open spec fn sizes_fit(source: Seq<char>, node: MarkdownNode) -> bool
    decreases node,
{
    &&& bytes_of(source).len() + bytes_of(node.value@).len() < usize::MAX
    &&& forall|k: int| 0 <= k < node.children@.len() ==> sizes_fit(source, #[trigger] node.children@[k])
}

fn inline_fits_exec(source: &str, start: usize, end: usize) -> (r: bool)
    requires
        bytes_of(source@).len() <= usize::MAX,
    ensures
        r == inline_code_fits(source@, start as int, end as int),
{
    let len = source.len();
    if !(start <= end && end <= len && source.is_char_boundary(start)) {
        return false;
    }
    let n = count_leading_backticks(source, start);
    n <= (end - start) / 2
}

fn block_fits_exec(source: &str, start: usize, end: usize) -> (r: bool)
    requires
        bytes_of(source@).len() <= usize::MAX,
    ensures
        r == block_fits(source@, start as int, end as int),
{
    let len = source.len();
    start <= end && end <= len && source.is_char_boundary(start) && source.is_char_boundary(end)
}

fn collect_node(source: &str, node: &MarkdownNode, edits: &mut Vec<Edit>)
    requires
        bytes_of(source@).len() < usize::MAX,
        sizes_fit(source@, *node),
    ensures
        edit_views(final(edits)@) == edit_views(old(edits)@) + node_edits(source@, *node),
    decreases *node,
{
    let ghost e0 = edit_views(edits@);
    match node.position {
        Some(p) => {
            if node.kind == NodeKind::InlineCode {
                if is_translatable_command(node.value.as_str()) && inline_fits_exec(source, p.start_offset, p.end_offset) {
                    match inline_code_translation_edit(source, p.start_offset, p.end_offset, node.value.as_str()) {
                        Some(e) => edits.push(e),
                        None => {},
                    }
                }
            } else if node.kind == NodeKind::Code {
                let lang = match &node.lang {
                    Some(l) => Some(l.as_str()),
                    None => None,
                };
                if is_shell_fenced_block(lang) && block_fits_exec(source, p.start_offset, p.end_offset) {
                    let mut more = code_block_translation_edits(source, p.start_offset, p.end_offset, node.value.as_str());
                    edits.append(&mut more);
                }
            }
        },
        None => {},
    }
    assert(edit_views(edits@) =~= e0 + own_edits(source@, *node));
    let ghost e1 = edit_views(edits@);
    if is_parent(node.kind) {
        assert(decreases_to!(*node => node.children@)) by {
            assert(decreases_to!(*node => node.children));
            assert(decreases_to!(node.children => node.children@));
        }
        collect_nodes(source, &node.children, edits);
    }
    assert(edit_views(edits@) =~= e0 + node_edits(source@, *node));
}

fn collect_nodes(source: &str, nodes: &Vec<MarkdownNode>, edits: &mut Vec<Edit>)
    requires
        bytes_of(source@).len() < usize::MAX,
        forall|k: int| 0 <= k < nodes@.len() ==> sizes_fit(source@, #[trigger] nodes@[k]),
    ensures
        edit_views(final(edits)@) == edit_views(old(edits)@) + nodes_edits(source@, nodes@),
    decreases nodes@,
{
    let ghost e0 = edit_views(edits@);
    let mut i: usize = 0;
    assert(nodes@.take(0) =~= Seq::<MarkdownNode>::empty());
    while i < nodes.len()
        invariant
            i <= nodes@.len(),
            bytes_of(source@).len() < usize::MAX,
            forall|k: int| 0 <= k < nodes@.len() ==> sizes_fit(source@, #[trigger] nodes@[k]),
            edit_views(edits@) == e0 + nodes_edits(source@, nodes@.take(i as int)),
        decreases nodes@.len() - i,
    {
        let node = &nodes[i];
        assert(nodes@.take(i + 1).drop_last() =~= nodes@.take(i as int));
        assert(nodes@.take(i + 1).last() == *node);
        assert(decreases_to!(nodes@ => *node)) by {
            assert(decreases_to!(nodes@ => nodes@[i as int]));
        }
        assert(sizes_fit(source@, nodes@[i as int]));
        collect_node(source, node, edits);
        i += 1;
        assert(edit_views(edits@) =~= e0 + nodes_edits(source@, nodes@.take(i as int)));
    }
    assert(nodes@.take(nodes@.len() as int) =~= nodes@);
}

/// The translation edits of a parsed document.
pub fn collect_translation_edits(source: &str, tree: &MarkdownNode) -> (r: Vec<Edit>)
    requires
        bytes_of(source@).len() < usize::MAX,
        sizes_fit(source@, *tree),
    ensures
        edit_views(r@) == node_edits(source@, *tree),
{
    let mut edits: Vec<Edit> = Vec::new();
    collect_node(source, tree, &mut edits);
    assert(edit_views(edits@) =~= node_edits(source@, *tree));
    edits
}

/// Applies translation edits; overlapping ones are refused.
pub fn apply_edits(source: &str, edits: &Vec<Edit>) -> (r: Result<String, String>)
    requires
        edits_fit(source@, edit_views(edits@)),
        bytes_of(source@).len() <= usize::MAX,
    ensures
        edits@.len() == 0 ==> r is Ok && r->Ok_0@ == source@,
        edits@.len() > 0 ==> match first_overlap(sorted_desc(edit_views(edits@))) {
            Some(k) => r is Err && r->Err_0@ == overlap_message(
                "sync"@,
                sorted_desc(edit_views(edits@))[k + 1],
                sorted_desc(edit_views(edits@))[k],
            ),
            None => r is Ok && bytes_of(r->Ok_0@) == spliced(
                bytes_of(source@),
                sorted_desc(edit_views(edits@)),
            ),
        },
{
    if edits.len() == 0 {
        return Ok(String::from_str(source));
    }
    apply_edits_named(source, edits, "sync")
}

/// What translating a skill document with tree `tree` gives: an error when
/// a translation edit falls outside the text or two of them overlap; else
/// the text with the edits spliced in (the text itself when there is none).
pub open spec fn translation_outcome(source: Seq<char>, tree: MarkdownNode, r: Result<String, String>) -> bool {
    let edits = node_edits(source, tree);
    if !edits_fit(source, edits) {
        r is Err
    } else if edits.len() == 0 {
        r is Ok && r->Ok_0@ == source
    } else {
        match first_overlap(sorted_desc(edits)) {
            Some(k) => r is Err && r->Err_0@ == overlap_message(
                "sync"@,
                sorted_desc(edits)[k + 1],
                sorted_desc(edits)[k],
            ),
            None => r is Ok && bytes_of(r->Ok_0@) == spliced(bytes_of(source), sorted_desc(edits)),
        }
    }
}

/// The translated text of a skill document, given its parsed tree.
pub fn translate_skill_tree(source: &str, tree: &MarkdownNode) -> (r: Result<String, String>)
    requires
        bytes_of(source@).len() < usize::MAX,
        sizes_fit(source@, *tree),
    ensures
        translation_outcome(source@, *tree, r),
{
    let edits = collect_translation_edits(source, tree);
    if !crate::lint::edits_fit_source(source, &edits) {
        return Err(String::from_str("translation edits fall outside the text"));
    }
    apply_edits(source, &edits)
}

fn node_fits(source_len: usize, node: &MarkdownNode, Ghost(source): Ghost<Seq<char>>) -> (r: bool)
    requires
        source_len == bytes_of(source).len(),
    ensures
        r == sizes_fit(source, *node),
    decreases *node,
{
    let value_len = node.value.as_str().as_bytes().len();
    if value_len >= usize::MAX - source_len {
        return false;
    }
    let mut i: usize = 0;
    while i < node.children.len()
        invariant
            i <= node.children@.len(),
            source_len == bytes_of(source).len(),
            forall|k: int| 0 <= k < i ==> sizes_fit(source, #[trigger] node.children@[k]),
        decreases node.children@.len() - i,
    {
        assert(decreases_to!(*node => node.children@[i as int])) by {
            assert(decreases_to!(*node => node.children));
            assert(decreases_to!(node.children => node.children@));
            assert(decreases_to!(node.children@ => node.children@[i as int]));
        }
        if !node_fits(source_len, &node.children[i], Ghost(source)) {
            return false;
        }
        i += 1;
    }
    true
}

/// The translated text of the skill document with text `source`: the text
/// is parsed, then translated as `translation_outcome` says.  A text that
/// does not parse, or is too large to edit in memory, is an error.
pub fn translate_skill_commands(source: &str) -> (r: Result<String, String>)
    ensures
        match gfm_tree(source@) {
            Err(e) => r is Err && r->Err_0@ == e,
            Ok(t) => {
                &&& sizes_fit(source@, t) && bytes_of(source@).len() < usize::MAX
                    ==> translation_outcome(source@, t, r)
                &&& !(sizes_fit(source@, t) && bytes_of(source@).len() < usize::MAX) ==> r is Err
            },
        },
{
    let tree = match parse_markdown(source) {
        Ok(t) => t,
        Err(e) => return Err(e),
    };
    let source_len = source.as_bytes().len();
    if source_len == usize::MAX || !node_fits(source_len, &tree, Ghost(source@)) {
        return Err(String::from_str("skill document too large to translate"));
    }
    translate_skill_tree(source, &tree)
}

// ---------------------------------------------------------------------------
// Keeping the copies in step
// ---------------------------------------------------------------------------
/// Why the skill sources cannot be read, if they cannot.
pub open spec fn spec_source_root_error(root: Seq<char>, exists: bool, is_dir: bool) -> Option<
    Seq<char>,
> {
    if !exists {
        Some("source skills directory does not exist: "@ + root)
    } else if !is_dir {
        Some("source skills path is not a directory: "@ + root)
    } else {
        None
    }
}

pub fn source_root_error(root: &str, exists: bool, is_dir: bool) -> (r: Option<String>)
    ensures
        match r {
            Some(m) => spec_source_root_error(root@, exists, is_dir) == Some(m@),
            None => spec_source_root_error(root@, exists, is_dir) is None,
        },
{
    let mut msg: Vec<char> = Vec::new();
    if !exists {
        push_str(&mut msg, "source skills directory does not exist: ");
    } else if !is_dir {
        push_str(&mut msg, "source skills path is not a directory: ");
    } else {
        return None;
    }
    push_str(&mut msg, root);
    Some(string_from_chars(msg.as_slice()))
}

/// Why a run over the skill directories cannot go on: there is none, or
/// one has no `SKILL.md`.
pub open spec fn spec_skill_dir_error(root: Seq<char>, dir_count: nat, missing_skill: Option<Seq<char>>) -> Option<
    Seq<char>,
> {
    if dir_count == 0 {
        Some("no skill directories found under "@ + root)
    } else {
        match missing_skill {
            Some(dir) => Some("skill directory "@ + dir + " has no SKILL.md"@),
            None => None,
        }
    }
}

pub fn skill_dir_error(root: &str, dir_count: usize, missing_skill: Option<&str>) -> (r: Option<String>)
    ensures
        match r {
            Some(m) => spec_skill_dir_error(root@, dir_count as nat, match missing_skill {
                Some(d) => Some(d@),
                None => None,
            }) == Some(m@),
            None => spec_skill_dir_error(root@, dir_count as nat, match missing_skill {
                Some(d) => Some(d@),
                None => None,
            }) is None,
        },
{
    let mut msg: Vec<char> = Vec::new();
    if dir_count == 0 {
        push_str(&mut msg, "no skill directories found under ");
        push_str(&mut msg, root);
    } else {
        match missing_skill {
            Some(dir) => {
                push_str(&mut msg, "skill directory ");
                push_str(&mut msg, dir);
                push_str(&mut msg, " has no SKILL.md");
            },
            None => return None,
        }
    }
    Some(string_from_chars(msg.as_slice()))
}

/// What a check finds for one skill copy: nothing when the copy holds
/// the translated text, else a line that names the copy.
pub open spec fn spec_copy_problem(dest: Seq<char>, existing: Option<Seq<char>>, translated: Seq<char>) -> Option<
    Seq<char>,
> {
    match existing {
        None => Some("missing generated file: "@ + dest),
        Some(text) => if text == translated {
            None
        } else {
            Some("stale generated file: "@ + dest)
        },
    }
}

pub fn copy_problem(dest: &str, existing: Option<&str>, translated: &str) -> (r: Option<String>)
    ensures
        match r {
            Some(m) => spec_copy_problem(dest@, match existing {
                Some(t) => Some(t@),
                None => None,
            }, translated@) == Some(m@),
            None => spec_copy_problem(dest@, match existing {
                Some(t) => Some(t@),
                None => None,
            }, translated@) is None,
        },
{
    let mut msg: Vec<char> = Vec::new();
    match existing {
        None => push_str(&mut msg, "missing generated file: "),
        Some(text) => {
            let a = chars_of(text);
            let b = chars_of(translated);
            if crate::text::eq_chars(a.as_slice(), b.as_slice()) {
                return None;
            }
            push_str(&mut msg, "stale generated file: ");
        },
    }
    push_str(&mut msg, dest);
    Some(string_from_chars(msg.as_slice()))
}

/// Lines joined with newlines.
pub open spec fn joined_lines(lines: Seq<Seq<char>>) -> Seq<char>
    decreases lines.len(),
{
    if lines.len() == 0 {
        seq![]
    } else if lines.len() == 1 {
        lines[0]
    } else {
        joined_lines(lines.drop_last()) + "\n"@ + lines.last()
    }
}

/// A check passes when no copy has a problem; else it fails with every
/// problem, one per line.
pub fn check_outcome(problems: &Vec<String>) -> (r: Result<(), String>)
    ensures
        problems@.len() == 0 ==> r is Ok,
        problems@.len() > 0 ==> r is Err && r->Err_0@ == "sync-skills --check failed:\n"@
            + joined_lines(problems@.map_values(|p: String| p@)),
{
    if problems.len() == 0 {
        return Ok(());
    }
    let ghost ps = problems@.map_values(|p: String| p@);
    let mut msg: Vec<char> = Vec::new();
    push_str(&mut msg, "sync-skills --check failed:\n");
    let ghost head = msg@;
    push_str(&mut msg, problems[0].as_str());
    let mut i: usize = 1;
    assert(ps.take(1) =~= seq![ps[0]]);
    while i < problems.len()
        invariant
            1 <= i <= problems@.len(),
            ps == problems@.map_values(|p: String| p@),
            msg@ == head + joined_lines(ps.take(i as int)),
        decreases problems@.len() - i,
    {
        push_str(&mut msg, "\n");
        push_str(&mut msg, problems[i].as_str());
        assert(ps.take(i + 1).drop_last() =~= ps.take(i as int));
        assert(msg@ =~= head + joined_lines(ps.take(i + 1)));
        i += 1;
    }
    assert(ps.take(problems@.len() as int) =~= ps);
    Err(string_from_chars(msg.as_slice()))
}

} // verus!
