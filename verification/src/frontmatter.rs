//! Frontmatter: a block that opens the document with a `---` line and
//! closes with the next one, holding `key: value` entries.  A value is a
//! scalar (plain, quoted, or a `|`/`>` block scalar over the indented lines
//! that follow), null (nothing, `~` or `null`), or nested (a flow
//! collection, or indented entries or items under an empty value).  Blank
//! lines and `#` comments are skipped.  A block that is not closed, a line
//! that starts indented where an entry belongs, and an entry without a `:`
//! or a key make the frontmatter malformed, at that line.
use vstd::prelude::*;

use crate::analyzer::split_pieces;
use crate::lint::newline_fn;
use crate::text::{
    all_white, chars_of, is_blank, is_whitespace, slice_chars, spec_trim, string_from_chars, trim,
    trail_white, unicode_white_space,
};

verus! {

broadcast use vstd::seq_lib::group_seq_properties;

// ---------------------------------------------------------------------------
// Lines
// ---------------------------------------------------------------------------
pub open spec fn strip_cr(l: Seq<char>) -> Seq<char> {
    if l.len() > 0 && l.last() == '\r' {
        l.drop_last()
    } else {
        l
    }
}

/// The lines of a text as `str::lines` gives them: the pieces between line
/// feeds, without an empty last one, each line that ends in a line feed
/// also without a carriage return before it.
pub open spec fn text_lines(s: Seq<char>) -> Seq<Seq<char>> {
    let ps = split_pieces(s, newline_fn());
    let n = ps.len() as int;
    Seq::new(
        (if ps.last().len() == 0 {
            n - 1
        } else {
            n
        }) as nat,
        |k: int|
            if k < n - 1 {
                strip_cr(ps[k])
            } else {
                ps[k]
            },
    )
}

fn strip_cr_chars(l: &[char]) -> (r: Vec<char>)
    ensures
        r@ == strip_cr(l@),
{
    let n = l.len();
    if n > 0 && l[n - 1] == '\r' {
        slice_chars(l, 0, n - 1)
    } else {
        slice_chars(l, 0, n)
    }
}

pub open spec fn line_views(v: Seq<Vec<char>>) -> Seq<Seq<char>> {
    v.map_values(|x: Vec<char>| x@)
}

pub fn lines_of(s: &[char]) -> (r: Vec<Vec<char>>)
    ensures
        line_views(r@) == text_lines(s@),
{
    let ghost sep = newline_fn();
    let mut lines: Vec<Vec<char>> = Vec::new();
    let mut cur: Vec<char> = Vec::new();
    let mut i: usize = 0;
    assert(s@.take(0) =~= Seq::<char>::empty());
    while i < s.len()
        invariant
            sep == newline_fn(),
            i <= s@.len(),
            split_pieces(s@.take(i as int), sep).len() == lines@.len() + 1,
            forall|k: int|
                0 <= k < lines@.len() ==> (#[trigger] lines@[k])@ == strip_cr(
                    split_pieces(s@.take(i as int), sep)[k],
                ),
            cur@ == split_pieces(s@.take(i as int), sep).last(),
        decreases s@.len() - i,
    {
        let c = s[i];
        let ghost prefix = s@.take(i as int);
        let ghost next = s@.take(i + 1);
        let ghost ps = split_pieces(prefix, sep);
        assert(next.drop_last() =~= prefix);
        assert(next.last() == c);
        if c == '\n' {
            let done = strip_cr_chars(cur.as_slice());
            lines.push(done);
            cur = Vec::new();
            assert(split_pieces(next, sep) == ps.push(Seq::<char>::empty()));
        } else {
            cur.push(c);
            assert(split_pieces(next, sep) == ps.update(ps.len() - 1, ps.last().push(c)));
        }
        i += 1;
    }
    assert(s@.take(s@.len() as int) =~= s@);
    let ghost ps = split_pieces(s@, sep);
    if cur.len() > 0 {
        lines.push(cur);
    }
    assert(line_views(lines@) =~= text_lines(s@));
    lines
}

// ---------------------------------------------------------------------------
// Values
// ---------------------------------------------------------------------------
/// A value as the rules read it.
pub enum YamlValue {
    Scalar(String),
    Null,
    Nested,
}

pub enum YamlValueView {
    Scalar(Seq<char>),
    Null,
    Nested,
}

pub open spec fn yaml_view(v: YamlValue) -> YamlValueView {
    match v {
        YamlValue::Scalar(s) => YamlValueView::Scalar(s@),
        YamlValue::Null => YamlValueView::Null,
        YamlValue::Nested => YamlValueView::Nested,
    }
}

/// The trimmed non-blank lines of a value's continuation.
pub open spec fn body_lines(cont: Seq<Seq<char>>) -> Seq<Seq<char>>
    decreases cont.len(),
{
    if cont.len() == 0 {
        seq![]
    } else {
        body_lines(cont.drop_last()) + if all_white(cont.last()) {
            seq![]
        } else {
            seq![spec_trim(cont.last())]
        }
    }
}

/// Parts joined with a separator character.
pub open spec fn join_with(parts: Seq<Seq<char>>, sep: char) -> Seq<char>
    decreases parts.len(),
{
    if parts.len() == 0 {
        seq![]
    } else if parts.len() == 1 {
        parts[0]
    } else {
        join_with(parts.drop_last(), sep) + seq![sep] + parts.last()
    }
}

/// `|`, `>` and their `-`/`+` forms open a block scalar.
pub open spec fn is_block_indicator(rest: Seq<char>) -> bool {
    1 <= rest.len() <= 2 && (rest[0] == '|' || rest[0] == '>') && (rest.len() == 1 || rest[1]
        == '-' || rest[1] == '+')
}

/// A scalar without its surrounding quotes.
pub open spec fn unquote(r: Seq<char>) -> Seq<char> {
    if r.len() >= 2 && (r[0] == '"' || r[0] == '\'') && r.last() == r[0] {
        r.subrange(1, r.len() - 1)
    } else {
        r
    }
}

/// The value of an entry: `rest` follows the `:`, `cont` are the lines
/// that belong to the entry.
pub open spec fn value_of(rest: Seq<char>, cont: Seq<Seq<char>>) -> YamlValueView {
    let body = body_lines(cont);
    if is_block_indicator(rest) {
        let text = join_with(body, if rest[0] == '>' { ' ' } else { '\n' });
        YamlValueView::Scalar(
            if (rest.len() == 2 && rest[1] == '-') || text.len() == 0 {
                text
            } else {
                text.push('\n')
            },
        )
    } else if rest.len() == 0 {
        if body.len() > 0 {
            YamlValueView::Nested
        } else {
            YamlValueView::Null
        }
    } else if rest == seq!['~'] || rest == seq!['n', 'u', 'l', 'l'] {
        YamlValueView::Null
    } else if rest[0] == '[' || rest[0] == '{' {
        YamlValueView::Nested
    } else if body.len() > 0 {
        YamlValueView::Scalar(join_with(seq![rest] + body, ' '))
    } else {
        YamlValueView::Scalar(unquote(rest))
    }
}

fn body_lines_of(cont: &[Vec<char>]) -> (r: Vec<Vec<char>>)
    ensures
        line_views(r@) == body_lines(line_views(cont@)),
{
    let ghost cv = line_views(cont@);
    let mut out: Vec<Vec<char>> = Vec::new();
    let mut k: usize = 0;
    while k < cont.len()
        invariant
            k <= cont@.len(),
            cv == line_views(cont@),
            line_views(out@) == body_lines(cv.take(k as int)),
        decreases cont@.len() - k,
    {
        assert(cv.take(k + 1).drop_last() =~= cv.take(k as int));
        assert(cv[k as int] == cont@[k as int]@);
        let ghost before = line_views(out@);
        if !is_blank(cont[k].as_slice()) {
            let t = trim(cont[k].as_slice());
            out.push(t);
        }
        assert(line_views(out@) =~= body_lines(cv.take(k + 1)));
        k += 1;
    }
    assert(cv.take(cont@.len() as int) =~= cv);
    out
}

fn join_chars(parts: &Vec<Vec<char>>, sep: char) -> (r: Vec<char>)
    ensures
        r@ == join_with(line_views(parts@), sep),
{
    let mut out: Vec<char> = Vec::new();
    let mut k: usize = 0;
    while k < parts.len()
        invariant
            k <= parts@.len(),
            out@ == join_with(line_views(parts@).take(k as int), sep),
        decreases parts@.len() - k,
    {
        assert(line_views(parts@).take(k + 1).drop_last() =~= line_views(parts@).take(k as int));
        if k > 0 {
            out.push(sep);
        }
        crate::text::push_all(&mut out, parts[k].as_slice());
        k += 1;
        assert(out@ =~= join_with(line_views(parts@).take(k as int), sep));
    }
    assert(line_views(parts@).take(parts@.len() as int) =~= line_views(parts@));
    out
}

fn value_from(rest: &[char], cont: &[Vec<char>]) -> (v: YamlValue)
    ensures
        yaml_view(v) == value_of(rest@, line_views(cont@)),
{
    let body = body_lines_of(cont);
    let n = rest.len();
    if 1 <= n && n <= 2 && (rest[0] == '|' || rest[0] == '>') && (n == 1 || rest[1] == '-'
        || rest[1] == '+') {
        let sep = if rest[0] == '>' {
            ' '
        } else {
            '\n'
        };
        let mut text = join_chars(&body, sep);
        if !((n == 2 && rest[1] == '-') || text.len() == 0) {
            text.push('\n');
        }
        return YamlValue::Scalar(string_from_chars(text.as_slice()));
    }
    if n == 0 {
        return if body.len() > 0 {
            YamlValue::Nested
        } else {
            YamlValue::Null
        };
    }
    if (n == 1 && rest[0] == '~') || (n == 4 && rest[0] == 'n' && rest[1] == 'u' && rest[2] == 'l'
        && rest[3] == 'l') {
        assert(n == 1 ==> rest@ =~= seq!['~']);
        assert(n == 4 ==> rest@ =~= seq!['n', 'u', 'l', 'l']);
        return YamlValue::Null;
    }
    assert(rest@ != seq!['~']) by {
        if rest@ == seq!['~'] {
            assert(rest@.len() == 1);
        }
    }
    assert(rest@ != seq!['n', 'u', 'l', 'l']) by {
        if rest@ == seq!['n', 'u', 'l', 'l'] {
            assert(rest@.len() == 4);
            assert(rest@[0] == 'n' && rest@[1] == 'u' && rest@[2] == 'l' && rest@[3] == 'l');
        }
    }
    if rest[0] == '[' || rest[0] == '{' {
        return YamlValue::Nested;
    }
    if body.len() > 0 {
        let mut parts: Vec<Vec<char>> = Vec::new();
        parts.push(slice_chars(rest, 0, n));
        let mut k: usize = 0;
        while k < body.len()
            invariant
                k <= body@.len(),
                parts@.len() == k + 1,
                line_views(parts@) == seq![rest@] + line_views(body@).take(k as int),
            decreases body@.len() - k,
        {
            let ghost before = line_views(parts@);
            let line = crate::text::copy_chars(body[k].as_slice());
            assert(line@ == line_views(body@)[k as int]);
            parts.push(line);
            assert(line_views(parts@) =~= before.push(line@));
            k += 1;
            assert(line_views(parts@) =~= seq![rest@] + line_views(body@).take(k as int));
        }
        assert(line_views(body@).take(body@.len() as int) =~= line_views(body@));
        let text = join_chars(&parts, ' ');
        return YamlValue::Scalar(string_from_chars(text.as_slice()));
    }
    let q = rest[0];
    if n >= 2 && (q == '"' || q == '\'') && rest[n - 1] == q {
        let inner = slice_chars(rest, 1, n - 1);
        YamlValue::Scalar(string_from_chars(inner.as_slice()))
    } else {
        YamlValue::Scalar(string_from_chars(rest))
    }
}

// ---------------------------------------------------------------------------
// Entries
// ---------------------------------------------------------------------------
pub struct FrontmatterEntry {
    pub key: String,
    pub value: YamlValue,
}

pub open spec fn entry_view(e: FrontmatterEntry) -> (Seq<char>, YamlValueView) {
    (e.key@, yaml_view(e.value))
}

pub open spec fn entry_views(v: Seq<FrontmatterEntry>) -> Seq<(Seq<char>, YamlValueView)> {
    v.map_values(|e: FrontmatterEntry| entry_view(e))
}

/// The index of the first `:` at or after `k`.
pub open spec fn colon_from(l: Seq<char>, k: int) -> Option<int>
    decreases l.len() - k,
{
    if k < 0 || k >= l.len() {
        None
    } else if l[k] == ':' {
        Some(k)
    } else {
        colon_from(l, k + 1)
    }
}

/// The index of the first `:` of a line.
pub open spec fn first_colon(l: Seq<char>) -> Option<int> {
    colon_from(l, 0)
}

proof fn lemma_colon_from_bounds(l: Seq<char>, k: int)
    requires
        0 <= k,
    ensures
        colon_from(l, k) matches Some(p) ==> k <= p < l.len(),
    decreases l.len() - k,
{
    if k < l.len() && l[k] != ':' {
        lemma_colon_from_bounds(l, k + 1);
    }
}

fn find_colon(l: &[char]) -> (r: Option<usize>)
    ensures
        match r {
            Some(p) => first_colon(l@) == Some(p as int) && p < l@.len(),
            None => first_colon(l@) is None,
        },
{
    let mut k: usize = 0;
    while k < l.len()
        invariant
            k <= l@.len(),
            first_colon(l@) == colon_from(l@, k as int),
        decreases l@.len() - k,
    {
        if l[k] == ':' {
            return Some(k);
        }
        k += 1;
    }
    None
}

/// The first line from `j` on (before `c`) that starts a new entry: not
/// blank and not indented.
pub open spec fn continuation_end(ls: Seq<Seq<char>>, j: int, c: int) -> int
    decreases c - j,
{
    if j >= c {
        c
    } else if !all_white(ls[j]) && !unicode_white_space(ls[j][0]) {
        j
    } else {
        continuation_end(ls, j + 1, c)
    }
}

pub proof fn lemma_continuation_end_bounds(ls: Seq<Seq<char>>, j: int, c: int)
    requires
        j <= c,
    ensures
        j <= continuation_end(ls, j, c) <= c,
    decreases c - j,
{
    if j < c && !(!all_white(ls[j]) && !unicode_white_space(ls[j][0])) {
        lemma_continuation_end_bounds(ls, j + 1, c);
    }
}

/// The entries of the lines `i..c`, or the number (from 1) of the first
/// malformed line.
pub open spec fn parse_entries(ls: Seq<Seq<char>>, i: int, c: int) -> Result<
    Seq<(Seq<char>, YamlValueView)>,
    nat,
>
    decreases c - i,
{
    if i >= c || i < 0 {
        Ok(seq![])
    } else {
        let l = ls[i];
        if all_white(l) || l[0] == '#' {
            parse_entries(ls, i + 1, c)
        } else if unicode_white_space(l[0]) {
            Err((i + 1) as nat)
        } else {
            match first_colon(l) {
                None => Err((i + 1) as nat),
                Some(p) => {
                    let key = spec_trim(l.take(p));
                    if key.len() == 0 {
                        Err((i + 1) as nat)
                    } else {
                        let j = continuation_end(ls, i + 1, c);
                        let value = value_of(spec_trim(l.skip(p + 1)), ls.subrange(i + 1, j));
                        proof {
                            lemma_continuation_end_bounds(ls, i + 1, c);
                        }
                        match parse_entries(ls, j, c) {
                            Err(e) => Err(e),
                            Ok(es) => Ok(seq![(key, value)] + es),
                        }
                    }
                },
            }
        }
    }
}

fn continuation_end_exec(ls: &Vec<Vec<char>>, j: usize, c: usize) -> (r: usize)
    requires
        j <= c <= ls@.len(),
    ensures
        r == continuation_end(line_views(ls@), j as int, c as int),
        j <= r <= c,
{
    let ghost lv = line_views(ls@);
    let mut k: usize = j;
    while k < c
        invariant
            j <= k <= c <= ls@.len(),
            lv == line_views(ls@),
            continuation_end(lv, j as int, c as int) == continuation_end(lv, k as int, c as int),
        decreases c - k,
    {
        let line = &ls[k];
        assert(lv[k as int] == line@);
        if !is_blank(line.as_slice()) && !is_whitespace(line[0]) {
            return k;
        }
        k += 1;
    }
    k
}

fn parse_entries_exec(ls: &Vec<Vec<char>>, i: usize, c: usize) -> (r: Result<Vec<FrontmatterEntry>, usize>)
    requires
        i <= c <= ls@.len(),
    ensures
        match parse_entries(line_views(ls@), i as int, c as int) {
            Ok(es) => r is Ok && entry_views(r->Ok_0@) == es,
            Err(line) => r is Err && r->Err_0 == line,
        },
    decreases c - i,
{
    let ghost lv = line_views(ls@);
    if i >= c {
        let out: Vec<FrontmatterEntry> = Vec::new();
        assert(entry_views(out@) =~= Seq::<(Seq<char>, YamlValueView)>::empty());
        return Ok(out);
    }
    let l = &ls[i];
    assert(lv[i as int] == l@);
    if is_blank(l.as_slice()) || l[0] == '#' {
        return parse_entries_exec(ls, i + 1, c);
    }
    if is_whitespace(l[0]) {
        return Err(i + 1);
    }
    match find_colon(l.as_slice()) {
        None => Err(i + 1),
        Some(p) => {
            let key = trim(slice_chars(l.as_slice(), 0, p).as_slice());
            assert(l@.subrange(0, p as int) =~= l@.take(p as int));
            if key.len() == 0 {
                return Err(i + 1);
            }
            let j = continuation_end_exec(ls, i + 1, c);
            let nl = l.len();
            let rest = trim(slice_chars(l.as_slice(), p + 1, nl).as_slice());
            assert(l@.subrange(p + 1, l@.len() as int) =~= l@.skip(p + 1));
            let cont = crate::frontmatter::slice_lines(ls, i + 1, j);
            assert(line_views(cont@) =~= lv.subrange(i + 1, j as int));
            let value = value_from(rest.as_slice(), cont.as_slice());
            match parse_entries_exec(ls, j, c) {
                Err(e) => Err(e),
                Ok(mut es) => {
                    let ghost tail = entry_views(es@);
                    let entry = FrontmatterEntry { key: string_from_chars(key.as_slice()), value };
                    es.insert(0, entry);
                    assert(entry_views(es@) =~= seq![entry_view(entry)] + tail);
                    Ok(es)
                },
            }
        },
    }
}

fn slice_lines(ls: &Vec<Vec<char>>, a: usize, b: usize) -> (r: Vec<Vec<char>>)
    requires
        a <= b <= ls@.len(),
    ensures
        line_views(r@) == line_views(ls@).subrange(a as int, b as int),
{
    let mut out: Vec<Vec<char>> = Vec::new();
    let mut k: usize = a;
    while k < b
        invariant
            a <= k <= b <= ls@.len(),
            line_views(out@) == line_views(ls@).subrange(a as int, k as int),
        decreases b - k,
    {
        let ghost before = line_views(out@);
        let line = crate::text::copy_chars(ls[k].as_slice());
        assert(line@ == line_views(ls@)[k as int]);
        out.push(line);
        assert(line_views(out@) =~= before.push(line@));
        k += 1;
        assert(line_views(out@) =~= line_views(ls@).subrange(a as int, k as int));
    }
    out
}

// ---------------------------------------------------------------------------
// The block
// ---------------------------------------------------------------------------
/// The parsed entries, in order.
pub struct ParsedFrontmatter {
    pub entries: Vec<FrontmatterEntry>,
}

pub enum FrontmatterParseResult {
    Absent,
    Malformed { line: usize },
    Valid(ParsedFrontmatter),
}

pub enum FrontmatterView {
    Absent,
    Malformed(nat),
    Valid(Seq<(Seq<char>, YamlValueView)>),
}

pub open spec fn parse_view(r: FrontmatterParseResult) -> FrontmatterView {
    match r {
        FrontmatterParseResult::Absent => FrontmatterView::Absent,
        FrontmatterParseResult::Malformed { line } => FrontmatterView::Malformed(line as nat),
        FrontmatterParseResult::Valid(fm) => FrontmatterView::Valid(entry_views(fm.entries@)),
    }
}

/// A `---` line, trailing whitespace aside.
pub open spec fn is_delimiter(l: Seq<char>) -> bool {
    l.take(l.len() - trail_white(l)) == seq!['-', '-', '-']
}

/// The first delimiter line at or after `k`.
pub open spec fn closing_from(ls: Seq<Seq<char>>, k: int) -> Option<int>
    decreases ls.len() - k,
{
    if k < 0 || k >= ls.len() {
        None
    } else if is_delimiter(ls[k]) {
        Some(k)
    } else {
        closing_from(ls, k + 1)
    }
}

/// The frontmatter of a document: none unless its first line is a
/// delimiter; malformed at line 1 when no delimiter closes it; else its
/// entries, or the first malformed line among them.
pub open spec fn frontmatter_of(s: Seq<char>) -> FrontmatterView {
    let ls = text_lines(s);
    if ls.len() == 0 || !is_delimiter(ls[0]) {
        FrontmatterView::Absent
    } else {
        match closing_from(ls, 1) {
            None => FrontmatterView::Malformed(1),
            Some(c) => match parse_entries(ls, 1, c) {
                Err(line) => FrontmatterView::Malformed(line),
                Ok(es) => FrontmatterView::Valid(es),
            },
        }
    }
}

fn delimiter(l: &[char]) -> (r: bool)
    ensures
        r == is_delimiter(l@),
{
    let n = crate::text::count_trail_white(l);
    proof {
        crate::text::lemma_trail_white_bound(l@);
    }
    let t = slice_chars(l, 0, l.len() - n);
    assert(l@.subrange(0, l@.len() - n) =~= l@.take(l@.len() - trail_white(l@)));
    let r = t.len() == 3 && t[0] == '-' && t[1] == '-' && t[2] == '-';
    assert(r ==> t@ =~= seq!['-', '-', '-']);
    assert(t@ == seq!['-', '-', '-'] ==> t@.len() == 3 && t@[0] == '-' && t@[1] == '-' && t@[2] == '-');
    r
}

/// Parses the frontmatter of a document.
pub fn parse_from_str(source: &str) -> (r: FrontmatterParseResult)
    ensures
        parse_view(r) == frontmatter_of(source@),
{
    let chars = chars_of(source);
    let ls = lines_of(chars.as_slice());
    let ghost lv = line_views(ls@);
    if ls.len() == 0 || !delimiter(ls[0].as_slice()) {
        assert(ls@.len() > 0 ==> lv[0] == ls@[0]@);
        return FrontmatterParseResult::Absent;
    }
    assert(lv[0] == ls@[0]@);
    assert(chars@ == source@);
    let mut k: usize = 1;
    while k < ls.len()
        invariant
            1 <= k <= ls@.len(),
            lv == line_views(ls@),
            lv == text_lines(source@),
            lv.len() > 0 && is_delimiter(lv[0]),
            closing_from(lv, 1) == closing_from(lv, k as int),
        decreases ls@.len() - k,
    {
        assert(lv[k as int] == ls@[k as int]@);
        if delimiter(ls[k].as_slice()) {
            assert(closing_from(lv, k as int) == Some(k as int));
            assert(lv == text_lines(source@));
            return match parse_entries_exec(&ls, 1, k) {
                Ok(entries) => FrontmatterParseResult::Valid(ParsedFrontmatter { entries }),
                Err(line) => FrontmatterParseResult::Malformed { line },
            };
        }
        k += 1;
    }
    FrontmatterParseResult::Malformed { line: 1 }
}

/// The value of the first entry with `key`.
pub open spec fn value_for(es: Seq<(Seq<char>, YamlValueView)>, key: Seq<char>) -> Option<YamlValueView>
    decreases es.len(),
{
    if es.len() == 0 {
        None
    } else if es[0].0 == key {
        Some(es[0].1)
    } else {
        value_for(es.drop_first(), key)
    }
}

impl ParsedFrontmatter {
    fn find(&self, key: &str) -> (r: Option<usize>)
        ensures
            match r {
                Some(k) => k < self.entries@.len() && value_for(entry_views(self.entries@), key@)
                    == Some(yaml_view(self.entries@[k as int].value)),
                None => value_for(entry_views(self.entries@), key@) is None,
            },
    {
        let ghost ev = entry_views(self.entries@);
        let mut k: usize = 0;
        while k < self.entries.len()
            invariant
                k <= self.entries@.len(),
                ev == entry_views(self.entries@),
                value_for(ev, key@) == value_for(ev.skip(k as int), key@),
            decreases self.entries@.len() - k,
        {
            assert(ev.skip(k as int)[0] == entry_view(self.entries@[k as int]));
            assert(ev.skip(k as int).drop_first() =~= ev.skip(k + 1));
            if crate::text::str_eq(self.entries[k].key.as_str(), key) {
                return Some(k);
            }
            k += 1;
        }
        None
    }

    /// The value of `key`.
    pub fn get(&self, key: &str) -> (r: Option<&YamlValue>)
        ensures
            match r {
                Some(v) => value_for(entry_views(self.entries@), key@) == Some(yaml_view(*v)),
                None => value_for(entry_views(self.entries@), key@) is None,
            },
    {
        match self.find(key) {
            Some(k) => Some(&self.entries[k].value),
            None => None,
        }
    }

    /// Whether an entry has `key`.
    pub fn has_key(&self, key: &str) -> (r: bool)
        ensures
            r == value_for(entry_views(self.entries@), key@) is Some,
    {
        self.find(key).is_some()
    }

    /// The number of characters of the scalar value of `key`.
    pub fn scalar_char_count(&self, key: &str) -> (r: Option<usize>)
        ensures
            match value_for(entry_views(self.entries@), key@) {
                Some(YamlValueView::Scalar(s)) => r matches Some(n) && n == s.len(),
                _ => r is None,
            },
    {
        match self.find(key) {
            Some(k) => match &self.entries[k].value {
                YamlValue::Scalar(s) => Some(chars_of(s.as_str()).len()),
                _ => None,
            },
            None => None,
        }
    }
}

} // verus!
