//! Character-level helpers shared by the tokenizers, the reference
//! classifier and the renderers.  Text is handled as `Seq<char>` in
//! specifications and as `Vec<char>` in executable code.
use vstd::prelude::*;

verus! {

// ---------------------------------------------------------------------------
// Character classes
// ---------------------------------------------------------------------------
/// `ch` is one of the ASCII punctuation characters
/// (`!"#$%&'()*+,-./:;<=>?@[\]^_`{|}~`).
pub open spec fn spec_is_ascii_punctuation(ch: char) -> bool {
    ('!' <= ch && ch <= '/') || (':' <= ch && ch <= '@') || ('[' <= ch && ch <= '`') || ('{' <= ch
        && ch <= '~')
}

pub open spec fn spec_is_ascii_uppercase(ch: char) -> bool {
    'A' <= ch && ch <= 'Z'
}

pub open spec fn spec_is_ascii_lowercase(ch: char) -> bool {
    'a' <= ch && ch <= 'z'
}

pub open spec fn spec_is_ascii_alphanumeric(ch: char) -> bool {
    ('a' <= ch && ch <= 'z') || ('A' <= ch && ch <= 'Z') || ('0' <= ch && ch <= '9')
}

pub fn is_ascii_punctuation(ch: char) -> (r: bool)
    ensures
        r == spec_is_ascii_punctuation(ch),
{
    ('!' <= ch && ch <= '/') || (':' <= ch && ch <= '@') || ('[' <= ch && ch <= '`') || ('{' <= ch
        && ch <= '~')
}

pub fn is_ascii_uppercase(ch: char) -> (r: bool)
    ensures
        r == spec_is_ascii_uppercase(ch),
{
    'A' <= ch && ch <= 'Z'
}

pub fn is_ascii_lowercase(ch: char) -> (r: bool)
    ensures
        r == spec_is_ascii_lowercase(ch),
{
    'a' <= ch && ch <= 'z'
}

pub fn is_ascii_alphanumeric(ch: char) -> (r: bool)
    ensures
        r == spec_is_ascii_alphanumeric(ch),
{
    ('a' <= ch && ch <= 'z') || ('A' <= ch && ch <= 'Z') || ('0' <= ch && ch <= '9')
}

/// Whether `char::is_whitespace` holds of `ch`: the Unicode `White_Space`
/// property, which holds of tab through carriage return, space, next line,
/// no-break space, ogham space mark, the spaces from en quad to hair space,
/// line and paragraph separator, narrow no-break space, medium mathematical
/// space and ideographic space.
pub open spec fn unicode_white_space(ch: char) -> bool {
    let c = ch as u32;
    ||| 0x09 <= c <= 0x0d
    ||| c == 0x20
    ||| c == 0x85
    ||| c == 0xa0
    ||| c == 0x1680
    ||| 0x2000 <= c <= 0x200a
    ||| c == 0x2028
    ||| c == 0x2029
    ||| c == 0x202f
    ||| c == 0x205f
    ||| c == 0x3000
}

/// `char::is_whitespace`.
pub fn is_whitespace(ch: char) -> (r: bool)
    ensures
        r == unicode_white_space(ch),
{
    let c = ch as u32;
    (0x09 <= c && c <= 0x0d) || c == 0x20 || c == 0x85 || c == 0xa0 || c == 0x1680 || (0x2000 <= c
        && c <= 0x200a) || c == 0x2028 || c == 0x2029 || c == 0x202f || c == 0x205f || c == 0x3000
}

// ---------------------------------------------------------------------------
// Conversions
// ---------------------------------------------------------------------------
/// The result of `str::to_lowercase` on a string with the given characters.
pub uninterp spec fn unicode_lowercase(s: Seq<char>) -> Seq<char>;

/// Calls `str::to_lowercase`; the result is named `unicode_lowercase`.
#[verifier::external_body]
pub(crate) fn to_lowercase(s: &str) -> (r: String)
    ensures
        r@ == unicode_lowercase(s@),
{
    s.to_lowercase()
}

/// Calls `String::push`, which appends one character.
#[verifier::external_body]
pub(crate) fn push_char(s: &mut String, c: char)
    ensures
        final(s)@ == old(s)@.push(c),
{
    s.push(c)
}

/// Builds a `String` holding the given characters in order.
pub fn string_from_chars(v: &[char]) -> (r: String)
    ensures
        r@ == v@,
{
    let mut out = String::new();
    let mut i: usize = 0;
    while i < v.len()
        invariant
            i <= v@.len(),
            out@ == v@.take(i as int),
        decreases v@.len() - i,
    {
        push_char(&mut out, v[i]);
        i += 1;
        assert(out@ =~= v@.take(i as int));
    }
    assert(v@.take(v@.len() as int) =~= v@);
    out
}

/// The decimal digits of `n`, most significant first, without leading
/// zeros (`"0"` for zero).
pub open spec fn decimal(n: nat) -> Seq<char>
    decreases n,
{
    if n < 10 {
        seq![digit_char(n)]
    } else {
        decimal(n / 10).push(digit_char(n % 10))
    }
}

pub open spec fn digit_char(d: nat) -> char {
    if d == 0 { '0' } else if d == 1 { '1' } else if d == 2 { '2' } else if d == 3 { '3' }
    else if d == 4 { '4' } else if d == 5 { '5' } else if d == 6 { '6' } else if d == 7 { '7' }
    else if d == 8 { '8' } else { '9' }
}

fn digit(d: usize) -> (c: char)
    requires
        d < 10,
    ensures
        c == digit_char(d as nat),
{
    if d == 0 { '0' } else if d == 1 { '1' } else if d == 2 { '2' } else if d == 3 { '3' }
    else if d == 4 { '4' } else if d == 5 { '5' } else if d == 6 { '6' } else if d == 7 { '7' }
    else if d == 8 { '8' } else { '9' }
}

/// Appends the decimal rendering of `n` to `out`.
pub fn push_decimal(out: &mut Vec<char>, n: usize)
    ensures
        final(out)@ == old(out)@ + decimal(n as nat),
    decreases n,
{
    if n < 10 {
        out.push(digit(n));
    } else {
        push_decimal(out, n / 10);
        out.push(digit(n % 10));
    }
}

/// The decimal rendering of `n`, as `format!("{n}")` writes it.
pub fn decimal_string(n: usize) -> (r: String)
    ensures
        r@ == decimal(n as nat),
{
    let mut v: Vec<char> = Vec::new();
    push_decimal(&mut v, n);
    assert(v@ =~= decimal(n as nat));
    string_from_chars(v.as_slice())
}

pub fn chars_of(s: &str) -> (r: Vec<char>)
    ensures
        r@ == s@,
{
    let mut out: Vec<char> = Vec::new();
    for c in it: s.chars()
        invariant
            out@ == it.seq().take(it.index() as int),
            it.seq() == s@,
    {
        out.push(c);
    }
    out
}

pub fn copy_chars(v: &[char]) -> (r: Vec<char>)
    ensures
        r@ == v@,
{
    let mut out: Vec<char> = Vec::new();
    let mut i: usize = 0;
    while i < v.len()
        invariant
            i <= v@.len(),
            out@ == v@.take(i as int),
        decreases v@.len() - i,
    {
        out.push(v[i]);
        i += 1;
        assert(out@ == v@.take(i as int));
    }
    assert(v@.take(v@.len() as int) == v@);
    out
}

/// Appends all of `src` to `dst`.
pub fn push_all(dst: &mut Vec<char>, src: &[char])
    ensures
        final(dst)@ == old(dst)@ + src@,
{
    let ghost start = dst@;
    let mut i: usize = 0;
    while i < src.len()
        invariant
            i <= src@.len(),
            dst@ == start + src@.take(i as int),
        decreases src@.len() - i,
    {
        dst.push(src[i]);
        i += 1;
        assert(dst@ == start + src@.take(i as int));
    }
    assert(src@.take(src@.len() as int) == src@);
}

/// Appends the characters of `src` to `dst`.
pub fn push_str(dst: &mut Vec<char>, src: &str)
    ensures
        final(dst)@ == old(dst)@ + src@,
{
    let chars = chars_of(src);
    push_all(dst, chars.as_slice());
}

pub fn concat_chars(a: &[char], b: &[char]) -> (r: Vec<char>)
    ensures
        r@ == a@ + b@,
{
    let mut out = copy_chars(a);
    push_all(&mut out, b);
    out
}

/// The characters of `s` from `start` up to (not including) `end`.
pub fn slice_chars(s: &[char], start: usize, end: usize) -> (r: Vec<char>)
    requires
        start <= end <= s@.len(),
    ensures
        r@ == s@.subrange(start as int, end as int),
{
    let mut out: Vec<char> = Vec::new();
    let mut i: usize = start;
    while i < end
        invariant
            start <= i <= end <= s@.len(),
            out@ == s@.subrange(start as int, i as int),
        decreases end - i,
    {
        out.push(s[i]);
        i += 1;
        assert(out@ == s@.subrange(start as int, i as int));
    }
    out
}

// ---------------------------------------------------------------------------
// Comparisons
// ---------------------------------------------------------------------------
pub open spec fn seq_starts_with(s: Seq<char>, p: Seq<char>) -> bool {
    p.len() <= s.len() && s.subrange(0, p.len() as int) == p
}

pub open spec fn seq_ends_with(s: Seq<char>, p: Seq<char>) -> bool {
    p.len() <= s.len() && s.subrange(s.len() - p.len(), s.len() as int) == p
}

/// `p` occurs in `s` starting at index `i`.
pub open spec fn occurs_at(s: Seq<char>, p: Seq<char>, i: int) -> bool {
    0 <= i && i + p.len() <= s.len() && s.subrange(i, i + p.len()) == p
}

pub open spec fn seq_contains_sub(s: Seq<char>, p: Seq<char>) -> bool {
    exists|i: int| occurs_at(s, p, i)
}

pub fn eq_chars(a: &[char], b: &[char]) -> (r: bool)
    ensures
        r == (a@ == b@),
{
    if a.len() != b.len() {
        return false;
    }
    let mut i: usize = 0;
    while i < a.len()
        invariant
            a@.len() == b@.len(),
            i <= a@.len(),
            forall|j: int| 0 <= j < i ==> a@[j] == b@[j],
        decreases a@.len() - i,
    {
        if a[i] != b[i] {
            return false;
        }
        i += 1;
    }
    assert(a@ =~= b@);
    true
}

pub fn str_eq(a: &str, b: &str) -> (r: bool)
    ensures
        r == (a@ == b@),
{
    let x = chars_of(a);
    let y = chars_of(b);
    eq_chars(x.as_slice(), y.as_slice())
}

/// Whether `p` occurs in `s` at index `at`.
pub fn matches_at(s: &[char], p: &[char], at: usize) -> (r: bool)
    ensures
        r == occurs_at(s@, p@, at as int),
{
    if at > s.len() || p.len() > s.len() - at {
        return false;
    }
    let mut i: usize = 0;
    while i < p.len()
        invariant
            at + p@.len() <= s@.len(),
            s@.len() <= usize::MAX,
            i <= p@.len(),
            forall|j: int| 0 <= j < i ==> s@[at + j] == p@[j],
        decreases p@.len() - i,
    {
        if s[at + i] != p[i] {
            assert(s@.subrange(at as int, at + p@.len())[i as int] != p@[i as int]);
            return false;
        }
        i += 1;
    }
    assert(s@.subrange(at as int, at + p@.len()) =~= p@);
    true
}

pub fn starts_with(s: &[char], p: &str) -> (r: bool)
    ensures
        r == seq_starts_with(s@, p@),
{
    let pc = chars_of(p);
    matches_at(s, pc.as_slice(), 0)
}

pub fn ends_with(s: &[char], p: &str) -> (r: bool)
    ensures
        r == seq_ends_with(s@, p@),
{
    let pc = chars_of(p);
    if pc.len() > s.len() {
        return false;
    }
    matches_at(s, pc.as_slice(), s.len() - pc.len())
}

pub fn contains_sub(s: &[char], p: &str) -> (r: bool)
    ensures
        r == seq_contains_sub(s@, p@),
{
    let pc = chars_of(p);
    if pc.len() > s.len() {
        assert forall|i: int| !occurs_at(s@, pc@, i) by {}
        return false;
    }
    if pc.len() == 0 {
        assert(s@.subrange(0, 0) =~= p@);
        assert(occurs_at(s@, p@, 0));
        return true;
    }
    let mut i: usize = 0;
    while i <= s.len() - pc.len()
        invariant
            pc@ == p@,
            0 < pc@.len() <= s@.len(),
            i <= s@.len() - pc@.len() + 1,
            forall|j: int| 0 <= j < i ==> !occurs_at(s@, p@, j),
        decreases s@.len() - pc@.len() + 1 - i,
    {
        if matches_at(s, pc.as_slice(), i) {
            return true;
        }
        i += 1;
    }
    assert forall|j: int| !occurs_at(s@, p@, j) by {
        if 0 <= j < i {
        }
    }
    false
}

pub fn contains_char(s: &[char], c: char) -> (r: bool)
    ensures
        r == s@.contains(c),
{
    let mut i: usize = 0;
    while i < s.len()
        invariant
            i <= s@.len(),
            forall|j: int| 0 <= j < i ==> s@[j] != c,
        decreases s@.len() - i,
    {
        if s[i] == c {
            assert(s@[i as int] == c);
            return true;
        }
        i += 1;
    }
    false
}

/// Lexicographic order on character sequences, which is the order of
/// `String`s (UTF-8 preserves the order of code points).
pub open spec fn seq_lt(a: Seq<char>, b: Seq<char>) -> bool
    decreases a.len(),
{
    if a.len() == 0 {
        b.len() > 0
    } else if b.len() == 0 {
        false
    } else if a[0] != b[0] {
        a[0] < b[0]
    } else {
        seq_lt(a.drop_first(), b.drop_first())
    }
}

pub proof fn lemma_seq_lt_irreflexive(a: Seq<char>)
    ensures
        !seq_lt(a, a),
    decreases a.len(),
{
    if a.len() > 0 {
        lemma_seq_lt_irreflexive(a.drop_first());
    }
}

pub proof fn lemma_seq_lt_total(a: Seq<char>, b: Seq<char>)
    ensures
        a != b ==> (seq_lt(a, b) || seq_lt(b, a)),
        !(seq_lt(a, b) && seq_lt(b, a)),
    decreases a.len(),
{
    if a.len() > 0 && b.len() > 0 {
        lemma_seq_lt_total(a.drop_first(), b.drop_first());
        if a[0] == b[0] && a.drop_first() == b.drop_first() {
            assert(a =~= seq![a[0]] + a.drop_first());
            assert(b =~= seq![b[0]] + b.drop_first());
        }
    } else if a.len() == 0 && b.len() == 0 {
        assert(a =~= b);
    }
}

pub proof fn lemma_seq_lt_transitive(a: Seq<char>, b: Seq<char>, c: Seq<char>)
    requires
        seq_lt(a, b),
        seq_lt(b, c),
    ensures
        seq_lt(a, c),
    decreases a.len(),
{
    if a.len() > 0 && b.len() > 0 && c.len() > 0 {
        if a[0] == b[0] && b[0] == c[0] {
            lemma_seq_lt_transitive(a.drop_first(), b.drop_first(), c.drop_first());
        }
    }
}

pub fn chars_lt(a: &[char], b: &[char]) -> (r: bool)
    ensures
        r == seq_lt(a@, b@),
{
    let mut i: usize = 0;
    assert(a@.skip(0) =~= a@);
    assert(b@.skip(0) =~= b@);
    while i < a.len() && i < b.len()
        invariant
            i <= a@.len(),
            i <= b@.len(),
            forall|j: int| 0 <= j < i ==> a@[j] == b@[j],
            seq_lt(a@, b@) == seq_lt(a@.skip(i as int), b@.skip(i as int)),
        decreases a@.len() - i,
    {
        if a[i] != b[i] {
            return a[i] < b[i];
        }
        proof {
            assert(a@.skip(i as int).drop_first() =~= a@.skip(i + 1));
            assert(b@.skip(i as int).drop_first() =~= b@.skip(i + 1));
        }
        i += 1;
    }
    i >= a.len() && i < b.len()
}

// ---------------------------------------------------------------------------
// Trimming
// ---------------------------------------------------------------------------
/// All characters of `s` are whitespace, that is, `s.trim()` is empty.
pub open spec fn all_white(s: Seq<char>) -> bool {
    forall|i: int| 0 <= i < s.len() ==> unicode_white_space(#[trigger] s[i])
}

pub fn is_blank(s: &[char]) -> (r: bool)
    ensures
        r == all_white(s@),
{
    let mut i: usize = 0;
    while i < s.len()
        invariant
            i <= s@.len(),
            forall|j: int| 0 <= j < i ==> unicode_white_space(#[trigger] s@[j]),
        decreases s@.len() - i,
    {
        if !is_whitespace(s[i]) {
            return false;
        }
        i += 1;
    }
    true
}

/// Number of leading whitespace characters.
pub open spec fn lead_white(s: Seq<char>) -> nat
    decreases s.len(),
{
    if s.len() > 0 && unicode_white_space(s[0]) {
        1 + lead_white(s.drop_first())
    } else {
        0
    }
}

/// Number of trailing whitespace characters.
pub open spec fn trail_white(s: Seq<char>) -> nat
    decreases s.len(),
{
    if s.len() > 0 && unicode_white_space(s.last()) {
        1 + trail_white(s.drop_last())
    } else {
        0
    }
}

pub proof fn lemma_lead_white_bound(s: Seq<char>)
    ensures
        lead_white(s) <= s.len(),
        lead_white(s) == s.len() <==> all_white(s),
    decreases s.len(),
{
    if s.len() > 0 {
        lemma_lead_white_bound(s.drop_first());
        if all_white(s) {
            assert(all_white(s.drop_first()));
        }
        if unicode_white_space(s[0]) && all_white(s.drop_first()) {
            assert forall|i: int| 0 <= i < s.len() implies unicode_white_space(#[trigger] s[i]) by {
                if i > 0 {
                    assert(s[i] == s.drop_first()[i - 1]);
                }
            }
        }
    }
}

pub proof fn lemma_trail_white_bound(s: Seq<char>)
    ensures
        trail_white(s) <= s.len(),
    decreases s.len(),
{
    if s.len() > 0 {
        lemma_trail_white_bound(s.drop_last());
    }
}

/// `str::trim`: the characters of `s` without leading and trailing
/// whitespace.
pub open spec fn spec_trim(s: Seq<char>) -> Seq<char> {
    let a = lead_white(s);
    let rest = s.subrange(a as int, s.len() as int);
    rest.subrange(0, rest.len() - trail_white(rest))
}

/// Number of leading whitespace characters of `s`.
pub fn count_lead_white(s: &[char]) -> (a: usize)
    ensures
        a == lead_white(s@),
{
    let mut a: usize = 0;
    assert(s@.skip(0) =~= s@);
    while a < s.len() && is_whitespace(s[a])
        invariant
            a <= s@.len(),
            lead_white(s@) == a + lead_white(s@.skip(a as int)),
        decreases s@.len() - a,
    {
        proof {
            assert(s@.skip(a as int).drop_first() =~= s@.skip(a + 1));
        }
        a += 1;
    }
    proof {
        if a < s@.len() {
            assert(s@.skip(a as int)[0] == s@[a as int]);
        }
    }
    a
}

/// Number of trailing whitespace characters of `s`.
pub fn count_trail_white(s: &[char]) -> (n: usize)
    ensures
        n == trail_white(s@),
{
    let mut b: usize = s.len();
    assert(s@.take(b as int) =~= s@);
    while b > 0 && is_whitespace(s[b - 1])
        invariant
            b <= s@.len(),
            trail_white(s@) == (s@.len() - b) + trail_white(s@.take(b as int)),
        decreases b,
    {
        proof {
            assert(s@.take(b as int).drop_last() =~= s@.take(b - 1));
            assert(s@.take(b as int).last() == s@[b - 1]);
        }
        b -= 1;
    }
    proof {
        if b > 0 {
            assert(s@.take(b as int).last() == s@[b - 1]);
        }
    }
    s.len() - b
}

pub fn trim(s: &[char]) -> (r: Vec<char>)
    ensures
        r@ == spec_trim(s@),
{
    proof {
        lemma_lead_white_bound(s@);
    }
    let a = count_lead_white(s);
    let rest = slice_chars(s, a, s.len());
    proof {
        lemma_trail_white_bound(rest@);
    }
    let t = count_trail_white(rest.as_slice());
    slice_chars(rest.as_slice(), 0, rest.len() - t)
}

} // verus!
