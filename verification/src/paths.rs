//! Unix path syntax as `std::path::Path` reads it: the components of a path
//! (a root, a leading `.`, `..` and names; empty and other `.` pieces are
//! skipped), and the operations built on them that the tool uses on
//! repository paths.
use vstd::prelude::*;

use crate::text::{chars_of, push_str, slice_chars, string_from_chars};

verus! {

broadcast use vstd::seq_lib::group_seq_properties;

/// The kinds of path components (`std::path::Component` without the
/// Windows prefix).
#[derive(Clone, Copy, Debug, PartialEq, Eq, Structural)]
pub enum ComponentKind {
    RootDir,
    CurDir,
    ParentDir,
    Normal,
}

/// A component: its kind and the character range of its text in the path
/// (the root's range covers the leading `/`).
pub struct ComponentSpan {
    pub kind: ComponentKind,
    pub start: usize,
    pub end: usize,
}

pub open spec fn span_of(c: ComponentSpan) -> (ComponentKind, int, int) {
    (c.kind, c.start as int, c.end as int)
}

pub open spec fn span_seq(v: Seq<ComponentSpan>) -> Seq<(ComponentKind, int, int)> {
    v.map_values(|c: ComponentSpan| span_of(c))
}

pub open spec fn is_rooted(s: Seq<char>) -> bool {
    s.len() > 0 && s[0] == '/'
}

/// The components after adding the piece `s[a..b]` that ends at a `/` or
/// at the end of the path.
pub open spec fn finish_piece(s: Seq<char>, a: int, b: int, comps: Seq<(ComponentKind, int, int)>) -> Seq<
    (ComponentKind, int, int),
> {
    let piece = s.subrange(a, b);
    if a == 0 && b == 0 && is_rooted(s) {
        comps.push((ComponentKind::RootDir, 0, 1))
    } else if a == 0 && piece == seq!['.'] {
        comps.push((ComponentKind::CurDir, 0, 1))
    } else if piece.len() == 0 || piece == seq!['.'] {
        comps
    } else if piece == seq!['.', '.'] {
        comps.push((ComponentKind::ParentDir, a, b))
    } else {
        comps.push((ComponentKind::Normal, a, b))
    }
}

/// The components of the pieces that end before `i`, and where the piece
/// that `i` is in starts.
pub open spec fn scan_components(s: Seq<char>, i: int) -> (Seq<(ComponentKind, int, int)>, int)
    decreases i,
{
    if i <= 0 {
        (seq![], 0)
    } else {
        let prev = scan_components(s, i - 1);
        if s[i - 1] == '/' {
            (finish_piece(s, prev.1, i - 1, prev.0), i)
        } else {
            prev
        }
    }
}

/// The components of a path, with their character ranges.
pub open spec fn path_components(s: Seq<char>) -> Seq<(ComponentKind, int, int)> {
    let st = scan_components(s, s.len() as int);
    finish_piece(s, st.1, s.len() as int, st.0)
}

/// Every range lies before `bound`, and the ranges are ordered.
pub open spec fn ranges_ok(comps: Seq<(ComponentKind, int, int)>, bound: int) -> bool {
    &&& forall|k: int|
        0 <= k < comps.len() ==> 0 <= (#[trigger] comps[k]).1 <= comps[k].2 <= bound
    &&& forall|k: int, l: int|
        0 <= k < l < comps.len() ==> #[trigger] comps[k].2 <= #[trigger] comps[l].1
}

fn finish_piece_exec(s: &[char], a: usize, b: usize, comps: &mut Vec<ComponentSpan>)
    requires
        a <= b <= s@.len(),
        ranges_ok(span_seq(old(comps)@), a as int),
        a == 0 ==> old(comps)@.len() == 0,
    ensures
        span_seq(final(comps)@) == finish_piece(s@, a as int, b as int, span_seq(old(comps)@)),
        ranges_ok(
            span_seq(final(comps)@),
            if a == 0 && b == 0 && is_rooted(s@) {
                1
            } else {
                b as int
            },
        ),
{
    let ghost before = span_seq(comps@);
    let ghost piece = s@.subrange(a as int, b as int);
    let len = b - a;
    let rooted = s.len() > 0 && s[0] == '/';
    if a == 0 && b == 0 && rooted {
        comps.push(ComponentSpan { kind: ComponentKind::RootDir, start: 0, end: 1 });
    } else if a == 0 && len == 1 && s[a] == '.' {
        assert(piece =~= seq!['.']);
        comps.push(ComponentSpan { kind: ComponentKind::CurDir, start: 0, end: 1 });
    } else if len == 0 || (len == 1 && s[a] == '.') {
        assert(len == 1 ==> piece =~= seq!['.']);
        assert(a == 0 && len == 1 ==> s@[0] != '.');
    } else if len == 2 && s[a] == '.' && s[a + 1] == '.' {
        assert(piece =~= seq!['.', '.']);
        assert(piece != seq!['.']);
        comps.push(ComponentSpan { kind: ComponentKind::ParentDir, start: a, end: b });
    } else {
        if len >= 1 {
            assert(piece[0] == s@[a as int]);
            assert(seq!['.'][0] == '.');
        }
        if len >= 2 {
            assert(piece[1] == s@[a + 1]);
            assert(seq!['.', '.'][1] == '.');
        }
        assert(seq!['.'].len() == 1);
        assert(seq!['.', '.'].len() == 2);
        assert(len != 1 ==> piece != seq!['.']);
        assert(len != 2 ==> piece != seq!['.', '.']);
        comps.push(ComponentSpan { kind: ComponentKind::Normal, start: a, end: b });
    }
    assert(a == 0 && len == 1 && s@[0] == '.' ==> piece =~= seq!['.']);
    assert(span_seq(comps@) =~= finish_piece(s@, a as int, b as int, before));
}

/// The components of `s`, with their character ranges.
pub fn components(s: &[char]) -> (r: Vec<ComponentSpan>)
    ensures
        span_seq(r@) == path_components(s@),
        ranges_ok(span_seq(r@), s@.len() as int),
{
    let n = s.len();
    let mut comps: Vec<ComponentSpan> = Vec::new();
    let mut a: usize = 0;
    let mut i: usize = 0;
    while i < n
        invariant
            n == s@.len(),
            a <= i <= n,
            scan_components(s@, i as int) == (span_seq(comps@), a as int),
            ranges_ok(span_seq(comps@), a as int),
            a == 0 ==> comps@.len() == 0,
        decreases n - i,
    {
        if s[i] == '/' {
            finish_piece_exec(s, a, i, &mut comps);
            a = i + 1;
        }
        i += 1;
    }
    finish_piece_exec(s, a, n, &mut comps);
    comps
}

// ---------------------------------------------------------------------------
// Operations on paths
// ---------------------------------------------------------------------------
/// The last component, when it is a name (`Path::file_name`).
pub open spec fn spec_file_name(s: Seq<char>) -> Option<Seq<char>> {
    let cs = path_components(s);
    if cs.len() > 0 && cs.last().0 == ComponentKind::Normal {
        Some(s.subrange(cs.last().1, cs.last().2))
    } else {
        None
    }
}

/// The path without its last component, as text (`Path::parent`): none
/// for a path without components or that ends in the root.
pub open spec fn spec_parent(s: Seq<char>) -> Option<Seq<char>> {
    let cs = path_components(s);
    if cs.len() == 0 || cs.last().0 == ComponentKind::RootDir {
        None
    } else if cs.len() == 1 {
        Some(seq![])
    } else {
        Some(s.subrange(0, cs[cs.len() - 2].2))
    }
}

/// The index of the last `.` in `name`, or -1.
pub open spec fn last_dot(name: Seq<char>) -> int
    decreases name.len(),
{
    if name.len() == 0 {
        -1
    } else if name.last() == '.' {
        name.len() - 1
    } else {
        last_dot(name.drop_last())
    }
}

proof fn lemma_last_dot(name: Seq<char>, d: int)
    requires
        -1 <= d < name.len(),
        d >= 0 ==> name[d] == '.',
        forall|k: int| d < k < name.len() ==> name[k] != '.',
    ensures
        last_dot(name) == d,
    decreases name.len(),
{
    if name.len() > 0 && name.last() != '.' {
        assert forall|k: int| d < k < name.drop_last().len() implies name.drop_last()[k] != '.' by {
            assert(name.drop_last()[k] == name[k]);
        }
        if d >= 0 {
            assert(name.drop_last()[d] == name[d]);
        }
        lemma_last_dot(name.drop_last(), d);
    }
}

/// A file name without its extension: all of it when it has no `.` but
/// a leading one.
pub open spec fn stem_of(name: Seq<char>) -> Seq<char> {
    if last_dot(name) <= 0 {
        name
    } else {
        name.take(last_dot(name))
    }
}

/// What follows the last `.` of a file name, unless that `.` leads it.
pub open spec fn extension_of(name: Seq<char>) -> Option<Seq<char>> {
    if last_dot(name) <= 0 {
        None
    } else {
        Some(name.skip(last_dot(name) + 1))
    }
}

pub open spec fn spec_file_stem(s: Seq<char>) -> Option<Seq<char>> {
    match spec_file_name(s) {
        Some(n) => Some(stem_of(n)),
        None => None,
    }
}

pub open spec fn spec_extension(s: Seq<char>) -> Option<Seq<char>> {
    match spec_file_name(s) {
        Some(n) => extension_of(n),
        None => None,
    }
}

fn find_last_dot(name: &[char]) -> (r: Option<usize>)
    ensures
        match r {
            Some(d) => d == last_dot(name@) && d < name@.len(),
            None => last_dot(name@) == -1,
        },
{
    let mut i: usize = name.len();
    while i > 0
        invariant
            i <= name@.len(),
            forall|k: int| i <= k < name@.len() ==> name@[k] != '.',
        decreases i,
    {
        if name[i - 1] == '.' {
            proof {
                lemma_last_dot(name@, i - 1);
            }
            return Some(i - 1);
        }
        i -= 1;
    }
    proof {
        lemma_last_dot(name@, -1);
    }
    None
}

fn file_name_chars(s: &[char]) -> (r: Option<Vec<char>>)
    ensures
        match r {
            Some(v) => spec_file_name(s@) == Some(v@),
            None => spec_file_name(s@) is None,
        },
{
    let comps = components(s);
    let n = comps.len();
    if n > 0 && comps[n - 1].kind == ComponentKind::Normal {
        let c = &comps[n - 1];
        assert(span_seq(comps@)[n - 1] == span_of(comps@[n - 1]));
        Some(slice_chars(s, c.start, c.end))
    } else {
        None
    }
}

/// `Path::file_name`.
pub fn file_name(path: &str) -> (r: Option<String>)
    ensures
        match r {
            Some(v) => spec_file_name(path@) == Some(v@),
            None => spec_file_name(path@) is None,
        },
{
    let s = chars_of(path);
    match file_name_chars(s.as_slice()) {
        Some(v) => Some(string_from_chars(v.as_slice())),
        None => None,
    }
}

/// `Path::file_stem`.
pub fn file_stem(path: &str) -> (r: Option<String>)
    ensures
        match r {
            Some(v) => spec_file_stem(path@) == Some(v@),
            None => spec_file_stem(path@) is None,
        },
{
    let s = chars_of(path);
    match file_name_chars(s.as_slice()) {
        Some(name) => {
            let stem = match find_last_dot(name.as_slice()) {
                Some(d) => if d == 0 {
                    slice_chars(name.as_slice(), 0, name.len())
                } else {
                    slice_chars(name.as_slice(), 0, d)
                },
                None => slice_chars(name.as_slice(), 0, name.len()),
            };
            assert(stem@ =~= stem_of(name@));
            Some(string_from_chars(stem.as_slice()))
        },
        None => None,
    }
}

/// `Path::extension`.
pub fn extension(path: &str) -> (r: Option<String>)
    ensures
        match r {
            Some(v) => spec_extension(path@) == Some(v@),
            None => spec_extension(path@) is None,
        },
{
    let s = chars_of(path);
    match file_name_chars(s.as_slice()) {
        Some(name) => match find_last_dot(name.as_slice()) {
            Some(d) => if d == 0 {
                None
            } else {
                let nl = name.len();
                assert(d < nl);
                let ext = slice_chars(name.as_slice(), d + 1, nl);
                assert(ext@ =~= name@.skip(d + 1));
                Some(string_from_chars(ext.as_slice()))
            },
            None => None,
        },
        None => None,
    }
}

/// `Path::parent`, as text.
pub fn parent(path: &str) -> (r: Option<String>)
    ensures
        match r {
            Some(v) => spec_parent(path@) == Some(v@),
            None => spec_parent(path@) is None,
        },
{
    let s = chars_of(path);
    let comps = components(s.as_slice());
    let n = comps.len();
    if n == 0 || comps[n - 1].kind == ComponentKind::RootDir {
        assert(n > 0 ==> span_seq(comps@)[n - 1].0 == comps@[n - 1].kind);
        return None;
    }
    assert(span_seq(comps@)[n - 1].0 == comps@[n - 1].kind);
    if n == 1 {
        return Some(String::new());
    }
    let end = comps[n - 2].end;
    assert(span_seq(comps@)[n - 2].2 == end);
    let v = slice_chars(s.as_slice(), 0, end);
    Some(string_from_chars(v.as_slice()))
}

/// Two components are the same: of one kind, and of one text for names.
pub open spec fn same_component(
    s1: Seq<char>,
    c1: (ComponentKind, int, int),
    s2: Seq<char>,
    c2: (ComponentKind, int, int),
) -> bool {
    c1.0 == c2.0 && (c1.0 == ComponentKind::Normal ==> s1.subrange(c1.1, c1.2) == s2.subrange(
        c2.1,
        c2.2,
    ))
}

/// The components of `base` begin the components of `path`.
pub open spec fn components_prefix(base: Seq<char>, path: Seq<char>) -> bool {
    let bc = path_components(base);
    let pc = path_components(path);
    bc.len() <= pc.len() && forall|k: int|
        0 <= k < bc.len() ==> same_component(base, #[trigger] bc[k], path, pc[k])
}

/// `Path::strip_prefix`: what follows the components of `base` in `path`,
/// from the first remaining component to the last.
pub open spec fn spec_strip_prefix(path: Seq<char>, base: Seq<char>) -> Option<Seq<char>> {
    let bc = path_components(base);
    let pc = path_components(path);
    if components_prefix(base, path) {
        if bc.len() == pc.len() {
            Some(seq![])
        } else {
            Some(path.subrange(pc[bc.len() as int].1, pc.last().2))
        }
    } else {
        None
    }
}

fn component_eq(s1: &[char], c1: &ComponentSpan, s2: &[char], c2: &ComponentSpan) -> (r: bool)
    requires
        c1.start <= c1.end <= s1@.len(),
        c2.start <= c2.end <= s2@.len(),
    ensures
        r == same_component(s1@, span_of(*c1), s2@, span_of(*c2)),
{
    if c1.kind != c2.kind {
        return false;
    }
    if c1.kind != ComponentKind::Normal {
        return true;
    }
    let t1 = slice_chars(s1, c1.start, c1.end);
    let t2 = slice_chars(s2, c2.start, c2.end);
    crate::text::eq_chars(t1.as_slice(), t2.as_slice())
}

fn strip_prefix_chars(path: &[char], base: &[char]) -> (r: Option<Vec<char>>)
    ensures
        match r {
            Some(v) => spec_strip_prefix(path@, base@) == Some(v@),
            None => spec_strip_prefix(path@, base@) is None,
        },
{
    let pc = components(path);
    let bc = components(base);
    if bc.len() > pc.len() {
        return None;
    }
    let mut k: usize = 0;
    while k < bc.len()
        invariant
            bc@.len() <= pc@.len(),
            k <= bc@.len(),
            span_seq(pc@) == path_components(path@),
            span_seq(bc@) == path_components(base@),
            ranges_ok(span_seq(pc@), path@.len() as int),
            ranges_ok(span_seq(bc@), base@.len() as int),
            forall|j: int|
                0 <= j < k ==> same_component(
                    base@,
                    #[trigger] span_seq(bc@)[j],
                    path@,
                    span_seq(pc@)[j],
                ),
        decreases bc@.len() - k,
    {
        assert(span_seq(bc@)[k as int] == span_of(bc@[k as int]));
        assert(span_seq(pc@)[k as int] == span_of(pc@[k as int]));
        if !component_eq(base, &bc[k], path, &pc[k]) {
            return None;
        }
        k += 1;
    }
    let m = bc.len();
    let n = pc.len();
    if m == n {
        return Some(Vec::new());
    }
    let start = pc[m].start;
    let end = pc[n - 1].end;
    assert(span_seq(pc@)[m as int] == span_of(pc@[m as int]));
    assert(span_seq(pc@)[n - 1] == span_of(pc@[n - 1]));
    assert(m < n - 1 ==> span_seq(pc@)[m as int].2 <= span_seq(pc@)[n - 1].1);
    Some(slice_chars(path, start, end))
}

/// `Path::strip_prefix`, as text.
pub fn strip_prefix(path: &str, base: &str) -> (r: Option<String>)
    ensures
        match r {
            Some(v) => spec_strip_prefix(path@, base@) == Some(v@),
            None => spec_strip_prefix(path@, base@) is None,
        },
{
    let p = chars_of(path);
    let b = chars_of(base);
    match strip_prefix_chars(p.as_slice(), b.as_slice()) {
        Some(v) => Some(string_from_chars(v.as_slice())),
        None => None,
    }
}

/// `s` with every `\\` turned into `/`.
pub open spec fn forward_slashes(s: Seq<char>) -> Seq<char> {
    s.map_values(|c: char| if c == '\\' { '/' } else { c })
}

pub fn to_forward_slashes(s: &[char]) -> (r: Vec<char>)
    ensures
        r@ == forward_slashes(s@),
{
    let mut out: Vec<char> = Vec::new();
    let mut i: usize = 0;
    while i < s.len()
        invariant
            i <= s@.len(),
            out@ == forward_slashes(s@.take(i as int)),
        decreases s@.len() - i,
    {
        let c = s[i];
        out.push(if c == '\\' { '/' } else { c });
        i += 1;
        assert(out@ =~= forward_slashes(s@.take(i as int)));
    }
    assert(s@.take(s@.len() as int) =~= s@);
    out
}

/// The message of a path that is not under the root.
pub open spec fn not_under_message(root: Seq<char>, path: Seq<char>) -> Seq<char> {
    path + " is not under "@ + root
}

/// The path of `path` relative to `root`, with `/` separators; an error
/// when `path` is not under `root`.
pub fn repository_relative_path(root: &str, path: &str) -> (r: Result<String, String>)
    ensures
        match spec_strip_prefix(path@, root@) {
            Some(rel) => r == Ok::<String, String>(r->Ok_0) && r->Ok_0@ == forward_slashes(rel),
            None => r is Err && r->Err_0@ == not_under_message(root@, path@),
        },
{
    let p = chars_of(path);
    let b = chars_of(root);
    match strip_prefix_chars(p.as_slice(), b.as_slice()) {
        Some(v) => {
            let fixed = to_forward_slashes(v.as_slice());
            Ok(string_from_chars(fixed.as_slice()))
        },
        None => {
            let mut msg: Vec<char> = Vec::new();
            push_str(&mut msg, path);
            push_str(&mut msg, " is not under ");
            push_str(&mut msg, root);
            Err(string_from_chars(msg.as_slice()))
        },
    }
}

/// A piece of a path that stands for a name or `..`: not empty, without a
/// `/`, and not `.`.
pub open spec fn clean_piece(p: Seq<char>) -> bool {
    p.len() > 0 && !p.contains('/') && p != seq!['.']
}

/// What scanning the first `i` characters keeps: the open piece holds no
/// `/`, every component lies before `i`, and every name is a clean piece
/// other than `..`.
pub proof fn lemma_scan_facts(s: Seq<char>, i: int)
    requires
        0 <= i <= s.len(),
    ensures
        0 <= scan_components(s, i).1 <= i,
        forall|j: int| scan_components(s, i).1 <= j < i ==> s[j] != '/',
        forall|k: int|
            0 <= k < scan_components(s, i).0.len() ==> 0 <= (#[trigger] scan_components(s, i).0[k]).1
                <= scan_components(s, i).0[k].2 <= i,
        forall|k: int|
            0 <= k < scan_components(s, i).0.len() && (#[trigger] scan_components(s, i).0[k]).0
                == ComponentKind::Normal ==> clean_piece(
                s.subrange(scan_components(s, i).0[k].1, scan_components(s, i).0[k].2),
            ) && s.subrange(scan_components(s, i).0[k].1, scan_components(s, i).0[k].2) != seq![
                '.',
                '.',
            ],
    decreases i,
{
    if i > 0 {
        lemma_scan_facts(s, i - 1);
        let prev = scan_components(s, i - 1);
        if s[i - 1] == '/' {
            let a = prev.1;
            let piece = s.subrange(a, i - 1);
            assert(!piece.contains('/')) by {
                assert forall|j: int| 0 <= j < piece.len() implies piece[j] != '/' by {
                    assert(piece[j] == s[a + j]);
                }
            }
            let now = scan_components(s, i).0;
            assert(now == finish_piece(s, a, i - 1, prev.0));
            assert forall|k: int| 0 <= k < now.len() implies 0 <= (#[trigger] now[k]).1 <= now[k].2 <= i by {
                if k < prev.0.len() {
                    assert(now[k] == prev.0[k]);
                }
            }
            assert forall|k: int| 0 <= k < now.len() && (#[trigger] now[k]).0 == ComponentKind::Normal implies clean_piece(
                s.subrange(now[k].1, now[k].2),
            ) && s.subrange(now[k].1, now[k].2) != seq!['.', '.'] by {
                if k < prev.0.len() {
                    assert(now[k] == prev.0[k]);
                } else {
                    assert(now[k] == (ComponentKind::Normal, a, i - 1));
                }
            }
        }
    }
}

/// The components of a path lie within it, and its names are clean pieces
/// other than `..`.
pub proof fn lemma_components_facts(s: Seq<char>)
    ensures
        forall|k: int|
            0 <= k < path_components(s).len() ==> 0 <= (#[trigger] path_components(s)[k]).1
                <= path_components(s)[k].2 <= s.len(),
        forall|k: int|
            0 <= k < path_components(s).len() && (#[trigger] path_components(s)[k]).0
                == ComponentKind::Normal ==> clean_piece(
                s.subrange(path_components(s)[k].1, path_components(s)[k].2),
            ) && s.subrange(path_components(s)[k].1, path_components(s)[k].2) != seq!['.', '.'],
{
    let n = s.len() as int;
    lemma_scan_facts(s, n);
    let st = scan_components(s, n);
    let pc = path_components(s);
    let piece = s.subrange(st.1, n);
    assert(!piece.contains('/')) by {
        assert forall|j: int| 0 <= j < piece.len() implies piece[j] != '/' by {
            assert(piece[j] == s[st.1 + j]);
        }
    }
    assert forall|k: int| 0 <= k < pc.len() implies 0 <= (#[trigger] pc[k]).1 <= pc[k].2 <= n by {
        if k < st.0.len() {
            assert(pc[k] == st.0[k]);
        }
    }
    assert forall|k: int| 0 <= k < pc.len() && (#[trigger] pc[k]).0 == ComponentKind::Normal implies clean_piece(
        s.subrange(pc[k].1, pc[k].2),
    ) && s.subrange(pc[k].1, pc[k].2) != seq!['.', '.'] by {
        if k < st.0.len() {
            assert(pc[k] == st.0[k]);
        } else {
            assert(pc[k] == (ComponentKind::Normal, st.1, n));
        }
    }
}

/// Scanning the first `i` characters of `p + q` reads `p` alone.
pub proof fn lemma_scan_prefix(p: Seq<char>, q: Seq<char>, i: int)
    requires
        0 <= i <= p.len(),
    ensures
        scan_components(p + q, i) == scan_components(p, i),
    decreases i,
{
    if i > 0 {
        lemma_scan_prefix(p, q, i - 1);
        lemma_scan_facts(p, i - 1);
        let prev = scan_components(p, i - 1);
        assert((p + q)[i - 1] == p[i - 1]);
        assert((p + q).subrange(prev.1, i - 1) =~= p.subrange(prev.1, i - 1));
        assert(is_rooted(p + q) == is_rooted(p));
    }
}

/// Characters other than `/` leave the scan where it was.
pub proof fn lemma_scan_no_slash(s: Seq<char>, i0: int, i: int)
    requires
        0 <= i0 <= i <= s.len(),
        forall|j: int| i0 <= j < i ==> s[j] != '/',
    ensures
        scan_components(s, i) == scan_components(s, i0),
    decreases i - i0,
{
    if i > i0 {
        lemma_scan_no_slash(s, i0, i - 1);
    }
}

/// A path relative to itself is empty: every path begins with its own
/// components.
pub proof fn lemma_strip_own_prefix(s: Seq<char>)
    ensures
        spec_strip_prefix(s, s) == Some(Seq::<char>::empty()),
{
    let cs = path_components(s);
    assert forall|k: int| 0 <= k < cs.len() implies same_component(s, #[trigger] cs[k], s, cs[k]) by {}
}

} // verus!
