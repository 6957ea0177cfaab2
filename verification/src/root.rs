//! Finding the repository root: the parent of an explicit configuration
//! file, or the nearest ancestor of the targets' common directory that
//! holds a marker file or directory.  The file system is asked by the
//! caller; these functions decide from its answers.
use vstd::prelude::*;

use crate::paths::{components, parent, path_components, same_component, spec_parent, span_seq, ranges_ok, ComponentKind, ComponentSpan};
use crate::text::{chars_of, push_all, push_str, slice_chars, string_from_chars};

verus! {

broadcast use vstd::seq_lib::group_seq_properties;

/// A file or directory whose presence marks the repository root.
#[derive(Clone, Copy, Debug, PartialEq, Eq)]
pub enum RootMarker<'a> {
    File(&'a str),
    Directory(&'a str),
}

/// `rel` joined to `base` as `Path::join` does for a relative `base`.
pub open spec fn spec_join(base: Seq<char>, rel: Seq<char>) -> Seq<char> {
    if rel.len() > 0 && rel[0] == '/' {
        rel
    } else if base.len() == 0 {
        rel
    } else if base.last() == '/' {
        base + rel
    } else {
        base + seq!['/'] + rel
    }
}

pub fn join(base: &str, rel: &str) -> (r: String)
    ensures
        r@ == spec_join(base@, rel@),
{
    let b = chars_of(base);
    let r = chars_of(rel);
    let mut out: Vec<char> = Vec::new();
    if r.len() > 0 && r[0] == '/' {
        push_all(&mut out, r.as_slice());
    } else if b.len() == 0 {
        push_all(&mut out, r.as_slice());
    } else {
        push_all(&mut out, b.as_slice());
        if b[b.len() - 1] != '/' {
            out.push('/');
        }
        push_all(&mut out, r.as_slice());
    }
    assert(out@ =~= spec_join(base@, rel@));
    string_from_chars(out.as_slice())
}

/// The path a marker is looked for at, under `dir`.
pub fn marker_path(dir: &str, marker: RootMarker) -> (r: String)
    ensures
        r@ == spec_join(
            dir@,
            match marker {
                RootMarker::File(n) => n@,
                RootMarker::Directory(n) => n@,
            },
        ),
{
    match marker {
        RootMarker::File(n) => join(dir, n),
        RootMarker::Directory(n) => join(dir, n),
    }
}

/// `start` and its ancestors, nearest first (`Path::ancestors`), at most
/// `fuel` of them.
pub open spec fn ancestors_upto(start: Seq<char>, fuel: nat) -> Seq<Seq<char>>
    decreases fuel,
{
    if fuel == 0 {
        seq![]
    } else {
        seq![start] + match spec_parent(start) {
            Some(p) => ancestors_upto(p, (fuel - 1) as nat),
            None => seq![],
        }
    }
}

/// `start` and its ancestors, nearest first; a path has fewer ancestors
/// than characters plus one.
pub open spec fn spec_ancestors(start: Seq<char>) -> Seq<Seq<char>> {
    ancestors_upto(start, start.len() + 1)
}

pub fn ancestors(start: &str) -> (r: Vec<String>)
    ensures
        crate::matcher::views(r@) == spec_ancestors(start@),
{
    let mut out: Vec<String> = Vec::new();
    let mut cur = String::from_str(start);
    let total = chars_of(start).len();
    let mut remaining: usize = total;
    assert(crate::matcher::views(out@) + ancestors_upto(cur@, (remaining + 1) as nat) =~= spec_ancestors(start@));
    loop
        invariant_except_break
            crate::matcher::views(out@) + ancestors_upto(cur@, (remaining + 1) as nat) == spec_ancestors(start@),
        ensures
            crate::matcher::views(out@) == spec_ancestors(start@),
        decreases remaining,
    {
        let ghost before = crate::matcher::views(out@);
        let ghost f = (remaining + 1) as nat;
        let next = parent(cur.as_str());
        let this = cur.clone();
        out.push(this);
        assert(crate::matcher::views(out@) =~= before.push(cur@));
        match next {
            Some(p) => {
                assert(ancestors_upto(cur@, f) == seq![cur@] + ancestors_upto(p@, (f - 1) as nat));
                assert(before + ancestors_upto(cur@, f) =~= before.push(cur@) + ancestors_upto(p@, (f - 1) as nat));
                if remaining == 0 {
                    assert(ancestors_upto(p@, 0) == Seq::<Seq<char>>::empty());
                    assert(crate::matcher::views(out@) =~= spec_ancestors(start@));
                    break;
                }
                cur = p;
                remaining -= 1;
            },
            None => {
                assert(ancestors_upto(cur@, f) == seq![cur@] + Seq::<Seq<char>>::empty());
                assert(before + ancestors_upto(cur@, f) =~= before.push(cur@));
                break;
            },
        }
    }
    out
}

/// The first ancestor, nearest first, that holds a marker; `matched[k]`
/// says whether the `k`-th does.
pub open spec fn spec_first_marked(ancestors: Seq<Seq<char>>, matched: Seq<bool>) -> Option<Seq<char>>
    decreases ancestors.len(),
{
    if ancestors.len() == 0 || matched.len() == 0 {
        None
    } else if matched[0] {
        Some(ancestors[0])
    } else {
        spec_first_marked(ancestors.drop_first(), matched.drop_first())
    }
}

/// The nearest of the ancestors of `start` that holds one of the markers,
/// where `matched[k]` tells whether the `k`-th ancestor (as `ancestors`
/// lists them) does.
pub fn find_root_by_markers(start: &str, matched: &Vec<bool>) -> (r: Option<String>)
    ensures
        match spec_first_marked(spec_ancestors(start@), matched@) {
            Some(p) => r is Some && r->0@ == p,
            None => r is None,
        },
{
    let list = ancestors(start);
    let ghost av = crate::matcher::views(list@);
    let mut k: usize = 0;
    while k < list.len() && k < matched.len()
        invariant
            k <= list@.len(),
            k <= matched@.len(),
            av == crate::matcher::views(list@),
            av == spec_ancestors(start@),
            spec_first_marked(av, matched@) == spec_first_marked(av.skip(k as int), matched@.skip(k as int)),
        decreases list@.len() - k,
    {
        assert(av.skip(k as int).drop_first() =~= av.skip(k + 1));
        assert(matched@.skip(k as int).drop_first() =~= matched@.skip(k + 1));
        if matched[k] {
            assert(av.skip(k as int)[0] == av[k as int]);
            assert(matched@.skip(k as int)[0] == matched@[k as int]);
            return Some(list[k].clone());
        }
        k += 1;
    }
    assert(av.skip(k as int).len() == 0 || matched@.skip(k as int).len() == 0);
    None
}

/// The root that an explicit configuration file gives: its directory, or
/// `/` when it has none.
pub open spec fn spec_config_root(config_path: Seq<char>) -> Seq<char> {
    match spec_parent(config_path) {
        Some(p) => p,
        None => seq!['/'],
    }
}

pub fn config_root(config_path: &str) -> (r: String)
    ensures
        r@ == spec_config_root(config_path@),
{
    match parent(config_path) {
        Some(p) => p,
        None => {
            let root = String::from_str("/");
            proof {
                reveal_strlit("/");
            }
            assert(root@ =~= seq!['/']);
            root
        },
    }
}

/// The directory of a target: the target itself when it is a directory,
/// else its parent (itself when it has none).
pub open spec fn spec_target_dir(target: Seq<char>, is_dir: bool) -> Seq<char> {
    if is_dir {
        target
    } else {
        match spec_parent(target) {
            Some(p) => p,
            None => target,
        }
    }
}

pub fn target_dir(target: &str, is_dir: bool) -> (r: String)
    ensures
        r@ == spec_target_dir(target@, is_dir),
{
    if is_dir {
        return String::from_str(target);
    }
    match parent(target) {
        Some(p) => p,
        None => String::from_str(target),
    }
}

// ---------------------------------------------------------------------------
// Common ancestor
// ---------------------------------------------------------------------------
/// The components of a path with their texts.
pub open spec fn component_texts(s: Seq<char>) -> Seq<(ComponentKind, Seq<char>)> {
    path_components(s).map_values(|c: (ComponentKind, int, int)| (c.0, component_text(s, c)))
}

/// A component as written: `/`, `.`, `..` or the name.
pub open spec fn component_text(s: Seq<char>, c: (ComponentKind, int, int)) -> Seq<char> {
    match c.0 {
        ComponentKind::RootDir => seq!['/'],
        ComponentKind::CurDir => seq!['.'],
        ComponentKind::ParentDir => seq!['.', '.'],
        ComponentKind::Normal => s.subrange(c.1, c.2),
    }
}

/// The length of the common prefix of two component lists.
pub open spec fn shared_len(a: Seq<(ComponentKind, Seq<char>)>, b: Seq<(ComponentKind, Seq<char>)>) -> nat
    decreases a.len(),
{
    if a.len() == 0 || b.len() == 0 || a[0] != b[0] {
        0
    } else {
        1 + shared_len(a.drop_first(), b.drop_first())
    }
}

/// The components that all paths share, from the first path's.
pub open spec fn shared_components(paths: Seq<Seq<char>>) -> Seq<(ComponentKind, Seq<char>)>
    decreases paths.len(),
{
    if paths.len() == 0 {
        seq![]
    } else if paths.len() == 1 {
        component_texts(paths[0])
    } else {
        let prev = shared_components(paths.drop_last());
        prev.take(shared_len(prev, component_texts(paths.last())) as int)
    }
}

/// A path built by pushing components (`PathBuf::push`): the root
/// replaces what is there, anything else is added after a `/`.
pub open spec fn pushed_path(comps: Seq<(ComponentKind, Seq<char>)>) -> Seq<char>
    decreases comps.len(),
{
    if comps.len() == 0 {
        seq![]
    } else {
        let buf = pushed_path(comps.drop_last());
        let c = comps.last();
        if c.0 == ComponentKind::RootDir {
            seq!['/']
        } else if buf.len() > 0 && buf.last() != '/' {
            buf + seq!['/'] + c.1
        } else {
            buf + c.1
        }
    }
}

/// The deepest directory that all paths lie in, by components; none for
/// no paths or when they share no component.
pub open spec fn spec_common_ancestor(paths: Seq<Seq<char>>) -> Option<Seq<char>> {
    let shared = shared_components(paths);
    if paths.len() == 0 || shared.len() == 0 {
        None
    } else {
        Some(pushed_path(shared))
    }
}

pub struct ComponentText {
    pub kind: ComponentKind,
    pub text: Vec<char>,
}

pub open spec fn texts_view(v: Seq<ComponentText>) -> Seq<(ComponentKind, Seq<char>)> {
    v.map_values(|c: ComponentText| (c.kind, c.text@))
}

fn component_texts_of(s: &str) -> (r: Vec<ComponentText>)
    ensures
        texts_view(r@) == component_texts(s@),
{
    let chars = chars_of(s);
    let comps = components(chars.as_slice());
    let ghost cv = span_seq(comps@);
    let mut out: Vec<ComponentText> = Vec::new();
    let mut k: usize = 0;
    while k < comps.len()
        invariant
            k <= comps@.len(),
            chars@ == s@,
            cv == span_seq(comps@),
            cv == path_components(chars@),
            ranges_ok(cv, chars@.len() as int),
            texts_view(out@) == component_texts(chars@).take(k as int),
        decreases comps@.len() - k,
    {
        let c: &ComponentSpan = &comps[k];
        assert(cv[k as int] == crate::paths::span_of(*c));
        let ghost before = texts_view(out@);
        let text: Vec<char> = match c.kind {
            ComponentKind::RootDir => {
                let mut t: Vec<char> = Vec::new();
                t.push('/');
                t
            },
            ComponentKind::CurDir => {
                let mut t: Vec<char> = Vec::new();
                t.push('.');
                t
            },
            ComponentKind::ParentDir => {
                let mut t: Vec<char> = Vec::new();
                t.push('.');
                t.push('.');
                t
            },
            ComponentKind::Normal => slice_chars(chars.as_slice(), c.start, c.end),
        };
        assert(text@ =~= component_text(chars@, cv[k as int]));
        assert(component_texts(chars@)[k as int] == (cv[k as int].0, component_text(chars@, cv[k as int])));
        out.push(ComponentText { kind: c.kind, text });
        assert(texts_view(out@) =~= before.push((cv[k as int].0, component_text(chars@, cv[k as int]))));
        k += 1;
        assert(texts_view(out@) =~= component_texts(chars@).take(k as int));
    }
    assert(component_texts(chars@).take(comps@.len() as int) =~= component_texts(chars@));
    out
}

fn same_text(a: &ComponentText, b: &ComponentText) -> (r: bool)
    ensures
        r == ((a.kind, a.text@) == (b.kind, b.text@)),
{
    a.kind == b.kind && crate::text::eq_chars(a.text.as_slice(), b.text.as_slice())
}

/// The deepest directory that all `paths` lie in.
pub fn common_ancestor(paths: &Vec<String>) -> (r: Option<String>)
    ensures
        match spec_common_ancestor(crate::matcher::views(paths@)) {
            Some(p) => r is Some && r->0@ == p,
            None => r is None,
        },
{
    let ghost pv = crate::matcher::views(paths@);
    if paths.len() == 0 {
        return None;
    }
    let mut shared = component_texts_of(paths[0].as_str());
    assert(pv.take(1).len() == 1);
    assert(shared_components(pv.take(1)) == component_texts(pv[0]));
    let mut i: usize = 1;
    while i < paths.len()
        invariant
            1 <= i <= paths@.len(),
            pv == crate::matcher::views(paths@),
            texts_view(shared@) == shared_components(pv.take(i as int)),
        decreases paths@.len() - i,
    {
        let other = component_texts_of(paths[i].as_str());
        let ghost prev = texts_view(shared@);
        let ghost ov = texts_view(other@);
        let mut n: usize = 0;
        while n < shared.len() && n < other.len() && same_text(&shared[n], &other[n])
            invariant
                n <= shared@.len(),
                n <= other@.len(),
                prev == texts_view(shared@),
                ov == texts_view(other@),
                shared_len(prev, ov) == n + shared_len(prev.skip(n as int), ov.skip(n as int)),
            decreases shared@.len() - n,
        {
            assert(prev.skip(n as int).drop_first() =~= prev.skip(n + 1));
            assert(ov.skip(n as int).drop_first() =~= ov.skip(n + 1));
            assert(prev.skip(n as int)[0] == prev[n as int]);
            assert(ov.skip(n as int)[0] == ov[n as int]);
            n += 1;
        }
        assert(n < shared@.len() && n < other@.len() ==> prev.skip(n as int)[0] == prev[n as int]
            && ov.skip(n as int)[0] == ov[n as int]);
        assert(shared_len(prev.skip(n as int), ov.skip(n as int)) == 0);
        shared.truncate(n);
        assert(texts_view(shared@) =~= prev.take(n as int));
        assert(pv.take(i + 1).drop_last() =~= pv.take(i as int));
        assert(pv.take(i + 1).last() == pv[i as int]);
        i += 1;
    }
    assert(pv.take(paths@.len() as int) =~= pv);
    if shared.len() == 0 {
        return None;
    }
    let ghost sv = texts_view(shared@);
    let mut buf: Vec<char> = Vec::new();
    let mut k: usize = 0;
    while k < shared.len()
        invariant
            k <= shared@.len(),
            sv == texts_view(shared@),
            buf@ == pushed_path(sv.take(k as int)),
        decreases shared@.len() - k,
    {
        assert(sv.take(k + 1).drop_last() =~= sv.take(k as int));
        assert(sv.take(k + 1).last() == sv[k as int]);
        let c = &shared[k];
        if c.kind == ComponentKind::RootDir {
            buf = Vec::new();
            buf.push('/');
        } else {
            let n = buf.len();
            if n > 0 && buf[n - 1] != '/' {
                buf.push('/');
            }
            push_all(&mut buf, c.text.as_slice());
        }
        k += 1;
        assert(buf@ =~= pushed_path(sv.take(k as int)));
    }
    assert(sv.take(shared@.len() as int) =~= sv);
    Some(string_from_chars(buf.as_slice()))
}

} // verus!
