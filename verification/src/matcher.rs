//! Gitignore-style path matching, provided by the `ignore` crate.
//!
//! A matcher is made from a root and a list of pattern lines.  What it
//! answers for a path is a function of that root, those lines and the path,
//! which the trusted items below name; the verified code around them decides
//! which lines go in and what the answers mean for the tool.
use vstd::prelude::*;

use ignore::gitignore::{Gitignore, GitignoreBuilder};

use crate::text::{chars_of, push_str, seq_ends_with, seq_starts_with, string_from_chars, trail_white};

verus! {

#[verifier::external_type_specification]
#[verifier::external_body]
pub struct ExGitignore(Gitignore);

#[verifier::external_type_specification]
#[verifier::external_body]
pub struct ExGitignoreBuilder(GitignoreBuilder);

/// The root that a builder keeps (its `root` field).
pub uninterp spec fn builder_root(b: GitignoreBuilder) -> Seq<char>;

/// The globs that a builder keeps (its `globs` field), each as the line it
/// was made from, in order.
pub uninterp spec fn builder_lines(b: GitignoreBuilder) -> Seq<Seq<char>>;

/// A path without a leading `./`, which the builder and the matcher both
/// strip (byte-wise, as `Path` prefixes are compared).
pub open spec fn without_dot_slash(p: Seq<char>) -> Seq<char> {
    if p.len() >= 2 && p[0] == '.' && p[1] == '/' {
        p.skip(2)
    } else {
        p
    }
}

/// What `GitignoreBuilder::add_line` keeps of a line it accepts: nothing of
/// a comment or a blank line; else the line without trailing whitespace,
/// unless it ends in an escaped space.
pub open spec fn kept_line(line: Seq<char>) -> Option<Seq<char>> {
    if line.len() > 0 && line[0] == '#' {
        None
    } else {
        let t = if seq_ends_with(line, seq!['\\', ' ']) {
            line
        } else {
            line.take(line.len() - trail_white(line))
        };
        if t.len() == 0 {
            None
        } else {
            Some(t)
        }
    }
}

/// The globs a builder keeps of a list of accepted lines.
pub open spec fn kept_lines(lines: Seq<Seq<char>>) -> Seq<Seq<char>>
    decreases lines.len(),
{
    if lines.len() == 0 {
        Seq::empty()
    } else {
        match kept_line(lines.last()) {
            Some(t) => kept_lines(lines.drop_last()).push(t),
            None => kept_lines(lines.drop_last()),
        }
    }
}

/// A path that `Gitignore::matched_path_or_any_parents` takes without its
/// assertion failing: without a leading `./` it is not rooted, and what
/// follows a stripped matcher root does not start with `//`.
pub open spec fn parents_safe(root: Seq<char>, path: Seq<char>) -> bool {
    let p = without_dot_slash(path);
    &&& !(p.len() > 0 && p[0] == '/')
    &&& !(seq_starts_with(p, root) && seq_starts_with(p.skip(root.len() as int), seq!['/', '/']))
}

/// The root and the pattern lines that a matcher was built from.
pub uninterp spec fn gitignore_source(g: Gitignore) -> (Seq<char>, Seq<Seq<char>>);

/// Whether `GitignoreBuilder::add_line` accepts the line (it parses as a
/// glob, or is a comment or blank line).
pub uninterp spec fn gitignore_line_accepted(line: Seq<char>) -> bool;

/// The outcome of `GitignoreBuilder::build` for a builder with this root and
/// these lines: success, or the error's message.
pub uninterp spec fn gitignore_build_outcome(root: Seq<char>, lines: Seq<Seq<char>>) -> Result<
    (),
    Seq<char>,
>;

/// Whether `Gitignore::matched(path, is_dir).is_ignore()` holds for a matcher
/// built from this root and these lines.
pub uninterp spec fn gitignore_matches(
    root: Seq<char>,
    lines: Seq<Seq<char>>,
    path: Seq<char>,
    is_dir: bool,
) -> bool;

/// Whether `Gitignore::matched_path_or_any_parents(path, is_dir).is_ignore()`
/// holds for a matcher built from this root and these lines.
pub uninterp spec fn gitignore_matches_or_parents(
    root: Seq<char>,
    lines: Seq<Seq<char>>,
    path: Seq<char>,
    is_dir: bool,
) -> bool;

/// Calls `GitignoreBuilder::new(root)`: a builder with no globs yet, whose
/// root is the given one without a leading `./`.
#[verifier::external_body]
pub(crate) fn builder_new(root: &str) -> (b: GitignoreBuilder)
    ensures
        builder_root(b) == without_dot_slash(root@),
        builder_lines(b) == Seq::<Seq<char>>::empty(),
{
    GitignoreBuilder::new(root)
}

/// Calls `GitignoreBuilder::add_line(None, line)`.  The source shows that a
/// rejected line leaves the builder as it was; a comment or blank line is
/// accepted and not kept; any other accepted line is kept, trimmed as
/// `kept_line` says, after the globs before it.  The error's message is
/// dropped.
#[verifier::external_body]
pub(crate) fn builder_add_line(b: &mut GitignoreBuilder, line: &str) -> (r: bool)
    ensures
        r == gitignore_line_accepted(line@),
        builder_root(*final(b)) == builder_root(*old(b)),
        r ==> builder_lines(*final(b)) == match kept_line(line@) {
            Some(t) => builder_lines(*old(b)).push(t),
            None => builder_lines(*old(b)),
        },
        !r ==> builder_lines(*final(b)) == builder_lines(*old(b)),
{
    b.add_line(None, line).is_ok()
}

/// Calls `GitignoreBuilder::build`.  On success the matcher answers for the
/// builder's root and lines; on failure the error's message comes back.
#[verifier::external_body]
pub(crate) fn builder_build(b: &GitignoreBuilder) -> (r: Result<Gitignore, String>)
    ensures
        r is Ok <==> gitignore_build_outcome(builder_root(*b), builder_lines(*b)) is Ok,
        r matches Err(e) ==> (gitignore_build_outcome(builder_root(*b), builder_lines(*b)) matches Err(
            m,
        ) && m == e@),
        r matches Ok(g) ==> gitignore_source(g) == (builder_root(*b), builder_lines(*b)),
{
    b.build().map_err(|e| e.to_string())
}

/// Calls `Gitignore::matched(path, is_dir)` and asks whether the result is
/// an ignore match.
#[verifier::external_body]
pub(crate) fn gitignore_matched(g: &Gitignore, path: &str, is_dir: bool) -> (r: bool)
    ensures
        r == gitignore_matches(gitignore_source(*g).0, gitignore_source(*g).1, path@, is_dir),
{
    g.matched(path, is_dir).is_ignore()
}

/// Calls `Gitignore::matched_path_or_any_parents(path, is_dir)` and asks
/// whether the result is an ignore match.  That method strips a leading
/// `./`, then the matcher's root and one `/` after it, and panics on a path
/// that is still rooted; `parents_safe` rules those paths out.
#[verifier::external_body]
pub(crate) fn gitignore_matched_or_parents(g: &Gitignore, path: &str, is_dir: bool) -> (r: bool)
    requires
        parents_safe(gitignore_source(*g).0, path@),
    ensures
        r == gitignore_matches_or_parents(
            gitignore_source(*g).0,
            gitignore_source(*g).1,
            path@,
            is_dir,
        ),
{
    g.matched_path_or_any_parents(path, is_dir).is_ignore()
}

/// The views of a list of strings.
pub open spec fn views(v: Seq<String>) -> Seq<Seq<char>> {
    v.map_values(|s: String| s@)
}

/// Index of the first line that the builder rejects, if any.
pub open spec fn first_rejected(lines: Seq<Seq<char>>) -> Option<int>
    decreases lines.len(),
{
    if lines.len() == 0 {
        None
    } else {
        match first_rejected(lines.drop_last()) {
            Some(k) => Some(k),
            None => if gitignore_line_accepted(lines.last()) {
                None
            } else {
                Some(lines.len() - 1)
            },
        }
    }
}

/// What compiling a list of patterns under `root` gives: the first rejected
/// pattern is reported as `<prefix><pattern>`, otherwise the build outcome.
pub open spec fn compile_outcome(
    root: Seq<char>,
    lines: Seq<Seq<char>>,
    prefix: Seq<char>,
) -> Result<(), Seq<char>> {
    match first_rejected(lines) {
        Some(k) => Err(prefix + lines[k]),
        None => gitignore_build_outcome(without_dot_slash(root), kept_lines(lines)),
    }
}

/// Builds a matcher from `patterns` under `root`.  A rejected pattern is
/// reported with `prefix` in front of it.
pub fn compile_patterns(root: &str, patterns: &Vec<String>, prefix: &str) -> (r: Result<
    Gitignore,
    String,
>)
    ensures
        r is Ok <==> compile_outcome(root@, views(patterns@), prefix@) is Ok,
        r matches Err(e) ==> (compile_outcome(root@, views(patterns@), prefix@) matches Err(m) && m
            == e@),
        r matches Ok(g) ==> gitignore_source(g) == (without_dot_slash(root@), kept_lines(views(patterns@))),
{
    let mut builder = builder_new(root);
    let mut i: usize = 0;
    while i < patterns.len()
        invariant
            i <= patterns@.len(),
            builder_root(builder) == without_dot_slash(root@),
            builder_lines(builder) == kept_lines(views(patterns@).take(i as int)),
            first_rejected(views(patterns@).take(i as int)) is None,
        decreases patterns@.len() - i,
    {
        let accepted = builder_add_line(&mut builder, patterns[i].as_str());
        proof {
            assert(views(patterns@).take(i + 1).drop_last() =~= views(patterns@).take(i as int));
            assert(views(patterns@).take(i + 1).last() == patterns@[i as int]@);
        }
        if !accepted {
            let mut msg = chars_of(prefix);
            push_str(&mut msg, patterns[i].as_str());
            proof {
                lemma_first_rejected_prefix(views(patterns@), i as int + 1);
            }
            return Err(string_from_chars(msg.as_slice()));
        }
        i += 1;
        assert(builder_lines(builder) == kept_lines(views(patterns@).take(i as int)));
    }
    assert(views(patterns@).take(patterns@.len() as int) =~= views(patterns@));
    builder_build(&builder)
}

/// A rejection within a prefix is the first rejection of the whole list.
proof fn lemma_first_rejected_prefix(lines: Seq<Seq<char>>, n: int)
    requires
        0 <= n <= lines.len(),
        first_rejected(lines.take(n)) is Some,
    ensures
        first_rejected(lines) == first_rejected(lines.take(n)),
    decreases lines.len(),
{
    if n < lines.len() {
        assert(lines.drop_last().take(n) =~= lines.take(n));
        lemma_first_rejected_prefix(lines.drop_last(), n);
    } else {
        assert(lines.take(n) =~= lines);
    }
}

} // verus!
