//! Which files a run looks at.  Walking the file system is the program's
//! part; what it keeps of the walk is decided here: Markdown files only,
//! inside the include patterns and outside the exclude patterns, matched by
//! their path relative to the repository root.
use vstd::prelude::*;

use crate::config::Config;
use crate::diagnostics::PatternMatcher;
use crate::matcher::{compile_outcome, gitignore_matches, kept_lines, views};
use crate::paths::{
    extension, forward_slashes, not_under_message, repository_relative_path, spec_extension,
    spec_strip_prefix,
};
use crate::text::{push_str, str_eq, string_from_chars};

verus! {

/// A Markdown file is one whose extension is `md`.
pub open spec fn spec_is_markdown_path(path: Seq<char>) -> bool {
    spec_extension(path) == Some("md"@)
}

pub fn is_markdown_path(path: &str) -> (r: bool)
    ensures
        r == spec_is_markdown_path(path@),
{
    match extension(path) {
        Some(ext) => {
            let same = str_eq(ext.as_str(), "md");
            proof {
                if !same {
                    assert(ext@ != "md"@);
                }
            }
            same
        },
        None => false,
    }
}

/// Whether a walked file is kept: a Markdown file whose repository-relative
/// path is included and not excluded.  A Markdown file outside the root is
/// an error.
pub fn keeps_walked_file(
    root: &str,
    included: &PatternMatcher,
    excluded: &PatternMatcher,
    path: &str,
) -> (r: Result<bool, String>)
    ensures
        !spec_is_markdown_path(path@) ==> r is Ok && !r->Ok_0,
        spec_is_markdown_path(path@) ==> match spec_strip_prefix(path@, root@) {
            None => r is Err && r->Err_0@ == not_under_message(root@, path@),
            Some(rel) => r is Ok && r->Ok_0 == (gitignore_matches(
                included.root(),
                included.patterns(),
                forward_slashes(rel),
                false,
            ) && !gitignore_matches(excluded.root(), excluded.patterns(), forward_slashes(rel), false)),
        },
{
    if !is_markdown_path(path) {
        return Ok(false);
    }
    let relative = match repository_relative_path(root, path) {
        Ok(rel) => rel,
        Err(e) => return Err(e),
    };
    if !included.is_match(relative.as_str(), false) {
        return Ok(false);
    }
    Ok(!excluded.is_match(relative.as_str(), false))
}

/// The message for an explicit target that is not a Markdown file.
pub open spec fn not_markdown_message(path: Seq<char>) -> Seq<char> {
    path + " is not a Markdown file; only .md files are supported as explicit targets"@
}

/// An explicit file target must be a Markdown file.
pub fn explicit_target_error(path: &str) -> (r: Option<String>)
    ensures
        spec_is_markdown_path(path@) ==> r is None,
        !spec_is_markdown_path(path@) ==> r is Some && r->Some_0@ == not_markdown_message(path@),
{
    if is_markdown_path(path) {
        None
    } else {
        let mut msg: Vec<char> = Vec::new();
        push_str(&mut msg, path);
        push_str(&mut msg, " is not a Markdown file; only .md files are supported as explicit targets");
        Some(string_from_chars(msg.as_slice()))
    }
}

/// Whether the match exclusions drop `path`: its repository-relative path
/// matches one of the patterns.  A path outside the root is never dropped.
pub open spec fn excluded_from_match(
    root: Seq<char>,
    patterns: Seq<Seq<char>>,
    path: Seq<char>,
) -> bool {
    match spec_strip_prefix(path, root) {
        Some(rel) => gitignore_matches("/"@, kept_lines(patterns), forward_slashes(rel), false),
        None => false,
    }
}

/// The files that the match exclusions keep, in their order.
pub open spec fn kept_for_match(
    root: Seq<char>,
    patterns: Seq<Seq<char>>,
    files: Seq<Seq<char>>,
) -> Seq<Seq<char>>
    decreases files.len(),
{
    if files.len() == 0 {
        Seq::empty()
    } else {
        let rest = kept_for_match(root, patterns, files.drop_last());
        if excluded_from_match(root, patterns, files.last()) {
            rest
        } else {
            rest.push(files.last())
        }
    }
}

/// Drops the files that the configured match exclusions name.  Without
/// exclusions the list is returned as it is; a pattern that does not parse
/// is an error.
pub fn apply_match_exclude(config: &Config, files: Vec<String>) -> (r: Result<Vec<String>, String>)
    ensures
        config.spec_match_exclude().len() == 0 ==> r is Ok && r->Ok_0@ == files@,
        config.spec_match_exclude().len() > 0 ==> {
            &&& (r is Ok <==> compile_outcome(
                "/"@,
                config.spec_match_exclude(),
                "invalid pattern "@,
            ) is Ok)
            &&& (r matches Err(e) ==> (compile_outcome(
                "/"@,
                config.spec_match_exclude(),
                "invalid pattern "@,
            ) matches Err(m) && m == e@))
            &&& (r matches Ok(kept) ==> views(kept@) == kept_for_match(
                config.spec_repository_root(),
                config.spec_match_exclude(),
                views(files@),
            ))
        },
{
    let patterns = config.match_exclude();
    if patterns.len() == 0 {
        assert(views(patterns@).len() == patterns@.len());
        return Ok(files);
    }
    let matcher = match PatternMatcher::new(patterns) {
        Ok(m) => m,
        Err(e) => return Err(e),
    };
    let root = config.repository_root();
    let ghost pats = config.spec_match_exclude();
    let ghost all = views(files@);
    let mut kept: Vec<String> = Vec::new();
    let mut i: usize = 0;
    assert(all.take(0) =~= Seq::<Seq<char>>::empty());
    while i < files.len()
        invariant
            i <= files@.len(),
            all == views(files@),
            matcher.root() == "/"@,
            matcher.patterns() == kept_lines(pats),
            root@ == config.spec_repository_root(),
            views(kept@) == kept_for_match(root@, pats, all.take(i as int)),
        decreases files@.len() - i,
    {
        let path = &files[i];
        proof {
            assert(all.take(i + 1).drop_last() =~= all.take(i as int));
            assert(all.take(i + 1).last() == path@);
        }
        let dropped = match repository_relative_path(root.as_str(), path.as_str()) {
            Ok(relative) => matcher.is_match(relative.as_str(), false),
            Err(_) => false,
        };
        if !dropped {
            kept.push(path.clone());
            proof {
                assert(views(kept@) =~= views(kept@.drop_last()).push(path@));
            }
        }
        i += 1;
    }
    assert(all.take(files@.len() as int) =~= all);
    Ok(kept)
}

} // verus!
