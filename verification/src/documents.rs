//! Document metadata for `match` and `list`: the name and description that
//! a document's frontmatter gives, falling back to its file name, and the
//! ` | `-separated row it is listed as.
use vstd::prelude::*;

use crate::frontmatter::{
    entry_views, frontmatter_of, parse_from_str, value_for, FrontmatterParseResult,
    FrontmatterView, ParsedFrontmatter, YamlValue, YamlValueView,
};
use crate::paths::{file_stem, parent, spec_file_stem, spec_parent};
use crate::text::{chars_of, push_str, string_from_chars};

verus! {

broadcast use vstd::seq_lib::group_seq_properties;

/// What `match` and `list` show of a document.
pub struct DocumentMetadata {
    pub repo_relative_path: String,
    pub path_prefix: String,
    pub name: String,
    pub description: Option<String>,
}

/// The name of a document without a `name` field: its file name without
/// the extension, or the whole path when it has no file name.
pub open spec fn spec_fallback_name(path: Seq<char>) -> Seq<char> {
    match spec_file_stem(path) {
        Some(s) => s,
        None => path,
    }
}

pub fn fallback_name_from_path(repo_relative_path: &str) -> (r: String)
    ensures
        r@ == spec_fallback_name(repo_relative_path@),
{
    match file_stem(repo_relative_path) {
        Some(s) => s,
        None => String::from_str(repo_relative_path),
    }
}

/// The directory part of a repository path; empty at the root.
pub open spec fn spec_path_prefix(path: Seq<char>) -> Seq<char> {
    match spec_parent(path) {
        Some(p) => p,
        None => seq![],
    }
}

pub fn path_prefix(repo_relative_path: &str) -> (r: String)
    ensures
        r@ == spec_path_prefix(repo_relative_path@),
{
    match parent(repo_relative_path) {
        Some(p) => p,
        None => String::new(),
    }
}

/// `s` with every `|` written `\|`.
pub open spec fn pipe_escaped(s: Seq<char>) -> Seq<char>
    decreases s.len(),
{
    if s.len() == 0 {
        seq![]
    } else {
        pipe_escaped(s.drop_last()) + if s.last() == '|' {
            seq!['\\', '|']
        } else {
            seq![s.last()]
        }
    }
}

pub fn escape_pipe(s: &str) -> (r: String)
    ensures
        r@ == pipe_escaped(s@),
{
    let chars = chars_of(s);
    let mut out: Vec<char> = Vec::new();
    let mut i: usize = 0;
    while i < chars.len()
        invariant
            i <= chars@.len(),
            chars@ == s@,
            out@ == pipe_escaped(chars@.take(i as int)),
        decreases chars@.len() - i,
    {
        assert(chars@.take(i + 1).drop_last() =~= chars@.take(i as int));
        if chars[i] == '|' {
            out.push('\\');
            out.push('|');
        } else {
            out.push(chars[i]);
        }
        i += 1;
        assert(out@ =~= pipe_escaped(chars@.take(i as int)));
    }
    assert(chars@.take(chars@.len() as int) =~= chars@);
    string_from_chars(out.as_slice())
}

pub open spec fn spec_metadata_row(path: Seq<char>, name: Seq<char>, description: Seq<char>) -> Seq<
    char,
> {
    pipe_escaped(path) + " | "@ + pipe_escaped(name) + " | "@ + pipe_escaped(description)
}

/// The row `path | name | description` of a document, `|` escaped; an
/// empty description when there is none.
pub fn render_metadata_row(document: &DocumentMetadata) -> (r: String)
    ensures
        r@ == spec_metadata_row(
            document.repo_relative_path@,
            document.name@,
            match &document.description {
                Some(d) => d@,
                None => seq![],
            },
        ),
{
    let mut out: Vec<char> = Vec::new();
    push_str(&mut out, escape_pipe(document.repo_relative_path.as_str()).as_str());
    push_str(&mut out, " | ");
    push_str(&mut out, escape_pipe(document.name.as_str()).as_str());
    push_str(&mut out, " | ");
    let description = match &document.description {
        Some(d) => escape_pipe(d.as_str()),
        None => escape_pipe(""),
    };
    proof {
        reveal_strlit("");
    }
    push_str(&mut out, description.as_str());
    string_from_chars(out.as_slice())
}

/// The scalar value of `key`, if the frontmatter holds one.
pub open spec fn spec_scalar_of(es: Seq<(Seq<char>, YamlValueView)>, key: Seq<char>) -> Option<Seq<char>> {
    match value_for(es, key) {
        Some(YamlValueView::Scalar(s)) => Some(s),
        _ => None,
    }
}

pub fn extract_scalar(fm: &ParsedFrontmatter, key: &str) -> (r: Option<String>)
    ensures
        match spec_scalar_of(entry_views(fm.entries@), key@) {
            Some(s) => r is Some && r->0@ == s,
            None => r is None,
        },
{
    match fm.get(key) {
        Some(YamlValue::Scalar(s)) => Some(s.clone()),
        _ => None,
    }
}

/// The metadata of the document at `repo_relative_path` with text
/// `source`: name and description from valid frontmatter, the name
/// falling back to the file name.
pub open spec fn metadata_matches(d: DocumentMetadata, path: Seq<char>, source: Seq<char>) -> bool {
    let (name, description) = match frontmatter_of(source) {
        FrontmatterView::Valid(es) => (spec_scalar_of(es, "name"@), spec_scalar_of(es, "description"@)),
        _ => (None, None),
    };
    &&& d.repo_relative_path@ == path
    &&& d.path_prefix@ == spec_path_prefix(path)
    &&& d.name@ == match name {
        Some(n) => n,
        None => spec_fallback_name(path),
    }
    &&& d.description is Some == description is Some
    &&& (d.description matches Some(x) ==> x@ == description->0)
}

pub fn document_metadata(repo_relative_path: &str, source: &str) -> (d: DocumentMetadata)
    ensures
        metadata_matches(d, repo_relative_path@, source@),
{
    let (name, description) = match parse_from_str(source) {
        FrontmatterParseResult::Valid(fm) => (extract_scalar(&fm, "name"), extract_scalar(&fm, "description")),
        _ => (None, None),
    };
    let name = match name {
        Some(n) => n,
        None => fallback_name_from_path(repo_relative_path),
    };
    DocumentMetadata {
        repo_relative_path: String::from_str(repo_relative_path),
        path_prefix: path_prefix(repo_relative_path),
        name,
        description,
    }
}

} // verus!
