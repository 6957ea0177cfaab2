//! Parsing GitHub-flavored Markdown with the `markdown` crate, and handing
//! its syntax tree over in the library's node type.
use vstd::prelude::*;

use crate::markdown::{MarkdownNode, NodeKind, SourcePosition};

verus! {

#[verifier::external_type_specification]
#[verifier::external_body]
pub struct ExNode(::markdown::mdast::Node);

/// What `markdown::to_mdast(source, &ParseOptions::gfm())` gives for a
/// text: its syntax tree in the library's node type, or the parser's
/// message.
pub uninterp spec fn gfm_tree(source: Seq<char>) -> Result<MarkdownNode, Seq<char>>;

/// The kind of a parsed node, with the text of a text or code node, the
/// destination of a link and the language of a code block.
#[verifier::external_body]
fn node_head(node: &::markdown::mdast::Node) -> (NodeKind, String, Option<String>) {
    match node {
        ::markdown::mdast::Node::Heading(_) => (NodeKind::Heading, String::new(), None),
        ::markdown::mdast::Node::Link(link) => (NodeKind::Link, link.url.clone(), None),
        ::markdown::mdast::Node::Text(text) => (NodeKind::Text, text.value.clone(), None),
        ::markdown::mdast::Node::InlineCode(code) => (NodeKind::InlineCode, code.value.clone(), None),
        ::markdown::mdast::Node::Code(code) => (NodeKind::Code, code.value.clone(), code.lang.clone()),
        _ if node.children().is_some() => (NodeKind::Container, String::new(), None),
        _ => (NodeKind::Other, String::new(), None),
    }
}

/// The position of a parsed node.
#[verifier::external_body]
fn node_position(node: &::markdown::mdast::Node) -> Option<SourcePosition> {
    node.position().map(|p| SourcePosition {
        start_line: p.start.line,
        start_column: p.start.column,
        start_offset: p.start.offset,
        end_offset: p.end.offset,
    })
}

/// A parsed node and its descendants in the library's node type.
#[verifier::external_body]
fn mdast_to_tree(node: &::markdown::mdast::Node) -> MarkdownNode {
    let (kind, value, lang) = node_head(node);
    let children = node.children().map_or(Vec::new(), |nodes| nodes.iter().map(mdast_to_tree).collect());
    MarkdownNode { kind, value, lang, position: node_position(node), children }
}

/// Calls `markdown::to_mdast(source, &ParseOptions::gfm())`.  The tree
/// depends on the text alone; the contract names it.  The conversion into
/// the library's node type keeps each node's kind, text, destination,
/// language, position and children.
#[verifier::external_body]
pub(crate) fn parse_markdown(source: &str) -> (r: Result<MarkdownNode, String>)
    ensures
        match r {
            Ok(t) => gfm_tree(source@) == Ok::<MarkdownNode, Seq<char>>(t),
            Err(e) => gfm_tree(source@) == Err::<MarkdownNode, Seq<char>>(e@),
        },
{
    match ::markdown::to_mdast(source, &::markdown::ParseOptions::gfm()) {
        Ok(tree) => Ok(mdast_to_tree(&tree)),
        Err(message) => Err(message.to_string()),
    }
}

} // verus!
