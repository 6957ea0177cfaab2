//! The Markdown syntax tree that the lint rules and the skill translation
//! read: the kinds of nodes they tell apart, the texts and destinations
//! they look at, and where each node stands in the source.
use vstd::prelude::*;

use crate::text::{push_str, string_from_chars};

verus! {

/// The kinds of Markdown nodes that the tool tells apart; every other node
/// is a `Container` when it has children and `Other` when it has none.
#[derive(Clone, Copy, Debug, PartialEq, Eq, Structural)]
pub enum NodeKind {
    Heading,
    Link,
    Text,
    InlineCode,
    Code,
    Container,
    Other,
}

/// The kinds of nodes that have children.
pub open spec fn spec_is_parent(kind: NodeKind) -> bool {
    !(kind == NodeKind::Text || kind == NodeKind::InlineCode || kind == NodeKind::Code || kind
        == NodeKind::Other)
}

pub fn is_parent(kind: NodeKind) -> (r: bool)
    ensures
        r == spec_is_parent(kind),
{
    !(kind == NodeKind::Text || kind == NodeKind::InlineCode || kind == NodeKind::Code || kind
        == NodeKind::Other)
}

/// Where a node stands: the line and column where it starts (from 1), and
/// its byte range.
#[derive(Clone, Copy, Debug, PartialEq, Eq, Structural)]
pub struct SourcePosition {
    pub start_line: usize,
    pub start_column: usize,
    pub start_offset: usize,
    pub end_offset: usize,
}

/// A node: its kind, its text (of a text, inline code or code node) or
/// destination (of a link), the language of a code block, its position,
/// and its children.
pub struct MarkdownNode {
    pub kind: NodeKind,
    pub value: String,
    pub lang: Option<String>,
    pub position: Option<SourcePosition>,
    pub children: Vec<MarkdownNode>,
}

/// The text of a link label or heading: the text and inline code it holds,
/// in order, at any depth.
pub open spec fn label_of_nodes(nodes: Seq<MarkdownNode>) -> Seq<char>
    decreases nodes,
{
    if nodes.len() == 0 {
        seq![]
    } else {
        label_of_nodes(nodes.drop_last()) + label_of_node(nodes.last())
    }
}

pub open spec fn label_of_node(node: MarkdownNode) -> Seq<char>
    decreases node,
{
    if node.kind == NodeKind::Text || node.kind == NodeKind::InlineCode {
        node.value@
    } else if spec_is_parent(node.kind) {
        label_of_nodes(node.children@)
    } else {
        seq![]
    }
}

fn push_label(out: &mut Vec<char>, nodes: &Vec<MarkdownNode>)
    ensures
        final(out)@ == old(out)@ + label_of_nodes(nodes@),
    decreases nodes@,
{
    let ghost start = out@;
    let mut i: usize = 0;
    while i < nodes.len()
        invariant
            i <= nodes@.len(),
            out@ == start + label_of_nodes(nodes@.take(i as int)),
        decreases nodes@.len() - i,
    {
        let child = &nodes[i];
        assert(nodes@.take(i + 1).drop_last() =~= nodes@.take(i as int));
        assert(nodes@.take(i + 1).last() == *child);
        if child.kind == NodeKind::Text || child.kind == NodeKind::InlineCode {
            push_str(out, child.value.as_str());
        } else if is_parent(child.kind) {
            assert(decreases_to!(nodes@ => child.children@)) by {
                assert(decreases_to!(nodes@ => nodes@[i as int]));
                assert(decreases_to!(*child => child.children));
                assert(decreases_to!(child.children => child.children@));
            }
            push_label(out, &child.children);
        }
        assert(label_of_nodes(nodes@.take(i + 1)) == label_of_nodes(nodes@.take(i as int))
            + label_of_node(*child));
        assert(out@ =~= start + label_of_nodes(nodes@.take(i + 1)));
        i += 1;
    }
    assert(nodes@.take(nodes@.len() as int) =~= nodes@);
}

/// The text of the given nodes, as a link label or heading shows it.
pub fn label_text(children: &Vec<MarkdownNode>) -> (r: String)
    ensures
        r@ == label_of_nodes(children@),
{
    let mut out: Vec<char> = Vec::new();
    push_label(&mut out, children);
    assert(out@ =~= label_of_nodes(children@));
    string_from_chars(out.as_slice())
}

} // verus!
