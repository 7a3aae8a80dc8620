//! Go syntax trees as the symbol extraction reads them.

use vstd::prelude::*;
use tree_sitter::{Node, Parser};

verus! {

/// A node of a Go syntax tree, holding what symbol extraction reads of it:
/// its kind, the texts of its `name`, `parameters`, `result` and `receiver`
/// fields, the kind of its `type` field, and its children in order.
#[derive(Debug)]
pub struct SyntaxNode {
    pub kind: String,
    pub name_text: Option<String>,
    pub parameters_text: Option<String>,
    pub result_text: Option<String>,
    pub receiver_text: Option<String>,
    pub type_kind: Option<String>,
    pub children: Vec<SyntaxNode>,
}

#[verifier::external_type_specification]
#[verifier::external_body]
pub struct ExNode<'tree>(Node<'tree>);

/// The tree that `tree-sitter` with the Go grammar builds for `source`, or
/// nothing when it gives up.
pub uninterp spec fn go_syntax_tree(source: Seq<char>) -> Option<SyntaxNode>;

/// `tree_sitter::Parser::parse` with the Go grammar of `tree-sitter-go`,
/// the tree read into `SyntaxNode`s: for each node its kind, the texts of
/// the fields named `name`, `parameters`, `result` and `receiver`
/// (`Node::child_by_field_name`, `Node::utf8_text`, an undecodable text read
/// as empty), the kind of the field named `type`, and its children
/// (`Node::children`). The parser gives up only when cancelled or timed out,
/// which this parser never is.
#[verifier::external_body]
pub(crate) fn parse_go_source(source: &str) -> (tree: Option<SyntaxNode>)
    ensures
        tree == go_syntax_tree(source@),
{
    let mut parser = Parser::new();
    parser.set_language(&tree_sitter_go::LANGUAGE.into()).expect("Failed to load Go grammar");
    let tree = parser.parse(source, None)?;
    Some(read_node(tree.root_node(), source.as_bytes()))
}

/// `Node::child_by_field_name` and `Node::utf8_text`: the text of the field
/// named `field`, an undecodable text read as empty.
#[verifier::external_body]
fn field_text(node: &Node, field: &str, source: &[u8]) -> Option<String> {
    match node.child_by_field_name(field) {
        Some(child) => Some(child.utf8_text(source).unwrap_or("").to_string()),
        None => None,
    }
}

/// Reads a `tree_sitter::Node` and its descendants into a `SyntaxNode`.
#[verifier::external_body]
fn read_node(node: Node, source: &[u8]) -> SyntaxNode {
    let mut children = Vec::new();
    let mut cursor = node.walk();
    for child in node.children(&mut cursor) {
        children.push(read_node(child, source));
    }
    SyntaxNode {
        kind: node.kind().to_string(),
        name_text: field_text(&node, "name", source),
        parameters_text: field_text(&node, "parameters", source),
        result_text: field_text(&node, "result", source),
        receiver_text: field_text(&node, "receiver", source),
        type_kind: node.child_by_field_name("type").map(|t| t.kind().to_string()),
        children,
    }
}

} // verus!
