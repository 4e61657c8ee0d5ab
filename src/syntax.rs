use vstd::prelude::*;

use crate::package::strings_view;
use crate::tree::{view_doc, view_nodes, DocView, Document, Node, NodeView};

verus! {

#[verifier::external_type_specification]
#[verifier::external_body]
pub struct ExKdlNode(kdl::KdlNode);

#[verifier::external_type_specification]
#[verifier::external_body]
pub struct ExKdlDocument(kdl::KdlDocument);

#[verifier::external_type_specification]
#[verifier::external_body]
pub struct ExKdlError(kdl::KdlError);

/// What kdl reads from a document text, taken apart into the library's
/// nodes and the document's own frame; `None` when kdl rejects the text.
pub uninterp spec fn kdl_reading(text: Seq<char>) -> Option<(Seq<NodeView>, kdl::KdlDocument)>;

/// The text that kdl writes for a document.
pub uninterp spec fn kdl_writing(doc: DocView) -> Seq<char>;

/// Relies on kdl's `KdlDocument::parse` (through `FromStr`): reads a
/// document text. The tree is taken apart into the library's nodes: each
/// node's name, the string value of each entry, its leading text, its
/// children, and the rest of the node (children removed) as written.
#[verifier::external_body]
pub(crate) fn read_kdl(text: &str) -> (r: Result<(Vec<Node>, kdl::KdlDocument), kdl::KdlError>)
    ensures
        match r {
            Ok((nodes, frame)) => kdl_reading(text@) == Some((view_nodes(nodes@), frame)),
            Err(_) => kdl_reading(text@) is None,
        },
{
    let mut doc = text.parse::<kdl::KdlDocument>()?;
    let nodes = doc.nodes().iter().map(node_from_kdl).collect();
    doc.nodes_mut().clear();
    Ok((nodes, doc))
}

/// Relies on kdl's accessors `KdlNode::name`, `KdlNode::entries`,
/// `KdlNode::format` and `KdlNode::children`: takes one parsed node apart.
#[verifier::external_body]
fn node_from_kdl(node: &kdl::KdlNode) -> Node {
    let mut syntax = node.clone();
    if let Some(children) = syntax.children_mut() {
        children.nodes_mut().clear();
    }
    Node {
        name: node.name().value().to_string(),
        args: node.entries().iter().map(|e| e.value().as_string().map(|s| s.to_string())).collect(),
        leading: node.format().map(|f| f.leading.clone()).unwrap_or_default(),
        children: node.children().map(|c| c.nodes().iter().map(node_from_kdl).collect()),
        syntax,
    }
}

/// Relies on kdl's `KdlNode::format_mut`, `KdlNode::set_format` and
/// `KdlNode::ensure_children`: puts one node back together.
#[verifier::external_body]
fn node_to_kdl(node: &Node) -> kdl::KdlNode {
    let mut out = node.syntax.clone();
    match out.format_mut() {
        Some(format) => format.leading = node.leading.clone(),
        None => out.set_format(kdl::KdlNodeFormat { leading: node.leading.clone(), ..Default::default() }),
    }
    if let Some(children) = &node.children {
        *out.ensure_children().nodes_mut() = children.iter().map(node_to_kdl).collect();
    }
    out
}

/// Relies on kdl's `Display` for `KdlDocument`: writes a document, its
/// nodes put back into its frame.
#[verifier::external_body]
pub(crate) fn render_document(doc: &Document) -> (r: String)
    ensures
        r@ == kdl_writing(view_doc(*doc)),
{
    let mut out = doc.syntax.clone();
    *out.nodes_mut() = doc.nodes.iter().map(node_to_kdl).collect();
    out.to_string()
}

/// The node that kdl builds for a package reference with string arguments,
/// auto-formatted at an indentation level.
pub uninterp spec fn package_syntax(text: Seq<char>, args: Seq<Seq<char>>, level: nat) -> kdl::KdlNode;

/// Relies on kdl's `KdlNode::new`, `KdlEntry::new` and
/// `KdlNode::autoformat_config`: builds the node for a package reference,
/// one string entry per argument, formatted at the given indentation level.
#[verifier::external_body]
pub(crate) fn formatted_package_node(text: &String, args: &Vec<String>, level: usize) -> (r:
    kdl::KdlNode)
    ensures
        r == package_syntax(text@, strings_view(args@), level as nat),
{
    let mut node = kdl::KdlNode::new(text.as_str());
    node.entries_mut().extend(args.iter().map(|a| kdl::KdlEntry::new(kdl::KdlValue::String(a.clone()))));
    node.autoformat_config(&kdl::FormatConfig::builder().indent_level(level).build());
    node
}

} // verus!
