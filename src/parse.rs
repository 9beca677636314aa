use vstd::prelude::*;

use crate::xml::{Element, XmlDocument};

verus! {

#[verifier::external_type_specification]
#[verifier::external_body]
pub struct ExXmlTree<'input>(roxmltree::Document<'input>);

#[verifier::external_type_specification]
#[verifier::external_body]
pub struct ExXmlNode<'a, 'input: 'a>(roxmltree::Node<'a, 'input>);

#[verifier::external_type_specification]
#[verifier::external_body]
pub struct ExXmlError(roxmltree::Error);

/// A document that could not be parsed as XML.
#[derive(Clone, Debug)]
pub struct ParseError {
    /// The parser's description of the problem.
    pub message: String,
}

/// Relies on `roxmltree::Document::parse`: builds the node tree of `text`, or
/// reports why it is not well-formed XML.
#[verifier::external_body]
fn xml_parse<'i>(text: &'i str) -> (r: Result<roxmltree::Document<'i>, roxmltree::Error>) {
    roxmltree::Document::parse(text)
}

/// Relies on `roxmltree::Error`'s `Display`: the parser's message.
#[verifier::external_body]
fn xml_error_message(e: &roxmltree::Error) -> (r: String) {
    e.to_string()
}

/// Relies on `roxmltree::Document::descendants`: every node of the document,
/// the root node first, in document order.
#[verifier::external_body]
fn xml_nodes<'a, 'i>(doc: &'a roxmltree::Document<'i>) -> (r: Vec<roxmltree::Node<'a, 'i>>) {
    doc.descendants().collect()
}

/// Relies on `roxmltree::Node::is_element`.
#[verifier::external_body]
fn node_is_element(n: &roxmltree::Node) -> (r: bool) {
    n.is_element()
}

/// Relies on `roxmltree::Node::tag_name`: the local name, without namespace.
#[verifier::external_body]
fn node_local_name(n: &roxmltree::Node) -> (r: String) {
    n.tag_name().name().to_owned()
}

/// Relies on `roxmltree::Node::text`: for an element, the text of its first
/// child where that child is a text node.
#[verifier::external_body]
fn node_text(n: &roxmltree::Node) -> (r: Option<String>) {
    n.text().map(|t| t.to_owned())
}

/// Relies on `roxmltree::Node::ancestors`: the node and every node above it,
/// so a child counts one more than its parent.
#[verifier::external_body]
fn node_depth(n: &roxmltree::Node) -> (r: usize) {
    n.ancestors().count()
}

/// Parses an XML text into its elements in document order, each with its
/// local tag name, its text and its nesting level.
pub fn parse_document(text: &str) -> (r: Result<XmlDocument, ParseError>) {
    let tree = match xml_parse(text) {
        Ok(t) => t,
        Err(e) => {
            return Err(ParseError { message: xml_error_message(&e) });
        },
    };
    let nodes = xml_nodes(&tree);
    let mut elements: Vec<Element> = Vec::new();
    let mut i: usize = 0;
    while i < nodes.len()
        invariant
            i <= nodes@.len(),
        decreases nodes@.len() - i,
    {
        let n = &nodes[i];
        if node_is_element(n) {
            elements.push(Element { tag: node_local_name(n), text: node_text(n), level: node_depth(n) });
        }
        i = i + 1;
    }
    Ok(XmlDocument { elements })
}

} // verus!
