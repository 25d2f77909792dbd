//! The tree that markup is parsed into.

use crate::token::{stream_view, Token, TokenModel};
use vstd::prelude::*;

verus! {

/// A tagged node with its properties and children.
#[derive(Debug, PartialEq, Eq)]
pub struct Element {
    pub tag: String,
    /// The properties in the order in which they were written; a key may occur twice.
    pub props: Vec<(String, Vec<Token>)>,
    pub children: Vec<Node>,
}

/// A node of markup.
#[derive(Debug, PartialEq, Eq)]
pub enum Node {
    Element(Element),
    /// Literal text, as one string literal.
    Text(Vec<Token>),
    /// An embedded expression, as the tokens between its braces.
    Expression(Vec<Token>),
    /// Siblings without an element around them.
    Fragment(Vec<Node>),
}

/// The mathematical value of an [`Element`].
pub struct ElementModel {
    pub tag: Seq<char>,
    pub props: Seq<(Seq<char>, Seq<TokenModel>)>,
    pub children: Seq<NodeModel>,
}

/// The mathematical value of a [`Node`].
pub enum NodeModel {
    Element(ElementModel),
    Text(Seq<TokenModel>),
    Expression(Seq<TokenModel>),
    Fragment(Seq<NodeModel>),
}

/// The values of a run of properties, in order.
pub open spec fn props_view(props: Seq<(String, Vec<Token>)>) -> Seq<(Seq<char>, Seq<TokenModel>)> {
    Seq::new(props.len(), |i: int| (props[i].0@, stream_view(props[i].1@)))
}

/// The values of a run of nodes, in order.
pub open spec fn nodes_view(nodes: Seq<Node>) -> Seq<NodeModel> {
    Seq::new(nodes.len(), |i: int| nodes[i]@)
}

impl View for Node {
    type V = NodeModel;

    open spec fn view(&self) -> NodeModel
        decreases self,
    {
        match self {
            Node::Element(element) => NodeModel::Element(
                ElementModel {
                    tag: element.tag@,
                    props: props_view(element.props@),
                    children: Seq::new(
                        element.children@.len(),
                        |i: int|
                            if 0 <= i < element.children@.len() {
                                element.children@[i]@
                            } else {
                                arbitrary()
                            },
                    ),
                },
            ),
            Node::Text(tokens) => NodeModel::Text(stream_view(tokens@)),
            Node::Expression(tokens) => NodeModel::Expression(stream_view(tokens@)),
            Node::Fragment(nodes) => NodeModel::Fragment(
                Seq::new(
                    nodes@.len(),
                    |i: int|
                        if 0 <= i < nodes@.len() {
                            nodes@[i]@
                        } else {
                            arbitrary()
                        },
                ),
            ),
        }
    }
}

impl View for Element {
    type V = ElementModel;

    open spec fn view(&self) -> ElementModel {
        ElementModel {
            tag: self.tag@,
            props: props_view(self.props@),
            children: nodes_view(self.children@),
        }
    }
}

/// The value of a node that holds an element is that element's value.
pub proof fn lemma_element_node_view(element: Element)
    ensures
        Node::Element(element)@ == NodeModel::Element(element@),
{
    reveal_with_fuel(<Node as View>::view, 2);
    assert(Node::Element(element)@->Element_0.children =~= element@.children);
}

/// The value of a fragment holds the values of its nodes.
pub proof fn lemma_fragment_node_view(nodes: Vec<Node>)
    ensures
        Node::Fragment(nodes)@ == NodeModel::Fragment(nodes_view(nodes@)),
{
    reveal_with_fuel(<Node as View>::view, 2);
    assert(Node::Fragment(nodes)@->Fragment_0 =~= nodes_view(nodes@));
}

} // verus!
