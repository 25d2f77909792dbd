//! The canonical way to write a tree down as tokens, and the proof that the parser reads it
//! back.

use crate::dom::{
    lemma_element_node_view, lemma_fragment_node_view, nodes_view, props_view, Element,
    ElementModel, Node, NodeModel,
};
use crate::error::ErrorModel;
use crate::grammar::{
    lemma_parse_fragment, lemma_parse_single, spells_node, spells_nodes, spells_props,
};
use crate::syntax::parse_tokens;
use crate::token::{
    lemma_group_view, stream_view, token_at, Delimiter, Spacing, Span, Token, TokenModel,
};
use vstd::prelude::*;

verus! {

/// The punctuation character `ch` as it is written out: alone, at the call site.
pub open spec fn punct(ch: char) -> TokenModel {
    TokenModel::Punct { ch, spacing: Spacing::Alone, span: Span::CallSite }
}

/// The identifier `name` as it is written out, at the call site.
pub open spec fn ident(name: Seq<char>) -> TokenModel {
    TokenModel::Ident { name, span: Span::CallSite }
}

/// The properties from number `from` on, each as its key, `=` and its value.
pub open spec fn render_props(props: Seq<(Seq<char>, Seq<TokenModel>)>, from: int) -> Seq<
    TokenModel,
>
    decreases props.len() - from,
{
    if from < 0 || from >= props.len() {
        Seq::empty()
    } else {
        seq![ident(props[from].0), punct('=')] + props[from].1 + render_props(props, from + 1)
    }
}

/// One node written out: text as its literal, an expression in braces, an element as a tag
/// that closes itself where it has no children, else as opening tag, children and closing
/// tag. A fragment is written as its nodes, one after the other.
pub open spec fn render_node(node: NodeModel) -> Seq<TokenModel>
    decreases node, 0int,
{
    match node {
        NodeModel::Text(text) => text,
        NodeModel::Expression(stream) => seq![
            TokenModel::Group { delimiter: Delimiter::Brace, stream, span: Span::CallSite },
        ],
        NodeModel::Element(element) => seq![punct('<'), ident(element.tag)] + render_props(
            element.props,
            0,
        ) + render_body(element),
        NodeModel::Fragment(nodes) => render_nodes(nodes, 0),
    }
}

/// What follows the properties of `element`: `/>`, or `>`, the children and the closing tag.
pub open spec fn render_body(element: ElementModel) -> Seq<TokenModel>
    decreases element, 0int,
{
    if element.children.len() == 0 {
        seq![punct('/'), punct('>')]
    } else {
        seq![punct('>')] + render_nodes(element.children, 0) + seq![
            punct('<'),
            punct('/'),
            ident(element.tag),
            punct('>'),
        ]
    }
}

/// The nodes from number `from` on, written out one after the other.
pub open spec fn render_nodes(nodes: Seq<NodeModel>, from: int) -> Seq<TokenModel>
    decreases nodes, nodes.len() - from,
{
    if from < 0 || from >= nodes.len() {
        Seq::empty()
    } else {
        render_node(nodes[from]) + render_nodes(nodes, from + 1)
    }
}

/// Puts copies of `tokens` at the end of `out`.
fn write_tokens(tokens: &Vec<Token>, out: &mut Vec<Token>)
    ensures
        stream_view(final(out)@) == stream_view(old(out)@) + stream_view(tokens@),
{
    let mut i: usize = 0;
    assert(stream_view(out@) + stream_view(tokens@).take(0) =~= stream_view(out@));
    while i < tokens.len()
        invariant
            i <= tokens@.len(),
            stream_view(out@) == stream_view(old(out)@) + stream_view(tokens@).take(i as int),
        decreases tokens@.len() - i,
    {
        let ghost before = stream_view(out@);
        out.push(tokens[i].clone());
        assert(stream_view(out@) =~= before.push(tokens@[i as int]@));
        assert(stream_view(tokens@).take(i + 1) =~= stream_view(tokens@).take(i as int).push(
            tokens@[i as int]@,
        ));
        i += 1;
    }
    assert(stream_view(tokens@).take(tokens@.len() as int) =~= stream_view(tokens@));
}

/// Puts `token` at the end of `out`.
fn write_token(token: Token, out: &mut Vec<Token>)
    ensures
        stream_view(final(out)@) == stream_view(old(out)@) + seq![token@],
{
    out.push(token);
    assert(stream_view(out@) =~= stream_view(old(out)@) + seq![token@]);
}

/// The punctuation character `ch` as it is written out.
fn punct_token(ch: char) -> (token: Token)
    ensures
        token@ == punct(ch),
{
    Token::Punct { ch, spacing: Spacing::Alone, span: Span::CallSite }
}

/// The identifier `name` as it is written out.
fn ident_token(name: &String) -> (token: Token)
    ensures
        token@ == ident(name@),
{
    Token::Ident { name: name.clone(), span: Span::CallSite }
}

/// Writes the properties out at the end of `out`.
fn write_props(props: &Vec<(String, Vec<Token>)>, out: &mut Vec<Token>)
    ensures
        stream_view(final(out)@) == stream_view(old(out)@) + render_props(props_view(props@), 0),
{
    let ghost all = props_view(props@);
    let ghost whole = stream_view(out@) + render_props(all, 0);
    let mut i: usize = 0;
    while i < props.len()
        invariant
            i <= props@.len(),
            all == props_view(props@),
            stream_view(out@) + render_props(all, i as int) == whole,
        decreases props@.len() - i,
    {
        let ghost before = stream_view(out@);
        write_token(ident_token(&props[i].0), out);
        write_token(punct_token('='), out);
        write_tokens(&props[i].1, out);
        assert(stream_view(out@) + render_props(all, i + 1) =~= before + render_props(
            all,
            i as int,
        ));
        i += 1;
    }
    assert(stream_view(out@) + render_props(all, props@.len() as int) =~= stream_view(out@));
}

/// Writes one node out at the end of `out`.
fn write_node(node: &Node, out: &mut Vec<Token>)
    ensures
        stream_view(final(out)@) == stream_view(old(out)@) + render_node(node@),
    decreases node,
{
    match node {
        Node::Text(text) => {
            write_tokens(text, out);
        },
        Node::Expression(stream) => {
            let mut inner: Vec<Token> = Vec::new();
            write_tokens(stream, &mut inner);
            assert(stream_view(inner@) =~= stream_view(stream@));
            proof {
                lemma_group_view(Delimiter::Brace, inner, Span::CallSite);
            }
            write_token(
                Token::Group { delimiter: Delimiter::Brace, stream: inner, span: Span::CallSite },
                out,
            );
        },
        Node::Element(element) => {
            proof {
                lemma_element_node_view(*element);
            }
            let ghost model = element@;
            let ghost before = stream_view(out@);
            write_token(punct_token('<'), out);
            write_token(ident_token(&element.tag), out);
            write_props(&element.props, out);
            if element.children.len() == 0 {
                write_token(punct_token('/'), out);
                write_token(punct_token('>'), out);
                assert(stream_view(out@) =~= before + render_node(node@));
            } else {
                write_token(punct_token('>'), out);
                write_nodes(&element.children, out);
                write_token(punct_token('<'), out);
                write_token(punct_token('/'), out);
                write_token(ident_token(&element.tag), out);
                write_token(punct_token('>'), out);
                assert(stream_view(out@) =~= before + render_node(node@));
            }
        },
        Node::Fragment(nodes) => {
            proof {
                lemma_fragment_node_view(*nodes);
            }
            write_nodes(nodes, out);
        },
    }
}

/// Writes nodes out at the end of `out`, one after the other.
fn write_nodes(nodes: &Vec<Node>, out: &mut Vec<Token>)
    ensures
        stream_view(final(out)@) == stream_view(old(out)@) + render_nodes(nodes_view(nodes@), 0),
    decreases nodes,
{
    let ghost all = nodes_view(nodes@);
    let ghost whole = stream_view(out@) + render_nodes(all, 0);
    let mut i: usize = 0;
    while i < nodes.len()
        invariant
            i <= nodes@.len(),
            all == nodes_view(nodes@),
            stream_view(out@) + render_nodes(all, i as int) == whole,
        decreases nodes@.len() - i,
    {
        let ghost before = stream_view(out@);
        write_node(&nodes[i], out);
        assert(stream_view(out@) + render_nodes(all, i + 1) =~= before + render_nodes(
            all,
            i as int,
        ));
        i += 1;
    }
    assert(stream_view(out@) + render_nodes(all, nodes@.len() as int) =~= stream_view(out@));
}

/// Writes a tree out as tokens, in the canonical way.
pub fn render(node: &Node) -> (tokens: Vec<Token>)
    ensures
        stream_view(tokens@) == render_node(node@),
{
    let mut tokens: Vec<Token> = Vec::new();
    assert(stream_view(tokens@) =~= Seq::empty());
    write_node(node, &mut tokens);
    assert(Seq::<TokenModel>::empty() + render_node(node@) =~= render_node(node@));
    tokens
}

/// Whether a node inside a tree is one that the parser can give back: text is one literal
/// in quotes, the value of every property is one token, and no fragment stands inside.
pub open spec fn canonical_node(node: NodeModel) -> bool
    decreases node,
{
    match node {
        NodeModel::Text(text) => text.len() == 1 && match text[0] {
            TokenModel::Literal { lit, .. } => lit.is_quoted(),
            _ => false,
        },
        NodeModel::Expression(_) => true,
        NodeModel::Element(element) => {
            &&& forall|i: int|
                0 <= i < element.props.len() ==> (#[trigger] element.props[i]).1.len() == 1
            &&& forall|i: int|
                0 <= i < element.children.len() ==> canonical_node(#[trigger] element.children[i])
        },
        NodeModel::Fragment(_) => false,
    }
}

/// Whether a tree is one that the parser can give back: a canonical node, or a fragment of
/// two or more of them.
pub open spec fn canonical(node: NodeModel) -> bool {
    match node {
        NodeModel::Fragment(nodes) => nodes.len() >= 2 && forall|i: int|
            0 <= i < nodes.len() ==> canonical_node(#[trigger] nodes[i]),
        _ => canonical_node(node),
    }
}

/// Whether `part` stands in `tokens` from `pos` on.
pub open spec fn written_at(tokens: Seq<TokenModel>, pos: int, part: Seq<TokenModel>) -> bool {
    &&& 0 <= pos
    &&& pos + part.len() <= tokens.len()
    &&& tokens.subrange(pos, pos + part.len()) == part
}

/// Where two parts stand one after the other, each of them stands at its place.
pub proof fn lemma_written_split(
    tokens: Seq<TokenModel>,
    pos: int,
    first: Seq<TokenModel>,
    second: Seq<TokenModel>,
)
    requires
        written_at(tokens, pos, first + second),
    ensures
        written_at(tokens, pos, first),
        written_at(tokens, pos + first.len(), second),
{
    let whole = first + second;
    assert(tokens.subrange(pos, pos + first.len()) =~= whole.subrange(0, first.len() as int));
    assert(whole.subrange(0, first.len() as int) =~= first);
    assert(tokens.subrange(pos + first.len(), pos + first.len() + second.len())
        =~= whole.subrange(first.len() as int, whole.len() as int));
    assert(whole.subrange(first.len() as int, whole.len() as int) =~= second);
}

/// A token of a part that stands in the stream stands at its place in the stream.
pub proof fn lemma_written_token(
    tokens: Seq<TokenModel>,
    pos: int,
    part: Seq<TokenModel>,
    index: int,
)
    requires
        written_at(tokens, pos, part),
        0 <= index < part.len(),
    ensures
        token_at(tokens, pos + index) == Some(part[index]),
{
    assert(tokens.subrange(pos, pos + part.len())[index] == tokens[pos + index]);
}

/// Properties that are written out are spelled where they stand.
pub proof fn lemma_rendered_props(
    tokens: Seq<TokenModel>,
    pos: int,
    props: Seq<(Seq<char>, Seq<TokenModel>)>,
    from: int,
)
    requires
        0 <= from <= props.len(),
        forall|i: int| 0 <= i < props.len() ==> (#[trigger] props[i]).1.len() == 1,
        written_at(tokens, pos, render_props(props, from)),
    ensures
        spells_props(tokens, pos, props, from) == Some(pos + render_props(props, from).len()),
    decreases props.len() - from,
{
    if from < props.len() {
        let head = seq![ident(props[from].0), punct('=')] + props[from].1;
        lemma_written_split(tokens, pos, head, render_props(props, from + 1));
        lemma_written_token(tokens, pos, head, 0);
        lemma_written_token(tokens, pos, head, 1);
        lemma_written_token(tokens, pos, head, 2);
        lemma_rendered_props(tokens, pos + 3, props, from + 1);
    }
}

/// A canonical node that is written out is spelled where it stands.
pub proof fn lemma_rendered_node(tokens: Seq<TokenModel>, pos: int, node: NodeModel)
    requires
        canonical_node(node),
        written_at(tokens, pos, render_node(node)),
    ensures
        spells_node(tokens, pos, node) == Some(pos + render_node(node).len()),
    decreases node, 0int,
{
    match node {
        NodeModel::Text(text) => {
            lemma_written_token(tokens, pos, text, 0);
            assert(text =~= seq![text[0]]);
        },
        NodeModel::Expression(stream) => {
            lemma_written_token(tokens, pos, render_node(node), 0);
        },
        NodeModel::Element(element) => {
            let open = seq![punct('<'), ident(element.tag)];
            let props = render_props(element.props, 0);
            let body = render_body(element);
            lemma_written_split(tokens, pos, open + props, body);
            lemma_written_split(tokens, pos, open, props);
            lemma_written_token(tokens, pos, open, 0);
            lemma_written_token(tokens, pos, open, 1);
            lemma_rendered_props(tokens, pos + 2, element.props, 0);
            let end = pos + 2 + props.len();
            if element.children.len() == 0 {
                lemma_written_token(tokens, end, body, 0);
                lemma_written_token(tokens, end, body, 1);
            } else {
                let inner = render_nodes(element.children, 0);
                let close = seq![punct('<'), punct('/'), ident(element.tag), punct('>')];
                lemma_written_split(tokens, end, seq![punct('>')] + inner, close);
                lemma_written_split(tokens, end, seq![punct('>')], inner);
                lemma_written_token(tokens, end, seq![punct('>')], 0);
                lemma_rendered_nodes(tokens, end + 1, element.children, 0);
                let closing = end + 1 + inner.len();
                lemma_written_token(tokens, closing, close, 0);
                lemma_written_token(tokens, closing, close, 1);
                lemma_written_token(tokens, closing, close, 2);
                lemma_written_token(tokens, closing, close, 3);
            }
        },
        NodeModel::Fragment(_) => {},
    }
}

/// Canonical nodes that are written out one after the other are spelled where they stand.
pub proof fn lemma_rendered_nodes(
    tokens: Seq<TokenModel>,
    pos: int,
    nodes: Seq<NodeModel>,
    from: int,
)
    requires
        0 <= from <= nodes.len(),
        forall|i: int| 0 <= i < nodes.len() ==> canonical_node(#[trigger] nodes[i]),
        written_at(tokens, pos, render_nodes(nodes, from)),
    ensures
        spells_nodes(tokens, pos, nodes, from) == Some(pos + render_nodes(nodes, from).len()),
    decreases nodes, nodes.len() - from,
{
    if from < nodes.len() {
        let head = render_node(nodes[from]);
        lemma_written_split(tokens, pos, head, render_nodes(nodes, from + 1));
        lemma_rendered_node(tokens, pos, nodes[from]);
        lemma_rendered_nodes(tokens, pos + head.len(), nodes, from + 1);
    }
}

/// Parsing what a canonical tree is written out as gives the tree back.
pub proof fn lemma_parse_rendered(node: NodeModel)
    requires
        canonical(node),
    ensures
        parse_tokens(render_node(node)) == Ok::<NodeModel, ErrorModel>(node),
{
    let tokens = render_node(node);
    assert(tokens.subrange(0, tokens.len() as int) =~= tokens);
    match node {
        NodeModel::Fragment(nodes) => {
            lemma_rendered_nodes(tokens, 0, nodes, 0);
            lemma_parse_fragment(tokens, nodes);
        },
        _ => {
            lemma_rendered_node(tokens, 0, node);
            lemma_parse_single(tokens, node);
        },
    }
}

} // verus!
