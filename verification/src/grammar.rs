//! The markup language, told from the tree's side: which tokens spell a given tree, and the
//! laws that tie this to the parser.

use crate::dom::{ElementModel, NodeModel};
use crate::error::ErrorModel;
use crate::syntax::{
    children_at, element_at, expected_closing, ident_of, node_at, parse_tokens, props_at,
    siblings_at, text_of,
};
use crate::token::{token_at, Delimiter, Span, TokenModel};
use vstd::prelude::*;

verus! {

/// Whether the punctuation character `ch` stands at `pos`.
pub open spec fn punct_at(tokens: Seq<TokenModel>, pos: int, ch: char) -> bool {
    match token_at(tokens, pos) {
        Some(token) => token.is_punct(ch),
        None => false,
    }
}

/// Whether the identifier `name` stands at `pos`.
pub open spec fn ident_at(tokens: Seq<TokenModel>, pos: int, name: Seq<char>) -> bool {
    match token_at(tokens, pos) {
        Some(TokenModel::Ident { name: found, .. }) => found == name,
        _ => false,
    }
}

/// Where the properties `props`, from number `from` on, end if they are written from `pos`
/// on, each as its key, `=` and the one token of its value.
pub open spec fn spells_props(
    tokens: Seq<TokenModel>,
    pos: int,
    props: Seq<(Seq<char>, Seq<TokenModel>)>,
    from: int,
) -> Option<int>
    decreases props.len() - from,
{
    if from < 0 {
        None
    } else if from >= props.len() {
        Some(pos)
    } else if ident_at(tokens, pos, props[from].0) && punct_at(tokens, pos + 1, '=')
        && props[from].1.len() == 1 && token_at(tokens, pos + 2) == Some(props[from].1[0]) {
        spells_props(tokens, pos + 3, props, from + 1)
    } else {
        None
    }
}

/// Where `node` ends if it is written from `pos` on. A fragment is not written as one node.
pub open spec fn spells_node(tokens: Seq<TokenModel>, pos: int, node: NodeModel) -> Option<int>
    decreases node, 0int,
{
    match node {
        NodeModel::Text(text) => match token_at(tokens, pos) {
            Some(TokenModel::Literal { lit, span }) if text == text_of(lit, span) => Some(pos + 1),
            _ => None,
        },
        NodeModel::Expression(stream) => match token_at(tokens, pos) {
            Some(TokenModel::Group { delimiter, stream: inner, .. }) if delimiter
                == Delimiter::Brace && inner == stream => Some(pos + 1),
            _ => None,
        },
        NodeModel::Element(element) => if punct_at(tokens, pos, '<') {
            spells_element(tokens, pos + 1, element)
        } else {
            None
        },
        NodeModel::Fragment(_) => None,
    }
}

/// Where `element` ends if it is written from `pos` on, its `<` before that: either as an
/// opening tag, the children and a closing tag, or, without children, as a tag that closes
/// itself.
pub open spec fn spells_element(tokens: Seq<TokenModel>, pos: int, element: ElementModel) -> Option<
    int,
>
    decreases element, 0int,
{
    if !ident_at(tokens, pos, element.tag) {
        None
    } else {
        match spells_props(tokens, pos + 1, element.props, 0) {
            None => None,
            Some(end) => if punct_at(tokens, end, '/') {
                if element.children.len() == 0 && punct_at(tokens, end + 1, '>') {
                    Some(end + 2)
                } else {
                    None
                }
            } else if punct_at(tokens, end, '>') {
                match spells_nodes(tokens, end + 1, element.children, 0) {
                    None => None,
                    Some(closing) => if punct_at(tokens, closing, '<') && punct_at(
                        tokens,
                        closing + 1,
                        '/',
                    ) && ident_at(tokens, closing + 2, element.tag) && punct_at(
                        tokens,
                        closing + 3,
                        '>',
                    ) {
                        Some(closing + 4)
                    } else {
                        None
                    },
                }
            } else {
                None
            },
        }
    }
}

/// Where the nodes `nodes`, from number `from` on, end if they are written one after the
/// other from `pos` on.
pub open spec fn spells_nodes(
    tokens: Seq<TokenModel>,
    pos: int,
    nodes: Seq<NodeModel>,
    from: int,
) -> Option<int>
    decreases nodes, nodes.len() - from,
{
    if from < 0 {
        None
    } else if from >= nodes.len() {
        Some(pos)
    } else {
        match spells_node(tokens, pos, nodes[from]) {
            None => None,
            Some(after) => spells_nodes(tokens, after, nodes, from + 1),
        }
    }
}

/// Properties that are spelled in the stream end inside it, and not before they begin.
pub proof fn lemma_spelled_props_bounds(
    tokens: Seq<TokenModel>,
    pos: int,
    props: Seq<(Seq<char>, Seq<TokenModel>)>,
    from: int,
)
    requires
        0 <= pos <= tokens.len(),
        spells_props(tokens, pos, props, from) is Some,
    ensures
        pos <= spells_props(tokens, pos, props, from).unwrap() <= tokens.len(),
    decreases props.len() - from,
{
    if 0 <= from < props.len() {
        lemma_spelled_props_bounds(tokens, pos + 3, props, from + 1);
    }
}

/// The parser reads properties that are spelled in the stream as they are, up to a `>`.
pub proof fn lemma_props_open(
    tokens: Seq<TokenModel>,
    pos: int,
    props: Seq<(Seq<char>, Seq<TokenModel>)>,
    from: int,
)
    requires
        0 <= pos,
        0 <= from <= props.len(),
        spells_props(tokens, pos, props, from) matches Some(end) && punct_at(tokens, end, '>'),
    ensures
        props_at(tokens, pos) == (
            Ok::<(Seq<(Seq<char>, Seq<TokenModel>)>, bool), ErrorModel>((props.skip(from), false)),
            spells_props(tokens, pos, props, from).unwrap() + 1,
        ),
    decreases props.len() - from,
{
    if from < props.len() {
        lemma_props_open(tokens, pos + 3, props, from + 1);
        assert(props[from].1 =~= seq![tokens[pos + 2]]);
        assert(seq![(props[from].0, seq![tokens[pos + 2]])] + props.skip(from + 1) =~= props.skip(
            from,
        ));
    } else {
        assert(props.skip(from) =~= Seq::empty());
    }
}

/// The parser reads properties that are spelled in the stream as they are, up to a `/>`.
pub proof fn lemma_props_closed(
    tokens: Seq<TokenModel>,
    pos: int,
    props: Seq<(Seq<char>, Seq<TokenModel>)>,
    from: int,
)
    requires
        0 <= pos,
        0 <= from <= props.len(),
        spells_props(tokens, pos, props, from) matches Some(end) && punct_at(tokens, end, '/')
            && punct_at(tokens, end + 1, '>'),
    ensures
        props_at(tokens, pos) == (
            Ok::<(Seq<(Seq<char>, Seq<TokenModel>)>, bool), ErrorModel>((props.skip(from), true)),
            spells_props(tokens, pos, props, from).unwrap() + 2,
        ),
    decreases props.len() - from,
{
    if from < props.len() {
        lemma_props_closed(tokens, pos + 3, props, from + 1);
        assert(props[from].1 =~= seq![tokens[pos + 2]]);
        assert(seq![(props[from].0, seq![tokens[pos + 2]])] + props.skip(from + 1) =~= props.skip(
            from,
        ));
    } else {
        assert(props.skip(from) =~= Seq::empty());
    }
}

/// A node that is spelled in the stream ends inside it, after at least one token.
pub proof fn lemma_spelled_node_bounds(tokens: Seq<TokenModel>, pos: int, node: NodeModel)
    requires
        0 <= pos,
        spells_node(tokens, pos, node) is Some,
    ensures
        pos < spells_node(tokens, pos, node).unwrap() <= tokens.len(),
    decreases node, 0int,
{
    match node {
        NodeModel::Element(element) => {
            let end = spells_props(tokens, pos + 2, element.props, 0).unwrap();
            lemma_spelled_props_bounds(tokens, pos + 2, element.props, 0);
            if punct_at(tokens, end, '>') {
                lemma_spelled_nodes_bounds(tokens, end + 1, element.children, 0);
            }
        },
        _ => {},
    }
}

/// Nodes that are spelled in the stream end inside it, and not before they begin.
pub proof fn lemma_spelled_nodes_bounds(
    tokens: Seq<TokenModel>,
    pos: int,
    nodes: Seq<NodeModel>,
    from: int,
)
    requires
        0 <= pos <= tokens.len(),
        spells_nodes(tokens, pos, nodes, from) is Some,
    ensures
        pos <= spells_nodes(tokens, pos, nodes, from).unwrap() <= tokens.len(),
    decreases nodes, nodes.len() - from,
{
    if 0 <= from < nodes.len() {
        lemma_spelled_node_bounds(tokens, pos, nodes[from]);
        lemma_spelled_nodes_bounds(
            tokens,
            spells_node(tokens, pos, nodes[from]).unwrap(),
            nodes,
            from + 1,
        );
    }
}

/// The parser reads a node that is spelled in the stream as that node, and stops where it
/// ends.
pub proof fn lemma_reads_node(tokens: Seq<TokenModel>, pos: int, node: NodeModel)
    requires
        0 <= pos,
        spells_node(tokens, pos, node) is Some,
    ensures
        node_at(tokens, pos) == (
            Ok::<NodeModel, ErrorModel>(node),
            spells_node(tokens, pos, node).unwrap(),
        ),
    decreases node, 0int,
{
    match node {
        NodeModel::Element(element) => {
            lemma_reads_element(tokens, pos + 1, element);
        },
        _ => {},
    }
}

/// The parser reads an element that is spelled in the stream as that element, and stops
/// where it ends.
pub proof fn lemma_reads_element(tokens: Seq<TokenModel>, pos: int, element: ElementModel)
    requires
        0 <= pos,
        spells_element(tokens, pos, element) is Some,
    ensures
        element_at(tokens, pos) == (
            Ok::<ElementModel, ErrorModel>(element),
            spells_element(tokens, pos, element).unwrap(),
        ),
    decreases element, 0int,
{
    let end = spells_props(tokens, pos + 1, element.props, 0).unwrap();
    lemma_spelled_props_bounds(tokens, pos + 1, element.props, 0);
    assert(element.props.skip(0) =~= element.props);
    if punct_at(tokens, end, '/') {
        lemma_props_closed(tokens, pos + 1, element.props, 0);
        assert(element.children =~= Seq::empty());
    } else {
        lemma_props_open(tokens, pos + 1, element.props, 0);
        let closing = spells_nodes(tokens, end + 1, element.children, 0).unwrap();
        lemma_reads_children(tokens, end + 1, element.children, 0);
        assert(element.children.skip(0) =~= element.children);
    }
}

/// The parser reads children that are spelled in the stream, and that `</` follows, as they
/// are, and stops behind the `/`.
pub proof fn lemma_reads_children(
    tokens: Seq<TokenModel>,
    pos: int,
    nodes: Seq<NodeModel>,
    from: int,
)
    requires
        0 <= pos,
        0 <= from <= nodes.len(),
        spells_nodes(tokens, pos, nodes, from) matches Some(closing) && punct_at(
            tokens,
            closing,
            '<',
        ) && punct_at(tokens, closing + 1, '/'),
    ensures
        children_at(tokens, pos) == (
            Ok::<Seq<NodeModel>, ErrorModel>(nodes.skip(from)),
            spells_nodes(tokens, pos, nodes, from).unwrap() + 2,
        ),
    decreases nodes, nodes.len() - from,
{
    if from < nodes.len() {
        let after = spells_node(tokens, pos, nodes[from]).unwrap();
        lemma_reads_node(tokens, pos, nodes[from]);
        lemma_spelled_node_bounds(tokens, pos, nodes[from]);
        lemma_reads_children(tokens, after, nodes, from + 1);
        assert(seq![nodes[from]] + nodes.skip(from + 1) =~= nodes.skip(from));
    } else {
        assert(nodes.skip(from) =~= Seq::empty());
        assert(token_at(tokens, pos + 1) is Some);
        assert(ident_of(token_at(tokens, pos + 1)) is Err);
        assert(element_at(tokens, pos + 1).0 is Err);
        assert(element_at(tokens, pos + 1).0->Err_0.at_slash());
        assert(node_at(tokens, pos).0 is Err);
    }
}

/// The parser reads nodes that are spelled up to the end of the stream as they are.
pub proof fn lemma_reads_siblings(
    tokens: Seq<TokenModel>,
    pos: int,
    nodes: Seq<NodeModel>,
    from: int,
)
    requires
        0 <= pos,
        0 <= from <= nodes.len(),
        spells_nodes(tokens, pos, nodes, from) == Some(tokens.len() as int),
    ensures
        siblings_at(tokens, pos) == Ok::<Seq<NodeModel>, ErrorModel>(nodes.skip(from)),
    decreases nodes, nodes.len() - from,
{
    if from < nodes.len() {
        let after = spells_node(tokens, pos, nodes[from]).unwrap();
        lemma_reads_node(tokens, pos, nodes[from]);
        lemma_spelled_node_bounds(tokens, pos, nodes[from]);
        lemma_reads_siblings(tokens, after, nodes, from + 1);
        assert(seq![nodes[from]] + nodes.skip(from + 1) =~= nodes.skip(from));
    } else {
        assert(nodes.skip(from) =~= Seq::empty());
    }
}

/// A stream that spells one node and nothing more parses to that node.
pub proof fn lemma_parse_single(tokens: Seq<TokenModel>, node: NodeModel)
    requires
        spells_node(tokens, 0, node) == Some(tokens.len() as int),
    ensures
        parse_tokens(tokens) == Ok::<NodeModel, ErrorModel>(node),
{
    lemma_reads_node(tokens, 0, node);
}

/// A stream that spells one element and nothing more parses to that element: the tag, the
/// properties in their order, and the children are those that were written.
pub proof fn lemma_parse_element(tokens: Seq<TokenModel>, element: ElementModel)
    requires
        spells_node(tokens, 0, NodeModel::Element(element)) == Some(tokens.len() as int),
    ensures
        parse_tokens(tokens) == Ok::<NodeModel, ErrorModel>(NodeModel::Element(element)),
{
    lemma_parse_single(tokens, NodeModel::Element(element));
}

/// A stream that spells two or more nodes one after the other, and nothing more, parses to
/// the fragment of these nodes, in their order.
pub proof fn lemma_parse_fragment(tokens: Seq<TokenModel>, nodes: Seq<NodeModel>)
    requires
        nodes.len() >= 2,
        spells_nodes(tokens, 0, nodes, 0) == Some(tokens.len() as int),
    ensures
        parse_tokens(tokens) == Ok::<NodeModel, ErrorModel>(NodeModel::Fragment(nodes)),
{
    let after = spells_node(tokens, 0, nodes[0]).unwrap();
    lemma_reads_node(tokens, 0, nodes[0]);
    lemma_spelled_node_bounds(tokens, 0, nodes[0]);
    assert(spells_nodes(tokens, after, nodes, 1) == Some(tokens.len() as int));
    let rest = spells_node(tokens, after, nodes[1]).unwrap();
    lemma_reads_node(tokens, after, nodes[1]);
    lemma_spelled_node_bounds(tokens, after, nodes[1]);
    assert(spells_nodes(tokens, rest, nodes, 2) == Some(tokens.len() as int));
    lemma_reads_siblings(tokens, rest, nodes, 2);
    assert(seq![nodes[0], nodes[1]] + nodes.skip(2) =~= nodes);
}

/// A tag that closes itself makes an element without children, whatever its properties, and
/// the parser stops right behind its `/>`: no closing tag is looked for.
pub proof fn lemma_self_closing(
    tokens: Seq<TokenModel>,
    pos: int,
    tag: Seq<char>,
    props: Seq<(Seq<char>, Seq<TokenModel>)>,
)
    requires
        0 <= pos,
        ident_at(tokens, pos, tag),
        spells_props(tokens, pos + 1, props, 0) matches Some(end) && punct_at(tokens, end, '/')
            && punct_at(tokens, end + 1, '>'),
    ensures
        element_at(tokens, pos) == (
            Ok::<ElementModel, ErrorModel>(ElementModel { tag, props, children: Seq::empty() }),
            spells_props(tokens, pos + 1, props, 0).unwrap() + 2,
        ),
{
    lemma_reads_element(tokens, pos, ElementModel { tag, props, children: Seq::empty() });
}

/// An element whose opening tag was read and which is not yet closed: its tag, its
/// properties, and the children that were read so far.
pub struct OpenElement {
    pub tag: Seq<char>,
    pub props: Seq<(Seq<char>, Seq<TokenModel>)>,
    pub children: Seq<NodeModel>,
}

/// Where the children of `open` end if its opening tag and these children are written from
/// `pos` on, its `<` before that.
pub open spec fn spells_open(tokens: Seq<TokenModel>, pos: int, open: OpenElement) -> Option<int> {
    if !ident_at(tokens, pos, open.tag) {
        None
    } else {
        match spells_props(tokens, pos + 1, open.props, 0) {
            None => None,
            Some(end) => if punct_at(tokens, end, '>') {
                spells_nodes(tokens, end + 1, open.children, 0)
            } else {
                None
            },
        }
    }
}

/// Where the children of the last of `path` end if the open elements of `path`, from number
/// `from` on, are written from `pos` on, each inside the one before it.
pub open spec fn spells_nested(
    tokens: Seq<TokenModel>,
    pos: int,
    path: Seq<OpenElement>,
    from: int,
) -> Option<int>
    decreases path.len() - from,
{
    if from < 0 || from >= path.len() {
        None
    } else {
        match spells_open(tokens, pos, path[from]) {
            None => None,
            Some(end) => if from + 1 == path.len() {
                Some(end)
            } else if punct_at(tokens, end, '<') {
                spells_nested(tokens, end + 1, path, from + 1)
            } else {
                None
            },
        }
    }
}

/// Where children are spelled in the stream and the node after them fails, not on a `/`, the
/// children fail with that error.
pub proof fn lemma_children_fail(
    tokens: Seq<TokenModel>,
    pos: int,
    nodes: Seq<NodeModel>,
    from: int,
    err: ErrorModel,
    after: int,
)
    requires
        0 <= pos,
        0 <= from <= nodes.len(),
        spells_nodes(tokens, pos, nodes, from) matches Some(end) && node_at(tokens, end) == (
            Err::<NodeModel, ErrorModel>(err),
            after,
        ),
        !err.at_slash(),
    ensures
        children_at(tokens, pos) == (Err::<Seq<NodeModel>, ErrorModel>(err), after),
    decreases nodes.len() - from,
{
    if from < nodes.len() {
        let next = spells_node(tokens, pos, nodes[from]).unwrap();
        lemma_reads_node(tokens, pos, nodes[from]);
        lemma_spelled_node_bounds(tokens, pos, nodes[from]);
        lemma_children_fail(tokens, next, nodes, from + 1, err, after);
    }
}

/// An element whose closing tag names another element fails with the message that says so,
/// at the place of the name in the closing tag; and so does every element around it.
pub proof fn lemma_mismatch_nested(
    tokens: Seq<TokenModel>,
    pos: int,
    path: Seq<OpenElement>,
    from: int,
    other: Seq<char>,
    span: Span,
)
    requires
        0 <= pos,
        0 <= from < path.len(),
        spells_nested(tokens, pos, path, from) matches Some(end) && punct_at(tokens, end, '<')
            && punct_at(tokens, end + 1, '/') && token_at(tokens, end + 2) == Some(
            TokenModel::Ident { name: other, span },
        ),
        other != path.last().tag,
    ensures
        element_at(tokens, pos) == (
            Err::<ElementModel, ErrorModel>(
                ErrorModel::new(expected_closing(path.last().tag, other), span),
            ),
            spells_nested(tokens, pos, path, from).unwrap() + 3,
        ),
    decreases path.len() - from,
{
    let open = path[from];
    let inside = spells_props(tokens, pos + 1, open.props, 0).unwrap();
    lemma_spelled_props_bounds(tokens, pos + 1, open.props, 0);
    lemma_props_open(tokens, pos + 1, open.props, 0);
    assert(open.props.skip(0) =~= open.props);
    let end = spells_open(tokens, pos, open).unwrap();
    lemma_spelled_nodes_bounds(tokens, inside + 1, open.children, 0);
    if from + 1 == path.len() {
        lemma_reads_children(tokens, inside + 1, open.children, 0);
    } else {
        lemma_mismatch_nested(tokens, end + 1, path, from + 1, other, span);
        let err = ErrorModel::new(expected_closing(path.last().tag, other), span);
        let after = spells_nested(tokens, pos, path, from).unwrap() + 3;
        assert(node_at(tokens, end) == (Err::<NodeModel, ErrorModel>(err), after));
        lemma_children_fail(tokens, inside + 1, open.children, 0, err, after);
    }
}

/// Where nodes are spelled in the stream and the node after them fails, not because the
/// stream has ended, the rest of the stream fails with that error.
pub proof fn lemma_siblings_fail(
    tokens: Seq<TokenModel>,
    pos: int,
    nodes: Seq<NodeModel>,
    from: int,
    err: ErrorModel,
)
    requires
        0 <= pos,
        0 <= from <= nodes.len(),
        spells_nodes(tokens, pos, nodes, from) matches Some(end) && node_at(tokens, end).0 == Err::<
            NodeModel,
            ErrorModel,
        >(err),
        !err.exhausted,
    ensures
        siblings_at(tokens, pos) == Err::<Seq<NodeModel>, ErrorModel>(err),
    decreases nodes.len() - from,
{
    if from < nodes.len() {
        let next = spells_node(tokens, pos, nodes[from]).unwrap();
        lemma_reads_node(tokens, pos, nodes[from]);
        lemma_spelled_node_bounds(tokens, pos, nodes[from]);
        lemma_siblings_fail(tokens, next, nodes, from + 1, err);
    }
}

/// Parsing fails with the message for a closing tag that names another element, at the place
/// of that name, wherever the element stands: in whichever node of the stream, the nodes
/// before it spelled as they should be, and however deep inside that node.
pub proof fn lemma_parse_mismatch(
    tokens: Seq<TokenModel>,
    before: Seq<NodeModel>,
    path: Seq<OpenElement>,
    other: Seq<char>,
    span: Span,
)
    requires
        path.len() > 0,
        spells_nodes(tokens, 0, before, 0) matches Some(start) && punct_at(tokens, start, '<') && (
        spells_nested(tokens, start + 1, path, 0) matches Some(end) && punct_at(tokens, end, '<')
            && punct_at(tokens, end + 1, '/') && token_at(tokens, end + 2) == Some(
            TokenModel::Ident { name: other, span },
        )),
        other != path.last().tag,
    ensures
        parse_tokens(tokens) == Err::<NodeModel, ErrorModel>(
            ErrorModel::new(expected_closing(path.last().tag, other), span),
        ),
{
    let err = ErrorModel::new(expected_closing(path.last().tag, other), span);
    let start = spells_nodes(tokens, 0, before, 0).unwrap();
    lemma_spelled_nodes_bounds(tokens, 0, before, 0);
    lemma_mismatch_nested(tokens, start + 1, path, 0, other, span);
    assert(node_at(tokens, start).0 == Err::<NodeModel, ErrorModel>(err));
    if before.len() >= 1 {
        let after = spells_node(tokens, 0, before[0]).unwrap();
        lemma_reads_node(tokens, 0, before[0]);
        lemma_spelled_node_bounds(tokens, 0, before[0]);
        assert(spells_nodes(tokens, after, before, 1) == Some(start));
        if before.len() >= 2 {
            let rest = spells_node(tokens, after, before[1]).unwrap();
            lemma_reads_node(tokens, after, before[1]);
            lemma_spelled_node_bounds(tokens, after, before[1]);
            assert(spells_nodes(tokens, rest, before, 2) == Some(start));
            lemma_siblings_fail(tokens, rest, before, 2, err);
        }
    }
}

} // verus!
