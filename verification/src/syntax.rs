//! What the parser makes of a stream of tokens, as functions of the stream and a place in it.
//!
//! Each function returns, beside its result, the place at which the parser then stands, also
//! where the result is an error: the token that an error is about was taken from the stream.

use crate::dom::{ElementModel, NodeModel};
use crate::error::ErrorModel;
use crate::token::{step, token_at, Delimiter, LiteralModel, Span, TokenModel};
use vstd::prelude::*;

verus! {

/// The message where a node had to begin.
pub open spec fn expected_node() -> Seq<char> {
    "Expected an element, {expression}, or a string literal"@
}

/// The message where a property, `/` or `>` had to follow.
pub open spec fn expected_in_tag() -> Seq<char> {
    "Expected identifier, /, or >"@
}

/// The message where an identifier had to stand.
pub open spec fn expected_ident() -> Seq<char> {
    "Expected identifier"@
}

/// The message where the punctuation character `expect` had to stand.
pub open spec fn expected_punct(expect: char) -> Seq<char> {
    "Expected "@.push(expect)
}

/// The message for an element that another element's closing tag ends.
pub open spec fn expected_closing(tag: Seq<char>, closing: Seq<char>) -> Seq<char> {
    "Expected a closing tag for "@ + tag + ", but got "@ + closing + " instead"@
}

/// The name and place of `tt` where it is an identifier, else the error for it.
pub open spec fn ident_of(tt: Option<TokenModel>) -> Result<(Seq<char>, Span), ErrorModel> {
    match tt {
        Some(TokenModel::Ident { name, span }) => Ok((name, span)),
        _ => Err(ErrorModel::from_tt(expected_ident(), tt)),
    }
}

/// Nothing where `tt` is the punctuation character `expect`, else the error for it.
pub open spec fn punct_of(tt: Option<TokenModel>, expect: char) -> Result<(), ErrorModel> {
    match tt {
        Some(TokenModel::Punct { ch, .. }) if ch == expect => Ok(()),
        _ => Err(ErrorModel::from_tt(expected_punct(expect), tt)),
    }
}

/// The tokens of the text node that a literal becomes: the literal itself where it is
/// written in quotes, else the string literal that quotes its text, at the call site.
pub open spec fn text_of(lit: LiteralModel, span: Span) -> Seq<TokenModel> {
    if lit.is_quoted() {
        seq![TokenModel::Literal { lit, span }]
    } else {
        seq![TokenModel::Literal { lit: LiteralModel::Quoted(lit.chars()), span: Span::CallSite }]
    }
}

/// `rest` with the properties `first` before its own.
pub open spec fn with_props(
    first: Seq<(Seq<char>, Seq<TokenModel>)>,
    rest: (Result<(Seq<(Seq<char>, Seq<TokenModel>)>, bool), ErrorModel>, int),
) -> (Result<(Seq<(Seq<char>, Seq<TokenModel>)>, bool), ErrorModel>, int) {
    match rest.0 {
        Ok((props, closed)) => (Ok((first + props, closed)), rest.1),
        Err(err) => rest,
    }
}

/// `rest` with the nodes `first` before its own.
pub open spec fn with_nodes(
    first: Seq<NodeModel>,
    rest: (Result<Seq<NodeModel>, ErrorModel>, int),
) -> (Result<Seq<NodeModel>, ErrorModel>, int) {
    match rest.0 {
        Ok(nodes) => (Ok(first + nodes), rest.1),
        Err(err) => rest,
    }
}

/// The properties of an opening tag from `pos` on, up to and with the `>` or `/>` that ends
/// the tag; the flag says that it was `/>`.
pub open spec fn props_at(tokens: Seq<TokenModel>, pos: int) -> (Result<
    (Seq<(Seq<char>, Seq<TokenModel>)>, bool),
    ErrorModel,
>, int)
    decreases tokens.len() - pos,
{
    match token_at(tokens, pos) {
        Some(TokenModel::Ident { name, .. }) => match punct_of(token_at(tokens, pos + 1), '=') {
            Err(err) => (Err(err), step(tokens, pos + 1)),
            Ok(_) => match token_at(tokens, pos + 2) {
                Some(value) => with_props(seq![(name, seq![value])], props_at(tokens, pos + 3)),
                None => (Err(ErrorModel::unexpected(None)), pos + 2),
            },
        },
        Some(TokenModel::Punct { ch, .. }) if ch == '/' => match punct_of(
            token_at(tokens, pos + 1),
            '>',
        ) {
            Err(err) => (Err(err), step(tokens, pos + 1)),
            Ok(_) => (Ok((Seq::empty(), true)), pos + 2),
        },
        Some(TokenModel::Punct { ch, .. }) if ch == '>' => (Ok((Seq::empty(), false)), pos + 1),
        tt => (Err(ErrorModel::from_tt(expected_in_tag(), tt)), step(tokens, pos)),
    }
}

/// The node that begins at `pos`.
pub open spec fn node_at(tokens: Seq<TokenModel>, pos: int) -> (Result<NodeModel, ErrorModel>, int)
    decreases tokens.len() - pos, 0int,
{
    match token_at(tokens, pos) {
        Some(TokenModel::Punct { ch, .. }) if ch == '<' => {
            let (element, after) = element_at(tokens, pos + 1);
            match element {
                Ok(element) => (Ok(NodeModel::Element(element)), after),
                Err(err) => (Err(err), after),
            }
        },
        Some(TokenModel::Group { delimiter, stream, .. }) if delimiter == Delimiter::Brace => (
            Ok(NodeModel::Expression(stream)),
            pos + 1,
        ),
        Some(TokenModel::Literal { lit, span }) => (Ok(NodeModel::Text(text_of(lit, span))), pos + 1),
        tt => (Err(ErrorModel::from_tt(expected_node(), tt)), step(tokens, pos)),
    }
}

/// The element whose `<` stands just before `pos`.
pub open spec fn element_at(tokens: Seq<TokenModel>, pos: int) -> (Result<
    ElementModel,
    ErrorModel,
>, int)
    decreases tokens.len() - pos, 2int,
{
    match ident_of(token_at(tokens, pos)) {
        Err(err) => (Err(err), step(tokens, pos)),
        Ok((tag, _)) => {
            let (opening, inside) = props_at(tokens, pos + 1);
            match opening {
                Err(err) => (Err(err), inside),
                Ok((props, true)) => (Ok(ElementModel { tag, props, children: Seq::empty() }), inside),
                Ok((props, false)) => {
                    let (body, closing) = if pos < inside <= tokens.len() {
                        children_at(tokens, inside)
                    } else {
                        (Ok(Seq::empty()), inside)
                    };
                    match body {
                        Err(err) => (Err(err), closing),
                        Ok(children) => match ident_of(token_at(tokens, closing)) {
                            Err(err) => (Err(err), step(tokens, closing)),
                            Ok((name, span)) => if name != tag {
                                (Err(ErrorModel::new(expected_closing(tag, name), span)), closing + 1)
                            } else {
                                match punct_of(token_at(tokens, closing + 1), '>') {
                                    Err(err) => (Err(err), step(tokens, closing + 1)),
                                    Ok(_) => (Ok(ElementModel { tag, props, children }), closing + 2),
                                }
                            },
                        },
                    }
                },
            }
        },
    }
}

/// The children of an element from `pos` on, up to and with the `</` (or a lone `/`) that
/// ends them.
pub open spec fn children_at(tokens: Seq<TokenModel>, pos: int) -> (Result<
    Seq<NodeModel>,
    ErrorModel,
>, int)
    decreases tokens.len() - pos, 1int,
{
    let (child, after) = node_at(tokens, pos);
    match child {
        Ok(child) => if pos < after <= tokens.len() {
            with_nodes(seq![child], children_at(tokens, after))
        } else {
            (Ok(seq![child]), after)
        },
        Err(err) => if err.at_slash() {
            (Ok(Seq::empty()), after)
        } else {
            (Err(err), after)
        },
    }
}

/// The nodes from `pos` to the end of the stream. The stream has ended where a node fails
/// because no token was left; every other failure is the failure of the whole.
pub open spec fn siblings_at(tokens: Seq<TokenModel>, pos: int) -> Result<Seq<NodeModel>, ErrorModel>
    decreases tokens.len() - pos,
{
    let (node, after) = node_at(tokens, pos);
    match node {
        Ok(node) => if pos < after <= tokens.len() {
            match siblings_at(tokens, after) {
                Ok(nodes) => Ok(seq![node] + nodes),
                Err(err) => Err(err),
            }
        } else {
            Ok(seq![node])
        },
        Err(err) => if err.exhausted {
            Ok(Seq::empty())
        } else {
            Err(err)
        },
    }
}

/// The tree that a whole stream stands for: its one node, or a fragment of its two or more.
/// After the first node the stream has ended where the next node fails because no token was
/// left; every other failure, in whichever node, is the failure of the whole.
pub open spec fn parse_tokens(tokens: Seq<TokenModel>) -> Result<NodeModel, ErrorModel> {
    let (first, after) = node_at(tokens, 0);
    match first {
        Err(err) => Err(err),
        Ok(first) => {
            let (second, rest) = node_at(tokens, after);
            match second {
                Ok(second) => match siblings_at(tokens, rest) {
                    Ok(more) => Ok(NodeModel::Fragment(seq![first, second] + more)),
                    Err(err) => Err(err),
                },
                Err(err) => if err.exhausted {
                    Ok(first)
                } else {
                    Err(err)
                },
            }
        },
    }
}

/// The parser never goes back, never leaves the stream, and takes at least one token for
/// every run of properties that it accepts.
pub proof fn lemma_props_bounds(tokens: Seq<TokenModel>, pos: int)
    requires
        0 <= pos <= tokens.len(),
    ensures
        pos <= props_at(tokens, pos).1 <= tokens.len(),
        props_at(tokens, pos).0 is Ok ==> pos < props_at(tokens, pos).1,
        props_at(tokens, pos).0 matches Err(err) && err.tt is Some ==> pos < props_at(tokens, pos).1,
    decreases tokens.len() - pos,
{
    if pos + 2 < tokens.len() {
        lemma_props_bounds(tokens, pos + 3);
    }
}

/// The parser never goes back, never leaves the stream, and takes at least one token for
/// every node that it accepts.
pub proof fn lemma_node_bounds(tokens: Seq<TokenModel>, pos: int)
    requires
        0 <= pos <= tokens.len(),
    ensures
        pos <= node_at(tokens, pos).1 <= tokens.len(),
        node_at(tokens, pos).0 is Ok ==> pos < node_at(tokens, pos).1,
        node_at(tokens, pos).0 matches Err(err) && err.tt is Some ==> pos < node_at(tokens, pos).1,
    decreases tokens.len() - pos, 0int,
{
    if pos < tokens.len() {
        lemma_element_bounds(tokens, pos + 1);
    }
}

/// The same for an element, from the tag's name on.
pub proof fn lemma_element_bounds(tokens: Seq<TokenModel>, pos: int)
    requires
        0 <= pos <= tokens.len(),
    ensures
        pos <= element_at(tokens, pos).1 <= tokens.len(),
        element_at(tokens, pos).0 is Ok ==> pos < element_at(tokens, pos).1,
        element_at(tokens, pos).0 matches Err(err) && err.tt is Some ==> pos < element_at(tokens, pos).1,
    decreases tokens.len() - pos, 2int,
{
    if pos < tokens.len() {
        lemma_props_bounds(tokens, pos + 1);
        let inside = props_at(tokens, pos + 1).1;
        lemma_children_bounds(tokens, inside);
    }
}

/// The same for the children of an element.
pub proof fn lemma_children_bounds(tokens: Seq<TokenModel>, pos: int)
    requires
        0 <= pos <= tokens.len(),
    ensures
        pos <= children_at(tokens, pos).1 <= tokens.len(),
        children_at(tokens, pos).0 is Ok ==> pos < children_at(tokens, pos).1,
    decreases tokens.len() - pos, 1int,
{
    lemma_node_bounds(tokens, pos);
    let after = node_at(tokens, pos).1;
    if node_at(tokens, pos).0 is Ok {
        lemma_children_bounds(tokens, after);
    }
}

} // verus!
