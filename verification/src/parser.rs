//! The parser: from a stream of tokens to a tree of markup.

use crate::dom::{
    lemma_element_node_view, lemma_fragment_node_view, nodes_view, props_view, Element,
    ElementModel, Node, NodeModel,
};
use crate::error::{ErrorModel, ParseError};
use crate::syntax::{
    children_at, element_at, ident_of, lemma_node_bounds, node_at, parse_tokens, props_at,
    punct_of, siblings_at, text_of, with_nodes, with_props,
};
use crate::token::{
    at_punct, lemma_group_view, stream_view, token_at, token_view, Delimiter, Literal, Span,
    Token, TokenIter, TokenModel,
};
use vstd::prelude::*;
use vstd::string::StringExecFns;

verus! {

/// `String::push` puts one character at the end of the string.
pub assume_specification[ String::push ](text: &mut String, ch: char)
    ensures
        final(text)@ == old(text)@.push(ch),
;

/// The value of what parsing a node returned.
pub open spec fn node_result_view(res: Result<Node, ParseError>) -> Result<NodeModel, ErrorModel> {
    match res {
        Ok(node) => Ok(node@),
        Err(err) => Err(err@),
    }
}

/// The value of what parsing an element returned.
pub open spec fn element_result_view(res: Result<Element, ParseError>) -> Result<
    ElementModel,
    ErrorModel,
> {
    match res {
        Ok(element) => Ok(element@),
        Err(err) => Err(err@),
    }
}

/// The value of what looking for an identifier returned.
pub open spec fn ident_result_view(res: Result<(String, Span), ParseError>) -> Result<
    (Seq<char>, Span),
    ErrorModel,
> {
    match res {
        Ok((name, span)) => Ok((name@, span)),
        Err(err) => Err(err@),
    }
}

/// The value of what looking for a punctuation character returned.
pub open spec fn punct_result_view(res: Result<(), ParseError>) -> Result<(), ErrorModel> {
    match res {
        Ok(_) => Ok(()),
        Err(err) => Err(err@),
    }
}

/// Parses a whole stream: one node, or a fragment of the two or more that it holds.
pub fn parse(tokens: Vec<Token>) -> (res: Result<Node, ParseError>)
    ensures
        node_result_view(res) == parse_tokens(stream_view(tokens@)),
{
    let mut iter = TokenIter::new(tokens);
    let ghost all = iter.tokens();
    proof {
        lemma_node_bounds(all, 0);
    }
    let first = parse_node(&mut iter);
    let node = match first {
        Ok(node) => node,
        Err(err) => {
            return Err(err);
        },
    };
    let ghost after = iter.pos();
    proof {
        lemma_node_bounds(all, after);
    }
    let second = parse_node(&mut iter);
    match second {
        Ok(second) => {
            let ghost rest = iter.pos();
            let ghost head = seq![node@, second@];
            let mut fragment: Vec<Node> = Vec::new();
            fragment.push(node);
            fragment.push(second);
            loop
                invariant_except_break
                    siblings_at(all, rest) == match siblings_at(all, iter.pos()) {
                        Ok(more) => Ok(nodes_view(fragment@).skip(2) + more),
                        Err(err) => Err(err),
                    },
                invariant
                    all == stream_view(tokens@),
                    node_at(all, 0) == (Ok::<NodeModel, ErrorModel>(head[0]), after),
                    node_at(all, after) == (Ok::<NodeModel, ErrorModel>(head[1]), rest),
                    iter.tokens() == all,
                    0 <= iter.pos() <= all.len(),
                    fragment@.len() >= 2,
                    nodes_view(fragment@).take(2) == head,
                ensures
                    siblings_at(all, rest) == Ok::<Seq<NodeModel>, ErrorModel>(
                        nodes_view(fragment@).skip(2),
                    ),
                decreases all.len() - iter.pos(),
            {
                let ghost before = nodes_view(fragment@);
                proof {
                    lemma_node_bounds(all, iter.pos());
                }
                let next = parse_node(&mut iter);
                match next {
                    Ok(node) => {
                        fragment.push(node);
                        assert(nodes_view(fragment@) =~= before.push(node@));
                        assert(nodes_view(fragment@).take(2) =~= before.take(2));
                        assert forall|more: Seq<NodeModel>|
                            before.skip(2) + (seq![node@] + more) == nodes_view(fragment@).skip(2)
                                + more by {
                            assert(before.skip(2) + (seq![node@] + more) =~= nodes_view(
                                fragment@,
                            ).skip(2) + more);
                        }
                    },
                    Err(err) => {
                        if err.exhausted {
                            assert(nodes_view(fragment@).skip(2) + Seq::<NodeModel>::empty()
                                =~= nodes_view(fragment@).skip(2));
                            break ;
                        } else {
                            return Err(err);
                        }
                    },
                }
            }
            proof {
                lemma_fragment_node_view(fragment);
                assert(nodes_view(fragment@) =~= head + nodes_view(fragment@).skip(2));
            }
            Ok(Node::Fragment(fragment))
        },
        Err(err) => {
            if err.exhausted {
                Ok(node)
            } else {
                Err(err)
            }
        },
    }
}

/// Parses the node at the cursor.
pub fn parse_node(iter: &mut TokenIter) -> (res: Result<Node, ParseError>)
    ensures
        final(iter).tokens() == old(iter).tokens(),
        (node_result_view(res), final(iter).pos()) == node_at(old(iter).tokens(), old(iter).pos()),
    decreases old(iter).tokens().len() - old(iter).pos(),
{
    let tt = iter.next();
    if at_punct(&tt, '<') {
        return match parse_element(iter) {
            Ok(element) => {
                proof {
                    lemma_element_node_view(element);
                }
                Ok(Node::Element(element))
            },
            Err(err) => Err(err),
        };
    }
    match tt {
        Some(Token::Group { delimiter, stream, span }) if delimiter == Delimiter::Brace => {
            proof {
                lemma_group_view(delimiter, stream, span);
            }
            Ok(Node::Expression(stream))
        },
        Some(Token::Literal { lit, span }) => {
            let mut tokens: Vec<Token> = Vec::new();
            if lit.is_quoted() {
                tokens.push(Token::Literal { lit, span });
            } else {
                tokens.push(
                    Token::Literal { lit: Literal::Quoted(lit.into_chars()), span: Span::CallSite },
                );
            }
            assert(stream_view(tokens@) =~= text_of(lit@, span));
            Ok(Node::Text(tokens))
        },
        tt => Err(
            ParseError::from_tt("Expected an element, {expression}, or a string literal", tt),
        ),
    }
}

/// Parses an element from the name of its tag on: the `<` before it was taken already.
pub fn parse_element(iter: &mut TokenIter) -> (res: Result<Element, ParseError>)
    ensures
        final(iter).tokens() == old(iter).tokens(),
        (element_result_view(res), final(iter).pos()) == element_at(
            old(iter).tokens(),
            old(iter).pos(),
        ),
    decreases old(iter).tokens().len() - old(iter).pos(),
{
    let ghost all = iter.tokens();
    let ghost start = iter.pos();
    let tt = iter.next();
    let tag = match expect_ident(tt) {
        Ok((tag, _)) => tag,
        Err(err) => {
            return Err(err);
        },
    };
    let mut props: Vec<(String, Vec<Token>)> = Vec::new();
    let mut children: Vec<Node> = Vec::new();
    assert(props_view(props@) =~= Seq::empty());

    // Props loop
    loop
        invariant_except_break
            props_at(all, start + 1) == with_props(
                props_view(props@),
                props_at(all, iter.pos()),
            ),
        invariant
            all == old(iter).tokens(),
            start == old(iter).pos(),
            ident_of(token_at(all, start)) matches Ok(found) && found.0 == tag@,
            iter.tokens() == all,
            0 <= start < iter.pos() <= all.len(),
            children@.len() == 0,
        ensures
            props_at(all, start + 1) == (
                Ok::<(Seq<(Seq<char>, Seq<TokenModel>)>, bool), ErrorModel>(
                    (props_view(props@), false),
                ),
                iter.pos(),
            ),
        decreases all.len() - iter.pos(),
    {
        let ghost before = props_view(props@);
        let tt = iter.next();
        if at_punct(&tt, '/') {
            let gt = iter.next();
            match expect_punct(gt, '>') {
                Ok(_) => {},
                Err(err) => {
                    return Err(err);
                },
            }
            // Self-closing tag, no need to parse further
            assert(before + Seq::<(Seq<char>, Seq<TokenModel>)>::empty() =~= before);
            assert(nodes_view(children@) =~= Seq::empty());
            return Ok(Element { tag, props, children });
        }
        if at_punct(&tt, '>') {
            assert(before + Seq::<(Seq<char>, Seq<TokenModel>)>::empty() =~= before);
            break ;
        }
        match tt {
            Some(Token::Ident { name, .. }) => {
                let eq = iter.next();
                match expect_punct(eq, '=') {
                    Ok(_) => {},
                    Err(err) => {
                        return Err(err);
                    },
                }
                let value = iter.next();
                match value {
                    Some(value) => {
                        let mut tokens: Vec<Token> = Vec::new();
                        tokens.push(value);
                        assert(stream_view(tokens@) =~= seq![value@]);
                        props.push((name, tokens));
                        assert(props_view(props@) =~= before.push((name@, seq![value@])));
                        assert forall|more: Seq<(Seq<char>, Seq<TokenModel>)>|
                            before + (seq![(name@, seq![value@])] + more) == props_view(
                                props@,
                            ) + more by {
                            assert(before + (seq![(name@, seq![value@])] + more) =~= props_view(
                                props@,
                            ) + more);
                        }
                    },
                    tt => {
                        return Err(ParseError::from(tt));
                    },
                }
            },
            tt => {
                return Err(ParseError::from_tt("Expected identifier, /, or >", tt));
            },
        }
    }

    let ghost inside = iter.pos();
    assert(nodes_view(children@) =~= Seq::empty());

    // Children loop
    loop
        invariant_except_break
            children_at(all, inside) == with_nodes(
                nodes_view(children@),
                children_at(all, iter.pos()),
            ),
        invariant
            all == old(iter).tokens(),
            start == old(iter).pos(),
            ident_of(token_at(all, start)) matches Ok(found) && found.0 == tag@,
            props_at(all, start + 1) == (
                Ok::<(Seq<(Seq<char>, Seq<TokenModel>)>, bool), ErrorModel>(
                    (props_view(props@), false),
                ),
                inside,
            ),
            iter.tokens() == all,
            0 <= start < inside <= iter.pos() <= all.len(),
        ensures
            children_at(all, inside) == (
                Ok::<Seq<NodeModel>, ErrorModel>(nodes_view(children@)),
                iter.pos(),
            ),
        decreases all.len() - iter.pos(),
    {
        let ghost before = nodes_view(children@);
        proof {
            lemma_node_bounds(all, iter.pos());
        }
        let child = parse_node(iter);
        match child {
            Ok(child) => {
                children.push(child);
                assert(nodes_view(children@) =~= before.push(child@));
                assert forall|more: Seq<NodeModel>|
                    before + (seq![child@] + more) == nodes_view(children@) + more by {
                    assert(before + (seq![child@] + more) =~= nodes_view(children@)
                        + more);
                }
            },
            Err(err) => {
                if at_punct(&err.tt, '/') {
                    assert(before + Seq::<NodeModel>::empty() =~= before);
                    break ;
                } else {
                    return Err(err);
                }
            },
        }
    }

    let ghost closing = iter.pos();
    let tt = iter.next();
    let (name, span) = match expect_ident(tt) {
        Ok(found) => found,
        Err(err) => {
            return Err(err);
        },
    };

    if name != tag {
        let mut msg = String::from_str("Expected a closing tag for ");
        msg.append(tag.as_str());
        msg.append(", but got ");
        msg.append(name.as_str());
        msg.append(" instead");
        return Err(ParseError::new(msg.as_str(), span));
    }

    let gt = iter.next();
    match expect_punct(gt, '>') {
        Ok(_) => {},
        Err(err) => {
            return Err(err);
        },
    }

    Ok(Element { tag, props, children })
}

/// Nothing where `tt` is the punctuation character `expect`, else the error for it.
pub fn expect_punct(tt: Option<Token>, expect: char) -> (res: Result<(), ParseError>)
    ensures
        punct_result_view(res) == punct_of(token_view(tt), expect),
{
    match tt {
        Some(Token::Punct { ch, .. }) if ch == expect => Ok(()),
        tt => {
            let mut msg = String::from_str("Expected ");
            msg.push(expect);
            Err(ParseError::from_tt(msg.as_str(), tt))
        },
    }
}

/// The name and place of `tt` where it is an identifier, else the error for it.
pub fn expect_ident(tt: Option<Token>) -> (res: Result<(String, Span), ParseError>)
    ensures
        ident_result_view(res) == ident_of(token_view(tt)),
{
    match tt {
        Some(Token::Ident { name, span }) => Ok((name, span)),
        tt => Err(ParseError::from_tt("Expected identifier", tt)),
    }
}

} // verus!
