use kobold::dom::{Element, Node};
use kobold::error::ParseError;
use kobold::parser::{expect_ident, expect_punct, parse, parse_element, parse_node};
use kobold::render::render;
use kobold::token::{at_punct, Delimiter, Literal, Spacing, Span, Token, TokenIter};

fn punct(ch: char, at: usize) -> Token {
    Token::Punct { ch, spacing: Spacing::Alone, span: Span::Source(at) }
}

fn ident(name: &str, at: usize) -> Token {
    Token::Ident { name: name.to_string(), span: Span::Source(at) }
}

fn lit(text: &str, at: usize) -> Token {
    Token::Literal { lit: Literal::Verbatim(text.to_string()), span: Span::Source(at) }
}

fn braces(stream: Vec<Token>, at: usize) -> Token {
    Token::Group { delimiter: Delimiter::Brace, stream, span: Span::Source(at) }
}

fn element(tag: &str, props: Vec<(String, Vec<Token>)>, children: Vec<Node>) -> Node {
    Node::Element(Element { tag: tag.to_string(), props, children })
}

fn error(msg: &str, span: Span, tt: Option<Token>) -> ParseError {
    let exhausted = tt.is_none();
    ParseError { msg: msg.to_string(), span, tt, exhausted }
}

fn mismatch(tag: &str, other: &str, at: usize) -> ParseError {
    ParseError {
        msg: format!("Expected a closing tag for {}, but got {} instead", tag, other),
        span: Span::Source(at),
        tt: None,
        exhausted: false,
    }
}

#[test]
fn parses_an_element_with_a_closing_tag() {
    let tokens = vec![
        punct('<', 0),
        ident("div", 1),
        punct('>', 2),
        punct('<', 3),
        punct('/', 4),
        ident("div", 5),
        punct('>', 6),
    ];
    assert_eq!(parse(tokens), Ok(element("div", vec![], vec![])));
}

#[test]
fn parses_a_self_closing_element() {
    let tokens = vec![punct('<', 0), ident("br", 1), punct('/', 2), punct('>', 3)];
    assert_eq!(parse(tokens), Ok(element("br", vec![], vec![])));
}

#[test]
fn self_closing_element_leaves_what_follows() {
    let tokens = vec![
        ident("input", 1),
        ident("value", 2),
        punct('=', 3),
        lit("\"x\"", 4),
        punct('/', 5),
        punct('>', 6),
        punct('<', 7),
        punct('/', 8),
        ident("input", 9),
        punct('>', 10),
    ];
    let mut iter = TokenIter::new(tokens);
    let parsed = parse_element(&mut iter);
    assert_eq!(
        parsed,
        Ok(Element {
            tag: "input".to_string(),
            props: vec![("value".to_string(), vec![lit("\"x\"", 4)])],
            children: vec![],
        })
    );
    assert_eq!(iter.next(), Some(punct('<', 7)));
    assert_eq!(iter.next(), Some(punct('/', 8)));
    assert_eq!(iter.next(), Some(ident("input", 9)));
    assert_eq!(iter.next(), Some(punct('>', 10)));
    assert_eq!(iter.next(), None);
}

#[test]
fn keeps_properties_in_order_and_duplicates() {
    let tokens = vec![
        punct('<', 0),
        ident("input", 1),
        ident("class", 2),
        punct('=', 3),
        lit("\"a\"", 4),
        ident("value", 5),
        punct('=', 6),
        braces(vec![ident("state", 7), punct('.', 8), ident("name", 9)], 10),
        ident("class", 11),
        punct('=', 12),
        ident("b", 13),
        punct('/', 14),
        punct('>', 15),
    ];
    assert_eq!(
        parse(tokens),
        Ok(element(
            "input",
            vec![
                ("class".to_string(), vec![lit("\"a\"", 4)]),
                (
                    "value".to_string(),
                    vec![braces(vec![ident("state", 7), punct('.', 8), ident("name", 9)], 10)],
                ),
                ("class".to_string(), vec![ident("b", 13)]),
            ],
            vec![],
        ))
    );
}

#[test]
fn parses_children_of_every_kind() {
    // <p>"hello" {name} <b>"x"</b> <br/></p>
    let tokens = vec![
        punct('<', 0),
        ident("p", 1),
        punct('>', 2),
        lit("\"hello\"", 3),
        braces(vec![ident("name", 4)], 5),
        punct('<', 6),
        ident("b", 7),
        punct('>', 8),
        lit("\"x\"", 9),
        punct('<', 10),
        punct('/', 11),
        ident("b", 12),
        punct('>', 13),
        punct('<', 14),
        ident("br", 15),
        punct('/', 16),
        punct('>', 17),
        punct('<', 18),
        punct('/', 19),
        ident("p", 20),
        punct('>', 21),
    ];
    assert_eq!(
        parse(tokens),
        Ok(element(
            "p",
            vec![],
            vec![
                Node::Text(vec![lit("\"hello\"", 3)]),
                Node::Expression(vec![ident("name", 4)]),
                element("b", vec![], vec![Node::Text(vec![lit("\"x\"", 9)])]),
                element("br", vec![], vec![]),
            ],
        ))
    );
}

#[test]
fn parses_an_expression() {
    let inner = vec![ident("a", 0), punct('+', 1), ident("b", 2)];
    let tokens = vec![braces(inner, 3)];
    assert_eq!(
        parse(tokens),
        Ok(Node::Expression(vec![ident("a", 0), punct('+', 1), ident("b", 2)]))
    );
}

#[test]
fn keeps_a_string_literal_as_it_is() {
    assert_eq!(parse(vec![lit("\"hi\"", 7)]), Ok(Node::Text(vec![lit("\"hi\"", 7)])));
}

#[test]
fn keeps_a_character_literal_as_it_is() {
    assert_eq!(parse(vec![lit("'c'", 2)]), Ok(Node::Text(vec![lit("'c'", 2)])));
}

#[test]
fn quotes_a_number_literal() {
    assert_eq!(
        parse(vec![lit("42", 7)]),
        Ok(Node::Text(vec![Token::Literal {
            lit: Literal::Quoted("42".to_string()),
            span: Span::CallSite,
        }]))
    );
}

#[test]
fn quotes_a_byte_string_literal() {
    assert_eq!(
        parse(vec![lit("b\"raw\"", 1)]),
        Ok(Node::Text(vec![Token::Literal {
            lit: Literal::Quoted("b\"raw\"".to_string()),
            span: Span::CallSite,
        }]))
    );
}

#[test]
fn keeps_a_literal_given_by_its_value() {
    let token = Token::Literal { lit: Literal::Quoted("1.5".to_string()), span: Span::Source(3) };
    let same = Token::Literal { lit: Literal::Quoted("1.5".to_string()), span: Span::Source(3) };
    assert_eq!(parse(vec![token]), Ok(Node::Text(vec![same])));
}

#[test]
fn quotes_an_empty_literal() {
    assert_eq!(
        parse(vec![lit("", 0)]),
        Ok(Node::Text(vec![Token::Literal {
            lit: Literal::Quoted(String::new()),
            span: Span::CallSite,
        }]))
    );
}

#[test]
fn two_siblings_make_a_fragment() {
    let tokens = vec![
        punct('<', 0),
        ident("a", 1),
        punct('/', 2),
        punct('>', 3),
        lit("\"t\"", 4),
    ];
    assert_eq!(
        parse(tokens),
        Ok(Node::Fragment(vec![
            element("a", vec![], vec![]),
            Node::Text(vec![lit("\"t\"", 4)]),
        ]))
    );
}

#[test]
fn four_siblings_make_a_fragment_in_order() {
    let tokens = vec![
        lit("\"1\"", 0),
        braces(vec![ident("x", 1)], 2),
        lit("\"2\"", 3),
        punct('<', 4),
        ident("hr", 5),
        punct('/', 6),
        punct('>', 7),
    ];
    assert_eq!(
        parse(tokens),
        Ok(Node::Fragment(vec![
            Node::Text(vec![lit("\"1\"", 0)]),
            Node::Expression(vec![ident("x", 1)]),
            Node::Text(vec![lit("\"2\"", 3)]),
            element("hr", vec![], vec![]),
        ]))
    );
}

#[test]
fn empty_stream_is_an_error_at_the_call_site() {
    assert_eq!(
        parse(vec![]),
        Err(error("Expected an element, {expression}, or a string literal", Span::CallSite, None))
    );
}

#[test]
fn a_stray_identifier_is_an_error_at_that_identifier() {
    assert_eq!(
        parse(vec![ident("div", 9)]),
        Err(error(
            "Expected an element, {expression}, or a string literal",
            Span::Source(9),
            Some(ident("div", 9)),
        ))
    );
}

#[test]
fn other_brackets_are_no_expression() {
    let group = Token::Group {
        delimiter: Delimiter::Parenthesis,
        stream: vec![ident("x", 0)],
        span: Span::Source(1),
    };
    let same = Token::Group {
        delimiter: Delimiter::Parenthesis,
        stream: vec![ident("x", 0)],
        span: Span::Source(1),
    };
    assert_eq!(
        parse(vec![group]),
        Err(error(
            "Expected an element, {expression}, or a string literal",
            Span::Source(1),
            Some(same),
        ))
    );
}

#[test]
fn a_stray_token_after_the_first_node_is_an_error() {
    let tokens = vec![lit("\"a\"", 0), punct('!', 1)];
    assert_eq!(
        parse(tokens),
        Err(error(
            "Expected an element, {expression}, or a string literal",
            Span::Source(1),
            Some(punct('!', 1)),
        ))
    );
}

#[test]
fn a_stray_token_after_the_second_node_is_an_error() {
    let tokens = vec![lit("\"a\"", 0), lit("\"b\"", 1), ident("c", 2)];
    assert_eq!(
        parse(tokens),
        Err(error(
            "Expected an element, {expression}, or a string literal",
            Span::Source(2),
            Some(ident("c", 2)),
        ))
    );
}

#[test]
fn a_tag_needs_a_name() {
    let tokens = vec![punct('<', 0), punct('>', 1)];
    assert_eq!(
        parse(tokens),
        Err(error("Expected identifier", Span::Source(1), Some(punct('>', 1))))
    );
}

#[test]
fn a_tag_that_ends_early_is_an_error_at_the_call_site() {
    let tokens = vec![punct('<', 0), ident("div", 1)];
    assert_eq!(parse(tokens), Err(error("Expected identifier, /, or >", Span::CallSite, None)));
}

#[test]
fn a_tag_holds_properties_only() {
    let tokens = vec![punct('<', 0), ident("div", 1), lit("\"x\"", 2), punct('>', 3)];
    assert_eq!(
        parse(tokens),
        Err(error("Expected identifier, /, or >", Span::Source(2), Some(lit("\"x\"", 2))))
    );
}

#[test]
fn a_property_needs_an_equals_sign() {
    let tokens = vec![punct('<', 0), ident("div", 1), ident("id", 2), punct('>', 3)];
    assert_eq!(parse(tokens), Err(error("Expected =", Span::Source(3), Some(punct('>', 3)))));
}

#[test]
fn a_property_needs_a_value() {
    let tokens = vec![punct('<', 0), ident("div", 1), ident("id", 2), punct('=', 3)];
    assert_eq!(parse(tokens), Err(error("Unexpected token", Span::CallSite, None)));
}

#[test]
fn a_property_value_is_one_token_of_any_kind() {
    let tokens = vec![
        punct('<', 0),
        ident("div", 1),
        ident("id", 2),
        punct('=', 3),
        punct('/', 4),
        punct('/', 5),
        punct('>', 6),
    ];
    assert_eq!(
        parse(tokens),
        Ok(element("div", vec![("id".to_string(), vec![punct('/', 4)])], vec![]))
    );
}

#[test]
fn a_slash_in_a_tag_needs_its_bracket() {
    let tokens = vec![punct('<', 0), ident("br", 1), punct('/', 2), ident("x", 3)];
    assert_eq!(parse(tokens), Err(error("Expected >", Span::Source(3), Some(ident("x", 3)))));
}

#[test]
fn a_closing_tag_must_name_its_element() {
    let tokens = vec![
        punct('<', 0),
        ident("div", 1),
        punct('>', 2),
        punct('<', 3),
        punct('/', 4),
        ident("span", 5),
        punct('>', 6),
    ];
    assert_eq!(parse(tokens), Err(mismatch("div", "span", 5)));
}

#[test]
fn a_mismatch_deep_inside_is_reported() {
    // <a><b><c></d></b></a>
    let tokens = vec![
        punct('<', 0),
        ident("a", 1),
        punct('>', 2),
        punct('<', 3),
        ident("b", 4),
        punct('>', 5),
        punct('<', 6),
        ident("c", 7),
        punct('>', 8),
        punct('<', 9),
        punct('/', 10),
        ident("d", 11),
        punct('>', 12),
        punct('<', 13),
        punct('/', 14),
        ident("b", 15),
        punct('>', 16),
        punct('<', 17),
        punct('/', 18),
        ident("a", 19),
        punct('>', 20),
    ];
    assert_eq!(parse(tokens), Err(mismatch("c", "d", 11)));
}

#[test]
fn a_mismatch_in_the_second_sibling_is_reported() {
    // <a/><div></span>
    let tokens = vec![
        punct('<', 0),
        ident("a", 1),
        punct('/', 2),
        punct('>', 3),
        punct('<', 4),
        ident("div", 5),
        punct('>', 6),
        punct('<', 7),
        punct('/', 8),
        ident("span", 9),
        punct('>', 10),
    ];
    assert_eq!(parse(tokens), Err(mismatch("div", "span", 9)));
}

#[test]
fn a_mismatch_at_the_very_end_is_reported() {
    // <a/><div></span
    let tokens = vec![
        punct('<', 0),
        ident("a", 1),
        punct('/', 2),
        punct('>', 3),
        punct('<', 4),
        ident("div", 5),
        punct('>', 6),
        punct('<', 7),
        punct('/', 8),
        ident("span", 9),
    ];
    assert_eq!(parse(tokens), Err(mismatch("div", "span", 9)));
}

#[test]
fn a_mismatch_in_a_later_sibling_is_reported() {
    // <a/><b/><c><e></d></c>
    let tokens = vec![
        punct('<', 0),
        ident("a", 1),
        punct('/', 2),
        punct('>', 3),
        punct('<', 4),
        ident("b", 5),
        punct('/', 6),
        punct('>', 7),
        punct('<', 8),
        ident("c", 9),
        punct('>', 10),
        punct('<', 11),
        ident("e", 12),
        punct('>', 13),
        punct('<', 14),
        punct('/', 15),
        ident("d", 16),
        punct('>', 17),
        punct('<', 18),
        punct('/', 19),
        ident("c", 20),
        punct('>', 21),
    ];
    assert_eq!(parse(tokens), Err(mismatch("e", "d", 16)));
}

#[test]
fn a_sibling_that_the_end_cuts_short_ends_the_input() {
    // <a/><b
    let tokens = vec![
        punct('<', 0),
        ident("a", 1),
        punct('/', 2),
        punct('>', 3),
        punct('<', 4),
        ident("b", 5),
    ];
    assert_eq!(parse(tokens), Ok(element("a", vec![], vec![])));
    // "x" "y" <b
    let tokens = vec![lit("\"x\"", 0), lit("\"y\"", 1), punct('<', 2), ident("b", 3)];
    assert_eq!(
        parse(tokens),
        Ok(Node::Fragment(vec![
            Node::Text(vec![lit("\"x\"", 0)]),
            Node::Text(vec![lit("\"y\"", 1)]),
        ]))
    );
}

#[test]
fn quotes_a_bool_literal() {
    assert_eq!(
        parse(vec![lit("true", 3)]),
        Ok(Node::Text(vec![Token::Literal {
            lit: Literal::Quoted("true".to_string()),
            span: Span::CallSite,
        }]))
    );
}

#[test]
fn only_the_end_of_the_stream_is_exhaustion() {
    assert!(ParseError::from(None).exhausted);
    assert!(ParseError::from_tt("Nope", None).exhausted);
    assert!(!ParseError::from(Some(punct('?', 5))).exhausted);
    assert!(!ParseError::from_tt("Nope", Some(ident("x", 1))).exhausted);
    assert!(!ParseError::new("Some message", Span::CallSite).exhausted);
}

#[test]
fn a_closing_tag_needs_a_name() {
    let tokens =
        vec![punct('<', 0), ident("a", 1), punct('>', 2), punct('<', 3), punct('/', 4), punct('>', 5)];
    assert_eq!(
        parse(tokens),
        Err(error("Expected identifier", Span::Source(5), Some(punct('>', 5))))
    );
}

#[test]
fn a_closing_tag_needs_its_bracket() {
    let tokens =
        vec![punct('<', 0), ident("a", 1), punct('>', 2), punct('<', 3), punct('/', 4), ident("a", 5)];
    assert_eq!(parse(tokens), Err(error("Expected >", Span::CallSite, None)));
}

#[test]
fn an_element_that_is_never_closed_is_an_error() {
    let tokens = vec![punct('<', 0), ident("a", 1), punct('>', 2), lit("\"x\"", 3)];
    assert_eq!(
        parse(tokens),
        Err(error("Expected an element, {expression}, or a string literal", Span::CallSite, None))
    );
}

#[test]
fn a_lone_slash_ends_the_children() {
    // <a> "x" / a >
    let tokens = vec![
        punct('<', 0),
        ident("a", 1),
        punct('>', 2),
        lit("\"x\"", 3),
        punct('/', 4),
        ident("a", 5),
        punct('>', 6),
    ];
    assert_eq!(
        parse(tokens),
        Ok(element("a", vec![], vec![Node::Text(vec![lit("\"x\"", 3)])]))
    );
}

#[test]
fn parse_node_takes_one_node() {
    let mut iter = TokenIter::new(vec![lit("\"a\"", 0), lit("\"b\"", 1)]);
    assert_eq!(parse_node(&mut iter), Ok(Node::Text(vec![lit("\"a\"", 0)])));
    assert_eq!(parse_node(&mut iter), Ok(Node::Text(vec![lit("\"b\"", 1)])));
    assert_eq!(
        parse_node(&mut iter),
        Err(error("Expected an element, {expression}, or a string literal", Span::CallSite, None))
    );
}

#[test]
fn parse_node_takes_the_token_it_rejects() {
    let mut iter = TokenIter::new(vec![punct('/', 0), lit("\"b\"", 1)]);
    assert_eq!(
        parse_node(&mut iter),
        Err(error(
            "Expected an element, {expression}, or a string literal",
            Span::Source(0),
            Some(punct('/', 0)),
        ))
    );
    assert_eq!(iter.next(), Some(lit("\"b\"", 1)));
}

#[test]
fn expect_punct_accepts_the_character() {
    assert_eq!(expect_punct(Some(punct('=', 0)), '='), Ok(()));
}

#[test]
fn expect_punct_rejects_another_character() {
    assert_eq!(
        expect_punct(Some(punct('>', 4)), '='),
        Err(error("Expected =", Span::Source(4), Some(punct('>', 4))))
    );
}

#[test]
fn expect_punct_rejects_the_end() {
    assert_eq!(expect_punct(None, '>'), Err(error("Expected >", Span::CallSite, None)));
}

#[test]
fn expect_ident_gives_name_and_place() {
    assert_eq!(expect_ident(Some(ident("ul", 8))), Ok(("ul".to_string(), Span::Source(8))));
}

#[test]
fn expect_ident_rejects_a_literal() {
    assert_eq!(
        expect_ident(Some(lit("1", 2))),
        Err(error("Expected identifier", Span::Source(2), Some(lit("1", 2))))
    );
}

#[test]
fn expect_ident_rejects_the_end() {
    assert_eq!(expect_ident(None), Err(error("Expected identifier", Span::CallSite, None)));
}

#[test]
fn error_new_names_no_token() {
    assert_eq!(
        ParseError::new("Some message", Span::Source(3)),
        ParseError {
            msg: "Some message".to_string(),
            span: Span::Source(3),
            tt: None,
            exhausted: false,
        }
    );
}

#[test]
fn error_from_tt_stands_at_the_token() {
    assert_eq!(
        ParseError::from_tt("Nope", Some(ident("x", 12))),
        error("Nope", Span::Source(12), Some(ident("x", 12)))
    );
    assert_eq!(ParseError::from_tt("Nope", None), error("Nope", Span::CallSite, None));
}

#[test]
fn error_from_a_token_is_unexpected_token() {
    assert_eq!(
        ParseError::from(Some(punct('?', 5))),
        error("Unexpected token", Span::Source(5), Some(punct('?', 5)))
    );
    assert_eq!(ParseError::from(None), error("Unexpected token", Span::CallSite, None));
}

#[test]
fn error_tokenizes_to_a_failing_function() {
    let at = Span::Source(6);
    let tokens = ParseError::new("Expected identifier", at).tokenize();
    let expected = vec![
        Token::Ident { name: "fn".to_string(), span: at },
        Token::Ident { name: "_parse_error".to_string(), span: at },
        Token::Group { delimiter: Delimiter::Parenthesis, stream: vec![], span: at },
        Token::Group {
            delimiter: Delimiter::Brace,
            stream: vec![
                Token::Ident { name: "compile_error".to_string(), span: at },
                Token::Punct { ch: '!', spacing: Spacing::Alone, span: at },
                Token::Group {
                    delimiter: Delimiter::Parenthesis,
                    stream: vec![Token::Literal {
                        lit: Literal::Quoted("Expected identifier".to_string()),
                        span: at,
                    }],
                    span: at,
                },
            ],
            span: at,
        },
    ];
    assert_eq!(tokens, expected);
}

#[test]
fn cursor_hands_tokens_out_in_order() {
    let mut iter = TokenIter::new(vec![ident("a", 0), ident("b", 1), ident("c", 2)]);
    assert_eq!(iter.next(), Some(ident("a", 0)));
    assert_eq!(iter.next(), Some(ident("b", 1)));
    assert_eq!(iter.next(), Some(ident("c", 2)));
    assert_eq!(iter.next(), None);
    assert_eq!(iter.next(), None);
}

#[test]
fn token_clone_is_deep() {
    let token = braces(vec![ident("a", 0), braces(vec![lit("1", 1)], 2)], 3);
    assert_eq!(token.clone(), token);
}

#[test]
fn token_span_is_its_own() {
    assert_eq!(punct('<', 4).span(), Span::Source(4));
    assert_eq!(ident("a", 5).span(), Span::Source(5));
    assert_eq!(lit("1", 6).span(), Span::Source(6));
    assert_eq!(braces(vec![ident("a", 0)], 7).span(), Span::Source(7));
}

#[test]
fn literal_is_quoted_by_its_first_character() {
    assert!(Literal::Verbatim("\"a\"".to_string()).is_quoted());
    assert!(Literal::Verbatim("'a'".to_string()).is_quoted());
    assert!(!Literal::Verbatim("1".to_string()).is_quoted());
    assert!(!Literal::Verbatim("r\"a\"".to_string()).is_quoted());
    assert!(!Literal::Verbatim(String::new()).is_quoted());
    assert!(Literal::Quoted("1".to_string()).is_quoted());
}

#[test]
fn at_punct_tells_the_character() {
    assert!(at_punct(&Some(punct('/', 0)), '/'));
    assert!(!at_punct(&Some(punct('>', 0)), '/'));
    assert!(!at_punct(&Some(ident("a", 0)), '/'));
    assert!(!at_punct(&None, '/'));
}

fn written(ch: char) -> Token {
    Token::Punct { ch, spacing: Spacing::Alone, span: Span::CallSite }
}

fn name(name: &str) -> Token {
    Token::Ident { name: name.to_string(), span: Span::CallSite }
}

fn sample_tree() -> Node {
    element(
        "ul",
        vec![
            ("class".to_string(), vec![lit("\"menu\"", 1)]),
            ("onclick".to_string(), vec![braces(vec![ident("go", 2)], 3)]),
        ],
        vec![
            element("li", vec![], vec![Node::Text(vec![lit("\"one\"", 4)])]),
            Node::Expression(vec![ident("rest", 5), punct('.', 6), ident("list", 7)]),
            element("hr", vec![], vec![]),
        ],
    )
}

#[test]
fn render_writes_the_canonical_tokens() {
    let expected = vec![
        written('<'),
        name("ul"),
        name("class"),
        written('='),
        lit("\"menu\"", 1),
        name("onclick"),
        written('='),
        braces(vec![ident("go", 2)], 3),
        written('>'),
        written('<'),
        name("li"),
        written('>'),
        lit("\"one\"", 4),
        written('<'),
        written('/'),
        name("li"),
        written('>'),
        Token::Group {
            delimiter: Delimiter::Brace,
            stream: vec![ident("rest", 5), punct('.', 6), ident("list", 7)],
            span: Span::CallSite,
        },
        written('<'),
        name("hr"),
        written('/'),
        written('>'),
        written('<'),
        written('/'),
        name("ul"),
        written('>'),
    ];
    assert_eq!(render(&sample_tree()), expected);
}

#[test]
fn parsing_what_was_rendered_gives_the_tree_back() {
    assert_eq!(parse(render(&sample_tree())), Ok(sample_tree()));
}

#[test]
fn parsing_a_rendered_fragment_gives_it_back() {
    let fragment = Node::Fragment(vec![
        sample_tree(),
        Node::Text(vec![lit("'x'", 0)]),
        Node::Expression(vec![]),
        sample_tree(),
    ]);
    let same = Node::Fragment(vec![
        sample_tree(),
        Node::Text(vec![lit("'x'", 0)]),
        Node::Expression(vec![]),
        sample_tree(),
    ]);
    assert_eq!(parse(render(&fragment)), Ok(same));
}

#[test]
fn an_element_without_children_is_rendered_closing_itself() {
    let tokens = vec![
        punct('<', 0),
        ident("div", 1),
        punct('>', 2),
        punct('<', 3),
        punct('/', 4),
        ident("div", 5),
        punct('>', 6),
    ];
    let parsed = parse(tokens).unwrap();
    assert_eq!(render(&parsed), vec![written('<'), name("div"), written('/'), written('>')]);
    assert_eq!(parse(render(&parsed)), Ok(element("div", vec![], vec![])));
}

#[test]
fn text_that_was_quoted_by_the_parser_is_given_back() {
    let parsed = parse(vec![lit("42", 0)]).unwrap();
    let again = parse(render(&parsed)).unwrap();
    assert_eq!(again, parsed);
}
