//! The one error of the markup parser.

use crate::token::{
    lemma_group_view, stream_view, token_view, Delimiter, Literal, LiteralModel, Spacing, Span,
    Token, TokenModel,
};
use vstd::prelude::*;
use vstd::string::StringExecFns;

verus! {

/// A syntax error: what was expected, where, and the token that stood there instead.
///
/// The token is missing where the stream ended too early, and where the error is not about
/// one token. The two are told apart by `exhausted`.
#[derive(Debug, PartialEq, Eq)]
pub struct ParseError {
    pub msg: String,
    pub span: Span,
    pub tt: Option<Token>,
    /// Whether the error is that the stream had no token left where one was looked for.
    pub exhausted: bool,
}

/// The mathematical value of a [`ParseError`].
pub struct ErrorModel {
    pub msg: Seq<char>,
    pub span: Span,
    pub tt: Option<TokenModel>,
    pub exhausted: bool,
}

impl ErrorModel {
    /// An error at `span` that names no token, and that is not about the stream's end.
    pub open spec fn new(msg: Seq<char>, span: Span) -> ErrorModel {
        ErrorModel { msg, span, tt: None, exhausted: false }
    }

    /// The error for what stood where something else was looked for: it stands at the
    /// token, or, where the stream has ended and no token was left, at the call site.
    pub open spec fn unexpected(tt: Option<TokenModel>) -> ErrorModel {
        ErrorModel {
            msg: "Unexpected token"@,
            span: match tt {
                Some(token) => token.span(),
                None => Span::CallSite,
            },
            tt,
            exhausted: tt is None,
        }
    }

    /// The error for `tt` with a message of its own.
    pub open spec fn from_tt(msg: Seq<char>, tt: Option<TokenModel>) -> ErrorModel {
        ErrorModel { msg, span: Self::unexpected(tt).span, tt, exhausted: tt is None }
    }

    /// Whether the error is about a `/`, which is how a closing tag begins.
    pub open spec fn at_slash(self) -> bool {
        match self.tt {
            Some(token) => token.is_punct('/'),
            None => false,
        }
    }

    /// The tokens that report the error to the compiler: a function whose body fails to
    /// compile with the error's message, every token of it at the error's place.
    pub open spec fn diagnostic(self) -> Seq<TokenModel> {
        let span = self.span;
        let argument = seq![TokenModel::Literal { lit: LiteralModel::Quoted(self.msg), span }];
        let body = seq![
            TokenModel::Ident { name: "compile_error"@, span },
            TokenModel::Punct { ch: '!', spacing: Spacing::Alone, span },
            TokenModel::Group { delimiter: Delimiter::Parenthesis, stream: argument, span },
        ];
        seq![
            TokenModel::Ident { name: "fn"@, span },
            TokenModel::Ident { name: "_parse_error"@, span },
            TokenModel::Group { delimiter: Delimiter::Parenthesis, stream: Seq::empty(), span },
            TokenModel::Group { delimiter: Delimiter::Brace, stream: body, span },
        ]
    }
}

impl View for ParseError {
    type V = ErrorModel;

    open spec fn view(&self) -> ErrorModel {
        ErrorModel {
            msg: self.msg@,
            span: self.span,
            tt: token_view(self.tt),
            exhausted: self.exhausted,
        }
    }
}

impl ParseError {
    /// An error at `span` that names no token, and that is not about the stream's end.
    pub fn new(msg: &str, span: Span) -> (err: ParseError)
        ensures
            err@ == ErrorModel::new(msg@, span),
    {
        ParseError { msg: String::from_str(msg), span, tt: None, exhausted: false }
    }

    /// The error for `tt` with the message `msg`.
    pub fn from_tt(msg: &str, tt: Option<Token>) -> (err: ParseError)
        ensures
            err@ == ErrorModel::from_tt(msg@, token_view(tt)),
    {
        let mut error = ParseError::from(tt);
        error.msg = String::from_str(msg);
        error
    }

    /// The tokens that report the error to the compiler.
    pub fn tokenize(self) -> (tokens: Vec<Token>)
        ensures
            stream_view(tokens@) == self@.diagnostic(),
    {
        let span = self.span;
        let mut argument: Vec<Token> = Vec::new();
        argument.push(Token::Literal { lit: Literal::Quoted(self.msg), span });
        let mut body: Vec<Token> = Vec::new();
        body.push(Token::Ident { name: String::from_str("compile_error"), span });
        body.push(Token::Punct { ch: '!', spacing: Spacing::Alone, span });
        proof {
            lemma_group_view(Delimiter::Parenthesis, argument, span);
        }
        body.push(Token::Group { delimiter: Delimiter::Parenthesis, stream: argument, span });
        let mut tokens: Vec<Token> = Vec::new();
        tokens.push(Token::Ident { name: String::from_str("fn"), span });
        tokens.push(Token::Ident { name: String::from_str("_parse_error"), span });
        let params: Vec<Token> = Vec::new();
        proof {
            lemma_group_view(Delimiter::Parenthesis, params, span);
            lemma_group_view(Delimiter::Brace, body, span);
        }
        tokens.push(Token::Group { delimiter: Delimiter::Parenthesis, stream: params, span });
        tokens.push(Token::Group { delimiter: Delimiter::Brace, stream: body, span });
        assert(stream_view(argument@) =~= seq![
            TokenModel::Literal { lit: LiteralModel::Quoted(self.msg@), span },
        ]);
        assert(stream_view(params@) =~= Seq::empty());
        assert(stream_view(body@) =~= seq![
            TokenModel::Ident { name: "compile_error"@, span },
            TokenModel::Punct { ch: '!', spacing: Spacing::Alone, span },
            TokenModel::Group {
                delimiter: Delimiter::Parenthesis,
                stream: stream_view(argument@),
                span,
            },
        ]);
        assert(stream_view(tokens@) =~= self@.diagnostic());
        tokens
    }
}

impl From<Option<Token>> for ParseError {
    /// The error for what stood where something else was looked for: a token, or the end
    /// of the stream.
    fn from(tt: Option<Token>) -> (err: ParseError)
        ensures
            err@ == ErrorModel::unexpected(token_view(tt)),
    {
        let span = match &tt {
            Some(token) => token.span(),
            None => Span::CallSite,
        };
        let exhausted = tt.is_none();
        ParseError { msg: String::from_str("Unexpected token"), span, tt, exhausted }
    }
}

impl vstd::std_specs::convert::FromSpecImpl<Option<Token>> for ParseError {
    open spec fn obeys_from_spec() -> bool {
        false
    }

    open spec fn from_spec(tt: Option<Token>) -> ParseError {
        arbitrary()
    }
}

} // verus!
