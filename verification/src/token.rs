//! Tokens of the markup language, and a cursor that hands them out in order.

use crate::util::reversed;
use vstd::prelude::*;

verus! {

/// Where in the source a token stands.
#[derive(Clone, Copy, Debug, PartialEq, Eq, Structural)]
pub enum Span {
    /// The place where the markup as a whole was written.
    CallSite,
    /// The place with this number in the source.
    Source(usize),
}

/// The brackets around a group of tokens.
#[derive(Clone, Copy, Debug, PartialEq, Eq, Structural)]
pub enum Delimiter {
    Parenthesis,
    Brace,
    Bracket,
    Invisible,
}

/// Whether a punctuation character is joined to the one after it.
#[derive(Clone, Copy, Debug, PartialEq, Eq, Structural)]
pub enum Spacing {
    Alone,
    Joint,
}

/// A literal, either as it was written or as the string that it stands for.
#[derive(Debug, PartialEq, Eq)]
pub enum Literal {
    /// The literal's text as it stands in the source, quotes and suffix included. The truth
    /// values `true` and `false` are literals too.
    Verbatim(String),
    /// A string literal given by its value, which is written in double quotes.
    Quoted(String),
}

/// One token tree.
#[derive(Debug, PartialEq, Eq)]
pub enum Token {
    Punct { ch: char, spacing: Spacing, span: Span },
    Ident { name: String, span: Span },
    Literal { lit: Literal, span: Span },
    Group { delimiter: Delimiter, stream: Vec<Token>, span: Span },
}

/// The mathematical value of a [`Literal`].
pub enum LiteralModel {
    Verbatim(Seq<char>),
    Quoted(Seq<char>),
}

/// The mathematical value of a [`Token`].
pub enum TokenModel {
    Punct { ch: char, spacing: Spacing, span: Span },
    Ident { name: Seq<char>, span: Span },
    Literal { lit: LiteralModel, span: Span },
    Group { delimiter: Delimiter, stream: Seq<TokenModel>, span: Span },
}

impl View for Literal {
    type V = LiteralModel;

    open spec fn view(&self) -> LiteralModel {
        match self {
            Literal::Verbatim(text) => LiteralModel::Verbatim(text@),
            Literal::Quoted(value) => LiteralModel::Quoted(value@),
        }
    }
}

impl View for Token {
    type V = TokenModel;

    open spec fn view(&self) -> TokenModel
        decreases self,
    {
        match self {
            Token::Punct { ch, spacing, span } => TokenModel::Punct {
                ch: *ch,
                spacing: *spacing,
                span: *span,
            },
            Token::Ident { name, span } => TokenModel::Ident { name: name@, span: *span },
            Token::Literal { lit, span } => TokenModel::Literal { lit: lit@, span: *span },
            Token::Group { delimiter, stream, span } => TokenModel::Group {
                delimiter: *delimiter,
                stream: Seq::new(
                    stream@.len(),
                    |i: int|
                        if 0 <= i < stream@.len() {
                            stream@[i]@
                        } else {
                            arbitrary()
                        },
                ),
                span: *span,
            },
        }
    }
}

/// The values of a run of tokens, in order.
pub open spec fn stream_view(tokens: Seq<Token>) -> Seq<TokenModel> {
    Seq::new(tokens.len(), |i: int| tokens[i]@)
}

/// The value of a group holds the values of the tokens in it.
pub proof fn lemma_group_view(delimiter: Delimiter, stream: Vec<Token>, span: Span)
    ensures
        (Token::Group { delimiter, stream, span })@ == (TokenModel::Group {
            delimiter,
            stream: stream_view(stream@),
            span,
        }),
{
    reveal_with_fuel(<Token as View>::view, 2);
    assert((Token::Group { delimiter, stream, span })@->stream =~= stream_view(stream@));
}

impl LiteralModel {
    /// Whether the literal, written out, begins with a double or a single quote.
    pub open spec fn is_quoted(self) -> bool {
        match self {
            LiteralModel::Verbatim(text) => text.len() > 0 && (text[0] == '"' || text[0] == '\''),
            LiteralModel::Quoted(_) => true,
        }
    }

    /// The characters that the literal holds: its text as written, or the value that it quotes.
    pub open spec fn chars(self) -> Seq<char> {
        match self {
            LiteralModel::Verbatim(text) => text,
            LiteralModel::Quoted(value) => value,
        }
    }
}

impl TokenModel {
    /// The token's place in the source.
    pub open spec fn span(self) -> Span {
        match self {
            TokenModel::Punct { span, .. } => span,
            TokenModel::Ident { span, .. } => span,
            TokenModel::Literal { span, .. } => span,
            TokenModel::Group { span, .. } => span,
        }
    }

    /// Whether the token is the punctuation character `ch`.
    pub open spec fn is_punct(self, ch: char) -> bool {
        self matches TokenModel::Punct { ch: c, .. } && c == ch
    }
}

impl Clone for Literal {
    fn clone(&self) -> (copy: Literal)
        ensures
            copy@ == self@,
    {
        match self {
            Literal::Verbatim(text) => Literal::Verbatim(text.clone()),
            Literal::Quoted(value) => Literal::Quoted(value.clone()),
        }
    }
}

impl Clone for Token {
    fn clone(&self) -> (copy: Token)
        ensures
            copy@ == self@,
        decreases self,
    {
        match self {
            Token::Punct { ch, spacing, span } => Token::Punct {
                ch: *ch,
                spacing: *spacing,
                span: *span,
            },
            Token::Ident { name, span } => Token::Ident { name: name.clone(), span: *span },
            Token::Literal { lit, span } => Token::Literal { lit: lit.clone(), span: *span },
            Token::Group { delimiter, stream, span } => {
                let mut copies: Vec<Token> = Vec::new();
                let mut i: usize = 0;
                while i < stream.len()
                    invariant
                        *self is Group,
                        self->stream == *stream,
                        i <= stream.len(),
                        copies@.len() == i,
                        forall|j: int| 0 <= j < i ==> copies@[j]@ == stream@[j]@,
                    decreases stream.len() - i,
                {
                    copies.push(stream[i].clone());
                    i += 1;
                }
                let copy = Token::Group { delimiter: *delimiter, stream: copies, span: *span };
                assert(copy@->stream =~= self@->stream);
                copy
            },
        }
    }
}

impl Literal {
    /// Whether the literal, written out, begins with a double or a single quote.
    pub fn is_quoted(&self) -> (quoted: bool)
        ensures
            quoted == self@.is_quoted(),
    {
        match self {
            Literal::Verbatim(text) => {
                if text.as_str().is_empty() {
                    false
                } else {
                    let first = text.as_str().get_char(0);
                    first == '"' || first == '\''
                }
            },
            Literal::Quoted(_) => true,
        }
    }

    /// The characters that the literal holds: its text as written, or the value that it quotes.
    pub fn into_chars(self) -> (chars: String)
        ensures
            chars@ == self@.chars(),
    {
        match self {
            Literal::Verbatim(text) => text,
            Literal::Quoted(value) => value,
        }
    }
}

impl Token {
    /// The token's place in the source.
    pub fn span(&self) -> (span: Span)
        ensures
            span == self@.span(),
    {
        match self {
            Token::Punct { span, .. } => *span,
            Token::Ident { span, .. } => *span,
            Token::Literal { span, .. } => *span,
            Token::Group { span, .. } => *span,
        }
    }
}

/// The value of a token that may be missing.
pub open spec fn token_view(tt: Option<Token>) -> Option<TokenModel> {
    match tt {
        Some(token) => Some(token@),
        None => None,
    }
}

/// The token at place `pos` of `tokens`, if there is one.
pub open spec fn token_at(tokens: Seq<TokenModel>, pos: int) -> Option<TokenModel> {
    if 0 <= pos < tokens.len() {
        Some(tokens[pos])
    } else {
        None
    }
}

/// The place after `pos`, or `pos` itself where no token stands at it.
pub open spec fn step(tokens: Seq<TokenModel>, pos: int) -> int {
    if 0 <= pos < tokens.len() {
        pos + 1
    } else {
        pos
    }
}

/// Whether `tt` is the punctuation character `ch`.
pub fn at_punct(tt: &Option<Token>, ch: char) -> (found: bool)
    ensures
        found == match token_view(*tt) {
            Some(token) => token.is_punct(ch),
            None => false,
        },
{
    match tt {
        Some(Token::Punct { ch: found, .. }) => *found == ch,
        _ => false,
    }
}

/// A cursor over a stream of tokens, which hands them out one by one.
pub struct TokenIter {
    /// The tokens that are still to come, the last of them first.
    rest: Vec<Token>,
    /// The values of the tokens that were handed out, in order.
    taken: Ghost<Seq<TokenModel>>,
}

impl TokenIter {
    /// The whole stream, the tokens that were handed out included.
    pub closed spec fn tokens(&self) -> Seq<TokenModel> {
        self.taken@ + Seq::new(self.rest@.len(), |i: int| self.rest@[self.rest@.len() - 1 - i]@)
    }

    /// How many tokens were handed out.
    pub closed spec fn pos(&self) -> int {
        self.taken@.len() as int
    }

    /// The tokens that are still to come, in order.
    pub open spec fn remaining(&self) -> Seq<TokenModel> {
        self.tokens().skip(self.pos())
    }

    /// A cursor at the start of `tokens`.
    pub fn new(tokens: Vec<Token>) -> (iter: TokenIter)
        ensures
            iter.tokens() == stream_view(tokens@),
            iter.pos() == 0,
    {
        let iter = TokenIter { rest: reversed(tokens), taken: Ghost(Seq::empty()) };
        assert(iter.tokens() =~= stream_view(tokens@));
        iter
    }

    /// Hands out the next token, if one is left.
    pub fn next(&mut self) -> (tt: Option<Token>)
        ensures
            final(self).tokens() == old(self).tokens(),
            0 <= old(self).pos() <= old(self).tokens().len(),
            token_view(tt) == token_at(old(self).tokens(), old(self).pos()),
            final(self).pos() == step(old(self).tokens(), old(self).pos()),
    {
        let tt = self.rest.pop();
        proof {
            if let Some(token) = token_view(tt) {
                self.taken@ = self.taken@.push(token);
            }
            assert(self.tokens() =~= old(self).tokens());
        }
        tt
    }
}

} // verus!
