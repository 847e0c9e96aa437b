//! Token streams: what they hold, and how they are read and written.
use crate::derive::member::decimal;
use proc_macro2::{Delimiter, Group, Ident, Literal, Punct, Spacing, Span, TokenStream, TokenTree};
use vstd::prelude::*;

verus! {

/// What encloses a group of tokens.
#[derive(Clone, Copy, PartialEq, Eq, Structural)]
pub enum Delim {
    Paren,
    Brace,
    Bracket,
    /// No visible delimiter: a group that a macro passed through.
    Invisible,
}

/// One token, or a group of tokens between delimiters.
pub enum Token {
    /// An identifier or keyword, as written.
    Ident(Seq<char>),
    /// A punctuation character, and whether the next one belongs to the same operator.
    Punct(char, bool),
    /// A literal, as written.
    Literal(Seq<char>),
    /// A group.
    Group(Delim, Seq<Token>),
}

/// What one token of a stream is.
pub enum Kind {
    Ident(String),
    Punct(char, bool),
    Literal(String),
    Group(Delim, TokenStream),
}

/// One token of a stream that has been taken apart.
pub struct Tree {
    pub kind: Kind,
    /// The token itself.
    pub tokens: TokenStream,
}

/// The token stream of the `proc_macro2` crate.
#[verifier::external_type_specification]
#[verifier::external_body]
pub struct ExTokenStream(TokenStream);

/// The tokens that a stream holds. Where in the source a token stands is no part of it.
pub uninterp spec fn tokens_of(stream: TokenStream) -> Seq<Token>;

impl Tree {
    /// The token.
    pub open spec fn token(self) -> Token {
        match self.kind {
            Kind::Ident(name) => Token::Ident(name@),
            Kind::Punct(ch, joint) => Token::Punct(ch, joint),
            Kind::Literal(text) => Token::Literal(text@),
            Kind::Group(delim, inner) => Token::Group(delim, tokens_of(inner)),
        }
    }
}

/// The tokens of a list.
pub open spec fn tokens_in(trees: Seq<Tree>) -> Seq<Token> {
    Seq::new(trees.len(), |i: int| trees[i].token())
}

/// A character of an ASCII identifier.
pub open spec fn is_word_char(c: char) -> bool {
    'a' <= c <= 'z' || 'A' <= c <= 'Z' || '0' <= c <= '9' || c == '_'
}

/// An ASCII identifier or keyword.
pub open spec fn is_word(s: Seq<char>) -> bool {
    &&& s.len() > 0
    &&& !('0' <= s[0] <= '9')
    &&& forall|i: int| 0 <= i < s.len() ==> is_word_char(#[trigger] s[i])
}

/// The punctuation characters of the language.
pub open spec fn is_punct(c: char) -> bool {
    ||| c == '!' || c == '#' || c == '$' || c == '%' || c == '&' || c == '\'' || c == '*'
    ||| c == '+' || c == ',' || c == '-' || c == '.' || c == '/' || c == ':' || c == ';'
    ||| c == '<' || c == '=' || c == '>' || c == '?' || c == '@' || c == '^' || c == '|'
    ||| c == '~'
}

/// The tokens of `::`.
pub open spec fn path_sep() -> Seq<Token> {
    seq![Token::Punct(':', true), Token::Punct(':', false)]
}

/// `TokenStream::new` gives a stream without tokens.
#[verifier::external_body]
pub(crate) fn empty_stream() -> (stream: TokenStream)
    ensures
        tokens_of(stream) == Seq::<Token>::empty(),
{
    TokenStream::new()
}

/// `TokenStream::is_empty` says whether a stream holds no token.
#[verifier::external_body]
pub(crate) fn is_empty(stream: &TokenStream) -> (empty: bool)
    ensures
        empty == (tokens_of(*stream).len() == 0),
{
    stream.is_empty()
}

/// `TokenStream::extend` with a stream adds that stream's tokens at the end, in order.
#[verifier::external_body]
pub(crate) fn append(stream: &mut TokenStream, other: &TokenStream)
    ensures
        tokens_of(*final(stream)) == tokens_of(*old(stream)) + tokens_of(*other),
{
    stream.extend(other.clone())
}

/// Another stream of the same tokens.
pub(crate) fn copy_of(stream: &TokenStream) -> (copy: TokenStream)
    ensures
        tokens_of(copy) == tokens_of(*stream),
{
    let mut copy = empty_stream();
    append(&mut copy, stream);
    assert(tokens_of(copy) =~= tokens_of(*stream));
    copy
}

/// `Ident::new` makes an identifier that is written as given, and panics on text that is none.
#[verifier::external_body]
pub(crate) fn word(text: &str) -> (stream: TokenStream)
    requires
        is_word(text@),
    ensures
        tokens_of(stream) == seq![Token::Ident(text@)],
{
    TokenStream::from(TokenTree::from(Ident::new(text, Span::call_site())))
}

/// `Punct::new` makes a punctuation character with the given spacing, and panics on a character
/// that is none.
#[verifier::external_body]
pub(crate) fn punct(ch: char, joint: bool) -> (stream: TokenStream)
    requires
        is_punct(ch),
    ensures
        tokens_of(stream) == seq![Token::Punct(ch, joint)],
{
    let spacing = if joint { Spacing::Joint } else { Spacing::Alone };
    TokenStream::from(TokenTree::from(Punct::new(ch, spacing)))
}

/// `Literal::u32_unsuffixed` makes a literal that is the number in decimal notation.
#[verifier::external_body]
pub(crate) fn number(n: u32) -> (stream: TokenStream)
    ensures
        tokens_of(stream) == seq![Token::Literal(decimal(n as nat))],
{
    TokenStream::from(TokenTree::from(Literal::u32_unsuffixed(n)))
}

/// `Group::new` makes one token that holds the given tokens between the given delimiters.
#[verifier::external_body]
pub(crate) fn group(delim: Delim, inner: TokenStream) -> (stream: TokenStream)
    ensures
        tokens_of(stream) == seq![Token::Group(delim, tokens_of(inner))],
{
    let delimiter = match delim {
        Delim::Paren => Delimiter::Parenthesis,
        Delim::Brace => Delimiter::Brace,
        Delim::Bracket => Delimiter::Bracket,
        Delim::Invisible => Delimiter::None,
    };
    TokenStream::from(TokenTree::from(Group::new(delimiter, inner)))
}

/// The iterator of a `TokenStream` hands its tokens out one by one, in order; each makes a stream
/// of that one token.
#[verifier::external_body]
pub(crate) fn trees_of(stream: &TokenStream) -> (trees: Vec<Tree>)
    ensures
        tokens_in(trees@) == tokens_of(*stream),
        forall|i: int|
            0 <= i < trees@.len() ==> tokens_of((#[trigger] trees@[i]).tokens)
                == seq![trees@[i].token()],
{
    let delim = |delimiter: Delimiter| match delimiter {
        Delimiter::Parenthesis => Delim::Paren,
        Delimiter::Brace => Delim::Brace,
        Delimiter::Bracket => Delim::Bracket,
        Delimiter::None => Delim::Invisible,
    };
    let kind = |token: &TokenTree| match token {
        TokenTree::Ident(ident) => Kind::Ident(ident.to_string()),
        TokenTree::Punct(p) => Kind::Punct(p.as_char(), p.spacing() == Spacing::Joint),
        TokenTree::Literal(literal) => Kind::Literal(literal.to_string()),
        TokenTree::Group(group) => Kind::Group(delim(group.delimiter()), group.stream()),
    };
    stream.clone().into_iter().map(|t| Tree { kind: kind(&t), tokens: t.into() }).collect()
}

/// Trees stand for their tokens, one for one and in order.
pub proof fn law_trees_stand_for_their_tokens(trees: Seq<Tree>, i: int)
    requires
        0 <= i < trees.len(),
    ensures
        tokens_in(trees).len() == trees.len(),
        match trees[i].kind {
            Kind::Ident(name) => tokens_in(trees)[i] == Token::Ident(name@),
            Kind::Punct(ch, joint) => tokens_in(trees)[i] == Token::Punct(ch, joint),
            Kind::Literal(text) => tokens_in(trees)[i] == Token::Literal(text@),
            Kind::Group(delim, inner) => tokens_in(trees)[i] == Token::Group(
                delim,
                tokens_of(inner),
            ),
        },
{
}

} // verus!
