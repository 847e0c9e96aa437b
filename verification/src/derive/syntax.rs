//! What the `syn` crate reads out of a token stream, as plain data.
use crate::derive::tokens::{path_sep, tokens_of, Delim, Token};
use proc_macro2::{Ident, Span, TokenStream, TokenTree};
use quote::ToTokens;
use syn::parse::{ParseStream, Parser};
use syn::{Data, DeriveInput, Expr, ExprArray, ExprLit, Lit, Meta};
use vstd::prelude::*;

verus! {

/// The error type of the `syn` crate: one or more messages, each with a place in the source.
#[verifier::external_type_specification]
#[verifier::external_body]
pub struct ExError(syn::Error);

/// The fields of a struct or a variant, in the `syn` crate's representation.
#[verifier::external_type_specification]
#[verifier::external_body]
pub struct ExFields(syn::Fields);

/// A place in the source.
#[verifier::external_type_specification]
#[verifier::external_body]
pub struct ExSpan(Span);

/// The messages of an error, in order. The places in the source are no part of it.
pub uninterp spec fn messages_of(error: syn::Error) -> Seq<Seq<char>>;

/// The fields that a list of fields holds, in order.
pub uninterp spec fn fields_of(fields: syn::Fields) -> Seq<FieldSyntax>;

/// What `syn` reads from a token stream as the item under a derive.
pub uninterp spec fn parsed_item(tokens: Seq<Token>) -> Result<ItemSyntax, Seq<Seq<char>>>;

/// What `syn` reads from a token stream as an array expression.
pub uninterp spec fn parsed_array(tokens: Seq<Token>) -> Result<ArraySyntax, Seq<Seq<char>>>;

/// The text that a string literal stands for.
pub uninterp spec fn spelled(literal: Seq<char>) -> Seq<char>;

/// The arguments of an attribute.
pub struct AttrArgs {
    /// What stands between the delimiters.
    pub tokens: TokenStream,
    /// The closing delimiter.
    pub close: Span,
}

/// An attribute of a field.
pub struct Attr {
    /// Its name, where that is a single identifier.
    pub path: Option<String>,
    /// Its arguments, where it has delimiters for them.
    pub args: Option<AttrArgs>,
}

/// What an [`Attr`] stands for.
pub struct AttrSyntax {
    pub path: Option<Seq<char>>,
    pub args: Option<Seq<Token>>,
}

/// A field of a struct or a variant.
pub struct Field {
    /// Its name; a field of a tuple has none.
    pub name: Option<String>,
    /// The token of its name.
    pub ident: TokenStream,
    /// Its type.
    pub ty: TokenStream,
    /// Its attributes, in order.
    pub attrs: Vec<Attr>,
    /// The whole field, attributes and all.
    pub tokens: TokenStream,
}

/// What a [`Field`] stands for.
pub struct FieldSyntax {
    pub name: Option<Seq<char>>,
    pub ty: Seq<Token>,
    pub attrs: Seq<AttrSyntax>,
    pub tokens: Seq<Token>,
}

/// A variant of an enum.
pub struct Variant {
    pub name: TokenStream,
    pub fields: syn::Fields,
}

/// What a [`Variant`] stands for.
pub struct VariantSyntax {
    pub name: Seq<Token>,
    pub fields: Seq<FieldSyntax>,
}

/// What an item is made of.
pub enum Body {
    Struct(syn::Fields),
    Enum(Vec<Variant>),
    Union,
}

/// What a [`Body`] stands for.
pub enum BodySyntax {
    Struct(Seq<FieldSyntax>),
    Enum(Seq<VariantSyntax>),
    Union,
}

/// A struct, enum or union.
pub struct Item {
    pub name: TokenStream,
    /// The generic parameters, as they stand after `impl`.
    pub impl_generics: TokenStream,
    /// The generic arguments, as they stand after the name of the type.
    pub ty_generics: TokenStream,
    /// The predicates of the `where` clause.
    pub predicates: TokenStream,
    pub body: Body,
}

/// What an [`Item`] stands for.
pub struct ItemSyntax {
    pub name: Seq<Token>,
    pub impl_generics: Seq<Token>,
    pub ty_generics: Seq<Token>,
    pub predicates: Seq<Token>,
    pub body: BodySyntax,
}

/// What an element of an array expression is.
pub enum ElemKind {
    /// A path, by the names of its segments.
    Path(Vec<TokenStream>),
    /// An integer literal: its value, or why it is none, and the literal.
    Int(Result<u32, syn::Error>, TokenStream),
    /// Anything else.
    Other,
}

/// What an [`ElemKind`] stands for.
pub enum ElemKindSyntax {
    Path(Seq<Seq<char>>),
    Int(Result<u32, Seq<Seq<char>>>, Seq<Token>),
    Other,
}

/// An element of an array expression.
pub struct Elem {
    pub kind: ElemKind,
    pub tokens: TokenStream,
}

/// What an [`Elem`] stands for.
pub struct ElemSyntax {
    pub kind: ElemKindSyntax,
    pub tokens: Seq<Token>,
}

/// An array expression.
pub struct Array {
    pub elems: Vec<Elem>,
    /// The complaint about a token that is left over within an element.
    pub leftover: Option<syn::Error>,
}

/// What an [`Array`] stands for.
pub struct ArraySyntax {
    pub elems: Seq<ElemSyntax>,
    pub leftover: Option<Seq<Seq<char>>>,
}

/// The text of an optional string.
pub open spec fn text_of(text: Option<String>) -> Option<Seq<char>> {
    match text {
        Some(text) => Some(text@),
        None => None,
    }
}

impl Attr {
    pub open spec fn syntax(self) -> AttrSyntax {
        AttrSyntax {
            path: text_of(self.path),
            args: match self.args {
                Some(args) => Some(tokens_of(args.tokens)),
                None => None,
            },
        }
    }
}

impl Field {
    pub open spec fn syntax(self) -> FieldSyntax {
        FieldSyntax {
            name: text_of(self.name),
            ty: tokens_of(self.ty),
            attrs: Seq::new(self.attrs@.len(), |i: int| self.attrs@[i].syntax()),
            tokens: tokens_of(self.tokens),
        }
    }
}

/// What a list of fields stands for.
pub open spec fn syntax_of(fields: Seq<Field>) -> Seq<FieldSyntax> {
    Seq::new(fields.len(), |i: int| fields[i].syntax())
}

impl Variant {
    pub open spec fn syntax(self) -> VariantSyntax {
        VariantSyntax { name: tokens_of(self.name), fields: fields_of(self.fields) }
    }
}

impl Body {
    pub open spec fn syntax(self) -> BodySyntax {
        match self {
            Body::Struct(fields) => BodySyntax::Struct(fields_of(fields)),
            Body::Enum(variants) => BodySyntax::Enum(
                Seq::new(variants@.len(), |i: int| variants@[i].syntax()),
            ),
            Body::Union => BodySyntax::Union,
        }
    }
}

impl Item {
    pub open spec fn syntax(self) -> ItemSyntax {
        ItemSyntax {
            name: tokens_of(self.name),
            impl_generics: tokens_of(self.impl_generics),
            ty_generics: tokens_of(self.ty_generics),
            predicates: tokens_of(self.predicates),
            body: self.body.syntax(),
        }
    }
}

/// The name that a single token is.
pub open spec fn name_in(tokens: Seq<Token>) -> Seq<char> {
    tokens[0]->Ident_0
}

/// The names of the segments of a path.
pub open spec fn segments_of(segments: Seq<TokenStream>) -> Seq<Seq<char>> {
    Seq::new(segments.len(), |i: int| name_in(tokens_of(segments[i])))
}

/// Each segment is a name.
pub open spec fn segments_match(segments: Seq<TokenStream>) -> bool {
    forall|i: int|
        0 <= i < segments.len() ==> tokens_of(#[trigger] segments[i]) == seq![
            Token::Ident(name_in(tokens_of(segments[i]))),
        ]
}

impl ElemKind {
    pub open spec fn syntax(self) -> ElemKindSyntax {
        match self {
            ElemKind::Path(segments) => ElemKindSyntax::Path(segments_of(segments@)),
            ElemKind::Int(Ok(value), literal) => ElemKindSyntax::Int(
                Ok(value),
                tokens_of(literal),
            ),
            ElemKind::Int(Err(error), literal) => ElemKindSyntax::Int(
                Err(messages_of(error)),
                tokens_of(literal),
            ),
            ElemKind::Other => ElemKindSyntax::Other,
        }
    }

    /// If the element is a path, each of its segments is a name.
    pub open spec fn matches_itself(self) -> bool {
        self matches ElemKind::Path(segments) ==> segments_match(segments@)
    }
}

impl Elem {
    pub open spec fn syntax(self) -> ElemSyntax {
        ElemSyntax { kind: self.kind.syntax(), tokens: tokens_of(self.tokens) }
    }
}

/// What a list of elements stands for.
pub open spec fn elems_of(elems: Seq<Elem>) -> Seq<ElemSyntax> {
    Seq::new(elems.len(), |i: int| elems[i].syntax())
}

/// The paths among the elements are made of names.
pub open spec fn elems_match(elems: Seq<Elem>) -> bool {
    forall|i: int| 0 <= i < elems.len() ==> (#[trigger] elems[i]).kind.matches_itself()
}

impl Array {
    pub open spec fn syntax(self) -> ArraySyntax {
        ArraySyntax {
            elems: elems_of(self.elems@),
            leftover: match self.leftover {
                Some(error) => Some(messages_of(error)),
                None => None,
            },
        }
    }
}

/// A call of the compiler's error macro for each string literal.
pub open spec fn error_calls(literals: Seq<Seq<char>>) -> Seq<Token>
    decreases literals.len(),
{
    if literals.len() == 0 {
        Seq::empty()
    } else {
        error_calls(literals.drop_last()) + path_sep() + seq![Token::Ident("core"@)] + path_sep()
            + seq![
            Token::Ident("compile_error"@),
            Token::Punct('!', false),
            Token::Group(Delim::Brace, seq![Token::Literal(literals.last())]),
        ]
    }
}

/// The literals in calls of the compiler's error macro: each call is of eight tokens, and the last
/// of them encloses the literal.
pub open spec fn literals_in(tokens: Seq<Token>) -> Seq<Seq<char>> {
    Seq::new(tokens.len() / 8, |i: int| tokens[8 * i + 7]->Group_1[0]->Literal_0)
}

/// The tokens report these messages to the compiler.
pub open spec fn reports(tokens: Seq<Token>, messages: Seq<Seq<char>>) -> bool {
    &&& tokens == error_calls(literals_in(tokens))
    &&& literals_in(tokens).map_values(|literal: Seq<char>| spelled(literal)) == messages
}

/// `syn::parse2` for `DeriveInput`, with the parts of the result taken over one for one:
/// `Generics::split_for_impl` gives the two forms of the generics and the `where` clause.
#[verifier::external_body]
pub(crate) fn parse_item(input: TokenStream) -> (result: Result<Item, syn::Error>)
    ensures
        match result {
            Ok(item) => parsed_item(tokens_of(input)) == Ok::<_, Seq<Seq<char>>>(item.syntax()),
            Err(error) => parsed_item(tokens_of(input)) == Err::<ItemSyntax, _>(
                messages_of(error),
            ),
        },
{
    let item: DeriveInput = syn::parse2(input)?;
    let (impl_generics, ty_generics, clause) = item.generics.split_for_impl();
    let variant = |v: syn::Variant| Variant { name: v.ident.to_token_stream(), fields: v.fields };
    Ok(Item {
        name: item.ident.to_token_stream(),
        impl_generics: impl_generics.to_token_stream(),
        ty_generics: ty_generics.to_token_stream(),
        predicates: clause.map(|c| &c.predicates).to_token_stream(),
        body: match item.data {
            Data::Struct(data) => Body::Struct(data.fields),
            Data::Enum(data) => Body::Enum(data.variants.into_iter().map(variant).collect()),
            Data::Union(_) => Body::Union,
        },
    })
}

/// `syn::Fields::iter` hands the fields out in order, each with its attributes in order.
#[verifier::external_body]
pub(crate) fn read_fields(fields: &syn::Fields) -> (result: Vec<Field>)
    ensures
        syntax_of(result@) == fields_of(*fields),
        forall|i: int|
            0 <= i < result@.len() ==> match (#[trigger] result@[i]).name {
                Some(name) => tokens_of(result@[i].ident) == seq![Token::Ident(name@)],
                None => tokens_of(result@[i].ident) == Seq::<Token>::empty(),
            },
{
    fields.iter().map(|f| Field {
        name: f.ident.as_ref().map(Ident::to_string),
        ident: f.ident.to_token_stream(),
        ty: f.ty.to_token_stream(),
        attrs: f.attrs.iter().map(|a| Attr {
            path: a.path().get_ident().map(Ident::to_string),
            args: match &a.meta {
                Meta::List(l) => Some(AttrArgs { tokens: l.tokens.clone(), close: l.delimiter.span().close() }),
                Meta::Path(_) => None,
                Meta::NameValue(_) => None,
            },
        }).collect(),
        tokens: f.to_token_stream(),
    }).collect()
}

/// `ExprArray::parse`, run by `Parser::parse2`, reads a list in brackets. What each element is: a
/// path by its segments, an integer literal by what `LitInt::base10_parse` makes of it. A token
/// that is left over within an element is complained of by `parse2` once the list has been read.
#[verifier::external_body]
pub(crate) fn parse_array(input: TokenStream) -> (result: Result<Array, syn::Error>)
    ensures
        match result {
            Ok(array) => {
                &&& parsed_array(tokens_of(input)) == Ok::<_, Seq<Seq<char>>>(array.syntax())
                &&& elems_match(array.elems@)
            },
            Err(error) => parsed_array(tokens_of(input)) == Err::<ArraySyntax, _>(
                messages_of(error),
            ),
        },
{
    let mut list = None;
    let rest = (|input: ParseStream| Ok(list = Some(input.parse::<ExprArray>()))).parse2(input);
    let array = list.expect("a list or an error")?;
    let kind = |expr: &Expr| match expr {
        Expr::Path(p) => ElemKind::Path(p.path.segments.iter().map(|s| s.ident.to_token_stream()).collect()),
        Expr::Lit(ExprLit { lit: Lit::Int(n), .. }) => ElemKind::Int(n.base10_parse(), n.to_token_stream()),
        _ => ElemKind::Other,
    };
    Ok(Array {
        elems: array.elems.iter().map(|e| Elem { kind: kind(e), tokens: e.to_token_stream() }).collect(),
        leftover: rest.err(),
    })
}

/// `syn::Error::new_spanned` makes an error of one message, placed at the given tokens.
#[verifier::external_body]
pub(crate) fn error_at(at: &TokenStream, message: &str) -> (error: syn::Error)
    ensures
        messages_of(error) == seq![message@],
{
    syn::Error::new_spanned(at, message)
}

/// `syn::Error::new` makes an error of one message, placed there.
#[verifier::external_body]
pub(crate) fn error_in(span: Span, message: &str) -> (error: syn::Error)
    ensures
        messages_of(error) == seq![message@],
{
    syn::Error::new(span, message)
}

/// The span of the first token, which for a group is that of its opening delimiter
/// (`Group::span_open`). Nothing is said of where a span is.
#[verifier::external_body]
pub(crate) fn first_span(stream: &TokenStream) -> (span: Span) {
    stream.clone().into_iter().next().map_or(Span::call_site(), |token| match token {
        TokenTree::Ident(ident) => ident.span(),
        TokenTree::Punct(punct) => punct.span(),
        TokenTree::Literal(literal) => literal.span(),
        TokenTree::Group(group) => group.span_open(),
    })
}

/// `syn::Error::to_compile_error` renders each message as a call of the compiler's error macro on
/// a string literal that stands for the message. How the literal is written is left open.
#[verifier::external_body]
pub(crate) fn report(error: &syn::Error) -> (stream: TokenStream)
    ensures
        tokens_of(stream) == error_calls(literals_in(tokens_of(stream))),
        literals_in(tokens_of(stream)).map_values(|literal: Seq<char>| spelled(literal))
            == messages_of(*error),
{
    error.to_compile_error()
}

/// The text is there exactly if the string is, and is the same.
pub open spec fn is_text(text: Option<Seq<char>>, string: Option<String>) -> bool {
    match string {
        Some(string) => text == Some(string@),
        None => text is None,
    }
}

/// An attribute stands for its name and its arguments.
pub proof fn law_an_attribute_is_taken_over(attr: Attr)
    ensures
        is_text(attr.syntax().path, attr.path),
        match attr.args {
            Some(args) => attr.syntax().args == Some(tokens_of(args.tokens)),
            None => attr.syntax().args is None,
        },
{
}

/// A list of fields stands for all of them, in order, and each field for its name, its type, its
/// tokens and all of its attributes, in order.
pub proof fn law_fields_are_taken_over(fields: Seq<Field>, i: int)
    requires
        0 <= i < fields.len(),
    ensures
        syntax_of(fields).len() == fields.len(),
        is_text(syntax_of(fields)[i].name, fields[i].name),
        syntax_of(fields)[i].ty == tokens_of(fields[i].ty),
        syntax_of(fields)[i].tokens == tokens_of(fields[i].tokens),
        syntax_of(fields)[i].attrs.len() == fields[i].attrs@.len(),
        forall|a: int|
            0 <= a < fields[i].attrs@.len() ==> #[trigger] syntax_of(fields)[i].attrs[a]
                == fields[i].attrs@[a].syntax(),
{
}

/// An item stands for its name, its generics, its predicates and what it is made of: a struct for its
/// fields, an enum for all of its variants, in order, each with its name and its fields.
pub proof fn law_an_item_is_taken_over(item: Item)
    ensures
        item.syntax().name == tokens_of(item.name),
        item.syntax().impl_generics == tokens_of(item.impl_generics),
        item.syntax().ty_generics == tokens_of(item.ty_generics),
        item.syntax().predicates == tokens_of(item.predicates),
        match item.body {
            Body::Struct(fields) => item.syntax().body == BodySyntax::Struct(fields_of(fields)),
            Body::Enum(variants) => item.syntax().body matches BodySyntax::Enum(all)
                && all.len() == variants@.len() && forall|v: int|
                0 <= v < variants@.len() ==> (#[trigger] all[v]).name == tokens_of(
                    variants@[v].name,
                ) && all[v].fields == fields_of(variants@[v].fields),
            Body::Union => item.syntax().body is Union,
        },
{
}

/// A list stands for all of its elements, in order: a path for the names of all of its segments, a
/// number for its value or for what is wrong with it.
pub proof fn law_elements_are_taken_over(elems: Seq<Elem>, i: int)
    requires
        0 <= i < elems.len(),
    ensures
        elems_of(elems).len() == elems.len(),
        elems_of(elems)[i].tokens == tokens_of(elems[i].tokens),
        match elems[i].kind {
            ElemKind::Path(segments) => elems_of(elems)[i].kind == ElemKindSyntax::Path(
                segments_of(segments@),
            ),
            ElemKind::Int(Ok(value), literal) => elems_of(elems)[i].kind == ElemKindSyntax::Int(
                Ok(value),
                tokens_of(literal),
            ),
            ElemKind::Int(Err(error), literal) => elems_of(elems)[i].kind == ElemKindSyntax::Int(
                Err(messages_of(error)),
                tokens_of(literal),
            ),
            ElemKind::Other => elems_of(elems)[i].kind is Other,
        },
{
}

/// A path of names stands for these names.
pub proof fn law_segments_are_taken_over(segments: Seq<TokenStream>, names: Seq<Seq<char>>)
    requires
        segments.len() == names.len(),
        forall|s: int|
            0 <= s < segments.len() ==> tokens_of(#[trigger] segments[s]) == seq![
                Token::Ident(names[s]),
            ],
    ensures
        segments_of(segments) == names,
{
    assert forall|s: int| 0 <= s < segments.len() implies #[trigger] segments_of(segments)[s]
        == names[s] by {
        assert(tokens_of(segments[s])[0] == Token::Ident(names[s]));
    }
    assert(segments_of(segments) =~= names);
}

/// The tokens from `at` on call the compiler's error macro on a literal that stands for the message.
pub open spec fn tells_at(tokens: Seq<Token>, at: int, message: Seq<char>) -> bool {
    &&& 0 <= at <= tokens.len() - 8
    &&& tokens[at] == Token::Punct(':', true)
    &&& tokens[at + 1] == Token::Punct(':', false)
    &&& tokens[at + 2] == Token::Ident("core"@)
    &&& tokens[at + 3] == Token::Punct(':', true)
    &&& tokens[at + 4] == Token::Punct(':', false)
    &&& tokens[at + 5] == Token::Ident("compile_error"@)
    &&& tokens[at + 6] == Token::Punct('!', false)
    &&& tokens[at + 7] matches Token::Group(Delim::Brace, inner) && inner.len() == 1 && (
    inner[0] matches Token::Literal(literal) && spelled(literal) == message)
}

proof fn lemma_error_calls(literals: Seq<Seq<char>>, i: int)
    requires
        0 <= i < literals.len(),
    ensures
        error_calls(literals).len() == 8 * literals.len(),
        tells_at(error_calls(literals), 8 * i, spelled(literals[i])),
    decreases literals.len(),
{
    let before = literals.drop_last();
    if before.len() > 0 {
        lemma_error_calls(
            before,
            if i < before.len() {
                i
            } else {
                0
            },
        );
    }
    assert(error_calls(before).len() == 8 * before.len());
}

/// A report tells every message, each in a call of its own and in order, and nothing else.
pub proof fn law_every_message_is_reported(
    tokens: Seq<Token>,
    messages: Seq<Seq<char>>,
    i: int,
)
    requires
        reports(tokens, messages),
    ensures
        tokens.len() == 8 * messages.len(),
        0 <= i < messages.len() ==> tells_at(tokens, 8 * i, messages[i]),
{
    let literals = literals_in(tokens);
    let told = literals.map_values(|literal: Seq<char>| spelled(literal));
    assert(told.len() == literals.len());
    if 0 <= i < messages.len() {
        lemma_error_calls(literals, i);
        assert(told[i] == spelled(literals[i]));
    } else if literals.len() > 0 {
        lemma_error_calls(literals, 0);
    }
}

} // verus!
