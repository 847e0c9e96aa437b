//! The code that a derive writes.
use crate::derive::layers::{law_no_layers, lists_of};
use crate::derive::member::{decimal, decimal_text, digit};
use crate::derive::plan::{
    entries_in, entry_graph, idents_match, layers_in, member_token, member_tokens, Cleaned, Plan,
};
use crate::derive::syntax::{syntax_of, Field, FieldSyntax, Item, ItemSyntax};
use crate::derive::tokens::{
    append, copy_of, empty_stream, group, is_empty, is_punct, is_word, is_word_char, path_sep,
    punct, tokens_in, tokens_of, trees_of, word, Delim, Kind, Token,
};
use proc_macro2::TokenStream;
use vstd::prelude::*;
use vstd::string::*;

verus! {

/// An identifier or keyword.
pub open spec fn id(text: Seq<char>) -> Seq<Token> {
    seq![Token::Ident(text)]
}

/// An operator of one character.
pub open spec fn op(ch: char) -> Seq<Token> {
    seq![Token::Punct(ch, false)]
}

/// An operator of two characters.
pub open spec fn op2(first: char, second: char) -> Seq<Token> {
    seq![Token::Punct(first, true), Token::Punct(second, false)]
}

/// Tokens between delimiters.
pub open spec fn enclosed(delim: Delim, inner: Seq<Token>) -> Seq<Token> {
    seq![Token::Group(delim, inner)]
}

/// `PLACE.async_drop()`
pub open spec fn cleanup_call(place: Seq<Token>) -> Seq<Token> {
    place + op('.') + id("async_drop"@) + enclosed(Delim::Paren, Seq::empty())
}

/// `::std::pin::Pin<Box<dyn ::std::future::Future<Output = ()> + Send>>`
pub open spec fn boxed_future() -> Seq<Token> {
    path_sep() + id("std"@) + path_sep() + id("pin"@) + path_sep() + id("Pin"@) + op('<') + id(
        "Box"@,
    ) + op('<') + id("dyn"@) + path_sep() + id("std"@) + path_sep() + id("future"@) + path_sep()
        + id("Future"@) + op('<') + id("Output"@) + op('=') + enclosed(Delim::Paren, Seq::empty())
        + op('>') + op('+') + id("Send"@) + op2('>', '>')
}

/// `Box::pin(PLACE.async_drop()) as ...`
pub open spec fn boxed_call(place: Seq<Token>) -> Seq<Token> {
    id("Box"@) + path_sep() + id("pin"@) + enclosed(Delim::Paren, cleanup_call(place)) + id("as"@)
        + boxed_future()
}

/// The first `n` of the boxed calls, with commas between them.
pub open spec fn boxed_calls(places: Seq<Seq<Token>>, n: nat) -> Seq<Token>
    decreases n,
{
    if n == 0 {
        Seq::empty()
    } else if n == 1 {
        boxed_call(places[0])
    } else {
        boxed_calls(places, (n - 1) as nat) + op(',') + boxed_call(places[n - 1])
    }
}

/// The code that cleans up the fields of one layer at the same time and waits for all of them.
pub open spec fn layer_code(krate: Seq<Token>, places: Seq<Seq<Token>>) -> Seq<Token> {
    if places.len() == 0 {
        Seq::empty()
    } else if places.len() == 1 {
        cleanup_call(places[0]) + op('.') + id("await"@) + op(';')
    } else {
        krate + path_sep() + id("__private"@) + path_sep() + id("join_all"@) + enclosed(
            Delim::Paren,
            id("vec"@) + op('!') + enclosed(Delim::Bracket, boxed_calls(places, places.len())),
        ) + op('.') + id("await"@) + op(';')
    }
}

/// The places of the entries of a layer.
pub open spec fn places_in(layer: Seq<usize>, places: Seq<Seq<Token>>) -> Seq<Seq<Token>> {
    Seq::new(layer.len(), |j: int| places[layer[j] as int])
}

/// The code for the first `n` layers, one after the other.
pub open spec fn layers_code(
    krate: Seq<Token>,
    layers: Seq<Seq<usize>>,
    places: Seq<Seq<Token>>,
    n: nat,
) -> Seq<Token>
    decreases n,
{
    if n == 0 {
        Seq::empty()
    } else {
        layers_code(krate, layers, places, (n - 1) as nat) + layer_code(
            krate,
            places_in(layers[n - 1], places),
        )
    }
}

/// The words of the generated code are identifiers or keywords.
proof fn lemma_words()
    ensures
        is_word("async_drop"@),
        is_word("await"@),
        is_word("std"@),
        is_word("pin"@),
        is_word("Pin"@),
        is_word("Box"@),
        is_word("dyn"@),
        is_word("future"@),
        is_word("Future"@),
        is_word("Output"@),
        is_word("Send"@),
        is_word("as"@),
        is_word("__private"@),
        is_word("join_all"@),
        is_word("vec"@),
        is_word("self"@),
        is_word("Self"@),
        is_word("match"@),
        is_word("where"@),
        is_word("AsyncDrop"@),
        is_word("impl"@),
        is_word("for"@),
        is_word("async"@),
        is_word("fn"@),
{
    reveal_strlit("async_drop");
    reveal_strlit("await");
    reveal_strlit("std");
    reveal_strlit("pin");
    reveal_strlit("Pin");
    reveal_strlit("Box");
    reveal_strlit("dyn");
    reveal_strlit("future");
    reveal_strlit("Future");
    reveal_strlit("Output");
    reveal_strlit("Send");
    reveal_strlit("as");
    reveal_strlit("__private");
    reveal_strlit("join_all");
    reveal_strlit("vec");
    reveal_strlit("self");
    reveal_strlit("Self");
    reveal_strlit("match");
    reveal_strlit("where");
    reveal_strlit("AsyncDrop");
    reveal_strlit("impl");
    reveal_strlit("for");
    reveal_strlit("async");
    reveal_strlit("fn");
}

/// Adds an identifier or keyword.
pub(crate) fn put_word(out: &mut TokenStream, text: &str)
    requires
        is_word(text@),
    ensures
        tokens_of(*final(out)) == tokens_of(*old(out)) + id(text@),
{
    let stream = word(text);
    append(out, &stream);
}

/// Adds an operator of one character.
pub(crate) fn put_op(out: &mut TokenStream, ch: char)
    requires
        is_punct(ch),
    ensures
        tokens_of(*final(out)) == tokens_of(*old(out)) + op(ch),
{
    let stream = punct(ch, false);
    append(out, &stream);
}

/// Adds an operator of two characters.
pub(crate) fn put_op2(out: &mut TokenStream, first: char, second: char)
    requires
        is_punct(first),
        is_punct(second),
    ensures
        tokens_of(*final(out)) == tokens_of(*old(out)) + op2(first, second),
{
    let mut both = punct(first, true);
    let stream = punct(second, false);
    append(&mut both, &stream);
    append(out, &both);
    assert(tokens_of(both) =~= op2(first, second));
}

/// Adds `::`.
pub(crate) fn put_sep(out: &mut TokenStream)
    ensures
        tokens_of(*final(out)) == tokens_of(*old(out)) + path_sep(),
{
    put_op2(out, ':', ':');
    assert(op2(':', ':') =~= path_sep());
}

/// Adds tokens between delimiters.
pub(crate) fn put_group(out: &mut TokenStream, delim: Delim, inner: TokenStream)
    ensures
        tokens_of(*final(out)) == tokens_of(*old(out)) + enclosed(delim, tokens_of(inner)),
{
    let stream = group(delim, inner);
    append(out, &stream);
}

/// `PLACE.async_drop()`
fn write_cleanup_call(place: &TokenStream) -> (out: TokenStream)
    ensures
        tokens_of(out) == cleanup_call(tokens_of(*place)),
{
    proof {
        lemma_words();
    }
    let mut out = copy_of(place);
    put_op(&mut out, '.');
    put_word(&mut out, "async_drop");
    put_group(&mut out, Delim::Paren, empty_stream());
    out
}

/// `::std::pin::Pin<Box<dyn ::std::future::Future<Output = ()> + Send>>`
fn write_boxed_future() -> (out: TokenStream)
    ensures
        tokens_of(out) == boxed_future(),
{
    proof {
        lemma_words();
    }
    let mut out = empty_stream();
    put_sep(&mut out);
    assert(tokens_of(out) =~= path_sep());
    put_word(&mut out, "std");
    put_sep(&mut out);
    put_word(&mut out, "pin");
    put_sep(&mut out);
    put_word(&mut out, "Pin");
    put_op(&mut out, '<');
    put_word(&mut out, "Box");
    put_op(&mut out, '<');
    put_word(&mut out, "dyn");
    put_sep(&mut out);
    put_word(&mut out, "std");
    put_sep(&mut out);
    put_word(&mut out, "future");
    put_sep(&mut out);
    put_word(&mut out, "Future");
    put_op(&mut out, '<');
    put_word(&mut out, "Output");
    put_op(&mut out, '=');
    put_group(&mut out, Delim::Paren, empty_stream());
    put_op(&mut out, '>');
    put_op(&mut out, '+');
    put_word(&mut out, "Send");
    put_op2(&mut out, '>', '>');
    out
}

/// `Box::pin(PLACE.async_drop()) as ...`
fn write_boxed_call(place: &TokenStream) -> (out: TokenStream)
    ensures
        tokens_of(out) == boxed_call(tokens_of(*place)),
{
    proof {
        lemma_words();
    }
    let mut out = word("Box");
    put_sep(&mut out);
    put_word(&mut out, "pin");
    put_group(&mut out, Delim::Paren, write_cleanup_call(place));
    put_word(&mut out, "as");
    append(&mut out, &write_boxed_future());
    out
}

/// The tokens of each stream.
pub open spec fn streams_of(streams: Seq<TokenStream>) -> Seq<Seq<Token>> {
    Seq::new(streams.len(), |i: int| tokens_of(streams[i]))
}

/// The boxed calls for the entries of a layer, with commas between them.
fn write_boxed_calls(layer: &Vec<usize>, places: &Vec<TokenStream>) -> (out: TokenStream)
    requires
        forall|j: int| 0 <= j < layer@.len() ==> (#[trigger] layer@[j]) < places@.len(),
    ensures
        tokens_of(out) == boxed_calls(places_in(layer@, streams_of(places@)), layer@.len()),
{
    let ghost all = places_in(layer@, streams_of(places@));
    let mut out = empty_stream();
    let mut j: usize = 0;
    while j < layer.len()
        invariant
            j <= layer@.len(),
            all == places_in(layer@, streams_of(places@)),
            forall|j: int| 0 <= j < layer@.len() ==> (#[trigger] layer@[j]) < places@.len(),
            tokens_of(out) == boxed_calls(all, j as nat),
        decreases layer@.len() - j,
    {
        let place = &places[layer[j]];
        assert(all[j as int] == tokens_of(*place));
        if j > 0 {
            put_op(&mut out, ',');
            append(&mut out, &write_boxed_call(place));
        } else {
            out = write_boxed_call(place);
        }
        j += 1;
    }
    out
}

/// The code that cleans up the fields of one layer.
fn write_layer(krate: &TokenStream, layer: &Vec<usize>, places: &Vec<TokenStream>) -> (out:
    TokenStream)
    requires
        forall|j: int| 0 <= j < layer@.len() ==> (#[trigger] layer@[j]) < places@.len(),
    ensures
        tokens_of(out) == layer_code(tokens_of(*krate), places_in(layer@, streams_of(places@))),
{
    proof {
        lemma_words();
    }
    if layer.len() == 0 {
        return empty_stream();
    }
    if layer.len() == 1 {
        let place = &places[layer[0]];
        let mut out = write_cleanup_call(place);
        put_op(&mut out, '.');
        put_word(&mut out, "await");
        put_op(&mut out, ';');
        return out;
    }
    let mut list = word("vec");
    put_op(&mut list, '!');
    put_group(&mut list, Delim::Bracket, write_boxed_calls(layer, places));
    let mut out = copy_of(krate);
    put_sep(&mut out);
    put_word(&mut out, "__private");
    put_sep(&mut out);
    put_word(&mut out, "join_all");
    put_group(&mut out, Delim::Paren, list);
    put_op(&mut out, '.');
    put_word(&mut out, "await");
    put_op(&mut out, ';');
    out
}

/// The code that cleans up layer after layer.
fn write_layers(krate: &TokenStream, layers: &Vec<Vec<usize>>, places: &Vec<TokenStream>) -> (out:
    TokenStream)
    requires
        forall|k: int, j: int|
            0 <= k < layers@.len() && 0 <= j < layers@[k]@.len() ==> (#[trigger] layers@[k]@[j])
                < places@.len(),
    ensures
        tokens_of(out) == layers_code(
            tokens_of(*krate),
            lists_of(layers@),
            streams_of(places@),
            layers@.len(),
        ),
{
    let mut out = empty_stream();
    let mut k: usize = 0;
    while k < layers.len()
        invariant
            k <= layers@.len(),
            forall|k: int, j: int|
                0 <= k < layers@.len() && 0 <= j < layers@[k]@.len() ==> (
                #[trigger] layers@[k]@[j]) < places@.len(),
            tokens_of(out) == layers_code(
                tokens_of(*krate),
                lists_of(layers@),
                streams_of(places@),
                k as nat,
            ),
        decreases layers@.len() - k,
    {
        append(&mut out, &write_layer(krate, &layers[k], places));
        assert(lists_of(layers@)[k as int] == layers@[k as int]@);
        k += 1;
    }
    out
}

/// Where the fields of a struct stand: `self.MEMBER`.
pub open spec fn struct_places(cleaned: Seq<Cleaned>) -> Seq<Seq<Token>> {
    Seq::new(
        cleaned.len(),
        |e: int| id("self"@) + op('.') + seq![member_token(cleaned[e].entry.member)],
    )
}

/// The body of the method for a struct.
pub open spec fn struct_code(krate: Seq<Token>, cleaned: Seq<Cleaned>) -> Seq<Token> {
    layers_code(krate, layers_in(cleaned), struct_places(cleaned), layers_in(cleaned).len())
}

/// The name that the pattern for a variant gives the field of entry `e`.
pub open spec fn binding(e: nat) -> Seq<char> {
    "__eulogy_"@ + decimal(e)
}

/// Where the fields of a variant stand: under the names that the pattern gives them.
pub open spec fn variant_places(cleaned: Seq<Cleaned>) -> Seq<Seq<Token>> {
    Seq::new(cleaned.len(), |e: int| id(binding(e as nat)))
}

/// The bindings of a pattern for the first `n` entries.
pub open spec fn bindings(cleaned: Seq<Cleaned>, n: nat) -> Seq<Token>
    decreases n,
{
    if n == 0 {
        Seq::empty()
    } else {
        bindings(cleaned, (n - 1) as nat) + seq![member_token(cleaned[n - 1].entry.member)] + op(
            ':',
        ) + id(binding((n - 1) as nat)) + op(',')
    }
}

/// The arm for a variant: `Self::NAME { MEMBER: BINDING, .. } => { ... }`
pub open spec fn arm_code(krate: Seq<Token>, name: Seq<Token>, cleaned: Seq<Cleaned>) -> Seq<
    Token,
> {
    id("Self"@) + path_sep() + name + enclosed(
        Delim::Brace,
        bindings(cleaned, cleaned.len()) + op2('.', '.'),
    ) + op2('=', '>') + enclosed(
        Delim::Brace,
        layers_code(krate, layers_in(cleaned), variant_places(cleaned), layers_in(cleaned).len()),
    )
}

/// The body of the method for an enum.
pub open spec fn enum_code(arms: Seq<Token>) -> Seq<Token> {
    id("match"@) + id("self"@) + enclosed(Delim::Brace, arms)
}

/// The types of the fields that are cleaned up.
pub open spec fn types_in(fields: Seq<FieldSyntax>, cleaned: Seq<Cleaned>) -> Seq<Seq<Token>> {
    Seq::new(cleaned.len(), |e: int| fields[cleaned[e].field].ty)
}

/// A comma has to come before one more predicate: there are some, and they do not end in one.
pub open spec fn is_open(predicates: Seq<Token>) -> bool {
    predicates.len() > 0 && !(predicates.last() is Punct && predicates.last()->Punct_0 == ',')
}

/// The predicates with one more for each of the first `n` types: `TYPE: KRATE::AsyncDrop`.
pub open spec fn bounds(item: ItemSyntax, krate: Seq<Token>, types: Seq<Seq<Token>>, n: nat) -> Seq<
    Token,
>
    decreases n,
{
    if n == 0 {
        item.predicates
    } else {
        let before = bounds(item, krate, types, (n - 1) as nat);
        (if n > 1 || is_open(item.predicates) {
            before + op(',')
        } else {
            before
        }) + types[n - 1] + op(':') + krate + path_sep() + id("AsyncDrop"@)
    }
}

/// The `where` clause, where there are predicates.
pub open spec fn where_code(predicates: Seq<Token>) -> Seq<Token> {
    if predicates.len() == 0 {
        Seq::empty()
    } else {
        id("where"@) + predicates
    }
}

/// The whole impl.
pub open spec fn impl_code(
    item: ItemSyntax,
    krate: Seq<Token>,
    types: Seq<Seq<Token>>,
    body: Seq<Token>,
) -> Seq<Token> {
    id("impl"@) + item.impl_generics + krate + path_sep() + id("AsyncDrop"@) + id("for"@)
        + item.name + item.ty_generics + where_code(bounds(item, krate, types, types.len()))
        + enclosed(
        Delim::Brace,
        id("async"@) + id("fn"@) + id("async_drop"@) + enclosed(Delim::Paren, id("self"@))
            + enclosed(Delim::Brace, body),
    )
}

/// The body of the method for a struct.
pub(crate) fn write_struct(krate: &TokenStream, fields: &Vec<Field>, plan: &Plan) -> (out:
    TokenStream)
    requires
        idents_match(fields@),
        plan.fits(syntax_of(fields@)),
    ensures
        tokens_of(out) == struct_code(tokens_of(*krate), plan.cleaned()),
{
    proof {
        lemma_words();
    }
    let mut places: Vec<TokenStream> = Vec::new();
    let mut e: usize = 0;
    while e < plan.entries.len()
        invariant
            e <= plan.entries@.len(),
            idents_match(fields@),
            is_word("self"@),
            plan.fits(syntax_of(fields@)),
            places@.len() == e,
            forall|i: int|
                0 <= i < e ==> tokens_of(#[trigger] places@[i]) == struct_places(plan.cleaned())[i],
        decreases plan.entries@.len() - e,
    {
        assert(plan.places@[e as int] < fields@.len());
        let mut place = word("self");
        put_op(&mut place, '.');
        append(&mut place, &member_tokens(fields, plan.places[e]));
        places.push(place);
        e += 1;
    }
    assert(streams_of(places@) =~= struct_places(plan.cleaned()));
    assert(plan.layers@.len() == lists_of(plan.layers@).len());
    write_layers(krate, &plan.layers, &places)
}

proof fn lemma_decimal_word(n: nat)
    ensures
        forall|i: int| 0 <= i < decimal(n).len() ==> is_word_char(#[trigger] decimal(n)[i]),
    decreases n,
{
    if n < 10 {
        assert(decimal(n) =~= seq![digit(n)]);
        assert(is_word_char(digit(n)));
    } else {
        lemma_decimal_word(n / 10);
        let rest = decimal(n / 10);
        assert(decimal(n) =~= rest.push(digit(n % 10)));
        assert(is_word_char(digit(n % 10)));
        assert forall|i: int| 0 <= i < decimal(n).len() implies is_word_char(
            #[trigger] decimal(n)[i],
        ) by {
            if i < rest.len() {
                assert(decimal(n)[i] == rest[i]);
            }
        }
    }
}

/// The name that the pattern for a variant gives the field of entry `e`.
fn write_binding(e: usize) -> (out: TokenStream)
    ensures
        tokens_of(out) == id(binding(e as nat)),
{
    let name = String::from_str("__eulogy_").concat(decimal_text(e as u64).as_str());
    proof {
        reveal_strlit("__eulogy_");
        lemma_decimal_word(e as nat);
        assert forall|i: int| 0 <= i < name@.len() implies is_word_char(#[trigger] name@[i]) by {
            if i >= 9 {
                assert(name@[i] == decimal(e as nat)[i - 9]);
            }
        }
    }
    word(name.as_str())
}

/// The arm for a variant.
pub(crate) fn write_arm(
    krate: &TokenStream,
    name: &TokenStream,
    fields: &Vec<Field>,
    plan: &Plan,
) -> (out: TokenStream)
    requires
        idents_match(fields@),
        plan.fits(syntax_of(fields@)),
    ensures
        tokens_of(out) == arm_code(tokens_of(*krate), tokens_of(*name), plan.cleaned()),
{
    proof {
        lemma_words();
    }
    let mut places: Vec<TokenStream> = Vec::new();
    let mut pattern = empty_stream();
    let mut e: usize = 0;
    while e < plan.entries.len()
        invariant
            e <= plan.entries@.len(),
            idents_match(fields@),
            plan.fits(syntax_of(fields@)),
            tokens_of(pattern) == bindings(plan.cleaned(), e as nat),
            places@.len() == e,
            forall|i: int|
                0 <= i < e ==> tokens_of(#[trigger] places@[i]) == variant_places(
                    plan.cleaned(),
                )[i],
        decreases plan.entries@.len() - e,
    {
        assert(plan.places@[e as int] < fields@.len());
        let binding = write_binding(e);
        append(&mut pattern, &member_tokens(fields, plan.places[e]));
        put_op(&mut pattern, ':');
        append(&mut pattern, &binding);
        put_op(&mut pattern, ',');
        places.push(binding);
        e += 1;
    }
    put_op2(&mut pattern, '.', '.');
    assert(streams_of(places@) =~= variant_places(plan.cleaned()));
    assert(plan.layers@.len() == lists_of(plan.layers@).len());
    let body = write_layers(krate, &plan.layers, &places);
    let mut out = word("Self");
    put_sep(&mut out);
    append(&mut out, name);
    put_group(&mut out, Delim::Brace, pattern);
    put_op2(&mut out, '=', '>');
    put_group(&mut out, Delim::Brace, body);
    out
}

/// The body of the method for an enum.
pub(crate) fn write_enum(arms: TokenStream) -> (out: TokenStream)
    ensures
        tokens_of(out) == enum_code(tokens_of(arms)),
{
    proof {
        lemma_words();
    }
    let mut out = word("match");
    put_word(&mut out, "self");
    put_group(&mut out, Delim::Brace, arms);
    out
}

/// The types of the fields that are cleaned up.
pub(crate) fn types_of(fields: &Vec<Field>, plan: &Plan) -> (types: Vec<TokenStream>)
    requires
        plan.fits(syntax_of(fields@)),
    ensures
        streams_of(types@) == types_in(syntax_of(fields@), plan.cleaned()),
{
    let mut types: Vec<TokenStream> = Vec::new();
    let mut e: usize = 0;
    while e < plan.places.len()
        invariant
            e <= plan.places@.len(),
            plan.fits(syntax_of(fields@)),
            types@.len() == e,
            forall|i: int|
                0 <= i < e ==> tokens_of(#[trigger] types@[i]) == types_in(
                    syntax_of(fields@),
                    plan.cleaned(),
                )[i],
        decreases plan.places@.len() - e,
    {
        assert(plan.places@[e as int] < fields@.len());
        types.push(copy_of(&fields[plan.places[e]].ty));
        e += 1;
    }
    assert(streams_of(types@) =~= types_in(syntax_of(fields@), plan.cleaned()));
    types
}

/// Whether a comma has to come before one more predicate.
fn needs_comma(predicates: &TokenStream) -> (open: bool)
    ensures
        open == is_open(tokens_of(*predicates)),
{
    let trees = trees_of(predicates);
    assert(tokens_in(trees@).len() == trees@.len());
    if trees.len() == 0 {
        return false;
    }
    let last: usize = trees.len() - 1;
    assert(tokens_of(*predicates).last() == trees@[last as int].token());
    match &trees[last].kind {
        Kind::Punct(ch, _) => *ch != ',',
        _ => true,
    }
}

/// The predicates of the impl.
fn write_bounds(item: &Item, krate: &TokenStream, types: &Vec<TokenStream>) -> (out: TokenStream)
    ensures
        tokens_of(out) == bounds(
            item.syntax(),
            tokens_of(*krate),
            streams_of(types@),
            types@.len(),
        ),
{
    proof {
        lemma_words();
    }
    let mut out = copy_of(&item.predicates);
    let open = needs_comma(&item.predicates);
    let mut n: usize = 0;
    while n < types.len()
        invariant
            n <= types@.len(),
            open == is_open(item.syntax().predicates),
            is_word("AsyncDrop"@),
            tokens_of(out) == bounds(
                item.syntax(),
                tokens_of(*krate),
                streams_of(types@),
                n as nat,
            ),
        decreases types@.len() - n,
    {
        if n > 0 || open {
            put_op(&mut out, ',');
        }
        append(&mut out, &types[n]);
        put_op(&mut out, ':');
        append(&mut out, krate);
        put_sep(&mut out);
        put_word(&mut out, "AsyncDrop");
        n += 1;
    }
    out
}

/// The whole impl.
pub(crate) fn write_impl(
    item: &Item,
    krate: &TokenStream,
    types: &Vec<TokenStream>,
    body: TokenStream,
) -> (out: TokenStream)
    ensures
        tokens_of(out) == impl_code(
            item.syntax(),
            tokens_of(*krate),
            streams_of(types@),
            tokens_of(body),
        ),
{
    proof {
        lemma_words();
    }
    let predicates = write_bounds(item, krate, types);
    let clause = if is_empty(&predicates) {
        empty_stream()
    } else {
        let mut clause = word("where");
        append(&mut clause, &predicates);
        clause
    };
    let mut method = word("async");
    put_word(&mut method, "fn");
    put_word(&mut method, "async_drop");
    put_group(&mut method, Delim::Paren, word("self"));
    put_group(&mut method, Delim::Brace, body);
    let mut out = word("impl");
    append(&mut out, &item.impl_generics);
    append(&mut out, krate);
    put_sep(&mut out);
    put_word(&mut out, "AsyncDrop");
    put_word(&mut out, "for");
    append(&mut out, &item.name);
    append(&mut out, &item.ty_generics);
    append(&mut out, &clause);
    put_group(&mut out, Delim::Brace, method);
    out
}

/// The code for the layers before `n` starts with the code for the layers before `m`.
proof fn lemma_layers_before(
    krate: Seq<Token>,
    layers: Seq<Seq<usize>>,
    places: Seq<Seq<Token>>,
    m: nat,
    n: nat,
) -> (rest: Seq<Token>)
    requires
        m <= n,
    ensures
        layers_code(krate, layers, places, n) == layers_code(krate, layers, places, m) + rest,
    decreases n,
{
    if m == n {
        assert(layers_code(krate, layers, places, n) =~= layers_code(krate, layers, places, m)
            + Seq::empty());
        Seq::empty()
    } else {
        let rest = lemma_layers_before(krate, layers, places, m, (n - 1) as nat);
        let last = layer_code(krate, places_in(layers[n - 1], places));
        assert(layers_code(krate, layers, places, n) =~= layers_code(krate, layers, places, m) + (
        rest + last));
        rest + last
    }
}

/// `part` stands in `whole`, with `before` in front of it and `behind` after it.
pub open spec fn is_part(
    whole: Seq<Token>,
    before: Seq<Token>,
    part: Seq<Token>,
    behind: Seq<Token>,
) -> bool {
    whole == before + part + behind
}

/// The code for a layer stands in front of the code for every later layer, and waits for all of
/// the layer's calls: the cleanup of a layer is over when the cleanup of the next begins.
pub proof fn law_layers_in_turn(
    krate: Seq<Token>,
    layers: Seq<Seq<usize>>,
    places: Seq<Seq<Token>>,
    j: int,
    k: int,
)
    requires
        0 <= j < k < layers.len(),
    ensures
        exists|before: Seq<Token>, between: Seq<Token>, behind: Seq<Token>| #[trigger]
            is_part(
                layers_code(krate, layers, places, layers.len()),
                before + layer_code(krate, places_in(layers[j], places)) + between,
                layer_code(krate, places_in(layers[k], places)),
                behind,
            ),
{
    let first = layer_code(krate, places_in(layers[j], places));
    let second = layer_code(krate, places_in(layers[k], places));
    let before = layers_code(krate, layers, places, j as nat);
    let between = lemma_layers_before(krate, layers, places, (j + 1) as nat, k as nat);
    let behind = lemma_layers_before(krate, layers, places, (k + 1) as nat, layers.len());
    assert(is_part(
        layers_code(krate, layers, places, layers.len()),
        before + first + between,
        second,
        behind,
    ));
}

proof fn lemma_calls_before(places: Seq<Seq<Token>>, i: int, n: nat) -> (r: (
    Seq<Token>,
    Seq<Token>,
))
    requires
        0 <= i < n <= places.len(),
    ensures
        is_part(boxed_calls(places, n), r.0, boxed_call(places[i]), r.1),
    decreases n,
{
    if n == 1 {
        assert(boxed_calls(places, n) =~= Seq::<Token>::empty() + boxed_call(places[i])
            + Seq::<Token>::empty());
        (Seq::empty(), Seq::empty())
    } else if i == n - 1 {
        let before = boxed_calls(places, (n - 1) as nat) + op(',');
        assert(boxed_calls(places, n) =~= before + boxed_call(places[i]) + Seq::<Token>::empty());
        (before, Seq::empty())
    } else {
        let (before, behind) = lemma_calls_before(places, i, (n - 1) as nat);
        let more = behind + op(',') + boxed_call(places[n - 1]);
        assert(boxed_calls(places, n) =~= before + boxed_call(places[i]) + more);
        (before, more)
    }
}

/// The calls of a layer of two or more fields are handed to `join_all` together, each of them
/// once listed.
pub proof fn law_layer_holds_each_call(krate: Seq<Token>, places: Seq<Seq<Token>>, i: int)
    requires
        0 <= i < places.len(),
    ensures
        exists|before: Seq<Token>, behind: Seq<Token>| #[trigger]
            is_part(
                boxed_calls(places, places.len()),
                before,
                boxed_call(places[i]),
                behind,
            ),
        places.len() == 1 ==> layer_code(krate, places) == cleanup_call(places[i]) + op('.') + id(
            "await"@,
        ) + op(';'),
{
    let (before, behind) = lemma_calls_before(places, i, places.len());
    assert(is_part(boxed_calls(places, places.len()), before, boxed_call(places[i]), behind));
}

/// `TYPE: KRATE::AsyncDrop`
pub open spec fn bound_on(ty: Seq<Token>, krate: Seq<Token>) -> Seq<Token> {
    ty + op(':') + krate + path_sep() + id("AsyncDrop"@)
}

proof fn lemma_bound_on(
    item: ItemSyntax,
    krate: Seq<Token>,
    types: Seq<Seq<Token>>,
    i: int,
    n: nat,
) -> (r: (Seq<Token>, Seq<Token>))
    requires
        0 <= i < n <= types.len(),
    ensures
        is_part(bounds(item, krate, types, n), r.0, bound_on(types[i], krate), r.1),
    decreases n,
{
    let prior = bounds(item, krate, types, (n - 1) as nat);
    let start = if n > 1 || is_open(item.predicates) {
        prior + op(',')
    } else {
        prior
    };
    if i == n - 1 {
        assert(bounds(item, krate, types, n) =~= start + bound_on(types[i], krate) + Seq::<
            Token,
        >::empty());
        (start, Seq::empty())
    } else {
        let (before, behind) = lemma_bound_on(item, krate, types, i, (n - 1) as nat);
        let more = behind + op(',') + bound_on(types[n - 1], krate);
        assert(bounds(item, krate, types, n) =~= before + bound_on(types[i], krate) + more);
        (before, more)
    }
}

/// The `where` clause asks of the type of every field that is cleaned up that it has a cleanup.
pub proof fn law_each_type_is_bound(
    item: ItemSyntax,
    krate: Seq<Token>,
    types: Seq<Seq<Token>>,
    i: int,
)
    requires
        0 <= i < types.len(),
    ensures
        exists|before: Seq<Token>, behind: Seq<Token>| #[trigger]
            is_part(
                bounds(item, krate, types, types.len()),
                before,
                bound_on(types[i], krate),
                behind,
            ),
        where_code(bounds(item, krate, types, types.len())) == id("where"@) + bounds(
            item,
            krate,
            types,
            types.len(),
        ),
{
    let (before, behind) = lemma_bound_on(item, krate, types, i, types.len());
    assert(is_part(
        bounds(item, krate, types, types.len()),
        before,
        bound_on(types[i], krate),
        behind,
    ));
    assert(bound_on(types[i], krate).len() > 0);
}

/// The bounds that the item states itself are kept, in front of those that are added.
pub proof fn law_own_bounds_are_kept(
    item: ItemSyntax,
    krate: Seq<Token>,
    types: Seq<Seq<Token>>,
    n: nat,
)
    requires
        n <= types.len(),
    ensures
        item.predicates.is_prefix_of(bounds(item, krate, types, n)),
    decreases n,
{
    if n > 0 {
        law_own_bounds_are_kept(item, krate, types, (n - 1) as nat);
    }
}

/// Where no field is cleaned up, the method does nothing and no bound is added.
pub proof fn law_nothing_to_clean_up(item: ItemSyntax, krate: Seq<Token>)
    ensures
        struct_code(krate, Seq::empty()) == Seq::<Token>::empty(),
        bounds(item, krate, Seq::empty(), 0) == item.predicates,
{
    let none = Seq::<Cleaned>::empty();
    let g = entry_graph(entries_in(none));
    assert(g.len() == 0);
    law_no_layers(g);
}

} // verus!
