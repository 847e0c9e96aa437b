//! What a derive promises of the code that it writes, token by token.
use crate::derive::codegen::{
    arm_code, binding, bindings, bounds, boxed_call, boxed_calls, cleanup_call, enclosed, enum_code,
    id, impl_code, is_open, layer_code, layers_code, op, op2, places_in, struct_code, struct_places,
    types_in, variant_places, where_code,
};
use crate::derive::directives::request_of;
use crate::derive::expand::{arms_code, derive_async_drop, enum_method, struct_method, FoundCrate};
use crate::derive::fault::{At, Owner, Refusal};
use crate::derive::layers::{law_layers_ascend, stands_in};
use crate::derive::member::{decimal, law_decimal_is_read_back, MemberName};
use crate::derive::order::{
    is_for, law_each_field_once, law_entries_stand_for_their_fields, lemma_planned,
};
use crate::derive::plan::{entries_in, entry_graph, layers_in, member_token, planned, Cleaned};
use crate::derive::syntax::{
    parsed_item, reports, BodySyntax, FieldSyntax, ItemSyntax, VariantSyntax,
};
use crate::derive::tokens::{path_sep, tokens_of, Delim, Token};
use proc_macro2::TokenStream;
use vstd::prelude::*;

verus! {

/// A comma.
pub open spec fn comma() -> Token {
    Token::Punct(',', false)
}

/// The parts one after the other, each with a comma behind it.
pub open spec fn listed(parts: Seq<Seq<Token>>) -> Seq<Token> {
    Seq::new(parts.len(), |i: int| parts[i].push(comma())).flatten()
}

/// The tokens end in `.await;`
pub open spec fn is_awaited(code: Seq<Token>) -> bool {
    &&& code.len() >= 3
    &&& code[code.len() - 3] == Token::Punct('.', false)
    &&& code[code.len() - 2] == Token::Ident("await"@)
    &&& code[code.len() - 1] == Token::Punct(';', false)
}

/// The call of the cleanup of what stands at a place.
pub open spec fn call_at(place: Seq<Token>) -> Seq<Token> {
    place + seq![
        Token::Punct('.', false),
        Token::Ident("async_drop"@),
        Token::Group(Delim::Paren, Seq::empty()),
    ]
}

/// The same call in a box, as a future of which nothing but its end is known.
pub open spec fn boxed_at(place: Seq<Token>) -> Seq<Token> {
    seq![
        Token::Ident("Box"@),
        Token::Punct(':', true),
        Token::Punct(':', false),
        Token::Ident("pin"@),
        Token::Group(Delim::Paren, call_at(place)),
        Token::Ident("as"@),
        Token::Punct(':', true),
        Token::Punct(':', false),
        Token::Ident("std"@),
        Token::Punct(':', true),
        Token::Punct(':', false),
        Token::Ident("pin"@),
        Token::Punct(':', true),
        Token::Punct(':', false),
        Token::Ident("Pin"@),
        Token::Punct('<', false),
        Token::Ident("Box"@),
        Token::Punct('<', false),
        Token::Ident("dyn"@),
        Token::Punct(':', true),
        Token::Punct(':', false),
        Token::Ident("std"@),
        Token::Punct(':', true),
        Token::Punct(':', false),
        Token::Ident("future"@),
        Token::Punct(':', true),
        Token::Punct(':', false),
        Token::Ident("Future"@),
        Token::Punct('<', false),
        Token::Ident("Output"@),
        Token::Punct('=', false),
        Token::Group(Delim::Paren, Seq::empty()),
        Token::Punct('>', false),
        Token::Punct('+', false),
        Token::Ident("Send"@),
        Token::Punct('>', true),
        Token::Punct('>', false),
    ]
}

/// The statement of a layer waits: whatever the size of the layer, its code ends in `.await;`. Only
/// a layer without fields has no code.
pub proof fn law_every_layer_is_awaited(krate: Seq<Token>, places: Seq<Seq<Token>>)
    ensures
        places.len() > 0 ==> is_awaited(layer_code(krate, places)),
        places.len() == 0 ==> layer_code(krate, places).len() == 0,
{
}

/// A layer of one field calls the cleanup of that field and waits for it.
pub proof fn law_one_call_is_awaited(krate: Seq<Token>, place: Seq<Token>)
    ensures
        is_awaited(layer_code(krate, seq![place])),
        layer_code(krate, seq![place]).len() == call_at(place).len() + 3,
        call_at(place).is_prefix_of(layer_code(krate, seq![place])),
{
    assert(layer_code(krate, seq![place]) =~= call_at(place) + seq![
        Token::Punct('.', false),
        Token::Ident("await"@),
        Token::Punct(';', false),
    ]);
}

proof fn lemma_boxed_call(place: Seq<Token>)
    ensures
        boxed_call(place) == boxed_at(place),
{
    assert(cleanup_call(place) =~= call_at(place));
    assert(boxed_call(place) =~= boxed_at(place));
}

proof fn lemma_boxed_calls(places: Seq<Seq<Token>>, n: nat)
    requires
        0 < n <= places.len(),
    ensures
        boxed_calls(places, n).push(comma()) == listed(
            Seq::new(n, |i: int| boxed_at(places[i])),
        ),
    decreases n,
{
    let parts = Seq::new(n, |i: int| boxed_at(places[i]));
    let ends = Seq::new(n, |i: int| parts[i].push(comma()));
    lemma_boxed_call(places[n - 1]);
    let m = (n - 1) as nat;
    let before = Seq::new(m, |i: int| boxed_at(places[i]));
    let prior = Seq::new(m, |i: int| before[i].push(comma()));
    assert(ends =~= prior.push(parts[n - 1].push(comma())));
    prior.lemma_flatten_push(parts[n - 1].push(comma()));
    assert(Seq::new(parts.len(), |i: int| parts[i].push(comma())) =~= ends);
    assert(Seq::new(before.len(), |i: int| before[i].push(comma())) =~= prior);
    if n == 1 {
        assert(prior =~= Seq::empty());
        assert(prior.flatten() =~= Seq::empty());
        assert(boxed_calls(places, n).push(comma()) =~= listed(parts));
    } else {
        lemma_boxed_calls(places, m);
        assert(boxed_calls(places, n).push(comma()) =~= boxed_calls(places, m).push(comma())
            + boxed_at(places[n - 1]).push(comma()));
        assert(boxed_calls(places, n).push(comma()) =~= listed(parts));
    }
}

/// A layer of two or more fields hands the call of every field to `join_all`, each once and in the
/// order of the layer, and waits for what that returns.
pub proof fn law_all_calls_are_awaited_together(krate: Seq<Token>, places: Seq<Seq<Token>>) -> (list:
    Seq<Token>)
    requires
        places.len() >= 2,
    ensures
        list.push(comma()) == listed(Seq::new(places.len(), |i: int| boxed_at(places[i]))),
        layer_code(krate, places) == krate + seq![
            Token::Punct(':', true),
            Token::Punct(':', false),
            Token::Ident("__private"@),
            Token::Punct(':', true),
            Token::Punct(':', false),
            Token::Ident("join_all"@),
            Token::Group(
                Delim::Paren,
                seq![
                    Token::Ident("vec"@),
                    Token::Punct('!', false),
                    Token::Group(Delim::Bracket, list),
                ],
            ),
            Token::Punct('.', false),
            Token::Ident("await"@),
            Token::Punct(';', false),
        ],
{
    let list = boxed_calls(places, places.len());
    lemma_boxed_calls(places, places.len());
    let inner = seq![
        Token::Ident("vec"@),
        Token::Punct('!', false),
        Token::Group(Delim::Bracket, list),
    ];
    assert(id("vec"@) + op('!')
        + enclosed(Delim::Bracket, list) =~= inner);
    assert(layer_code(krate, places) =~= krate + seq![
        Token::Punct(':', true),
        Token::Punct(':', false),
        Token::Ident("__private"@),
        Token::Punct(':', true),
        Token::Punct(':', false),
        Token::Ident("join_all"@),
        Token::Group(Delim::Paren, inner),
        Token::Punct('.', false),
        Token::Ident("await"@),
        Token::Punct(';', false),
    ]);
    list
}

/// Where the entries of layer `k` stand, given where each entry stands.
pub open spec fn places_at(
    layers: Seq<Seq<usize>>,
    places: spec_fn(int) -> Seq<Token>,
    k: int,
) -> Seq<Seq<Token>> {
    Seq::new(layers[k].len(), |j: int| places(layers[k][j] as int))
}

/// The statements of all layers, one after the other and each once.
pub open spec fn statements(
    krate: Seq<Token>,
    layers: Seq<Seq<usize>>,
    places: spec_fn(int) -> Seq<Token>,
) -> Seq<Seq<Token>> {
    Seq::new(layers.len(), |k: int| layer_code(krate, places_at(layers, places, k)))
}

proof fn lemma_layers_code(
    krate: Seq<Token>,
    layers: Seq<Seq<usize>>,
    known: Seq<Seq<Token>>,
    places: spec_fn(int) -> Seq<Token>,
    n: nat,
)
    requires
        n <= layers.len(),
        forall|e: int| 0 <= e < known.len() ==> #[trigger] known[e] == places(e),
        forall|k: int, j: int|
            0 <= k < layers.len() && 0 <= j < layers[k].len() ==> (#[trigger] layers[k][j])
                < known.len(),
    ensures
        layers_code(krate, layers, known, n) == statements(krate, layers, places).take(
            n as int,
        ).flatten(),
    decreases n,
{
    let all = statements(krate, layers, places);
    if n == 0 {
        assert(all.take(0) =~= Seq::empty());
        assert(Seq::<Seq<Token>>::empty().flatten() =~= Seq::empty());
    } else {
        let m = (n - 1) as nat;
        lemma_layers_code(krate, layers, known, places, m);
        let last = layers[n - 1];
        let found = places_in(last, known);
        let meant = places_at(layers, places, n - 1);
        assert forall|j: int| 0 <= j < last.len() implies #[trigger] found[j] == meant[j] by {
            assert(layers[n - 1][j] < known.len());
            assert(known[last[j] as int] == places(last[j] as int));
        }
        assert(found =~= meant);
        assert(all.take(n as int) =~= all.take(m as int).push(all[n - 1]));
        all.take(m as int).lemma_flatten_push(all[n - 1]);
    }
}

/// The layers of accepted fields name entries only.
proof fn lemma_layers_in(fields: Seq<FieldSyntax>, owner: Owner)
    requires
        fields.len() <= usize::MAX,
        planned(fields, owner) is Ok,
    ensures
        ({
            let cleaned = planned(fields, owner)->Ok_0;
            forall|k: int, j: int|
                0 <= k < layers_in(cleaned).len() && 0 <= j < layers_in(cleaned)[k].len() ==> (
                #[trigger] layers_in(cleaned)[k][j]) < cleaned.len()
        }),
{
    lemma_planned(fields, owner);
    let cleaned = planned(fields, owner)->Ok_0;
    let g = entry_graph(entries_in(cleaned));
    assert forall|k: int, j: int|
        0 <= k < layers_in(cleaned).len() && 0 <= j < layers_in(cleaned)[k].len() implies (
    #[trigger] layers_in(cleaned)[k][j]) < cleaned.len() by {
        law_layers_ascend(g, k);
    }
}

/// How a field is referred to in code: by its name, or by its place in decimal notation.
pub open spec fn referred_to_by(member: MemberName, token: Token) -> bool {
    match member {
        MemberName::Named(name) => token == Token::Ident(name),
        MemberName::Unnamed(index) => token == Token::Literal(decimal(index as nat)),
    }
}

/// The method of a struct is the statements of its layers and nothing else; the fields stand at
/// `self.NAME`, or at `self.INDEX`.
pub proof fn law_struct_is_its_layers(fields: Seq<FieldSyntax>, krate: Seq<Token>)
    requires
        fields.len() <= usize::MAX,
        planned(fields, Owner::Struct) is Ok,
    ensures
        ({
            let cleaned = planned(fields, Owner::Struct)->Ok_0;
            &&& struct_code(krate, cleaned) == statements(
                krate,
                layers_in(cleaned),
                |e: int|
                    seq![
                        Token::Ident("self"@),
                        Token::Punct('.', false),
                        member_token(cleaned[e].entry.member),
                    ],
            ).flatten()
            &&& forall|e: int|
                0 <= e < cleaned.len() ==> referred_to_by(
                    (#[trigger] cleaned[e]).entry.member,
                    member_token(cleaned[e].entry.member),
                )
        }),
{
    lemma_layers_in(fields, Owner::Struct);
    let cleaned = planned(fields, Owner::Struct)->Ok_0;
    let layers = layers_in(cleaned);
    let known = struct_places(cleaned);
    let places = |e: int|
        seq![
            Token::Ident("self"@),
            Token::Punct('.', false),
            member_token(cleaned[e].entry.member),
        ];
    assert forall|e: int| 0 <= e < known.len() implies #[trigger] known[e] == places(e) by {
        assert(known[e] =~= places(e));
    }
    lemma_layers_code(krate, layers, known, places, layers.len());
    assert(statements(krate, layers, places).take(layers.len() as int) =~= statements(
        krate,
        layers,
        places,
    ));
}

/// Entries of a variant get names of their own: no two of them are bound to the same.
pub proof fn law_bindings_are_told_apart(d: nat, e: nat)
    requires
        binding(d) == binding(e),
    ensures
        d == e,
{
    let head = "__eulogy_"@;
    assert(binding(d).skip(head.len() as int) =~= decimal(d));
    assert(binding(e).skip(head.len() as int) =~= decimal(e));
    law_decimal_is_read_back(d);
    law_decimal_is_read_back(e);
}

proof fn lemma_bindings(cleaned: Seq<Cleaned>, n: nat)
    requires
        n <= cleaned.len(),
    ensures
        bindings(cleaned, n) == Seq::new(
            n,
            |e: int|
                seq![
                    member_token(cleaned[e].entry.member),
                    Token::Punct(':', false),
                    Token::Ident(binding(e as nat)),
                    comma(),
                ],
        ).flatten(),
    decreases n,
{
    let all = Seq::new(
        n,
        |e: int|
            seq![
                member_token(cleaned[e].entry.member),
                Token::Punct(':', false),
                Token::Ident(binding(e as nat)),
                comma(),
            ],
    );
    if n == 0 {
        assert(all =~= Seq::empty());
        assert(all.flatten() =~= Seq::empty());
    } else {
        let m = (n - 1) as nat;
        lemma_bindings(cleaned, m);
        let before = Seq::new(
            m,
            |e: int|
                seq![
                    member_token(cleaned[e].entry.member),
                    Token::Punct(':', false),
                    Token::Ident(binding(e as nat)),
                    comma(),
                ],
        );
        assert(all =~= before.push(all[n - 1]));
        before.lemma_flatten_push(all[n - 1]);
        assert(bindings(cleaned, n) =~= bindings(cleaned, m) + all[n - 1]);
    }
}

/// The arm of a variant takes the variant apart: every field that is cleaned up is bound to a name of
/// its own, the others are left out, and the body is the statements of the layers on these names.
pub proof fn law_arm_is_its_layers(
    fields: Seq<FieldSyntax>,
    krate: Seq<Token>,
    name: Seq<Token>,
) -> (parts: (Seq<Token>, Seq<Token>))
    requires
        fields.len() <= usize::MAX,
        planned(fields, Owner::Variant) is Ok,
    ensures
        ({
            let cleaned = planned(fields, Owner::Variant)->Ok_0;
            let (pattern, body) = parts;
            &&& arm_code(krate, name, cleaned) == seq![
                Token::Ident("Self"@),
                Token::Punct(':', true),
                Token::Punct(':', false),
            ] + name + seq![
                Token::Group(Delim::Brace, pattern),
                Token::Punct('=', true),
                Token::Punct('>', false),
                Token::Group(Delim::Brace, body),
            ]
            &&& pattern == Seq::new(
                cleaned.len(),
                |e: int|
                    seq![
                        member_token(cleaned[e].entry.member),
                        Token::Punct(':', false),
                        Token::Ident(binding(e as nat)),
                        comma(),
                    ],
            ).flatten() + seq![Token::Punct('.', true), Token::Punct('.', false)]
            &&& body == statements(
                krate,
                layers_in(cleaned),
                |e: int| seq![Token::Ident(binding(e as nat))],
            ).flatten()
            &&& forall|e: int|
                0 <= e < cleaned.len() ==> referred_to_by(
                    (#[trigger] cleaned[e]).entry.member,
                    member_token(cleaned[e].entry.member),
                )
        }),
{
    lemma_layers_in(fields, Owner::Variant);
    let cleaned = planned(fields, Owner::Variant)->Ok_0;
    let layers = layers_in(cleaned);
    let known = variant_places(cleaned);
    let places = |e: int| seq![Token::Ident(binding(e as nat))];
    assert forall|e: int| 0 <= e < known.len() implies #[trigger] known[e] == places(e) by {
        assert(known[e] =~= places(e));
    }
    lemma_layers_code(krate, layers, known, places, layers.len());
    assert(statements(krate, layers, places).take(layers.len() as int) =~= statements(
        krate,
        layers,
        places,
    ));
    lemma_bindings(cleaned, cleaned.len());
    let pattern = bindings(cleaned, cleaned.len()) + seq![
        Token::Punct('.', true),
        Token::Punct('.', false),
    ];
    let body = layers_code(krate, layers, known, layers.len());
    assert(bindings(cleaned, cleaned.len()) + op2('.', '.') =~= pattern);
    assert(arm_code(krate, name, cleaned) =~= seq![
        Token::Ident("Self"@),
        Token::Punct(':', true),
        Token::Punct(':', false),
    ] + name + seq![
        Token::Group(Delim::Brace, pattern),
        Token::Punct('=', true),
        Token::Punct('>', false),
        Token::Group(Delim::Brace, body),
    ]);
    (pattern, body)
}

/// The bound on the type of a field.
pub open spec fn bound_at(ty: Seq<Token>, krate: Seq<Token>) -> Seq<Token> {
    ty + seq![Token::Punct(':', false)] + krate + seq![
        Token::Punct(':', true),
        Token::Punct(':', false),
        Token::Ident("AsyncDrop"@),
    ]
}

/// The predicates with a comma behind the last of them, if there is any.
pub open spec fn closed_off(predicates: Seq<Token>) -> Seq<Token> {
    if predicates.len() == 0 || (predicates.last() matches Token::Punct(ch, _) && ch == ',') {
        predicates
    } else {
        predicates.push(comma())
    }
}

#[verifier::rlimit(40)]
#[verifier::spinoff_prover]
proof fn lemma_bounds(item: ItemSyntax, krate: Seq<Token>, types: Seq<Seq<Token>>, n: nat)
    requires
        0 < n <= types.len(),
    ensures
        bounds(item, krate, types, n).push(comma()) == closed_off(item.predicates) + listed(
            Seq::new(n, |i: int| bound_at(types[i], krate)),
        ),
    decreases n,
{
    let m = (n - 1) as nat;
    let parts = Seq::new(n, |i: int| bound_at(types[i], krate));
    let ends = Seq::new(parts.len(), |i: int| parts[i].push(comma()));
    let before = Seq::new(m, |i: int| bound_at(types[i], krate));
    let prior = Seq::new(before.len(), |i: int| before[i].push(comma()));
    assert(ends =~= prior.push(parts[n - 1].push(comma())));
    prior.lemma_flatten_push(parts[n - 1].push(comma()));
    if n == 1 {
        assert(prior =~= Seq::empty());
        assert(prior.flatten() =~= Seq::empty());
        let own = item.predicates;
        let bound = bound_at(types[0], krate);
        assert(bounds(item, krate, types, 0) == own);
        let start = if is_open(own) {
            own + op(',')
        } else {
            own
        };
        assert(start =~= closed_off(own));
        assert(bounds(item, krate, types, 1) == start + types[0] + op(':') + krate + path_sep()
            + id("AsyncDrop"@));
        assert(bounds(item, krate, types, 1) =~= start + bound);
        assert((start + bound).push(comma()) =~= start + bound.push(comma()));
        assert(listed(parts) =~= bound_at(types[0], krate).push(comma()));
    } else {
        lemma_bounds(item, krate, types, m);
        assert(bounds(item, krate, types, n).push(comma()) =~= bounds(item, krate, types, m).push(
            comma(),
        ) + bound_at(types[n - 1], krate).push(comma()));
        assert(bounds(item, krate, types, n).push(comma()) =~= closed_off(item.predicates)
            + listed(parts));
    }
}

/// The predicates of the impl are those of the item, followed by one bound for each type and nothing
/// else, with commas between them. Where there is no type, they are those of the item.
pub proof fn law_bounds_are_listed(item: ItemSyntax, krate: Seq<Token>, types: Seq<Seq<Token>>)
    ensures
        types.len() == 0 ==> bounds(item, krate, types, types.len()) == item.predicates,
        types.len() > 0 ==> bounds(item, krate, types, types.len()).push(comma()) == closed_off(
            item.predicates,
        ) + listed(Seq::new(types.len(), |i: int| bound_at(types[i], krate))),
{
    if types.len() > 0 {
        lemma_bounds(item, krate, types, types.len());
    }
}

/// The impl is for the item, with its generics; it has a `where` clause exactly if there are
/// predicates, and its only method is `async_drop`, with the given body.
pub proof fn law_impl_is_for_the_item(
    item: ItemSyntax,
    krate: Seq<Token>,
    types: Seq<Seq<Token>>,
    body: Seq<Token>,
)
    ensures
        ({
            let predicates = bounds(item, krate, types, types.len());
            impl_code(item, krate, types, body) == seq![Token::Ident("impl"@)] + item.impl_generics
                + krate + seq![
                Token::Punct(':', true),
                Token::Punct(':', false),
                Token::Ident("AsyncDrop"@),
                Token::Ident("for"@),
            ] + item.name + item.ty_generics + (if predicates.len() == 0 {
                Seq::empty()
            } else {
                seq![Token::Ident("where"@)] + predicates
            }) + seq![
                Token::Group(
                    Delim::Brace,
                    seq![
                        Token::Ident("async"@),
                        Token::Ident("fn"@),
                        Token::Ident("async_drop"@),
                        Token::Group(Delim::Paren, seq![Token::Ident("self"@)]),
                        Token::Group(Delim::Brace, body),
                    ],
                ),
            ]
        }),
{
    let predicates = bounds(item, krate, types, types.len());
    let method = seq![
        Token::Ident("async"@),
        Token::Ident("fn"@),
        Token::Ident("async_drop"@),
        Token::Group(Delim::Paren, seq![Token::Ident("self"@)]),
        Token::Group(Delim::Brace, body),
    ];
    assert(id("async"@) + id("fn"@)
        + id("async_drop"@) + enclosed(
        Delim::Paren,
        id("self"@),
    ) + enclosed(Delim::Brace, body) =~= method);
    let clause = if predicates.len() == 0 {
        Seq::empty()
    } else {
        seq![Token::Ident("where"@)] + predicates
    };
    assert(where_code(predicates) =~= clause);
    assert(impl_code(item, krate, types, body) =~= seq![Token::Ident("impl"@)] + item.impl_generics
        + krate + seq![
        Token::Punct(':', true),
        Token::Punct(':', false),
        Token::Ident("AsyncDrop"@),
        Token::Ident("for"@),
    ] + item.name + item.ty_generics + clause + seq![Token::Group(Delim::Brace, method)]);
}

/// What the arm of a variant adds: its code, and the types of the fields that it cleans up.
pub open spec fn arm_at(
    variants: Seq<VariantSyntax>,
    krate: Seq<Token>,
    v: int,
) -> (Seq<Token>, Seq<Seq<Token>>) {
    let cleaned = planned(variants[v].fields, Owner::Variant)->Ok_0;
    (
        arm_code(krate, variants[v].name, cleaned),
        Seq::new(cleaned.len(), |e: int| variants[v].fields[cleaned[e].field].ty),
    )
}

proof fn lemma_arms(variants: Seq<VariantSyntax>, krate: Seq<Token>, n: nat)
    requires
        n <= variants.len(),
        arms_code(variants, krate, n) is Ok,
    ensures
        arms_code(variants, krate, n)->Ok_0.body == Seq::new(
            n,
            |v: int| arm_at(variants, krate, v).0,
        ).flatten(),
        arms_code(variants, krate, n)->Ok_0.types == Seq::new(
            n,
            |v: int| arm_at(variants, krate, v).1,
        ).flatten(),
    decreases n,
{
    let bodies = Seq::new(n, |v: int| arm_at(variants, krate, v).0);
    let types = Seq::new(n, |v: int| arm_at(variants, krate, v).1);
    if n == 0 {
        assert(bodies =~= Seq::empty());
        assert(types =~= Seq::empty());
        assert(bodies.flatten() =~= Seq::empty());
        assert(types.flatten() =~= Seq::empty());
    } else {
        let m = (n - 1) as nat;
        lemma_arms(variants, krate, m);
        let prior = Seq::new(m, |v: int| arm_at(variants, krate, v).0);
        let known = Seq::new(m, |v: int| arm_at(variants, krate, v).1);
        assert(bodies =~= prior.push(bodies[n - 1]));
        assert(types =~= known.push(types[n - 1]));
        prior.lemma_flatten_push(bodies[n - 1]);
        known.lemma_flatten_push(types[n - 1]);
        let cleaned = planned(variants[n - 1].fields, Owner::Variant)->Ok_0;
        assert(types_in(variants[n - 1].fields, cleaned) =~= types[n - 1]);
    }
}

/// The method of an accepted enum matches on the value, with one arm for each variant in the order
/// of the variants; the types that get a bound are those of the fields that the arms clean up.
pub proof fn law_enum_is_its_arms(variants: Seq<VariantSyntax>, krate: Seq<Token>) -> (arms: Seq<
    Token,
>)
    requires
        enum_method(variants, krate) is Ok,
    ensures
        arms == Seq::new(variants.len(), |v: int| arm_at(variants, krate, v).0).flatten(),
        enum_method(variants, krate)->Ok_0.body == seq![
            Token::Ident("match"@),
            Token::Ident("self"@),
            Token::Group(Delim::Brace, arms),
        ],
        enum_method(variants, krate)->Ok_0.types == Seq::new(
            variants.len(),
            |v: int| arm_at(variants, krate, v).1,
        ).flatten(),
{
    lemma_arms(variants, krate, variants.len());
    let arms = arms_code(variants, krate, variants.len())->Ok_0.body;
    assert(enum_code(arms) =~= seq![
        Token::Ident("match"@),
        Token::Ident("self"@),
        Token::Group(Delim::Brace, arms),
    ]);
    arms
}

/// A struct is accepted exactly if its fields are, and refused for what they are refused for. The
/// method is that of the fields, and the types that get a bound are those of the fields that are
/// cleaned up, in order.
pub proof fn law_struct_stands_for_its_fields(fields: Seq<FieldSyntax>, krate: Seq<Token>)
    ensures
        match planned(fields, Owner::Struct) {
            Err(refusal) => struct_method(fields, krate) is Err && struct_method(
                fields,
                krate,
            )->Err_0 == refusal,
            Ok(cleaned) => {
                &&& struct_method(fields, krate) is Ok
                &&& struct_method(fields, krate)->Ok_0.body == struct_code(krate, cleaned)
                &&& struct_method(fields, krate)->Ok_0.types == Seq::new(
                    cleaned.len(),
                    |e: int| fields[cleaned[e].field].ty,
                )
            },
        },
{
    if planned(fields, Owner::Struct) is Ok {
        let cleaned = planned(fields, Owner::Struct)->Ok_0;
        assert(types_in(fields, cleaned) =~= Seq::new(
            cleaned.len(),
            |e: int| fields[cleaned[e].field].ty,
        ));
    }
}

/// What a derive gives out is an impl for an item that it accepts, and a report of what is wrong for
/// any other input. Nothing that is accepted is reported, and nothing that is refused gets an impl.
pub proof fn law_derive_answers(input: TokenStream, found: FoundCrate, output: TokenStream)
    requires
        call_ensures(derive_async_drop, (input, found), output),
    ensures
        ({
            let krate = match found {
                FoundCrate::Itself => seq![Token::Ident("crate"@)],
                FoundCrate::Name(name) => seq![
                    Token::Punct(':', true),
                    Token::Punct(':', false),
                ] + tokens_of(name),
                FoundCrate::Missing => seq![
                    Token::Punct(':', true),
                    Token::Punct(':', false),
                    Token::Ident("eulogy"@),
                ],
            };
            match parsed_item(tokens_of(input)) {
                Err(messages) => reports(tokens_of(output), messages),
                Ok(item) => {
                    let method = match item.body {
                        BodySyntax::Struct(fields) => struct_method(fields, krate),
                        BodySyntax::Enum(variants) => enum_method(variants, krate),
                        BodySyntax::Union => Err(
                            Refusal::Rule(
                                "#[derive(AsyncDrop)] only supports structs and enums"@,
                                At::Whole(item.name),
                            ),
                        ),
                    };
                    match method {
                        Ok(code) => tokens_of(output) == impl_code(
                            item,
                            krate,
                            code.types,
                            code.body,
                        ),
                        Err(Refusal::Syntax(messages)) => reports(tokens_of(output), messages),
                        Err(Refusal::Rule(message, _)) => reports(
                            tokens_of(output),
                            seq![message],
                        ),
                    }
                },
            }
        }),
{
    assert(FoundCrate::Missing.path() =~= seq![
        Token::Punct(':', true),
        Token::Punct(':', false),
        Token::Ident("eulogy"@),
    ]);
}

/// The code is cut in three, and the middle part is one statement that waits for the cleanup of what
/// stands at a place, alone or together with others.
pub open spec fn awaits_at(
    code: Seq<Token>,
    krate: Seq<Token>,
    places: Seq<Seq<Token>>,
    place: Seq<Token>,
    before: Seq<Token>,
    behind: Seq<Token>,
) -> bool {
    &&& code == before + layer_code(krate, places) + behind
    &&& places.contains(place)
    &&& is_awaited(layer_code(krate, places))
}

/// The method of an accepted struct waits for the cleanup of every field that is not to be skipped:
/// in one of its statements the cleanup of the field is called, and the statement is awaited.
pub proof fn law_every_field_is_awaited(
    fields: Seq<FieldSyntax>,
    krate: Seq<Token>,
    i: int,
) -> (parts: (Token, Seq<Seq<Token>>, Seq<Token>, Seq<Token>))
    requires
        fields.len() <= usize::MAX,
        planned(fields, Owner::Struct) is Ok,
        0 <= i < fields.len(),
        !request_of(fields[i])->Ok_0.skip,
    ensures
        ({
            let (token, places, before, behind) = parts;
            &&& match fields[i].name {
                Some(name) => token == Token::Ident(name),
                None => token == Token::Literal(decimal(i as u32 as nat)),
            }
            &&& awaits_at(
                struct_code(krate, planned(fields, Owner::Struct)->Ok_0),
                krate,
                places,
                seq![Token::Ident("self"@), Token::Punct('.', false), token],
                before,
                behind,
            )
        }),
{
    let cleaned = planned(fields, Owner::Struct)->Ok_0;
    let layers = layers_in(cleaned);
    law_each_field_once(fields, Owner::Struct, i);
    lemma_planned(fields, Owner::Struct);
    let e = choose|e: int| is_for(cleaned, e, i);
    let k = choose|k: int| stands_in(layers, e, k);
    law_entries_stand_for_their_fields(fields, e);
    law_struct_is_its_layers(fields, krate);
    let at = |e: int|
        seq![
            Token::Ident("self"@),
            Token::Punct('.', false),
            member_token(cleaned[e].entry.member),
        ];
    let all = statements(krate, layers, at);
    let places = places_at(layers, at, k);
    let token = member_token(cleaned[e].entry.member);
    let j = choose|j: int| 0 <= j < layers[k].len() && layers[k][j] == e as usize;
    assert(places[j] == at(e));
    assert(places.contains(at(e)));
    law_every_layer_is_awaited(krate, places);
    let first = all.take(k);
    let rest = all.skip(k + 1);
    assert(all =~= first.push(all[k]) + rest);
    vstd::seq_lib::lemma_flatten_concat(first.push(all[k]), rest);
    first.lemma_flatten_push(all[k]);
    assert(referred_to_by(cleaned[e].entry.member, token));
    (token, places, first.flatten(), rest.flatten())
}

} // verus!
