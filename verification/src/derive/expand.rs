//! From an item to the impl of its cleanup.
use crate::derive::codegen::{
    arm_code, enum_code, id, impl_code, is_part, put_sep, put_word, streams_of, struct_code,
    types_in, types_of, write_arm, write_enum, write_impl, write_struct,
};
use crate::derive::fault::{union_message, At, DeriveError, Fault, Owner, Place, Refusal};
use crate::derive::plan::{plan_fields, planned};
use crate::derive::syntax::{
    fields_of, parse_item, parsed_item, read_fields, reports, Body, BodySyntax, FieldSyntax, Item,
    ItemSyntax, Variant, VariantSyntax,
};
use crate::derive::tokens::{append, copy_of, empty_stream, path_sep, tokens_of, word, Token};
use proc_macro2::TokenStream;
use vstd::prelude::*;

verus! {

/// Where the code that is written finds this library.
pub enum FoundCrate {
    /// In the crate that is being compiled.
    Itself,
    /// In a dependency under this name.
    Name(TokenStream),
    /// Nowhere that is known.
    Missing,
}

impl FoundCrate {
    /// The path of the library: `crate`, `::NAME`, or `::eulogy` where nothing better is known.
    pub open spec fn path(self) -> Seq<Token> {
        match self {
            FoundCrate::Itself => id("crate"@),
            FoundCrate::Name(name) => path_sep() + tokens_of(name),
            FoundCrate::Missing => path_sep() + id("eulogy"@),
        }
    }
}

/// The path of this library in the code that is written.
pub fn eulogy_crate(found: &FoundCrate) -> (path: TokenStream)
    ensures
        tokens_of(path) == found.path(),
{
    proof {
        reveal_strlit("crate");
        reveal_strlit("eulogy");
    }
    match found {
        FoundCrate::Itself => word("crate"),
        FoundCrate::Name(name) => {
            let mut path = empty_stream();
            put_sep(&mut path);
            append(&mut path, name);
            assert(tokens_of(path) =~= path_sep() + tokens_of(*name));
            path
        },
        FoundCrate::Missing => {
            let mut path = empty_stream();
            put_sep(&mut path);
            put_word(&mut path, "eulogy");
            assert(tokens_of(path) =~= path_sep() + id("eulogy"@));
            path
        },
    }
}

/// The body of a method, and the types that have to have a cleanup of their own for it.
pub struct MethodCode {
    pub body: Seq<Token>,
    pub types: Seq<Seq<Token>>,
}

/// The arms for the first `n` variants, or why the first bad one of them is refused. Each variant
/// stands for itself: its fields wait for fields of the same variant only.
pub open spec fn arms_code(variants: Seq<VariantSyntax>, krate: Seq<Token>, n: nat) -> Result<
    MethodCode,
    Refusal,
>
    decreases n,
{
    if n == 0 {
        Ok(MethodCode { body: Seq::empty(), types: Seq::empty() })
    } else {
        match arms_code(variants, krate, (n - 1) as nat) {
            Err(refusal) => Err(refusal),
            Ok(before) => {
                let variant = variants[n - 1];
                match planned(variant.fields, Owner::Variant) {
                    Err(refusal) => Err(refusal),
                    Ok(cleaned) => Ok(
                        MethodCode {
                            body: before.body + arm_code(krate, variant.name, cleaned),
                            types: before.types + types_in(variant.fields, cleaned),
                        },
                    ),
                }
            },
        }
    }
}

/// The method for a struct, or why the struct is refused.
pub open spec fn struct_method(fields: Seq<FieldSyntax>, krate: Seq<Token>) -> Result<
    MethodCode,
    Refusal,
> {
    match planned(fields, Owner::Struct) {
        Err(refusal) => Err(refusal),
        Ok(cleaned) => Ok(
            MethodCode { body: struct_code(krate, cleaned), types: types_in(fields, cleaned) },
        ),
    }
}

/// The method for an enum, or why the enum is refused.
pub open spec fn enum_method(variants: Seq<VariantSyntax>, krate: Seq<Token>) -> Result<
    MethodCode,
    Refusal,
> {
    match arms_code(variants, krate, variants.len()) {
        Err(refusal) => Err(refusal),
        Ok(code) => Ok(MethodCode { body: enum_code(code.body), types: code.types }),
    }
}

/// The method for an item, or why the item is refused. A union is, at its name.
pub open spec fn method_code(item: ItemSyntax, krate: Seq<Token>) -> Result<MethodCode, Refusal> {
    match item.body {
        BodySyntax::Struct(fields) => struct_method(fields, krate),
        BodySyntax::Enum(variants) => enum_method(variants, krate),
        BodySyntax::Union => Err(Refusal::Rule(union_message(), At::Whole(item.name))),
    }
}

/// The impl for an item, or why the item is refused.
pub open spec fn expanded(item: ItemSyntax, krate: Seq<Token>) -> Result<Seq<Token>, Refusal> {
    match method_code(item, krate) {
        Err(refusal) => Err(refusal),
        Ok(code) => Ok(impl_code(item, krate, code.types, code.body)),
    }
}

/// The output is what a derive makes of its input: the impl, or a report of the errors for the
/// compiler to show.
pub open spec fn derives(input: Seq<Token>, krate: Seq<Token>, output: Seq<Token>) -> bool {
    match parsed_item(input) {
        Err(messages) => reports(output, messages),
        Ok(item) => match expanded(item, krate) {
            Err(refusal) => reports(output, refusal.messages()),
            Ok(code) => output == code,
        },
    }
}

/// A method that is being written.
struct Method {
    body: TokenStream,
    types: Vec<TokenStream>,
}

impl Method {
    spec fn code(self) -> MethodCode {
        MethodCode { body: tokens_of(self.body), types: streams_of(self.types@) }
    }
}

/// The method for a struct.
fn expand_struct(fields: &syn::Fields, krate: &TokenStream) -> (result: Result<
    Method,
    DeriveError,
>)
    ensures
        match result {
            Ok(method) => struct_method(fields_of(*fields), tokens_of(*krate)) == Ok::<_, Refusal>(
                method.code(),
            ),
            Err(error) => struct_method(fields_of(*fields), tokens_of(*krate)) == Err::<
                MethodCode,
                _,
            >(error.refusal()),
        },
{
    let list = read_fields(fields);
    match plan_fields(&list, Owner::Struct) {
        Ok(plan) => Ok(
            Method { body: write_struct(krate, &list, &plan), types: types_of(&list, &plan) },
        ),
        Err(error) => Err(error),
    }
}

proof fn lemma_first_bad_variant(
    variants: Seq<VariantSyntax>,
    krate: Seq<Token>,
    n: nat,
    m: nat,
)
    requires
        n <= m,
        arms_code(variants, krate, n) is Err,
    ensures
        arms_code(variants, krate, m) == arms_code(variants, krate, n),
    decreases m,
{
    if n < m {
        lemma_first_bad_variant(variants, krate, n, (m - 1) as nat);
    }
}

/// The method for an enum.
fn expand_enum(variants: &Vec<Variant>, krate: &TokenStream) -> (result: Result<
    Method,
    DeriveError,
>)
    ensures
        match result {
            Ok(method) => enum_method(
                Body::Enum(*variants).syntax()->Enum_0,
                tokens_of(*krate),
            ) == Ok::<_, Refusal>(method.code()),
            Err(error) => enum_method(
                Body::Enum(*variants).syntax()->Enum_0,
                tokens_of(*krate),
            ) == Err::<MethodCode, _>(error.refusal()),
        },
{
    let ghost all = Body::Enum(*variants).syntax()->Enum_0;
    let ghost path = tokens_of(*krate);
    let mut arms = empty_stream();
    let mut types: Vec<TokenStream> = Vec::new();
    assert(streams_of(types@) =~= Seq::empty());
    let mut v: usize = 0;
    while v < variants.len()
        invariant
            v <= variants@.len(),
            all == Body::Enum(*variants).syntax()->Enum_0,
            path == tokens_of(*krate),
            arms_code(all, path, v as nat) == Ok::<_, Refusal>(
                (MethodCode { body: tokens_of(arms), types: streams_of(types@) }),
            ),
        decreases variants@.len() - v,
    {
        assert(all[v as int] == variants@[v as int].syntax());
        let list = read_fields(&variants[v].fields);
        match plan_fields(&list, Owner::Variant) {
            Ok(plan) => {
                let ghost before = streams_of(types@);
                let mut more = types_of(&list, &plan);
                let ghost added = streams_of(more@);
                append(&mut arms, &write_arm(krate, &variants[v].name, &list, &plan));
                types.append(&mut more);
                assert(streams_of(types@) =~= before + added);
            },
            Err(error) => {
                proof {
                    lemma_first_bad_variant(all, path, (v + 1) as nat, all.len());
                }
                return Err(error);
            },
        }
        v += 1;
    }
    Ok(Method { body: write_enum(arms), types })
}

/// Writes the impl for an item, with `krate` as the path of this library.
pub fn expand(item: &Item, krate: &TokenStream) -> (result: Result<TokenStream, DeriveError>)
    ensures
        match result {
            Ok(code) => expanded(item.syntax(), tokens_of(*krate)) == Ok::<_, Refusal>(
                tokens_of(code),
            ),
            Err(error) => expanded(item.syntax(), tokens_of(*krate)) == Err::<Seq<Token>, _>(
                error.refusal(),
            ),
        },
{
    let result = match &item.body {
        Body::Struct(fields) => expand_struct(fields, krate),
        Body::Enum(variants) => expand_enum(variants, krate),
        Body::Union => Err(DeriveError::Rule(Fault::Union, Place::Whole(copy_of(&item.name)))),
    };
    match result {
        Ok(method) => Ok(write_impl(item, krate, &method.types, method.body)),
        Err(error) => Err(error),
    }
}

/// Derives the cleanup of a struct or an enum from the cleanup of its fields.
///
/// Works on structs with named fields, tuple structs and unit structs, and on enums with variants
/// of these shapes. Every field is cleaned up unless it is marked `#[eulogy(skip)]`; the type of
/// every field that is cleaned up has to have a cleanup of its own. With
/// `#[eulogy(after = [a, b])]` a field is cleaned up once the listed fields are done; fields of a
/// tuple are listed by their index. Fields that need not wait for each other are cleaned up at the
/// same time.
pub fn derive_async_drop(input: TokenStream, found: FoundCrate) -> (output: TokenStream)
    ensures
        derives(tokens_of(input), found.path(), tokens_of(output)),
{
    let item = match parse_item(input) {
        Ok(item) => item,
        Err(error) => {
            return DeriveError::Syntax(error).to_tokens();
        },
    };
    match expand(&item, &eulogy_crate(&found)) {
        Ok(code) => code,
        Err(error) => error.to_tokens(),
    }
}

/// A union is refused, whatever its fields are.
pub proof fn law_unions_are_refused(item: ItemSyntax, krate: Seq<Token>)
    requires
        item.body is Union,
    ensures
        expanded(item, krate) == Err::<Seq<Token>, _>(
            Refusal::Rule(union_message(), At::Whole(item.name)),
        ),
{
}

/// An enum is accepted exactly if each of its variants is accepted by itself, and refused for what
/// its first bad variant is refused for. What a field may wait for is decided within its variant.
pub proof fn law_variants_stand_alone(variants: Seq<VariantSyntax>, krate: Seq<Token>, n: nat)
    requires
        n <= variants.len(),
    ensures
        arms_code(variants, krate, n) is Ok <==> forall|v: int|
            0 <= v < n ==> planned((#[trigger] variants[v]).fields, Owner::Variant) is Ok,
        forall|v: int|
            0 <= v < n && planned((#[trigger] variants[v]).fields, Owner::Variant) is Err && (
            forall|w: int|
                0 <= w < v ==> planned((#[trigger] variants[w]).fields, Owner::Variant) is Ok)
                ==> arms_code(variants, krate, n) == Err::<MethodCode, _>(
                planned(variants[v].fields, Owner::Variant)->Err_0,
            ),
    decreases n,
{
    if n > 0 {
        law_variants_stand_alone(variants, krate, (n - 1) as nat);
    }
}

/// The arm of every variant stands in the body of the method, and the types of the fields that it
/// cleans up are among those that get a bound.
pub proof fn law_each_variant_has_its_arm(
    variants: Seq<VariantSyntax>,
    krate: Seq<Token>,
    v: int,
    n: nat,
)
    requires
        0 <= v < n <= variants.len(),
        arms_code(variants, krate, n) is Ok,
    ensures
        planned(variants[v].fields, Owner::Variant) is Ok,
        exists|before: Seq<Token>, behind: Seq<Token>| #[trigger]
            is_part(
                arms_code(variants, krate, n)->Ok_0.body,
                before,
                arm_code(
                    krate,
                    variants[v].name,
                    planned(variants[v].fields, Owner::Variant)->Ok_0,
                ),
                behind,
            ),
        forall|e: int|
            0 <= e < planned(variants[v].fields, Owner::Variant)->Ok_0.len()
                ==> arms_code(variants, krate, n)->Ok_0.types.contains(
                #[trigger] types_in(
                    variants[v].fields,
                    planned(variants[v].fields, Owner::Variant)->Ok_0,
                )[e],
            ),
    decreases n,
{
    let prior = arms_code(variants, krate, (n - 1) as nat)->Ok_0;
    let whole = arms_code(variants, krate, n)->Ok_0;
    let cleaned = planned(variants[v].fields, Owner::Variant)->Ok_0;
    let arm = arm_code(krate, variants[v].name, cleaned);
    let types = types_in(variants[v].fields, cleaned);
    if v == n - 1 {
        assert(whole.body =~= prior.body + arm + Seq::<Token>::empty());
        assert(is_part(whole.body, prior.body, arm, Seq::empty()));
        assert forall|e: int| 0 <= e < cleaned.len() implies whole.types.contains(
            #[trigger] types[e],
        ) by {
            assert(whole.types[prior.types.len() + e] == types[e]);
        }
    } else {
        law_each_variant_has_its_arm(variants, krate, v, (n - 1) as nat);
        let (before, behind) = choose|before: Seq<Token>, behind: Seq<Token>| #[trigger]
            is_part(prior.body, before, arm, behind);
        let last = variants[n - 1];
        let more = behind + arm_code(
            krate,
            last.name,
            planned(last.fields, Owner::Variant)->Ok_0,
        );
        assert(whole.body =~= before + arm + more);
        assert(is_part(whole.body, before, arm, more));
        assert forall|e: int| 0 <= e < cleaned.len() implies whole.types.contains(
            #[trigger] types[e],
        ) by {
            assert(prior.types.contains(types[e]));
            let at = choose|at: int| 0 <= at < prior.types.len() && prior.types[at] == types[e];
            assert(whole.types[at] == types[e]);
        }
    }
}

} // verus!
