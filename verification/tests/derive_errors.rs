use eulogy::derive::directives::read_args;
use eulogy::derive::fault::{DeriveError, Owner, Place};
use eulogy::derive::plan::plan_fields;
use eulogy::derive::syntax::{Attr, AttrArgs, Field};
use eulogy::{derive_async_drop, FoundCrate};
use proc_macro2::{Delimiter, Group, Span, TokenStream, TokenTree};

fn squeezed(text: &str) -> String {
    text.chars().filter(|c| !c.is_whitespace()).collect()
}

fn output(item: &str) -> String {
    derive_async_drop(item.parse().expect("an item"), FoundCrate::Missing).to_string()
}

/// The derive is refused with this message alone.
fn assert_refused(item: &str, message: &str) {
    let code = format!("::core::compile_error!{{{:?}}}", message);
    assert_eq!(squeezed(&output(item)), squeezed(&code));
}

/// The field with these arguments is refused with this message.
fn assert_args_refused(args: &str, message: &str) {
    assert_refused(&format!("struct S {{ a: A, #[eulogy({})] b: B }}", args), message);
}

#[test]
fn after_cycle() {
    assert_refused(
        "struct Foo { #[eulogy(after = [b])] a: Res, #[eulogy(after = [a])] b: Res, }",
        "cycle detected in #[eulogy(after = [...])] dependencies",
    );
}

#[test]
fn longer_cycle() {
    assert_refused(
        "struct Foo {
            free: Res,
            #[eulogy(after = [free, c])] a: Res,
            #[eulogy(after = [a])] b: Res,
            #[eulogy(after = [b])] c: Res,
        }",
        "cycle detected in #[eulogy(after = [...])] dependencies",
    );
}

#[test]
fn after_references_skipped_field() {
    assert_refused(
        "struct Foo { #[eulogy(skip)] child: Res, #[eulogy(after = [child])] parent: Res, }",
        "field `child` is skipped or unannotated — it cannot appear in an `after` list",
    );
}

#[test]
fn after_self_reference() {
    assert_refused(
        "struct Foo { #[eulogy(after = [child])] child: Res, }",
        "field `child` cannot list itself in #[eulogy(after = [...])]",
    );
    assert_refused(
        "struct Foo(#[eulogy(after = [0])] Res);",
        "field `0` cannot list itself in #[eulogy(after = [...])]",
    );
}

#[test]
fn enum_after_cross_variant() {
    assert_refused(
        "enum Foo { Bar { a: Res }, Baz { #[eulogy(after = [a])] b: Res, }, }",
        "no field `a` in this variant",
    );
}

#[test]
fn skip_with_after() {
    assert_refused(
        "struct Foo { b: Res, #[eulogy(skip, after = [b])] a: Res, }",
        "`skip` cannot be combined with `after` — pick one",
    );
    assert_refused(
        "struct Foo { b: Res, #[eulogy(after = [], skip)] a: Res, }",
        "`skip` cannot be combined with `after` — pick one",
    );
}

#[test]
fn union_rejected() {
    assert_refused(
        "union Foo { a: u32, }",
        "#[derive(AsyncDrop)] only supports structs and enums",
    );
}

#[test]
fn unknown_after_field() {
    assert_refused(
        "struct Foo { child: Res, #[eulogy(after = [chld])] parent: Res, }",
        "no field `chld` in this struct",
    );
    assert_refused("struct Foo(Res, #[eulogy(after = [7])] Res);", "no field `7` in this struct");
}

#[test]
fn names_and_positions_do_not_mix() {
    assert_refused(
        "struct Foo { a: Res, #[eulogy(after = [0])] b: Res, }",
        "no field `0` in this struct",
    );
}

#[test]
fn elements_have_to_be_names_or_positions() {
    assert_args_refused("after = [\"a\"]", "expected a field name or index");
    assert_args_refused("after = [a + a]", "expected a field name or index");
    assert_args_refused("after = [a, 'x']", "expected a field name or index");
    assert_args_refused("after = [4294967296]", "number too large to fit in target type");
}

#[test]
fn keys_are_checked() {
    let unknown = "unknown #[eulogy(...)] key — expected `after` or `skip`";
    assert_args_refused("before", unknown);
    assert_args_refused("a::skip", unknown);
    assert_args_refused("::skip", unknown);
    assert_args_refused("skip, later = [a]", unknown);
    assert_args_refused("= a", "unexpected token in nested attribute, expected ident");
    assert_args_refused("\"a\"", "unexpected literal in nested attribute, expected ident");
    assert_args_refused("::", "unexpected end of input, expected nested attribute");
    assert_args_refused("a:: =", "expected ident");
    assert_args_refused("a::", "unexpected end of input, expected ident");
}

#[test]
fn arguments_are_checked() {
    assert_args_refused("after [a]", "expected `=`");
    assert_args_refused("after", "expected `=`");
    assert_args_refused("after = a", "expected square brackets");
    assert_args_refused("after =", "unexpected end of input, expected square brackets");
    assert_args_refused("skip skip", "expected `,`");
    assert_args_refused("after = [a] skip", "expected `,`");
}

#[test]
fn the_first_fault_is_reported() {
    // A bad attribute comes before a bad name, and the earlier field before the later one.
    assert_refused(
        "struct S { #[eulogy(after = [nowhere])] a: A, #[eulogy(before)] b: B }",
        "unknown #[eulogy(...)] key — expected `after` or `skip`",
    );
    assert_refused(
        "struct S { #[eulogy(after = [first])] a: A, #[eulogy(after = [second])] b: B }",
        "no field `first` in this struct",
    );
    // Within the arguments, what is written first.
    assert_args_refused("after = [1 + 1], before", "expected a field name or index");
    // A bad name comes before a circle.
    assert_refused(
        "struct S {
            #[eulogy(after = [b])] a: A,
            #[eulogy(after = [a])] b: B,
            #[eulogy(after = [nowhere])] c: C,
        }",
        "no field `nowhere` in this struct",
    );
    // The earlier variant before the later one.
    assert_refused(
        "enum E { A { #[eulogy(after = [x])] a: A }, B { #[eulogy(after = [y])] b: B } }",
        "no field `x` in this variant",
    );
}

#[test]
fn input_that_is_no_item_is_reported() {
    let code = output("fn main() {}");
    assert!(code.contains("compile_error"));
    assert!(code.contains("expected one of: `struct`, `enum`, `union`"));
}

/// What the parser crate makes of the arguments of an attribute.
fn reference(tokens: TokenStream) -> Result<(bool, Vec<String>), String> {
    let attr: syn::Attribute = syn::Attribute {
        pound_token: Default::default(),
        style: syn::AttrStyle::Outer,
        bracket_token: Default::default(),
        meta: syn::Meta::List(syn::MetaList {
            path: syn::parse_str("eulogy").expect("a path"),
            delimiter: syn::MacroDelimiter::Paren(Default::default()),
            tokens,
        }),
    };
    let mut skip = false;
    let mut after: Vec<String> = Vec::new();
    let result = attr.parse_nested_meta(|meta| {
        if meta.path.is_ident("after") {
            meta.input.parse::<syn::token::Eq>()?;
            let list: syn::ExprArray = meta.input.parse()?;
            for elem in &list.elems {
                match elem {
                    syn::Expr::Path(path) => {
                        let last = path.path.segments.last().expect("a segment");
                        after.push(last.ident.to_string());
                    }
                    other => {
                        return Err(syn::Error::new_spanned(
                            other,
                            "expected a field name or index",
                        ));
                    }
                }
            }
            Ok(())
        } else if meta.path.is_ident("skip") {
            skip = true;
            Ok(())
        } else {
            Err(syn::Error::new_spanned(
                &meta.path,
                "unknown #[eulogy(...)] key — expected `after` or `skip`",
            ))
        }
    });
    match result {
        Ok(()) => Ok((skip, after)),
        Err(error) => Err(error.to_string()),
    }
}

#[test]
fn arguments_are_read_as_the_parser_crate_reads_them() {
    let cases = [
        "", "skip", "skip,", "skip, skip", "skip skip", ",", ",skip", "skip,,", "after = [a]",
        "after = [a],", "after = [a, c]", "after = [a,]", "after = []", "after = [a], after = [c]",
        "after = [m::a]", "after = [::a]", "after =", "after = a", "after = (a)", "after = {a}",
        "after [a]", "after", "after == [a]", "after = = [a]", "after = [a] skip", "after = [a b]",
        "after = [a; 3]", "after = [, a]", "after = [a + c]", "after = [(a)]", "after = [&a]",
        "before", "before = [a]", "a::skip", "::skip", "::after = [a]", "a::", "::", "a:: =",
        "a::b::c", "a::b::", ":: ::", "a:b", "skip::", "skip: :x", "= a", "\"a\"", "5", "'c'",
        "(skip)", "[skip]", "{skip}", "!", "skip = true", "skip(a)", "after(a)", "self", "crate",
        "struct", "r#skip", "r#after = [a]", "_", "after = [_]", "after = [self]", "after = [1.5]",
        "after = [\"a\"]", "after = [a], before", "before, after = [a]", "after = [a + a], before",
        "Skip", "AFTER = [a]", "after = [a] = [c]", "'skip", "-5", "- 5", "-1.5e3", "-0x1f", "-\"a\"",
        "-", "-a", "--5", "-'c'", "-b\"a\"", "skip, -5", "true", "false, skip", "b'c'", "1_u8", "1.0",
    ];
    for args in cases {
        assert_reads_alike(args.parse().expect("tokens"));
    }
}

/// The stream with the word `HOLE` replaced.
fn filled(stream: TokenStream, filling: &TokenStream) -> TokenStream {
    let mut result = TokenStream::new();
    for tree in stream {
        match tree {
            TokenTree::Ident(word) if word == "HOLE" => result.extend(filling.clone()),
            TokenTree::Group(group) => {
                let inner = filled(group.stream(), filling);
                result.extend([TokenTree::from(Group::new(group.delimiter(), inner))]);
            }
            other => result.extend([other]),
        }
    }
    result
}

/// The derive reads these arguments as the parser crate does.
fn assert_reads_alike(args: TokenStream) {
    let item = "struct S { a: A, c: C, #[eulogy(HOLE)] b: B }".parse().expect("an item");
    let code = derive_async_drop(filled(item, &args), FoundCrate::Missing).to_string();
    let code = squeezed(&code);
    let args_text = format!("{:?}", args);
    match reference(args) {
        Err(message) => {
            let expected = format!("::core::compile_error!{{{:?}}}", message);
            assert_eq!(code, squeezed(&expected), "arguments {}", args_text);
        }
        Ok((skip, after)) => {
            let accepted = after.iter().all(|name| name == "a" || name == "c");
            assert_eq!(!code.contains("compile_error"), accepted, "arguments {}", args_text);
            assert_eq!(code.contains("b.async_drop()"), accepted && !skip, "{}", args_text);
            if accepted && !after.is_empty() {
                let last = "b.async_drop().await;}}";
                assert!(code.ends_with(last), "arguments {}: {}", args_text, code);
            }
        }
    }
}

/// The tokens with an invisible group in place of each pair of angle brackets.
fn invisible(text: &str) -> TokenStream {
    let mut levels: Vec<TokenStream> = vec![TokenStream::new()];
    for tree in text.parse::<TokenStream>().expect("tokens") {
        match &tree {
            TokenTree::Punct(p) if p.as_char() == '<' => levels.push(TokenStream::new()),
            TokenTree::Punct(p) if p.as_char() == '>' => {
                let inner = levels.pop().expect("a group");
                let group = Group::new(Delimiter::None, inner);
                levels.last_mut().expect("a level").extend([TokenTree::from(group)]);
            }
            TokenTree::Group(group) => {
                let inner = invisible(&group.stream().to_string());
                let group = Group::new(group.delimiter(), inner);
                levels.last_mut().expect("a level").extend([TokenTree::from(group)]);
            }
            _ => levels.last_mut().expect("a level").extend([tree]),
        }
    }
    levels.pop().expect("a level")
}

#[test]
fn invisible_groups_are_read_as_the_parser_crate_reads_them() {
    let cases = [
        "<skip>", "<skip,>", "<skip>,", "<<skip>>", "<after> = [a]", "after <= [a]>",
        "after = <[a]>", "<after = [a]>, after = [c]", "after = [<a>]", "after = [<a>, <c>]",
        "<>", "< <> >", "skip <>", "skip, <>", "<skip <>>", "<> skip", "<> , skip", "skip <>, skip",
        "after <> = [a]", "after = <> [a]", "after = [a] <>", "after = [a], <>", "after = <>",
        "after <>", "a:: <>", ":: <>", "<> :: <> skip", "before <>", "skip, < <> <> >",
        "after = [<>]", "after = [a, <>]", "<5>", "<-> 5", "- <5>", "<> <>", "after = <a>",
        "<after = <[a]>, <>>",
    ];
    for args in cases {
        assert_reads_alike(invisible(args));
    }
}

#[test]
fn a_token_left_over_within_an_element_counts_last() {
    // The element is no name, which comes first.
    assert_args_refused("after = [[0; 3 4]]", "expected a field name or index");
    // The unknown key comes first.
    let unknown = "unknown #[eulogy(...)] key — expected `after` or `skip`";
    assert_args_refused("after = [a::<{ let x = [0; 3 4]; 1 }>], before", unknown);
    for args in [
        "after = [[0; 3 4]]",
        "after = [a::<{ let x = [0; 3 4]; 1 }>]",
        "after = [a::<{ let x = [0; 3 4]; 1 }>], before",
        "after = [a::<{ let x = [0; 3 4]; 1 }>] skip",
        "after = [a::<{ let x = [0; 3 4]; 1 }>], after = [1 + 1]",
        "after = [a::<{ f(1 2) }>], after = [a::<{ [0; 3 4] }>]",
        "after = [a::<{ [0; 3 4] }>], after = [c::<{ f(1 2) }>]",
        "after = [a 4]",
    ] {
        assert_reads_alike(args.parse().expect("tokens"));
    }
}

/// Where the arguments are refused.
fn place_of(args: &str) -> (&'static str, String) {
    let args = AttrArgs { tokens: args.parse().expect("tokens"), close: Span::call_site() };
    match read_args(&args) {
        Err(DeriveError::Rule(_, Place::Whole(tokens))) => ("whole", squeezed(&tokens.to_string())),
        Err(DeriveError::Rule(_, Place::Start(tokens))) => ("start", squeezed(&tokens.to_string())),
        Err(DeriveError::Rule(_, Place::End(_))) => ("end", String::new()),
        Err(DeriveError::Syntax(_)) => ("parser", String::new()),
        Ok(_) => ("none", String::new()),
    }
}

#[test]
fn faults_in_arguments_are_shown_where_they_are() {
    let at = |kind: &'static str, text: &str| (kind, text.to_string());
    // An unknown key as a whole.
    assert_eq!(place_of("before"), at("whole", "before"));
    assert_eq!(place_of("skip, a::b::c = 1"), at("whole", "a::b::c"));
    assert_eq!(place_of("::skip"), at("whole", "::skip"));
    // A token that does not fit.
    assert_eq!(place_of("skip skip"), at("start", "skip"));
    assert_eq!(place_of("after = (a)"), at("start", "(a)"));
    assert_eq!(place_of("5"), at("start", "5"));
    // The closing delimiter, where something is missing at the end.
    assert_eq!(place_of("after"), at("end", ""));
    assert_eq!(place_of("after ="), at("end", ""));
    assert_eq!(place_of("a::"), at("end", ""));
    // An element as a whole.
    assert_eq!(place_of("after = [a, b + c]"), at("whole", "b+c"));
    assert_eq!(place_of("after = [4294967296]"), at("parser", ""));
    assert_eq!(place_of("after = [a]"), at("none", ""));
}

/// A field as it is read from a struct.
fn field(name: Option<&str>, args: &str) -> Field {
    let ident = match name {
        Some(name) => name.parse().expect("a name"),
        None => TokenStream::new(),
    };
    let args = AttrArgs { tokens: args.parse().expect("tokens"), close: Span::call_site() };
    Field {
        name: name.map(|name| name.to_string()),
        ident,
        ty: "Res".parse().expect("a type"),
        attrs: vec![Attr { path: Some("eulogy".to_string()), args: Some(args) }],
        tokens: "#[eulogy] pub Res".parse().expect("a field"),
    }
}

/// Where the fields are refused.
fn shown_at(fields: Vec<Field>) -> String {
    match plan_fields(&fields, Owner::Struct) {
        Err(DeriveError::Rule(_, Place::Whole(tokens))) => squeezed(&tokens.to_string()),
        _ => panic!("refused at tokens"),
    }
}

#[test]
fn refused_fields_are_shown_where_they_are() {
    // The last segment of a path, which is what names the field.
    let fields = vec![field(Some("a"), "after = [m::n::b]")];
    assert_eq!(shown_at(fields), "b");
    // The literal as it is written.
    let fields = vec![field(None, "after = [0b111]")];
    assert_eq!(shown_at(fields), "0b111");
    // The word `skip`.
    let fields = vec![field(Some("a"), ""), field(Some("b"), "skip, after = [a]")];
    assert_eq!(shown_at(fields), "skip");
    // The first field of a circle: its name, or the whole field of a tuple.
    let fields = vec![
        field(Some("a"), ""),
        field(Some("b"), "after = [c]"),
        field(Some("c"), "after = [b]"),
    ];
    assert_eq!(shown_at(fields), "b");
    let fields = vec![field(None, "after = [1]"), field(None, "after = [0]")];
    assert_eq!(shown_at(fields), "#[eulogy]pubRes");
}

#[test]
fn the_last_segment_of_a_path_names_the_field() {
    let code = squeezed(&output("struct S { a: A, #[eulogy(after = [b::a])] b: B }"));
    assert!(code.contains("self.a.async_drop().await;self.b.async_drop().await;"));
}

#[test]
fn first_attribute_counts() {
    let code = squeezed(&output("struct S { a: A, #[eulogy(skip)] #[eulogy(after = [x])] b: B }"));
    assert!(!code.contains("compile_error"));
    assert!(code.contains("self.a.async_drop().await;"));
    assert!(!code.contains("self.b"));
}

#[test]
fn attribute_without_arguments_asks_for_nothing() {
    let attrs =
        ["#[eulogy]", "#[eulogy = 1]", "#[eulogy()]", "#[other(skip)]", "#[a::eulogy(skip)]"];
    for attr in attrs {
        let code = squeezed(&output(&format!("struct S {{ {} a: A }}", attr)));
        assert!(code.contains("self.a.async_drop().await;"), "{}", attr);
    }
}

#[test]
fn own_bounds_are_kept() {
    let code = squeezed(&output("struct S<T> where T: Clone { a: T }"));
    assert!(code.contains("impl<T>::eulogy::AsyncDropforS<T>whereT:Clone,T:::eulogy::AsyncDrop{"));
    let code = squeezed(&output("struct S<T> where T: Clone, { a: T }"));
    assert!(code.contains("forS<T>whereT:Clone,T:::eulogy::AsyncDrop{"));
    let code = squeezed(&output("struct S<T> where T: Clone { #[eulogy(skip)] a: T }"));
    assert!(code.contains("forS<T>whereT:Clone{"));
    let code = squeezed(&output("struct S<'a, const N: usize, T: 'a = u8> { a: &'a [T; N] }"));
    let header = "impl<'a,constN:usize,T:'a>::eulogy::AsyncDropforS<'a,N,T>where&'a[T;N]:";
    assert!(code.contains(header), "{}", code);
}

#[test]
fn the_library_is_found_under_its_name() {
    let item = "struct S { a: A }";
    let itself = derive_async_drop(item.parse().expect("an item"), FoundCrate::Itself).to_string();
    assert!(squeezed(&itself).starts_with("implcrate::AsyncDropforSwhereA:crate::AsyncDrop{"));
    let name: TokenStream = "send_off".parse().expect("a name");
    let named = derive_async_drop(item.parse().expect("an item"), FoundCrate::Name(name));
    let code = squeezed(&named.to_string());
    assert!(code.starts_with("impl::send_off::AsyncDropforSwhereA:::send_off::AsyncDrop{"));
    let missing = derive_async_drop(item.parse().expect("an item"), FoundCrate::Missing);
    assert!(squeezed(&missing.to_string()).starts_with("impl::eulogy::AsyncDropforS"));
}

#[test]
fn layers_follow_each_other() {
    let code = squeezed(&output(
        "struct S {
            #[eulogy(after = [d, b])] a: A,
            b: B,
            #[eulogy(after = [b])] c: C,
            #[eulogy(after = [b])] d: D,
        }",
    ));
    let first = code.find("self.b.async_drop().await;").expect("the first layer");
    let both = code.find("self.c.async_drop())as").expect("the second layer");
    let other = code.find("self.d.async_drop())as").expect("the second layer");
    let last = code.find("self.a.async_drop().await;").expect("the third layer");
    assert!(first < both && both < other && other < last);
}

#[test]
fn every_output_is_rust() {
    let items = [
        "struct S { a: A, b: B, #[eulogy(after = [a])] c: C }",
        "pub struct S<'a, T: Send + 'a>(&'a T, #[eulogy(after = [0])] Vec<T>) where T: Sync;",
        "struct S;",
        "enum E<T> { A { x: T, #[eulogy(skip)] y: u8 }, B(T, T), C, D {}, E() }",
        "enum Never {}",
    ];
    for item in items {
        let input: TokenStream = item.parse().expect("an item");
        let code = derive_async_drop(input, FoundCrate::Missing);
        let parsed: syn::ItemImpl = syn::parse2(code).expect("an impl");
        assert_eq!(parsed.items.len(), 1);
    }
}
