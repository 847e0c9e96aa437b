use eulogy::derive::fault::{ArgFault, DepFault, DeriveError, Fault, Owner, Place};
use eulogy::derive::layers::kahn_layers;
use eulogy::derive::member::{decimal_text, Member};
use eulogy::derive::plan::{check_entries, topo_layers, Entry};

fn named(name: &str) -> Member {
    Member::Named(name.to_string())
}

fn entry(name: &str, after: &[&str]) -> Entry {
    Entry { member: named(name), after: after.iter().map(|dep| named(dep)).collect() }
}

#[test]
fn no_nodes_no_layers() {
    assert_eq!(kahn_layers(&vec![]), Ok(vec![]));
}

#[test]
fn nodes_that_wait_for_nothing_share_the_first_layer() {
    assert_eq!(kahn_layers(&vec![vec![], vec![], vec![]]), Ok(vec![vec![0, 1, 2]]));
}

#[test]
fn a_chain_has_a_layer_for_each_node() {
    assert_eq!(
        kahn_layers(&vec![vec![], vec![0], vec![1], vec![2]]),
        Ok(vec![vec![0], vec![1], vec![2], vec![3]])
    );
}

#[test]
fn a_diamond_has_three_layers() {
    assert_eq!(
        kahn_layers(&vec![vec![1, 2], vec![3], vec![3], vec![]]),
        Ok(vec![vec![3], vec![1, 2], vec![0]])
    );
}

#[test]
fn no_node_waits_longer_than_it_has_to() {
    // Node 3 waits for node 0 only, so it stands beside node 1, not beside node 2.
    assert_eq!(
        kahn_layers(&vec![vec![], vec![0], vec![1], vec![0]]),
        Ok(vec![vec![0], vec![1, 3], vec![2]])
    );
}

#[test]
fn a_dependency_may_be_listed_twice() {
    assert_eq!(kahn_layers(&vec![vec![], vec![0, 0]]), Ok(vec![vec![0], vec![1]]));
}

#[test]
fn the_first_stuck_node_is_reported() {
    assert_eq!(kahn_layers(&vec![vec![], vec![2], vec![1]]), Err(1));
    assert_eq!(kahn_layers(&vec![vec![0]]), Err(0));
    // Node 0 is in no circle itself, but waits for one.
    assert_eq!(kahn_layers(&vec![vec![1], vec![2], vec![1]]), Err(0));
}

#[test]
fn entries_are_layered_by_name() {
    let entries = vec![entry("a", &["c"]), entry("b", &[]), entry("c", &["b"])];
    assert_eq!(topo_layers(&entries), Ok(vec![vec![1], vec![2], vec![0]]));
    let circle = vec![entry("a", &[]), entry("b", &["c"]), entry("c", &["b"])];
    assert_eq!(topo_layers(&circle), Err(1));
}

#[test]
fn the_first_entry_that_cannot_be_met_is_found() {
    let members = vec![named("a"), named("b"), named("skipped")];
    let found = |entries: &Vec<Entry>| {
        check_entries(&members, entries).map(|(e, p, fault)| {
            let kind = match fault {
                DepFault::Itself => "itself",
                DepFault::Missing => "missing",
                DepFault::Skipped => "skipped",
            };
            (e, p, kind)
        })
    };
    assert_eq!(found(&vec![entry("a", &[]), entry("b", &["a"])]), None);
    assert_eq!(found(&vec![entry("a", &["b", "a"]), entry("b", &[])]), Some((0, 1, "itself")));
    assert_eq!(found(&vec![entry("a", &[]), entry("b", &["x"])]), Some((1, 0, "missing")));
    assert_eq!(
        found(&vec![entry("a", &["skipped"]), entry("b", &["x"])]),
        Some((0, 0, "skipped"))
    );
}

#[test]
fn numbers_are_written_in_decimal() {
    assert_eq!(decimal_text(0), "0");
    assert_eq!(decimal_text(10), "10");
    assert_eq!(decimal_text(4294967295), "4294967295");
}

#[test]
fn members_are_told_apart() {
    assert!(named("a").same(&named("a")));
    assert!(!named("a").same(&named("b")));
    assert!(!named("0").same(&Member::Unnamed(0)));
    assert!(Member::Unnamed(3).same(&Member::Unnamed(3)));
    assert_eq!(named("a").copy().text(), "a");
    assert_eq!(Member::Unnamed(12).text(), "12");
}

#[test]
fn every_fault_has_its_message() {
    let text = |fault: Fault| fault.text();
    assert_eq!(text(Fault::Union), "#[derive(AsyncDrop)] only supports structs and enums");
    assert_eq!(text(Fault::Element), "expected a field name or index");
    assert_eq!(text(Fault::SkipWithAfter), "`skip` cannot be combined with `after` — pick one");
    assert_eq!(text(Fault::Cycle), "cycle detected in #[eulogy(after = [...])] dependencies");
    assert_eq!(text(Fault::Arg(ArgFault::Comma)), "expected `,`");
    assert_eq!(
        text(Fault::Dep(DepFault::Missing, named("a"), Owner::Struct)),
        "no field `a` in this struct"
    );
    assert_eq!(
        text(Fault::Dep(DepFault::Missing, Member::Unnamed(1), Owner::Variant)),
        "no field `1` in this variant"
    );
    assert_eq!(
        text(Fault::Dep(DepFault::Itself, named("a"), Owner::Variant)),
        "field `a` cannot list itself in #[eulogy(after = [...])]"
    );
}

#[test]
fn an_error_becomes_a_call_of_the_error_macro() {
    let message = "cycledetectedin#[eulogy(after=[...])]dependencies";
    let places = [
        Place::Whole("here and there".parse().expect("tokens")),
        Place::Start("(here) and there".parse().expect("tokens")),
        Place::Start(proc_macro2::TokenStream::new()),
        Place::End(proc_macro2::Span::call_site()),
    ];
    for place in places {
        let error = DeriveError::Rule(Fault::Cycle, place);
        let code: String = error.to_tokens().to_string().split_whitespace().collect();
        assert_eq!(code, format!("::core::compile_error!{{\"{}\"}}", message));
    }
}

#[test]
fn a_message_is_given_back_by_its_literal() {
    // A message with characters that have to be escaped.
    let name = "\0\u{1}1\"\\\n\u{e9}";
    let error = DeriveError::Rule(
        Fault::Dep(DepFault::Missing, named(name), Owner::Struct),
        Place::Whole("here".parse().expect("a token")),
    );
    let call: syn::Macro = syn::parse2(error.to_tokens()).expect("a call");
    let literal: syn::LitStr = syn::parse2(call.tokens).expect("a string literal");
    assert_eq!(literal.value(), format!("no field `{}` in this struct", name));
}
