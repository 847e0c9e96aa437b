//! What a derive promises of the order in which fields are cleaned up.
use crate::derive::codegen::{is_part, law_layers_in_turn, layer_code, layers_code, places_in};
use crate::derive::directives::request_of;
use crate::derive::fault::{At, Owner, Refusal};
use crate::derive::layers::{
    all_settle, closed_graph, is_cycle, is_step, is_walk, law_dependency_comes_first,
    law_every_node_once, law_first_layer, law_layers_exist_without_cycles,
    law_never_starts_without_an_end, law_no_needless_wait, layers_of, settles, stands_in,
};
use crate::derive::member::MemberName;
use crate::derive::plan::{
    all_resolved, collected, dep_fault, entries_in, entry_graph, first_fault, index_from, is_entry,
    layers_in, lemma_collected, lemma_entry_graph, lemma_first_stuck, lemma_index_from, lemma_no_fault,
    members_at, planned, Cleaned, EntryName,
};
use crate::derive::syntax::FieldSyntax;
use crate::derive::tokens::Token;
use vstd::prelude::*;

verus! {

/// Entry `e` waits for entry `d`: its list names the field of `d`, which is the first entry of
/// that name.
pub open spec fn waits_for(cleaned: Seq<Cleaned>, e: int, d: int) -> bool {
    &&& cleaned[e].entry.after.contains(cleaned[d].entry.member)
    &&& forall|j: int|
        0 <= j < d ==> (#[trigger] cleaned[j]).entry.member != cleaned[d].entry.member
}

/// Entry `e` is cleaned up for the field at place `i`.
pub open spec fn is_for(cleaned: Seq<Cleaned>, e: int, i: int) -> bool {
    0 <= e < cleaned.len() && cleaned[e].field == i
}

/// What is known of the graph of fields that are accepted.
pub(crate) proof fn lemma_planned(fields: Seq<FieldSyntax>, owner: Owner)
    requires
        fields.len() <= usize::MAX,
        planned(fields, owner) is Ok,
    ensures
        collected(fields, fields.len()) == planned(fields, owner),
        ({
            let cleaned = planned(fields, owner)->Ok_0;
            &&& cleaned.len() <= fields.len()
            &&& first_fault(members_at(fields), entries_in(cleaned), 0, 0) is None
            &&& all_resolved(entries_in(cleaned))
            &&& closed_graph(entry_graph(entries_in(cleaned)))
            &&& all_settle(entry_graph(entries_in(cleaned)))
        }),
{
    let cleaned = planned(fields, owner)->Ok_0;
    lemma_collected(fields, fields.len());
    lemma_no_fault(members_at(fields), entries_in(cleaned), 0, 0);
    lemma_entry_graph(entries_in(cleaned));
}

/// The entries that wait for each other are the edges of the graph.
proof fn lemma_edges(fields: Seq<FieldSyntax>, owner: Owner, e: int)
    requires
        fields.len() <= usize::MAX,
        planned(fields, owner) is Ok,
        0 <= e < planned(fields, owner)->Ok_0.len(),
    ensures
        ({
            let cleaned = planned(fields, owner)->Ok_0;
            let edges = entry_graph(entries_in(cleaned))[e];
            &&& edges.len() == cleaned[e].entry.after.len()
            &&& forall|p: int|
                0 <= p < edges.len() ==> 0 <= (#[trigger] edges[p]) < cleaned.len() && waits_for(
                    cleaned,
                    e,
                    edges[p] as int,
                )
            &&& forall|d: int|
                0 <= d < cleaned.len() && #[trigger] waits_for(cleaned, e, d) ==> edges.contains(
                    d as usize,
                )
        }),
{
    lemma_planned(fields, owner);
    lemma_edges_of(planned(fields, owner)->Ok_0, e);
}

/// The same holds of any entries whose lists name entries only.
proof fn lemma_edges_of(cleaned: Seq<Cleaned>, e: int)
    requires
        cleaned.len() <= usize::MAX,
        all_resolved(entries_in(cleaned)),
        0 <= e < cleaned.len(),
    ensures
        ({
            let edges = entry_graph(entries_in(cleaned))[e];
            &&& edges.len() == cleaned[e].entry.after.len()
            &&& forall|p: int|
                0 <= p < edges.len() ==> 0 <= (#[trigger] edges[p]) < cleaned.len() && waits_for(
                    cleaned,
                    e,
                    edges[p] as int,
                )
            &&& forall|d: int|
                0 <= d < cleaned.len() && #[trigger] waits_for(cleaned, e, d) ==> edges.contains(
                    d as usize,
                )
        }),
{
    let entries = entries_in(cleaned);
    let edges = entry_graph(entries)[e];
    assert(entries[e] == cleaned[e].entry);
    assert forall|p: int| 0 <= p < edges.len() implies 0 <= (#[trigger] edges[p]) < cleaned.len()
        && waits_for(cleaned, e, edges[p] as int) by {
        let name = entries[e].after[p];
        assert(is_entry(entries, name));
        lemma_index_from(entries, name, 0);
        let d = index_from(entries, name, 0);
        assert(edges[p] as int == d);
        assert(entries[d] == cleaned[d].entry);
        assert forall|j: int| 0 <= j < d implies (#[trigger] cleaned[j]).entry.member
            != cleaned[d].entry.member by {
            lemma_index_is_first(entries, name, 0, j);
            assert(entries[j] == cleaned[j].entry);
        }
    }
    assert forall|d: int| 0 <= d < cleaned.len() && #[trigger] waits_for(cleaned, e, d) implies
        edges.contains(d as usize) by {
        let name = cleaned[d].entry.member;
        let p = choose|p: int|
            0 <= p < cleaned[e].entry.after.len() && cleaned[e].entry.after[p] == name;
        assert(entries[e].after[p] == name);
        assert(is_entry(entries, name));
        lemma_index_from(entries, name, 0);
        let first = index_from(entries, name, 0);
        assert(entries[first] == cleaned[first].entry);
        if d < first {
            lemma_index_is_first(entries, name, 0, d);
            assert(entries[d] == cleaned[d].entry);
        }
        assert(first == d);
        assert(edges[p] == d as usize);
    }
}

proof fn lemma_index_is_first(entries: Seq<EntryName>, name: MemberName, j: int, k: int)
    requires
        0 <= j <= k < index_from(entries, name, j),
        index_from(entries, name, j) <= entries.len(),
    ensures
        entries[k].member != name,
    decreases k - j,
{
    if j < k {
        lemma_index_is_first(entries, name, j + 1, k);
    }
}

/// Those of the first `n` fields that are not marked `skip` are cleaned up, each once and in the
/// order in which they are written.
proof fn lemma_collected_once(fields: Seq<FieldSyntax>, n: nat)
    requires
        n <= fields.len(),
        collected(fields, n) is Ok,
    ensures
        forall|i: int| 0 <= i < n ==> #[trigger] request_of(fields[i]) is Ok,
        forall|i: int|
            0 <= i < n ==> ((#[trigger] request_of(fields[i]))->Ok_0.skip <==> !exists|e: int|
                is_for(collected(fields, n)->Ok_0, e, i)),
        forall|e: int|
            0 <= e < collected(fields, n)->Ok_0.len() ==> 0 <= (#[trigger] collected(
                fields,
                n,
            )->Ok_0[e]).field < n,
        forall|d: int, e: int|
            0 <= d < e < collected(fields, n)->Ok_0.len() ==> (#[trigger] collected(
                fields,
                n,
            )->Ok_0[d]).field < (#[trigger] collected(fields, n)->Ok_0[e]).field,
    decreases n,
{
    if n > 0 {
        let m = (n - 1) as nat;
        lemma_collected_once(fields, m);
        let before = collected(fields, m)->Ok_0;
        let after = collected(fields, n)->Ok_0;
        assert forall|i: int| 0 <= i < n implies ((#[trigger] request_of(fields[i]))->Ok_0.skip
            <==> !exists|e: int| is_for(after, e, i)) by {
            if i < m {
                if exists|e: int| is_for(before, e, i) {
                    let e = choose|e: int| is_for(before, e, i);
                    assert(is_for(after, e, i));
                }
                if exists|e: int| is_for(after, e, i) {
                    let e = choose|e: int| is_for(after, e, i);
                    assert(is_for(before, e, i));
                }
            } else {
                if request_of(fields[i])->Ok_0.skip {
                    if exists|e: int| is_for(after, e, i) {
                        let e = choose|e: int| is_for(after, e, i);
                        assert(before[e].field < m);
                    }
                } else {
                    assert(is_for(after, before.len() as int, i));
                }
            }
        }
    }
}

/// A field that is marked `skip` is not cleaned up. Any other field is cleaned up exactly once:
/// one entry is for it, and that entry stands in one layer.
pub proof fn law_each_field_once(fields: Seq<FieldSyntax>, owner: Owner, i: int)
    requires
        fields.len() <= usize::MAX,
        planned(fields, owner) is Ok,
        0 <= i < fields.len(),
    ensures
        request_of(fields[i]) is Ok,
        request_of(fields[i])->Ok_0.skip <==> !exists|e: int|
            is_for(planned(fields, owner)->Ok_0, e, i),
        forall|d: int, e: int|
            #[trigger] is_for(planned(fields, owner)->Ok_0, d, i) && #[trigger] is_for(
                planned(fields, owner)->Ok_0,
                e,
                i,
            ) ==> d == e,
        forall|e: int| #[trigger]
            is_for(planned(fields, owner)->Ok_0, e, i) ==> exists|k: int|
                stands_in(layers_in(planned(fields, owner)->Ok_0), e, k),
        forall|e: int, k: int, m: int|
            is_for(planned(fields, owner)->Ok_0, e, i) && #[trigger] stands_in(
                layers_in(planned(fields, owner)->Ok_0),
                e,
                k,
            ) && #[trigger] stands_in(layers_in(planned(fields, owner)->Ok_0), e, m) ==> k == m,
{
    lemma_planned(fields, owner);
    lemma_collected_once(fields, fields.len());
    let cleaned = planned(fields, owner)->Ok_0;
    let g = entry_graph(entries_in(cleaned));
    assert forall|e: int| #[trigger] is_for(cleaned, e, i) implies exists|k: int|
        stands_in(layers_in(cleaned), e, k) by {
        law_every_node_once(g, e);
        let k = choose|k: int| #[trigger] stands_in(layers_of(g), e, k);
        assert(stands_in(layers_in(cleaned), e, k));
    }
    assert forall|e: int, k: int, m: int|
        is_for(cleaned, e, i) && #[trigger] stands_in(layers_in(cleaned), e, k)
            && #[trigger] stands_in(layers_in(cleaned), e, m) implies k == m by {
        law_every_node_once(g, e);
    }
}

/// A field is cleaned up in a later layer than every field that it waits for.
pub proof fn law_waited_for_first(
    fields: Seq<FieldSyntax>,
    owner: Owner,
    e: int,
    d: int,
    k: int,
    m: int,
)
    requires
        fields.len() <= usize::MAX,
        planned(fields, owner) is Ok,
        0 <= e < planned(fields, owner)->Ok_0.len(),
        0 <= d < planned(fields, owner)->Ok_0.len(),
        waits_for(planned(fields, owner)->Ok_0, e, d),
        stands_in(layers_in(planned(fields, owner)->Ok_0), e, k),
        stands_in(layers_in(planned(fields, owner)->Ok_0), d, m),
    ensures
        m < k,
{
    lemma_planned(fields, owner);
    lemma_edges(fields, owner, e);
    let g = entry_graph(entries_in(planned(fields, owner)->Ok_0));
    let p = choose|p: int| 0 <= p < g[e].len() && g[e][p] == d as usize;
    law_dependency_comes_first(g, e, p, k, m);
}

/// The fields that wait for nothing are those of the first layer: they start at once and together.
pub proof fn law_unordered_fields_start_together(fields: Seq<FieldSyntax>, owner: Owner, e: int)
    requires
        fields.len() <= usize::MAX,
        planned(fields, owner) is Ok,
        0 <= e < planned(fields, owner)->Ok_0.len(),
    ensures
        stands_in(layers_in(planned(fields, owner)->Ok_0), e, 0) <==> planned(
            fields,
            owner,
        )->Ok_0[e].entry.after.len() == 0,
{
    lemma_planned(fields, owner);
    lemma_edges(fields, owner, e);
    law_first_layer(entry_graph(entries_in(planned(fields, owner)->Ok_0)), e);
}

/// A field that does not start in the first layer waits for a field of the layer just before its
/// own: it could not start earlier.
pub proof fn law_no_field_waits_needlessly(fields: Seq<FieldSyntax>, owner: Owner, e: int, k: int)
    requires
        fields.len() <= usize::MAX,
        planned(fields, owner) is Ok,
        0 <= e < planned(fields, owner)->Ok_0.len(),
        stands_in(layers_in(planned(fields, owner)->Ok_0), e, k),
        k > 0,
    ensures
        exists|d: int|
            0 <= d < planned(fields, owner)->Ok_0.len() && #[trigger] waits_for(
                planned(fields, owner)->Ok_0,
                e,
                d,
            ) && stands_in(layers_in(planned(fields, owner)->Ok_0), d, k - 1),
{
    lemma_planned(fields, owner);
    lemma_edges(fields, owner, e);
    let cleaned = planned(fields, owner)->Ok_0;
    let g = entry_graph(entries_in(cleaned));
    law_no_needless_wait(g, e, k);
    let p = choose|p: int|
        0 <= p < g[e].len() && stands_in(layers_of(g), #[trigger] g[e][p] as int, k - 1);
    assert(waits_for(cleaned, e, g[e][p] as int));
}

/// Every name in an `after` list that is accepted is that of another field that is cleaned up.
pub proof fn law_waits_only_for_cleaned_fields(
    fields: Seq<FieldSyntax>,
    owner: Owner,
    e: int,
    p: int,
)
    requires
        fields.len() <= usize::MAX,
        planned(fields, owner) is Ok,
        0 <= e < planned(fields, owner)->Ok_0.len(),
        0 <= p < planned(fields, owner)->Ok_0[e].entry.after.len(),
    ensures
        exists|d: int|
            0 <= d < planned(fields, owner)->Ok_0.len() && d != e && (#[trigger] planned(
                fields,
                owner,
            )->Ok_0[d]).entry.member == planned(fields, owner)->Ok_0[e].entry.after[p],
{
    lemma_planned(fields, owner);
    let cleaned = planned(fields, owner)->Ok_0;
    let entries = entries_in(cleaned);
    lemma_no_dep_fault(fields, entries, 0, 0, e, p);
    assert(entries[e] == cleaned[e].entry);
    let name = entries[e].after[p];
    assert(is_entry(entries, name));
    let d = choose|d: int| 0 <= d < entries.len() && (#[trigger] entries[d]).member == name;
    assert(cleaned[d].entry.member == name);
}

/// Entries without a first fault have no fault.
proof fn lemma_no_dep_fault(
    fields: Seq<FieldSyntax>,
    entries: Seq<EntryName>,
    e: int,
    p: int,
    f: int,
    q: int,
)
    requires
        0 <= e <= f < entries.len(),
        0 <= p,
        0 <= q < entries[f].after.len(),
        f == e ==> p <= q,
        first_fault(members_at(fields), entries, e, p) is None,
    ensures
        dep_fault(members_at(fields), entries, f, q) is None,
    decreases entries.len() - e, entries[e].after.len() - p,
{
    if p >= entries[e].after.len() {
        lemma_no_dep_fault(fields, entries, e + 1, 0, f, q);
    } else if !(f == e && p == q) {
        lemma_no_dep_fault(fields, entries, e, p + 1, f, q);
    }
}

/// A first fault is a fault.
proof fn lemma_first_fault(
    fields: Seq<FieldSyntax>,
    entries: Seq<EntryName>,
    e: int,
    p: int,
)
    requires
        0 <= e <= entries.len(),
        0 <= p,
        first_fault(members_at(fields), entries, e, p) is Some,
    ensures
        ({
            let found = first_fault(members_at(fields), entries, e, p)->0;
            &&& e <= found.0 < entries.len()
            &&& 0 <= found.1 < entries[found.0].after.len()
            &&& dep_fault(members_at(fields), entries, found.0, found.1) == Some(found.2)
        }),
    decreases entries.len() - e, entries[e].after.len() - p,
{
    if e < entries.len() {
        if p >= entries[e].after.len() {
            lemma_first_fault(fields, entries, e + 1, 0);
        } else if dep_fault(members_at(fields), entries, e, p) is None {
            lemma_first_fault(fields, entries, e, p + 1);
        }
    }
}

/// Some entry waits for its own field, for no field, or for one that is not cleaned up.
pub open spec fn has_bad_list(fields: Seq<FieldSyntax>, cleaned: Seq<Cleaned>) -> bool {
    exists|e: int, p: int|
        0 <= e < cleaned.len() && 0 <= p < cleaned[e].entry.after.len() && (#[trigger] dep_fault(
            members_at(fields),
            entries_in(cleaned),
            e,
            p,
        )) is Some
}

/// Some entries wait for each other in a circle.
pub open spec fn has_circle(cleaned: Seq<Cleaned>) -> bool {
    exists|path: Seq<int>| #[trigger] is_cycle(entry_graph(entries_in(cleaned)), path)
}

/// Fields are refused exactly if an attribute is bad, a name in an `after` list cannot be met, or
/// fields wait for each other in a circle. Nothing else is refused.
pub proof fn law_refused_only_for_cause(fields: Seq<FieldSyntax>, owner: Owner)
    requires
        fields.len() <= usize::MAX,
    ensures
        collected(fields, fields.len()) is Ok <==> forall|i: int|
            0 <= i < fields.len() ==> #[trigger] request_of(fields[i]) is Ok,
        planned(fields, owner) is Err <==> {
            ||| collected(fields, fields.len()) is Err
            ||| has_bad_list(fields, collected(fields, fields.len())->Ok_0)
            ||| has_circle(collected(fields, fields.len())->Ok_0)
        },
{
    if collected(fields, fields.len()) is Ok {
        lemma_collected_once(fields, fields.len());
    } else {
        lemma_some_bad_field(fields, fields.len());
    }
    if collected(fields, fields.len()) is Ok {
        let cleaned = collected(fields, fields.len())->Ok_0;
        let entries = entries_in(cleaned);
        let members = members_at(fields);
        lemma_collected(fields, fields.len());
        if first_fault(members, entries, 0, 0) is Some {
            lemma_first_fault(fields, entries, 0, 0);
            let found = first_fault(members, entries, 0, 0)->0;
            assert(entries[found.0] == cleaned[found.0].entry);
            assert(dep_fault(members, entries, found.0, found.1) is Some);
        } else {
            lemma_no_fault(members, entries, 0, 0);
            lemma_entry_graph(entries);
            law_layers_exist_without_cycles(entry_graph(entries));
            if has_bad_list(fields, cleaned) {
                let (e, p) = choose|e: int, p: int|
                    0 <= e < cleaned.len() && 0 <= p < cleaned[e].entry.after.len() && (
                    #[trigger] dep_fault(members, entries, e, p)) is Some;
                assert(entries[e] == cleaned[e].entry);
                lemma_no_dep_fault(fields, entries, 0, 0, e, p);
            }
        }
    }
}

proof fn lemma_some_bad_field(fields: Seq<FieldSyntax>, n: nat)
    requires
        n <= fields.len(),
        collected(fields, n) is Err,
    ensures
        exists|i: int| 0 <= i < n && #[trigger] request_of(fields[i]) is Err,
    decreases n,
{
    if n > 0 {
        if collected(fields, (n - 1) as nat) is Err {
            lemma_some_bad_field(fields, (n - 1) as nat);
        } else {
            assert(request_of(fields[n - 1]) is Err);
        }
    }
}

/// The call for entry `d` is in the code for layer `j`.
pub open spec fn is_written_in(
    cleaned: Seq<Cleaned>,
    places: Seq<Seq<Token>>,
    d: int,
    j: int,
) -> bool {
    &&& stands_in(layers_in(cleaned), d, j)
    &&& places_in(layers_in(cleaned)[j], places).contains(places[d])
}

proof fn lemma_is_written_in(
    fields: Seq<FieldSyntax>,
    owner: Owner,
    places: Seq<Seq<Token>>,
    d: int,
) -> (j: int)
    requires
        fields.len() <= usize::MAX,
        planned(fields, owner) is Ok,
        0 <= d < planned(fields, owner)->Ok_0.len(),
    ensures
        is_written_in(planned(fields, owner)->Ok_0, places, d, j),
{
    lemma_planned(fields, owner);
    let cleaned = planned(fields, owner)->Ok_0;
    let g = entry_graph(entries_in(cleaned));
    law_every_node_once(g, d);
    let j = choose|j: int| #[trigger] stands_in(layers_of(g), d, j);
    let layer = layers_in(cleaned)[j];
    let at = choose|at: int| 0 <= at < layer.len() && layer[at] == d as usize;
    assert(places_in(layer, places)[at] == places[d]);
    j
}

/// Where a field waits for another one, the code that cleans up the other one and waits for it is
/// written first, whatever the fields are called in the code.
pub proof fn law_waited_for_is_written_first(
    fields: Seq<FieldSyntax>,
    owner: Owner,
    krate: Seq<Token>,
    places: Seq<Seq<Token>>,
    e: int,
    d: int,
)
    requires
        fields.len() <= usize::MAX,
        planned(fields, owner) is Ok,
        0 <= e < planned(fields, owner)->Ok_0.len(),
        0 <= d < planned(fields, owner)->Ok_0.len(),
        waits_for(planned(fields, owner)->Ok_0, e, d),
    ensures
        ({
            let cleaned = planned(fields, owner)->Ok_0;
            let layers = layers_in(cleaned);
            exists|j: int, k: int, before: Seq<Token>, between: Seq<Token>, behind: Seq<Token>|
                {
                    &&& j < k
                    &&& #[trigger] is_written_in(cleaned, places, d, j)
                    &&& #[trigger] is_written_in(cleaned, places, e, k)
                    &&& #[trigger] is_part(
                        layers_code(krate, layers, places, layers.len()),
                        before + layer_code(krate, places_in(layers[j], places)) + between,
                        layer_code(krate, places_in(layers[k], places)),
                        behind,
                    )
                }
        }),
{
    let cleaned = planned(fields, owner)->Ok_0;
    let layers = layers_in(cleaned);
    let j = lemma_is_written_in(fields, owner, places, d);
    let k = lemma_is_written_in(fields, owner, places, e);
    law_waited_for_first(fields, owner, e, d, k, j);
    law_layers_in_turn(krate, layers, places, j, k);
    let (before, between, behind) = choose|
        before: Seq<Token>,
        between: Seq<Token>,
        behind: Seq<Token>,
    | #[trigger]
        is_part(
            layers_code(krate, layers, places, layers.len()),
            before + layer_code(krate, places_in(layers[j], places)) + between,
            layer_code(krate, places_in(layers[k], places)),
            behind,
        );
    assert(is_written_in(cleaned, places, d, j));
    assert(is_written_in(cleaned, places, e, k));
    assert(is_part(
        layers_code(krate, layers, places, layers.len()),
        before + layer_code(krate, places_in(layers[j], places)) + between,
        layer_code(krate, places_in(layers[k], places)),
        behind,
    ));
}

/// How a field is referred to: by its name, or in a tuple by its place.
pub open spec fn refers_to(member: MemberName, fields: Seq<FieldSyntax>, i: int) -> bool {
    match member {
        MemberName::Named(name) => fields[i].name == Some(name),
        MemberName::Unnamed(index) => fields[i].name is None && index == i as u32,
    }
}

proof fn lemma_entries(fields: Seq<FieldSyntax>, n: nat, e: int)
    requires
        n <= fields.len(),
        collected(fields, n) is Ok,
        0 <= e < collected(fields, n)->Ok_0.len(),
    ensures
        ({
            let cleaned = collected(fields, n)->Ok_0;
            let i = cleaned[e].field;
            &&& 0 <= i < n
            &&& request_of(fields[i]) is Ok
            &&& !request_of(fields[i])->Ok_0.skip
            &&& refers_to(cleaned[e].entry.member, fields, i)
            &&& cleaned[e].entry.after.len() == request_of(fields[i])->Ok_0.after.len()
            &&& forall|p: int|
                0 <= p < cleaned[e].entry.after.len() ==> #[trigger] cleaned[e].entry.after[p]
                    == request_of(fields[i])->Ok_0.after[p].member
        }),
    decreases n,
{
    let m = (n - 1) as nat;
    let before = collected(fields, m)->Ok_0;
    if e < before.len() {
        lemma_entries(fields, m, e);
        assert(collected(fields, n)->Ok_0[e] == before[e]);
    }
}

/// An entry stands for its field: it is referred to as the field is, and it waits for the fields that
/// the field's attribute lists, all of them and in that order. The entries follow the fields in the
/// order in which these are written.
pub proof fn law_entries_stand_for_their_fields(fields: Seq<FieldSyntax>, e: int)
    requires
        collected(fields, fields.len()) is Ok,
        0 <= e < collected(fields, fields.len())->Ok_0.len(),
    ensures
        ({
            let cleaned = collected(fields, fields.len())->Ok_0;
            let i = cleaned[e].field;
            &&& 0 <= i < fields.len()
            &&& request_of(fields[i]) is Ok
            &&& !request_of(fields[i])->Ok_0.skip
            &&& refers_to(cleaned[e].entry.member, fields, i)
            &&& cleaned[e].entry.after.len() == request_of(fields[i])->Ok_0.after.len()
            &&& forall|p: int|
                0 <= p < cleaned[e].entry.after.len() ==> #[trigger] cleaned[e].entry.after[p]
                    == request_of(fields[i])->Ok_0.after[p].member
            &&& forall|d: int| 0 <= d < e ==> (#[trigger] cleaned[d]).field < i
        }),
{
    lemma_entries(fields, fields.len(), e);
    lemma_collected_once(fields, fields.len());
}

/// The fields are refused for what is wrong with the attribute of the first field whose attribute is
/// bad. Where none is, every field that is not to be skipped has its entry.
pub proof fn law_the_first_bad_field_is_refused(fields: Seq<FieldSyntax>, owner: Owner, i: int)
    requires
        0 <= i <= fields.len(),
        forall|j: int| 0 <= j < i ==> #[trigger] request_of(fields[j]) is Ok,
        i < fields.len() ==> request_of(fields[i]) is Err,
    ensures
        i < fields.len() ==> planned(fields, owner) is Err && planned(fields, owner)->Err_0
            == request_of(fields[i])->Err_0,
        i == fields.len() ==> {
            &&& collected(fields, fields.len()) is Ok
            &&& forall|j: int|
                0 <= j < fields.len() && !(#[trigger] request_of(fields[j]))->Ok_0.skip
                    ==> exists|e: int| is_for(collected(fields, fields.len())->Ok_0, e, j)
        },
{
    if i < fields.len() {
        lemma_refused_at(fields, i, fields.len());
    } else {
        if collected(fields, fields.len()) is Err {
            lemma_some_bad_field(fields, fields.len());
        }
        lemma_collected_once(fields, fields.len());
    }
}

proof fn lemma_refused_at(fields: Seq<FieldSyntax>, i: int, n: nat)
    requires
        0 <= i < n <= fields.len(),
        forall|j: int| 0 <= j < i ==> #[trigger] request_of(fields[j]) is Ok,
        request_of(fields[i]) is Err,
    ensures
        collected(fields, n) is Err,
        collected(fields, n)->Err_0 == request_of(fields[i])->Err_0,
    decreases n,
{
    let m = (n - 1) as nat;
    if i < m {
        lemma_refused_at(fields, i, m);
    } else if collected(fields, m) is Err {
        lemma_some_bad_field(fields, m);
    }
}

/// The `p`th field that entry `e` waits for is another field that is cleaned up.
pub open spec fn is_met(cleaned: Seq<Cleaned>, e: int, p: int) -> bool {
    &&& cleaned[e].entry.after[p] != cleaned[e].entry.member
    &&& exists|d: int|
        0 <= d < cleaned.len() && (#[trigger] cleaned[d]).entry.member == cleaned[e].entry.after[p]
}

/// Place `p` of the list of entry `e` comes before place `q` of the list of entry `f`.
pub open spec fn comes_before(e: int, p: int, f: int, q: int) -> bool {
    e < f || (e == f && p < q)
}

proof fn lemma_met(fields: Seq<FieldSyntax>, e: int, p: int)
    requires
        collected(fields, fields.len()) is Ok,
        0 <= e < collected(fields, fields.len())->Ok_0.len(),
        0 <= p < collected(fields, fields.len())->Ok_0[e].entry.after.len(),
    ensures
        ({
            let cleaned = collected(fields, fields.len())->Ok_0;
            dep_fault(members_at(fields), entries_in(cleaned), e, p) is None <==> is_met(
                cleaned,
                e,
                p,
            )
        }),
{
    let cleaned = collected(fields, fields.len())->Ok_0;
    let entries = entries_in(cleaned);
    let name = cleaned[e].entry.after[p];
    assert(entries[e] == cleaned[e].entry);
    lemma_collected(fields, fields.len());
    if is_entry(entries, name) {
        let d = choose|d: int| 0 <= d < entries.len() && (#[trigger] entries[d]).member == name;
        assert(cleaned[d].entry.member == name);
        assert(members_at(fields)[cleaned[d].field] == name);
    }
    if exists|d: int| 0 <= d < cleaned.len() && (#[trigger] cleaned[d]).entry.member == name {
        let d = choose|d: int|
            0 <= d < cleaned.len() && (#[trigger] cleaned[d]).entry.member == name;
        assert(entries[d].member == name);
        assert(members_at(fields)[cleaned[d].field] == name);
    }
}

proof fn lemma_first_fault_at(
    members: Seq<MemberName>,
    entries: Seq<EntryName>,
    e: int,
    p: int,
    f: int,
    q: int,
)
    requires
        0 <= e <= f < entries.len(),
        0 <= p,
        0 <= q < entries[f].after.len(),
        e == f ==> p <= q,
        dep_fault(members, entries, f, q) is Some,
        forall|d: int, r: int|
            0 <= d < entries.len() && 0 <= r < entries[d].after.len() && comes_before(d, r, f, q)
                ==> (#[trigger] dep_fault(members, entries, d, r)) is None,
    ensures
        first_fault(members, entries, e, p) == Some((f, q, dep_fault(members, entries, f, q)->0)),
    decreases entries.len() - e, entries[e].after.len() - p,
{
    if p >= entries[e].after.len() {
        lemma_first_fault_at(members, entries, e + 1, 0, f, q);
    } else if !(e == f && p == q) {
        assert(dep_fault(members, entries, e, p) is None);
        lemma_first_fault_at(members, entries, e, p + 1, f, q);
    }
}

/// A name in an `after` list that cannot be met is refused, the first one before any other: because
/// it is that of the field itself, because there is no such field, or because that field is not
/// cleaned up. The message says which name it is, and it is shown where the name is written.
pub proof fn law_the_first_bad_name_is_refused(
    fields: Seq<FieldSyntax>,
    owner: Owner,
    e: int,
    p: int,
)
    requires
        collected(fields, fields.len()) is Ok,
        0 <= e < collected(fields, fields.len())->Ok_0.len(),
        0 <= p < collected(fields, fields.len())->Ok_0[e].entry.after.len(),
        !is_met(collected(fields, fields.len())->Ok_0, e, p),
        forall|d: int, r: int|
            0 <= d < collected(fields, fields.len())->Ok_0.len() && 0 <= r < collected(
                fields,
                fields.len(),
            )->Ok_0[d].entry.after.len() && comes_before(d, r, e, p) ==> #[trigger] is_met(
                collected(fields, fields.len())->Ok_0,
                d,
                r,
            ),
    ensures
        ({
            let cleaned = collected(fields, fields.len())->Ok_0;
            let name = cleaned[e].entry.after[p];
            let text = name.text();
            let message = if name == cleaned[e].entry.member {
                "field `"@ + text + "` cannot list itself in #[eulogy(after = [...])]"@
            } else if exists|i: int|
                0 <= i < fields.len() && #[trigger] refers_to(name, fields, i) {
                "field `"@ + text
                    + "` is skipped or unannotated — it cannot appear in an `after` list"@
            } else if owner is Struct {
                "no field `"@ + text + "` in this struct"@
            } else {
                "no field `"@ + text + "` in this variant"@
            };
            planned(fields, owner) == Err::<Seq<Cleaned>, _>(
                Refusal::Rule(
                    message,
                    At::Whole(request_of(fields[cleaned[e].field])->Ok_0.after[p].at),
                ),
            )
        }),
{
    let cleaned = collected(fields, fields.len())->Ok_0;
    let entries = entries_in(cleaned);
    let members = members_at(fields);
    let name = cleaned[e].entry.after[p];
    assert(entries[e] == cleaned[e].entry);
    lemma_met(fields, e, p);
    assert forall|d: int, r: int|
        0 <= d < entries.len() && 0 <= r < entries[d].after.len() && comes_before(
            d,
            r,
            e,
            p,
        ) implies (#[trigger] dep_fault(members, entries, d, r)) is None by {
        assert(entries[d] == cleaned[d].entry);
        assert(is_met(cleaned, d, r));
        lemma_met(fields, d, r);
    }
    lemma_first_fault_at(members, entries, 0, 0, e, p);
    if members.contains(name) {
        let i = choose|i: int| 0 <= i < members.len() && members[i] == name;
        assert(refers_to(name, fields, i));
    }
    if exists|i: int| 0 <= i < fields.len() && #[trigger] refers_to(name, fields, i) {
        let i = choose|i: int| 0 <= i < fields.len() && #[trigger] refers_to(name, fields, i);
        assert(members[i] == name);
    }
}

/// Each entry of the trail waits for the next.
pub open spec fn is_trail(cleaned: Seq<Cleaned>, trail: Seq<int>) -> bool {
    &&& forall|j: int| 0 <= j < trail.len() ==> 0 <= #[trigger] trail[j] < cleaned.len()
    &&& forall|j: int| 0 <= j < trail.len() - 1 ==> #[trigger] waits_at(cleaned, trail, j)
}

/// The entry at place `j` of a trail waits for the one behind it.
pub open spec fn waits_at(cleaned: Seq<Cleaned>, trail: Seq<int>, j: int) -> bool {
    waits_for(cleaned, trail[j], trail[j + 1])
}

/// One can go on and on from entry `e` to what is waited for: there is a trail from it that is longer
/// than there are entries, and so comes back to where it was.
pub open spec fn runs_in_a_circle(cleaned: Seq<Cleaned>, e: int) -> bool {
    exists|trail: Seq<int>| #[trigger]
        is_trail(cleaned, trail) && trail.len() > cleaned.len() && trail[0] == e
}

proof fn lemma_trails(cleaned: Seq<Cleaned>, e: int)
    requires
        cleaned.len() <= usize::MAX,
        all_resolved(entries_in(cleaned)),
        0 <= e < cleaned.len(),
    ensures
        runs_in_a_circle(cleaned, e) <==> !settles(entry_graph(entries_in(cleaned)), e),
{
    let g = entry_graph(entries_in(cleaned));
    lemma_entry_graph(entries_in(cleaned));
    law_never_starts_without_an_end(g, e);
    assert forall|path: Seq<int>| is_walk(g, path) <==> is_trail(cleaned, path) by {
        if forall|j: int| 0 <= j < path.len() ==> 0 <= #[trigger] path[j] < cleaned.len() {
            assert forall|j: int| 0 <= j < path.len() - 1 implies (is_step(g, path, j)
                <==> #[trigger] waits_at(cleaned, path, j)) by {
                assert(0 <= path[j] < cleaned.len() && 0 <= path[j + 1] < cleaned.len());
                lemma_edges_of(cleaned, path[j]);
                let edges = g[path[j]];
                if is_step(g, path, j) {
                    let p = choose|p: int| 0 <= p < edges.len() && edges[p] == path[j + 1] as usize;
                    assert(edges[p] as int == path[j + 1]);
                }
            }
            if is_walk(g, path) {
                assert forall|j: int| 0 <= j < path.len() - 1 implies #[trigger] waits_at(
                    cleaned,
                    path,
                    j,
                ) by {
                    assert(is_step(g, path, j));
                }
            }
            if is_trail(cleaned, path) {
                assert forall|j: int| 0 <= j < path.len() - 1 implies #[trigger] is_step(
                    g,
                    path,
                    j,
                ) by {
                    assert(waits_at(cleaned, path, j));
                }
            }
        }
    }
    if runs_in_a_circle(cleaned, e) {
        let trail = choose|trail: Seq<int>| #[trigger]
            is_trail(cleaned, trail) && trail.len() > cleaned.len() && trail[0] == e;
        assert(is_walk(g, trail));
    }
    if !settles(g, e) {
        let path = choose|path: Seq<int>|
            #[trigger] is_walk(g, path) && path.len() > g.len() && path[0] == e;
        assert(is_trail(cleaned, path));
    }
}

/// Where every attribute is good and every name in a list can be met, the fields are accepted exactly
/// if one cannot go round in a circle from any entry. Else they are refused at the first field from
/// which one can: at its name, or at the whole of a field of a tuple.
pub proof fn law_only_circles_are_left_to_refuse(fields: Seq<FieldSyntax>, owner: Owner, e: int)
    requires
        fields.len() <= usize::MAX,
        collected(fields, fields.len()) is Ok,
        forall|d: int, r: int|
            0 <= d < collected(fields, fields.len())->Ok_0.len() && 0 <= r < collected(
                fields,
                fields.len(),
            )->Ok_0[d].entry.after.len() ==> #[trigger] is_met(
                collected(fields, fields.len())->Ok_0,
                d,
                r,
            ),
        0 <= e <= collected(fields, fields.len())->Ok_0.len(),
        forall|d: int|
            0 <= d < e ==> !#[trigger] runs_in_a_circle(
                collected(fields, fields.len())->Ok_0,
                d,
            ),
        e < collected(fields, fields.len())->Ok_0.len() ==> runs_in_a_circle(
            collected(fields, fields.len())->Ok_0,
            e,
        ),
    ensures
        ({
            let cleaned = collected(fields, fields.len())->Ok_0;
            if e == cleaned.len() {
                planned(fields, owner) == Ok::<_, Refusal>(cleaned)
            } else {
                planned(fields, owner) == Err::<Seq<Cleaned>, _>(
                    Refusal::Rule(
                        "cycle detected in #[eulogy(after = [...])] dependencies"@,
                        At::Whole(
                            match fields[cleaned[e].field].name {
                                Some(name) => seq![Token::Ident(name)],
                                None => fields[cleaned[e].field].tokens,
                            },
                        ),
                    ),
                )
            }
        }),
{
    let cleaned = collected(fields, fields.len())->Ok_0;
    let entries = entries_in(cleaned);
    let members = members_at(fields);
    let g = entry_graph(entries);
    lemma_collected(fields, fields.len());
    if first_fault(members, entries, 0, 0) is Some {
        lemma_first_fault(fields, entries, 0, 0);
        let found = first_fault(members, entries, 0, 0)->0;
        assert(entries[found.0] == cleaned[found.0].entry);
        assert(is_met(cleaned, found.0, found.1));
        lemma_met(fields, found.0, found.1);
    }
    lemma_no_fault(members, entries, 0, 0);
    assert forall|d: int| 0 <= d < cleaned.len() implies (#[trigger] settles(g, d)
        <==> !runs_in_a_circle(cleaned, d)) by {
        lemma_trails(cleaned, d);
    }
    if e < cleaned.len() {
        assert(!settles(g, e));
        assert forall|d: int| 0 <= d < e implies #[trigger] settles(g, d) by {
            assert(!runs_in_a_circle(cleaned, d));
        }
        lemma_first_stuck(g, e, 0);
    } else {
        assert forall|d: int| 0 <= d < g.len() implies #[trigger] settles(g, d) by {
            assert(!runs_in_a_circle(cleaned, d));
        }
    }
}

} // verus!
