//! What happens when the code that a derive writes runs.
//!
//! The code is one statement for each layer. A statement calls the cleanup of every field of its
//! layer and waits until all of them have come to their end; only then the next statement runs. The
//! waiting is done by [`join_all`](crate::__private::join_all), or by the only future of the layer,
//! which comes to the same: a list of one.
use crate::__private::{in_order, takes_its_turn, Slots};
use crate::derive::fault::Owner;
use crate::derive::layers::{law_every_node_once, law_layers_ascend, layers_of, stands_in};
use crate::derive::order::{law_waited_for_first, lemma_planned, waits_for};
use crate::derive::plan::{entries_in, entry_graph, layers_in, planned, Cleaned};
use crate::derive::syntax::FieldSyntax;
use crate::polling::{Baton, Machine};
use std::future::Future;
use std::pin::Pin;
use vstd::prelude::*;

verus! {

/// How far the code has come.
pub struct Progress {
    /// The layer whose statement is running.
    pub layer: nat,
    /// The entries whose cleanup has come to its end.
    pub ended: Set<usize>,
}

/// The code has just been entered.
pub open spec fn beginning() -> Progress {
    Progress { layer: 0, ended: Set::empty() }
}

/// The cleanups of some entries of the current layer come to their end.
pub open spec fn ends(
    layers: Seq<Seq<usize>>,
    before: Progress,
    some: Set<usize>,
    after: Progress,
) -> bool {
    &&& before.layer < layers.len()
    &&& forall|e: usize| #[trigger]
        some.contains(e) ==> layers[before.layer as int].contains(e)
    &&& after == Progress { ended: before.ended.union(some), ..before }
}

/// Every cleanup of the current layer has come to its end, and the next statement begins.
pub open spec fn advances(layers: Seq<Seq<usize>>, before: Progress, after: Progress) -> bool {
    &&& before.layer < layers.len()
    &&& forall|e: usize| #[trigger]
        layers[before.layer as int].contains(e) ==> before.ended.contains(e)
    &&& after == Progress { layer: before.layer + 1, ..before }
}

/// Something happens in the running code.
pub open spec fn goes_on(layers: Seq<Seq<usize>>, before: Progress, after: Progress) -> bool {
    ||| exists|some: Set<usize>| #[trigger] ends(layers, before, some, after)
    ||| advances(layers, before, after)
}

/// Step `i` of a run.
pub open spec fn goes_on_at(layers: Seq<Seq<usize>>, run: Seq<Progress>, i: int) -> bool {
    goes_on(layers, run[i], run[i + 1])
}

/// A run of the code from its beginning.
pub open spec fn is_run(layers: Seq<Seq<usize>>, run: Seq<Progress>) -> bool {
    &&& run.len() > 0
    &&& run[0] == beginning()
    &&& forall|i: int| 0 <= i < run.len() - 1 ==> #[trigger] goes_on_at(layers, run, i)
}

/// The cleanup of entry `e` has been called: its layer has been reached.
pub open spec fn has_started(layers: Seq<Seq<usize>>, now: Progress, e: int) -> bool {
    exists|k: int| k <= now.layer && #[trigger] stands_in(layers, e, k)
}

/// The cleanup of entry `e` has come to its end.
pub open spec fn has_ended(now: Progress, e: int) -> bool {
    now.ended.contains(e as usize)
}

/// At every moment the layers before the current one are over, and only what was called has ended.
proof fn lemma_progress(layers: Seq<Seq<usize>>, run: Seq<Progress>, i: int)
    requires
        is_run(layers, run),
        0 <= i < run.len(),
    ensures
        run[i].layer <= layers.len(),
        forall|k: int, e: usize|
            0 <= k < run[i].layer && #[trigger] layers[k].contains(e) ==> run[i].ended.contains(e),
        forall|e: usize| #[trigger]
            run[i].ended.contains(e) ==> has_started(layers, run[i], e as int),
    decreases i,
{
    if i > 0 {
        lemma_progress(layers, run, i - 1);
        assert(goes_on_at(layers, run, i - 1));
        let before = run[i - 1];
        let now = run[i];
        assert forall|e: usize| #[trigger] now.ended.contains(e) implies has_started(
            layers,
            now,
            e as int,
        ) by {
            if before.ended.contains(e) {
                let k = choose|k: int|
                    k <= before.layer && #[trigger] stands_in(layers, e as int, k);
                assert(stands_in(layers, e as int, k));
            } else {
                assert(stands_in(layers, e as int, before.layer as int));
            }
        }
    }
}

/// At every moment: if the cleanup of a field has been called, the cleanup of every field that it
/// waits for has come to its end.
pub proof fn law_waited_for_has_ended(
    fields: Seq<FieldSyntax>,
    owner: Owner,
    run: Seq<Progress>,
    i: int,
    e: int,
    d: int,
)
    requires
        fields.len() <= usize::MAX,
        planned(fields, owner) is Ok,
        is_run(layers_in(planned(fields, owner)->Ok_0), run),
        0 <= i < run.len(),
        0 <= e < planned(fields, owner)->Ok_0.len(),
        0 <= d < planned(fields, owner)->Ok_0.len(),
        waits_for(planned(fields, owner)->Ok_0, e, d),
        has_started(layers_in(planned(fields, owner)->Ok_0), run[i], e),
    ensures
        has_ended(run[i], d),
{
    lemma_planned(fields, owner);
    let cleaned = planned(fields, owner)->Ok_0;
    let layers = layers_in(cleaned);
    let g = entry_graph(entries_in(cleaned));
    let k = choose|k: int| k <= run[i].layer && #[trigger] stands_in(layers, e, k);
    law_every_node_once(g, d);
    let m = choose|m: int| #[trigger] stands_in(layers_of(g), d, m);
    law_waited_for_first(fields, owner, e, d, k, m);
    lemma_progress(layers, run, i);
    assert(layers[m].contains(d as usize));
}

/// Each entry of the chain waits for the next.
pub open spec fn is_chain(cleaned: Seq<Cleaned>, chain: Seq<int>) -> bool {
    &&& chain.len() > 0
    &&& forall|j: int| 0 <= j < chain.len() ==> 0 <= #[trigger] chain[j] < cleaned.len()
    &&& forall|j: int| 0 <= j < chain.len() - 1 ==> #[trigger] is_link(cleaned, chain, j)
}

/// The entry at place `j` of a chain waits for the one behind it.
pub open spec fn is_link(cleaned: Seq<Cleaned>, chain: Seq<int>, j: int) -> bool {
    waits_for(cleaned, chain[j], chain[j + 1])
}

/// The same holds through any number of fields: if the cleanup of the first field of a chain has
/// been called, the cleanup of every other field of the chain has come to its end.
pub proof fn law_chain_has_ended(
    fields: Seq<FieldSyntax>,
    owner: Owner,
    run: Seq<Progress>,
    i: int,
    chain: Seq<int>,
    j: int,
)
    requires
        fields.len() <= usize::MAX,
        planned(fields, owner) is Ok,
        is_run(layers_in(planned(fields, owner)->Ok_0), run),
        0 <= i < run.len(),
        is_chain(planned(fields, owner)->Ok_0, chain),
        has_started(layers_in(planned(fields, owner)->Ok_0), run[i], chain[0]),
        0 < j < chain.len(),
    ensures
        has_ended(run[i], chain[j]),
    decreases j,
{
    lemma_planned(fields, owner);
    let cleaned = planned(fields, owner)->Ok_0;
    let layers = layers_in(cleaned);
    if j > 1 {
        law_chain_has_ended(fields, owner, run, i, chain, j - 1);
        lemma_progress(layers, run, i);
        let e = chain[j - 1];
        assert(run[i].ended.contains(e as usize));
        assert(has_started(layers, run[i], (e as usize) as int));
        assert((e as usize) as int == e);
    }
    assert(is_link(cleaned, chain, j - 1));
    law_waited_for_has_ended(fields, owner, run, i, chain[j - 1], chain[j]);
}

/// When the code is over, the cleanup of every field that is not skipped has come to its end.
pub proof fn law_all_have_ended(
    fields: Seq<FieldSyntax>,
    owner: Owner,
    run: Seq<Progress>,
    i: int,
    e: int,
)
    requires
        fields.len() <= usize::MAX,
        planned(fields, owner) is Ok,
        is_run(layers_in(planned(fields, owner)->Ok_0), run),
        0 <= i < run.len(),
        run[i].layer == layers_in(planned(fields, owner)->Ok_0).len(),
        0 <= e < planned(fields, owner)->Ok_0.len(),
    ensures
        has_ended(run[i], e),
{
    lemma_planned(fields, owner);
    let cleaned = planned(fields, owner)->Ok_0;
    let layers = layers_in(cleaned);
    let g = entry_graph(entries_in(cleaned));
    law_every_node_once(g, e);
    let k = choose|k: int| #[trigger] stands_in(layers_of(g), e, k);
    lemma_progress(layers, run, i);
    assert(layers[k].contains(e as usize));
}

/// What is left of the futures of the current statement shows how far the code has come.
pub open spec fn shows<F>(
    layers: Seq<Seq<usize>>,
    now: Progress,
    slots: Seq<Option<Pin<Box<F>>>>,
) -> bool {
    &&& now.layer < layers.len()
    &&& slots.len() == layers[now.layer as int].len()
    &&& forall|j: int|
        0 <= j < slots.len() ==> ((#[trigger] slots[j]) is None <==> now.ended.contains(
            layers[now.layer as int][j],
        ))
}

/// The statement of a layer has just been reached.
pub open spec fn is_fresh(layers: Seq<Seq<usize>>, run: Seq<Progress>, i: int) -> bool {
    i == 0 || (i > 0 && advances(layers, run[i - 1], run[i]))
}

/// When a statement begins, none of its futures has come to its end.
pub proof fn law_a_statement_begins<F>(
    fields: Seq<FieldSyntax>,
    owner: Owner,
    run: Seq<Progress>,
    i: int,
    slots: Seq<Option<Pin<Box<F>>>>,
)
    requires
        fields.len() <= usize::MAX,
        planned(fields, owner) is Ok,
        is_run(layers_in(planned(fields, owner)->Ok_0), run),
        0 <= i < run.len(),
        is_fresh(layers_in(planned(fields, owner)->Ok_0), run, i),
        run[i].layer < layers_in(planned(fields, owner)->Ok_0).len(),
        slots.len() == layers_in(planned(fields, owner)->Ok_0)[run[i].layer as int].len(),
        forall|j: int| 0 <= j < slots.len() ==> (#[trigger] slots[j]) is Some,
    ensures
        shows(layers_in(planned(fields, owner)->Ok_0), run[i], slots),
{
    lemma_planned(fields, owner);
    let layers = layers_in(planned(fields, owner)->Ok_0);
    let g = entry_graph(entries_in(planned(fields, owner)->Ok_0));
    let now = run[i];
    assert forall|j: int| 0 <= j < slots.len() implies !now.ended.contains(
        #[trigger] layers[now.layer as int][j],
    ) by {
        let e = layers[now.layer as int][j];
        if now.ended.contains(e) {
            let before = run[i - 1];
            lemma_progress(layers, run, i - 1);
            assert(before.ended.contains(e));
            let k = choose|k: int| k <= before.layer && #[trigger] stands_in(layers, e as int, k);
            law_layers_ascend(g, now.layer as int);
            law_every_node_once(g, e as int);
            assert(stands_in(layers_of(g), e as int, k));
            assert(stands_in(layers_of(g), e as int, now.layer as int));
        }
    }
}

/// One poll of a statement is a step of the code, and the next statement may begin exactly when the
/// poll says that the statement is over.
pub proof fn law_a_poll_is_a_step<'b, 'a, F: Future<Output = ()>>(
    fields: Seq<FieldSyntax>,
    owner: Owner,
    before: Progress,
    slots: Slots<F>,
    start: Baton<'b, 'a>,
    left: Slots<F>,
    end: Baton<'b, 'a>,
    done: bool,
) -> (after: Progress)
    requires
        fields.len() <= usize::MAX,
        planned(fields, owner) is Ok,
        shows(layers_in(planned(fields, owner)->Ok_0), before, slots@),
        Slots::<F>::steps(slots, start, left, end, done),
    ensures
        goes_on(layers_in(planned(fields, owner)->Ok_0), before, after),
        shows(layers_in(planned(fields, owner)->Ok_0), after, left@),
        done <==> advances(
            layers_in(planned(fields, owner)->Ok_0),
            after,
            Progress { layer: after.layer + 1, ended: after.ended },
        ),
{
    lemma_planned(fields, owner);
    let layers = layers_in(planned(fields, owner)->Ok_0);
    let g = entry_graph(entries_in(planned(fields, owner)->Ok_0));
    let layer = layers[before.layer as int];
    law_layers_ascend(g, before.layer as int);
    let some = Set::new(
        |e: usize|
            exists|j: int|
                0 <= j < layer.len() && (#[trigger] layer[j]) == e && left@[j] is None,
    );
    let after = Progress { ended: before.ended.union(some), ..before };
    assert(ends(layers, before, some, after));
    let batons = choose|batons: Seq<Baton<'b, 'a>>|
        {
            &&& #[trigger] in_order(slots@, left@, batons)
            &&& batons.len() == slots@.len() + 1
            &&& batons[0] == start
            &&& batons.last() == end
        };
    assert forall|j: int| 0 <= j < left@.len() implies ((#[trigger] left@[j]) is None
        <==> after.ended.contains(layer[j])) by {
        assert(takes_its_turn(slots@, left@, batons, j));
        if before.ended.contains(layer[j]) {
            assert(slots@[j] is None);
        }
        if some.contains(layer[j]) {
            let k = choose|k: int|
                0 <= k < layer.len() && (#[trigger] layer[k]) == layer[j] && left@[k] is None;
            assert(k == j);
        }
    }
    if done {
        assert forall|e: usize| #[trigger] layer.contains(e) implies after.ended.contains(e) by {
            let j = choose|j: int| 0 <= j < layer.len() && layer[j] == e;
            assert(left@[j] is None);
        }
    } else {
        let j = choose|j: int| 0 <= j < left@.len() && !((#[trigger] left@[j]) is None);
        assert(layer.contains(layer[j]));
        assert(!after.ended.contains(layer[j]));
    }
    after
}

} // verus!
