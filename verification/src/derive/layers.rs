//! Grouping fields into layers by Kahn's algorithm.
//!
//! A dependency graph is a sequence with one entry per node; entry `i` lists the nodes that node
//! `i` has to wait for. Layer `k` holds the nodes that can start once the layers before `k` are
//! done, and not earlier.
use vstd::prelude::*;

verus! {

/// The lists that a vector of vectors holds: a graph, or layers.
pub open spec fn lists_of(lists: Seq<Vec<usize>>) -> Seq<Seq<usize>> {
    Seq::new(lists.len(), |i: int| lists[i]@)
}

/// Every dependency is a node of the graph.
pub open spec fn closed_graph(g: Seq<Seq<usize>>) -> bool {
    forall|i: int, p: int|
        0 <= i < g.len() && 0 <= p < g[i].len() ==> (#[trigger] g[i][p]) < g.len()
}

/// Node `i` is done after `rounds` further rounds at the latest, when each round finishes every
/// node whose dependencies are all done.
pub open spec fn settles_within(g: Seq<Seq<usize>>, i: int, rounds: nat) -> bool
    decreases rounds,
{
    forall|p: int|
        0 <= p < g[i].len() ==> rounds > 0 && settles_within(
            g,
            #[trigger] g[i][p] as int,
            (rounds - 1) as nat,
        )
}

/// Node `i` is done after finitely many rounds.
pub open spec fn settles(g: Seq<Seq<usize>>, i: int) -> bool {
    exists|rounds: nat| settles_within(g, i, rounds)
}

/// Node `i` is done in round `k` and not before.
pub open spec fn at_level(g: Seq<Seq<usize>>, i: int, k: nat) -> bool {
    &&& settles_within(g, i, k)
    &&& k > 0 ==> !settles_within(g, i, (k - 1) as nat)
}

/// The nodes below `n` that are done in round `k` and not before, in ascending order.
pub open spec fn layer_below(g: Seq<Seq<usize>>, k: nat, n: nat) -> Seq<usize>
    decreases n,
{
    if n == 0 {
        Seq::empty()
    } else {
        let before = layer_below(g, k, (n - 1) as nat);
        if at_level(g, n - 1, k) {
            before.push((n - 1) as usize)
        } else {
            before
        }
    }
}

/// Layer `k` of the graph.
pub open spec fn layer(g: Seq<Seq<usize>>, k: nat) -> Seq<usize> {
    layer_below(g, k, g.len())
}

/// Every node can start at some point.
pub open spec fn all_settle(g: Seq<Seq<usize>>) -> bool {
    forall|i: int| 0 <= i < g.len() ==> #[trigger] settles(g, i)
}

/// It takes `depth` rounds to finish every node, and each of them finishes some.
pub open spec fn has_depth(g: Seq<Seq<usize>>, depth: nat) -> bool {
    &&& g.len() > 0 ==> depth > 0
    &&& forall|i: int| 0 <= i < g.len() ==> #[trigger] settles_within(g, i, (depth - 1) as nat)
    &&& forall|k: nat| k < depth ==> (#[trigger] layer(g, k)).len() > 0
}

/// How many layers the graph has, where every node can start.
pub open spec fn depth_of(g: Seq<Seq<usize>>) -> nat {
    choose|depth: nat| has_depth(g, depth)
}

/// The layers of a graph in which every node can start, none empty.
pub open spec fn layers_of(g: Seq<Seq<usize>>) -> Seq<Seq<usize>> {
    Seq::new(depth_of(g), |k: int| layer(g, k as nat))
}

/// How often `x` occurs in `s`.
spec fn occurrences(s: Seq<usize>, x: usize) -> nat
    decreases s.len(),
{
    if s.len() == 0 {
        0
    } else {
        occurrences(s.drop_last(), x) + if s.last() == x {
            1nat
        } else {
            0nat
        }
    }
}

/// How many entries of `s` name a node that is not placed.
spec fn unplaced(s: Seq<usize>, placed: Seq<bool>) -> nat
    decreases s.len(),
{
    if s.len() == 0 {
        0
    } else {
        unplaced(s.drop_last(), placed) + if placed[s.last() as int] {
            0nat
        } else {
            1nat
        }
    }
}

proof fn lemma_occurrences_push(s: Seq<usize>, y: usize, x: usize)
    ensures
        occurrences(s.push(y), x) == occurrences(s, x) + if y == x {
            1nat
        } else {
            0nat
        },
{
    assert(s.push(y).drop_last() =~= s);
}

proof fn lemma_unplaced_update(s: Seq<usize>, placed: Seq<bool>, i: int)
    requires
        0 <= i < placed.len() <= usize::MAX,
        !placed[i],
        forall|p: int| 0 <= p < s.len() ==> (#[trigger] s[p]) < placed.len(),
    ensures
        unplaced(s, placed) == unplaced(s, placed.update(i, true)) + occurrences(s, i as usize),
    decreases s.len(),
{
    if s.len() > 0 {
        let t = s.drop_last();
        assert forall|p: int| 0 <= p < t.len() implies (#[trigger] t[p]) < placed.len() by {
            assert(t[p] == s[p]);
        }
        lemma_unplaced_update(t, placed, i);
        assert(s.last() == s[s.len() - 1]);
        assert(i as usize as int == i);
    }
}

proof fn lemma_unplaced_zero(s: Seq<usize>, placed: Seq<bool>)
    ensures
        unplaced(s, placed) == 0 <==> forall|p: int|
            0 <= p < s.len() ==> placed[#[trigger] s[p] as int],
    decreases s.len(),
{
    if s.len() > 0 {
        let t = s.drop_last();
        lemma_unplaced_zero(t, placed);
        assert(s.last() == s[s.len() - 1]);
        if unplaced(s, placed) == 0 {
            assert forall|p: int| 0 <= p < s.len() implies placed[#[trigger] s[p] as int] by {
                if p < t.len() {
                    assert(t[p] == s[p]);
                }
            }
        } else if unplaced(t, placed) != 0 {
            let p = choose|p: int| 0 <= p < t.len() && !placed[#[trigger] t[p] as int];
            assert(t[p] == s[p]);
        }
    }
}

proof fn lemma_unplaced_all(s: Seq<usize>, placed: Seq<bool>)
    requires
        forall|p: int| 0 <= p < s.len() ==> !placed[#[trigger] s[p] as int],
    ensures
        unplaced(s, placed) == s.len(),
    decreases s.len(),
{
    if s.len() > 0 {
        let t = s.drop_last();
        assert forall|p: int| 0 <= p < t.len() implies !placed[#[trigger] t[p] as int] by {
            assert(t[p] == s[p]);
        }
        assert(s.last() == s[s.len() - 1]);
        lemma_unplaced_all(t, placed);
    }
}

proof fn lemma_occurrences_bounded(s: Seq<usize>, x: usize, j: int)
    requires
        0 <= j < s.len(),
        s[j] == x,
    ensures
        occurrences(s.take(j), x) < occurrences(s, x),
    decreases s.len(),
{
    let t = s.drop_last();
    if j == s.len() - 1 {
        assert(s.take(j) =~= t);
    } else {
        assert(t.take(j) =~= s.take(j));
        assert(t[j] == s[j]);
        lemma_occurrences_bounded(t, x, j);
    }
}

/// A node that is done within some number of rounds is done within any larger number.
pub proof fn settles_within_monotone(g: Seq<Seq<usize>>, i: int, r: nat, s: nat)
    requires
        r <= s,
        settles_within(g, i, r),
    ensures
        settles_within(g, i, s),
    decreases s,
{
    assert forall|p: int| 0 <= p < g[i].len() implies s > 0 && settles_within(
        g,
        #[trigger] g[i][p] as int,
        (s - 1) as nat,
    ) by {
        settles_within_monotone(g, g[i][p] as int, (r - 1) as nat, (s - 1) as nat);
    }
}

/// When a round finishes no node, no later round does.
proof fn lemma_fixpoint(g: Seq<Seq<usize>>, r: nat, s: nat, i: int)
    requires
        closed_graph(g),
        r <= s,
        0 <= i < g.len(),
        forall|j: int|
            0 <= j < g.len() && #[trigger] settles_within(g, j, r + 1) ==> settles_within(g, j, r),
        settles_within(g, i, s),
    ensures
        settles_within(g, i, r),
    decreases s,
{
    if s > r {
        assert forall|p: int| 0 <= p < g[i].len() implies settles_within(
            g,
            #[trigger] g[i][p] as int,
            r,
        ) by {
            lemma_fixpoint(g, r, (s - 1) as nat, g[i][p] as int);
        }
        assert(settles_within(g, i, r + 1));
    }
}

/// When the first round finishes no node, no round does.
proof fn lemma_nothing_starts(g: Seq<Seq<usize>>, s: nat, i: int)
    requires
        closed_graph(g),
        0 <= i < g.len(),
        forall|j: int| 0 <= j < g.len() ==> !#[trigger] settles_within(g, j, 0),
    ensures
        !settles_within(g, i, s),
    decreases s,
{
    if settles_within(g, i, s) {
        assert(!settles_within(g, i, 0));
        assert(g[i].len() > 0);
        lemma_nothing_starts(g, (s - 1) as nat, g[i][0] as int);
    }
}

/// For every node, the nodes that wait for it, once per mention.
fn reverse_edges(deps: &Vec<Vec<usize>>) -> (children: Vec<Vec<usize>>)
    requires
        closed_graph(lists_of(deps@)),
    ensures
        children.len() == deps.len(),
        forall|d: int, j: int|
            0 <= d < children.len() && 0 <= j < children[d].len() ==> (#[trigger] children[d][j])
                < deps.len(),
        forall|d: usize, c: int|
            0 <= d < children.len() && 0 <= c < children.len() ==> #[trigger] occurrences(
                children[d as int]@,
                c as usize,
            ) == occurrences(deps[c]@, d),
{
    let n = deps.len();
    let mut children: Vec<Vec<usize>> = Vec::new();
    let mut k: usize = 0;
    while k < n
        invariant
            k <= n,
            children.len() == k,
            forall|d: int| 0 <= d < k ==> (#[trigger] children[d])@.len() == 0,
        decreases n - k,
    {
        children.push(Vec::new());
        k += 1;
    }
    let mut i: usize = 0;
    while i < n
        invariant
            i <= n,
            n == deps.len(),
            children.len() == n,
            closed_graph(lists_of(deps@)),
            forall|d: int, j: int|
                0 <= d < n && 0 <= j < children[d].len() ==> (#[trigger] children[d][j]) < n,
            forall|d: usize, c: int|
                0 <= d < n && 0 <= c < n ==> #[trigger] occurrences(children[d as int]@, c as usize)
                    == if c < i {
                    occurrences(deps[c]@, d)
                } else {
                    0
                },
        decreases n - i,
    {
        let mut p: usize = 0;
        while p < deps[i].len()
            invariant
                i < n,
                n == deps.len(),
                p <= deps[i as int].len(),
                children.len() == n,
                closed_graph(lists_of(deps@)),
                forall|d: int, j: int|
                    0 <= d < n && 0 <= j < children[d].len() ==> (#[trigger] children[d][j]) < n,
                forall|d: usize, c: int|
                    0 <= d < n && 0 <= c < n ==> #[trigger] occurrences(
                        children[d as int]@,
                        c as usize,
                    ) == if c < i {
                        occurrences(deps[c]@, d)
                    } else if c == i {
                        occurrences(deps[c]@.take(p as int), d)
                    } else {
                        0
                    },
            decreases deps[i as int].len() - p,
        {
            let d = deps[i][p];
            assert(lists_of(deps@)[i as int][p as int] == d);
            let ghost before = children@;
            children[d].push(i);
            proof {
                let list = deps[i as int]@;
                assert(list.take(p + 1) =~= list.take(p as int).push(d));
                assert forall|e: usize, c: int|
                    0 <= e < n && 0 <= c < n implies #[trigger] occurrences(
                    children[e as int]@,
                    c as usize,
                ) == if c < i {
                    occurrences(deps[c]@, e)
                } else if c == i {
                    occurrences(deps[c]@.take(p + 1), e)
                } else {
                    0
                } by {
                    lemma_occurrences_push(before[e as int]@, i, c as usize);
                    lemma_occurrences_push(list.take(p as int), d, e);
                    assert(occurrences(before[e as int]@, c as usize) == occurrences(
                        before[e as int]@,
                        c as usize,
                    ));
                }
            }
            p += 1;
        }
        assert(deps[i as int]@.take(p as int) =~= deps[i as int]@);
        i += 1;
    }
    children
}

/// The state between two rounds: `placed` holds what `round` rounds have finished, and
/// `remaining` counts for each node the dependencies that are still to come.
spec fn between_rounds(
    g: Seq<Seq<usize>>,
    placed: Seq<bool>,
    remaining: Seq<usize>,
    round: nat,
) -> bool {
    &&& placed.len() == g.len()
    &&& remaining.len() == g.len()
    &&& forall|i: int|
        0 <= i < g.len() ==> (#[trigger] placed[i] <==> round > 0 && settles_within(
            g,
            i,
            (round - 1) as nat,
        ))
    &&& forall|i: int| 0 <= i < g.len() ==> #[trigger] remaining[i] == unplaced(g[i], placed)
}

/// A node is free to start exactly when it is done within one more round.
proof fn lemma_ready(
    g: Seq<Seq<usize>>,
    placed: Seq<bool>,
    remaining: Seq<usize>,
    round: nat,
    i: int,
)
    requires
        closed_graph(g),
        between_rounds(g, placed, remaining, round),
        0 <= i < g.len(),
    ensures
        remaining[i] == 0 <==> settles_within(g, i, round),
        !placed[i] && remaining[i] == 0 <==> at_level(g, i, round),
{
    lemma_unplaced_zero(g[i], placed);
    if remaining[i] == 0 {
        assert forall|p: int| 0 <= p < g[i].len() implies round > 0 && settles_within(
            g,
            #[trigger] g[i][p] as int,
            (round - 1) as nat,
        ) by {
            assert(placed[g[i][p] as int]);
        }
    }
    if settles_within(g, i, round) {
        assert forall|p: int| 0 <= p < g[i].len() implies placed[#[trigger] g[i][p] as int] by {}
    }
}

/// The nodes that are not placed and wait for nothing, in ascending order.
fn ready_nodes(
    placed: &Vec<bool>,
    remaining: &Vec<usize>,
    Ghost(g): Ghost<Seq<Seq<usize>>>,
    Ghost(round): Ghost<nat>,
) -> (ready: Vec<usize>)
    requires
        closed_graph(g),
        between_rounds(g, placed@, remaining@, round),
    ensures
        ready@ == layer(g, round),
{
    let n = placed.len();
    let mut ready: Vec<usize> = Vec::new();
    let mut i: usize = 0;
    while i < n
        invariant
            i <= n,
            n == placed.len(),
            n == g.len(),
            closed_graph(g),
            between_rounds(g, placed@, remaining@, round),
            ready@ == layer_below(g, round, i as nat),
        decreases n - i,
    {
        proof {
            lemma_ready(g, placed@, remaining@, round, i as int);
        }
        if !placed[i] && remaining[i] == 0 {
            ready.push(i);
        }
        i += 1;
    }
    ready
}

proof fn lemma_layer_below(g: Seq<Seq<usize>>, k: nat, n: nat)
    requires
        n <= usize::MAX,
    ensures
        forall|i: usize| #[trigger] layer_below(g, k, n).contains(i) <==> i < n && at_level(
            g,
            i as int,
            k,
        ),
        layer_below(g, k, n).no_duplicates(),
        forall|a: int, b: int|
            0 <= a < b < layer_below(g, k, n).len() ==> (#[trigger] layer_below(g, k, n)[a])
                < #[trigger] layer_below(g, k, n)[b],
    decreases n,
{
    if n > 0 {
        let t = layer_below(g, k, (n - 1) as nat);
        let s = layer_below(g, k, n);
        lemma_layer_below(g, k, (n - 1) as nat);
        assert forall|a: int| 0 <= a < t.len() implies #[trigger] t[a] < n - 1 by {
            assert(t.contains(t[a]));
        }
        assert forall|i: usize| #[trigger] s.contains(i) <==> i < n && at_level(g, i as int, k) by {
            if s.contains(i) {
                let a = choose|a: int| 0 <= a < s.len() && s[a] == i;
                if a < t.len() {
                    assert(t.contains(t[a]));
                }
            }
            if i < n && at_level(g, i as int, k) {
                if i < n - 1 {
                    assert(t.contains(i));
                    let a = choose|a: int| 0 <= a < t.len() && t[a] == i;
                    assert(s[a] == i);
                } else {
                    assert(s[s.len() - 1] == i);
                }
            }
        }
    }
}

/// How many entries are true.
spec fn trues(s: Seq<bool>) -> nat
    decreases s.len(),
{
    if s.len() == 0 {
        0
    } else {
        trues(s.drop_last()) + if s.last() {
            1nat
        } else {
            0nat
        }
    }
}

proof fn lemma_trues_update(s: Seq<bool>, i: int)
    requires
        0 <= i < s.len(),
        !s[i],
    ensures
        trues(s.update(i, true)) == trues(s) + 1,
    decreases s.len(),
{
    let t = s.drop_last();
    if i == s.len() - 1 {
        assert(s.update(i, true).drop_last() =~= t);
    } else {
        assert(s.update(i, true).drop_last() =~= t.update(i, true));
        assert(t[i] == s[i]);
        lemma_trues_update(t, i);
    }
}

proof fn lemma_trues_full(s: Seq<bool>)
    ensures
        trues(s) <= s.len(),
        trues(s) == s.len() <==> forall|i: int| 0 <= i < s.len() ==> #[trigger] s[i],
    decreases s.len(),
{
    if s.len() > 0 {
        let t = s.drop_last();
        lemma_trues_full(t);
        assert(s.last() == s[s.len() - 1]);
        if trues(s) == s.len() {
            assert forall|i: int| 0 <= i < s.len() implies #[trigger] s[i] by {
                if i < t.len() {
                    assert(t[i]);
                }
            }
        } else if s.last() {
            let i = choose|i: int| 0 <= i < t.len() && !#[trigger] t[i];
            assert(!s[i]);
        }
    }
}

/// Marks the nodes of one layer as placed and counts them off at the nodes that wait for them.
/// Returns how many nodes are placed now.
fn place_layer(
    ready: &Vec<usize>,
    children: &Vec<Vec<usize>>,
    placed: &mut Vec<bool>,
    remaining: &mut Vec<usize>,
    placed_count: usize,
    Ghost(g): Ghost<Seq<Seq<usize>>>,
    Ghost(round): Ghost<nat>,
) -> (count: usize)
    requires
        closed_graph(g),
        g.len() <= usize::MAX,
        between_rounds(g, old(placed)@, old(remaining)@, round),
        placed_count == trues(old(placed)@),
        ready@ == layer(g, round),
        children.len() == g.len(),
        forall|d: int, j: int|
            0 <= d < children.len() && 0 <= j < children[d].len() ==> (#[trigger] children[d][j])
                < g.len(),
        forall|d: usize, c: int|
            0 <= d < children.len() && 0 <= c < children.len() ==> #[trigger] occurrences(
                children[d as int]@,
                c as usize,
            ) == occurrences(g[c], d),
    ensures
        between_rounds(g, final(placed)@, final(remaining)@, round + 1),
        count == trues(final(placed)@),
        count == placed_count + ready.len(),
{
    let ghost start = placed@;
    let mut count: usize = placed_count;
    let mut j: usize = 0;
    proof {
        lemma_layer_below(g, round, g.len());
        assert(ready@.take(0) =~= Seq::empty());
    }
    while j < ready.len()
        invariant
            j <= ready.len(),
            closed_graph(g),
            g.len() <= usize::MAX,
            ready@ == layer(g, round),
            ready@.no_duplicates(),
            forall|i: usize| #[trigger] ready@.contains(i) <==> i < g.len() && at_level(
                g,
                i as int,
                round,
            ),
            children.len() == g.len(),
            forall|d: int, q: int|
                0 <= d < children.len() && 0 <= q < children[d].len() ==> (
                #[trigger] children[d][q]) < g.len(),
            forall|d: usize, c: int|
                0 <= d < children.len() && 0 <= c < children.len() ==> #[trigger] occurrences(
                    children[d as int]@,
                    c as usize,
                ) == occurrences(g[c], d),
            start.len() == g.len(),
            placed.len() == g.len(),
            remaining.len() == g.len(),
            forall|i: int|
                0 <= i < g.len() ==> (#[trigger] start[i] <==> round > 0 && settles_within(
                    g,
                    i,
                    (round - 1) as nat,
                )),
            forall|i: int|
                0 <= i < g.len() ==> (#[trigger] placed[i] <==> start[i] || ready@.take(
                    j as int,
                ).contains(i as usize)),
            forall|i: int|
                0 <= i < g.len() ==> #[trigger] remaining[i] == unplaced(g[i], placed@),
            count == trues(placed@),
            count == placed_count + j,
        decreases ready.len() - j,
    {
        let i = ready[j];
        let ghost before = placed@;
        proof {
            assert(ready@.contains(i));
            assert(at_level(g, i as int, round));
            assert(!start[i as int]);
            if ready@.take(j as int).contains(i) {
                let a = choose|a: int|
                    0 <= a < ready@.take(j as int).len() && ready@.take(j as int)[a] == i;
                assert(ready@[a] == ready@[j as int]);
            }
            assert(!before[i as int]);
            lemma_trues_update(before, i as int);
            lemma_trues_full(before.update(i as int, true));
        }
        placed[i] = true;
        count += 1;
        let mut q: usize = 0;
        proof {
            assert(children[i as int]@.take(0) =~= Seq::empty());
        }
        while q < children[i].len()
            invariant
                q <= children[i as int].len(),
                i < g.len(),
                closed_graph(g),
                g.len() <= usize::MAX,
                children.len() == g.len(),
                forall|d: int, q: int|
                    0 <= d < children.len() && 0 <= q < children[d].len() ==> (
                    #[trigger] children[d][q]) < g.len(),
                forall|d: usize, c: int|
                    0 <= d < children.len() && 0 <= c < children.len() ==> #[trigger] occurrences(
                        children[d as int]@,
                        c as usize,
                    ) == occurrences(g[c], d),
                before.len() == g.len(),
                !before[i as int],
                remaining.len() == g.len(),
                forall|c: int|
                    0 <= c < g.len() ==> #[trigger] remaining[c] == unplaced(g[c], before)
                        - occurrences(children[i as int]@.take(q as int), c as usize),
            decreases children[i as int].len() - q,
        {
            let child = children[i][q];
            let ghost list = children[i as int]@;
            proof {
                lemma_occurrences_bounded(list, child, q as int);
                let c = child as int;
                assert(c as usize == child);
                assert(occurrences(children[i as int]@, c as usize) == occurrences(g[c], i));
                lemma_unplaced_update(g[child as int], before, i as int);
                assert(list.take(q + 1) =~= list.take(q as int).push(child));
            }
            let ghost counted = remaining@;
            remaining[child] = remaining[child] - 1;
            proof {
                assert forall|c: int| 0 <= c < g.len() implies #[trigger] remaining[c] == unplaced(
                    g[c],
                    before,
                ) - occurrences(list.take(q + 1), c as usize) by {
                    lemma_occurrences_push(list.take(q as int), child, c as usize);
                    assert(counted[c] == unplaced(g[c], before) - occurrences(
                        list.take(q as int),
                        c as usize,
                    ));
                }
            }
            q += 1;
        }
        proof {
            assert(children[i as int]@.take(q as int) =~= children[i as int]@);
            assert forall|c: int| 0 <= c < g.len() implies #[trigger] remaining[c] == unplaced(
                g[c],
                placed@,
            ) by {
                lemma_unplaced_update(g[c], before, i as int);
                assert(occurrences(children[i as int]@, c as usize) == occurrences(g[c], i));
            }
            assert(ready@.take(j + 1) =~= ready@.take(j as int).push(i));
            assert forall|c: int| 0 <= c < g.len() implies (#[trigger] placed[c] <==> start[c]
                || ready@.take(j + 1).contains(c as usize)) by {
                let t = ready@.take(j as int);
                if t.contains(c as usize) {
                    let a = choose|a: int| 0 <= a < t.len() && t[a] == c as usize;
                    assert(t.push(i)[a] == c as usize);
                }
                if t.push(i).contains(c as usize) && c != i {
                    let a = choose|a: int| 0 <= a < t.push(i).len() && t.push(i)[a] == c as usize;
                    assert(t[a] == c as usize);
                }
                assert(t.push(i)[t.len() as int] == i);
            }
        }
        j += 1;
    }
    proof {
        assert(ready@.take(j as int) =~= ready@);
        assert forall|i: int| 0 <= i < g.len() implies (#[trigger] placed[i] <==> round + 1 > 0
            && settles_within(g, i, (round + 1 - 1) as nat)) by {
            assert(ready@.contains(i as usize) <==> at_level(g, i, round));
            if start[i] {
                settles_within_monotone(g, i, (round - 1) as nat, round);
            }
        }
    }
    count
}

/// A graph has one depth: there is one number of rounds that finishes every node with no idle
/// round.
pub proof fn law_one_depth(g: Seq<Seq<usize>>, depth: nat)
    requires
        g.len() <= usize::MAX,
        has_depth(g, depth),
    ensures
        depth_of(g) == depth,
        all_settle(g),
{
    lemma_no_layer_after(g, depth_of(g), depth);
    lemma_no_layer_after(g, depth, depth_of(g));
    assert forall|i: int| 0 <= i < g.len() implies #[trigger] settles(g, i) by {
        assert(settles_within(g, i, (depth - 1) as nat));
    }
}

proof fn lemma_no_layer_after(g: Seq<Seq<usize>>, d: nat, e: nat)
    requires
        g.len() <= usize::MAX,
        has_depth(g, d),
        has_depth(g, e),
    ensures
        e <= d,
{
    if d < e {
        lemma_layer_below(g, d, g.len());
        assert(layer(g, d).len() > 0);
        let i = layer(g, d)[0];
        assert(layer(g, d).contains(i));
        assert(at_level(g, i as int, d));
        assert(settles_within(g, i as int, (d - 1) as nat));
    }
}

/// Groups the nodes of a graph into layers.
///
/// The result lists the layers in order; within a layer the nodes ascend. If some node can never
/// start, because it waits for itself through others or for a node that does, the result is the
/// smallest such node.
pub fn kahn_layers(deps: &Vec<Vec<usize>>) -> (result: Result<Vec<Vec<usize>>, usize>)
    requires
        closed_graph(lists_of(deps@)),
    ensures
        match result {
            Ok(layers) => {
                &&& all_settle(lists_of(deps@))
                &&& lists_of(layers@) == layers_of(lists_of(deps@))
            },
            Err(stuck) => {
                &&& stuck < deps.len()
                &&& !settles(lists_of(deps@), stuck as int)
                &&& forall|i: int| 0 <= i < stuck ==> #[trigger] settles(lists_of(deps@), i)
            },
        },
{
    let n = deps.len();
    let ghost g = lists_of(deps@);
    let children = reverse_edges(deps);
    let mut remaining: Vec<usize> = Vec::new();
    let mut placed: Vec<bool> = Vec::new();
    let mut k: usize = 0;
    while k < n
        invariant
            k <= n,
            n == deps.len(),
            placed.len() == k,
            remaining.len() == k,
            forall|i: int| 0 <= i < k ==> !#[trigger] placed[i],
            forall|i: int| 0 <= i < k ==> #[trigger] remaining[i] == deps[i].len(),
            trues(placed@) == 0,
        decreases n - k,
    {
        let ghost before = placed@;
        remaining.push(deps[k].len());
        placed.push(false);
        assert(placed@.drop_last() =~= before);
        k += 1;
    }
    proof {
        assert forall|i: int| 0 <= i < n implies #[trigger] remaining[i] == unplaced(
            g[i],
            placed@,
        ) by {
            assert forall|p: int|
                0 <= p < g[i].len() implies !placed@[#[trigger] g[i][p] as int] by {
                assert(!placed[g[i][p] as int]);
            }
            lemma_unplaced_all(g[i], placed@);
        }
    }
    let mut layers: Vec<Vec<usize>> = Vec::new();
    let mut placed_count: usize = 0;
    let mut ready = ready_nodes(&placed, &remaining, Ghost(g), Ghost(0));
    while ready.len() > 0
        invariant
            n == g.len(),
            n == deps.len(),
            g == lists_of(deps@),
            closed_graph(g),
            between_rounds(g, placed@, remaining@, layers.len() as nat),
            placed_count == trues(placed@),
            ready@ == layer(g, layers.len() as nat),
            children.len() == g.len(),
            forall|d: int, q: int|
                0 <= d < children.len() && 0 <= q < children[d].len() ==> (
                #[trigger] children[d][q]) < g.len(),
            forall|d: usize, c: int|
                0 <= d < children.len() && 0 <= c < children.len() ==> #[trigger] occurrences(
                    children[d as int]@,
                    c as usize,
                ) == occurrences(g[c], d),
            forall|k: int|
                0 <= k < layers.len() ==> (#[trigger] layers[k])@ == layer(g, k as nat)
                    && layers[k]@.len() > 0,
            layers.len() <= placed_count,
        decreases n - placed_count,
    {
        let ghost round = layers.len() as nat;
        placed_count = place_layer(
            &ready,
            &children,
            &mut placed,
            &mut remaining,
            placed_count,
            Ghost(g),
            Ghost(round),
        );
        proof {
            lemma_trues_full(placed@);
        }
        layers.push(ready);
        ready = ready_nodes(&placed, &remaining, Ghost(g), Ghost(round + 1));
    }
    proof {
        lemma_trues_full(placed@);
    }
    if placed_count == n {
        proof {
            assert forall|i: int| 0 <= i < g.len() implies #[trigger] settles_within(
                g,
                i,
                (layers.len() - 1) as nat,
            ) by {
                assert(placed[i]);
            }
            if g.len() > 0 {
                assert(placed[0]);
            }
            assert forall|k: nat| k < layers.len() implies (#[trigger] layer(g, k)).len() > 0 by {
                assert(layers[k as int]@ == layer(g, k));
            }
            law_one_depth(g, layers.len() as nat);
            assert(lists_of(layers@) =~= layers_of(g));
        }
        return Ok(layers);
    }
    let ghost round = layers.len() as nat;
    proof {
        assert forall|i: int| 0 <= i < n && !#[trigger] placed[i] implies !settles(g, i) by {
            lemma_layer_below(g, round, g.len());
            assert forall|j: int| 0 <= j < g.len() implies !#[trigger] at_level(g, j, round) by {
                assert(!ready@.contains(j as usize));
            }
            if settles(g, i) {
                let s = choose|s: nat| settles_within(g, i, s);
                if round == 0 {
                    assert forall|j: int| 0 <= j < g.len() implies !#[trigger] settles_within(
                        g,
                        j,
                        0,
                    ) by {
                        assert(!at_level(g, j, round));
                    }
                    lemma_nothing_starts(g, s, i);
                } else {
                    let r = (round - 1) as nat;
                    assert forall|j: int|
                        0 <= j < g.len() && #[trigger] settles_within(
                            g,
                            j,
                            r + 1,
                        ) implies settles_within(g, j, r) by {
                        assert(!at_level(g, j, round));
                    }
                    if s < r {
                        settles_within_monotone(g, i, s, r);
                    } else {
                        lemma_fixpoint(g, r, s, i);
                    }
                }
            }
        }
        assert forall|i: int| 0 <= i < n && #[trigger] placed[i] implies settles(g, i) by {
            assert(settles_within(g, i, (round - 1) as nat));
        }
    }
    let mut stuck: usize = 0;
    while placed[stuck]
        invariant
            n == g.len(),
            placed.len() == n,
            stuck < n,
            exists|i: int| 0 <= i < n && !#[trigger] placed[i],
            forall|i: int| 0 <= i < stuck ==> #[trigger] placed[i],
        decreases n - stuck,
    {
        stuck += 1;
    }
    proof {
        assert forall|i: int| 0 <= i < stuck implies #[trigger] settles(g, i) by {
            assert(placed[i]);
        }
    }
    Err(stuck)
}

proof fn lemma_common_bound(g: Seq<Seq<usize>>, n: int) -> (r: nat)
    requires
        0 <= n <= g.len(),
        all_settle(g),
    ensures
        forall|i: int| 0 <= i < n ==> #[trigger] settles_within(g, i, r),
    decreases n,
{
    if n == 0 {
        0
    } else {
        let q = lemma_common_bound(g, n - 1);
        let last = n - 1;
        assert(settles(g, last));
        let t = choose|t: nat| settles_within(g, last, t);
        let r = if q > t {
            q
        } else {
            t
        };
        assert forall|i: int| 0 <= i < n implies #[trigger] settles_within(g, i, r) by {
            if i < n - 1 {
                settles_within_monotone(g, i, q, r);
            } else {
                settles_within_monotone(g, i, t, r);
            }
        }
        r
    }
}

/// Every node is done after `depth` rounds.
spec fn done_after(g: Seq<Seq<usize>>, depth: nat) -> bool {
    &&& g.len() > 0 ==> depth > 0
    &&& forall|i: int| 0 <= i < g.len() ==> #[trigger] settles_within(g, i, (depth - 1) as nat)
}

proof fn lemma_least_depth(g: Seq<Seq<usize>>, bound: nat) -> (depth: nat)
    requires
        done_after(g, bound),
    ensures
        done_after(g, depth),
        depth > 0 ==> !done_after(g, (depth - 1) as nat),
    decreases bound,
{
    if bound == 0 || !done_after(g, (bound - 1) as nat) {
        bound
    } else {
        lemma_least_depth(g, (bound - 1) as nat)
    }
}

/// Where every node can start, the layers hold them all.
proof fn lemma_has_depth(g: Seq<Seq<usize>>)
    requires
        g.len() <= usize::MAX,
        closed_graph(g),
        all_settle(g),
    ensures
        has_depth(g, depth_of(g)),
{
    let r = lemma_common_bound(g, g.len() as int);
    assert(done_after(g, r + 1));
    let depth = lemma_least_depth(g, r + 1);
    assert forall|k: nat| k < depth implies (#[trigger] layer(g, k)).len() > 0 by {
        lemma_layer_below(g, k, g.len());
        if layer(g, k).len() == 0 {
            assert forall|j: int| 0 <= j < g.len() implies !#[trigger] at_level(g, j, k) by {
                assert(!layer(g, k).contains(j as usize));
            }
            if k == 0 {
                assert forall|j: int| 0 <= j < g.len() implies !#[trigger] settles_within(
                    g,
                    j,
                    0,
                ) by {
                    assert(!at_level(g, j, k));
                }
                if g.len() == 0 {
                    assert(done_after(g, (depth - 1) as nat));
                }
                assert(settles_within(g, 0, (depth - 1) as nat));
                lemma_nothing_starts(g, (depth - 1) as nat, 0);
            } else {
                let q = (k - 1) as nat;
                assert forall|j: int|
                    0 <= j < g.len() && #[trigger] settles_within(
                        g,
                        j,
                        q + 1,
                    ) implies settles_within(g, j, q) by {
                    assert(!at_level(g, j, k));
                }
                assert forall|i: int| 0 <= i < g.len() implies #[trigger] settles_within(
                    g,
                    i,
                    (depth - 2) as nat,
                ) by {
                    assert(settles_within(g, i, (depth - 1) as nat));
                    lemma_fixpoint(g, q, (depth - 1) as nat, i);
                    settles_within_monotone(g, i, q, (depth - 2) as nat);
                }
                assert(done_after(g, (depth - 1) as nat));
            }
        }
    }
    assert(has_depth(g, depth));
}

/// Node `i` stands in layer `k`.
pub open spec fn stands_in(layers: Seq<Seq<usize>>, i: int, k: int) -> bool {
    0 <= k < layers.len() && layers[k].contains(i as usize)
}

proof fn lemma_stands_at_level(g: Seq<Seq<usize>>, i: int, k: int)
    requires
        g.len() <= usize::MAX,
        closed_graph(g),
        all_settle(g),
        0 <= i < g.len(),
        0 <= k < layers_of(g).len(),
    ensures
        stands_in(layers_of(g), i, k) <==> at_level(g, i, k as nat),
{
    lemma_layer_below(g, k as nat, g.len());
    assert(layers_of(g)[k] == layer(g, k as nat));
    assert(i as usize as int == i);
}

proof fn lemma_level_unique(g: Seq<Seq<usize>>, i: int, k: nat, m: nat)
    requires
        at_level(g, i, k),
        at_level(g, i, m),
    ensures
        k == m,
{
    if k < m {
        settles_within_monotone(g, i, k, (m - 1) as nat);
    }
    if m < k {
        settles_within_monotone(g, i, m, (k - 1) as nat);
    }
}

proof fn lemma_level_exists(g: Seq<Seq<usize>>, i: int, r: nat) -> (k: nat)
    requires
        settles_within(g, i, r),
    ensures
        k <= r,
        at_level(g, i, k),
    decreases r,
{
    if r == 0 || !settles_within(g, i, (r - 1) as nat) {
        r
    } else {
        lemma_level_exists(g, i, (r - 1) as nat)
    }
}

/// Every node stands in exactly one layer.
pub proof fn law_every_node_once(g: Seq<Seq<usize>>, i: int)
    requires
        g.len() <= usize::MAX,
        closed_graph(g),
        all_settle(g),
        0 <= i < g.len(),
    ensures
        exists|k: int| #[trigger] stands_in(layers_of(g), i, k),
        forall|k: int, m: int|
            #[trigger] stands_in(layers_of(g), i, k) && #[trigger] stands_in(layers_of(g), i, m)
                ==> k == m,
{
    lemma_has_depth(g);
    let last = (depth_of(g) - 1) as nat;
    assert(settles_within(g, i, last));
    let k = lemma_level_exists(g, i, last);
    lemma_stands_at_level(g, i, k as int);
    assert(stands_in(layers_of(g), i, k as int));
    assert forall|k: int, m: int|
        #[trigger] stands_in(layers_of(g), i, k) && #[trigger] stands_in(
            layers_of(g),
            i,
            m,
        ) implies k == m by {
        lemma_stands_at_level(g, i, k);
        lemma_stands_at_level(g, i, m);
        lemma_level_unique(g, i, k as nat, m as nat);
    }
}

/// A layer holds at least one node, nodes of the graph and nothing else, each once and in
/// ascending order.
pub proof fn law_layers_ascend(g: Seq<Seq<usize>>, k: int)
    requires
        g.len() <= usize::MAX,
        closed_graph(g),
        all_settle(g),
        0 <= k < layers_of(g).len(),
    ensures
        layers_of(g)[k].len() > 0,
        forall|j: int| 0 <= j < layers_of(g)[k].len() ==> (#[trigger] layers_of(g)[k][j]) < g.len(),
        forall|a: int, b: int|
            0 <= a < b < layers_of(g)[k].len() ==> (#[trigger] layers_of(g)[k][a])
                < #[trigger] layers_of(g)[k][b],
{
    lemma_has_depth(g);
    lemma_layer_below(g, k as nat, g.len());
    assert(layers_of(g)[k] == layer(g, k as nat));
    assert forall|j: int| 0 <= j < layers_of(g)[k].len() implies (#[trigger] layers_of(g)[k][j])
        < g.len() by {
        assert(layer(g, k as nat).contains(layers_of(g)[k][j]));
    }
}

/// A node stands in a later layer than everything it waits for.
pub proof fn law_dependency_comes_first(g: Seq<Seq<usize>>, i: int, p: int, k: int, m: int)
    requires
        g.len() <= usize::MAX,
        closed_graph(g),
        all_settle(g),
        0 <= i < g.len(),
        0 <= p < g[i].len(),
        stands_in(layers_of(g), i, k),
        stands_in(layers_of(g), g[i][p] as int, m),
    ensures
        m < k,
{
    let d = g[i][p] as int;
    lemma_stands_at_level(g, i, k);
    lemma_stands_at_level(g, d, m);
    assert(settles_within(g, d, (k - 1) as nat));
    let l = lemma_level_exists(g, d, (k - 1) as nat);
    lemma_level_unique(g, d, l, m as nat);
}

/// The first layer holds exactly the nodes that wait for nothing.
pub proof fn law_first_layer(g: Seq<Seq<usize>>, i: int)
    requires
        g.len() <= usize::MAX,
        closed_graph(g),
        all_settle(g),
        0 <= i < g.len(),
    ensures
        stands_in(layers_of(g), i, 0) <==> g[i].len() == 0,
{
    lemma_has_depth(g);
    assert(settles_within(g, i, (depth_of(g) - 1) as nat));
    lemma_stands_at_level(g, i, 0);
    if g[i].len() > 0 && settles_within(g, i, 0) {
        assert(settles_within(g, g[i][0] as int, (0 - 1) as nat));
    }
}

proof fn lemma_unsettled(g: Seq<Seq<usize>>, i: int, r: nat) -> (p: int)
    requires
        !settles_within(g, i, r),
    ensures
        0 <= p < g[i].len(),
        r > 0 ==> !settles_within(g, g[i][p] as int, (r - 1) as nat),
{
    if r == 0 {
        0
    } else {
        choose|p: int|
            0 <= p < g[i].len() && !settles_within(g, #[trigger] g[i][p] as int, (r - 1) as nat)
    }
}

/// No node waits longer than it has to: one in a layer after the first waits for some node in the
/// layer just before.
pub proof fn law_no_needless_wait(g: Seq<Seq<usize>>, i: int, k: int)
    requires
        g.len() <= usize::MAX,
        closed_graph(g),
        all_settle(g),
        0 <= i < g.len(),
        stands_in(layers_of(g), i, k),
        k > 0,
    ensures
        exists|p: int|
            0 <= p < g[i].len() && stands_in(layers_of(g), #[trigger] g[i][p] as int, k - 1),
{
    lemma_stands_at_level(g, i, k);
    let r = (k - 1) as nat;
    let p = lemma_unsettled(g, i, r);
    let d = g[i][p] as int;
    assert(settles_within(g, d, r));
    assert(at_level(g, d, r));
    lemma_stands_at_level(g, d, k - 1);
}

/// The node at place `j` of the path waits for the one after it.
pub open spec fn is_step(g: Seq<Seq<usize>>, path: Seq<int>, j: int) -> bool {
    g[path[j]].contains(path[j + 1] as usize)
}

/// A walk along dependencies: each node waits for the next.
pub open spec fn is_walk(g: Seq<Seq<usize>>, path: Seq<int>) -> bool {
    &&& forall|j: int| 0 <= j < path.len() ==> 0 <= #[trigger] path[j] < g.len()
    &&& forall|j: int| 0 <= j < path.len() - 1 ==> #[trigger] is_step(g, path, j)
}

/// A walk of at least one step that ends where it starts.
pub open spec fn is_cycle(g: Seq<Seq<usize>>, path: Seq<int>) -> bool {
    is_walk(g, path) && path.len() >= 2 && path[0] == path.last()
}

/// The dependency that keeps `i` from starting.
spec fn stuck_on(g: Seq<Seq<usize>>, i: int) -> int {
    let p = choose|p: int| 0 <= p < g[i].len() && !settles(g, #[trigger] g[i][p] as int);
    g[i][p] as int
}

proof fn lemma_bound_of(g: Seq<Seq<usize>>, i: int, n: int) -> (r: nat)
    requires
        0 <= n <= g[i].len(),
        forall|p: int| 0 <= p < n ==> settles(g, #[trigger] g[i][p] as int),
    ensures
        forall|p: int| 0 <= p < n ==> settles_within(g, #[trigger] g[i][p] as int, r),
    decreases n,
{
    if n == 0 {
        0
    } else {
        let q = lemma_bound_of(g, i, n - 1);
        let d = g[i][n - 1] as int;
        let t = choose|t: nat| settles_within(g, d, t);
        let r = if q > t {
            q
        } else {
            t
        };
        assert forall|p: int| 0 <= p < n implies settles_within(
            g,
            #[trigger] g[i][p] as int,
            r,
        ) by {
            if p < n - 1 {
                settles_within_monotone(g, g[i][p] as int, q, r);
            } else {
                settles_within_monotone(g, d, t, r);
            }
        }
        r
    }
}

proof fn lemma_stuck_on(g: Seq<Seq<usize>>, i: int)
    requires
        closed_graph(g),
        0 <= i < g.len() <= usize::MAX,
        !settles(g, i),
    ensures
        0 <= stuck_on(g, i) < g.len(),
        !settles(g, stuck_on(g, i)),
        g[i].contains(stuck_on(g, i) as usize),
{
    if forall|p: int| 0 <= p < g[i].len() ==> settles(g, #[trigger] g[i][p] as int) {
        let r = lemma_bound_of(g, i, g[i].len() as int);
        assert(settles_within(g, i, r + 1));
    }
    let p = choose|p: int| 0 <= p < g[i].len() && !settles(g, #[trigger] g[i][p] as int);
    assert(g[i][p] < g.len());
}

/// A walk of `n` steps through nodes that never start.
spec fn stuck_walk(g: Seq<Seq<usize>>, i: int, n: nat) -> Seq<int>
    decreases n,
{
    if n == 0 {
        seq![i]
    } else {
        let w = stuck_walk(g, i, (n - 1) as nat);
        w.push(stuck_on(g, w.last()))
    }
}

proof fn lemma_stuck_walk(g: Seq<Seq<usize>>, i: int, n: nat)
    requires
        closed_graph(g),
        0 <= i < g.len() <= usize::MAX,
        !settles(g, i),
    ensures
        stuck_walk(g, i, n).len() == n + 1,
        is_walk(g, stuck_walk(g, i, n)),
        forall|j: int| 0 <= j <= n ==> !settles(g, #[trigger] stuck_walk(g, i, n)[j]),
    decreases n,
{
    let w = stuck_walk(g, i, n);
    if n > 0 {
        let v = stuck_walk(g, i, (n - 1) as nat);
        lemma_stuck_walk(g, i, (n - 1) as nat);
        assert(v.last() == v[n - 1]);
        lemma_stuck_on(g, v.last());
        assert forall|j: int| 0 <= j < w.len() - 1 implies #[trigger] is_step(g, w, j) by {
            if j < v.len() - 1 {
                assert(is_step(g, v, j));
            }
        }
    }
}

/// Among more entries than there are values, two are equal.
proof fn lemma_pigeonhole(s: Seq<int>, n: int) -> (r: (int, int))
    requires
        0 <= n < s.len(),
        forall|j: int| 0 <= j < s.len() ==> 0 <= #[trigger] s[j] < n,
    ensures
        0 <= r.0 < r.1 < s.len(),
        s[r.0] == s[r.1],
{
    if s.no_duplicates() {
        s.unique_seq_to_set();
        let all = vstd::set_lib::set_int_range(0, n);
        vstd::set_lib::lemma_int_range(0, n);
        assert(s.to_set().subset_of(all)) by {
            assert forall|x: int| s.to_set().contains(x) implies all.contains(x) by {
                let j = choose|j: int| 0 <= j < s.len() && s[j] == x;
                assert(0 <= s[j] < n);
            }
        }
        vstd::set_lib::lemma_len_subset(s.to_set(), all);
        (0, 1)
    } else {
        let (a, b) = choose|a: int, b: int|
            0 <= a < s.len() && 0 <= b < s.len() && a != b && s[a] == s[b];
        if a < b {
            (a, b)
        } else {
            (b, a)
        }
    }
}

/// No node of a cycle ever starts.
pub proof fn law_cycle_never_starts(g: Seq<Seq<usize>>, path: Seq<int>, j: int)
    requires
        g.len() <= usize::MAX,
        is_cycle(g, path),
        0 <= j < path.len(),
    ensures
        !settles(g, path[j]),
{
    if settles(g, path[j]) {
        let r = choose|r: nat| settles_within(g, path[j], r);
        lemma_cycle_blocks(g, path, j, r);
    }
}

proof fn lemma_cycle_blocks(g: Seq<Seq<usize>>, path: Seq<int>, j: int, r: nat)
    requires
        g.len() <= usize::MAX,
        is_cycle(g, path),
        0 <= j < path.len(),
    ensures
        !settles_within(g, path[j], r),
    decreases r,
{
    if settles_within(g, path[j], r) {
        let at = if j == path.len() - 1 {
            0
        } else {
            j
        };
        assert(path[at] == path[j]);
        assert(is_step(g, path, at));
        let p = choose|p: int|
            0 <= p < g[path[at]].len() && g[path[at]][p] == path[at + 1] as usize;
        assert(settles_within(g, g[path[at]][p] as int, (r - 1) as nat));
        assert(path[at + 1] as usize as int == path[at + 1]);
        lemma_cycle_blocks(g, path, at + 1, (r - 1) as nat);
    }
}

/// A node that never starts leads to a cycle: a graph whose layering fails has one.
pub proof fn law_stuck_means_cycle(g: Seq<Seq<usize>>, i: int)
    requires
        closed_graph(g),
        0 <= i < g.len() <= usize::MAX,
        !settles(g, i),
    ensures
        exists|path: Seq<int>| #[trigger] is_cycle(g, path),
{
    let n = g.len();
    lemma_stuck_walk(g, i, n);
    let w = stuck_walk(g, i, n);
    let (a, b) = lemma_pigeonhole(w, n as int);
    let path = w.subrange(a, b + 1);
    assert forall|j: int| 0 <= j < path.len() - 1 implies #[trigger] is_step(g, path, j) by {
        assert(is_step(g, w, a + j));
    }
    assert(is_cycle(g, path));
}

/// Every node can start exactly when no nodes wait for each other in a circle.
pub proof fn law_layers_exist_without_cycles(g: Seq<Seq<usize>>)
    requires
        closed_graph(g),
        g.len() <= usize::MAX,
    ensures
        all_settle(g) <==> !exists|path: Seq<int>| #[trigger] is_cycle(g, path),
{
    if !all_settle(g) {
        let i = choose|i: int| 0 <= i < g.len() && !#[trigger] settles(g, i);
        law_stuck_means_cycle(g, i);
    }
    if exists|path: Seq<int>| #[trigger] is_cycle(g, path) {
        let path = choose|path: Seq<int>| #[trigger] is_cycle(g, path);
        law_cycle_never_starts(g, path, 0);
        assert(0 <= path[0] < g.len());
    }
}

/// A node can start at some point exactly if everything that it waits for can.
pub proof fn law_starts_with_what_it_waits_for(g: Seq<Seq<usize>>, i: int)
    ensures
        settles(g, i) <==> forall|p: int|
            0 <= p < g[i].len() ==> settles(g, #[trigger] g[i][p] as int),
{
    if settles(g, i) {
        let r = choose|r: nat| settles_within(g, i, r);
        assert forall|p: int| 0 <= p < g[i].len() implies settles(g, #[trigger] g[i][p] as int) by {
            assert(settles_within(g, g[i][p] as int, (r - 1) as nat));
        }
    }
    if forall|p: int| 0 <= p < g[i].len() ==> settles(g, #[trigger] g[i][p] as int) {
        let r = lemma_bound_of(g, i, g[i].len() as int);
        assert(settles_within(g, i, r + 1));
    }
}

proof fn lemma_walk_is_stuck(g: Seq<Seq<usize>>, path: Seq<int>, j: int, k: int)
    requires
        g.len() <= usize::MAX,
        is_walk(g, path),
        0 <= j <= k < path.len(),
        !settles(g, path[k]),
    ensures
        !settles(g, path[j]),
    decreases k - j,
{
    if j < k {
        lemma_walk_is_stuck(g, path, j + 1, k);
        assert(is_step(g, path, j));
        law_starts_with_what_it_waits_for(g, path[j]);
        let p = choose|p: int| 0 <= p < g[path[j]].len() && g[path[j]][p] == path[j + 1] as usize;
        assert(0 <= path[j + 1] < g.len());
        assert(g[path[j]][p] as int == path[j + 1]);
    }
}

/// A node can never start exactly if one can go on and on from it to what is waited for: there is a
/// walk from it that is longer than there are nodes.
pub proof fn law_never_starts_without_an_end(g: Seq<Seq<usize>>, i: int)
    requires
        closed_graph(g),
        0 <= i < g.len() <= usize::MAX,
    ensures
        !settles(g, i) <==> exists|path: Seq<int>|
            #[trigger] is_walk(g, path) && path.len() > g.len() && path[0] == i,
{
    if !settles(g, i) {
        lemma_stuck_walk(g, i, g.len());
        let w = stuck_walk(g, i, g.len());
        lemma_stuck_walk_starts(g, i, g.len());
        assert(is_walk(g, w) && w.len() > g.len() && w[0] == i);
    }
    if exists|path: Seq<int>|
        #[trigger] is_walk(g, path) && path.len() > g.len() && path[0] == i {
        let path = choose|path: Seq<int>|
            #[trigger] is_walk(g, path) && path.len() > g.len() && path[0] == i;
        let (a, b) = lemma_pigeonhole(path, g.len() as int);
        let circle = path.subrange(a, b + 1);
        assert forall|j: int| 0 <= j < circle.len() - 1 implies #[trigger] is_step(
            g,
            circle,
            j,
        ) by {
            assert(is_step(g, path, a + j));
        }
        assert(is_cycle(g, circle));
        law_cycle_never_starts(g, circle, 0);
        lemma_walk_is_stuck(g, path, 0, a);
    }
}

proof fn lemma_stuck_walk_starts(g: Seq<Seq<usize>>, i: int, n: nat)
    ensures
        stuck_walk(g, i, n).len() == n + 1,
        stuck_walk(g, i, n)[0] == i,
    decreases n,
{
    if n > 0 {
        lemma_stuck_walk_starts(g, i, (n - 1) as nat);
    }
}

/// Node `i` stands in list `k`.
pub open spec fn is_listed(lists: Seq<Vec<usize>>, i: int, k: int) -> bool {
    0 <= k < lists.len() && lists[k]@.contains(i as usize)
}

/// Grouping a graph into layers gives every node one place: not before the layers of what it waits
/// for, and no later than needed. No layer is empty, and within a layer the nodes ascend.
pub proof fn law_kahn_layers_answers(
    deps: &Vec<Vec<usize>>,
    result: Result<Vec<Vec<usize>>, usize>,
    i: int,
)
    requires
        closed_graph(lists_of(deps@)),
        call_ensures(kahn_layers, (deps,), result),
        0 <= i < deps@.len(),
    ensures
        result matches Ok(layers) ==> {
            &&& exists|k: int| #[trigger] is_listed(layers@, i, k)
            &&& forall|k: int, m: int|
                #[trigger] is_listed(layers@, i, k) && #[trigger] is_listed(layers@, i, m) ==> k
                    == m
            &&& forall|p: int, k: int, m: int|
                0 <= p < deps@[i]@.len() && #[trigger] is_listed(layers@, i, k)
                    && #[trigger] is_listed(layers@, deps@[i]@[p] as int, m) ==> m < k
            &&& forall|k: int| #[trigger]
                is_listed(layers@, i, k) && k > 0 ==> exists|p: int|
                    0 <= p < deps@[i]@.len() && is_listed(
                        layers@,
                        #[trigger] deps@[i]@[p] as int,
                        k - 1,
                    )
            &&& forall|k: int| 0 <= k < layers@.len() ==> (#[trigger] layers@[k])@.len() > 0
            &&& forall|k: int, a: int|
                0 <= k < layers@.len() && 0 <= a < layers@[k]@.len() ==> (
                #[trigger] layers@[k]@[a]) < deps@.len() && (a > 0 ==> layers@[k]@[a - 1]
                    < layers@[k]@[a])
        },
{
    assert(deps.len() == deps@.len());
    if let Ok(layers) = result {
        let g = lists_of(deps@);
        let lists = layers_of(g);
        assert(lists_of(layers@) == lists);
        assert(layers@.len() == lists.len());
        assert forall|n: int, k: int| #[trigger] is_listed(layers@, n, k) == stands_in(lists, n, k) by {
            if 0 <= k < layers@.len() {
                assert(lists_of(layers@)[k] == layers@[k]@);
            }
        }
        assert(g[i] == deps@[i]@);
        law_every_node_once(g, i);
        let at = choose|at: int| #[trigger] stands_in(lists, i, at);
        assert(is_listed(layers@, i, at));
        assert forall|p: int, k: int, m: int|
            0 <= p < deps@[i]@.len() && #[trigger] is_listed(layers@, i, k)
                && #[trigger] is_listed(layers@, deps@[i]@[p] as int, m) implies m < k by {
            assert(g[i][p] == deps@[i]@[p]);
            law_dependency_comes_first(g, i, p, k, m);
        }
        assert forall|k: int| #[trigger] is_listed(layers@, i, k) && k > 0 implies exists|p: int|
            0 <= p < deps@[i]@.len() && is_listed(
                layers@,
                #[trigger] deps@[i]@[p] as int,
                k - 1,
            ) by {
            law_no_needless_wait(g, i, k);
            let p = choose|p: int|
                0 <= p < g[i].len() && stands_in(lists, #[trigger] g[i][p] as int, k - 1);
            assert(g[i][p] == deps@[i]@[p]);
            assert(is_listed(layers@, deps@[i]@[p] as int, k - 1));
        }
        assert forall|k: int| 0 <= k < layers@.len() implies (#[trigger] layers@[k])@.len() > 0 by {
            law_layers_ascend(g, k);
            assert(lists_of(layers@)[k] == layers@[k]@);
        }
        assert forall|k: int, a: int|
            0 <= k < layers@.len() && 0 <= a < layers@[k]@.len() implies (
        #[trigger] layers@[k]@[a]) < deps@.len() && (a > 0 ==> layers@[k]@[a - 1]
            < layers@[k]@[a]) by {
            law_layers_ascend(g, k);
            assert(lists_of(layers@)[k] == layers@[k]@);
            assert(lists[k][a] == layers@[k]@[a]);
            if a > 0 {
                assert(lists[k][a - 1] < lists[k][a]);
            }
        }
    }
}

/// Grouping a graph into layers fails exactly if some node can never start, with the first of them:
/// one from which one can go on and on to what is waited for.
pub proof fn law_kahn_layers_finds_the_first_stuck(
    deps: &Vec<Vec<usize>>,
    result: Result<Vec<Vec<usize>>, usize>,
    i: int,
)
    requires
        closed_graph(lists_of(deps@)),
        call_ensures(kahn_layers, (deps,), result),
        0 <= i < deps@.len(),
    ensures
        (exists|path: Seq<int>|
            #[trigger] is_walk(lists_of(deps@), path) && path.len() > deps@.len() && path[0] == i)
            ==> result is Err && result->Err_0 <= i,
        result == Err::<Vec<Vec<usize>>, _>(i as usize) ==> exists|path: Seq<int>|
            #[trigger] is_walk(lists_of(deps@), path) && path.len() > deps@.len() && path[0] == i,
{
    assert(deps.len() == deps@.len());
    let g = lists_of(deps@);
    law_never_starts_without_an_end(g, i);
    if let Err(stuck) = result {
        if stuck > i {
            assert(settles(g, i));
        }
    } else {
        assert(settles(g, i));
    }
}

/// A graph without nodes has no layers.
pub proof fn law_no_layers(g: Seq<Seq<usize>>)
    requires
        g.len() == 0,
    ensures
        layers_of(g).len() == 0,
{
    assert(has_depth(g, 0));
    let depth = depth_of(g);
    if depth > 0 {
        assert(layer(g, 0).len() > 0);
    }
}

} // verus!
