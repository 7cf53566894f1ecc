//! Walks, reachability and shortest distances in a graph given as adjacency
//! lists over node positions.

use vstd::prelude::*;
use crate::fixed::SCALE;

verus! {

/// Every neighbour in every adjacency list is the position of a node.
pub open spec fn links_in_range(adj: Seq<Seq<int>>) -> bool {
    forall|u: int, k: int|
        0 <= u < adj.len() && 0 <= k < adj[u].len() ==> 0 <= #[trigger] adj[u][k] < adj.len()
}

/// Whether some walk of exactly `steps` edges leads from `from` to `to`.
pub open spec fn connects(adj: Seq<Seq<int>>, from: int, to: int, steps: nat) -> bool
    decreases steps,
{
    if steps == 0 {
        from == to && 0 <= from < adj.len()
    } else {
        exists|mid: int|
            0 <= mid < adj.len() && connects(adj, from, mid, (steps - 1) as nat) && (
            #[trigger] adj[mid]).contains(to)
    }
}

/// Whether some walk leads from `from` to `to`.
pub open spec fn reachable(adj: Seq<Seq<int>>, from: int, to: int) -> bool {
    exists|steps: nat| connects(adj, from, to, steps)
}

/// Whether `d` is the number of edges of a shortest walk from `from` to `to`.
pub open spec fn is_distance(adj: Seq<Seq<int>>, from: int, to: int, d: nat) -> bool {
    &&& connects(adj, from, to, d)
    &&& forall|e: nat| connects(adj, from, to, e) ==> d <= e
}

/// Number of edges of a shortest walk from `from` to `to`, where there is one.
pub open spec fn distance(adj: Seq<Seq<int>>, from: int, to: int) -> nat {
    choose|d: nat| is_distance(adj, from, to, d)
}

/// A shortest length is the distance.
pub proof fn lemma_distance(adj: Seq<Seq<int>>, from: int, to: int, d: nat)
    requires
        is_distance(adj, from, to, d),
    ensures
        reachable(adj, from, to),
        distance(adj, from, to) == d,
{
    let c = distance(adj, from, to);
    assert(is_distance(adj, from, to, c));
}

/// Distances from one source as a search records them: the shortest length
/// for each node it reaches, nothing for the others.
pub open spec fn levels_exact(adj: Seq<Seq<int>>, start: int, levels: Seq<Option<usize>>) -> bool {
    &&& levels.len() == adj.len()
    &&& forall|t: int|
        0 <= t < adj.len() ==> match #[trigger] levels[t] {
            Some(d) => is_distance(adj, start, t, d as nat),
            None => !reachable(adj, start, t),
        }
}

/// Sum of the distances from `from` to the nodes below `upto` that it reaches.
pub open spec fn hops_from(adj: Seq<Seq<int>>, from: int, upto: int) -> nat
    decreases upto,
{
    if upto <= 0 {
        0
    } else {
        hops_from(adj, from, upto - 1) + if reachable(adj, from, upto - 1) {
            distance(adj, from, upto - 1)
        } else {
            0
        }
    }
}

/// Number of nodes below `upto` that `from` reaches, itself included.
pub open spec fn reached_from(adj: Seq<Seq<int>>, from: int, upto: int) -> nat
    decreases upto,
{
    if upto <= 0 {
        0
    } else {
        reached_from(adj, from, upto - 1) + if reachable(adj, from, upto - 1) {
            1nat
        } else {
            0nat
        }
    }
}

/// Sum of the distances over all pairs of a source below `sources` and a
/// node that it reaches.
pub open spec fn total_hops(adj: Seq<Seq<int>>, sources: int) -> nat
    decreases sources,
{
    if sources <= 0 {
        0
    } else {
        total_hops(adj, sources - 1) + hops_from(adj, sources - 1, adj.len() as int)
    }
}

/// Number of pairs of a source below `sources` and a node that it reaches.
/// Each source reaches itself, at distance zero.
pub open spec fn total_pairs(adj: Seq<Seq<int>>, sources: int) -> nat
    decreases sources,
{
    if sources <= 0 {
        0
    } else {
        total_pairs(adj, sources - 1) + reached_from(adj, sources - 1, adj.len() as int)
    }
}

/// Average distance over all pairs of a node and a node that it reaches, as
/// a fixed-point number rounded down; zero for a graph without nodes.
pub open spec fn average_path(adj: Seq<Seq<int>>) -> int {
    let pairs = total_pairs(adj, adj.len() as int);
    if pairs == 0 {
        0
    } else {
        total_hops(adj, adj.len() as int) * SCALE / (pairs as int)
    }
}

/// Whether each neighbour of a recorded node is recorded too, at most one
/// level further out.
pub open spec fn closed_under_links(adj: Seq<Seq<int>>, levels: Seq<Option<usize>>) -> bool {
    forall|u: int, k: int|
        0 <= u < adj.len() && levels[u] is Some && 0 <= k < adj[u].len() ==> {
            &&& 0 <= #[trigger] adj[u][k] < adj.len()
            &&& levels[adj[u][k]] is Some
            &&& levels[adj[u][k]]->0 <= levels[u]->0 + 1
        }
}

/// Where the source is recorded at level zero and the record is closed
/// under links, every node that a walk reaches is recorded, no further out
/// than the walk is long.
pub proof fn lemma_closed_covers(
    adj: Seq<Seq<int>>,
    start: int,
    levels: Seq<Option<usize>>,
    to: int,
    steps: nat,
)
    requires
        levels.len() == adj.len(),
        0 <= start < adj.len(),
        levels[start] == Some(0usize),
        closed_under_links(adj, levels),
        connects(adj, start, to, steps),
    ensures
        0 <= to < adj.len(),
        levels[to] is Some,
        levels[to]->0 <= steps,
    decreases steps,
{
    if steps > 0 {
        let before = (steps - 1) as nat;
        let mid = choose|mid: int|
            0 <= mid < adj.len() && connects(adj, start, mid, before) && (
            #[trigger] adj[mid]).contains(to);
        lemma_closed_covers(adj, start, levels, mid, before);
        let k = choose|k: int| 0 <= k < adj[mid].len() && adj[mid][k] == to;
        assert(levels[adj[mid][k]] is Some);
    }
}

/// A record that holds walk lengths and is closed under links is exact.
pub proof fn lemma_closed_exact(adj: Seq<Seq<int>>, start: int, levels: Seq<Option<usize>>)
    requires
        levels.len() == adj.len(),
        0 <= start < adj.len(),
        levels[start] == Some(0usize),
        closed_under_links(adj, levels),
        forall|v: int|
            0 <= v < adj.len() && (#[trigger] levels[v]) is Some ==> connects(
                adj,
                start,
                v,
                levels[v]->0 as nat,
            ),
    ensures
        levels_exact(adj, start, levels),
{
    assert forall|t: int| 0 <= t < adj.len() implies match #[trigger] levels[t] {
        Some(d) => is_distance(adj, start, t, d as nat),
        None => !reachable(adj, start, t),
    } by {
        match levels[t] {
            Some(d) => {
                assert forall|e: nat| connects(adj, start, t, e) implies d as nat <= e by {
                    lemma_closed_covers(adj, start, levels, t, e);
                }
            },
            None => {
                if reachable(adj, start, t) {
                    let e = choose|e: nat| connects(adj, start, t, e);
                    lemma_closed_covers(adj, start, levels, t, e);
                }
            },
        }
    }
}

/// Number of nodes without a recorded level.
pub open spec fn unvisited(levels: Seq<Option<usize>>) -> nat
    decreases levels.len(),
{
    if levels.len() == 0 {
        0
    } else {
        unvisited(levels.drop_last()) + if levels.last() is None {
            1nat
        } else {
            0nat
        }
    }
}

/// Recording a level for an unvisited node leaves one unvisited node fewer.
pub proof fn lemma_visit(levels: Seq<Option<usize>>, w: int, d: usize)
    requires
        0 <= w < levels.len(),
        levels[w] is None,
    ensures
        unvisited(levels.update(w, Some(d))) + 1 == unvisited(levels),
    decreases levels.len(),
{
    let after = levels.update(w, Some(d));
    if w == levels.len() - 1 {
        assert(after.drop_last() =~= levels.drop_last());
    } else {
        assert(after.drop_last() =~= levels.drop_last().update(w, Some(d)));
        lemma_visit(levels.drop_last(), w, d);
    }
}

/// A record without any level has every node unvisited.
pub proof fn lemma_none_visited(levels: Seq<Option<usize>>)
    requires
        forall|v: int| 0 <= v < levels.len() ==> levels[v] is None,
    ensures
        unvisited(levels) == levels.len(),
    decreases levels.len(),
{
    if levels.len() > 0 {
        lemma_none_visited(levels.drop_last());
    }
}

} // verus!
