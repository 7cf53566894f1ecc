//! An undirected graph of countries as adjacency lists, and the average
//! length of its shortest paths.

use vstd::prelude::*;
use std::collections::VecDeque;
use crate::dataset::{MetricRecord, record_view};
use crate::error::GraphError;
use crate::fixed::{close, within_threshold};
use crate::reader::{dataset, read_dataset};
use crate::scene::{RenderStyle, NodeSizing, EdgeWeighting, NodeColor, compose};
use crate::similarity::{Visualization, with_graph, fits_graph, lemma_fits};
use crate::paths::{
    connects, links_in_range, levels_exact, unvisited, closed_under_links, lemma_closed_exact,
    lemma_visit, lemma_none_visited, lemma_distance, hops_from, reached_from, total_hops,
    total_pairs, average_path,
};

verus! {

/// What an [`AdjacencyGraph`] holds: the countries in the order in which
/// they were first named, and for each of them the positions of its
/// neighbours in the order in which the edges were added.
pub struct GraphModel {
    pub nodes: Seq<Seq<char>>,
    pub adjacency: Seq<Seq<int>>,
}

impl GraphModel {
    /// Every country is listed once, has an adjacency list, and every
    /// neighbour is a listed country.
    pub open spec fn wf(self) -> bool {
        &&& self.nodes.len() == self.adjacency.len()
        &&& self.nodes.no_duplicates()
        &&& forall|u: int, k: int|
            0 <= u < self.adjacency.len() && 0 <= k < self.adjacency[u].len() ==> 0
                <= #[trigger] self.adjacency[u][k] < self.nodes.len()
    }

    /// The graph without nodes.
    pub open spec fn empty() -> GraphModel {
        GraphModel { nodes: Seq::empty(), adjacency: Seq::empty() }
    }

    /// The graph with `name` among its nodes: unchanged where it is one
    /// already, else with `name` as a new last node without neighbours.
    pub open spec fn with_node(self, name: Seq<char>) -> GraphModel {
        if self.nodes.contains(name) {
            self
        } else {
            GraphModel {
                nodes: self.nodes.push(name),
                adjacency: self.adjacency.push(Seq::empty()),
            }
        }
    }

    /// The graph with `to` appended to the adjacency list of `from`.
    pub open spec fn with_link(self, from: int, to: int) -> GraphModel {
        GraphModel {
            nodes: self.nodes,
            adjacency: self.adjacency.update(from, self.adjacency[from].push(to)),
        }
    }

    /// The graph after an edge between `a` and `b` was added: both are
    /// nodes, `b` is the new last neighbour of `a`, and then `a` the new
    /// last neighbour of `b`. Nothing is deduplicated.
    pub open spec fn with_edge(self, a: Seq<char>, b: Seq<char>) -> GraphModel {
        let named = self.with_node(a).with_node(b);
        let i = named.nodes.index_of(a);
        let j = named.nodes.index_of(b);
        named.with_link(i, j).with_link(j, i)
    }

    /// The neighbours of `name` by name, in the order of its adjacency
    /// list; `None` where `name` is no node.
    pub open spec fn neighbors(self, name: Seq<char>) -> Option<Seq<Seq<char>>> {
        if self.nodes.contains(name) {
            let u = self.nodes.index_of(name);
            Some(Seq::new(self.adjacency[u].len(), |k: int| self.nodes[self.adjacency[u][k]]))
        } else {
            None
        }
    }
}

/// Adding a node keeps a graph well formed.
pub proof fn lemma_with_node_wf(g: GraphModel, name: Seq<char>)
    requires
        g.wf(),
    ensures
        g.with_node(name).wf(),
        g.with_node(name).nodes.contains(name),
        0 <= g.with_node(name).nodes.index_of(name) < g.with_node(name).nodes.len(),
        g.with_node(name).nodes[g.with_node(name).nodes.index_of(name)] == name,
{
    let h = g.with_node(name);
    if !g.nodes.contains(name) {
        assert(h.nodes[g.nodes.len() as int] == name);
        assert forall|u: int, k: int|
            0 <= u < h.adjacency.len() && 0 <= k < h.adjacency[u].len() implies 0
            <= #[trigger] h.adjacency[u][k] < h.nodes.len() by {
            if u < g.adjacency.len() {
                assert(h.adjacency[u] == g.adjacency[u]);
                assert(0 <= g.adjacency[u][k] < g.nodes.len());
            }
        }
        assert forall|i: int, j: int| 0 <= i < h.nodes.len() && 0 <= j < h.nodes.len() && i != j implies h.nodes[i] != h.nodes[j] by {
            if i == g.nodes.len() {
                assert(g.nodes[j] == h.nodes[j]);
            } else if j == g.nodes.len() {
                assert(g.nodes[i] == h.nodes[i]);
            } else {
                assert(g.nodes[i] == h.nodes[i]);
                assert(g.nodes[j] == h.nodes[j]);
            }
        }
    }
    assert(h.nodes.contains(name));
}

/// Adding a link between two nodes keeps a graph well formed.
pub proof fn lemma_with_link_wf(g: GraphModel, from: int, to: int)
    requires
        g.wf(),
        0 <= from < g.nodes.len(),
        0 <= to < g.nodes.len(),
    ensures
        g.with_link(from, to).wf(),
{
    let h = g.with_link(from, to);
    assert forall|u: int, k: int|
        0 <= u < h.adjacency.len() && 0 <= k < h.adjacency[u].len() implies 0
        <= #[trigger] h.adjacency[u][k] < h.nodes.len() by {
        if u == from {
            if k < g.adjacency[u].len() {
                assert(h.adjacency[u][k] == g.adjacency[u][k]);
            }
        } else {
            assert(h.adjacency[u] == g.adjacency[u]);
            assert(0 <= g.adjacency[u][k] < g.nodes.len());
        }
    }
}

/// Adding an edge keeps a graph well formed.
pub proof fn lemma_with_edge_wf(g: GraphModel, a: Seq<char>, b: Seq<char>)
    requires
        g.wf(),
    ensures
        g.with_edge(a, b).wf(),
{
    lemma_with_node_wf(g, a);
    let first = g.with_node(a);
    lemma_with_node_wf(first, b);
    let named = first.with_node(b);
    let ia = first.nodes.index_of(a);
    assert(named.nodes[ia] == a);
    assert(named.nodes.contains(a));
    let i = named.nodes.index_of(a);
    let j = named.nodes.index_of(b);
    lemma_with_link_wf(named, i, j);
    lemma_with_link_wf(named.with_link(i, j), j, i);
}

/// An undirected graph whose nodes are countries.
pub struct AdjacencyGraph {
    names: Vec<String>,
    links: Vec<Vec<usize>>,
}

impl View for AdjacencyGraph {
    type V = GraphModel;

    closed spec fn view(&self) -> GraphModel {
        GraphModel {
            nodes: Seq::new(self.names@.len(), |i: int| self.names@[i]@),
            adjacency: Seq::new(
                self.links@.len(),
                |u: int| Seq::new(self.links@[u]@.len(), |k: int| self.links@[u]@[k] as int),
            ),
        }
    }
}

impl AdjacencyGraph {
    /// The invariant of the type: its model is well formed.
    pub open spec fn wf(&self) -> bool {
        self@.wf()
    }

    /// Creates a graph without nodes.
    pub fn new() -> (g: AdjacencyGraph)
        ensures
            g.wf(),
            g@ == GraphModel::empty(),
    {
        let g = AdjacencyGraph { names: Vec::new(), links: Vec::new() };
        proof {
            assert(g@.nodes =~= Seq::empty());
            assert(g@.adjacency =~= Seq::empty());
        }
        g
    }

    /// Number of nodes.
    pub fn node_count(&self) -> (n: usize)
        ensures
            n == self@.nodes.len(),
    {
        self.names.len()
    }

    /// Name of the node at position `i`.
    pub fn node_name(&self, i: usize) -> (name: &String)
        requires
            i < self@.nodes.len(),
        ensures
            name@ == self@.nodes[i as int],
    {
        &self.names[i]
    }

    /// The neighbours of `name` by name, in the order in which the edges
    /// were added; `None` where `name` is no node.
    pub fn neighbors(&self, name: &String) -> (found: Option<Vec<String>>)
        requires
            self.wf(),
        ensures
            match found {
                Some(list) => self@.neighbors(name@) == Some(
                    Seq::new(list@.len(), |k: int| list@[k]@),
                ),
                None => self@.neighbors(name@) is None,
            },
    {
        match self.position(name) {
            None => None,
            Some(u) => {
                let row = &self.links[u];
                let mut list: Vec<String> = Vec::new();
                let mut k: usize = 0;
                while k < row.len()
                    invariant
                        self.wf(),
                        u < self.links@.len(),
                        row == self.links@[u as int],
                        k <= row.len(),
                        list.len() == k,
                        forall|j: int|
                            0 <= j < k ==> (#[trigger] list@[j])@ == self@.nodes[self@.adjacency[u as int][j]],
                    decreases row.len() - k,
                {
                    proof {
                        assert(self@.adjacency[u as int][k as int] == row[k as int]);
                        assert(0 <= self@.adjacency[u as int][k as int] < self@.nodes.len());
                    }
                    list.push(self.names[row[k]].clone());
                    k += 1;
                }
                proof {
                    let want = self@.neighbors(name@)->0;
                    assert(Seq::new(list@.len(), |k: int| list@[k]@) =~= want);
                }
                Some(list)
            },
        }
    }

    /// Position of `name` among the nodes.
    pub fn position(&self, name: &String) -> (found: Option<usize>)
        requires
            self.wf(),
        ensures
            match found {
                Some(i) => i < self@.nodes.len() && self@.nodes[i as int] == name@ && i
                    == self@.nodes.index_of(name@),
                None => !self@.nodes.contains(name@),
            },
    {
        let mut i: usize = 0;
        while i < self.names.len()
            invariant
                i <= self.names.len(),
                self.wf(),
                forall|k: int| 0 <= k < i ==> self@.nodes[k] != name@,
            decreases self.names.len() - i,
        {
            if self.names[i] == *name {
                proof {
                    assert(self@.nodes[i as int] == name@);
                    assert(self@.nodes.contains(name@));
                    let j = self@.nodes.index_of(name@);
                    assert(self@.nodes[j] == name@);
                }
                return Some(i);
            }
            i += 1;
        }
        None
    }

    /// Makes `name` a node, if it is none yet, and returns its position.
    pub fn add_node(&mut self, name: String) -> (i: usize)
        requires
            old(self).wf(),
        ensures
            final(self).wf(),
            final(self)@ == old(self)@.with_node(name@),
            i < final(self)@.nodes.len(),
            i == final(self)@.nodes.index_of(name@),
            final(self)@.nodes[i as int] == name@,
    {
        proof {
            lemma_with_node_wf(self@, name@);
        }
        match self.position(&name) {
            Some(i) => i,
            None => {
                let i = self.names.len();
                self.names.push(name);
                self.links.push(Vec::new());
                proof {
                    assert(self@.nodes =~= old(self)@.nodes.push(name@));
                    let want = old(self)@.adjacency.push(Seq::empty());
                    assert forall|u: int| 0 <= u < want.len() implies self@.adjacency[u]
                        =~= want[u] by {
                        if u < i {
                            assert(self.links@[u] == old(self).links@[u]);
                        }
                    }
                    assert(self@.adjacency =~= want);
                    assert(self@.nodes[i as int] == name@);
                    assert(self@.nodes.contains(name@));
                    let j = self@.nodes.index_of(name@);
                    assert(self@.nodes[j] == name@);
                }
                i
            },
        }
    }

    /// Appends `to` to the adjacency list of `from`.
    fn link(&mut self, from: usize, to: usize)
        requires
            old(self).wf(),
            from < old(self)@.nodes.len(),
            to < old(self)@.nodes.len(),
        ensures
            final(self).wf(),
            final(self)@ == old(self)@.with_link(from as int, to as int),
    {
        proof {
            lemma_with_link_wf(self@, from as int, to as int);
        }
        self.links[from].push(to);
        proof {
            assert(self@.nodes =~= old(self)@.nodes);
            let want = old(self)@.with_link(from as int, to as int);
            assert(self@.adjacency.len() == want.adjacency.len());
            assert forall|u: int| 0 <= u < want.adjacency.len() implies self@.adjacency[u]
                =~= want.adjacency[u] by {
                if u != from {
                    assert(self.links@[u] == old(self).links@[u]);
                }
            }
            assert(self@.adjacency =~= want.adjacency);
        }
    }

    /// Adds an undirected edge between two countries, making each a node
    /// where it is none yet. Each becomes the last neighbour of the other;
    /// an edge added twice is listed twice.
    pub fn add_edge(&mut self, node1: String, node2: String)
        requires
            old(self).wf(),
        ensures
            final(self).wf(),
            final(self)@ == old(self)@.with_edge(node1@, node2@),
    {
        let ghost a = node1@;
        let ghost b = node2@;
        let i = self.add_node(node1);
        let ghost first = self@;
        let j = self.add_node(node2);
        proof {
            lemma_with_node_wf(first, b);
            assert(self@.nodes[i as int] == a);
            assert(self@.nodes.contains(a));
            let i2 = self@.nodes.index_of(a);
            assert(self@.nodes[i2] == a);
            assert(i2 == i);
        }
        self.link(i, j);
        self.link(j, i);
    }

    /// Breadth-first search from the node at position `start`: for each
    /// node the number of edges of a shortest walk from `start` to it, or
    /// `None` where no walk leads there. `start` itself is at distance 0.
    pub fn bfs_distances(&self, start: usize) -> (levels: Vec<Option<usize>>)
        requires
            self.wf(),
            start < self@.nodes.len(),
        ensures
            levels_exact(self@.adjacency, start as int, levels@),
            forall|t: int|
                0 <= t < levels.len() && (#[trigger] levels[t]) is Some ==> levels[t]->0
                    < levels.len(),
    {
        let n = self.names.len();
        let ghost adj = self@.adjacency;
        let mut levels: Vec<Option<usize>> = Vec::new();
        let mut f: usize = 0;
        while f < n
            invariant
                f <= n,
                levels.len() == f,
                forall|v: int| 0 <= v < f ==> levels[v] is None,
            decreases n - f,
        {
            levels.push(None);
            f += 1;
        }
        proof {
            lemma_none_visited(levels@);
            lemma_visit(levels@, start as int, 0usize);
        }
        levels.set(start, Some(0));
        let mut queue: VecDeque<usize> = VecDeque::new();
        queue.push_back(start);
        let ghost mut done: Set<int> = Set::empty();
        let ghost mut floor: nat = 0;
        proof {
            assert(queue@[0] == start);
            assert(links_in_range(adj));
        }
        while queue.len() > 0
            invariant
                self.wf(),
                adj == self@.adjacency,
                links_in_range(adj),
                n == adj.len(),
                n == self.links@.len(),
                start < n,
                levels@.len() == n,
                levels@[start as int] == Some(0usize),
                forall|v: int|
                    0 <= v < n && (#[trigger] levels@[v]) is Some ==> connects(
                        adj,
                        start as int,
                        v,
                        levels@[v]->0 as nat,
                    ),
                forall|v: int|
                    0 <= v < n && (#[trigger] levels@[v]) is Some ==> levels@[v]->0 <= floor + 1,
                forall|v: int|
                    0 <= v < n && (#[trigger] levels@[v]) is Some ==> levels@[v]->0 + unvisited(
                        levels@,
                    ) < n,
                forall|q: int|
                    0 <= q < queue@.len() ==> (#[trigger] queue@[q]) < n && levels@[queue@[q] as int] is Some
                        && floor <= levels@[queue@[q] as int]->0,
                forall|p: int, q: int|
                    0 <= p <= q < queue@.len() ==> levels@[(#[trigger] queue@[p]) as int]->0
                        <= levels@[(#[trigger] queue@[q]) as int]->0,
                forall|v: int|
                    0 <= v < n && (#[trigger] levels@[v]) is Some ==> done.contains(v) || exists|
                        q: int,
                    |
                        0 <= q < queue@.len() && #[trigger] queue@[q] == v,
                forall|u: int| #[trigger] done.contains(u) ==> 0 <= u < n && levels@[u] is Some,
                forall|u: int, k: int|
                    done.contains(u) && 0 <= k < adj[u].len() ==> levels@[#[trigger] adj[u][k]] is Some
                        && levels@[adj[u][k]]->0 <= levels@[u]->0 + 1,
            decreases queue@.len() + unvisited(levels@),
        {
            let ghost before = queue@;
            let u = queue.pop_front().unwrap();
            let d = levels[u].unwrap();
            proof {
                assert(before[0] == u);
                assert forall|q: int| 0 <= q < queue@.len() implies (#[trigger] queue@[q]) < n
                    && levels@[queue@[q] as int] is Some && d <= levels@[queue@[q] as int]->0 by {
                    assert(queue@[q] == before[q + 1]);
                }
                assert forall|p: int, q: int| 0 <= p <= q < queue@.len() implies levels@[(
                #[trigger] queue@[p]) as int]->0 <= levels@[(#[trigger] queue@[q]) as int]->0 by {
                    assert(queue@[p] == before[p + 1]);
                    assert(queue@[q] == before[q + 1]);
                }
                assert forall|v: int| 0 <= v < n && (#[trigger] levels@[v]) is Some implies done.contains(v)
                    || v == u || exists|q: int| 0 <= q < queue@.len() && #[trigger] queue@[q] == v by {
                    if !done.contains(v) && v != u {
                        let q = choose|q: int| 0 <= q < before.len() && #[trigger] before[q] == v;
                        assert(queue@[q - 1] == before[q]);
                    }
                }
                floor = d as nat;
            }
            let row = &self.links[u];
            let ghost budget = queue@.len() + unvisited(levels@);
            let mut k: usize = 0;
            while k < row.len()
                invariant
                    self.wf(),
                    adj == self@.adjacency,
                    links_in_range(adj),
                    n == adj.len(),
                    n == self.links@.len(),
                    start < n,
                    u < n,
                    row == self.links@[u as int],
                    k <= row.len(),
                    floor == d,
                    levels@.len() == n,
                    levels@[start as int] == Some(0usize),
                    levels@[u as int] == Some(d),
                    queue@.len() + unvisited(levels@) == budget,
                    forall|v: int|
                        0 <= v < n && (#[trigger] levels@[v]) is Some ==> connects(
                            adj,
                            start as int,
                            v,
                            levels@[v]->0 as nat,
                        ),
                    forall|v: int|
                        0 <= v < n && (#[trigger] levels@[v]) is Some ==> levels@[v]->0 <= floor + 1,
                    forall|v: int|
                        0 <= v < n && (#[trigger] levels@[v]) is Some ==> levels@[v]->0
                            + unvisited(levels@) < n,
                    forall|q: int|
                        0 <= q < queue@.len() ==> (#[trigger] queue@[q]) < n && levels@[queue@[q] as int] is Some
                            && floor <= levels@[queue@[q] as int]->0,
                    forall|p: int, q: int|
                        0 <= p <= q < queue@.len() ==> levels@[(#[trigger] queue@[p]) as int]->0
                            <= levels@[(#[trigger] queue@[q]) as int]->0,
                    forall|v: int|
                        0 <= v < n && (#[trigger] levels@[v]) is Some ==> done.contains(v) || v
                            == u || exists|q: int|
                            0 <= q < queue@.len() && #[trigger] queue@[q] == v,
                    forall|x: int| #[trigger] done.contains(x) ==> 0 <= x < n && levels@[x] is Some,
                    forall|x: int, j: int|
                        done.contains(x) && 0 <= j < adj[x].len() ==> levels@[#[trigger] adj[x][j]] is Some
                            && levels@[adj[x][j]]->0 <= levels@[x]->0 + 1,
                    forall|j: int|
                        0 <= j < k ==> levels@[#[trigger] adj[u as int][j]] is Some
                            && levels@[adj[u as int][j]]->0 <= d + 1,
                decreases row.len() - k,
            {
                let w = row[k];
                proof {
                    assert(adj[u as int][k as int] == w);
                    assert(adj[u as int].contains(w as int));
                }
                if levels[w].is_none() {
                    let ghost old_levels = levels@;
                    let ghost old_queue = queue@;
                    proof {
                        lemma_visit(levels@, w as int, (d + 1) as usize);
                        assert(d + unvisited(levels@) < n);
                    }
                    levels.set(w, Some(d + 1));
                    queue.push_back(w);
                    proof {
                        assert(connects(adj, start as int, u as int, d as nat));
                        assert(connects(adj, start as int, w as int, (d + 1) as nat));
                        assert forall|v: int| 0 <= v < n && (#[trigger] levels@[v]) is Some implies done.contains(v)
                            || v == u || exists|q: int|
                            0 <= q < queue@.len() && #[trigger] queue@[q] == v by {
                            if v == w {
                                assert(queue@[old_queue.len() as int] == w);
                            } else if !done.contains(v) && v != u {
                                assert(old_levels[v] is Some);
                                let q = choose|q: int|
                                    0 <= q < old_queue.len() && #[trigger] old_queue[q] == v;
                                assert(queue@[q] == old_queue[q]);
                            }
                        }
                        assert forall|q: int| 0 <= q < queue@.len() implies (#[trigger] queue@[q]) < n
                            && levels@[queue@[q] as int] is Some && floor <= levels@[queue@[q] as int]->0 by {
                            if q < old_queue.len() {
                                assert(queue@[q] == old_queue[q]);
                                assert(old_levels[old_queue[q] as int] is Some);
                            }
                        }
                        assert forall|p: int, q: int| 0 <= p <= q < queue@.len() implies levels@[(
                        #[trigger] queue@[p]) as int]->0 <= levels@[(#[trigger] queue@[q]) as int]->0 by {
                            if p < old_queue.len() {
                                assert(queue@[p] == old_queue[p]);
                                assert(old_levels[old_queue[p] as int] is Some);
                            }
                            if q < old_queue.len() {
                                assert(queue@[q] == old_queue[q]);
                                assert(old_levels[old_queue[q] as int] is Some);
                            }
                        }
                        assert forall|x: int, j: int|
                            done.contains(x) && 0 <= j < adj[x].len() implies levels@[#[trigger] adj[x][j]] is Some
                            && levels@[adj[x][j]]->0 <= levels@[x]->0 + 1 by {
                            assert(old_levels[adj[x][j]] is Some);
                            assert(old_levels[x] is Some);
                        }
                        assert forall|j: int| 0 <= j < k + 1 implies levels@[#[trigger] adj[u as int][j]] is Some
                            && levels@[adj[u as int][j]]->0 <= d + 1 by {
                            if j < k {
                                assert(old_levels[adj[u as int][j]] is Some);
                            }
                        }
                    }
                }
                k += 1;
            }
            proof {
                done = done.insert(u as int);
                assert forall|x: int, j: int|
                    done.contains(x) && 0 <= j < adj[x].len() implies levels@[#[trigger] adj[x][j]] is Some
                    && levels@[adj[x][j]]->0 <= levels@[x]->0 + 1 by {
                    if x == u {
                        assert(adj[u as int].len() == row@.len());
                    }
                }
            }
        }
        proof {
            assert(closed_under_links(adj, levels@)) by {
                assert forall|x: int, j: int|
                    0 <= x < adj.len() && levels@[x] is Some && 0 <= j < adj[x].len() implies {
                    &&& 0 <= #[trigger] adj[x][j] < adj.len()
                    &&& levels@[adj[x][j]] is Some
                    &&& levels@[adj[x][j]]->0 <= levels@[x]->0 + 1
                } by {
                    assert(done.contains(x));
                }
            }
            lemma_closed_exact(adj, start as int, levels@);
        }
        levels
    }

    /// Average number of edges of a shortest walk, over all pairs of a node
    /// and a node that it reaches, as a fixed-point number rounded down.
    /// Each node reaches itself at distance zero, and that pair counts; a
    /// pair without a walk between its nodes does not. A graph without
    /// nodes has the average zero.
    pub fn average_shortest_path(&self) -> (average: i64)
        requires
            self.wf(),
            self@.nodes.len() <= u32::MAX,
        ensures
            average == average_path(self@.adjacency),
    {
        let n = self.names.len();
        let ghost adj = self@.adjacency;
        let mut total: u128 = 0;
        let mut pairs: u128 = 0;
        let mut s: usize = 0;
        while s < n
            invariant
                self.wf(),
                adj == self@.adjacency,
                n == adj.len(),
                n == self@.nodes.len(),
                n <= u32::MAX,
                s <= n,
                total == total_hops(adj, s as int),
                pairs == total_pairs(adj, s as int),
                total <= pairs * 0x1_0000_0000,
                pairs <= s * 0x1_0000_0000,
            decreases n - s,
        {
            let levels = self.bfs_distances(s);
            let mut hops: u128 = 0;
            let mut reached: u128 = 0;
            let mut t: usize = 0;
            while t < n
                invariant
                    n == adj.len(),
                    n <= u32::MAX,
                    s < n,
                    t <= n,
                    levels.len() == n,
                    levels_exact(adj, s as int, levels@),
                    forall|v: int|
                        0 <= v < levels.len() && (#[trigger] levels[v]) is Some ==> levels[v]->0
                            < levels.len(),
                    hops == hops_from(adj, s as int, t as int),
                    reached == reached_from(adj, s as int, t as int),
                    hops <= reached * 0x1_0000_0000,
                    reached <= t,
                decreases n - t,
            {
                match levels[t] {
                    Some(d) => {
                        proof {
                            lemma_distance(adj, s as int, t as int, d as nat);
                        }
                        hops += d as u128;
                        reached += 1;
                    },
                    None => {},
                }
                t += 1;
            }
            total += hops;
            pairs += reached;
            s += 1;
        }
        if pairs == 0 {
            0
        } else {
            proof {
                let hops = total as int;
                let count = pairs as int;
                assert(0 <= hops * 1_000_000 / count <= 0x1_0000_0000 * 1_000_000) by (nonlinear_arith)
                    requires
                        0 <= hops <= count * 0x1_0000_0000,
                        count > 0,
                ;
            }
            let scaled: u128 = total * 1_000_000;
            (scaled / pairs) as i64
        }
    }
}

/// The graph `g` after row `i` was compared with the rows after it and
/// below `upto`, in their order: an edge was added for each of them whose
/// value lies within `threshold` of that of row `i`.
pub open spec fn linked_row(
    g: GraphModel,
    data: Seq<MetricRecord>,
    threshold: int,
    i: int,
    upto: int,
) -> GraphModel
    decreases upto - i,
{
    if upto <= i + 1 {
        g
    } else {
        let rest = linked_row(g, data, threshold, i, upto - 1);
        if close(data[i].value as int, data[upto - 1].value as int, threshold) {
            rest.with_edge(data[i].country@, data[upto - 1].country@)
        } else {
            rest
        }
    }
}

/// The graph after each of the first `rows` rows was compared with all
/// rows after it.
pub open spec fn linked(data: Seq<MetricRecord>, threshold: int, rows: int) -> GraphModel
    decreases rows,
{
    if rows <= 0 {
        GraphModel::empty()
    } else {
        linked_row(linked(data, threshold, rows - 1), data, threshold, rows - 1, data.len() as int)
    }
}

/// Builds the graph of a dataset: an edge joins two rows whose values
/// differ by no more than `threshold`. The pairs are taken row by row, each
/// row against the rows after it, so a country without any such pair is no
/// node of the graph.
pub fn build_tourism_graph(data: Vec<MetricRecord>, threshold: i64) -> (graph: AdjacencyGraph)
    ensures
        graph.wf(),
        graph@ == linked(data@, threshold as int, data.len() as int),
{
    let mut graph = AdjacencyGraph::new();
    let n = data.len();
    let mut i: usize = 0;
    while i < n
        invariant
            n == data.len(),
            i <= n,
            graph.wf(),
            graph@ == linked(data@, threshold as int, i as int),
        decreases n - i,
    {
        let mut j: usize = i + 1;
        while j < n
            invariant
                n == data.len(),
                i < n,
                i + 1 <= j <= n,
                graph.wf(),
                graph@ == linked_row(
                    linked(data@, threshold as int, i as int),
                    data@,
                    threshold as int,
                    i as int,
                    j as int,
                ),
            decreases n - j,
        {
            if within_threshold(data[i].value as i128, data[j].value as i128, threshold) {
                graph.add_edge(data[i].country.clone(), data[j].country.clone());
            }
            j += 1;
        }
        i += 1;
    }
    graph
}

/// Small canvas, a node's size a hundredth of its value between 3 and 10,
/// edges weighted in steps.
pub open spec fn graph_style() -> RenderStyle {
    RenderStyle {
        caption: "Tourism Graph Visualization",
        legend: None,
        width: 800,
        height: 600,
        extent: 100,
        radius: 90,
        sizing: NodeSizing { multiplier: 1, divisor: 100, min: 3, max: 10 },
        weighting: EdgeWeighting::Stepped,
        color: NodeColor::Blue,
        label_size: 15,
        scored_labels: false,
    }
}

/// The style of [`visualize_graph`].
pub fn style() -> (s: RenderStyle)
    ensures
        s == graph_style(),
{
    RenderStyle {
        caption: "Tourism Graph Visualization",
        legend: None,
        width: 800,
        height: 600,
        extent: 100,
        radius: 90,
        sizing: NodeSizing { multiplier: 1, divisor: 100, min: 3, max: 10 },
        weighting: EdgeWeighting::Stepped,
        color: NodeColor::Blue,
        label_size: 15,
        scored_labels: false,
    }
}

/// The scene and the graph of a dataset: a node for each row, in order,
/// and an edge between each two rows whose values differ by no more than
/// `threshold`. It fails only where the graph would have more nodes or
/// edges than 32-bit indices can number.
pub fn visualize_graph(data: Vec<MetricRecord>, threshold: i64) -> (r: Result<
    Visualization,
    GraphError,
>)
    ensures
        r is Ok <==> fits_graph(record_view(data@), threshold as int, EdgeWeighting::Stepped),
        match r {
            Ok(v) => v.wf() && v.scene.depicts(record_view(data@), threshold as int, graph_style()),
            Err(e) => e == GraphError::CapacityExceeded,
        },
{
    let scene = compose(&data, threshold, style());
    proof {
        lemma_fits(scene, record_view(data@), threshold as int);
    }
    with_graph(scene)
}

/// Reads the tourism dataset from the text of its file: rows of five
/// fields after the header, the revenue in the second.
pub fn read_tourism_csv(text: &str) -> (r: Result<Vec<MetricRecord>, GraphError>)
    ensures
        match r {
            Ok(records) => dataset(text@, 5, 1) == Ok::<Seq<(Seq<char>, int)>, GraphError>(
                record_view(records@),
            ),
            Err(e) => dataset(text@, 5, 1) == Err::<Seq<(Seq<char>, int)>, GraphError>(e),
        },
{
    read_dataset(text, 5, 1)
}

} // verus!
