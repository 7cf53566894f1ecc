//! The similarity graph of a scene as a `petgraph` graph.

use vstd::prelude::*;
use crate::error::GraphError;
use crate::scene::{Scene, EdgeWeighting, edges_upto};

verus! {

/// `Graph` of petgraph: nodes and edges in vectors, numbered in the order
/// in which they were added. Nothing inside it is visible here.
#[verifier::external_type_specification]
#[verifier::external_body]
#[verifier::reject_recursive_types(N)]
#[verifier::reject_recursive_types(E)]
#[verifier::reject_recursive_types(Ty)]
#[verifier::reject_recursive_types(Ix)]
pub struct ExPetGraph<N, E, Ty, Ix>(petgraph::graph::Graph<N, E, Ty, Ix>);

/// `Undirected` of petgraph, the marker of graphs whose edges have no
/// direction.
#[verifier::external_type_specification]
#[verifier::external_body]
pub struct ExUndirected(petgraph::Undirected);

/// The node weights of a graph, by node index.
pub uninterp spec fn graph_nodes(
    g: petgraph::graph::Graph<String, (), petgraph::Undirected, u32>,
) -> Seq<Seq<char>>;

/// The two endpoints of each edge of a graph as node indices, by edge index.
pub uninterp spec fn graph_edges(
    g: petgraph::graph::Graph<String, (), petgraph::Undirected, u32>,
) -> Seq<(int, int)>;

/// `Graph::new_undirected` of petgraph: a graph without nodes and edges.
#[verifier::external_body]
fn empty_graph() -> (g: petgraph::graph::Graph<String, (), petgraph::Undirected, u32>)
    ensures
        graph_nodes(g) == Seq::<Seq<char>>::empty(),
        graph_edges(g) == Seq::<(int, int)>::empty(),
{
    petgraph::graph::Graph::new_undirected()
}

/// `Graph::add_node` of petgraph: the weight becomes the last node and the
/// edges stay; returned is the index of the new node, which is the number
/// of nodes before. It panics on a graph that holds `u32::MAX` nodes.
#[verifier::external_body]
fn push_node(
    g: &mut petgraph::graph::Graph<String, (), petgraph::Undirected, u32>,
    name: String,
) -> (index: usize)
    requires
        graph_nodes(*old(g)).len() < u32::MAX,
    ensures
        graph_nodes(*final(g)) == graph_nodes(*old(g)).push(name@),
        graph_edges(*final(g)) == graph_edges(*old(g)),
        index == graph_nodes(*old(g)).len(),
{
    g.add_node(name).index()
}

/// `Graph::add_edge` of petgraph, with the unit weight: the edge from `a`
/// to `b` becomes the last edge and the nodes stay. It panics where `a` or
/// `b` is no node, and on a graph that holds `u32::MAX` edges.
#[verifier::external_body]
fn push_edge(
    g: &mut petgraph::graph::Graph<String, (), petgraph::Undirected, u32>,
    a: usize,
    b: usize,
)
    requires
        a < graph_nodes(*old(g)).len(),
        b < graph_nodes(*old(g)).len(),
        graph_edges(*old(g)).len() < u32::MAX,
    ensures
        graph_nodes(*final(g)) == graph_nodes(*old(g)),
        graph_edges(*final(g)) == graph_edges(*old(g)).push((a as int, b as int)),
{
    g.add_edge(petgraph::graph::NodeIndex::new(a), petgraph::graph::NodeIndex::new(b), ());
}

/// A scene together with its graph.
pub struct Visualization {
    pub scene: Scene,
    pub graph: petgraph::graph::Graph<String, (), petgraph::Undirected, u32>,
}

impl Visualization {
    /// The graph has the nodes and the edges of the scene.
    pub open spec fn wf(self) -> bool {
        &&& self.scene.wf()
        &&& graph_nodes(self.graph) == scene_names(self.scene)
        &&& graph_edges(self.graph) == scene_links(self.scene)
    }
}

/// Puts a scene together with its graph.
pub fn with_graph(scene: Scene) -> (r: Result<Visualization, GraphError>)
    requires
        scene.wf(),
    ensures
        r is Ok <==> fits_indices(scene),
        match r {
            Ok(v) => v.wf() && v.scene == scene,
            Err(e) => e == GraphError::CapacityExceeded,
        },
{
    match similarity_graph(&scene) {
        Ok(graph) => Ok(Visualization { scene, graph }),
        Err(e) => Err(e),
    }
}

/// The countries of a scene in the order of its nodes.
pub open spec fn scene_names(scene: Scene) -> Seq<Seq<char>> {
    Seq::new(scene.nodes@.len(), |i: int| scene.nodes[i].country@)
}

/// The endpoints of the edges of a scene in their order.
pub open spec fn scene_links(scene: Scene) -> Seq<(int, int)> {
    Seq::new(scene.edges@.len(), |k: int| (scene.edges[k].a as int, scene.edges[k].b as int))
}

/// Whether the nodes and the edges of a scene can each be numbered with
/// 32-bit indices.
pub open spec fn fits_indices(scene: Scene) -> bool {
    scene.nodes.len() <= u32::MAX && scene.edges.len() <= u32::MAX
}

/// Whether the scene of the given countries and scores has no more nodes
/// and no more edges than 32-bit indices can number.
pub open spec fn fits_graph(
    records: Seq<(Seq<char>, int)>,
    threshold: int,
    weighting: EdgeWeighting,
) -> bool {
    &&& records.len() <= u32::MAX
    &&& edges_upto(
        Seq::new(records.len(), |i: int| records[i].1),
        threshold,
        weighting,
        records.len() as int,
    ).len() <= u32::MAX
}

/// A scene fits the indices where what it depicts does.
pub proof fn lemma_fits(
    scene: Scene,
    records: Seq<(Seq<char>, int)>,
    threshold: int,
)
    requires
        scene.depicts(records, threshold, scene.style),
    ensures
        fits_indices(scene) == fits_graph(records, threshold, scene.style.weighting),
{
    assert(crate::scene::edge_view(scene.edges@).len() == scene.edges.len());
}

/// Builds the undirected graph of a scene: a node weighted with the country
/// for each node of the scene, in order, and an unweighted edge for each
/// edge of the scene, in order. A scene with more nodes or edges than
/// 32-bit indices can number gives [`GraphError::CapacityExceeded`].
pub fn similarity_graph(scene: &Scene) -> (r: Result<
    petgraph::graph::Graph<String, (), petgraph::Undirected, u32>,
    GraphError,
>)
    requires
        scene.wf(),
    ensures
        match r {
            Ok(g) => {
                &&& fits_indices(*scene)
                &&& graph_nodes(g) == scene_names(*scene)
                &&& graph_edges(g) == scene_links(*scene)
            },
            Err(e) => e == GraphError::CapacityExceeded && !fits_indices(*scene),
        },
{
    if scene.nodes.len() > 0xFFFF_FFFF || scene.edges.len() > 0xFFFF_FFFF {
        return Err(GraphError::CapacityExceeded);
    }
    let mut g = empty_graph();
    let mut i: usize = 0;
    while i < scene.nodes.len()
        invariant
            i <= scene.nodes.len(),
            scene.nodes.len() <= u32::MAX,
            graph_nodes(g) == scene_names(*scene).take(i as int),
            graph_edges(g) == Seq::<(int, int)>::empty(),
        decreases scene.nodes.len() - i,
    {
        push_node(&mut g, scene.nodes[i].country.clone());
        proof {
            assert(scene_names(*scene).take(i as int).push(scene.nodes[i as int].country@)
                =~= scene_names(*scene).take(i + 1));
        }
        i += 1;
    }
    proof {
        assert(scene_names(*scene).take(scene.nodes.len() as int) =~= scene_names(*scene));
    }
    let mut k: usize = 0;
    while k < scene.edges.len()
        invariant
            scene.wf(),
            k <= scene.edges.len(),
            scene.edges.len() <= u32::MAX,
            graph_nodes(g) == scene_names(*scene),
            graph_edges(g) == scene_links(*scene).take(k as int),
        decreases scene.edges.len() - k,
    {
        let edge = &scene.edges[k];
        push_edge(&mut g, edge.a, edge.b);
        proof {
            assert(scene_links(*scene).take(k as int).push((edge.a as int, edge.b as int))
                =~= scene_links(*scene).take(k + 1));
        }
        k += 1;
    }
    proof {
        assert(scene_links(*scene).take(scene.edges.len() as int) =~= scene_links(*scene));
    }
    Ok(g)
}

} // verus!
