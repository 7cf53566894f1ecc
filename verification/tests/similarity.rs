use metric_graph::dataset::MetricRecord;
use metric_graph::graphing;
use metric_graph::scene::compose;
use metric_graph::similarity::{similarity_graph, with_graph};
use metric_graph::tourism_graph;
use petgraph::graph::{EdgeIndex, NodeIndex};

fn rows(items: &[(&str, i64)]) -> Vec<MetricRecord> {
    items
        .iter()
        .map(|(c, v)| MetricRecord { country: c.to_string(), value: *v })
        .collect()
}

#[test]
fn similarity_graph_has_the_nodes_and_edges_of_the_scene() {
    let data = rows(&[("A", 0), ("B", 10), ("C", 5), ("D", 11)]);
    let scene = compose(&data, 6, tourism_graph::style());
    let g = similarity_graph(&scene).unwrap();
    assert_eq!(g.node_count(), 4);
    assert_eq!(g.edge_count(), 4);
    assert!(!g.is_directed());
    let weights: Vec<&String> = g.node_weights().collect();
    assert_eq!(weights, vec!["A", "B", "C", "D"]);
    let ends: Vec<(usize, usize)> = (0..g.edge_count())
        .map(|e| g.edge_endpoints(EdgeIndex::new(e)).unwrap())
        .map(|(a, b)| (a.index(), b.index()))
        .collect();
    assert_eq!(ends, vec![(0, 2), (1, 2), (1, 3), (2, 3)]);
    assert!(g.find_edge(NodeIndex::new(3), NodeIndex::new(1)).is_some());
    assert!(g.find_edge(NodeIndex::new(0), NodeIndex::new(1)).is_none());
}

#[test]
fn similarity_graph_of_an_empty_scene_is_empty() {
    let scene = compose(&rows(&[]), 6, tourism_graph::style());
    let g = similarity_graph(&scene).unwrap();
    assert_eq!(g.node_count(), 0);
    assert_eq!(g.edge_count(), 0);
}

#[test]
fn with_graph_keeps_the_scene() {
    let data = rows(&[("A", 1), ("B", 2)]);
    let scene = compose(&data, 1, tourism_graph::style());
    let v = with_graph(scene.clone()).unwrap();
    assert_eq!(v.scene, scene);
    assert_eq!(v.graph.node_count(), 2);
    assert_eq!(v.graph.edge_count(), 1);
}

#[test]
fn visualize_graph_builds_the_graph_of_its_scene() {
    let data = rows(&[("A", 100_000_000), ("B", 140_000_000), ("C", 400_000_000)]);
    let v = graphing::visualize_graph(data, 50_000_000).unwrap();
    assert_eq!(v.graph.node_count(), 3);
    assert_eq!(v.graph.edge_count(), 1);
    assert_eq!(v.graph[NodeIndex::new(2)], "C");
    let (a, b) = v.graph.edge_endpoints(EdgeIndex::new(0)).unwrap();
    assert_eq!((a.index(), b.index()), (0, 1));
    assert_eq!(v.scene.edges.len(), 1);
}
