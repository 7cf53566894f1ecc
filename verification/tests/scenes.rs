use metric_graph::comparative::comparative_graph;
use metric_graph::dataset::MetricRecord;
use metric_graph::error::GraphError;
use metric_graph::scene::{
    compose, connect, scene_nodes, EdgeWeighting, Legend, NodeColor, NodeSizing, Scene, SceneEdge,
    SceneNode,
};
use metric_graph::{gdp_and_tourism_graph, graphing, purchasing_power_graph, tourism_graph, unemployment_graph};

fn rows(items: &[(&str, i64)]) -> Vec<MetricRecord> {
    items
        .iter()
        .map(|(c, v)| MetricRecord { country: c.to_string(), value: *v })
        .collect()
}

fn node(country: &str, score: i128, size: i32) -> SceneNode {
    SceneNode { country: country.to_string(), score, size, angle: 0 }
}

/// The nodes with the angles of an even spread round the circle.
fn spread(mut nodes: Vec<SceneNode>, angles: &[i64]) -> Vec<SceneNode> {
    assert_eq!(nodes.len(), angles.len());
    for (n, a) in nodes.iter_mut().zip(angles) {
        n.angle = *a;
    }
    nodes
}

const THIRDS: [i64; 3] = [0, 120_000_000, 240_000_000];
const QUARTERS: [i64; 4] = [0, 90_000_000, 180_000_000, 270_000_000];

fn fixture() -> (Vec<MetricRecord>, Vec<MetricRecord>) {
    (
        rows(&[("A", 100_000_000), ("B", 50_000_000), ("C", 10_000_000)]),
        rows(&[("A", 10_000_000), ("B", 10_000_000), ("C", 10_000_000)]),
    )
}

#[test]
fn end_to_end_rescaled_scene() {
    let (primary, secondary) = fixture();
    let scene =
        purchasing_power_graph::visualize_tourism_purchasing_power(primary, secondary, 500_000)
            .unwrap();
    assert_eq!(
        scene.nodes,
        spread(vec![node("A", 1_000_000, 20), node("B", 444_444, 8), node("C", 0, 5)], &THIRDS)
    );
    // A-B differ by 0.555556 and A-C by 1: no edge; B-C differ by 0.444444
    assert_eq!(scene.edges, vec![SceneEdge { a: 1, b: 2, weight: 555_556 }]);
    assert_eq!(scene.style, purchasing_power_graph::style());
}

#[test]
fn end_to_end_edges_grow_with_the_threshold() {
    let (primary, secondary) = fixture();
    let pairs = |threshold: i64| -> Vec<(usize, usize)> {
        unemployment_graph::visualize_unemployment_tourism(
            primary.clone(),
            secondary.clone(),
            threshold,
        )
        .unwrap()
        .edges
        .iter()
        .map(|e| (e.a, e.b))
        .collect()
    };
    assert_eq!(pairs(444_443), vec![]);
    assert_eq!(pairs(444_444), vec![(1, 2)]);
    assert_eq!(pairs(555_555), vec![(1, 2)]);
    assert_eq!(pairs(555_556), vec![(0, 1), (1, 2)]);
    assert_eq!(pairs(1_000_000), vec![(0, 1), (0, 2), (1, 2)]);
}

#[test]
fn same_input_gives_the_same_scene() {
    let (primary, secondary) = fixture();
    let first = unemployment_graph::visualize_unemployment_tourism(
        primary.clone(),
        secondary.clone(),
        500_000,
    );
    let second = unemployment_graph::visualize_unemployment_tourism(primary, secondary, 500_000);
    assert_eq!(first, second);
    assert!(first.is_ok());
}

#[test]
fn unemployment_scene_has_its_style() {
    let (primary, secondary) = fixture();
    let scene =
        unemployment_graph::visualize_unemployment_tourism(primary, secondary, 500_000).unwrap();
    let style = scene.style;
    assert_eq!(style.caption, "Tourism-to-Unemployment Graph");
    assert_eq!(
        style.legend,
        Some(Legend {
            text: "Node size: Tourism-to-Unemployment ratio\nEdge thickness: Similarity",
            x: -200,
            y: 220,
        })
    );
    assert_eq!((style.width, style.height), (1000, 1000));
    assert_eq!((style.extent, style.radius), (250, 200));
    assert_eq!(style.sizing, NodeSizing { multiplier: 20, divisor: 1, min: 5, max: 20 });
    assert_eq!(style.weighting, EdgeWeighting::Similarity);
    assert_eq!(style.color, NodeColor::Blue);
    assert_eq!(style.label_size, 12);
    assert!(style.scored_labels);
    assert_eq!(scene.nodes.len(), 3);
}

#[test]
fn purchasing_power_scene_has_its_style() {
    let style = purchasing_power_graph::style();
    assert_eq!(style.caption, "Tourism-to-Purchasing Power Index Graph");
    assert_eq!(
        style.legend,
        Some(Legend {
            text: "Node size: Tourism-to-Purchasing Power ratio\nEdge thickness: Similarity",
            x: -200,
            y: 220,
        })
    );
    assert_eq!(style.sizing, NodeSizing { multiplier: 20, divisor: 1, min: 5, max: 20 });
    assert_eq!(style.weighting, EdgeWeighting::Similarity);
}

#[test]
fn rescaled_scene_of_equal_ratios_is_degenerate() {
    let primary = rows(&[("A", 2_000_000), ("B", 4_000_000)]);
    let secondary = rows(&[("A", 1_000_000), ("B", 2_000_000)]);
    assert_eq!(
        purchasing_power_graph::visualize_tourism_purchasing_power(
            primary.clone(),
            secondary.clone(),
            50_000
        ),
        Err(GraphError::DegenerateDataset)
    );
    assert_eq!(
        unemployment_graph::visualize_unemployment_tourism(primary, secondary, 50_000),
        Err(GraphError::DegenerateDataset)
    );
}

#[test]
fn rescaled_scene_of_one_country_is_degenerate() {
    let primary = rows(&[("A", 2_000_000)]);
    let secondary = rows(&[("A", 1_000_000)]);
    assert_eq!(
        unemployment_graph::visualize_unemployment_tourism(primary, secondary, 50_000),
        Err(GraphError::DegenerateDataset)
    );
}

#[test]
fn scene_of_an_empty_join_is_empty() {
    let primary = rows(&[("A", 2_000_000)]);
    let secondary = rows(&[("B", 1_000_000)]);
    let scene =
        unemployment_graph::visualize_unemployment_tourism(primary.clone(), secondary.clone(), 50_000)
            .unwrap();
    assert!(scene.nodes.is_empty());
    assert!(scene.edges.is_empty());
    let plain = gdp_and_tourism_graph::visualize_tourism_gdp(primary, secondary, 50_000).unwrap();
    assert!(plain.scene.nodes.is_empty());
    assert!(plain.scene.edges.is_empty());
    assert_eq!(plain.graph.node_count(), 0);
}

#[test]
fn tourism_gdp_scene_scores_with_the_ratio() {
    let tourism = rows(&[("A", 4_500_000), ("B", 2_000_000), ("C", 9_000_000), ("D", 1_000_000)]);
    let gdp = rows(&[("A", 10_000_000), ("B", 4_000_000), ("C", 2_000_000), ("D", 0)]);
    let v = gdp_and_tourism_graph::visualize_tourism_gdp(tourism, gdp, 50_000).unwrap();
    assert_eq!(
        v.scene.nodes,
        spread(
            vec![node("A", 450_000, 4), node("B", 500_000, 5), node("C", 4_500_000, 10)],
            &THIRDS
        )
    );
    assert_eq!(v.scene.edges, vec![SceneEdge { a: 0, b: 1, weight: 6_000_000 }]);
    let style = v.scene.style;
    assert_eq!(style, gdp_and_tourism_graph::style());
    assert_eq!(style.caption, "Tourism-to-GDP-per-capita Graph Visualization");
    assert_eq!(style.legend, None);
    assert_eq!((style.width, style.height), (800, 600));
    assert_eq!((style.extent, style.radius), (100, 90));
    assert_eq!(style.sizing, NodeSizing { multiplier: 10, divisor: 1, min: 3, max: 10 });
    assert_eq!(style.weighting, EdgeWeighting::Stepped);
    assert_eq!(style.color, NodeColor::Red);
    assert_eq!(style.label_size, 15);
    assert!(style.scored_labels);
}

#[test]
fn tourism_scene_uses_the_values_themselves() {
    let data = rows(&[("A", 100_000_000), ("B", 149_000_000), ("C", 150_000_000), ("D", 20_000_000)]);
    let scene = tourism_graph::visualize_graph(&data, 50_000_000);
    assert_eq!(
        scene.nodes,
        spread(
            vec![
                node("A", 100_000_000, 10),
                node("B", 149_000_000, 14),
                node("C", 150_000_000, 15),
                node("D", 20_000_000, 5),
            ],
            &QUARTERS
        )
    );
    assert_eq!(
        scene.edges,
        vec![
            SceneEdge { a: 0, b: 1, weight: 1_000_000 },
            SceneEdge { a: 0, b: 2, weight: 1_000_000 },
            SceneEdge { a: 1, b: 2, weight: 1_000_000 },
        ]
    );
    let style = scene.style;
    assert_eq!(style, tourism_graph::style());
    assert_eq!(style.caption, "Tourism Graph Visualization");
    assert_eq!((style.width, style.height), (1000, 1000));
    assert_eq!((style.extent, style.radius), (250, 200));
    assert_eq!(style.sizing, NodeSizing { multiplier: 1, divisor: 10, min: 5, max: 15 });
    assert_eq!(style.weighting, EdgeWeighting::Uniform);
    assert_eq!(style.color, NodeColor::Blue);
    assert_eq!(style.label_size, 12);
    assert!(!style.scored_labels);
}

#[test]
fn graph_scene_weighs_in_steps() {
    let data = rows(&[("A", 650_000_000), ("B", 652_500_000), ("C", 700_000_000)]);
    let v = graphing::visualize_graph(data, 50_000_000).unwrap();
    assert_eq!(
        v.scene.nodes,
        spread(
            vec![node("A", 650_000_000, 6), node("B", 652_500_000, 6), node("C", 700_000_000, 7)],
            &THIRDS
        )
    );
    assert_eq!(
        v.scene.edges,
        vec![
            SceneEdge { a: 0, b: 1, weight: 4_000_000 },
            SceneEdge { a: 0, b: 2, weight: 2_000_000 },
            SceneEdge { a: 1, b: 2, weight: 2_000_000 },
        ]
    );
    let style = v.scene.style;
    assert_eq!(style, graphing::style());
    assert_eq!(style.caption, "Tourism Graph Visualization");
    assert_eq!((style.width, style.height), (800, 600));
    assert_eq!((style.extent, style.radius), (100, 90));
    assert_eq!(style.sizing, NodeSizing { multiplier: 1, divisor: 100, min: 3, max: 10 });
    assert_eq!(style.weighting, EdgeWeighting::Stepped);
    assert_eq!(style.label_size, 15);
    assert!(!style.scored_labels);
}

#[test]
fn comparative_graph_without_rescaling_never_fails() {
    let primary = rows(&[("A", 2_000_000), ("B", 4_000_000)]);
    let secondary = rows(&[("A", 1_000_000), ("B", 2_000_000)]);
    let scene =
        comparative_graph(&primary, &secondary, 0, false, gdp_and_tourism_graph::style()).unwrap();
    assert_eq!(
        scene.nodes,
        spread(vec![node("A", 2_000_000, 10), node("B", 2_000_000, 10)], &[0, 180_000_000])
    );
    assert_eq!(scene.edges, vec![SceneEdge { a: 0, b: 1, weight: 6_000_000 }]);
    assert_eq!(
        comparative_graph(&primary, &secondary, 0, true, gdp_and_tourism_graph::style()),
        Err(GraphError::DegenerateDataset)
    );
}

#[test]
fn connect_lists_edges_row_by_row() {
    let sizing = NodeSizing { multiplier: 1, divisor: 1, min: 1, max: 9 };
    let data = rows(&[("A", 0), ("B", 10), ("C", 5), ("D", 11)]);
    let nodes = scene_nodes(&data, &sizing);
    assert_eq!(nodes.len(), 4);
    let edges = connect(&nodes, 6, EdgeWeighting::Similarity);
    let pairs: Vec<(usize, usize, i64)> = edges.iter().map(|e| (e.a, e.b, e.weight)).collect();
    assert_eq!(
        pairs,
        vec![(0, 2, 999_995), (1, 2, 999_995), (1, 3, 999_999), (2, 3, 999_994)]
    );
    assert!(connect(&nodes, -1, EdgeWeighting::Uniform).is_empty());
    assert_eq!(connect(&nodes, i64::MAX, EdgeWeighting::Uniform).len(), 6);
}

#[test]
fn compose_of_nothing_is_an_empty_scene() {
    let data: Vec<MetricRecord> = Vec::new();
    let scene: Scene = compose(&data, 5, tourism_graph::style());
    assert!(scene.nodes.is_empty());
    assert!(scene.edges.is_empty());
}

#[test]
fn compose_of_one_record_has_no_edge() {
    let data = rows(&[("A", 70_000_000)]);
    let scene = compose(&data, i64::MAX, tourism_graph::style());
    assert_eq!(scene.nodes, vec![node("A", 70_000_000, 7)]);
    assert!(scene.edges.is_empty());
}
