//! The picture of one dataset on its own: countries joined where their
//! values are close.

use vstd::prelude::*;
use crate::dataset::{MetricRecord, record_view};
use crate::error::GraphError;
use crate::reader::{dataset, read_dataset};
use crate::scene::{Scene, RenderStyle, NodeSizing, EdgeWeighting, NodeColor, compose};

verus! {

/// Large canvas, a node's size a tenth of its value between 5 and 15,
/// edges all alike.
pub open spec fn tourism_style() -> RenderStyle {
    RenderStyle {
        caption: "Tourism Graph Visualization",
        legend: None,
        width: 1000,
        height: 1000,
        extent: 250,
        radius: 200,
        sizing: NodeSizing { multiplier: 1, divisor: 10, min: 5, max: 15 },
        weighting: EdgeWeighting::Uniform,
        color: NodeColor::Blue,
        label_size: 12,
        scored_labels: false,
    }
}

/// The style of [`visualize_graph`].
pub fn style() -> (s: RenderStyle)
    ensures
        s == tourism_style(),
{
    RenderStyle {
        caption: "Tourism Graph Visualization",
        legend: None,
        width: 1000,
        height: 1000,
        extent: 250,
        radius: 200,
        sizing: NodeSizing { multiplier: 1, divisor: 10, min: 5, max: 15 },
        weighting: EdgeWeighting::Uniform,
        color: NodeColor::Blue,
        label_size: 12,
        scored_labels: false,
    }
}

/// The scene of a dataset: a node for each row, in order, and an edge
/// between each two rows whose values differ by no more than `threshold`.
pub fn visualize_graph(data: &Vec<MetricRecord>, threshold: i64) -> (scene: Scene)
    ensures
        scene.wf(),
        scene.depicts(record_view(data@), threshold as int, tourism_style()),
{
    compose(data, threshold, style())
}

/// Reads the tourism dataset from the text of its file: rows of five
/// fields after the header, the revenue in the second.
pub fn read_tourism_csv(text: &str) -> (r: Result<Vec<MetricRecord>, GraphError>)
    ensures
        match r {
            Ok(records) => dataset(text@, 5, 1) == Ok::<Seq<(Seq<char>, int)>, GraphError>(
                record_view(records@),
            ),
            Err(e) => dataset(text@, 5, 1) == Err::<Seq<(Seq<char>, int)>, GraphError>(e),
        },
{
    read_dataset(text, 5, 1)
}

} // verus!
