//! Tourism revenue against purchasing power: the ratio of the two per
//! country, rescaled to the unit range.

use vstd::prelude::*;
use crate::comparative::{comparative_graph, compared, degenerate};
use crate::dataset::{MetricRecord, merged, record_view};
use crate::error::GraphError;
use crate::reader::{dataset, read_dataset};
use crate::scene::{Scene, RenderStyle, NodeSizing, EdgeWeighting, NodeColor, Legend};

verus! {

/// Where the legend starts, left of the centre.
pub const LEGEND_X: i32 = -200;

/// Large canvas, a node's size twenty times its rescaled ratio between 5
/// and 20, edges weighted by similarity, with a legend.
pub open spec fn purchasing_power_style() -> RenderStyle {
    RenderStyle {
        caption: "Tourism-to-Purchasing Power Index Graph",
        legend: Some(
            Legend {
                text: "Node size: Tourism-to-Purchasing Power ratio\nEdge thickness: Similarity",
                x: LEGEND_X,
                y: 220,
            },
        ),
        width: 1000,
        height: 1000,
        extent: 250,
        radius: 200,
        sizing: NodeSizing { multiplier: 20, divisor: 1, min: 5, max: 20 },
        weighting: EdgeWeighting::Similarity,
        color: NodeColor::Blue,
        label_size: 12,
        scored_labels: true,
    }
}

/// The style of [`visualize_tourism_purchasing_power`].
pub fn style() -> (s: RenderStyle)
    ensures
        s == purchasing_power_style(),
{
    RenderStyle {
        caption: "Tourism-to-Purchasing Power Index Graph",
        legend: Some(
            Legend {
                text: "Node size: Tourism-to-Purchasing Power ratio\nEdge thickness: Similarity",
                x: LEGEND_X,
                y: 220,
            },
        ),
        width: 1000,
        height: 1000,
        extent: 250,
        radius: 200,
        sizing: NodeSizing { multiplier: 20, divisor: 1, min: 5, max: 20 },
        weighting: EdgeWeighting::Similarity,
        color: NodeColor::Blue,
        label_size: 12,
        scored_labels: true,
    }
}

/// The scene of tourism revenue per unit of purchasing power: a node for
/// each country that has both values, both positive, scored with their
/// ratio rescaled to the unit range, and an edge between each two scores
/// that differ by no more than `threshold`. It fails only where the ratios
/// are some and all the same.
pub fn visualize_tourism_purchasing_power(
    tourism_data: Vec<MetricRecord>,
    purchasing_power_data: Vec<MetricRecord>,
    threshold: i64,
) -> (r: Result<Scene, GraphError>)
    ensures
        r is Err <==> degenerate(merged(tourism_data@, purchasing_power_data@)),
        match r {
            Ok(scene) => scene.wf() && scene.depicts(
                compared(tourism_data@, purchasing_power_data@, true),
                threshold as int,
                purchasing_power_style(),
            ),
            Err(e) => e == GraphError::DegenerateDataset,
        },
{
    comparative_graph(&tourism_data, &purchasing_power_data, threshold, true, style())
}

/// Reads the purchasing power dataset from the text of its file: rows of
/// four fields after the header, the index in the fourth.
pub fn read_purchasing_power_csv(text: &str) -> (r: Result<Vec<MetricRecord>, GraphError>)
    ensures
        match r {
            Ok(records) => dataset(text@, 4, 3) == Ok::<Seq<(Seq<char>, int)>, GraphError>(
                record_view(records@),
            ),
            Err(e) => dataset(text@, 4, 3) == Err::<Seq<(Seq<char>, int)>, GraphError>(e),
        },
{
    read_dataset(text, 4, 3)
}

} // verus!
