//! Tourism revenue against unemployment: the ratio of the two per
//! country, rescaled to the unit range.

use vstd::prelude::*;
use crate::comparative::{comparative_graph, compared, degenerate};
use crate::dataset::{MetricRecord, merged, record_view};
use crate::error::GraphError;
use crate::reader::{dataset, read_dataset};
use crate::scene::{Scene, RenderStyle, NodeSizing, EdgeWeighting, NodeColor, Legend};

verus! {

/// Where the legend starts, left of the centre.
pub const LEGEND_X: i32 = -200;

/// Large canvas, a node's size twenty times its rescaled ratio between 5
/// and 20, edges weighted by similarity, with a legend.
pub open spec fn unemployment_style() -> RenderStyle {
    RenderStyle {
        caption: "Tourism-to-Unemployment Graph",
        legend: Some(
            Legend {
                text: "Node size: Tourism-to-Unemployment ratio\nEdge thickness: Similarity",
                x: LEGEND_X,
                y: 220,
            },
        ),
        width: 1000,
        height: 1000,
        extent: 250,
        radius: 200,
        sizing: NodeSizing { multiplier: 20, divisor: 1, min: 5, max: 20 },
        weighting: EdgeWeighting::Similarity,
        color: NodeColor::Blue,
        label_size: 12,
        scored_labels: true,
    }
}

/// The style of [`visualize_unemployment_tourism`].
pub fn style() -> (s: RenderStyle)
    ensures
        s == unemployment_style(),
{
    RenderStyle {
        caption: "Tourism-to-Unemployment Graph",
        legend: Some(
            Legend {
                text: "Node size: Tourism-to-Unemployment ratio\nEdge thickness: Similarity",
                x: LEGEND_X,
                y: 220,
            },
        ),
        width: 1000,
        height: 1000,
        extent: 250,
        radius: 200,
        sizing: NodeSizing { multiplier: 20, divisor: 1, min: 5, max: 20 },
        weighting: EdgeWeighting::Similarity,
        color: NodeColor::Blue,
        label_size: 12,
        scored_labels: true,
    }
}

/// The scene of tourism revenue per unit of unemployment: a node for
/// each country that has both values, both positive, scored with their
/// ratio rescaled to the unit range, and an edge between each two scores
/// that differ by no more than `threshold`. It fails only where the ratios
/// are some and all the same.
pub fn visualize_unemployment_tourism(
    tourism_data: Vec<MetricRecord>,
    unemployment_data: Vec<MetricRecord>,
    threshold: i64,
) -> (r: Result<Scene, GraphError>)
    ensures
        r is Err <==> degenerate(merged(tourism_data@, unemployment_data@)),
        match r {
            Ok(scene) => scene.wf() && scene.depicts(
                compared(tourism_data@, unemployment_data@, true),
                threshold as int,
                unemployment_style(),
            ),
            Err(e) => e == GraphError::DegenerateDataset,
        },
{
    comparative_graph(&tourism_data, &unemployment_data, threshold, true, style())
}

/// Reads the unemployment dataset from the text of its file: rows of two
/// fields after the header, the rate in the second.
pub fn read_unemployment_csv(text: &str) -> (r: Result<Vec<MetricRecord>, GraphError>)
    ensures
        match r {
            Ok(records) => dataset(text@, 2, 1) == Ok::<Seq<(Seq<char>, int)>, GraphError>(
                record_view(records@),
            ),
            Err(e) => dataset(text@, 2, 1) == Err::<Seq<(Seq<char>, int)>, GraphError>(e),
        },
{
    read_dataset(text, 2, 1)
}

} // verus!
