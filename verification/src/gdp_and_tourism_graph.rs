//! Tourism revenue against income: the ratio of the two per country.

use vstd::prelude::*;
use crate::comparative::{comparative_graph, compared};
use crate::dataset::{MetricRecord, record_view};
use crate::error::GraphError;
use crate::reader::{dataset, read_dataset};
use crate::scene::{RenderStyle, NodeSizing, EdgeWeighting, NodeColor};
use crate::similarity::{Visualization, with_graph, fits_graph, lemma_fits};

verus! {

/// Small canvas, a node's size ten times its ratio between 3 and 10, edges
/// weighted in steps.
pub open spec fn tourism_gdp_style() -> RenderStyle {
    RenderStyle {
        caption: "Tourism-to-GDP-per-capita Graph Visualization",
        legend: None,
        width: 800,
        height: 600,
        extent: 100,
        radius: 90,
        sizing: NodeSizing { multiplier: 10, divisor: 1, min: 3, max: 10 },
        weighting: EdgeWeighting::Stepped,
        color: NodeColor::Red,
        label_size: 15,
        scored_labels: true,
    }
}

/// The style of [`visualize_tourism_gdp`].
pub fn style() -> (s: RenderStyle)
    ensures
        s == tourism_gdp_style(),
{
    RenderStyle {
        caption: "Tourism-to-GDP-per-capita Graph Visualization",
        legend: None,
        width: 800,
        height: 600,
        extent: 100,
        radius: 90,
        sizing: NodeSizing { multiplier: 10, divisor: 1, min: 3, max: 10 },
        weighting: EdgeWeighting::Stepped,
        color: NodeColor::Red,
        label_size: 15,
        scored_labels: true,
    }
}

/// The scene and the graph of tourism revenue per unit of income: a node
/// for each country that has both values, both positive, scored with their
/// ratio, and an edge between each two ratios that differ by no more than
/// `threshold`. It fails only where the graph would have more nodes or
/// edges than 32-bit indices can number.
pub fn visualize_tourism_gdp(
    tourism_data: Vec<MetricRecord>,
    gdp_data: Vec<MetricRecord>,
    threshold: i64,
) -> (r: Result<Visualization, GraphError>)
    ensures
        r is Ok <==> fits_graph(
            compared(tourism_data@, gdp_data@, false),
            threshold as int,
            EdgeWeighting::Stepped,
        ),
        match r {
            Ok(v) => v.wf() && v.scene.depicts(
                compared(tourism_data@, gdp_data@, false),
                threshold as int,
                tourism_gdp_style(),
            ),
            Err(e) => e == GraphError::CapacityExceeded,
        },
{
    match comparative_graph(&tourism_data, &gdp_data, threshold, false, style()) {
        Ok(scene) => {
            proof {
                lemma_fits(scene, compared(tourism_data@, gdp_data@, false), threshold as int);
            }
            with_graph(scene)
        },
        Err(e) => Err(e),
    }
}

/// Reads the income dataset from the text of its file: rows of two fields
/// after the header, the income per head in the second.
pub fn read_tourism_gdp_csv(text: &str) -> (r: Result<Vec<MetricRecord>, GraphError>)
    ensures
        match r {
            Ok(records) => dataset(text@, 2, 1) == Ok::<Seq<(Seq<char>, int)>, GraphError>(
                record_view(records@),
            ),
            Err(e) => dataset(text@, 2, 1) == Err::<Seq<(Seq<char>, int)>, GraphError>(e),
        },
{
    read_dataset(text, 2, 1)
}

} // verus!
