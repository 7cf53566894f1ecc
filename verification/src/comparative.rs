//! The comparison of two datasets as one scene: join, optional rescaling,
//! nodes and edges.

use vstd::prelude::*;
use crate::dataset::{MetricRecord, merge, merged, normalize, normalized, least, greatest};
use crate::error::GraphError;
use crate::scene::{Scene, RenderStyle, compose};

verus! {

/// Whether the scores are some, and all the same.
pub open spec fn degenerate(scores: Seq<(Seq<char>, int)>) -> bool {
    scores.len() > 0 && least(scores) == greatest(scores)
}

/// The scores that a comparison shows: the ratios of the joined datasets,
/// rescaled to the unit range where `rescale` is set.
pub open spec fn compared(
    primary: Seq<MetricRecord>,
    secondary: Seq<MetricRecord>,
    rescale: bool,
) -> Seq<(Seq<char>, int)> {
    if rescale {
        normalized(merged(primary, secondary))
    } else {
        merged(primary, secondary)
    }
}

/// Compares two datasets: joins them by country into ratios, rescales the
/// ratios where `rescale` is set, and builds the scene of the result. A
/// join without any row gives a scene without nodes. Rescaling fails with
/// [`GraphError::DegenerateDataset`] where the ratios are some and all the
/// same; nothing else fails.
pub fn comparative_graph(
    primary: &Vec<MetricRecord>,
    secondary: &Vec<MetricRecord>,
    threshold: i64,
    rescale: bool,
    style: RenderStyle,
) -> (r: Result<Scene, GraphError>)
    requires
        style.sizing.wf(),
    ensures
        r is Err <==> rescale && degenerate(merged(primary@, secondary@)),
        match r {
            Ok(scene) => scene.wf() && scene.depicts(
                compared(primary@, secondary@, rescale),
                threshold as int,
                style,
            ),
            Err(e) => e == GraphError::DegenerateDataset,
        },
{
    let joined = merge(primary, secondary);
    if rescale {
        match normalize(&joined) {
            Ok(scaled) => {
                Ok(compose(&scaled, threshold, style))
            },
            Err(e) => Err(e),
        }
    } else {
        Ok(compose(&joined, threshold, style))
    }
}

} // verus!
