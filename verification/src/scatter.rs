//! Two metrics of the same countries as points of a scatter plot.

use vstd::prelude::*;
use crate::dataset::{MetricRecord, lookup, find_value};

verus! {

/// The points of a scatter plot with the frame to draw them in.
#[derive(Clone, Debug, PartialEq, Eq)]
pub struct ScatterPlot {
    /// The points, the horizontal value first.
    pub points: Vec<(i64, i64)>,
    /// Title of the picture.
    pub caption: &'static str,
    /// Width of the canvas in pixels.
    pub width: u32,
    /// Height of the canvas in pixels.
    pub height: u32,
    /// The horizontal axis runs from zero to this many wholes.
    pub x_max: i64,
    /// The vertical axis runs from zero to this many wholes.
    pub y_max: i64,
    /// Radius of a dot in pixels.
    pub dot: i32,
}

/// For each row whose country is keyed in `keyed`, in the order of the
/// rows, the keyed value paired with the value of the row.
pub open spec fn paired(rows: Seq<MetricRecord>, keyed: Seq<MetricRecord>) -> Seq<(int, int)>
    decreases rows.len(),
{
    if rows.len() == 0 {
        Seq::empty()
    } else {
        let rest = paired(rows.drop_last(), keyed);
        match lookup(keyed, rows.last().country@) {
            Some(value) => rest.push((value as int, rows.last().value as int)),
            None => rest,
        }
    }
}

/// Points as pairs of plain values.
pub open spec fn point_view(points: Seq<(i64, i64)>) -> Seq<(int, int)> {
    Seq::new(points.len(), |k: int| (points[k].0 as int, points[k].1 as int))
}

/// The scatter plot of tourism revenue against unemployment: a point for
/// each unemployment row whose country has a tourism revenue, in the order
/// of the unemployment rows, the revenue on the horizontal axis.
pub fn create_scatter_plot(tourism: &Vec<MetricRecord>, unemployment: &Vec<MetricRecord>) -> (plot:
    ScatterPlot)
    ensures
        point_view(plot.points@) == paired(unemployment@, tourism@),
        plot.caption@ == "Tourism Revenue vs Unemployment Rate"@,
        plot.width == 800,
        plot.height == 600,
        plot.x_max == 120,
        plot.y_max == 50,
        plot.dot == 5,
{
    let mut points: Vec<(i64, i64)> = Vec::new();
    let mut i: usize = 0;
    proof {
        assert(unemployment@.take(0).len() == 0);
        assert(point_view(points@) =~= paired(unemployment@.take(0), tourism@));
    }
    while i < unemployment.len()
        invariant
            i <= unemployment.len(),
            point_view(points@) == paired(unemployment@.take(i as int), tourism@),
        decreases unemployment.len() - i,
    {
        let row = &unemployment[i];
        proof {
            let prefix = unemployment@.take(i + 1);
            assert(prefix.last() == unemployment@[i as int]);
            assert(prefix.drop_last() =~= unemployment@.take(i as int));
        }
        let ghost before = point_view(points@);
        match find_value(tourism, &row.country) {
            Some(revenue) => {
                points.push((revenue, row.value));
                proof {
                    assert(point_view(points@) =~= before.push((revenue as int, row.value as int)));
                }
            },
            None => {},
        }
        i += 1;
    }
    proof {
        assert(unemployment@.take(unemployment.len() as int) =~= unemployment@);
    }
    ScatterPlot {
        points,
        caption: "Tourism Revenue vs Unemployment Rate",
        width: 800,
        height: 600,
        x_max: 120,
        y_max: 50,
        dot: 5,
    }
}

} // verus!
