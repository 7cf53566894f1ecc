//! What a renderer is handed: sized nodes, weighted edges and the style to
//! draw them in.

use vstd::prelude::*;
use crate::dataset::{Scored, record_view};
use crate::fixed::{SCALE, gap, close, clamped, bounded_gap};
use crate::layout::{angle_of, node_angle};

verus! {

/// How the size of a node follows from its score: the whole part of
/// `score * multiplier / divisor`, limited to `min..=max`.
#[derive(Clone, Copy, Debug, PartialEq, Eq)]
pub struct NodeSizing {
    pub multiplier: u16,
    pub divisor: u16,
    pub min: i32,
    pub max: i32,
}

impl NodeSizing {
    /// The factors are positive and the range is not empty.
    pub open spec fn wf(self) -> bool {
        &&& self.multiplier >= 1
        &&& self.divisor >= 1
        &&& self.min <= self.max
    }
}

/// How the weight of an edge follows from the difference of its scores.
#[derive(Clone, Copy, Debug, PartialEq, Eq)]
pub enum EdgeWeighting {
    /// Every edge weighs one whole.
    Uniform,
    /// Whole weights from two to six: one more than five minus the whole
    /// part of the difference, the latter limited to one to five.
    Stepped,
    /// One whole minus the difference.
    Similarity,
}

/// A country as the renderer draws it.
#[derive(Clone, Debug, PartialEq, Eq)]
pub struct SceneNode {
    pub country: String,
    pub score: i128,
    /// Radius of the node's disc in pixels.
    pub size: i32,
    /// Where the node lies on the layout circle, in fixed-point degrees.
    pub angle: i64,
}

/// An edge between the nodes at positions `a < b`.
#[derive(Clone, Copy, Debug, PartialEq, Eq)]
pub struct SceneEdge {
    pub a: usize,
    pub b: usize,
    pub weight: i64,
}

/// Width in pixels of the line that an edge of weight `weight` is drawn
/// with: twice the weight in whole pixels under
/// [`EdgeWeighting::Similarity`], never less than none; one pixel otherwise.
pub open spec fn stroke_of(weight: int, weighting: EdgeWeighting) -> int {
    match weighting {
        EdgeWeighting::Similarity => if weight <= 0 {
            0
        } else {
            2 * weight / (SCALE as int)
        },
        _ => 1,
    }
}

impl SceneEdge {
    /// Computes [`stroke_of`] for this edge.
    pub fn stroke_width(&self, weighting: EdgeWeighting) -> (width: u32)
        ensures
            width == clamped(stroke_of(self.weight as int, weighting), 0, u32::MAX as int),
    {
        match weighting {
            EdgeWeighting::Similarity => {
                if self.weight <= 0 {
                    0
                } else {
                    let doubled: i128 = 2 * (self.weight as i128);
                    let whole: i128 = doubled / 1_000_000;
                    if whole > 0xFFFF_FFFF {
                        0xFFFF_FFFF
                    } else {
                        whole as u32
                    }
                }
            },
            _ => 1,
        }
    }
}

/// The whole part of a fixed-point quantity measured in `unit`s, rounded
/// towards zero.
pub open spec fn whole_part(x: int, unit: int) -> int {
    if x >= 0 {
        x / unit
    } else {
        -((-x) / unit)
    }
}

/// Size of the node of a score.
pub open spec fn size_of(score: int, sizing: NodeSizing) -> int {
    clamped(
        whole_part(score * sizing.multiplier, sizing.divisor * SCALE),
        sizing.min as int,
        sizing.max as int,
    )
}

/// Weight of an edge whose scores differ by `gap`.
pub open spec fn weight_of(gap: int, weighting: EdgeWeighting) -> int {
    match weighting {
        EdgeWeighting::Uniform => SCALE as int,
        EdgeWeighting::Stepped => (1 + clamped(5 - gap / (SCALE as int), 1, 5)) * SCALE,
        EdgeWeighting::Similarity => SCALE - gap,
    }
}

/// Of two pairs of scores the more similar one gets the edge that weighs
/// no less.
pub proof fn lemma_weight_monotonic(near: int, far: int, weighting: EdgeWeighting)
    requires
        0 <= near <= far,
    ensures
        weight_of(near, weighting) >= weight_of(far, weighting),
{
    assert(near / 1_000_000 <= far / 1_000_000);
    let a = clamped(5 - near / 1_000_000, 1, 5);
    let b = clamped(5 - far / 1_000_000, 1, 5);
    assert(a >= b);
    assert((1 + a) * 1_000_000 >= (1 + b) * 1_000_000);
}

/// Computes [`size_of`].
pub fn node_size(score: i128, sizing: &NodeSizing) -> (size: i32)
    requires
        sizing.wf(),
    ensures
        size == size_of(score as int, *sizing),
        sizing.min <= size <= sizing.max,
{
    let unit: i128 = (sizing.divisor as i128) * 1_000_000;
    let factor: i128 = sizing.multiplier as i128;
    // Beyond this magnitude the whole part is outside every `i32`.
    let huge: i128 = 0x1_0000_0000_0000_0000_0000;
    if score >= huge {
        proof {
            let s = score as int;
            let m = sizing.multiplier as int;
            let u = unit as int;
            assert(s * m / u >= 0x8000_0000) by (nonlinear_arith)
                requires
                    s >= 0x1_0000_0000_0000_0000_0000,
                    m >= 1,
                    0 < u <= 0x1_0000 * 1_000_000,
            ;
        }
        sizing.max
    } else if score <= -huge {
        proof {
            let s = -(score as int);
            let m = sizing.multiplier as int;
            let u = unit as int;
            assert(s * m / u >= 0x8000_0001) by (nonlinear_arith)
                requires
                    s >= 0x1_0000_0000_0000_0000_0000,
                    m >= 1,
                    0 < u <= 0x1_0000 * 1_000_000,
            ;
            assert((score as int) * m == -(s * m)) by (nonlinear_arith)
                requires
                    s == -(score as int),
            ;
        }
        sizing.min
    } else if score >= 0 {
        proof {
            assert(0 <= score * factor <= 0x1_0000_0000_0000_0000_0000 * 0x1_0000) by (nonlinear_arith)
                requires
                    0 <= score < 0x1_0000_0000_0000_0000_0000,
                    1 <= factor < 0x1_0000,
            ;
        }
        let whole: i128 = score * factor / unit;
        if whole < sizing.min as i128 {
            sizing.min
        } else if whole > sizing.max as i128 {
            sizing.max
        } else {
            whole as i32
        }
    } else {
        let positive: i128 = -score;
        proof {
            assert(0 <= positive * factor <= 0x1_0000_0000_0000_0000_0000 * 0x1_0000) by (nonlinear_arith)
                requires
                    0 <= positive < 0x1_0000_0000_0000_0000_0000,
                    1 <= factor < 0x1_0000,
            ;
            assert(score * factor == -(positive * factor)) by (nonlinear_arith)
                requires
                    positive == -score,
            ;
        }
        let whole: i128 = -(positive * factor / unit);
        if whole < sizing.min as i128 {
            sizing.min
        } else if whole > sizing.max as i128 {
            sizing.max
        } else {
            whole as i32
        }
    }
}

/// Computes [`weight_of`] for the difference of two scores that an edge joins.
pub fn edge_weight(gap: i64, weighting: EdgeWeighting) -> (weight: i64)
    requires
        gap >= 0,
    ensures
        weight == weight_of(gap as int, weighting),
{
    match weighting {
        EdgeWeighting::Uniform => 1_000_000,
        EdgeWeighting::Stepped => {
            let whole: i64 = gap / 1_000_000;
            let step: i64 = if whole >= 4 {
                1
            } else {
                5 - whole
            };
            (1 + step) * 1_000_000
        },
        EdgeWeighting::Similarity => 1_000_000 - gap,
    }
}

/// The scores of nodes, in their order.
pub open spec fn scores_of(nodes: Seq<SceneNode>) -> Seq<int> {
    Seq::new(nodes.len(), |i: int| nodes[i].score as int)
}

/// The edges between node `i` and the nodes after it and below `upto`, as
/// triples of the two positions and the weight.
pub open spec fn row_edges(
    scores: Seq<int>,
    threshold: int,
    weighting: EdgeWeighting,
    i: int,
    upto: int,
) -> Seq<(int, int, int)>
    decreases upto - i,
{
    if upto <= i + 1 {
        Seq::empty()
    } else {
        let rest = row_edges(scores, threshold, weighting, i, upto - 1);
        if close(scores[i], scores[upto - 1], threshold) {
            rest.push((i, upto - 1, weight_of(gap(scores[i], scores[upto - 1]), weighting)))
        } else {
            rest
        }
    }
}

/// The edges whose first node is below `rows`: row by row, each node
/// against the nodes after it.
pub open spec fn edges_upto(
    scores: Seq<int>,
    threshold: int,
    weighting: EdgeWeighting,
    rows: int,
) -> Seq<(int, int, int)>
    decreases rows,
{
    if rows <= 0 {
        Seq::empty()
    } else {
        edges_upto(scores, threshold, weighting, rows - 1) + row_edges(
            scores,
            threshold,
            weighting,
            rows - 1,
            scores.len() as int,
        )
    }
}

/// Edges as triples of the two positions and the weight.
pub open spec fn edge_view(edges: Seq<SceneEdge>) -> Seq<(int, int, int)> {
    Seq::new(edges.len(), |k: int| (edges[k].a as int, edges[k].b as int, edges[k].weight as int))
}

/// One node for each record, in the order of the records, sized by its
/// score and placed by its position in the list.
pub fn scene_nodes<R: Scored>(records: &Vec<R>, sizing: &NodeSizing) -> (nodes: Vec<SceneNode>)
    requires
        sizing.wf(),
    ensures
        nodes.len() == records.len(),
        forall|i: int|
            0 <= i < nodes.len() ==> {
                &&& (#[trigger] nodes[i]).country@ == records[i].name()
                &&& nodes[i].score == records[i].points()
                &&& nodes[i].size == size_of(records[i].points(), *sizing)
                &&& nodes[i].angle == angle_of(i, records.len() as int)
            },
{
    let mut nodes: Vec<SceneNode> = Vec::new();
    let mut i: usize = 0;
    while i < records.len()
        invariant
            sizing.wf(),
            i <= records.len(),
            nodes.len() == i,
            forall|k: int|
                0 <= k < i ==> {
                    &&& (#[trigger] nodes[k]).country@ == records[k].name()
                    &&& nodes[k].score == records[k].points()
                    &&& nodes[k].size == size_of(records[k].points(), *sizing)
                    &&& nodes[k].angle == angle_of(k, records.len() as int)
                },
        decreases records.len() - i,
    {
        let score = records[i].score();
        let size = node_size(score, sizing);
        let angle = node_angle(i, records.len());
        nodes.push(SceneNode { country: records[i].country().clone(), score, size, angle });
        i += 1;
    }
    nodes
}

/// The edges of a scene: one for each pair of nodes whose scores differ by
/// no more than `threshold`, row by row, weighted by `weighting`.
pub fn connect(nodes: &Vec<SceneNode>, threshold: i64, weighting: EdgeWeighting) -> (edges: Vec<
    SceneEdge,
>)
    ensures
        edge_view(edges@) == edges_upto(
            scores_of(nodes@),
            threshold as int,
            weighting,
            nodes.len() as int,
        ),
{
    let n = nodes.len();
    let ghost scores = scores_of(nodes@);
    let mut edges: Vec<SceneEdge> = Vec::new();
    let mut i: usize = 0;
    proof {
        assert(edge_view(edges@) =~= edges_upto(scores, threshold as int, weighting, 0));
    }
    while i < n
        invariant
            n == nodes.len(),
            scores == scores_of(nodes@),
            i <= n,
            edge_view(edges@) == edges_upto(scores, threshold as int, weighting, i as int),
        decreases n - i,
    {
        let ghost done = edge_view(edges@);
        let mut j: usize = i + 1;
        proof {
            assert(edge_view(edges@) =~= done + row_edges(
                scores,
                threshold as int,
                weighting,
                i as int,
                j as int,
            ));
        }
        while j < n
            invariant
                n == nodes.len(),
                scores == scores_of(nodes@),
                i < n,
                i + 1 <= j <= n,
                done == edges_upto(scores, threshold as int, weighting, i as int),
                edge_view(edges@) == done + row_edges(
                    scores,
                    threshold as int,
                    weighting,
                    i as int,
                    j as int,
                ),
            decreases n - j,
        {
            let ghost before = edge_view(edges@);
            let ghost row = row_edges(scores, threshold as int, weighting, i as int, j as int);
            match bounded_gap(nodes[i].score, nodes[j].score, threshold) {
                Some(d) => {
                    let weight = edge_weight(d, weighting);
                    edges.push(SceneEdge { a: i, b: j, weight });
                    proof {
                        let added = (i as int, j as int, weight as int);
                        assert(edge_view(edges@) =~= before.push(added));
                        assert(before.push(added) =~= done + row.push(added));
                    }
                },
                None => {},
            }
            j += 1;
        }
        i += 1;
    }
    edges
}

/// Colour that the nodes are filled with.
#[derive(Clone, Copy, Debug, PartialEq, Eq)]
pub enum NodeColor {
    Blue,
    Red,
}

/// A line of text on the canvas, at a position in its logical coordinates.
#[derive(Clone, Copy, Debug, PartialEq, Eq)]
pub struct Legend {
    pub text: &'static str,
    pub x: i32,
    pub y: i32,
}

/// Everything about a picture that does not depend on the data.
#[derive(Clone, Copy, Debug, PartialEq, Eq)]
pub struct RenderStyle {
    /// Title of the picture.
    pub caption: &'static str,
    /// Explanation drawn onto the picture, if any.
    pub legend: Option<Legend>,
    /// Width of the canvas in pixels.
    pub width: u32,
    /// Height of the canvas in pixels.
    pub height: u32,
    /// The logical window runs from `-extent` to `extent` on both axes.
    pub extent: i32,
    /// Radius of the circle on which the nodes are laid out.
    pub radius: i32,
    /// How a node is sized.
    pub sizing: NodeSizing,
    /// How an edge is weighted.
    pub weighting: EdgeWeighting,
    /// Fill of the nodes.
    pub color: NodeColor,
    /// Size of the labels in points.
    pub label_size: u32,
    /// Whether a label shows the score after the country.
    pub scored_labels: bool,
}

/// Nodes, edges and style of one picture. Each node belongs on the layout
/// circle of the style's radius round the origin, at the node's angle.
#[derive(Clone, Debug, PartialEq, Eq)]
pub struct Scene {
    pub nodes: Vec<SceneNode>,
    pub edges: Vec<SceneEdge>,
    pub style: RenderStyle,
}

impl Scene {
    /// Every edge joins two different nodes of the scene, the lower
    /// position first.
    pub open spec fn wf(self) -> bool {
        forall|k: int|
            0 <= k < self.edges.len() ==> (#[trigger] self.edges[k]).a < self.edges[k].b
                < self.nodes.len()
    }

    /// Whether the scene shows exactly the given countries and scores, in
    /// their order: each node sized as the style says and placed evenly
    /// round the circle, and an edge, weighted as the style says, for each
    /// pair of scores within `threshold`.
    pub open spec fn depicts(
        self,
        records: Seq<(Seq<char>, int)>,
        threshold: int,
        style: RenderStyle,
    ) -> bool {
        &&& self.style == style
        &&& self.nodes.len() == records.len()
        &&& forall|i: int|
            0 <= i < records.len() ==> {
                &&& (#[trigger] self.nodes[i]).country@ == records[i].0
                &&& self.nodes[i].score == records[i].1
                &&& self.nodes[i].size == size_of(records[i].1, style.sizing)
                &&& self.nodes[i].angle == angle_of(i, records.len() as int)
            }
        &&& edge_view(self.edges@) == edges_upto(
            Seq::new(records.len(), |i: int| records[i].1),
            threshold,
            style.weighting,
            records.len() as int,
        )
    }
}

/// The edge that joins the nodes `i` and `j`.
pub open spec fn edge_between(
    scores: Seq<int>,
    weighting: EdgeWeighting,
    i: int,
    j: int,
) -> (int, int, int) {
    (i, j, weight_of(gap(scores[i], scores[j]), weighting))
}

/// Whether `edge` joins two nodes `a < b` below `n` whose scores lie within
/// `threshold`, with the weight that the weighting gives their difference.
pub open spec fn edge_sound(
    edge: (int, int, int),
    scores: Seq<int>,
    threshold: int,
    weighting: EdgeWeighting,
) -> bool {
    &&& 0 <= edge.0 < edge.1 < scores.len()
    &&& close(scores[edge.0], scores[edge.1], threshold)
    &&& edge == edge_between(scores, weighting, edge.0, edge.1)
}

/// Every edge of a row joins the row's node with a later node below `upto`
/// whose score is close.
pub proof fn lemma_row_edges_sound(
    scores: Seq<int>,
    threshold: int,
    weighting: EdgeWeighting,
    i: int,
    upto: int,
)
    requires
        0 <= i,
        upto <= scores.len(),
    ensures
        forall|k: int|
            0 <= k < row_edges(scores, threshold, weighting, i, upto).len() ==> {
                &&& (#[trigger] row_edges(scores, threshold, weighting, i, upto)[k]).0 == i
                &&& row_edges(scores, threshold, weighting, i, upto)[k].1 < upto
                &&& edge_sound(
                    row_edges(scores, threshold, weighting, i, upto)[k],
                    scores,
                    threshold,
                    weighting,
                )
            },
    decreases upto - i,
{
    if upto > i + 1 {
        lemma_row_edges_sound(scores, threshold, weighting, i, upto - 1);
        let all = row_edges(scores, threshold, weighting, i, upto);
        let rest = row_edges(scores, threshold, weighting, i, upto - 1);
        assert forall|k: int| 0 <= k < all.len() implies {
            &&& (#[trigger] all[k]).0 == i
            &&& all[k].1 < upto
            &&& edge_sound(all[k], scores, threshold, weighting)
        } by {
            if k < rest.len() {
                assert(all[k] == rest[k]);
            }
        }
    }
}

/// Every edge in the list joins two nodes whose scores are close, the
/// lower position first.
pub proof fn lemma_edges_sound(
    scores: Seq<int>,
    threshold: int,
    weighting: EdgeWeighting,
    rows: int,
)
    requires
        rows <= scores.len(),
    ensures
        forall|k: int|
            0 <= k < edges_upto(scores, threshold, weighting, rows).len() ==> edge_sound(
                #[trigger] edges_upto(scores, threshold, weighting, rows)[k],
                scores,
                threshold,
                weighting,
            ),
    decreases rows,
{
    if rows > 0 {
        lemma_edges_sound(scores, threshold, weighting, rows - 1);
        lemma_row_edges_sound(scores, threshold, weighting, rows - 1, scores.len() as int);
        let all = edges_upto(scores, threshold, weighting, rows);
        let before = edges_upto(scores, threshold, weighting, rows - 1);
        let row = row_edges(scores, threshold, weighting, rows - 1, scores.len() as int);
        assert forall|k: int| 0 <= k < all.len() implies edge_sound(
            #[trigger] all[k],
            scores,
            threshold,
            weighting,
        ) by {
            if k < before.len() {
                assert(all[k] == before[k]);
            } else {
                assert(all[k] == row[k - before.len()]);
            }
        }
    }
}

/// A row has the edge to each later node below `upto` whose score is close.
pub proof fn lemma_row_edges_complete(
    scores: Seq<int>,
    threshold: int,
    weighting: EdgeWeighting,
    i: int,
    upto: int,
    j: int,
)
    requires
        i < j < upto,
        close(scores[i], scores[j], threshold),
    ensures
        row_edges(scores, threshold, weighting, i, upto).contains(
            edge_between(scores, weighting, i, j),
        ),
    decreases upto - i,
{
    let all = row_edges(scores, threshold, weighting, i, upto);
    let rest = row_edges(scores, threshold, weighting, i, upto - 1);
    if j == upto - 1 {
        assert(all[rest.len() as int] == edge_between(scores, weighting, i, j));
    } else {
        lemma_row_edges_complete(scores, threshold, weighting, i, upto - 1, j);
        let k = choose|k: int| 0 <= k < rest.len() && rest[k] == edge_between(scores, weighting, i, j);
        assert(all[k] == rest[k]);
    }
}

/// The list has the edge between each two nodes whose scores are close.
pub proof fn lemma_edges_complete(
    scores: Seq<int>,
    threshold: int,
    weighting: EdgeWeighting,
    rows: int,
    i: int,
    j: int,
)
    requires
        0 <= i < rows,
        i < j < scores.len(),
        close(scores[i], scores[j], threshold),
    ensures
        edges_upto(scores, threshold, weighting, rows).contains(
            edge_between(scores, weighting, i, j),
        ),
    decreases rows,
{
    let all = edges_upto(scores, threshold, weighting, rows);
    let before = edges_upto(scores, threshold, weighting, rows - 1);
    let row = row_edges(scores, threshold, weighting, rows - 1, scores.len() as int);
    let wanted = edge_between(scores, weighting, i, j);
    if i == rows - 1 {
        lemma_row_edges_complete(scores, threshold, weighting, i, scores.len() as int, j);
        let k = choose|k: int| 0 <= k < row.len() && row[k] == wanted;
        assert(all[before.len() + k] == row[k]);
    } else {
        lemma_edges_complete(scores, threshold, weighting, rows - 1, i, j);
        let k = choose|k: int| 0 <= k < before.len() && before[k] == wanted;
        assert(all[k] == before[k]);
    }
}

/// Two nodes are joined exactly where their scores are close: the list of
/// all edges has the edge between `i` and `j` if and only if the two scores
/// differ by no more than the threshold.
pub proof fn lemma_edge_iff_close(
    scores: Seq<int>,
    threshold: int,
    weighting: EdgeWeighting,
    i: int,
    j: int,
)
    requires
        0 <= i < j < scores.len(),
    ensures
        edges_upto(scores, threshold, weighting, scores.len() as int).contains(
            edge_between(scores, weighting, i, j),
        ) <==> close(scores[i], scores[j], threshold),
{
    let all = edges_upto(scores, threshold, weighting, scores.len() as int);
    let wanted = edge_between(scores, weighting, i, j);
    if close(scores[i], scores[j], threshold) {
        lemma_edges_complete(scores, threshold, weighting, scores.len() as int, i, j);
    }
    if all.contains(wanted) {
        lemma_edges_sound(scores, threshold, weighting, scores.len() as int);
        let k = choose|k: int| 0 <= k < all.len() && all[k] == wanted;
        assert(edge_sound(all[k], scores, threshold, weighting));
    }
}

/// What a scene depicts determines its nodes and edges: two scenes of the
/// same countries, scores, threshold and style agree node by node and edge
/// by edge.
pub proof fn lemma_depicts_unique(
    first: Scene,
    second: Scene,
    records: Seq<(Seq<char>, int)>,
    threshold: int,
    style: RenderStyle,
)
    requires
        first.depicts(records, threshold, style),
        second.depicts(records, threshold, style),
    ensures
        first.style == second.style,
        first.nodes.len() == second.nodes.len(),
        forall|i: int|
            0 <= i < first.nodes.len() ==> {
                &&& (#[trigger] first.nodes[i]).country@ == second.nodes[i].country@
                &&& first.nodes[i].score == second.nodes[i].score
                &&& first.nodes[i].size == second.nodes[i].size
                &&& first.nodes[i].angle == second.nodes[i].angle
            },
        first.edges.len() == second.edges.len(),
        forall|k: int| 0 <= k < first.edges.len() ==> #[trigger] first.edges[k] == second.edges[k],
{
    assert(edge_view(first.edges@).len() == edge_view(second.edges@).len());
    assert forall|k: int| 0 <= k < first.edges.len() implies #[trigger] first.edges[k]
        == second.edges[k] by {
        assert(edge_view(first.edges@)[k] == edge_view(second.edges@)[k]);
    }
}

/// Builds the scene of a sequence of records: one node each, and the edges
/// between the pairs of scores that lie within `threshold`.
pub fn compose<R: Scored>(records: &Vec<R>, threshold: i64, style: RenderStyle) -> (scene: Scene)
    requires
        style.sizing.wf(),
    ensures
        scene.wf(),
        scene.depicts(record_view(records@), threshold as int, style),
{
    let nodes = scene_nodes(records, &style.sizing);
    let edges = connect(&nodes, threshold, style.weighting);
    proof {
        let view = record_view(records@);
        let scores = Seq::new(view.len(), |i: int| view[i].1);
        assert(scores =~= scores_of(nodes@));
        lemma_edges_sound(scores, threshold as int, style.weighting, scores.len() as int);
        assert forall|k: int| 0 <= k < edges.len() implies (#[trigger] edges[k]).a < edges[k].b
            < nodes.len() by {
            assert(edge_view(edges@)[k] == (edges[k].a as int, edges[k].b as int, edges[k].weight as int));
            assert(edge_sound(edge_view(edges@)[k], scores, threshold as int, style.weighting));
        }
    }
    Scene { nodes, edges, style }
}

} // verus!
