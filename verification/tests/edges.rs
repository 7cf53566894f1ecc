use metric_graph::fixed::{bounded_gap, within_threshold, SCALE};
use metric_graph::scene::{edge_weight, node_size, EdgeWeighting, NodeSizing, SceneEdge};

#[test]
fn scale_is_a_million() {
    assert_eq!(SCALE, 1_000_000);
}

#[test]
fn edge_predicate_is_symmetric() {
    let samples: [i128; 7] = [0, 1, -1, 500_000, -500_000, i128::MAX, i128::MIN];
    for &a in &samples {
        for &b in &samples {
            for &t in &[-1i64, 0, 1, 500_000, 1_000_000, i64::MAX] {
                assert_eq!(within_threshold(a, b, t), within_threshold(b, a, t));
                assert_eq!(bounded_gap(a, b, t), bounded_gap(b, a, t));
            }
        }
    }
}

#[test]
fn edge_threshold_is_inclusive() {
    assert!(within_threshold(1_500_000, 1_000_000, 500_000));
    assert!(within_threshold(1_000_000, 1_500_000, 500_000));
    assert!(!within_threshold(1_500_001, 1_000_000, 500_000));
    assert!(within_threshold(-250_000, 250_000, 500_000));
    assert!(within_threshold(7, 7, 0));
    assert!(!within_threshold(7, 8, 0));
}

#[test]
fn negative_threshold_joins_nothing() {
    assert!(!within_threshold(3, 3, -1));
    assert_eq!(bounded_gap(3, 3, -1), None);
}

#[test]
fn bounded_gap_is_the_difference() {
    assert_eq!(bounded_gap(10, 4, 6), Some(6));
    assert_eq!(bounded_gap(4, 10, 7), Some(6));
    assert_eq!(bounded_gap(4, 10, 5), None);
    assert_eq!(bounded_gap(-3, 4, 7), Some(7));
}

#[test]
fn bounded_gap_at_the_ends_of_the_range() {
    assert_eq!(bounded_gap(i128::MAX, i128::MIN, i64::MAX), None);
    assert_eq!(bounded_gap(i128::MIN, i128::MAX, i64::MAX), None);
    assert_eq!(bounded_gap(i128::MAX, i128::MAX - 5, 5), Some(5));
    assert_eq!(bounded_gap(i128::MIN, i128::MIN + 5, 5), Some(5));
    assert_eq!(bounded_gap(0, i64::MAX as i128, i64::MAX), Some(i64::MAX));
    assert_eq!(bounded_gap(-1, i64::MAX as i128, i64::MAX), None);
    assert_eq!(bounded_gap(-1, (i64::MAX - 1) as i128, i64::MAX), Some(i64::MAX));
}

#[test]
fn uniform_weight_is_one() {
    assert_eq!(edge_weight(0, EdgeWeighting::Uniform), 1_000_000);
    assert_eq!(edge_weight(123_456_789, EdgeWeighting::Uniform), 1_000_000);
}

#[test]
fn stepped_weight_runs_from_six_down_to_two() {
    assert_eq!(edge_weight(0, EdgeWeighting::Stepped), 6_000_000);
    assert_eq!(edge_weight(999_999, EdgeWeighting::Stepped), 6_000_000);
    assert_eq!(edge_weight(1_000_000, EdgeWeighting::Stepped), 5_000_000);
    assert_eq!(edge_weight(2_500_000, EdgeWeighting::Stepped), 4_000_000);
    assert_eq!(edge_weight(3_999_999, EdgeWeighting::Stepped), 3_000_000);
    assert_eq!(edge_weight(4_000_000, EdgeWeighting::Stepped), 2_000_000);
    assert_eq!(edge_weight(10_000_000, EdgeWeighting::Stepped), 2_000_000);
    assert_eq!(edge_weight(i64::MAX, EdgeWeighting::Stepped), 2_000_000);
}

#[test]
fn similarity_weight_is_one_minus_gap() {
    assert_eq!(edge_weight(0, EdgeWeighting::Similarity), 1_000_000);
    assert_eq!(edge_weight(444_444, EdgeWeighting::Similarity), 555_556);
    assert_eq!(edge_weight(1_000_000, EdgeWeighting::Similarity), 0);
    assert_eq!(edge_weight(1_500_000, EdgeWeighting::Similarity), -500_000);
    assert_eq!(edge_weight(i64::MAX, EdgeWeighting::Similarity), 1_000_000 - i64::MAX);
}

#[test]
fn more_similar_pairs_weigh_no_less() {
    let gaps: [i64; 6] = [0, 1, 999_999, 1_000_000, 4_500_000, 9_000_000];
    for w in [EdgeWeighting::Uniform, EdgeWeighting::Stepped, EdgeWeighting::Similarity] {
        for pair in gaps.windows(2) {
            assert!(edge_weight(pair[0], w) >= edge_weight(pair[1], w));
        }
    }
}

#[test]
fn stroke_width_follows_the_weighting() {
    let edge = |weight: i64| SceneEdge { a: 0, b: 1, weight };
    assert_eq!(edge(1_000_000).stroke_width(EdgeWeighting::Similarity), 2);
    assert_eq!(edge(555_556).stroke_width(EdgeWeighting::Similarity), 1);
    assert_eq!(edge(499_999).stroke_width(EdgeWeighting::Similarity), 0);
    assert_eq!(edge(0).stroke_width(EdgeWeighting::Similarity), 0);
    assert_eq!(edge(-500_000).stroke_width(EdgeWeighting::Similarity), 0);
    assert_eq!(edge(i64::MAX).stroke_width(EdgeWeighting::Similarity), u32::MAX);
    assert_eq!(edge(6_000_000).stroke_width(EdgeWeighting::Stepped), 1);
    assert_eq!(edge(1_000_000).stroke_width(EdgeWeighting::Uniform), 1);
}

#[test]
fn node_size_is_the_clamped_whole_part() {
    let tenth = NodeSizing { multiplier: 1, divisor: 10, min: 5, max: 15 };
    assert_eq!(node_size(100_000_000, &tenth), 10);
    assert_eq!(node_size(109_999_999, &tenth), 10);
    assert_eq!(node_size(1_000_000_000, &tenth), 15);
    assert_eq!(node_size(20_000_000, &tenth), 5);
    assert_eq!(node_size(-100_000_000, &tenth), 5);
    let twenty = NodeSizing { multiplier: 20, divisor: 1, min: 5, max: 20 };
    assert_eq!(node_size(1_000_000, &twenty), 20);
    assert_eq!(node_size(444_444, &twenty), 8);
    assert_eq!(node_size(0, &twenty), 5);
    let ten = NodeSizing { multiplier: 10, divisor: 1, min: 3, max: 10 };
    assert_eq!(node_size(450_000, &ten), 4);
    assert_eq!(node_size(5_000_000, &ten), 10);
    let hundredth = NodeSizing { multiplier: 1, divisor: 100, min: 3, max: 10 };
    assert_eq!(node_size(650_000_000, &hundredth), 6);
}

#[test]
fn node_size_rounds_towards_zero_and_never_overflows() {
    let signed = NodeSizing { multiplier: 1, divisor: 1, min: -10, max: 10 };
    assert_eq!(node_size(-1_500_000, &signed), -1);
    assert_eq!(node_size(-999_999, &signed), 0);
    assert_eq!(node_size(1_999_999, &signed), 1);
    assert_eq!(node_size(i128::MAX, &signed), 10);
    assert_eq!(node_size(i128::MIN, &signed), -10);
    let wide = NodeSizing { multiplier: u16::MAX, divisor: u16::MAX, min: i32::MIN, max: i32::MAX };
    assert_eq!(node_size(i128::MAX, &wide), i32::MAX);
    assert_eq!(node_size(i128::MIN, &wide), i32::MIN);
    assert_eq!(node_size(7_000_000, &wide), 7);
    assert_eq!(node_size(-7_000_000, &wide), -7);
}
