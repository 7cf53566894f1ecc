use metric_graph::dataset::{find_value, merge, normalize, quotient, MergedRecord, MetricRecord, NormalizedRecord};
use metric_graph::error::GraphError;

fn rows(items: &[(&str, i64)]) -> Vec<MetricRecord> {
    items
        .iter()
        .map(|(c, v)| MetricRecord { country: c.to_string(), value: *v })
        .collect()
}

fn scored(items: &[(&str, i128)]) -> Vec<MergedRecord> {
    items
        .iter()
        .map(|(c, s)| MergedRecord { country: c.to_string(), score: *s })
        .collect()
}

fn scaled(items: &[(&str, i64)]) -> Vec<NormalizedRecord> {
    items
        .iter()
        .map(|(c, s)| NormalizedRecord { country: c.to_string(), score: *s })
        .collect()
}

#[test]
fn merge_gives_ratio_per_country_in_both() {
    let primary = rows(&[("A", 100_000_000), ("B", 50_000_000), ("C", 10_000_000)]);
    let secondary = rows(&[("A", 10_000_000), ("B", 10_000_000), ("C", 10_000_000)]);
    assert_eq!(
        merge(&primary, &secondary),
        scored(&[("A", 10_000_000), ("B", 5_000_000), ("C", 1_000_000)])
    );
}

#[test]
fn merge_keeps_order_of_primary() {
    let primary = rows(&[("C", 3_000_000), ("A", 1_000_000), ("B", 2_000_000)]);
    let secondary = rows(&[("A", 1_000_000), ("B", 1_000_000), ("C", 1_000_000)]);
    let out = merge(&primary, &secondary);
    let names: Vec<&str> = out.iter().map(|r| r.country.as_str()).collect();
    assert_eq!(names, vec!["C", "A", "B"]);
}

#[test]
fn merge_drops_unmatched_countries_from_either_side() {
    let primary = rows(&[("A", 4_000_000), ("X", 9_000_000)]);
    let secondary = rows(&[("Y", 1_000_000), ("A", 2_000_000)]);
    assert_eq!(merge(&primary, &secondary), scored(&[("A", 2_000_000)]));
}

#[test]
fn merge_drops_non_positive_values() {
    let primary = rows(&[("A", 0), ("B", -5_000_000), ("C", 6_000_000), ("D", 6_000_000), ("E", 6_000_000)]);
    let secondary = rows(&[
        ("A", 1_000_000),
        ("B", 1_000_000),
        ("C", 0),
        ("D", -1_000_000),
        ("E", 3_000_000),
    ]);
    assert_eq!(merge(&primary, &secondary), scored(&[("E", 2_000_000)]));
}

#[test]
fn merge_later_secondary_duplicate_wins() {
    let primary = rows(&[("A", 8_000_000)]);
    let secondary = rows(&[("A", 2_000_000), ("A", 4_000_000)]);
    assert_eq!(merge(&primary, &secondary), scored(&[("A", 2_000_000)]));
    assert_eq!(find_value(&secondary, &"A".to_string()), Some(4_000_000));
    assert_eq!(find_value(&secondary, &"B".to_string()), None);
}

#[test]
fn merge_later_duplicate_that_is_not_positive_drops_the_country() {
    let primary = rows(&[("A", 8_000_000)]);
    let secondary = rows(&[("A", 2_000_000), ("A", 0)]);
    assert_eq!(merge(&primary, &secondary), scored(&[]));
}

#[test]
fn merge_keeps_primary_duplicates() {
    let primary = rows(&[("A", 8_000_000), ("A", 2_000_000)]);
    let secondary = rows(&[("A", 2_000_000)]);
    assert_eq!(
        merge(&primary, &secondary),
        scored(&[("A", 4_000_000), ("A", 1_000_000)])
    );
}

#[test]
fn merge_of_empty_inputs_is_empty() {
    assert_eq!(merge(&rows(&[]), &rows(&[("A", 1)])), scored(&[]));
    assert_eq!(merge(&rows(&[("A", 1)]), &rows(&[])), scored(&[]));
}

#[test]
fn merge_length_is_bounded_by_both_inputs() {
    let primary = rows(&[("A", 1_000_000), ("B", -1), ("C", 3_000_000), ("D", 4_000_000)]);
    let secondary = rows(&[("C", 1_000_000), ("A", 1_000_000), ("Z", 5)]);
    let out = merge(&primary, &secondary);
    let positive = primary.iter().filter(|r| r.value > 0).count();
    assert!(out.len() <= positive.min(secondary.len()));
    for r in &out {
        assert!(primary.iter().any(|p| p.country == r.country));
        assert!(secondary.iter().any(|s| s.country == r.country));
    }
    assert_eq!(out.len(), 2);
}

#[test]
fn quotient_rounds_down() {
    assert_eq!(quotient(1_000_000, 3_000_000), 333_333);
    assert_eq!(quotient(2_000_000, 3_000_000), 666_666);
    assert_eq!(quotient(1, 1_000_001), 0);
    assert_eq!(quotient(i64::MAX, 1), (i64::MAX as i128) * 1_000_000);
    assert_eq!(quotient(1, i64::MAX), 0);
}

#[test]
fn normalize_rescales_against_smallest_and_largest() {
    let merged = scored(&[("A", 10_000_000), ("B", 5_000_000), ("C", 1_000_000)]);
    assert_eq!(
        normalize(&merged),
        Ok(scaled(&[("A", 1_000_000), ("B", 444_444), ("C", 0)]))
    );
}

#[test]
fn normalize_of_nothing_is_nothing() {
    assert_eq!(normalize(&scored(&[])), Ok(scaled(&[])));
}

#[test]
fn normalize_of_equal_scores_is_degenerate() {
    assert_eq!(normalize(&scored(&[("A", 7)])), Err(GraphError::DegenerateDataset));
    assert_eq!(
        normalize(&scored(&[("A", 7), ("B", 7), ("C", 7)])),
        Err(GraphError::DegenerateDataset)
    );
}

#[test]
fn normalize_stays_in_unit_range() {
    let merged = scored(&[("A", -3), ("B", 0), ("C", 1), ("D", 2), ("E", i128::MAX), ("F", i128::MIN)]);
    let out = normalize(&merged).unwrap();
    assert_eq!(out.len(), merged.len());
    for r in &out {
        assert!(0 <= r.score && r.score <= 1_000_000);
    }
    assert_eq!(out[4].score, 1_000_000);
    assert_eq!(out[5].score, 0);
    // the range is one short of two to the 128th, and zero lies just above its middle
    assert_eq!(out[1].score, 500_000);
    assert_eq!(out[0].score, 499_999);
}

#[test]
fn normalize_rounds_down() {
    let thirds = scored(&[("A", 0), ("B", 1), ("C", 2), ("D", 3)]);
    let out = normalize(&thirds).unwrap();
    let scores: Vec<i64> = out.iter().map(|r| r.score).collect();
    assert_eq!(scores, vec![0, 333_333, 666_666, 1_000_000]);
    let sevenths = scored(&[("A", -7), ("B", -1), ("C", 0)]);
    let out = normalize(&sevenths).unwrap();
    let scores: Vec<i64> = out.iter().map(|r| r.score).collect();
    assert_eq!(scores, vec![0, 857_142, 1_000_000]);
}

#[test]
fn normalize_keeps_order_and_names() {
    let merged = scored(&[("B", 2), ("A", 4), ("C", 3)]);
    assert_eq!(
        normalize(&merged),
        Ok(scaled(&[("B", 0), ("A", 1_000_000), ("C", 500_000)]))
    );
}
