use metric_graph::dataset::MetricRecord;
use metric_graph::layout::{node_angle, FULL_TURN};
use metric_graph::scene::{scene_nodes, NodeSizing};

fn angles(count: usize) -> Vec<i64> {
    (0..count).map(|i| node_angle(i, count)).collect()
}

#[test]
fn full_turn_is_360_degrees() {
    assert_eq!(FULL_TURN, 360_000_000);
}

#[test]
fn four_nodes_lie_at_quarter_turns() {
    assert_eq!(angles(4), vec![0, 90_000_000, 180_000_000, 270_000_000]);
}

#[test]
fn single_node_lies_at_angle_zero() {
    assert_eq!(angles(1), vec![0]);
}

#[test]
fn no_nodes_no_angles() {
    assert_eq!(angles(0), Vec::<i64>::new());
    let none: Vec<MetricRecord> = Vec::new();
    let sizing = NodeSizing { multiplier: 1, divisor: 1, min: 1, max: 2 };
    assert!(scene_nodes(&none, &sizing).is_empty());
}

#[test]
fn seven_nodes_are_spread_evenly_rounded_down() {
    assert_eq!(
        angles(7),
        vec![0, 51_428_571, 102_857_142, 154_285_714, 205_714_285, 257_142_857, 308_571_428]
    );
}

#[test]
fn angles_stay_within_one_turn() {
    for count in [1usize, 2, 3, 5, 360, 1_000_003, usize::MAX] {
        for index in [0, count / 2, count - 1] {
            let a = node_angle(index, count);
            assert!(0 <= a && a < FULL_TURN);
        }
        assert_eq!(node_angle(0, count), 0);
    }
    assert_eq!(node_angle(usize::MAX - 1, usize::MAX), 359_999_999);
}

#[test]
fn nodes_carry_the_angle_of_their_position() {
    let data: Vec<MetricRecord> = ["A", "B", "C", "D"]
        .iter()
        .map(|c| MetricRecord { country: c.to_string(), value: 5_000_000 })
        .collect();
    let sizing = NodeSizing { multiplier: 1, divisor: 1, min: 1, max: 9 };
    let placed: Vec<i64> = scene_nodes(&data, &sizing).iter().map(|n| n.angle).collect();
    assert_eq!(placed, vec![0, 90_000_000, 180_000_000, 270_000_000]);
}

#[test]
fn positions_of_four_nodes_lie_on_the_axes_at_the_radius() {
    let radius = 200.0_f64;
    let places: Vec<(i32, i32)> = angles(4)
        .iter()
        .map(|a| (*a as f64 / 1_000_000.0).to_radians())
        .map(|t| ((radius * t.cos()).round() as i32, (radius * t.sin()).round() as i32))
        .collect();
    assert_eq!(places, vec![(200, 0), (0, 200), (-200, 0), (0, -200)]);
    for a in angles(7) {
        let t = (a as f64 / 1_000_000.0).to_radians();
        let (x, y) = ((radius * t.cos()).round(), (radius * t.sin()).round());
        assert!(((x * x + y * y).sqrt() - radius).abs() <= 1.0);
    }
}
