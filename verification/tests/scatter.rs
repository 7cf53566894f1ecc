use metric_graph::dataset::MetricRecord;
use metric_graph::scatter::create_scatter_plot;

fn rows(items: &[(&str, i64)]) -> Vec<MetricRecord> {
    items
        .iter()
        .map(|(c, v)| MetricRecord { country: c.to_string(), value: *v })
        .collect()
}

#[test]
fn scatter_pairs_revenue_with_rate_in_order_of_the_rates() {
    let tourism = rows(&[("A", 10), ("B", 20), ("C", 30)]);
    let unemployment = rows(&[("C", 3), ("X", 9), ("A", 1)]);
    let plot = create_scatter_plot(&tourism, &unemployment);
    assert_eq!(plot.points, vec![(30, 3), (10, 1)]);
}

#[test]
fn scatter_takes_the_last_revenue_of_a_country() {
    let tourism = rows(&[("A", 10), ("A", -20)]);
    let unemployment = rows(&[("A", 0), ("A", 5)]);
    let plot = create_scatter_plot(&tourism, &unemployment);
    assert_eq!(plot.points, vec![(-20, 0), (-20, 5)]);
}

#[test]
fn scatter_frame_is_fixed() {
    let plot = create_scatter_plot(&rows(&[]), &rows(&[]));
    assert!(plot.points.is_empty());
    assert_eq!(plot.caption, "Tourism Revenue vs Unemployment Rate");
    assert_eq!((plot.width, plot.height), (800, 600));
    assert_eq!((plot.x_max, plot.y_max, plot.dot), (120, 50, 5));
}
