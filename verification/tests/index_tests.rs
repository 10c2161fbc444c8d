//! Index construction, lookup, sibling discovery and query tests over
//! the 19-point fixture series.

use chart_index::chart::Chart;
use chart_index::point::Point;

use chrono::TimeZone;
use chrono::Utc;

/// Epoch milliseconds of 2018-01-01 at the given time of day.
fn ts(h: u32, m: u32, s: u32) -> i64 {
    Utc.with_ymd_and_hms(2018, 1, 1, h, m, s)
        .unwrap()
        .timestamp_millis()
}

/// A reading in thousandths, the fixed-point unit the fixtures use.
fn fx(v: f64) -> i64 {
    (v * 1000.0).round() as i64
}

const FIXTURE_VALUES: [f64; 19] = [
    5.0, 6.0, 7.0, 8.0, 9.0, 1.0, 2.0, 3.0, 4.0, 5.0, 6.0, 7.0, 8.0, 9.0, 1.0, 2.0, 3.0, 4.0,
    5.1,
];

/// Nineteen one-minute-spaced samples starting 09:10:00.
fn fixture_points() -> Vec<Point> {
    let mut points = Vec::new();
    for (i, v) in FIXTURE_VALUES.iter().enumerate() {
        points.push(Point::new(fx(*v), ts(9, 10 + i as u32, 0)));
    }
    points
}

fn fixture_chart(capacity: usize) -> Chart {
    let mut chart = Chart::new(fixture_points(), capacity);
    chart.build_index();
    chart
}

#[test]
fn it_gets_items_via_index() {
    let chart = fixture_chart(3);

    // Exact datapoint somewhere in the middle
    assert_eq!(chart.get_value(ts(9, 14, 0)), Some(fx(9.0)));

    // Interpolated somewhere in the middle (ie, not exactly on a datapoint)
    assert_eq!(chart.get_value(ts(9, 11, 30)), Some(fx(6.5)));

    // First datapoint of whole dataset
    assert_eq!(chart.get_value(ts(9, 10, 0)), Some(fx(5.0)));

    // Last datapoint of whole dataset
    assert_eq!(chart.get_value(ts(9, 28, 0)), Some(fx(5.1)));

    // In between two nodes
    assert_eq!(chart.get_value(ts(9, 22, 15)), Some(fx(8.25)));

    // Right after the start of second index node
    assert_eq!(chart.get_value(ts(9, 23, 15)), Some(fx(7.0)));

    // Right between the second and third index node
    assert_eq!(chart.get_value(ts(9, 24, 15)), Some(fx(1.25)));

    // Get value in middle of an index node
    assert_eq!(chart.get_value(ts(9, 20, 30)), Some(fx(6.5)));
}

#[test]
fn midpoint_interpolates_exactly() {
    let t0 = ts(9, 10, 0);
    let points = vec![Point::new(fx(5.0), t0), Point::new(fx(7.0), t0 + 60_000)];
    let mut chart = Chart::new(points, 1);
    chart.build_index();
    assert_eq!(chart.get_value(t0 + 30_000), Some(fx(6.0)));
    assert_eq!(chart.get_value(t0), Some(fx(5.0)));
    assert_eq!(chart.get_value(t0 + 60_000), Some(fx(7.0)));
}

#[test]
fn no_value_before_first_sample() {
    let chart = fixture_chart(3);
    assert_eq!(chart.get_value(ts(9, 0, 0)), None);
    assert_eq!(chart.get_value(ts(9, 9, 59)), None);
}

#[test]
fn forward_hold_after_last_sample() {
    let chart = fixture_chart(3);
    assert_eq!(chart.get_value(ts(9, 28, 1)), Some(fx(5.1)));
    assert_eq!(chart.get_value(ts(11, 0, 0)), Some(fx(5.1)));
}

#[test]
fn index_matches_flat_scan_for_all_capacities() {
    let n = FIXTURE_VALUES.len();
    for capacity in 1..=n {
        let chart = fixture_chart(capacity);
        let mut query = ts(9, 5, 0);
        let end = ts(9, 33, 0);
        while query <= end {
            assert_eq!(
                chart.get_value(query),
                chart.get_value_vec(query),
                "capacity {} query {}",
                capacity,
                query
            );
            query += 15_000;
        }
    }
}

#[test]
fn flat_scan_boundaries() {
    let chart = fixture_chart(3);
    assert_eq!(chart.get_value_vec(ts(9, 9, 59)), None);
    assert_eq!(chart.get_value_vec(ts(9, 10, 0)), Some(fx(5.0)));
    assert_eq!(chart.get_value_vec(ts(9, 30, 0)), Some(fx(5.1)));
    assert_eq!(chart.get_value_vec(ts(9, 11, 30)), Some(fx(6.5)));
}

#[test]
fn empty_series_has_no_values() {
    let mut chart = Chart::new(Vec::new(), 3);
    chart.build_index();
    assert_eq!(chart.get_value(ts(9, 10, 0)), None);
    assert_eq!(chart.get_value_vec(ts(9, 10, 0)), None);
}

#[test]
fn leaves_respect_capacity() {
    for capacity in 1..=6usize {
        let chart = fixture_chart(capacity);
        for node in &chart.index {
            if let Some(data) = &node.data {
                assert!(
                    data.len() <= capacity,
                    "capacity {} leaf holds {}",
                    capacity,
                    data.len()
                );
                assert!(node.timestamp.is_none());
            } else {
                assert!(node.timestamp.is_some());
            }
        }
    }
}

#[test]
fn sibling_walk_reconstructs_series() {
    for capacity in [1usize, 2, 3, 5, 19] {
        let chart = fixture_chart(capacity);
        // the leaf routed to for a timestamp before all data is the
        // leftmost leaf
        let mut leaf = chart.lookup_in_index(ts(9, 0, 0)).unwrap();
        let mut walked: Vec<Point> = Vec::new();
        loop {
            let data = chart.index[leaf].data.as_ref().unwrap();
            walked.extend(data.iter().cloned());
            match chart.get_node_more_than(leaf) {
                Some(next) => leaf = next,
                None => break,
            }
        }
        assert_eq!(walked, fixture_points(), "capacity {}", capacity);
    }
}

#[test]
fn sibling_round_trip_returns_same_leaf() {
    let chart = fixture_chart(3);
    for handle in 0..chart.index.len() {
        if chart.index[handle].data.is_none() {
            continue;
        }
        if let Some(before) = chart.get_node_less_than(handle) {
            assert_eq!(chart.get_node_more_than(before), Some(handle));
        }
        if let Some(after) = chart.get_node_more_than(handle) {
            assert_eq!(chart.get_node_less_than(after), Some(handle));
        }
    }
}

#[test]
fn interpolation_is_exact_at_endpoints() {
    let chart = fixture_chart(3);
    let before = Point::new(fx(8.0), ts(9, 22, 0));
    let after = Point::new(fx(9.0), ts(9, 23, 0));
    assert_eq!(
        chart.interpolate_between_points(ts(9, 22, 0), &before, &after),
        fx(8.0)
    );
    assert_eq!(
        chart.interpolate_between_points(ts(9, 23, 0), &before, &after),
        fx(9.0)
    );
    assert_eq!(
        chart.interpolate_between_points(ts(9, 22, 15), &before, &after),
        fx(8.25)
    );
}

#[test]
fn point_new_keeps_fields() {
    let p = Point::new(1234, 5678);
    assert_eq!(p.value, 1234);
    assert_eq!(p.timestamp, 5678);
}

#[test]
fn root_split_appends_its_two_halves_first() {
    let chart = fixture_chart(3);
    // the root became internal, wired to the two nodes appended first
    assert!(chart.index[0].timestamp.is_some());
    assert_eq!(chart.index[0].less, 1);
    assert_eq!(chart.index[0].more, 2);
    assert_eq!(chart.index[1].parent, 0);
    assert_eq!(chart.index[2].parent, 0);
    // split at the truncated mean of 19 one-minute-spaced samples:
    // nine minutes after the first sample
    assert_eq!(chart.index[0].timestamp, Some(ts(9, 19, 0)));
}

#[test]
fn rebalancing_a_fit_node_changes_nothing() {
    let mut chart = fixture_chart(19);
    // the whole series fits one leaf, so the tree is a single root leaf
    assert_eq!(chart.index.len(), 1);
    let snapshot = chart.index.clone();
    chart.rebalance_index_node(0);
    assert_eq!(chart.index, snapshot);
}
