//! Projection tests: windowing, the operation pipeline, and the small
//! supporting types.

use chart_index::chart::Chart;
use chart_index::point::Point;
use chart_index::point_index::PointIndex;
use chart_index::projection::PointPredicate;
use chart_index::projection::PointTransform;
use chart_index::projection::ProjectionAction;
use chart_index::projection::ProjectionDisposable;
use chart_index::projection::ProjectionOperation;
use chart_index::projection::ProjectionOperationKind;
use chart_index::projection::ProjectionOperationNode;
use chart_index::projection::ProjectionOperationResult;

use chrono::TimeZone;
use chrono::Utc;

fn ts(h: u32, m: u32, s: u32) -> i64 {
    Utc.with_ymd_and_hms(2018, 1, 1, h, m, s)
        .unwrap()
        .timestamp_millis()
}

fn fx(v: f64) -> i64 {
    (v * 1000.0).round() as i64
}

const FIXTURE_VALUES: [f64; 19] = [
    5.0, 6.0, 7.0, 8.0, 9.0, 1.0, 2.0, 3.0, 4.0, 5.0, 6.0, 7.0, 8.0, 9.0, 1.0, 2.0, 3.0, 4.0,
    5.1,
];

fn fixture_chart(capacity: usize) -> Chart {
    let mut points = Vec::new();
    for (i, v) in FIXTURE_VALUES.iter().enumerate() {
        points.push(Point::new(fx(*v), ts(9, 10 + i as u32, 0)));
    }
    let mut chart = Chart::new(points, capacity);
    chart.build_index();
    chart
}

#[test]
fn it_gets_items_within_projection() {
    let chart = fixture_chart(3);

    // Create a projection without operations
    let projection = chart.new_projection(
        ts(9, 13, 0), /* start */
        ts(9, 18, 0), /* end */
        vec![],
    );

    // Check datapoint within projection is correct
    let value = chart.get_value_projection(ts(9, 14, 0), Some(&projection));
    assert_eq!(value, Some(fx(9.0)));

    // Check datapoint outside projection is None
    let value = chart.get_value_projection(ts(9, 0, 0), Some(&projection));
    assert_eq!(value, None);
}

#[test]
fn projection_none_matches_plain_query() {
    let chart = fixture_chart(3);
    let mut query = ts(9, 5, 0);
    while query <= ts(9, 33, 0) {
        assert_eq!(chart.get_value_projection(query, None), chart.get_value(query));
        query += 30_000;
    }
}

#[test]
fn transform_set_value_rewrites_leaf() {
    let chart = fixture_chart(3);
    let operations = vec![ProjectionOperation {
        kind: ProjectionOperationKind::Transform(PointTransform::SetValue(1234)),
    }];
    let projection = chart.new_projection(ts(9, 13, 0), ts(9, 18, 0), operations);
    assert_eq!(
        chart.get_value_projection(ts(9, 14, 0), Some(&projection)),
        Some(1234)
    );
}

#[test]
fn transform_add_value_shifts_leaf() {
    let chart = fixture_chart(3);
    let operations = vec![ProjectionOperation {
        kind: ProjectionOperationKind::Transform(PointTransform::AddValue(fx(0.5))),
    }];
    let projection = chart.new_projection(ts(9, 13, 0), ts(9, 18, 0), operations);
    assert_eq!(
        chart.get_value_projection(ts(9, 14, 0), Some(&projection)),
        Some(fx(9.5))
    );
}

#[test]
fn filter_dropping_all_samples_gives_no_value() {
    let chart = fixture_chart(3);
    let operations = vec![ProjectionOperation {
        kind: ProjectionOperationKind::Filter(PointPredicate::ValueAtLeast(fx(100.0))),
    }];
    let projection = chart.new_projection(ts(9, 13, 0), ts(9, 18, 0), operations);
    assert_eq!(chart.get_value_projection(ts(9, 14, 0), Some(&projection)), None);
}

#[test]
fn filter_keeping_all_samples_changes_nothing() {
    let chart = fixture_chart(3);
    let operations = vec![ProjectionOperation {
        kind: ProjectionOperationKind::Filter(PointPredicate::ValueAtMost(fx(100.0))),
    }];
    let projection = chart.new_projection(ts(9, 13, 0), ts(9, 18, 0), operations);
    assert_eq!(
        chart.get_value_projection(ts(9, 14, 0), Some(&projection)),
        chart.get_value(ts(9, 14, 0))
    );
}

#[test]
fn operation_apply_reports_keep_replace_and_delete() {
    let leaf = PointIndex {
        timestamp: None,
        less: 0,
        more: 0,
        parent: 0,
        data: Some(vec![Point::new(10, 100), Point::new(20, 200)]),
    };
    let mut disposable = ProjectionDisposable::new();

    // identity-like transform: every sample keeps its value
    let keep_op = ProjectionOperation {
        kind: ProjectionOperationKind::Transform(PointTransform::AddValue(0)),
    };
    let res = keep_op.apply(&leaf, &mut disposable);
    assert_eq!(res.action, ProjectionAction::Keep);
    assert!(res.index.is_none());

    // a transform that changes a value materializes a replacement
    let replace_op = ProjectionOperation {
        kind: ProjectionOperationKind::Transform(PointTransform::AddValue(5)),
    };
    let res = replace_op.apply(&leaf, &mut disposable);
    assert_eq!(res.action, ProjectionAction::Replace);
    let idx = res.index.unwrap();
    let stored = disposable.get(idx);
    let stored_data = stored.data.as_ref().unwrap();
    assert_eq!(stored_data[0], Point::new(15, 100));
    assert_eq!(stored_data[1], Point::new(25, 200));

    // a filter that drops every sample deletes the node from the view
    let delete_op = ProjectionOperation {
        kind: ProjectionOperationKind::Filter(PointPredicate::ValueAtLeast(1000)),
    };
    let res = delete_op.apply(&leaf, &mut disposable);
    assert_eq!(res.action, ProjectionAction::Delete);

    // a partial filter materializes the kept subset
    let partial_op = ProjectionOperation {
        kind: ProjectionOperationKind::Filter(PointPredicate::ValueAtLeast(15)),
    };
    let res = partial_op.apply(&leaf, &mut disposable);
    assert_eq!(res.action, ProjectionAction::Replace);
    let stored = disposable.get(res.index.unwrap());
    let stored_data = stored.data.as_ref().unwrap();
    assert_eq!(stored_data.len(), 1);
    assert_eq!(stored_data[0], Point::new(20, 200));
}

#[test]
fn saturating_add_clamps_at_value_range() {
    let leaf = PointIndex {
        timestamp: None,
        less: 0,
        more: 0,
        parent: 0,
        data: Some(vec![Point::new(i64::MAX - 1, 100)]),
    };
    let mut disposable = ProjectionDisposable::new();
    let op = ProjectionOperation {
        kind: ProjectionOperationKind::Transform(PointTransform::AddValue(10)),
    };
    let res = op.apply(&leaf, &mut disposable);
    assert_eq!(res.action, ProjectionAction::Replace);
    let stored = disposable.get(res.index.unwrap());
    assert_eq!(stored.data.as_ref().unwrap()[0], Point::new(i64::MAX, 100));
}

#[test]
fn default_value_is_an_empty_leaf() {
    let sentinel = PointIndex::new_default_value();
    assert!(sentinel.timestamp.is_none());
    assert_eq!(sentinel.data.as_ref().unwrap().len(), 0);
}

#[test]
fn operation_results_carry_their_action() {
    let keep = ProjectionOperationResult::keep();
    assert_eq!(keep.action, ProjectionAction::Keep);
    assert!(keep.index.is_none());

    let replace = ProjectionOperationResult::replace(7);
    assert_eq!(replace.action, ProjectionAction::Replace);
    assert_eq!(replace.index, Some(7));

    let delete = ProjectionOperationResult::delete();
    assert_eq!(delete.action, ProjectionAction::Delete);
    assert!(delete.index.is_none());
}

#[test]
fn disposable_stores_and_returns_nodes() {
    let mut disposable = ProjectionDisposable::new();
    let node = PointIndex {
        timestamp: Some(42),
        less: 1,
        more: 2,
        parent: 3,
        data: None,
    };
    let idx = disposable.add(node);
    assert_eq!(idx, 0);
    let back = disposable.get(idx);
    assert_eq!(back.timestamp, Some(42));
    assert_eq!(back.less, 1);
    assert_eq!(back.more, 2);
    assert_eq!(back.parent, 3);
}

#[test]
fn operation_node_switches_to_side_table() {
    let original = PointIndex {
        timestamp: None,
        less: 0,
        more: 0,
        parent: 0,
        data: Some(vec![Point::new(1, 1)]),
    };
    let replacement = PointIndex {
        timestamp: None,
        less: 0,
        more: 0,
        parent: 0,
        data: Some(vec![Point::new(2, 2)]),
    };
    let mut disposable = ProjectionDisposable::new();
    let mut accumulator = ProjectionOperationNode::new(&original);
    assert_eq!(
        accumulator.value(&disposable).data.as_ref().unwrap()[0],
        Point::new(1, 1)
    );
    let idx = disposable.add(replacement);
    accumulator.update_index(idx);
    assert_eq!(
        accumulator.value(&disposable).data.as_ref().unwrap()[0],
        Point::new(2, 2)
    );
}
