use std::sync::{Arc, Mutex};

use frogwatch_plotter::{Measurement, TimeSeriesPlot};

fn positions(plot: &TimeSeriesPlot) -> Vec<u64> {
    plot.plot_values().iter().map(|m| m.x).collect()
}

#[test]
fn new_store_is_empty() {
    let plot = TimeSeriesPlot::new(1000, 10);
    assert!(plot.plot_values().is_empty());
    assert_eq!(plot.fs(), 1000);
}

#[test]
fn window_is_rate_times_seconds() {
    assert_eq!(TimeSeriesPlot::new(1000, 10).max_points(), 10_000);
    assert_eq!(TimeSeriesPlot::new(3, 7).max_points(), 21);
    assert_eq!(TimeSeriesPlot::new(0, 7).max_points(), 0);
}

#[test]
fn window_stops_at_the_largest_value() {
    assert_eq!(TimeSeriesPlot::new(u64::MAX, 2).max_points(), u64::MAX);
    assert_eq!(TimeSeriesPlot::new(1 << 32, 1 << 32).max_points(), u64::MAX);
    assert_eq!(TimeSeriesPlot::new(1 << 32, (1 << 32) - 1).max_points(), u64::MAX - (1 << 32) + 1);
}

#[test]
fn add_keeps_the_samples_inside_the_window() {
    let mut plot = TimeSeriesPlot::new(1, 5);
    for t in 0..10u64 {
        plot.add(t, 100 + t);
        let from = t.saturating_sub(5);
        let expected: Vec<Measurement> =
            (from..=t).map(|x| Measurement { x, y: 100 + x }).collect();
        assert_eq!(plot.plot_values(), expected);
    }
    assert_eq!(positions(&plot), vec![4, 5, 6, 7, 8, 9]);
}

#[test]
fn add_evicts_by_position_not_by_count() {
    let mut plot = TimeSeriesPlot::new(2, 5);
    plot.add(0, 1);
    plot.add(3, 2);
    plot.add(10, 3);
    assert_eq!(positions(&plot), vec![0, 3, 10]);
    plot.add(13, 4);
    assert_eq!(positions(&plot), vec![3, 10, 13]);
    plot.add(100, 5);
    assert_eq!(positions(&plot), vec![100]);
}

#[test]
fn sample_on_the_edge_of_the_window_stays() {
    let mut plot = TimeSeriesPlot::new(1, 4);
    plot.add(6, 0);
    plot.add(10, 0);
    assert_eq!(positions(&plot), vec![6, 10]);
    plot.add(11, 0);
    assert_eq!(positions(&plot), vec![10, 11]);
}

#[test]
fn equal_positions_are_kept_in_arrival_order() {
    let mut plot = TimeSeriesPlot::new(1, 3);
    plot.add(7, 1);
    plot.add(7, 2);
    plot.add(7, 3);
    assert_eq!(
        plot.plot_values(),
        vec![
            Measurement { x: 7, y: 1 },
            Measurement { x: 7, y: 2 },
            Measurement { x: 7, y: 3 }
        ]
    );
}

#[test]
fn lower_position_clears_the_store() {
    let mut plot = TimeSeriesPlot::new(1000, 10);
    for t in 0..50u64 {
        plot.add(t, t);
    }
    assert_eq!(plot.plot_values().len(), 50);
    plot.add(49, 1);
    assert_eq!(plot.plot_values().len(), 51);
    plot.add(48, 2);
    assert_eq!(plot.plot_values(), vec![Measurement { x: 48, y: 2 }]);
    plot.add(0, 3);
    assert_eq!(plot.plot_values(), vec![Measurement { x: 0, y: 3 }]);
}

#[test]
fn zero_window_keeps_only_the_latest_position() {
    let mut plot = TimeSeriesPlot::new(0, 10);
    plot.add(1, 1);
    plot.add(2, 2);
    plot.add(2, 3);
    assert_eq!(
        plot.plot_values(),
        vec![Measurement { x: 2, y: 2 }, Measurement { x: 2, y: 3 }]
    );
}

#[test]
fn largest_window_never_evicts() {
    let mut plot = TimeSeriesPlot::new(u64::MAX, u64::MAX);
    plot.add(0, 0);
    plot.add(u64::MAX, 1);
    assert_eq!(positions(&plot), vec![0, u64::MAX]);
}

#[test]
fn update_history_leaves_the_snapshot_alone() {
    let mut plot = TimeSeriesPlot::new(2, 5);
    for t in 0..=10u64 {
        plot.add(t, t);
    }
    let before = plot.plot_values();
    assert_eq!(before.len(), 11);
    plot.update_history_s(1);
    assert_eq!(plot.max_points(), 2);
    assert_eq!(plot.fs(), 2);
    assert_eq!(plot.plot_values(), before);
    plot.add(11, 11);
    assert_eq!(positions(&plot), vec![9, 10, 11]);
}

#[test]
fn longer_history_does_not_bring_samples_back() {
    let mut plot = TimeSeriesPlot::new(1, 2);
    for t in 0..6u64 {
        plot.add(t, t);
    }
    assert_eq!(positions(&plot), vec![3, 4, 5]);
    plot.update_history_s(100);
    assert_eq!(positions(&plot), vec![3, 4, 5]);
    plot.add(6, 6);
    assert_eq!(positions(&plot), vec![3, 4, 5, 6]);
}

#[test]
fn values_pass_through_untouched() {
    let mut plot = TimeSeriesPlot::new(1000, 10);
    let readings = [0.5f64, -3.25, 1e300, f64::INFINITY, 0.0, -0.0];
    for (t, v) in readings.iter().enumerate() {
        plot.add(t as u64, v.to_bits());
    }
    let back: Vec<f64> = plot.plot_values().iter().map(|m| f64::from_bits(m.y)).collect();
    assert_eq!(back.len(), readings.len());
    for (a, b) in back.iter().zip(readings.iter()) {
        assert_eq!(a.to_bits(), b.to_bits());
    }
}

#[test]
fn snapshot_is_a_copy() {
    let mut plot = TimeSeriesPlot::new(1, 10);
    plot.add(1, 1);
    let snapshot = plot.plot_values();
    plot.add(2, 2);
    assert_eq!(snapshot, vec![Measurement { x: 1, y: 1 }]);
    assert_eq!(plot.plot_values().len(), 2);
}

#[test]
fn store_is_shared_behind_a_lock() {
    let writer = Arc::new(Mutex::new(TimeSeriesPlot::new(1, 2)));
    let reader = writer.clone();
    for t in 0..5u64 {
        writer.lock().unwrap().add(t, t);
        let snapshot = reader.lock().unwrap().plot_values();
        assert_eq!(snapshot.last(), Some(&Measurement { x: t, y: t }));
        assert!(snapshot.len() <= 3);
    }
    assert_eq!(positions(&reader.lock().unwrap()), vec![2, 3, 4]);
}

#[test]
fn add_next_counts_up_from_the_counter() {
    let mut plot = TimeSeriesPlot::new(1, 10);
    let mut t = 0u64;
    for value in [7u64, 8, 9] {
        plot.add_next(&mut t, value);
    }
    assert_eq!(t, 3);
    assert_eq!(
        plot.plot_values(),
        vec![
            Measurement { x: 0, y: 7 },
            Measurement { x: 1, y: 8 },
            Measurement { x: 2, y: 9 }
        ]
    );
}

#[test]
fn counter_from_zero_restarts_the_store() {
    let mut plot = TimeSeriesPlot::new(1, 10);
    let mut first = 0u64;
    for value in 0..5u64 {
        plot.add_next(&mut first, value);
    }
    assert_eq!(plot.plot_values().len(), 5);
    let mut second = 0u64;
    plot.add_next(&mut second, 42);
    assert_eq!(plot.plot_values(), vec![Measurement { x: 0, y: 42 }]);
    assert_eq!(second, 1);
}

#[test]
fn counter_stays_at_the_largest_position() {
    let mut plot = TimeSeriesPlot::new(1, 1);
    let mut t = u64::MAX - 1;
    plot.add_next(&mut t, 1);
    assert_eq!(t, u64::MAX);
    plot.add_next(&mut t, 2);
    assert_eq!(t, u64::MAX);
    plot.add_next(&mut t, 3);
    assert_eq!(positions(&plot), vec![u64::MAX - 1, u64::MAX, u64::MAX]);
}
