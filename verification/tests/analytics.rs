use lob_engine::analytics::{FixedHistogram, FixedSeries, StrategyMetrics};

#[test]
fn fixed_series_keeps_last_n_values_without_heap_growth() {
    let mut series = FixedSeries::<3>::new();
    series.push(1);
    series.push(2);
    series.push(3);
    series.push(4);

    assert_eq!(series.as_slice(), &[2, 3, 4]);
}

#[test]
fn fill_ratio_uses_basis_points() {
    let metrics = StrategyMetrics {
        pnl_cents: 0,
        slippage_cents: 0,
        inventory: 0,
        max_inventory: 0,
        fills: 3,
        orders: 8,
        adverse_selection_cents: 0,
        queue_ahead_shares: 0,
    };

    assert_eq!(metrics.fill_ratio_bps(), 3_750);
}

fn metrics_with(fills: u32, orders: u32) -> StrategyMetrics {
    StrategyMetrics {
        pnl_cents: 0,
        slippage_cents: 0,
        inventory: 0,
        max_inventory: 0,
        fills,
        orders,
        adverse_selection_cents: 0,
        queue_ahead_shares: 0,
    }
}

#[test]
fn fill_ratio_without_orders_is_zero() {
    assert_eq!(metrics_with(5, 0).fill_ratio_bps(), 0);
    assert_eq!(metrics_with(8, 8).fill_ratio_bps(), 10_000);
    assert_eq!(metrics_with(1, 3).fill_ratio_bps(), 3_333);
}

#[test]
fn fixed_series_below_capacity_keeps_everything() {
    let mut series = FixedSeries::<4>::default();
    assert!(series.is_empty());
    series.push(-7);
    series.push(9);
    assert_eq!(series.len(), 2);
    assert!(!series.is_empty());
    assert_eq!(series.as_slice(), &[-7, 9]);
}

#[test]
fn fixed_series_of_zero_capacity_stays_empty() {
    let mut series = FixedSeries::<0>::new();
    series.push(1);
    series.push(2);
    assert!(series.is_empty());
    assert_eq!(series.as_slice(), &[] as &[i64]);
}

#[test]
fn histogram_clamps_to_edge_bins() {
    let mut hist = FixedHistogram::<4>::new(0, 10);
    hist.observe(-25);
    hist.observe(0);
    hist.observe(15);
    hist.observe(39);
    hist.observe(1_000);
    assert_eq!(hist.bins(), &[2, 1, 0, 2]);
}

#[test]
fn histogram_truncates_toward_zero() {
    let mut hist = FixedHistogram::<3>::new(-10, 4);
    // (-13 + 10) / 4 truncates to 0, so the value lands in the first bin.
    hist.observe(-13);
    hist.observe(-2);
    assert_eq!(hist.bins(), &[1, 0, 1]);
}

#[test]
fn histogram_with_non_positive_width_ignores_values() {
    let mut hist = FixedHistogram::<2>::new(0, 0);
    hist.observe(5);
    assert_eq!(hist.bins(), &[0, 0]);
}
