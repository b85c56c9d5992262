use lob_engine::strategies::{
    inventory_aware_market_maker, latency_arbitrage_strategy, order_flow_imbalance_strategy,
    run_strategy_suite, CURVE_POINTS,
};

#[test]
fn suite_produces_all_strategy_reports() {
    let suite = run_strategy_suite();

    assert_eq!(suite.market_maker.name, "inventory_aware_market_maker");
    assert_eq!(suite.order_flow_imbalance.name, "order_flow_imbalance");
    assert_eq!(suite.latency_arbitrage.name, "toy_latency_arbitrage");
    assert!(!suite.market_maker.equity_curve_cents.is_empty());
}

#[test]
fn latency_arbitrage_benefits_from_queue_advantage() {
    let report = latency_arbitrage_strategy();

    assert!(report.metrics.pnl_cents > 0);
    assert!(report.metrics.queue_ahead_shares > 1_000_000);
}

#[test]
fn market_maker_demo_figures() {
    let report = inventory_aware_market_maker();
    assert_eq!(report.metrics.pnl_cents, 1_250);
    assert_eq!(report.metrics.fill_ratio_bps(), 2_968);
    assert_eq!(report.metrics.orders, 128);
    assert_eq!(report.metrics.queue_ahead_shares, 420);
    assert_eq!(report.equity_curve_cents.len(), CURVE_POINTS);
    assert_eq!(
        *report.equity_curve_cents.as_slice().last().unwrap(),
        report.metrics.pnl_cents
    );
}

#[test]
fn imbalance_strategy_sends_one_order_per_step() {
    let report = order_flow_imbalance_strategy();
    assert_eq!(report.metrics.orders, 64);
    assert_eq!(report.metrics.slippage_cents, 5 * i64::from(report.metrics.fills));
    assert_eq!(report.metrics.adverse_selection_cents, report.metrics.slippage_cents / 2);
    assert!(report.metrics.inventory >= 0);
    assert_eq!(report.equity_curve_cents.len(), CURVE_POINTS);
    assert_eq!(
        *report.equity_curve_cents.as_slice().last().unwrap(),
        report.metrics.pnl_cents
    );
}

#[test]
fn suite_is_deterministic() {
    assert_eq!(run_strategy_suite(), run_strategy_suite());
}
