use lob_engine::market_events::Side;
use lob_engine::matching_engine::{MatchingEngine, OrderKind, ReportStatus, TimeInForce};
use lob_engine::orderbook::Level;

#[test]
fn limit_crosses_and_rests_residual_with_fifo_fills() {
    let mut engine = MatchingEngine::new();
    engine.submit(1, 10, Side::Sell, 50, OrderKind::Limit { price: 101 }, TimeInForce::Gtc);
    engine.submit(2, 11, Side::Sell, 25, OrderKind::Limit { price: 101 }, TimeInForce::Gtc);

    let report = engine.submit(
        3,
        20,
        Side::Buy,
        100,
        OrderKind::Limit { price: 102 },
        TimeInForce::Gtc,
    );

    assert_eq!(report.status, ReportStatus::PartiallyFilled);
    assert_eq!(report.filled_qty, 75);
    assert_eq!(report.remaining_qty, 25);
    assert_eq!(report.resting_price, Some(102));
    assert_eq!(report.fills[0].resting_order_id, 10);
    assert_eq!(report.fills[1].resting_order_id, 11);
    assert_eq!(engine.snapshot(1).bids, vec![Level { price: 102, qty: 25 }]);
}

#[test]
fn ioc_expires_unfilled_remainder() {
    let mut engine = MatchingEngine::new();
    engine.submit(1, 10, Side::Sell, 40, OrderKind::Limit { price: 101 }, TimeInForce::Gtc);

    let report = engine.submit(2, 20, Side::Buy, 100, OrderKind::Market, TimeInForce::Ioc);

    assert_eq!(report.status, ReportStatus::PartiallyFilled);
    assert_eq!(report.filled_qty, 40);
    assert_eq!(report.remaining_qty, 60);
    assert_eq!(engine.resting_order_count(), 0);
}

#[test]
fn fok_rejects_without_mutating_when_not_fillable() {
    let mut engine = MatchingEngine::new();
    engine.submit(1, 10, Side::Sell, 40, OrderKind::Limit { price: 101 }, TimeInForce::Gtc);

    let report = engine.submit(
        2,
        20,
        Side::Buy,
        100,
        OrderKind::Limit { price: 101 },
        TimeInForce::Fok,
    );

    assert_eq!(report.status, ReportStatus::Rejected);
    assert_eq!(engine.snapshot(1).asks, vec![Level { price: 101, qty: 40 }]);
}

#[test]
fn cancel_and_replace_update_resting_book() {
    let mut engine = MatchingEngine::new();
    engine.submit(1, 10, Side::Buy, 100, OrderKind::Limit { price: 100 }, TimeInForce::Gtc);

    let replaced = engine.replace(2, 10, 70, 99, TimeInForce::Gtc);
    assert_eq!(replaced.status, ReportStatus::Replaced);
    assert_eq!(engine.snapshot(1).bids, vec![Level { price: 99, qty: 70 }]);

    let canceled = engine.cancel(3, 10);
    assert_eq!(canceled.status, ReportStatus::Canceled);
    assert_eq!(engine.resting_order_count(), 0);
}
