use lob_engine::market_events::{MarketEvent, Side};
use lob_engine::matching_engine::{MatchingEngine, OrderKind, ReportStatus, TimeInForce};
use lob_engine::orderbook::{BookError, OrderBook};

fn uncrossed(book: &OrderBook) -> bool {
    let snapshot = book.snapshot(1);
    snapshot.bids[0].price < snapshot.asks[0].price
}

#[test]
fn add_then_delete_restores_the_book() {
    let mut book = OrderBook::new();
    book.add_limit(1, Side::Buy, 100, 10).unwrap();
    book.add_limit(2, Side::Sell, 105, 7).unwrap();
    let before = book.snapshot(5);
    book.add_limit(3, Side::Buy, 101, 4).unwrap();
    assert_ne!(book.snapshot(5), before);
    book.full_delete(3).unwrap();
    assert_eq!(book.snapshot(5), before);
    book.add_limit(4, Side::Buy, 100, 6).unwrap();
    book.full_delete(4).unwrap();
    assert_eq!(book.snapshot(5), before);
}

#[test]
fn book_never_crosses() {
    let mut book = OrderBook::new();
    let events = [
        MarketEvent::AddLimit { ts: 1, order_id: 1, side: Side::Buy, price: 100, qty: 10 },
        MarketEvent::AddLimit { ts: 2, order_id: 2, side: Side::Sell, price: 101, qty: 10 },
        MarketEvent::AddLimit { ts: 3, order_id: 3, side: Side::Sell, price: 100, qty: 10 },
        MarketEvent::AddLimit { ts: 4, order_id: 4, side: Side::Buy, price: 101, qty: 10 },
        MarketEvent::PartialCancel { ts: 5, order_id: 2, side: Side::Sell, price: 101, qty: 4 },
        MarketEvent::VisibleExecution { ts: 6, order_id: 1, qty: 10, price: 100, side: Side::Buy },
        MarketEvent::AddLimit { ts: 7, order_id: 5, side: Side::Buy, price: 100, qty: 1 },
    ];
    for event in &events {
        let _ = book.apply(event);
        assert!(uncrossed(&book));
    }
}

#[test]
fn rejected_events_leave_the_book_unchanged() {
    let mut book = OrderBook::new();
    book.add_limit(1, Side::Buy, 100, 10).unwrap();
    let before = book.snapshot(3);
    assert_eq!(book.partial_cancel(1, 11), Err(BookError::CancelExceedsResting { order_id: 1, resting: 10, requested: 11 }));
    assert_eq!(book.full_delete(9), Err(BookError::UnknownOrder(9)));
    assert_eq!(book.add_limit(1, Side::Buy, 99, 1), Err(BookError::DuplicateOrder(1)));
    assert_eq!(book.add_limit(2, Side::Buy, 99, 0), Err(BookError::InvalidQuantity));
    assert_eq!(book.snapshot(3), before);
}

#[test]
fn fok_trades_all_or_nothing() {
    let mut engine = MatchingEngine::new();
    engine.submit(1, 10, Side::Sell, 30, OrderKind::Limit { price: 101 }, TimeInForce::Gtc);
    engine.submit(2, 11, Side::Sell, 30, OrderKind::Limit { price: 102 }, TimeInForce::Gtc);
    let report = engine.submit(3, 20, Side::Buy, 60, OrderKind::Limit { price: 102 }, TimeInForce::Fok);
    assert_eq!(report.status, ReportStatus::Filled);
    assert_eq!(report.filled_qty, 60);
    assert_eq!(report.fills.len(), 2);
    assert_eq!(engine.resting_order_count(), 0);
}

#[test]
fn immediate_orders_never_rest_and_fills_respect_the_limit() {
    let mut engine = MatchingEngine::new();
    engine.submit(1, 10, Side::Sell, 30, OrderKind::Limit { price: 101 }, TimeInForce::Gtc);
    engine.submit(2, 11, Side::Sell, 30, OrderKind::Limit { price: 103 }, TimeInForce::Gtc);
    let report = engine.submit(3, 20, Side::Buy, 50, OrderKind::Limit { price: 102 }, TimeInForce::Ioc);
    assert_eq!(report.status, ReportStatus::PartiallyFilled);
    assert_eq!(report.filled_qty + report.remaining_qty, 50);
    assert!(report.fills.iter().all(|f| f.price <= 102 && f.qty > 0));
    assert_eq!(engine.resting_order_count(), 1);
    let cancel = engine.cancel(4, 20);
    assert_eq!(cancel.status, ReportStatus::Rejected);
}

#[test]
fn market_sweep_fills_best_price_first() {
    let mut engine = MatchingEngine::new();
    engine.submit(1, 10, Side::Buy, 5, OrderKind::Limit { price: 98 }, TimeInForce::Gtc);
    engine.submit(2, 11, Side::Buy, 5, OrderKind::Limit { price: 100 }, TimeInForce::Gtc);
    engine.submit(3, 12, Side::Buy, 5, OrderKind::Limit { price: 99 }, TimeInForce::Gtc);
    let report = engine.submit(4, 20, Side::Sell, 15, OrderKind::Market, TimeInForce::Ioc);
    let prices: Vec<i64> = report.fills.iter().map(|f| f.price).collect();
    assert_eq!(prices, vec![100, 99, 98]);
    assert_eq!(report.status, ReportStatus::Filled);
}

fn side_qty(levels: &[lob_engine::orderbook::Level]) -> u64 {
    levels.iter().map(|l| u64::from(l.qty)).sum()
}

#[test]
fn matching_moves_exactly_the_filled_quantity() {
    let mut engine = MatchingEngine::new();
    engine.submit(1, 10, Side::Sell, 30, OrderKind::Limit { price: 101 }, TimeInForce::Gtc);
    engine.submit(2, 11, Side::Sell, 30, OrderKind::Limit { price: 102 }, TimeInForce::Gtc);
    let before = engine.snapshot(10);
    let report = engine.submit(3, 20, Side::Buy, 70, OrderKind::Limit { price: 102 }, TimeInForce::Gtc);
    let after = engine.snapshot(10);
    assert_eq!(report.filled_qty, 60);
    assert_eq!(report.resting_price, Some(102));
    assert_eq!(side_qty(&before.asks) - side_qty(&after.asks), u64::from(report.filled_qty));
    assert_eq!(side_qty(&after.bids), side_qty(&before.bids) + u64::from(report.remaining_qty));
}

#[test]
fn book_events_move_the_quantity_they_name() {
    let mut book = OrderBook::new();
    book.add_limit(1, Side::Buy, 100, 10).unwrap();
    book.add_limit(2, Side::Sell, 103, 8).unwrap();
    let total = |b: &OrderBook| {
        let s = b.snapshot(10);
        side_qty(&s.asks) + side_qty(&s.bids)
    };
    assert_eq!(total(&book), 18);
    book.apply(&MarketEvent::PartialCancel { ts: 3, order_id: 1, side: Side::Buy, price: 100, qty: 4 }).unwrap();
    assert_eq!(total(&book), 14);
    book.apply(&MarketEvent::VisibleExecution { ts: 4, order_id: 2, qty: 3, price: 103, side: Side::Sell }).unwrap();
    assert_eq!(total(&book), 11);
    book.apply(&MarketEvent::FullDelete { ts: 5, order_id: 2, side: Side::Sell, price: 103, qty: 5 }).unwrap();
    assert_eq!(total(&book), 6);
    book.apply(&MarketEvent::HiddenExecution { ts: 6, order_id: 9, qty: 100, price: 100, side: Side::Buy }).unwrap();
    assert_eq!(total(&book), 6);
}

#[test]
fn seeding_from_a_clean_snapshot_reproduces_it() {
    use_snapshot_round_trip();
}

fn use_snapshot_round_trip() {
    let published = lob_engine::orderbook::Snapshot {
        asks: vec![
            lob_engine::orderbook::Level { price: 101, qty: 50 },
            lob_engine::orderbook::Level { price: lob_engine::orderbook::EMPTY_ASK_PRICE, qty: 0 },
        ],
        bids: vec![
            lob_engine::orderbook::Level { price: 100, qty: 80 },
            lob_engine::orderbook::Level { price: 98, qty: 3 },
        ],
    };
    let book = OrderBook::from_snapshot(&published);
    assert_eq!(book.snapshot(2), published);
}

#[test]
fn strategies_never_go_short() {
    let mm = lob_engine::strategies::inventory_aware_market_maker();
    let ofi = lob_engine::strategies::order_flow_imbalance_strategy();
    assert!(0 <= mm.metrics.inventory && mm.metrics.inventory <= mm.metrics.max_inventory);
    assert!(0 <= ofi.metrics.inventory && ofi.metrics.inventory <= ofi.metrics.max_inventory);
}

#[test]
fn formatted_rows_parse_back() {
    let s = lob_engine::orderbook::Snapshot {
        asks: vec![
            lob_engine::orderbook::Level { price: 101, qty: 50 },
            lob_engine::orderbook::Level { price: lob_engine::orderbook::EMPTY_ASK_PRICE, qty: 0 },
        ],
        bids: vec![
            lob_engine::orderbook::Level { price: -7, qty: 4_294_967_295 },
            lob_engine::orderbook::Level { price: lob_engine::orderbook::EMPTY_BID_PRICE, qty: 0 },
        ],
    };
    let row = lob_engine::validator::format_snapshot(&s);
    assert_eq!(lob_engine::validator::parse_snapshot_row(&row, 2, 9), Ok(s));
}

#[test]
fn add_limit_changes_only_its_level() {
    let mut book = OrderBook::new();
    book.add_limit(1, Side::Buy, 100, 10).unwrap();
    book.add_limit(2, Side::Buy, 98, 5).unwrap();
    book.add_limit(3, Side::Sell, 103, 7).unwrap();
    let before = book.snapshot(5);
    book.add_limit(4, Side::Buy, 100, 6).unwrap();
    let after = book.snapshot(5);
    assert_eq!(after.asks, before.asks);
    assert_eq!(after.bids[0], lob_engine::orderbook::Level { price: 100, qty: 16 });
    assert_eq!(after.bids[1], before.bids[1]);
    // Time priority: the older order at 100 is executed first.
    book.apply(&MarketEvent::VisibleExecution { ts: 9, order_id: 1, qty: 10, price: 100, side: Side::Buy }).unwrap();
    assert_eq!(book.snapshot(1).bids[0], lob_engine::orderbook::Level { price: 100, qty: 6 });
}

#[test]
fn matching_engine_books_never_cross() {
    let mut engine = MatchingEngine::new();
    let orders = [
        (1, Side::Sell, 10, 101),
        (2, Side::Buy, 4, 100),
        (3, Side::Buy, 15, 102),
        (4, Side::Sell, 20, 99),
        (5, Side::Buy, 3, 98),
    ];
    for (id, side, qty, price) in orders {
        engine.submit(id, id, side, qty, OrderKind::Limit { price }, TimeInForce::Gtc);
        let s = engine.snapshot(3);
        assert!(s.bids[0].price < s.asks[0].price);
        assert_eq!(s.asks.len(), 3);
    }
}
