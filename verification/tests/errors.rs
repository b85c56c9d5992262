use lob_engine::lobster_parser::parse_message_row;
use lob_engine::market_events::{MarketEvent, Side};
use lob_engine::matching_engine::{MatchingEngine, MatchingError, OrderKind, ReportStatus, TimeInForce};
use lob_engine::orderbook::{BookError, Level, OrderBook, Snapshot};
use lob_engine::replay_engine::ReplayEngine;
use lob_engine::validator::{format_snapshot, parse_snapshot_row, validate_lobster, ValidationError};

fn one_level(ask: (i64, u32), bid: (i64, u32)) -> Snapshot {
    Snapshot {
        asks: vec![Level { price: ask.0, qty: ask.1 }],
        bids: vec![Level { price: bid.0, qty: bid.1 }],
    }
}

#[test]
fn book_error_messages() {
    assert_eq!(BookError::CrossedBook { bid: 102, ask: 101 }.to_string(), "crossed book: bid 102 >= ask 101");
    assert_eq!(
        BookError::CancelExceedsResting { order_id: 1, resting: 10, requested: 11 }.to_string(),
        "cancel for order 1 exceeds resting qty: requested 11, resting 10"
    );
    assert_eq!(BookError::UnknownOrder(7).to_string(), "unknown order id 7");
    assert_eq!(BookError::InvalidQuantity.to_string(), "quantity must be positive");
}

#[test]
fn matching_rejections_carry_their_reason() {
    let mut engine = MatchingEngine::new();
    engine.submit(1, 10, Side::Sell, 30, OrderKind::Limit { price: 101 }, TimeInForce::Gtc);
    let fok = engine.submit(2, 20, Side::Buy, 60, OrderKind::Limit { price: 101 }, TimeInForce::Fok);
    assert_eq!(fok.status, ReportStatus::Rejected);
    assert_eq!(fok.reason.as_deref(), Some("FOK order not fillable: requested 60, available 30"));
    let market = engine.submit(3, 21, Side::Buy, 5, OrderKind::Market, TimeInForce::Gtc);
    assert_eq!(market.reason.as_deref(), Some("market orders cannot rest"));
    let dup = engine.submit(4, 10, Side::Buy, 5, OrderKind::Market, TimeInForce::Ioc);
    assert_eq!(dup.reason.as_deref(), Some("duplicate order id 10"));
    let zero = engine.submit(5, 22, Side::Buy, 0, OrderKind::Market, TimeInForce::Ioc);
    assert_eq!(zero.reason.as_deref(), Some("quantity must be positive"));
    let unknown = engine.replace(6, 99, 5, 100, TimeInForce::Gtc);
    assert_eq!(unknown.reason.as_deref(), Some("unknown order id 99"));
    assert_eq!(MatchingError::MarketOrderCannotRest.to_string(), "market orders cannot rest");
    assert_eq!(engine.resting_order_count(), 1);
}

#[test]
fn parse_errors_quote_the_field() {
    let err = parse_message_row("34200.1,1,abc,5,100,1").unwrap_err();
    assert_eq!(err.to_string(), "message parse error on line 1: invalid order id: abc");
    let err = parse_message_row("34200.1,1,5,5,100,2").unwrap_err();
    assert_eq!(err.to_string(), "message parse error on line 1: invalid side direction 2");
    let err = parse_message_row("34200.1,1,5,5,100,1,9").unwrap_err();
    assert_eq!(err.to_string(), "message parse error on line 1: expected exactly 6 columns");
}

#[test]
fn snapshot_row_errors() {
    let err = parse_snapshot_row("101,x,100,5", 1, 3).unwrap_err();
    assert_eq!(err.to_string(), "orderbook parse error on line 3: invalid quantity x");
    let err = parse_snapshot_row("101,1,100", 1, 4).unwrap_err();
    assert_eq!(err.to_string(), "orderbook parse error on line 4: expected 4 columns, found 3");
}

#[test]
fn validation_length_mismatch() {
    let events = [MarketEvent::TradingHalt { ts: 1 }];
    let err = validate_lobster(&events, &[]).unwrap_err();
    assert_eq!(err, ValidationError::LengthMismatch { events: 1, snapshots: 0 });
    assert_eq!(err.to_string(), "message/orderbook row count mismatch: 1 events, 0 snapshots");
    assert_eq!(validate_lobster(&[], &[]), Ok(()));
}

#[test]
fn validation_initial_mismatch() {
    let events = [MarketEvent::TradingHalt { ts: 1 }];
    let snapshots = [one_level((101, 0), (100, 5))];
    let err = validate_lobster(&events, &snapshots).unwrap_err();
    assert_eq!(
        err.to_string(),
        "Validation mismatch\nevent index: 0\nexpected snapshot: 101,0,100,5\nactual snapshot:   9999999999,0,100,5"
    );
}

#[test]
fn validation_halt_must_repeat_the_book() {
    let events = [MarketEvent::TradingHalt { ts: 1 }, MarketEvent::TradingHalt { ts: 2 }];
    let snapshots = [one_level((101, 5), (100, 5)), one_level((101, 4), (100, 5))];
    let err = validate_lobster(&events, &snapshots).unwrap_err();
    match &err {
        ValidationError::InvalidTransition { event_index, message, .. } => {
            assert_eq!(*event_index, 1);
            assert_eq!(message, "trading halt rows must duplicate the previous visible book");
        }
        other => panic!("unexpected error {other:?}"),
    }
}

#[test]
fn validation_checks_visible_quantity_deltas() {
    let events = [
        MarketEvent::TradingHalt { ts: 1 },
        MarketEvent::AddLimit { ts: 2, order_id: 9, side: Side::Sell, price: 101, qty: 3 },
    ];
    let snapshots = [one_level((101, 5), (100, 5)), one_level((101, 5), (100, 5))];
    let err = validate_lobster(&events, &snapshots).unwrap_err();
    match err {
        ValidationError::InvalidTransition { event_index, message, .. } => {
            assert_eq!(event_index, 1);
            assert_eq!(message, "visible quantity at Sell price 101 changed by 0, expected delta 3");
        }
        other => panic!("unexpected error {other:?}"),
    }
}

#[test]
fn validation_reports_replay_failures() {
    let events = [
        MarketEvent::TradingHalt { ts: 1 },
        MarketEvent::PartialCancel { ts: 2, order_id: 99, side: Side::Sell, price: 102, qty: 1 },
    ];
    let snapshots = [one_level((101, 5), (100, 5)), one_level((101, 5), (100, 5))];
    let err = validate_lobster(&events, &snapshots).unwrap_err();
    assert_eq!(
        err,
        ValidationError::Replay {
            event_index: 1,
            message: "execution for order 0 exceeds resting qty: requested 1, resting 0".to_string(),
        }
    );
}

#[test]
fn validation_accepts_consistent_rows() {
    let events = [
        MarketEvent::TradingHalt { ts: 1 },
        MarketEvent::AddLimit { ts: 2, order_id: 9, side: Side::Sell, price: 102, qty: 3 },
        MarketEvent::AddLimit { ts: 3, order_id: 10, side: Side::Sell, price: 101, qty: 2 },
    ];
    let snapshots = [
        one_level((101, 5), (100, 5)),
        one_level((101, 5), (100, 5)),
        one_level((101, 7), (100, 5)),
    ];
    assert_eq!(validate_lobster(&events, &snapshots), Ok(()));
}

#[test]
fn snapshot_rows_format_depth_by_depth() {
    let snapshot = Snapshot {
        asks: vec![Level { price: 101, qty: 50 }, Level { price: 102, qty: 20 }],
        bids: vec![Level { price: 100, qty: 80 }, Level { price: -3, qty: 10 }],
    };
    assert_eq!(format_snapshot(&snapshot), "101,50,100,80,102,20,-3,10");
}

#[test]
fn seeded_book_reproduces_its_snapshot() {
    let snapshot = Snapshot {
        asks: vec![Level { price: 101, qty: 50 }, Level { price: 102, qty: 20 }],
        bids: vec![Level { price: 100, qty: 80 }, Level { price: 99, qty: 10 }],
    };
    let book = OrderBook::from_snapshot(&snapshot);
    assert_eq!(book.snapshot(2), snapshot);
    let mut engine = ReplayEngine::with_book(book);
    engine
        .apply_lobster_delta(&MarketEvent::VisibleExecution { ts: 5, order_id: 12345, qty: 30, price: 101, side: Side::Sell })
        .unwrap();
    assert_eq!(engine.snapshot(1).asks, vec![Level { price: 101, qty: 20 }]);
}

#[test]
fn validation_fails_on_a_mismatch_inside_the_window() {
    let events = [
        MarketEvent::TradingHalt { ts: 1 },
        MarketEvent::AddLimit { ts: 2, order_id: 7, side: Side::Buy, price: 99, qty: 10 },
    ];
    let snapshots = [one_level((101, 50), (100, 80)), one_level((101, 50), (100, 70))];
    let err = validate_lobster(&events, &snapshots).unwrap_err();
    assert_eq!(
        err,
        ValidationError::Mismatch {
            event_index: 1,
            expected: one_level((101, 50), (100, 70)),
            actual: one_level((101, 50), (100, 80)),
        }
    );
}

#[test]
fn validation_resyncs_when_liquidity_reenters_the_window() {
    let events = [
        MarketEvent::TradingHalt { ts: 1 },
        MarketEvent::FullDelete { ts: 2, order_id: 55, side: Side::Sell, price: 101, qty: 5 },
        MarketEvent::PartialCancel { ts: 3, order_id: 56, side: Side::Sell, price: 103, qty: 4 },
    ];
    let snapshots = [
        one_level((101, 5), (100, 5)),
        one_level((103, 9), (100, 5)),
        one_level((103, 5), (100, 5)),
    ];
    assert_eq!(validate_lobster(&events, &snapshots), Ok(()));
}
