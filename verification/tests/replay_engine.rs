use lob_engine::market_events::{MarketEvent, Side};
use lob_engine::orderbook::{BookError, Level, OrderBook, Snapshot};
use lob_engine::replay_engine::{deterministic_replay_hash, ReplayEngine};

#[test]
fn same_replay_twice_has_identical_hash() {
    let events = vec![
        MarketEvent::AddLimit { ts: 1, order_id: 1, side: Side::Buy, price: 100, qty: 100 },
        MarketEvent::AddLimit { ts: 2, order_id: 2, side: Side::Sell, price: 101, qty: 50 },
        MarketEvent::PartialCancel { ts: 3, order_id: 1, side: Side::Buy, price: 100, qty: 20 },
    ];

    let left = deterministic_replay_hash(&events, 10).unwrap();
    let right = deterministic_replay_hash(&events, 10).unwrap();

    assert_eq!(left, right);
}

#[test]
fn replay_stops_at_the_first_rejected_event() {
    let mut engine = ReplayEngine::new();
    let events = vec![
        MarketEvent::AddLimit { ts: 1, order_id: 1, side: Side::Buy, price: 100, qty: 10 },
        MarketEvent::FullDelete { ts: 2, order_id: 5, side: Side::Buy, price: 100, qty: 10 },
        MarketEvent::AddLimit { ts: 3, order_id: 2, side: Side::Buy, price: 99, qty: 10 },
    ];
    assert_eq!(engine.replay(&events), Err(BookError::UnknownOrder(5)));
    let book = engine.into_book();
    assert_eq!(book.snapshot(2).bids[0].qty, 10);
    assert_eq!(book.snapshot(2).bids[1].qty, 0);
    assert_eq!(deterministic_replay_hash(&events, 2), Err(BookError::UnknownOrder(5)));
}

#[test]
fn lobster_deltas_reduce_unknown_orders_anonymously() {
    let seed = Snapshot {
        asks: vec![Level { price: 101, qty: 40 }],
        bids: vec![Level { price: 100, qty: 25 }],
    };
    let mut engine = ReplayEngine::with_book(OrderBook::from_snapshot(&seed));
    let deltas = vec![
        MarketEvent::PartialCancel { ts: 1, order_id: 777, side: Side::Sell, price: 101, qty: 15 },
        MarketEvent::AddLimit { ts: 2, order_id: 8, side: Side::Buy, price: 100, qty: 5 },
        MarketEvent::VisibleExecution { ts: 3, order_id: 778, qty: 20, price: 100, side: Side::Buy },
    ];
    engine.replay_lobster_deltas(&deltas).unwrap();
    let snapshot = engine.snapshot(1);
    assert_eq!(snapshot.asks, vec![Level { price: 101, qty: 25 }]);
    assert_eq!(snapshot.bids, vec![Level { price: 100, qty: 10 }]);
}
