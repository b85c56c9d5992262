use lob_engine::market_events::Side;
use lob_engine::orderbook::{BookError, Level, OrderBook, Snapshot, EMPTY_BID_PRICE};

#[test]
fn add_and_partial_cancel_keep_expected_top_levels() {
    let mut book = OrderBook::new();

    book.add_limit(1, Side::Buy, 100, 100).unwrap();
    book.add_limit(2, Side::Sell, 101, 50).unwrap();
    book.partial_cancel(1, 20).unwrap();

    assert_eq!(
        book.snapshot(1),
        Snapshot {
            asks: vec![Level { price: 101, qty: 50 }],
            bids: vec![Level { price: 100, qty: 80 }],
        }
    );
}

#[test]
fn fifo_aggregation_at_same_price() {
    let mut book = OrderBook::new();

    book.add_limit(1, Side::Buy, 100, 70).unwrap();
    book.add_limit(2, Side::Buy, 100, 30).unwrap();
    book.full_delete(1).unwrap();

    assert_eq!(book.snapshot(1).bids, vec![Level { price: 100, qty: 30 }]);
}

#[test]
fn rejects_crossed_add() {
    let mut book = OrderBook::new();

    book.add_limit(1, Side::Sell, 101, 50).unwrap();
    let err = book.add_limit(2, Side::Buy, 102, 10).unwrap_err();

    assert_eq!(err, BookError::CrossedBook { bid: 102, ask: 101 });
    assert_eq!(book.snapshot(1).asks, vec![Level { price: 101, qty: 50 }]);
    assert_eq!(
        book.snapshot(1).bids,
        vec![Level {
            price: EMPTY_BID_PRICE,
            qty: 0
        }]
    );
}

#[test]
fn stable_hash_is_fnv_over_asks_then_bids() {
    let empty = Snapshot { asks: vec![], bids: vec![] };
    assert_eq!(empty.stable_hash(), 0xcbf2_9ce4_8422_2325);
    let one = Snapshot { asks: vec![Level { price: -1, qty: 2 }], bids: vec![Level { price: 5, qty: 0 }] };
    let prime = 0x1000_0000_01b3_u64;
    let mut h = 0xcbf2_9ce4_8422_2325_u64;
    for (p, q) in [(-1_i64, 2_u32), (5, 0)] {
        h = (h ^ p as u64).wrapping_mul(prime);
        h = (h ^ u64::from(q)).wrapping_mul(prime);
    }
    assert_eq!(one.stable_hash(), h);
    assert_ne!(one.stable_hash(), Snapshot { asks: one.bids.clone(), bids: one.asks.clone() }.stable_hash());
}

#[test]
fn top_n_pads_and_truncates() {
    let s = Snapshot {
        asks: vec![Level { price: 101, qty: 1 }, Level { price: 102, qty: 2 }],
        bids: vec![],
    };
    let t = s.top_n(1);
    assert_eq!(t.asks, vec![Level { price: 101, qty: 1 }]);
    assert_eq!(t.bids, vec![Level { price: EMPTY_BID_PRICE, qty: 0 }]);
    assert_eq!(s.top_n(3).asks.len(), 3);
}
