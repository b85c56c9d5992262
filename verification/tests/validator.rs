use lob_engine::orderbook::{Level, Snapshot};
use lob_engine::validator::parse_snapshot_row;

#[test]
fn parses_snapshot_row() {
    let row = "101,50,100,80,102,20,99,10";
    let snapshot = parse_snapshot_row(row, 2, 1).unwrap();

    assert_eq!(
        snapshot,
        Snapshot {
            asks: vec![Level { price: 101, qty: 50 }, Level { price: 102, qty: 20 }],
            bids: vec![Level { price: 100, qty: 80 }, Level { price: 99, qty: 10 }],
        }
    );
}

#[test]
fn short_snapshot_row_is_rejected() {
    assert!(parse_snapshot_row("101,50,100", 1, 4).is_err());
}

