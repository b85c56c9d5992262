use lob_engine::lab::{
    event_explanation, event_kind, event_ts, join_signed, latency_demo, latency_payload,
    levels_json, matching_demo, replay_payload, route_request, status_name, Route,
};
use lob_engine::latency_sim::{run_latency_race, AgentKind, ArrivalReport};
use lob_engine::market_events::{MarketEvent, Side};
use lob_engine::matching_engine::{ExecutionReport, ReportStatus};
use lob_engine::orderbook::{Level, Snapshot, EMPTY_ASK_PRICE};

#[test]
fn status_names() {
    assert_eq!(status_name(ReportStatus::Filled), "Filled");
    assert_eq!(status_name(ReportStatus::PartiallyFilled), "PartiallyFilled");
    assert_eq!(status_name(ReportStatus::Rested), "Rested");
    assert_eq!(status_name(ReportStatus::Canceled), "Canceled");
    assert_eq!(status_name(ReportStatus::Replaced), "Replaced");
    assert_eq!(status_name(ReportStatus::Expired), "Expired");
    assert_eq!(status_name(ReportStatus::Rejected), "Rejected");
}

#[test]
fn event_names_times_and_explanations() {
    let add = MarketEvent::AddLimit { ts: 9, order_id: 1, side: Side::Buy, price: 100, qty: 5 };
    let halt = MarketEvent::TradingHalt { ts: 77 };
    let hidden = MarketEvent::HiddenExecution { ts: 3, order_id: 2, qty: 1, price: 5, side: Side::Sell };
    assert_eq!(event_kind(&add), "AddLimit");
    assert_eq!(event_kind(&halt), "TradingHalt");
    assert_eq!(event_kind(&hidden), "HiddenExecution");
    assert_eq!(event_ts(&add), 9);
    assert_eq!(event_ts(&halt), 77);
    assert_eq!(event_explanation(&add), "passive liquidity joins a FIFO price queue");
    assert_eq!(event_explanation(&halt), "halt event duplicates visible book state");
}

#[test]
fn levels_json_takes_the_first_levels() {
    let levels = [Level { price: 101, qty: 50 }, Level { price: -5, qty: 0 }, Level { price: 7, qty: 1 }];
    assert_eq!(levels_json(&levels, 2), "{\"price\":101,\"qty\":50},{\"price\":-5,\"qty\":0}");
    assert_eq!(levels_json(&levels, 10), "{\"price\":101,\"qty\":50},{\"price\":-5,\"qty\":0},{\"price\":7,\"qty\":1}");
    assert_eq!(levels_json(&levels, 0), "");
}

#[test]
fn replay_payload_shape() {
    let event = MarketEvent::FullDelete { ts: 12, order_id: 4, side: Side::Sell, price: 101, qty: 3 };
    let snapshot = Snapshot {
        asks: vec![Level { price: 101, qty: 2 }],
        bids: vec![Level { price: 100, qty: 8 }],
    };
    assert_eq!(
        replay_payload(3, &event, &snapshot),
        "{\"type\":\"replay\",\"index\":3,\"eventKind\":\"FullDelete\",\"timestampNs\":12,\"explanation\":\"a resting order leaves the queue\",\"asks\":[{\"price\":101,\"qty\":2}],\"bids\":[{\"price\":100,\"qty\":8}]}"
    );
}

#[test]
fn latency_payload_shape() {
    let report = ArrivalReport {
        agent_id: 1,
        agent_kind: AgentKind::RemoteTrader,
        send_ts: 10,
        arrival_ts: 30,
        latency_ns: 20,
        report: ExecutionReport {
            ts: 30,
            order_id: 8,
            status: ReportStatus::Expired,
            filled_qty: 0,
            remaining_qty: 5,
            resting_price: None,
            fills: Vec::new(),
            reason: None,
        },
    };
    assert_eq!(
        latency_payload(0, &report),
        "{\"type\":\"latency\",\"seq\":1,\"agent\":\"remote_trader\",\"latencyNs\":20,\"arrivalTs\":30,\"orderId\":8,\"filledQty\":0,\"status\":\"Expired\"}"
    );
}

#[test]
fn signed_lists() {
    assert_eq!(join_signed(&[1, -2, 30]), "1,-2,30");
    assert_eq!(join_signed(&[]), "");
    assert_eq!(join_signed(&[i64::MIN]), "-9223372036854775808");
}

#[test]
fn matching_demo_figures() {
    let demo = matching_demo();
    assert_eq!(demo.fills, 2);
    assert_eq!(demo.filled_qty, 75);
    assert_eq!(demo.resting_orders, 1);
    assert_eq!(demo.best_bid, 10_200);
    assert_eq!(demo.best_bid_size, 25);
    assert_eq!(demo.best_ask, EMPTY_ASK_PRICE);
    assert_eq!(demo.best_ask_size, 0);
    let lines: Vec<&str> = demo.reports_json.split(",\n").collect();
    assert_eq!(lines.len(), 5);
    assert_eq!(
        lines[0],
        "      { \"seq\": 1, \"orderId\": 1001, \"status\": \"Rested\", \"filledQty\": 0, \"remainingQty\": 50, \"fills\": 0 }"
    );
    assert_eq!(
        lines[2],
        "      { \"seq\": 3, \"orderId\": 2001, \"status\": \"PartiallyFilled\", \"filledQty\": 75, \"remainingQty\": 25, \"fills\": 2 }"
    );
    assert_eq!(
        lines[3],
        "      { \"seq\": 4, \"orderId\": 3001, \"status\": \"Expired\", \"filledQty\": 0, \"remainingQty\": 500, \"fills\": 0 }"
    );
    assert_eq!(
        lines[4],
        "      { \"seq\": 5, \"orderId\": 3002, \"status\": \"Rejected\", \"filledQty\": 0, \"remainingQty\": 0, \"fills\": 0 }"
    );
}

#[test]
fn latency_demo_matches_the_race() {
    let demo = latency_demo();
    let race = run_latency_race(42);
    assert_eq!(demo.orders_sent, 60);
    assert_eq!(demo.orders_arrived, race.metrics.orders_arrived);
    assert_eq!(demo.colocated_wins, race.metrics.colocated_wins);
    assert_eq!(demo.avg_queue_advantage_ns, race.metrics.avg_queue_advantage_ns);
    let lines: Vec<&str> = demo.arrival_tape_json.split(",\n").collect();
    assert_eq!(lines.len(), 12);
    assert!(lines[0].starts_with("      { \"seq\": 1, \"agent\": \""));
    assert!(lines[11].starts_with("      { \"seq\": 12, "));
}

#[test]
fn requests_route_by_their_target() {
    assert_eq!(route_request("GET / HTTP/1.1\r\nHost: x\r\n\r\n"), Some(Route::Index));
    assert_eq!(route_request("GET /index.html HTTP/1.1"), Some(Route::Index));
    assert_eq!(route_request("GET  /api/summary   HTTP/1.1\n"), Some(Route::Summary));
    assert_eq!(route_request("GET /api/latency/stream HTTP/1.1\r\n"), Some(Route::LatencyStream));
    assert_eq!(route_request("GET /app.js"), Some(Route::Script));
    assert_eq!(route_request("GET /nope HTTP/1.1"), Some(Route::NotFound));
    assert_eq!(route_request("GET\n/ HTTP/1.1"), None);
    assert_eq!(route_request(""), None);
    assert_eq!(route_request("   "), None);
}
