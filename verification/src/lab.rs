//! Integer-only report and stream payloads of the command line tool and the
//! live lab: status and event names, JSON fragments, and the matching and
//! latency demonstrations.
use vstd::prelude::*;
use crate::latency_sim::{
    kind_label, race_reports, race_schedule, metrics_spec, run_latency_race, ArrivalReport,
    ArrivalView, arrival_views,
};
use crate::market_events::{MarketEvent, Side};
use crate::matching_engine::{
    process_spec, ExecutionReport, MatchingEngine, OrderKind, OrderRequest, ReportStatus,
    ReportView, TimeInForce,
};
use crate::orderbook::{snapshot_spec, Level, Snapshot};
use crate::sides::BookView;
use crate::fields::{chars_of, is_whitespace, is_ws};
use crate::lobster_parser::{first_index, lemma_first_index, slice_chars};
use crate::text::{decimal, push_decimal, push_signed, push_str, signed_decimal};

verus! {

pub open spec fn status_text(status: ReportStatus) -> Seq<char> {
    match status {
        ReportStatus::Filled => "Filled"@,
        ReportStatus::PartiallyFilled => "PartiallyFilled"@,
        ReportStatus::Rested => "Rested"@,
        ReportStatus::Canceled => "Canceled"@,
        ReportStatus::Replaced => "Replaced"@,
        ReportStatus::Expired => "Expired"@,
        ReportStatus::Rejected => "Rejected"@,
    }
}

/// The name of a report status.
pub fn status_name(status: ReportStatus) -> (r: &'static str)
    ensures
        r@ == status_text(status),
{
    match status {
        ReportStatus::Filled => "Filled",
        ReportStatus::PartiallyFilled => "PartiallyFilled",
        ReportStatus::Rested => "Rested",
        ReportStatus::Canceled => "Canceled",
        ReportStatus::Replaced => "Replaced",
        ReportStatus::Expired => "Expired",
        ReportStatus::Rejected => "Rejected",
    }
}

pub open spec fn event_kind_text(e: MarketEvent) -> Seq<char> {
    match e {
        MarketEvent::AddLimit { .. } => "AddLimit"@,
        MarketEvent::PartialCancel { .. } => "PartialCancel"@,
        MarketEvent::FullDelete { .. } => "FullDelete"@,
        MarketEvent::VisibleExecution { .. } => "VisibleExecution"@,
        MarketEvent::HiddenExecution { .. } => "HiddenExecution"@,
        MarketEvent::TradingHalt { .. } => "TradingHalt"@,
    }
}

/// The name of an event's kind.
pub fn event_kind(event: &MarketEvent) -> (r: &'static str)
    ensures
        r@ == event_kind_text(*event),
{
    match event {
        MarketEvent::AddLimit { .. } => "AddLimit",
        MarketEvent::PartialCancel { .. } => "PartialCancel",
        MarketEvent::FullDelete { .. } => "FullDelete",
        MarketEvent::VisibleExecution { .. } => "VisibleExecution",
        MarketEvent::HiddenExecution { .. } => "HiddenExecution",
        MarketEvent::TradingHalt { .. } => "TradingHalt",
    }
}

pub open spec fn event_time(e: MarketEvent) -> u64 {
    match e {
        MarketEvent::AddLimit { ts, .. } => ts,
        MarketEvent::PartialCancel { ts, .. } => ts,
        MarketEvent::FullDelete { ts, .. } => ts,
        MarketEvent::VisibleExecution { ts, .. } => ts,
        MarketEvent::HiddenExecution { ts, .. } => ts,
        MarketEvent::TradingHalt { ts } => ts,
    }
}

/// The timestamp of an event.
pub fn event_ts(event: &MarketEvent) -> (r: u64)
    ensures
        r == event_time(*event),
{
    match event {
        MarketEvent::AddLimit { ts, .. } => *ts,
        MarketEvent::PartialCancel { ts, .. } => *ts,
        MarketEvent::FullDelete { ts, .. } => *ts,
        MarketEvent::VisibleExecution { ts, .. } => *ts,
        MarketEvent::HiddenExecution { ts, .. } => *ts,
        MarketEvent::TradingHalt { ts } => *ts,
    }
}

pub open spec fn explanation_text(e: MarketEvent) -> Seq<char> {
    match e {
        MarketEvent::AddLimit { .. } => "passive liquidity joins a FIFO price queue"@,
        MarketEvent::PartialCancel { .. } => "resting liquidity is reduced"@,
        MarketEvent::FullDelete { .. } => "a resting order leaves the queue"@,
        MarketEvent::VisibleExecution { .. } => "displayed liquidity is consumed"@,
        MarketEvent::HiddenExecution { .. } => "hidden liquidity executes without visible queue change"@,
        MarketEvent::TradingHalt { .. } => "halt event duplicates visible book state"@,
    }
}

/// A one-line explanation of what an event does to the book.
pub fn event_explanation(event: &MarketEvent) -> (r: &'static str)
    ensures
        r@ == explanation_text(*event),
{
    match event {
        MarketEvent::AddLimit { .. } => "passive liquidity joins a FIFO price queue",
        MarketEvent::PartialCancel { .. } => "resting liquidity is reduced",
        MarketEvent::FullDelete { .. } => "a resting order leaves the queue",
        MarketEvent::VisibleExecution { .. } => "displayed liquidity is consumed",
        MarketEvent::HiddenExecution { .. } => "hidden liquidity executes without visible queue change",
        MarketEvent::TradingHalt { .. } => "halt event duplicates visible book state",
    }
}

/// `parts` separated by `sep`.
pub open spec fn join(parts: Seq<Seq<char>>, sep: Seq<char>) -> Seq<char>
    decreases parts.len(),
{
    if parts.len() == 0 {
        Seq::empty()
    } else if parts.len() == 1 {
        parts[0]
    } else {
        join(parts.drop_last(), sep) + sep + parts.last()
    }
}

/// Joining one more part.
pub proof fn lemma_join_step(parts: Seq<Seq<char>>, sep: Seq<char>, i: int)
    requires
        0 <= i < parts.len(),
    ensures
        join(parts.take(i + 1), sep) == if i == 0 {
            parts[0]
        } else {
            join(parts.take(i), sep) + sep + parts[i]
        },
{
    let t = parts.take(i + 1);
    assert(t.drop_last() =~= parts.take(i));
    assert(t.last() == parts[i]);
    if i == 0 {
        assert(t[0] == parts[0]);
    }
}

pub open spec fn min_len(n: nat, m: nat) -> nat {
    if n < m {
        n
    } else {
        m
    }
}

/// `{"price":P,"qty":Q}`.
pub open spec fn level_text(l: Level) -> Seq<char> {
    "{\"price\":"@ + signed_decimal(l.price as int) + ",\"qty\":"@ + decimal(l.qty as nat) + "}"@
}

/// The first `take` levels as comma-separated JSON objects.
pub open spec fn levels_text(levels: Seq<Level>, take: nat) -> Seq<char> {
    join(levels.take(min_len(take, levels.len()) as int).map_values(|l: Level| level_text(l)), ","@)
}

/// The first `take` levels as comma-separated JSON objects.
pub fn levels_json(levels: &[Level], take: usize) -> (r: String)
    ensures
        r@ == levels_text(levels@, take as nat),
{
    let n: usize = if take < levels.len() { take } else { levels.len() };
    let ghost parts = levels@.take(n as int).map_values(|l: Level| level_text(l));
    let mut s = String::new();
    let mut i: usize = 0;
    assert(parts.take(0) =~= Seq::<Seq<char>>::empty());
    while i < n
        invariant
            n <= levels@.len(),
            i <= n,
            parts == levels@.take(n as int).map_values(|l: Level| level_text(l)),
            s@ == join(parts.take(i as int), ","@),
        decreases n - i,
    {
        proof {
            lemma_join_step(parts, ","@, i as int);
        }
        if i > 0 {
            push_str(&mut s, ",");
        }
        let l = levels[i];
        push_str(&mut s, "{\"price\":");
        push_signed(&mut s, l.price);
        push_str(&mut s, ",\"qty\":");
        push_decimal(&mut s, l.qty as u64);
        push_str(&mut s, "}");
        assert(parts[i as int] == level_text(l));
        proof {
            if i == 0 {
                assert(s@ =~= join(parts.take(1), ","@));
            } else {
                assert(s@ =~= join(parts.take(i as int), ","@) + ","@ + parts[i as int]);
            }
        }
        i = i + 1;
    }
    assert(parts.take(n as int) =~= parts);
    s
}

/// The replay stream payload of event number `idx` and the book after it.
pub open spec fn replay_text(idx: usize, e: MarketEvent, asks: Seq<Level>, bids: Seq<Level>) -> Seq<char> {
    "{\"type\":\"replay\",\"index\":"@ + decimal(idx as nat) + ",\"eventKind\":\""@ + event_kind_text(e)
        + "\",\"timestampNs\":"@ + decimal(event_time(e) as nat) + ",\"explanation\":\""@
        + explanation_text(e) + "\",\"asks\":["@ + levels_text(asks, 5) + "],\"bids\":["@
        + levels_text(bids, 5) + "]}"@
}

/// The replay stream payload of event number `idx`, showing the best five
/// levels of each side of `snapshot`.
pub fn replay_payload(idx: usize, event: &MarketEvent, snapshot: &Snapshot) -> (r: String)
    ensures
        r@ == replay_text(idx, *event, snapshot.asks@, snapshot.bids@),
{
    let mut s = String::new();
    push_str(&mut s, "{\"type\":\"replay\",\"index\":");
    push_decimal(&mut s, idx as u64);
    push_str(&mut s, ",\"eventKind\":\"");
    push_str(&mut s, event_kind(event));
    push_str(&mut s, "\",\"timestampNs\":");
    push_decimal(&mut s, event_ts(event));
    push_str(&mut s, ",\"explanation\":\"");
    push_str(&mut s, event_explanation(event));
    push_str(&mut s, "\",\"asks\":[");
    let asks = levels_json(snapshot.asks.as_slice(), 5);
    push_str(&mut s, asks.as_str());
    push_str(&mut s, "],\"bids\":[");
    let bids = levels_json(snapshot.bids.as_slice(), 5);
    push_str(&mut s, bids.as_str());
    push_str(&mut s, "]}");
    assert(s@ =~= replay_text(idx, *event, snapshot.asks@, snapshot.bids@));
    s
}

/// The latency stream payload of the arrival with 1-based number `seq`.
pub open spec fn latency_text(seq: nat, a: ArrivalView) -> Seq<char> {
    "{\"type\":\"latency\",\"seq\":"@ + decimal(seq) + ",\"agent\":\""@ + kind_label(a.agent_kind)
        + "\",\"latencyNs\":"@ + decimal(a.latency_ns as nat) + ",\"arrivalTs\":"@ + decimal(
        a.arrival_ts as nat,
    ) + ",\"orderId\":"@ + decimal(a.report.order_id as nat) + ",\"filledQty\":"@ + decimal(
        a.report.filled_qty as nat,
    ) + ",\"status\":\""@ + status_text(a.report.status) + "\"}"@
}

/// The latency stream payload of arrival number `idx` (counted from 0).
pub fn latency_payload(idx: usize, report: &ArrivalReport) -> (r: String)
    requires
        idx < usize::MAX,
    ensures
        r@ == latency_text((idx + 1) as nat, report@),
{
    let mut s = String::new();
    push_str(&mut s, "{\"type\":\"latency\",\"seq\":");
    push_decimal(&mut s, (idx + 1) as u64);
    push_str(&mut s, ",\"agent\":\"");
    push_str(&mut s, report.agent_kind.label());
    push_str(&mut s, "\",\"latencyNs\":");
    push_decimal(&mut s, report.latency_ns);
    push_str(&mut s, ",\"arrivalTs\":");
    push_decimal(&mut s, report.arrival_ts);
    push_str(&mut s, ",\"orderId\":");
    push_decimal(&mut s, report.report.order_id);
    push_str(&mut s, ",\"filledQty\":");
    push_decimal(&mut s, report.report.filled_qty as u64);
    push_str(&mut s, ",\"status\":\"");
    push_str(&mut s, status_name(report.report.status));
    push_str(&mut s, "\"}");
    assert(s@ =~= latency_text((idx + 1) as nat, report@));
    s
}

/// `values` in decimal, separated by commas.
pub open spec fn signed_list_text(values: Seq<i64>) -> Seq<char> {
    join(values.map_values(|v: i64| signed_decimal(v as int)), ","@)
}

/// `values` in decimal, separated by commas.
pub fn join_signed(values: &[i64]) -> (r: String)
    ensures
        r@ == signed_list_text(values@),
{
    let ghost parts = values@.map_values(|v: i64| signed_decimal(v as int));
    let mut s = String::new();
    let mut i: usize = 0;
    assert(parts.take(0) =~= Seq::<Seq<char>>::empty());
    while i < values.len()
        invariant
            i <= values@.len(),
            parts == values@.map_values(|v: i64| signed_decimal(v as int)),
            s@ == join(parts.take(i as int), ","@),
        decreases values@.len() - i,
    {
        proof {
            lemma_join_step(parts, ","@, i as int);
        }
        if i > 0 {
            push_str(&mut s, ",");
        }
        push_signed(&mut s, values[i]);
        proof {
            if i == 0 {
                assert(s@ =~= join(parts.take(1), ","@));
            } else {
                assert(s@ =~= join(parts.take(i as int), ","@) + ","@ + parts[i as int]);
            }
        }
        i = i + 1;
    }
    assert(parts.take(values@.len() as int) =~= parts);
    s
}

/// The requests of the matching demonstration: two asks at 101.00 queue
/// up, an aggressive limit buy sweeps them, then a market IOC and an
/// unfillable FOK buy.
pub open spec fn demo_requests() -> Seq<OrderRequest> {
    seq![
        OrderRequest::Submit {
            ts: 1,
            order_id: 1001,
            side: Side::Sell,
            qty: 50,
            kind: OrderKind::Limit { price: 10100 },
            tif: TimeInForce::Gtc,
        },
        OrderRequest::Submit {
            ts: 2,
            order_id: 1002,
            side: Side::Sell,
            qty: 25,
            kind: OrderKind::Limit { price: 10100 },
            tif: TimeInForce::Gtc,
        },
        OrderRequest::Submit {
            ts: 3,
            order_id: 2001,
            side: Side::Buy,
            qty: 100,
            kind: OrderKind::Limit { price: 10200 },
            tif: TimeInForce::Gtc,
        },
        OrderRequest::Submit {
            ts: 4,
            order_id: 3001,
            side: Side::Buy,
            qty: 500,
            kind: OrderKind::Market,
            tif: TimeInForce::Ioc,
        },
        OrderRequest::Submit {
            ts: 5,
            order_id: 3002,
            side: Side::Buy,
            qty: 500,
            kind: OrderKind::Limit { price: 10300 },
            tif: TimeInForce::Fok,
        },
    ]
}

/// The book and the reports after processing `reqs` in order.
pub open spec fn run_requests(b: BookView, reqs: Seq<OrderRequest>) -> (BookView, Seq<ReportView>)
    decreases reqs.len(),
{
    if reqs.len() == 0 {
        (b, Seq::empty())
    } else {
        let (b1, rs) = run_requests(b, reqs.drop_last());
        let (b2, r) = process_spec(b1, reqs.last());
        (b2, rs.push(r))
    }
}

/// Number of fills over the reports.
pub open spec fn fills_count(rs: Seq<ReportView>) -> nat
    decreases rs.len(),
{
    if rs.len() == 0 {
        0
    } else {
        fills_count(rs.drop_last()) + rs.last().fills.len()
    }
}

/// Filled quantity over the reports.
pub open spec fn filled_total(rs: Seq<ReportView>) -> nat
    decreases rs.len(),
{
    if rs.len() == 0 {
        0
    } else {
        filled_total(rs.drop_last()) + rs.last().filled_qty as nat
    }
}

/// One report line of the matching demonstration, numbered `seq`.
pub open spec fn demo_line(seq: nat, r: ReportView) -> Seq<char> {
    "      { \"seq\": "@ + decimal(seq) + ", \"orderId\": "@ + decimal(r.order_id as nat)
        + ", \"status\": \""@ + status_text(r.status) + "\", \"filledQty\": "@ + decimal(
        r.filled_qty as nat,
    ) + ", \"remainingQty\": "@ + decimal(r.remaining_qty as nat) + ", \"fills\": "@ + decimal(
        r.fills.len(),
    ) + " }"@
}

/// Outcome of the matching demonstration.
pub struct DemoReport {
    pub fills: usize,
    pub filled_qty: u32,
    pub resting_orders: usize,
    pub best_bid: i64,
    pub best_bid_size: u32,
    pub best_ask: i64,
    pub best_ask_size: u32,
    pub reports_json: String,
}

/// The views of a sequence of execution reports.
pub open spec fn report_views(rs: Seq<ExecutionReport>) -> Seq<ReportView> {
    rs.map_values(|r: ExecutionReport| r@)
}

fn demo_request_vec() -> (r: Vec<OrderRequest>)
    ensures
        r@ == demo_requests(),
{
    let r = vec![
        OrderRequest::Submit {
            ts: 1,
            order_id: 1001,
            side: Side::Sell,
            qty: 50,
            kind: OrderKind::Limit { price: 10100 },
            tif: TimeInForce::Gtc,
        },
        OrderRequest::Submit {
            ts: 2,
            order_id: 1002,
            side: Side::Sell,
            qty: 25,
            kind: OrderKind::Limit { price: 10100 },
            tif: TimeInForce::Gtc,
        },
        OrderRequest::Submit {
            ts: 3,
            order_id: 2001,
            side: Side::Buy,
            qty: 100,
            kind: OrderKind::Limit { price: 10200 },
            tif: TimeInForce::Gtc,
        },
        OrderRequest::Submit {
            ts: 4,
            order_id: 3001,
            side: Side::Buy,
            qty: 500,
            kind: OrderKind::Market,
            tif: TimeInForce::Ioc,
        },
        OrderRequest::Submit {
            ts: 5,
            order_id: 3002,
            side: Side::Buy,
            qty: 500,
            kind: OrderKind::Limit { price: 10300 },
            tif: TimeInForce::Fok,
        },
    ];
    assert(r@ =~= demo_requests());
    r
}

fn demo_report_line(seq: u64, report: &ExecutionReport) -> (r: String)
    ensures
        r@ == demo_line(seq as nat, report@),
{
    let mut s = String::new();
    push_str(&mut s, "      { \"seq\": ");
    push_decimal(&mut s, seq);
    push_str(&mut s, ", \"orderId\": ");
    push_decimal(&mut s, report.order_id);
    push_str(&mut s, ", \"status\": \"");
    push_str(&mut s, status_name(report.status));
    push_str(&mut s, "\", \"filledQty\": ");
    push_decimal(&mut s, report.filled_qty as u64);
    push_str(&mut s, ", \"remainingQty\": ");
    push_decimal(&mut s, report.remaining_qty as u64);
    push_str(&mut s, ", \"fills\": ");
    push_decimal(&mut s, report.fills.len() as u64);
    push_str(&mut s, " }");
    assert(s@ =~= demo_line(seq as nat, report@));
    s
}

/// Run the FIFO price-time demonstration on a fresh engine and summarize
/// it: fills, filled quantity, resting orders, top of book and one report
/// line per request.
pub fn matching_demo() -> (r: DemoReport)
    ensures
        ({
            let (b, rs) = run_requests(BookView::empty(), demo_requests());
            let (asks, bids) = snapshot_spec(b, 1);
            &&& r.fills == fills_count(rs)
            &&& r.filled_qty == filled_total(rs)
            &&& r.resting_orders == b.order_ids().len()
            &&& r.best_bid == bids[0].price
            &&& r.best_bid_size == bids[0].qty
            &&& r.best_ask == asks[0].price
            &&& r.best_ask_size == asks[0].qty
            &&& r.reports_json@ == join(
                Seq::new(rs.len(), |i: int| demo_line((i + 1) as nat, rs[i])),
                ",\n"@,
            )
        }),
{
    let requests = demo_request_vec();
    let mut engine = MatchingEngine::new();
    let ghost b0 = engine@;
    let mut reports: Vec<ExecutionReport> = Vec::new();
    let mut k: usize = 0;
    assert(requests@.take(0) =~= Seq::<OrderRequest>::empty());
    assert(report_views(reports@) =~= Seq::<ReportView>::empty());
    while k < requests.len()
        invariant
            k <= requests@.len(),
            reports@.len() == k,
            requests@ == demo_requests(),
            b0 == BookView::empty(),
            engine.wf(),
            ({
                let (b, rs) = run_requests(b0, requests@.take(k as int));
                &&& engine@ == b
                &&& report_views(reports@) == rs
            }),
            forall|j: int|
                #![trigger reports@[j]]
                0 <= j < reports@.len() ==> reports@[j]@.fills.len() <= reports@[j]@.filled_qty <= 500,
        decreases requests@.len() - k,
    {
        let req = requests[k];
        let ghost prev = report_views(reports@);
        proof {
            engine.lemma_wf();
            match req {
                OrderRequest::Submit { ts, order_id, side, qty, kind, tif } => {
                    crate::matching_laws::lemma_submit_fills(engine@, ts, order_id, side, qty, kind, tif);
                },
                _ => {},
            }
        }
        let report = engine.process(req);
        reports.push(report);
        assert(requests@.take(k + 1).drop_last() =~= requests@.take(k as int));
        assert(requests@.take(k + 1).last() == requests@[k as int]);
        assert(report_views(reports@) =~= prev.push(reports@[k as int]@));
        k = k + 1;
    }
    assert(requests@.take(requests@.len() as int) =~= requests@);
    let ghost rs = report_views(reports@);

    let snapshot = engine.snapshot(1);
    let mut fills: usize = 0;
    let mut filled_qty: u32 = 0;
    let mut j: usize = 0;
    assert(rs.take(0) =~= Seq::<ReportView>::empty());
    while j < reports.len()
        invariant
            j <= reports@.len(),
            reports@.len() == 5,
            rs == report_views(reports@),
            forall|i: int|
                #![trigger reports@[i]]
                0 <= i < reports@.len() ==> reports@[i]@.fills.len() <= reports@[i]@.filled_qty <= 500,
            fills == fills_count(rs.take(j as int)),
            filled_qty == filled_total(rs.take(j as int)),
            fills <= filled_qty <= 500 * j,
        decreases reports@.len() - j,
    {
        assert(rs.take(j + 1).drop_last() =~= rs.take(j as int));
        assert(rs.take(j + 1).last() == reports@[j as int]@);
        fills = fills + reports[j].fills.len();
        filled_qty = filled_qty + reports[j].filled_qty;
        j = j + 1;
    }
    assert(rs.take(rs.len() as int) =~= rs);

    let ghost parts = Seq::new(rs.len(), |i: int| demo_line((i + 1) as nat, rs[i]));
    let mut json = String::new();
    let mut i: usize = 0;
    assert(parts.take(0) =~= Seq::<Seq<char>>::empty());
    while i < reports.len()
        invariant
            i <= reports@.len(),
            reports@.len() == 5,
            rs == report_views(reports@),
            parts == Seq::new(rs.len(), |i: int| demo_line((i + 1) as nat, rs[i])),
            json@ == join(parts.take(i as int), ",\n"@),
        decreases reports@.len() - i,
    {
        proof {
            lemma_join_step(parts, ",\n"@, i as int);
        }
        if i > 0 {
            push_str(&mut json, ",\n");
        }
        let line = demo_report_line((i + 1) as u64, &reports[i]);
        push_str(&mut json, line.as_str());
        assert(parts[i as int] == demo_line((i + 1) as nat, reports@[i as int]@));
        proof {
            if i == 0 {
                assert(json@ =~= join(parts.take(1), ",\n"@));
            } else {
                assert(json@ =~= join(parts.take(i as int), ",\n"@) + ",\n"@ + parts[i as int]);
            }
        }
        i = i + 1;
    }
    assert(parts.take(5) =~= parts);

    DemoReport {
        fills,
        filled_qty,
        resting_orders: engine.resting_order_count(),
        best_bid: snapshot.bids[0].price,
        best_bid_size: snapshot.bids[0].qty,
        best_ask: snapshot.asks[0].price,
        best_ask_size: snapshot.asks[0].qty,
        reports_json: json,
    }
}

/// One line of the arrival tape, numbered `seq`.
pub open spec fn tape_line(seq: nat, a: ArrivalView) -> Seq<char> {
    "      { \"seq\": "@ + decimal(seq) + ", \"agent\": \""@ + kind_label(a.agent_kind)
        + "\", \"arrivalNs\": "@ + decimal(a.arrival_ts as nat) + ", \"latencyNs\": "@ + decimal(
        a.latency_ns as nat,
    ) + ", \"orderId\": "@ + decimal(a.report.order_id as nat) + ", \"filledQty\": "@ + decimal(
        a.report.filled_qty as nat,
    ) + ", \"status\": \""@ + status_text(a.report.status) + "\" }"@
}

/// The arrival tape: the first (at most) 12 arrivals, one line each.
pub open spec fn tape_text(rs: Seq<ArrivalView>) -> Seq<char> {
    join(Seq::new(min_len(12, rs.len()), |i: int| tape_line((i + 1) as nat, rs[i])), ",\n"@)
}

/// Outcome of the latency demonstration.
pub struct LatencyReport {
    pub orders_sent: usize,
    pub orders_arrived: usize,
    pub orders_dropped: usize,
    pub colocated_wins: usize,
    pub remote_wins: usize,
    pub median_colocated_latency_ns: u64,
    pub median_remote_latency_ns: u64,
    pub avg_queue_advantage_ns: u64,
    pub arrival_tape_json: String,
}

fn tape_report_line(seq: u64, report: &ArrivalReport) -> (r: String)
    ensures
        r@ == tape_line(seq as nat, report@),
{
    let mut s = String::new();
    push_str(&mut s, "      { \"seq\": ");
    push_decimal(&mut s, seq);
    push_str(&mut s, ", \"agent\": \"");
    push_str(&mut s, report.agent_kind.label());
    push_str(&mut s, "\", \"arrivalNs\": ");
    push_decimal(&mut s, report.arrival_ts);
    push_str(&mut s, ", \"latencyNs\": ");
    push_decimal(&mut s, report.latency_ns);
    push_str(&mut s, ", \"orderId\": ");
    push_decimal(&mut s, report.report.order_id);
    push_str(&mut s, ", \"filledQty\": ");
    push_decimal(&mut s, report.report.filled_qty as u64);
    push_str(&mut s, ", \"status\": \"");
    push_str(&mut s, status_name(report.report.status));
    push_str(&mut s, "\" }");
    assert(s@ =~= tape_line(seq as nat, report@));
    s
}

/// Run the latency race for seed 42 and summarize it: the race metrics and
/// the first twelve arrivals.
pub fn latency_demo() -> (r: LatencyReport)
    ensures
        ({
            let rs = race_reports(42);
            let m = metrics_spec(60, rs, race_schedule(42).dropped.len());
            &&& r.orders_sent == m.orders_sent
            &&& r.orders_arrived == m.orders_arrived
            &&& r.orders_dropped == m.orders_dropped
            &&& r.colocated_wins == m.colocated_wins
            &&& r.remote_wins == m.remote_wins
            &&& r.median_colocated_latency_ns == m.median_colocated_latency_ns
            &&& r.median_remote_latency_ns == m.median_remote_latency_ns
            &&& r.avg_queue_advantage_ns == m.avg_queue_advantage_ns
            &&& r.arrival_tape_json@ == tape_text(rs)
        }),
{
    let result = run_latency_race(42);
    let metrics = result.metrics;
    let ghost rs = race_reports(42);
    let n: usize = if result.reports.len() < 12 { result.reports.len() } else { 12 };
    let ghost parts = Seq::new(min_len(12, rs.len()), |i: int| tape_line((i + 1) as nat, rs[i]));
    let mut json = String::new();
    let mut i: usize = 0;
    assert(parts.take(0) =~= Seq::<Seq<char>>::empty());
    while i < n
        invariant
            n <= result.reports@.len(),
            n == min_len(12, rs.len()),
            i <= n,
            arrival_views(result.reports@) == rs,
            parts == Seq::new(min_len(12, rs.len()), |i: int| tape_line((i + 1) as nat, rs[i])),
            json@ == join(parts.take(i as int), ",\n"@),
        decreases n - i,
    {
        proof {
            lemma_join_step(parts, ",\n"@, i as int);
        }
        if i > 0 {
            push_str(&mut json, ",\n");
        }
        let line = tape_report_line((i + 1) as u64, &result.reports[i]);
        push_str(&mut json, line.as_str());
        assert(parts[i as int] == tape_line((i + 1) as nat, result.reports@[i as int]@));
        proof {
            if i == 0 {
                assert(json@ =~= join(parts.take(1), ",\n"@));
            } else {
                assert(json@ =~= join(parts.take(i as int), ",\n"@) + ",\n"@ + parts[i as int]);
            }
        }
        i = i + 1;
    }
    assert(parts.take(n as int) =~= parts);
    LatencyReport {
        orders_sent: metrics.orders_sent,
        orders_arrived: metrics.orders_arrived,
        orders_dropped: metrics.orders_dropped,
        colocated_wins: metrics.colocated_wins,
        remote_wins: metrics.remote_wins,
        median_colocated_latency_ns: metrics.median_colocated_latency_ns,
        median_remote_latency_ns: metrics.median_remote_latency_ns,
        avg_queue_advantage_ns: metrics.avg_queue_advantage_ns,
        arrival_tape_json: json,
    }
}

/// First index at or after `i` whose character is whitespace (`ws`) or is
/// not (`!ws`), or `s.len()` when there is none.
pub open spec fn scan(s: Seq<char>, i: int, ws: bool) -> int
    decreases s.len() - i,
{
    if i >= s.len() {
        s.len() as int
    } else if is_ws(s[i]) == ws {
        i
    } else {
        scan(s, i + 1, ws)
    }
}

/// The target of an HTTP request: the second whitespace-separated word of
/// its first line, if there is one.
pub open spec fn request_target(req: Seq<char>) -> Option<Seq<char>> {
    let line = req.take(first_index(req, '\n') as int);
    let a0 = scan(line, 0, false);
    let e0 = scan(line, a0, true);
    let a1 = scan(line, e0, false);
    let e1 = scan(line, a1, true);
    if a1 < line.len() {
        Some(line.subrange(a1, e1))
    } else {
        None
    }
}

/// What the live lab serves.
#[derive(Debug, Clone, Copy, PartialEq, Eq, Structural)]
pub enum Route {
    Index,
    Styles,
    Script,
    Summary,
    ReplayStream,
    MatchingStream,
    LatencyStream,
    StrategyStream,
    NotFound,
}

pub open spec fn route_of(target: Seq<char>) -> Route {
    if target == "/"@ || target == "/index.html"@ {
        Route::Index
    } else if target == "/styles.css"@ {
        Route::Styles
    } else if target == "/app.js"@ {
        Route::Script
    } else if target == "/api/summary"@ {
        Route::Summary
    } else if target == "/api/replay/stream"@ {
        Route::ReplayStream
    } else if target == "/api/matching/stream"@ {
        Route::MatchingStream
    } else if target == "/api/latency/stream"@ {
        Route::LatencyStream
    } else if target == "/api/strategy/stream"@ {
        Route::StrategyStream
    } else {
        Route::NotFound
    }
}

fn scan_from(s: &Vec<char>, i: usize, ws: bool) -> (r: usize)
    requires
        i <= s@.len(),
    ensures
        r == scan(s@, i as int, ws),
        i <= r <= s@.len(),
{
    let mut j = i;
    while j < s.len() && is_whitespace(s[j]) != ws
        invariant
            i <= j <= s@.len(),
            scan(s@, i as int, ws) == scan(s@, j as int, ws),
        decreases s@.len() - j,
    {
        j = j + 1;
    }
    j
}

fn same_chars(t: &Vec<char>, lit: &str) -> (r: bool)
    ensures
        r == (t@ == lit@),
{
    let l = chars_of(lit);
    if t.len() != l.len() {
        return false;
    }
    let mut k: usize = 0;
    while k < t.len()
        invariant
            k <= t@.len(),
            t@.len() == l@.len(),
            l@ == lit@,
            forall|j: int| 0 <= j < k ==> t@[j] == l@[j],
        decreases t@.len() - k,
    {
        if t[k] != l[k] {
            return false;
        }
        k = k + 1;
    }
    assert(t@ =~= l@);
    true
}

/// Where an HTTP request goes; `None` when it names no target.
pub fn route_request(request: &str) -> (r: Option<Route>)
    ensures
        r == match request_target(request@) {
            Some(t) => Some(route_of(t)),
            None => None::<Route>,
        },
{
    let all = chars_of(request);
    let mut n: usize = 0;
    while n < all.len() && all[n] != '\n'
        invariant
            n <= all@.len(),
            forall|j: int| 0 <= j < n ==> all@[j] != '\n',
        decreases all@.len() - n,
    {
        n = n + 1;
    }
    proof {
        lemma_first_index(all@, '\n', n as int);
    }
    let line = slice_chars(&all, 0, n);
    assert(line@ =~= request@.take(first_index(request@, '\n') as int));
    let a0 = scan_from(&line, 0, false);
    let e0 = scan_from(&line, a0, true);
    let a1 = scan_from(&line, e0, false);
    let e1 = scan_from(&line, a1, true);
    if a1 >= line.len() {
        return None;
    }
    let t = slice_chars(&line, a1, e1);
    let route = if same_chars(&t, "/") || same_chars(&t, "/index.html") {
        Route::Index
    } else if same_chars(&t, "/styles.css") {
        Route::Styles
    } else if same_chars(&t, "/app.js") {
        Route::Script
    } else if same_chars(&t, "/api/summary") {
        Route::Summary
    } else if same_chars(&t, "/api/replay/stream") {
        Route::ReplayStream
    } else if same_chars(&t, "/api/matching/stream") {
        Route::MatchingStream
    } else if same_chars(&t, "/api/latency/stream") {
        Route::LatencyStream
    } else if same_chars(&t, "/api/strategy/stream") {
        Route::StrategyStream
    } else {
        Route::NotFound
    };
    Some(route)
}

} // verus!
