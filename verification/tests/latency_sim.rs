use lob_engine::latency_sim::{
    run_latency_race, Agent, AgentKind, DeterministicRng, LatencyModel, LatencyRun,
    LatencySimulator, OutboundOrder,
};
use lob_engine::market_events::Side;
use lob_engine::matching_engine::{OrderKind, OrderRequest, TimeInForce};

fn sample_schedule(seed: u64) -> LatencyRun {
    let mut sim = LatencySimulator::new(seed);
    sim.add_agent(Agent {
        id: 1,
        kind: AgentKind::ColocatedMarketMaker,
        latency: LatencyModel::new(200_000, 0, 0),
    });
    sim.add_agent(Agent {
        id: 2,
        kind: AgentKind::RemoteTrader,
        latency: LatencyModel::new(25_000_000, 0, 0),
    });

    sim.schedule(&[
        OutboundOrder {
            agent_id: 2,
            send_ts: 1_000,
            request: OrderRequest::Submit {
                ts: 1_000,
                order_id: 2,
                side: Side::Buy,
                qty: 1,
                kind: OrderKind::Limit { price: 100 },
                tif: TimeInForce::Ioc,
            },
        },
        OutboundOrder {
            agent_id: 1,
            send_ts: 1_000,
            request: OrderRequest::Submit {
                ts: 1_000,
                order_id: 1,
                side: Side::Buy,
                qty: 1,
                kind: OrderKind::Limit { price: 100 },
                tif: TimeInForce::Ioc,
            },
        },
    ])
}

#[test]
fn schedule_is_deterministic_for_same_seed() {
    let left = sample_schedule(7);
    let right = sample_schedule(7);

    assert_eq!(left, right);
}

#[test]
fn colocated_arrives_before_remote_for_same_send_time() {
    let run = sample_schedule(11);

    assert_eq!(run.arrivals[0].agent_kind, AgentKind::ColocatedMarketMaker);
    assert_eq!(run.arrivals[1].agent_kind, AgentKind::RemoteTrader);
}

#[test]
fn latency_race_produces_queue_advantage_metrics() {
    let result = run_latency_race(42);

    assert_eq!(result.metrics.orders_sent, 60);
    assert!(result.metrics.avg_queue_advantage_ns > 1_000_000);
    assert!(result.metrics.colocated_wins > result.metrics.remote_wins);
}

#[test]
fn zero_jitter_latency_is_the_mean_and_sequence_breaks_ties() {
    let run = sample_schedule(3);
    assert_eq!(run.arrivals.len(), 2);
    assert!(run.dropped.is_empty());
    assert_eq!(run.arrivals[0].latency_ns, 200_000);
    assert_eq!(run.arrivals[0].arrival_ts, 201_000);
    assert_eq!(run.arrivals[0].sequence, 1);
    assert_eq!(run.arrivals[1].latency_ns, 25_000_000);
    assert_eq!(run.arrivals[1].arrival_ts, 25_001_000);
    assert_eq!(run.arrivals[1].sequence, 0);
}

#[test]
fn equal_arrival_times_keep_sequence_order() {
    let mut sim = LatencySimulator::new(5);
    sim.add_agent(Agent {
        id: 9,
        kind: AgentKind::RemoteTrader,
        latency: LatencyModel::new(10, 0, 0),
    });
    let order = |id: u64| OutboundOrder {
        agent_id: 9,
        send_ts: 100,
        request: OrderRequest::Cancel { ts: 100, order_id: id },
    };
    let run = sim.schedule(&[order(1), order(2), order(3)]);
    let ids: Vec<u64> = run.arrivals.iter().map(|a| a.sequence).collect();
    assert_eq!(ids, vec![0, 1, 2]);
    assert!(run.arrivals.iter().all(|a| a.arrival_ts == 110));
}

#[test]
fn certain_loss_drops_every_order() {
    let mut sim = LatencySimulator::new(1);
    sim.add_agent(Agent {
        id: 4,
        kind: AgentKind::LatencyArbitrageTrader,
        latency: LatencyModel::new(1_000, 10, 1_000_000),
    });
    let run = sim.schedule(&[OutboundOrder {
        agent_id: 4,
        send_ts: 50,
        request: OrderRequest::Replace {
            ts: 50,
            order_id: 77,
            new_qty: 3,
            new_price: 100,
            tif: TimeInForce::Gtc,
        },
    }]);
    assert!(run.arrivals.is_empty());
    assert_eq!(run.dropped.len(), 1);
    assert_eq!(run.dropped[0].order_id, 77);
    assert_eq!(run.dropped[0].agent_kind, AgentKind::LatencyArbitrageTrader);
}

#[test]
fn latency_stays_within_the_jitter_window() {
    let model = LatencyModel::new(1_000, 300, 0);
    let mut rng = DeterministicRng::new(99);
    for _ in 0..200 {
        let latency = model.sample_ns(&mut rng).unwrap();
        assert!((700..=1_300).contains(&latency));
    }
    let clamped = LatencyModel::new(5, 100, 0);
    for _ in 0..200 {
        assert!(clamped.sample_ns(&mut rng).unwrap() <= 105);
    }
}

#[test]
fn rng_is_xorshift64() {
    let mut rng = DeterministicRng::new(1);
    // 1 ^ (1 << 13) = 8193; ^ (8193 >> 7) = 8257; ^ (8257 << 17) = 1082269761.
    assert_eq!(rng.next_u64(), 1_082_269_761);
    let mut zero = DeterministicRng::new(0);
    assert_eq!(zero.next_u64(), 0);
    let mut bounded = DeterministicRng::new(1);
    assert_eq!(bounded.next_bounded(10), 1_082_269_761 % 10);
    assert_eq!(bounded.next_bounded(0), 0);
}

#[test]
fn agent_labels() {
    assert_eq!(AgentKind::ColocatedMarketMaker.label(), "colocated_market_maker");
    assert_eq!(AgentKind::RemoteTrader.label(), "remote_trader");
    assert_eq!(AgentKind::LatencyArbitrageTrader.label(), "latency_arbitrage_trader");
}

#[test]
fn race_reports_are_in_arrival_order_and_account_for_every_order() {
    let result = run_latency_race(42);
    assert_eq!(result.reports.len() + result.dropped.len(), 60);
    assert_eq!(result.metrics.orders_arrived, result.reports.len());
    assert_eq!(result.metrics.orders_dropped, result.dropped.len());
    for pair in result.reports.windows(2) {
        assert!(pair[0].arrival_ts <= pair[1].arrival_ts);
    }
    for report in &result.reports {
        assert_eq!(report.report.ts, report.arrival_ts);
    }
}

#[test]
fn race_headline_figures() {
    let result = run_latency_race(42);
    assert_eq!(result.metrics.colocated_wins, 10);
    assert_eq!(result.metrics.remote_wins, 0);
    let advantage = result.metrics.avg_queue_advantage_ns;
    assert!((23_950_000..24_050_000).contains(&advantage), "advantage {advantage}");
}

fn xorshift(mut x: u64) -> u64 {
    x ^= x << 13;
    x ^= x >> 7;
    x ^= x << 17;
    x
}

#[test]
fn sample_draws_loss_then_jitter() {
    let mut rng = DeterministicRng::new(99);
    let model = LatencyModel::new(1_000, 300, 0);
    let expected = 1_000 + xorshift(99) % 601 - 300;
    assert_eq!(model.sample_ns(&mut rng), Some(expected));

    // With a loss rate the first draw decides the loss, the second the jitter.
    let mut rng = DeterministicRng::new(5);
    let lossy = LatencyModel::new(1_000, 10, 1);
    let first = xorshift(5);
    let second = xorshift(first);
    let got = lossy.sample_ns(&mut rng);
    if first % 1_000_000 < 1 {
        assert_eq!(got, None);
    } else {
        assert_eq!(got, Some(1_000 + second % 21 - 10));
    }
}

#[test]
fn race_metrics_are_medians_and_counts_of_the_reports() {
    let result = run_latency_race(42);
    let latencies = |kind: AgentKind| {
        let mut v: Vec<u64> = result
            .reports
            .iter()
            .filter(|r| r.agent_kind == kind)
            .map(|r| r.latency_ns)
            .collect();
        v.sort();
        v
    };
    let median = |v: &Vec<u64>| if v.is_empty() { 0 } else { v[v.len() / 2] };
    let colocated = latencies(AgentKind::ColocatedMarketMaker);
    let remote = latencies(AgentKind::RemoteTrader);
    assert_eq!(result.metrics.median_colocated_latency_ns, median(&colocated));
    assert_eq!(result.metrics.median_remote_latency_ns, median(&remote));
    assert_eq!(
        result.metrics.avg_queue_advantage_ns,
        median(&remote).saturating_sub(median(&colocated))
    );
    let wins = |kind: AgentKind| {
        result.reports.iter().filter(|r| r.agent_kind == kind && r.report.filled_qty > 0).count()
    };
    assert_eq!(result.metrics.colocated_wins, wins(AgentKind::ColocatedMarketMaker));
    assert_eq!(result.metrics.remote_wins, wins(AgentKind::RemoteTrader));
}
