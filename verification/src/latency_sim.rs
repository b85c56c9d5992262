//! Deterministic co-location latency simulation: seeded jitter, integer
//! packet loss, and arrival ordering by `(arrival_ts, sequence)`.
use vstd::prelude::*;
use crate::market_events::{OrderId, Side, Timestamp};
use crate::matching_engine::{
    process_spec, submit_spec, ExecutionReport, MatchingEngine, OrderKind, OrderRequest,
    ReportView, TimeInForce,
};
use crate::sides::BookView;

verus! {

#[derive(Debug, Clone, Copy, PartialEq, Eq, Structural)]
pub enum AgentKind {
    ColocatedMarketMaker,
    RemoteTrader,
    LatencyArbitrageTrader,
}

pub open spec fn kind_label(kind: AgentKind) -> Seq<char> {
    match kind {
        AgentKind::ColocatedMarketMaker => "colocated_market_maker"@,
        AgentKind::RemoteTrader => "remote_trader"@,
        AgentKind::LatencyArbitrageTrader => "latency_arbitrage_trader"@,
    }
}

impl AgentKind {
    pub fn label(self) -> (r: &'static str)
        ensures
            r@ == kind_label(self),
    {
        match self {
            AgentKind::ColocatedMarketMaker => "colocated_market_maker",
            AgentKind::RemoteTrader => "remote_trader",
            AgentKind::LatencyArbitrageTrader => "latency_arbitrage_trader",
        }
    }
}

/// Seeded xorshift64 generator.
#[derive(Debug, Clone, Copy, PartialEq, Eq, Structural)]
pub struct DeterministicRng {
    state: u64,
}

/// One xorshift64 step (shifts 13, 7, 17).
pub open spec fn xorshift(x: u64) -> u64 {
    let a = x ^ (x << 13u64);
    let b = a ^ (a >> 7u64);
    b ^ (b << 17u64)
}

/// Draw below `upper`, and the generator state after it (no draw for 0).
pub open spec fn bounded_draw(state: u64, upper: u64) -> (u64, u64) {
    if upper == 0 {
        (0, state)
    } else {
        (xorshift(state) % upper, xorshift(state))
    }
}

impl View for DeterministicRng {
    type V = u64;

    closed spec fn view(&self) -> u64 {
        self.state
    }
}

impl DeterministicRng {
    pub fn new(seed: u64) -> (r: Self)
        ensures
            r@ == seed,
    {
        DeterministicRng { state: seed }
    }

    pub fn next_u64(&mut self) -> (r: u64)
        ensures
            r == xorshift(old(self)@),
            final(self)@ == r,
    {
        let mut x = self.state;
        x = x ^ (x << 13u64);
        x = x ^ (x >> 7u64);
        x = x ^ (x << 17u64);
        self.state = x;
        x
    }

    pub fn next_bounded(&mut self, upper_exclusive: u64) -> (r: u64)
        ensures
            (r, final(self)@) == bounded_draw(old(self)@, upper_exclusive),
            upper_exclusive > 0 ==> r < upper_exclusive,
    {
        if upper_exclusive == 0 {
            return 0;
        }
        self.next_u64() % upper_exclusive
    }
}

#[derive(Debug, Clone, Copy, PartialEq, Eq, Structural)]
pub struct LatencyModel {
    pub mean_ns: u64,
    pub jitter_ns: u64,
    pub loss_ppm: u32,
}

/// Latency drawn from `state` (`None` when the packet is lost) and the
/// generator state after the draws: a loss draw in parts per million when
/// `loss_ppm > 0`, then a uniform jitter draw in `[-jitter, +jitter]`
/// around the mean, clamped at zero.
pub open spec fn sample_spec(m: LatencyModel, state: u64) -> (Option<u64>, u64) {
    let (lost, s1) = if m.loss_ppm > 0 {
        let (d, s) = bounded_draw(state, 1_000_000);
        (d < m.loss_ppm, s)
    } else {
        (false, state)
    };
    if lost {
        (None, s1)
    } else {
        let window = if 2 * m.jitter_ns + 1 > u64::MAX {
            u64::MAX
        } else {
            (2 * m.jitter_ns + 1) as u64
        };
        let (d, s2) = bounded_draw(s1, window);
        let latency = m.mean_ns + d - m.jitter_ns;
        (Some((if latency < 0 { 0 } else { latency }) as u64), s2)
    }
}

impl LatencyModel {
    pub fn new(mean_ns: u64, jitter_ns: u64, loss_ppm: u32) -> (r: Self)
        ensures
            r == (LatencyModel { mean_ns, jitter_ns, loss_ppm }),
    {
        LatencyModel { mean_ns, jitter_ns, loss_ppm }
    }

    pub fn sample_ns(self, rng: &mut DeterministicRng) -> (r: Option<u64>)
        ensures
            (r, final(rng)@) == sample_spec(self, old(rng)@),
    {
        if self.loss_ppm > 0 && rng.next_bounded(1_000_000) < self.loss_ppm as u64 {
            return None;
        }
        let doubled: u64 = if self.jitter_ns > u64::MAX / 2 { u64::MAX } else { self.jitter_ns * 2 };
        let jitter_window = doubled.saturating_add(1);
        let offset: i128 = rng.next_bounded(jitter_window) as i128 - self.jitter_ns as i128;
        let latency: i128 = self.mean_ns as i128 + offset;
        let clamped: i128 = if latency < 0 { 0 } else { latency };
        Some(clamped as u64)
    }
}

/// A sampled latency lies within the jitter window around the mean,
/// clamped at zero; a model without loss never loses a packet, and one
/// whose loss rate is a million parts per million loses every packet.
pub proof fn lemma_sample_bounds(m: LatencyModel, state: u64)
    ensures
        ({
            let (lat, _) = sample_spec(m, state);
            &&& m.loss_ppm == 0 ==> lat is Some
            &&& m.loss_ppm >= 1_000_000 ==> lat is None
            &&& (lat is Some && m.mean_ns + m.jitter_ns <= u64::MAX) ==> {
                &&& lat->0 <= m.mean_ns + m.jitter_ns
                &&& m.mean_ns >= m.jitter_ns ==> lat->0 >= m.mean_ns - m.jitter_ns
            }
        }),
{
}

#[derive(Debug, Clone, Copy, PartialEq, Eq, Structural)]
pub struct Agent {
    pub id: u32,
    pub kind: AgentKind,
    pub latency: LatencyModel,
}

#[derive(Debug, Clone, Copy, PartialEq, Eq, Structural)]
pub struct OutboundOrder {
    pub agent_id: u32,
    pub send_ts: Timestamp,
    pub request: OrderRequest,
}

#[derive(Debug, Clone, Copy, PartialEq, Eq, Structural)]
pub struct ScheduledOrder {
    pub agent_id: u32,
    pub agent_kind: AgentKind,
    pub send_ts: Timestamp,
    pub arrival_ts: Timestamp,
    pub latency_ns: u64,
    pub sequence: u64,
    pub request: OrderRequest,
}

#[derive(Debug, Clone, Copy, PartialEq, Eq, Structural)]
pub struct DroppedOrder {
    pub agent_id: u32,
    pub agent_kind: AgentKind,
    pub send_ts: Timestamp,
    pub order_id: OrderId,
}

#[derive(Debug, Clone, PartialEq, Eq)]
pub struct ArrivalReport {
    pub agent_id: u32,
    pub agent_kind: AgentKind,
    pub send_ts: Timestamp,
    pub arrival_ts: Timestamp,
    pub latency_ns: u64,
    pub report: ExecutionReport,
}

/// Mathematical view of an arrival report.
pub struct ArrivalView {
    pub agent_id: u32,
    pub agent_kind: AgentKind,
    pub send_ts: Timestamp,
    pub arrival_ts: Timestamp,
    pub latency_ns: u64,
    pub report: ReportView,
}

impl View for ArrivalReport {
    type V = ArrivalView;

    open spec fn view(&self) -> ArrivalView {
        ArrivalView {
            agent_id: self.agent_id,
            agent_kind: self.agent_kind,
            send_ts: self.send_ts,
            arrival_ts: self.arrival_ts,
            latency_ns: self.latency_ns,
            report: self.report@,
        }
    }
}

#[derive(Debug, Clone, PartialEq, Eq)]
pub struct LatencyRun {
    pub arrivals: Vec<ScheduledOrder>,
    pub dropped: Vec<DroppedOrder>,
}

#[derive(Debug, Clone, Copy, PartialEq, Eq, Structural)]
pub struct RaceMetrics {
    pub orders_sent: usize,
    pub orders_arrived: usize,
    pub orders_dropped: usize,
    pub colocated_wins: usize,
    pub remote_wins: usize,
    pub median_colocated_latency_ns: u64,
    pub median_remote_latency_ns: u64,
    pub avg_queue_advantage_ns: u64,
}

#[derive(Debug, Clone, PartialEq, Eq)]
pub struct LatencyRaceResult {
    pub reports: Vec<ArrivalReport>,
    pub dropped: Vec<DroppedOrder>,
    pub metrics: RaceMetrics,
}


/// The order id a request refers to.
pub open spec fn request_id(r: OrderRequest) -> OrderId {
    match r {
        OrderRequest::Submit { order_id, .. } => order_id,
        OrderRequest::Cancel { order_id, .. } => order_id,
        OrderRequest::Replace { order_id, .. } => order_id,
    }
}

fn request_order_id(request: &OrderRequest) -> (r: OrderId)
    ensures
        r == request_id(*request),
{
    match *request {
        OrderRequest::Submit { order_id, .. } => order_id,
        OrderRequest::Cancel { order_id, .. } => order_id,
        OrderRequest::Replace { order_id, .. } => order_id,
    }
}

/// The request with its timestamp replaced by `ts`.
pub open spec fn with_ts(r: OrderRequest, ts: Timestamp) -> OrderRequest {
    match r {
        OrderRequest::Submit { order_id, side, qty, kind, tif, .. } => OrderRequest::Submit {
            ts,
            order_id,
            side,
            qty,
            kind,
            tif,
        },
        OrderRequest::Cancel { order_id, .. } => OrderRequest::Cancel { ts, order_id },
        OrderRequest::Replace { order_id, new_qty, new_price, tif, .. } => OrderRequest::Replace {
            ts,
            order_id,
            new_qty,
            new_price,
            tif,
        },
    }
}

fn set_request_ts(request: &mut OrderRequest, ts: Timestamp)
    ensures
        *final(request) == with_ts(*old(request), ts),
{
    match request {
        OrderRequest::Submit { ts: request_ts, .. } => {
            *request_ts = ts;
        },
        OrderRequest::Cancel { ts: request_ts, .. } => {
            *request_ts = ts;
        },
        OrderRequest::Replace { ts: request_ts, .. } => {
            *request_ts = ts;
        },
    }
}

/// The first agent with `id`.
pub open spec fn find_agent(agents: Seq<Agent>, id: u32) -> Option<Agent>
    decreases agents.len(),
{
    if agents.len() == 0 {
        None
    } else if agents[0].id == id {
        Some(agents[0])
    } else {
        find_agent(agents.drop_first(), id)
    }
}

/// Progress of a scheduling pass.
pub struct ScheduleState {
    pub rng: u64,
    pub next_sequence: u64,
    pub arrivals: Seq<ScheduledOrder>,
    pub dropped: Seq<DroppedOrder>,
}

/// One outbound order through its agent's latency model.
pub open spec fn schedule_step(st: ScheduleState, agents: Seq<Agent>, o: OutboundOrder) -> ScheduleState {
    let a = find_agent(agents, o.agent_id).unwrap();
    let (lat, rng) = sample_spec(a.latency, st.rng);
    match lat {
        Some(l) => ScheduleState {
            rng,
            next_sequence: (st.next_sequence + 1) as u64,
            arrivals: st.arrivals.push(
                ScheduledOrder {
                    agent_id: a.id,
                    agent_kind: a.kind,
                    send_ts: o.send_ts,
                    arrival_ts: (if o.send_ts + l > u64::MAX {
                        u64::MAX
                    } else {
                        (o.send_ts + l) as u64
                    }),
                    latency_ns: l,
                    sequence: st.next_sequence,
                    request: o.request,
                },
            ),
            dropped: st.dropped,
        },
        None => ScheduleState {
            rng,
            next_sequence: st.next_sequence,
            arrivals: st.arrivals,
            dropped: st.dropped.push(
                DroppedOrder {
                    agent_id: a.id,
                    agent_kind: a.kind,
                    send_ts: o.send_ts,
                    order_id: request_id(o.request),
                },
            ),
        },
    }
}

/// State after the first `k` outbound orders.
pub open spec fn schedule_prefix(
    agents: Seq<Agent>,
    rng: u64,
    next_sequence: u64,
    orders: Seq<OutboundOrder>,
    k: nat,
) -> ScheduleState
    decreases k,
{
    if k == 0 {
        ScheduleState { rng, next_sequence, arrivals: Seq::empty(), dropped: Seq::empty() }
    } else {
        schedule_step(
            schedule_prefix(agents, rng, next_sequence, orders, (k - 1) as nat),
            agents,
            orders[k - 1],
        )
    }
}

/// Every order of a prefix either arrived or was dropped, and each
/// arrival took one sequence number.
pub proof fn lemma_schedule_prefix_len(
    agents: Seq<Agent>,
    rng: u64,
    next_sequence: u64,
    orders: Seq<OutboundOrder>,
    k: nat,
)
    requires
        next_sequence + k <= u64::MAX,
    ensures
        ({
            let st = schedule_prefix(agents, rng, next_sequence, orders, k);
            &&& st.arrivals.len() + st.dropped.len() == k
            &&& st.next_sequence == next_sequence + st.arrivals.len()
        }),
    decreases k,
{
    if k > 0 {
        lemma_schedule_prefix_len(agents, rng, next_sequence, orders, (k - 1) as nat);
    }
}

/// Scheduling is deterministic: simulators with the same agents, seed
/// state and sequence counter schedule the same orders identically.
pub proof fn lemma_schedule_deterministic(a: SimulatorView, b: SimulatorView, orders: Seq<OutboundOrder>)
    requires
        a == b,
    ensures
        schedule_prefix(a.agents, a.rng, a.next_sequence, orders, orders.len()) == schedule_prefix(
            b.agents,
            b.rng,
            b.next_sequence,
            orders,
            orders.len(),
        ),
{
}

/// Arrival order: by arrival time, then by sequence number.
pub open spec fn arrives_after(a: ScheduledOrder, b: ScheduledOrder) -> bool {
    a.arrival_ts > b.arrival_ts || (a.arrival_ts == b.arrival_ts && a.sequence > b.sequence)
}

/// `x` placed after every element of `s` that does not arrive after it.
pub open spec fn insert_arrival(s: Seq<ScheduledOrder>, x: ScheduledOrder) -> Seq<ScheduledOrder>
    decreases s.len(),
{
    if s.len() == 0 {
        seq![x]
    } else if !arrives_after(s.last(), x) {
        s.push(x)
    } else {
        insert_arrival(s.drop_last(), x).push(s.last())
    }
}

/// Stable sort into arrival order.
pub open spec fn sort_arrivals(s: Seq<ScheduledOrder>) -> Seq<ScheduledOrder>
    decreases s.len(),
{
    if s.len() == 0 {
        s
    } else {
        insert_arrival(sort_arrivals(s.drop_last()), s.last())
    }
}

/// No order comes after one that arrives after it.
pub open spec fn arrival_sorted(s: Seq<ScheduledOrder>) -> bool {
    forall|i: int, j: int| 0 <= i < j < s.len() ==> !arrives_after(#[trigger] s[i], #[trigger] s[j])
}

/// No element of `s` arrives after `y`.
pub open spec fn none_after(s: Seq<ScheduledOrder>, y: ScheduledOrder) -> bool {
    forall|i: int| 0 <= i < s.len() ==> !arrives_after(#[trigger] s[i], y)
}

proof fn lemma_insert_arrival_bound(s: Seq<ScheduledOrder>, x: ScheduledOrder, y: ScheduledOrder)
    requires
        none_after(s, y),
        !arrives_after(x, y),
    ensures
        none_after(insert_arrival(s, x), y),
    decreases s.len(),
{
    if s.len() > 0 && arrives_after(s.last(), x) {
        lemma_insert_arrival_bound(s.drop_last(), x, y);
        let inner = insert_arrival(s.drop_last(), x);
        assert forall|i: int| 0 <= i < inner.push(s.last()).len() implies !arrives_after(
            #[trigger] inner.push(s.last())[i],
            y,
        ) by {
            if i < inner.len() {
                assert(inner.push(s.last())[i] == inner[i]);
            } else {
                assert(s[s.len() - 1] == s.last());
            }
        }
    } else if s.len() > 0 {
        assert forall|i: int| 0 <= i < s.push(x).len() implies !arrives_after(#[trigger] s.push(x)[i], y) by {
            if i < s.len() {
                assert(s.push(x)[i] == s[i]);
            }
        }
    }
}

proof fn lemma_insert_arrival(s: Seq<ScheduledOrder>, x: ScheduledOrder)
    requires
        arrival_sorted(s),
    ensures
        arrival_sorted(insert_arrival(s, x)),
        insert_arrival(s, x).len() == s.len() + 1,
        insert_arrival(s, x).to_multiset() =~= s.to_multiset().insert(x),
    decreases s.len(),
{
    broadcast use vstd::seq_lib::group_to_multiset_ensures;

    if s.len() == 0 {
        assert(seq![x] =~= Seq::<ScheduledOrder>::empty().push(x));
    } else if !arrives_after(s.last(), x) {
        let r = s.push(x);
        assert forall|i: int, j: int| 0 <= i < j < r.len() implies !arrives_after(
            #[trigger] r[i],
            #[trigger] r[j],
        ) by {
            if j < s.len() {
                assert(r[i] == s[i] && r[j] == s[j]);
            } else if i < s.len() - 1 {
                assert(r[i] == s[i]);
                assert(!arrives_after(s[i], s[s.len() - 1]));
            }
        }
    } else {
        let d = s.drop_last();
        assert forall|i: int, j: int| 0 <= i < j < d.len() implies !arrives_after(
            #[trigger] d[i],
            #[trigger] d[j],
        ) by {
            assert(d[i] == s[i] && d[j] == s[j]);
        }
        lemma_insert_arrival(d, x);
        assert forall|i: int| 0 <= i < d.len() implies !arrives_after(#[trigger] d[i], s.last()) by {
            assert(d[i] == s[i]);
            assert(s[s.len() - 1] == s.last());
        }
        lemma_insert_arrival_bound(d, x, s.last());
        let inner = insert_arrival(d, x);
        let r = inner.push(s.last());
        assert forall|i: int, j: int| 0 <= i < j < r.len() implies !arrives_after(
            #[trigger] r[i],
            #[trigger] r[j],
        ) by {
            assert(r[i] == inner[i]);
            if j < inner.len() {
                assert(r[j] == inner[j]);
            }
        }
        assert(d.push(s.last()) =~= s);
    }
}

/// The arrival sort puts its input in arrival order and neither loses nor
/// invents an order.
pub proof fn lemma_sort_arrivals(s: Seq<ScheduledOrder>)
    ensures
        arrival_sorted(sort_arrivals(s)),
        sort_arrivals(s).len() == s.len(),
        sort_arrivals(s).to_multiset() =~= s.to_multiset(),
    decreases s.len(),
{
    broadcast use vstd::seq_lib::group_to_multiset_ensures;

    if s.len() > 0 {
        lemma_sort_arrivals(s.drop_last());
        lemma_insert_arrival(sort_arrivals(s.drop_last()), s.last());
        assert(s.drop_last().push(s.last()) =~= s);
    }
}

fn arrives_after_exec(a: &ScheduledOrder, b: &ScheduledOrder) -> (r: bool)
    ensures
        r == arrives_after(*a, *b),
{
    a.arrival_ts > b.arrival_ts || (a.arrival_ts == b.arrival_ts && a.sequence > b.sequence)
}

/// Sort scheduled orders into arrival order.
fn sort_by_arrival(v: &Vec<ScheduledOrder>) -> (r: Vec<ScheduledOrder>)
    ensures
        r@ == sort_arrivals(v@),
{
    let mut out: Vec<ScheduledOrder> = Vec::new();
    let mut k: usize = 0;
    assert(v@.take(0) =~= Seq::<ScheduledOrder>::empty());
    while k < v.len()
        invariant
            k <= v@.len(),
            out@ == sort_arrivals(v@.take(k as int)),
        decreases v@.len() - k,
    {
        let x = v[k];
        let ghost s0 = out@;
        let mut j: usize = out.len();
        assert(s0.take(j as int) =~= s0);
        assert(s0.skip(j as int) =~= Seq::<ScheduledOrder>::empty());
        assert(insert_arrival(s0, x) =~= insert_arrival(s0.take(j as int), x) + s0.skip(j as int));
        while j > 0 && arrives_after_exec(&out[j - 1], &x)
            invariant
                out@ == s0,
                j <= s0.len(),
                insert_arrival(s0, x) == insert_arrival(s0.take(j as int), x) + s0.skip(j as int),
            decreases j,
        {
            let ghost t = s0.take(j as int);
            assert(t.drop_last() =~= s0.take(j - 1));
            assert(t.last() == s0[j - 1]);
            assert(insert_arrival(t, x) == insert_arrival(s0.take(j - 1), x).push(s0[j - 1]));
            assert(insert_arrival(s0.take(j - 1), x).push(s0[j - 1]) + s0.skip(j as int) =~= insert_arrival(
                s0.take(j - 1),
                x,
            ) + s0.skip(j - 1));
            j = j - 1;
        }
        proof {
            let t = s0.take(j as int);
            if j > 0 {
                assert(t.last() == s0[j - 1]);
            }
            assert(insert_arrival(t, x) == t.push(x));
            assert(t.push(x) + s0.skip(j as int) =~= s0.insert(j as int, x));
        }
        out.insert(j, x);
        assert(v@.take(k + 1).drop_last() =~= v@.take(k as int));
        k = k + 1;
    }
    assert(v@.take(v@.len() as int) =~= v@);
    out
}

#[derive(Debug, Clone)]
pub struct LatencySimulator {
    agents: Vec<Agent>,
    rng: DeterministicRng,
    next_sequence: u64,
}

/// Mathematical view of a simulator: its agents, generator state and the
/// next sequence number it will hand out.
pub struct SimulatorView {
    pub agents: Seq<Agent>,
    pub rng: u64,
    pub next_sequence: u64,
}

impl View for LatencySimulator {
    type V = SimulatorView;

    closed spec fn view(&self) -> SimulatorView {
        SimulatorView { agents: self.agents@, rng: self.rng@, next_sequence: self.next_sequence }
    }
}

/// Every outbound order names a known agent.
pub open spec fn agents_known(agents: Seq<Agent>, orders: Seq<OutboundOrder>) -> bool {
    forall|k: int| 0 <= k < orders.len() ==> #[trigger] find_agent(agents, orders[k].agent_id) is Some
}

impl LatencySimulator {
    pub fn new(seed: u64) -> (r: Self)
        ensures
            r@ == (SimulatorView { agents: Seq::empty(), rng: seed, next_sequence: 0 }),
    {
        LatencySimulator { agents: Vec::new(), rng: DeterministicRng::new(seed), next_sequence: 0 }
    }

    pub fn add_agent(&mut self, agent: Agent)
        ensures
            final(self)@ == (SimulatorView { agents: old(self)@.agents.push(agent), ..old(self)@ }),
    {
        self.agents.push(agent);
    }

    fn find_agent(&self, id: u32) -> (r: Option<Agent>)
        ensures
            r == find_agent(self@.agents, id),
    {
        let ghost all = self.agents@;
        let mut j: usize = 0;
        assert(all.subrange(0, all.len() as int) =~= all);
        while j < self.agents.len()
            invariant
                all == self.agents@,
                j <= all.len(),
                find_agent(all, id) == find_agent(all.subrange(j as int, all.len() as int), id),
            decreases all.len() - j,
        {
            let ghost rest = all.subrange(j as int, all.len() as int);
            assert(rest[0] == all[j as int]);
            if self.agents[j].id == id {
                return Some(self.agents[j]);
            }
            assert(rest.drop_first() =~= all.subrange(j + 1, all.len() as int));
            j = j + 1;
        }
        None
    }

    /// Draw each order's latency from its agent's model; orders that are
    /// not lost arrive in `(arrival_ts, sequence)` order.
    pub fn schedule(&mut self, orders: &[OutboundOrder]) -> (r: LatencyRun)
        requires
            agents_known(old(self)@.agents, orders@),
            old(self)@.next_sequence + orders@.len() <= u64::MAX,
        ensures
            ({
                let st = schedule_prefix(
                    old(self)@.agents,
                    old(self)@.rng,
                    old(self)@.next_sequence,
                    orders@,
                    orders@.len(),
                );
                &&& r.arrivals@ == sort_arrivals(st.arrivals)
                &&& arrival_sorted(r.arrivals@)
                &&& r.arrivals@.to_multiset() == st.arrivals.to_multiset()
                &&& r.dropped@ == st.dropped
                &&& r.arrivals@.len() + r.dropped@.len() == orders@.len()
                &&& final(self)@ == (SimulatorView {
                    agents: old(self)@.agents,
                    rng: st.rng,
                    next_sequence: st.next_sequence,
                })
            }),
    {
        let ghost v0 = self@;
        let mut arrivals: Vec<ScheduledOrder> = Vec::new();
        let mut dropped: Vec<DroppedOrder> = Vec::new();
        let mut k: usize = 0;
        while k < orders.len()
            invariant
                k <= orders@.len(),
                self@.agents == v0.agents,
                agents_known(v0.agents, orders@),
                v0.next_sequence + orders@.len() <= u64::MAX,
                self.next_sequence <= v0.next_sequence + k,
                ({
                    let st = schedule_prefix(v0.agents, v0.rng, v0.next_sequence, orders@, k as nat);
                    &&& st.rng == self@.rng
                    &&& st.next_sequence == self.next_sequence
                    &&& st.arrivals == arrivals@
                    &&& st.dropped == dropped@
                }),
            decreases orders@.len() - k,
        {
            let outbound = orders[k];
            assert(find_agent(v0.agents, orders@[k as int].agent_id) is Some);
            let agent = match self.find_agent(outbound.agent_id) {
                Some(a) => a,
                None => {
                    assert(false);
                    return LatencyRun { arrivals, dropped };
                },
            };
            match agent.latency.sample_ns(&mut self.rng) {
                Some(latency_ns) => {
                    arrivals.push(
                        ScheduledOrder {
                            agent_id: agent.id,
                            agent_kind: agent.kind,
                            send_ts: outbound.send_ts,
                            arrival_ts: outbound.send_ts.saturating_add(latency_ns),
                            latency_ns,
                            sequence: self.next_sequence,
                            request: outbound.request,
                        },
                    );
                    self.next_sequence = self.next_sequence + 1;
                },
                None => {
                    dropped.push(
                        DroppedOrder {
                            agent_id: agent.id,
                            agent_kind: agent.kind,
                            send_ts: outbound.send_ts,
                            order_id: request_order_id(&outbound.request),
                        },
                    );
                },
            }
            k = k + 1;
        }
        let sorted = sort_by_arrival(&arrivals);
        proof {
            lemma_sort_arrivals(arrivals@);
            lemma_schedule_prefix_len(v0.agents, v0.rng, v0.next_sequence, orders@, orders@.len());
        }
        LatencyRun { arrivals: sorted, dropped }
    }
}


/// `x` placed after every element of `s` that is not greater than it.
pub open spec fn insert_u64(s: Seq<u64>, x: u64) -> Seq<u64>
    decreases s.len(),
{
    if s.len() == 0 {
        seq![x]
    } else if s.last() <= x {
        s.push(x)
    } else {
        insert_u64(s.drop_last(), x).push(s.last())
    }
}

/// `s` in ascending order.
pub open spec fn sort_u64(s: Seq<u64>) -> Seq<u64>
    decreases s.len(),
{
    if s.len() == 0 {
        s
    } else {
        insert_u64(sort_u64(s.drop_last()), s.last())
    }
}

/// The upper median: the element at index `len / 2` of the sorted values,
/// or 0 for no values.
pub open spec fn median_spec(s: Seq<u64>) -> u64 {
    if s.len() == 0 {
        0
    } else {
        sort_u64(s)[(s.len() / 2) as int]
    }
}

/// Ascending order.
pub open spec fn ascending(s: Seq<u64>) -> bool {
    forall|i: int, j: int| 0 <= i < j < s.len() ==> #[trigger] s[i] <= #[trigger] s[j]
}

proof fn lemma_insert_u64_bound(s: Seq<u64>, x: u64, y: u64)
    requires
        forall|i: int| 0 <= i < s.len() ==> #[trigger] s[i] <= y,
        x <= y,
    ensures
        forall|i: int| 0 <= i < insert_u64(s, x).len() ==> #[trigger] insert_u64(s, x)[i] <= y,
    decreases s.len(),
{
    if s.len() > 0 && s.last() > x {
        lemma_insert_u64_bound(s.drop_last(), x, y);
        let inner = insert_u64(s.drop_last(), x);
        assert forall|i: int| 0 <= i < inner.push(s.last()).len() implies #[trigger] inner.push(
            s.last(),
        )[i] <= y by {
            if i < inner.len() {
                assert(inner.push(s.last())[i] == inner[i]);
            } else {
                assert(s[s.len() - 1] == s.last());
            }
        }
    } else if s.len() > 0 {
        assert forall|i: int| 0 <= i < s.push(x).len() implies #[trigger] s.push(x)[i] <= y by {
            if i < s.len() {
                assert(s.push(x)[i] == s[i]);
            }
        }
    }
}

proof fn lemma_insert_u64(s: Seq<u64>, x: u64)
    requires
        ascending(s),
    ensures
        ascending(insert_u64(s, x)),
        insert_u64(s, x).len() == s.len() + 1,
        insert_u64(s, x).to_multiset() =~= s.to_multiset().insert(x),
    decreases s.len(),
{
    broadcast use vstd::seq_lib::group_to_multiset_ensures;

    if s.len() == 0 {
        assert(seq![x] =~= Seq::<u64>::empty().push(x));
    } else if s.last() <= x {
        let r = s.push(x);
        assert forall|i: int, j: int| 0 <= i < j < r.len() implies #[trigger] r[i] <= #[trigger] r[j] by {
            if j < s.len() {
                assert(r[i] == s[i] && r[j] == s[j]);
            } else if i < s.len() - 1 {
                assert(r[i] == s[i]);
                assert(s[i] <= s[s.len() - 1]);
            }
        }
    } else {
        let d = s.drop_last();
        assert forall|i: int, j: int| 0 <= i < j < d.len() implies #[trigger] d[i] <= #[trigger] d[j] by {
            assert(d[i] == s[i] && d[j] == s[j]);
        }
        lemma_insert_u64(d, x);
        assert forall|i: int| 0 <= i < d.len() implies #[trigger] d[i] <= s.last() by {
            assert(d[i] == s[i]);
            assert(s[s.len() - 1] == s.last());
        }
        lemma_insert_u64_bound(d, x, s.last());
        let inner = insert_u64(d, x);
        let r = inner.push(s.last());
        assert forall|i: int, j: int| 0 <= i < j < r.len() implies #[trigger] r[i] <= #[trigger] r[j] by {
            assert(r[i] == inner[i]);
            if j < inner.len() {
                assert(r[j] == inner[j]);
            }
        }
        assert(d.push(s.last()) =~= s);
    }
}

/// The latency sort puts its input in ascending order and neither loses
/// nor invents a value, so `median_spec` is the upper median.
pub proof fn lemma_sort_u64(s: Seq<u64>)
    ensures
        ascending(sort_u64(s)),
        sort_u64(s).len() == s.len(),
        sort_u64(s).to_multiset() =~= s.to_multiset(),
    decreases s.len(),
{
    broadcast use vstd::seq_lib::group_to_multiset_ensures;

    if s.len() > 0 {
        lemma_sort_u64(s.drop_last());
        lemma_insert_u64(sort_u64(s.drop_last()), s.last());
        assert(s.drop_last().push(s.last()) =~= s);
    }
}

/// Sort latencies into ascending order.
fn sort_latencies(v: &Vec<u64>) -> (r: Vec<u64>)
    ensures
        r@ == sort_u64(v@),
{
    let mut out: Vec<u64> = Vec::new();
    let mut k: usize = 0;
    assert(v@.take(0) =~= Seq::<u64>::empty());
    while k < v.len()
        invariant
            k <= v@.len(),
            out@ == sort_u64(v@.take(k as int)),
        decreases v@.len() - k,
    {
        let x = v[k];
        let ghost s0 = out@;
        let mut j: usize = out.len();
        assert(s0.take(j as int) =~= s0);
        assert(s0.skip(j as int) =~= Seq::<u64>::empty());
        assert(insert_u64(s0, x) =~= insert_u64(s0.take(j as int), x) + s0.skip(j as int));
        while j > 0 && out[j - 1] > x
            invariant
                out@ == s0,
                j <= s0.len(),
                insert_u64(s0, x) == insert_u64(s0.take(j as int), x) + s0.skip(j as int),
            decreases j,
        {
            let ghost t = s0.take(j as int);
            assert(t.drop_last() =~= s0.take(j - 1));
            assert(t.last() == s0[j - 1]);
            assert(insert_u64(t, x) == insert_u64(s0.take(j - 1), x).push(s0[j - 1]));
            assert(insert_u64(s0.take(j - 1), x).push(s0[j - 1]) + s0.skip(j as int) =~= insert_u64(
                s0.take(j - 1),
                x,
            ) + s0.skip(j - 1));
            j = j - 1;
        }
        proof {
            let t = s0.take(j as int);
            if j > 0 {
                assert(t.last() == s0[j - 1]);
            }
            assert(insert_u64(t, x) == t.push(x));
            assert(t.push(x) + s0.skip(j as int) =~= s0.insert(j as int, x));
        }
        out.insert(j, x);
        assert(v@.take(k + 1).drop_last() =~= v@.take(k as int));
        k = k + 1;
    }
    assert(v@.take(v@.len() as int) =~= v@);
    out
}

fn median(values: &Vec<u64>) -> (r: u64)
    ensures
        values@.len() == 0 ==> r == 0,
        values@.len() > 0 ==> r == values@[(values@.len() / 2) as int],
{
    if values.len() == 0 {
        return 0;
    }
    values[values.len() / 2]
}

/// The views of a sequence of arrival reports.
pub open spec fn arrival_views(rs: Seq<ArrivalReport>) -> Seq<ArrivalView> {
    rs.map_values(|a: ArrivalReport| a@)
}

/// Latencies of the reports of agents of `kind`, in report order.
pub open spec fn kind_latencies(rs: Seq<ArrivalView>, kind: AgentKind) -> Seq<u64>
    decreases rs.len(),
{
    if rs.len() == 0 {
        Seq::empty()
    } else if rs.last().agent_kind == kind {
        kind_latencies(rs.drop_last(), kind).push(rs.last().latency_ns)
    } else {
        kind_latencies(rs.drop_last(), kind)
    }
}

/// Number of reports of agents of `kind` that filled some quantity.
pub open spec fn kind_wins(rs: Seq<ArrivalView>, kind: AgentKind) -> nat
    decreases rs.len(),
{
    if rs.len() == 0 {
        0
    } else if rs.last().agent_kind == kind && rs.last().report.filled_qty > 0 {
        kind_wins(rs.drop_last(), kind) + 1
    } else {
        kind_wins(rs.drop_last(), kind)
    }
}

pub proof fn lemma_kind_wins_bound(rs: Seq<ArrivalView>, kind: AgentKind)
    ensures
        kind_wins(rs, kind) <= rs.len(),
    decreases rs.len(),
{
    if rs.len() > 0 {
        lemma_kind_wins_bound(rs.drop_last(), kind);
    }
}

/// Race statistics over the reports of the orders that arrived.
pub open spec fn metrics_spec(orders_sent: usize, rs: Seq<ArrivalView>, dropped: nat) -> RaceMetrics {
    let colocated = median_spec(kind_latencies(rs, AgentKind::ColocatedMarketMaker));
    let remote = median_spec(kind_latencies(rs, AgentKind::RemoteTrader));
    RaceMetrics {
        orders_sent,
        orders_arrived: rs.len() as usize,
        orders_dropped: dropped as usize,
        colocated_wins: kind_wins(rs, AgentKind::ColocatedMarketMaker) as usize,
        remote_wins: kind_wins(rs, AgentKind::RemoteTrader) as usize,
        median_colocated_latency_ns: colocated,
        median_remote_latency_ns: remote,
        avg_queue_advantage_ns: if remote > colocated { (remote - colocated) as u64 } else { 0 },
    }
}

fn collect_kind(reports: &[ArrivalReport], kind: AgentKind) -> (r: (Vec<u64>, usize))
    ensures
        r.0@ == kind_latencies(arrival_views(reports@), kind),
        r.1 == kind_wins(arrival_views(reports@), kind),
{
    let ghost all = arrival_views(reports@);
    let mut lat: Vec<u64> = Vec::new();
    let mut wins: usize = 0;
    let mut k: usize = 0;
    assert(all.take(0) =~= Seq::<ArrivalView>::empty());
    while k < reports.len()
        invariant
            k <= reports@.len(),
            all == arrival_views(reports@),
            lat@ == kind_latencies(all.take(k as int), kind),
            wins == kind_wins(all.take(k as int), kind),
        decreases reports@.len() - k,
    {
        assert(all.take(k + 1).drop_last() =~= all.take(k as int));
        assert(all.take(k + 1).last() == reports@[k as int]@);
        proof {
            lemma_kind_wins_bound(all.take(k as int), kind);
        }
        if reports[k].agent_kind == kind {
            lat.push(reports[k].latency_ns);
            if reports[k].report.filled_qty > 0 {
                wins = wins + 1;
            }
        }
        k = k + 1;
    }
    assert(all.take(all.len() as int) =~= all);
    (lat, wins)
}

fn race_metrics(orders_sent: usize, reports: &[ArrivalReport], dropped: &[DroppedOrder]) -> (r: RaceMetrics)
    ensures
        r == metrics_spec(orders_sent, arrival_views(reports@), dropped@.len()),
{
    let (colocated_raw, colocated_wins) = collect_kind(reports, AgentKind::ColocatedMarketMaker);
    let (remote_raw, remote_wins) = collect_kind(reports, AgentKind::RemoteTrader);
    let colocated_latencies = sort_latencies(&colocated_raw);
    let remote_latencies = sort_latencies(&remote_raw);
    proof {
        lemma_sort_u64(colocated_raw@);
        lemma_sort_u64(remote_raw@);
    }
    let median_colocated_latency_ns = median(&colocated_latencies);
    let median_remote_latency_ns = median(&remote_latencies);
    RaceMetrics {
        orders_sent,
        orders_arrived: reports.len(),
        orders_dropped: dropped.len(),
        colocated_wins,
        remote_wins,
        median_colocated_latency_ns,
        median_remote_latency_ns,
        avg_queue_advantage_ns: median_remote_latency_ns.saturating_sub(median_colocated_latency_ns),
    }
}


/// The three agents of the race: co-located market maker (id 1), remote
/// trader (id 2) and latency arbitrageur (id 3).
pub open spec fn race_agents() -> Seq<Agent> {
    seq![
        Agent {
            id: 1,
            kind: AgentKind::ColocatedMarketMaker,
            latency: LatencyModel { mean_ns: 200_000, jitter_ns: 100_000, loss_ppm: 0 },
        },
        Agent {
            id: 2,
            kind: AgentKind::RemoteTrader,
            latency: LatencyModel { mean_ns: 25_000_000, jitter_ns: 15_000_000, loss_ppm: 0 },
        },
        Agent {
            id: 3,
            kind: AgentKind::LatencyArbitrageTrader,
            latency: LatencyModel { mean_ns: 450_000, jitter_ns: 250_000, loss_ppm: 2_500 },
        },
    ]
}

/// Round `i` order of agent `agent_id`: an IOC buy of 5 at 101.00 sent at
/// `1s + i ms`, with order id `base + i`.
pub open spec fn race_order(agent_id: u32, base: u64, i: u64) -> OutboundOrder {
    let send_ts = (1_000_000_000 + i * 1_000_000) as u64;
    OutboundOrder {
        agent_id,
        send_ts,
        request: OrderRequest::Submit {
            ts: send_ts,
            order_id: (base + i) as u64,
            side: Side::Buy,
            qty: 5,
            kind: OrderKind::Limit { price: 10100 },
            tif: TimeInForce::Ioc,
        },
    }
}

/// The orders of the first `n` rounds, each round one order per agent.
pub open spec fn race_orders(n: nat) -> Seq<OutboundOrder>
    decreases n,
{
    if n == 0 {
        Seq::empty()
    } else {
        let i = (n - 1) as u64;
        race_orders((n - 1) as nat) + seq![
            race_order(1, 20_000, i),
            race_order(2, 30_000, i),
            race_order(3, 40_000, i),
        ]
    }
}

/// The book the race starts from: one resting ask of 100 at 101.00.
pub open spec fn race_book() -> BookView {
    submit_spec(
        BookView::empty(),
        0,
        10_000,
        Side::Sell,
        100,
        OrderKind::Limit { price: 10100 },
        TimeInForce::Gtc,
    ).0
}

/// The race's scheduling pass for `seed`.
pub open spec fn race_schedule(seed: u64) -> ScheduleState {
    schedule_prefix(race_agents(), seed, 0, race_orders(20), 60)
}

/// Reports of the race for `seed`, in arrival order.
pub open spec fn race_reports(seed: u64) -> Seq<ArrivalView> {
    process_arrivals(race_book(), sort_arrivals(race_schedule(seed).arrivals)).1
}

/// Arrivals processed in order, each request stamped with its arrival time.
pub open spec fn process_arrivals(b: BookView, arrivals: Seq<ScheduledOrder>) -> (BookView, Seq<ArrivalView>)
    decreases arrivals.len(),
{
    if arrivals.len() == 0 {
        (b, Seq::empty())
    } else {
        let (b1, rs) = process_arrivals(b, arrivals.drop_last());
        let a = arrivals.last();
        let (b2, rep) = process_spec(b1, with_ts(a.request, a.arrival_ts));
        (
            b2,
            rs.push(
                ArrivalView {
                    agent_id: a.agent_id,
                    agent_kind: a.agent_kind,
                    send_ts: a.send_ts,
                    arrival_ts: a.arrival_ts,
                    latency_ns: a.latency_ns,
                    report: rep,
                },
            ),
        )
    }
}

pub proof fn lemma_process_arrivals_len(b: BookView, arrivals: Seq<ScheduledOrder>)
    ensures
        process_arrivals(b, arrivals).1.len() == arrivals.len(),
    decreases arrivals.len(),
{
    if arrivals.len() > 0 {
        lemma_process_arrivals_len(b, arrivals.drop_last());
    }
}

/// The race sends 60 orders, so at most 60 reports come back.
pub proof fn lemma_race_reports_len(seed: u64)
    ensures
        race_reports(seed).len() + race_schedule(seed).dropped.len() == 60,
{
    lemma_race_orders(20);
    lemma_schedule_prefix_len(race_agents(), seed, 0, race_orders(20), 60);
    lemma_sort_arrivals(race_schedule(seed).arrivals);
    lemma_process_arrivals_len(race_book(), sort_arrivals(race_schedule(seed).arrivals));
}

pub proof fn lemma_race_orders(n: nat)
    ensures
        race_orders(n).len() == 3 * n,
        forall|k: int|
            0 <= k < race_orders(n).len() ==> {
                let id = #[trigger] race_orders(n)[k].agent_id;
                id == 1 || id == 2 || id == 3
            },
    decreases n,
{
    if n > 0 {
        lemma_race_orders((n - 1) as nat);
        let prev = race_orders((n - 1) as nat);
        let i = (n - 1) as u64;
        let step = seq![race_order(1, 20_000, i), race_order(2, 30_000, i), race_order(3, 40_000, i)];
        assert forall|k: int| 0 <= k < race_orders(n).len() implies {
            let id = #[trigger] race_orders(n)[k].agent_id;
            id == 1 || id == 2 || id == 3
        } by {
            if k < prev.len() {
                assert(race_orders(n)[k] == prev[k]);
            } else {
                assert(race_orders(n)[k] == step[k - prev.len()]);
            }
        }
    }
}

proof fn lemma_race_agents_known()
    ensures
        agents_known(race_agents(), race_orders(20)),
        race_orders(20).len() == 60,
{
    lemma_race_orders(20);
    let agents = race_agents();
    assert(find_agent(agents, 1) is Some);
    assert(agents.drop_first()[0].id == 2);
    assert(find_agent(agents.drop_first(), 2) is Some);
    assert(find_agent(agents, 2) is Some);
    assert(agents.drop_first().drop_first()[0].id == 3);
    assert(find_agent(agents.drop_first().drop_first(), 3) is Some);
    assert(find_agent(agents.drop_first(), 3) is Some);
    assert(find_agent(agents, 3) is Some);
}

/// Run the co-location race for `seed`: 20 rounds in which the three agents
/// each send an IOC buy for the same resting liquidity; the orders that are
/// not lost are matched in arrival order.
pub fn run_latency_race(seed: u64) -> (r: LatencyRaceResult)
    ensures
        ({
            let st = race_schedule(seed);
            &&& arrival_views(r.reports@) == race_reports(seed)
            &&& r.dropped@ == st.dropped
            &&& r.metrics == metrics_spec(60, race_reports(seed), st.dropped.len())
        }),
{
    let mut matching = MatchingEngine::new();
    matching.submit(0, 10_000, Side::Sell, 100, OrderKind::Limit { price: 10100 }, TimeInForce::Gtc);

    let colocated = Agent {
        id: 1,
        kind: AgentKind::ColocatedMarketMaker,
        latency: LatencyModel::new(200_000, 100_000, 0),
    };
    let remote = Agent {
        id: 2,
        kind: AgentKind::RemoteTrader,
        latency: LatencyModel::new(25_000_000, 15_000_000, 0),
    };
    let latency_arb = Agent {
        id: 3,
        kind: AgentKind::LatencyArbitrageTrader,
        latency: LatencyModel::new(450_000, 250_000, 2_500),
    };

    let mut sim = LatencySimulator::new(seed);
    sim.add_agent(colocated);
    sim.add_agent(remote);
    sim.add_agent(latency_arb);
    assert(sim@.agents =~= race_agents());

    let mut orders: Vec<OutboundOrder> = Vec::new();
    let mut i: u64 = 0;
    while i < 20
        invariant
            i <= 20,
            orders@ == race_orders(i as nat),
        decreases 20 - i,
    {
        let send_ts: u64 = 1_000_000_000 + i * 1_000_000;
        let ghost before = orders@;
        orders.push(
            OutboundOrder {
                agent_id: 1,
                send_ts,
                request: OrderRequest::Submit {
                    ts: send_ts,
                    order_id: 20_000 + i,
                    side: Side::Buy,
                    qty: 5,
                    kind: OrderKind::Limit { price: 10100 },
                    tif: TimeInForce::Ioc,
                },
            },
        );
        orders.push(
            OutboundOrder {
                agent_id: 2,
                send_ts,
                request: OrderRequest::Submit {
                    ts: send_ts,
                    order_id: 30_000 + i,
                    side: Side::Buy,
                    qty: 5,
                    kind: OrderKind::Limit { price: 10100 },
                    tif: TimeInForce::Ioc,
                },
            },
        );
        orders.push(
            OutboundOrder {
                agent_id: 3,
                send_ts,
                request: OrderRequest::Submit {
                    ts: send_ts,
                    order_id: 40_000 + i,
                    side: Side::Buy,
                    qty: 5,
                    kind: OrderKind::Limit { price: 10100 },
                    tif: TimeInForce::Ioc,
                },
            },
        );
        assert(orders@ =~= before + seq![
            race_order(1, 20_000, i),
            race_order(2, 30_000, i),
            race_order(3, 40_000, i),
        ]);
        i = i + 1;
    }
    proof {
        lemma_race_agents_known();
    }
    let scheduled = sim.schedule(orders.as_slice());
    let ghost st = race_schedule(seed);
    let ghost b0 = matching@;
    let mut reports: Vec<ArrivalReport> = Vec::new();
    let mut k: usize = 0;
    assert(scheduled.arrivals@.take(0) =~= Seq::<ScheduledOrder>::empty());
    assert(arrival_views(reports@) =~= Seq::<ArrivalView>::empty());
    while k < scheduled.arrivals.len()
        invariant
            k <= scheduled.arrivals@.len(),
            matching.wf(),
            ({
                let (b, rs) = process_arrivals(b0, scheduled.arrivals@.take(k as int));
                &&& matching@ == b
                &&& arrival_views(reports@) == rs
            }),
        decreases scheduled.arrivals@.len() - k,
    {
        let arrival = scheduled.arrivals[k];
        let mut request = arrival.request;
        set_request_ts(&mut request, arrival.arrival_ts);
        let ghost prev = arrival_views(reports@);
        let report = matching.process(request);
        reports.push(
            ArrivalReport {
                agent_id: arrival.agent_id,
                agent_kind: arrival.agent_kind,
                send_ts: arrival.send_ts,
                arrival_ts: arrival.arrival_ts,
                latency_ns: arrival.latency_ns,
                report,
            },
        );
        assert(scheduled.arrivals@.take(k + 1).drop_last() =~= scheduled.arrivals@.take(k as int));
        assert(scheduled.arrivals@.take(k + 1).last() == scheduled.arrivals@[k as int]);
        assert(arrival_views(reports@) =~= prev.push(reports@.last()@));
        k = k + 1;
    }
    assert(scheduled.arrivals@.take(scheduled.arrivals@.len() as int) =~= scheduled.arrivals@);
    let metrics = race_metrics(orders.len(), reports.as_slice(), scheduled.dropped.as_slice());
    LatencyRaceResult { reports, dropped: scheduled.dropped, metrics }
}

} // verus!
