//! Deterministic strategy experiments: inventory-aware market making,
//! order-flow imbalance and latency arbitrage.
use vstd::prelude::*;
use vstd::arithmetic::div_mod::{lemma_div_pos_is_pos, lemma_multiply_divide_lt};
use crate::analytics::{tdiv, FixedSeries, StrategyMetrics, StrategyReport};
use crate::latency_sim::{
    arrival_views, lemma_race_reports_len, metrics_spec, race_reports, race_schedule,
    run_latency_race, AgentKind, ArrivalView, RaceMetrics,
};

verus! {

pub const CURVE_POINTS: usize = 64;

pub type Report = StrategyReport<CURVE_POINTS>;

#[derive(Debug, Clone, PartialEq, Eq)]
pub struct StrategySuite {
    pub market_maker: Report,
    pub order_flow_imbalance: Report,
    pub latency_arbitrage: Report,
}

/// State of the market-making experiment after some steps.
pub struct MakerState {
    pub cash: int,
    pub inventory: int,
    pub max_inventory: int,
    pub fills: int,
    pub orders: int,
    pub adverse: int,
    pub mid: int,
}

/// Mid-price move of step `step`: a fixed seven-step pattern.
pub open spec fn maker_drift(step: int) -> int {
    let r = step % 7;
    if r == 0 || r == 1 {
        4
    } else if r == 2 {
        -2
    } else if r == 3 || r == 4 {
        3
    } else {
        -5
    }
}

pub open spec fn clamp(x: int, lo: int, hi: int) -> int {
    if x < lo {
        lo
    } else if x > hi {
        hi
    } else {
        x
    }
}

pub open spec fn abs(x: int) -> int {
    if x < 0 {
        -x
    } else {
        x
    }
}

/// One step of the market maker: quote around the moved mid, skewed by
/// inventory; buy 10 on every third step, sell up to 10 held on steps
/// `1 mod 4`.
pub open spec fn maker_step(s: MakerState, step: int) -> MakerState {
    let previous_mid = s.mid;
    let mid = s.mid + maker_drift(step);
    let skew = clamp(s.inventory, -30, 30);
    let bid = mid - 2 - tdiv(skew, 10);
    let ask = mid + 2 - tdiv(skew, 10);
    let bought = step % 3 == 0;
    let inv1 = if bought { s.inventory + 10 } else { s.inventory };
    let cash1 = if bought { s.cash - bid * 10 } else { s.cash };
    let fills1 = if bought { s.fills + 1 } else { s.fills };
    let adverse1 = if bought && mid < previous_mid {
        s.adverse + (previous_mid - mid) * 10
    } else {
        s.adverse
    };
    let qty = if inv1 < 0 { 0 } else if inv1 < 10 { inv1 } else { 10 };
    let sold = step % 4 == 1 && qty > 0;
    let inv2 = if sold { inv1 - qty } else { inv1 };
    let cash2 = if sold { cash1 + ask * qty } else { cash1 };
    let fills2 = if sold { fills1 + 1 } else { fills1 };
    let adverse2 = if sold && mid > previous_mid {
        adverse1 + (mid - previous_mid) * qty
    } else {
        adverse1
    };
    MakerState {
        cash: cash2,
        inventory: inv2,
        max_inventory: if abs(inv2) > s.max_inventory { abs(inv2) } else { s.max_inventory },
        fills: fills2,
        orders: s.orders + 2,
        adverse: adverse2,
        mid,
    }
}

/// The market maker after `n` steps, starting flat with the mid at 101.00.
pub open spec fn maker_run(n: nat) -> MakerState
    decreases n,
{
    if n == 0 {
        MakerState {
            cash: 0,
            inventory: 0,
            max_inventory: 0,
            fills: 0,
            orders: 0,
            adverse: 0,
            mid: 10_100,
        }
    } else {
        maker_step(maker_run((n - 1) as nat), n - 1)
    }
}

/// Cash plus inventory marked to the mid.
pub open spec fn maker_equity(s: MakerState) -> i64 {
    (s.cash + s.inventory * s.mid) as i64
}

/// Equity after each of the first `n` steps.
pub open spec fn maker_curve(n: nat) -> Seq<i64>
    decreases n,
{
    if n == 0 {
        Seq::empty()
    } else {
        maker_curve((n - 1) as nat).push(maker_equity(maker_run(n)))
    }
}

/// Metrics of the market maker after its 64 steps.
pub open spec fn maker_metrics() -> StrategyMetrics {
    let s = maker_run(64);
    StrategyMetrics {
        pnl_cents: maker_equity(s),
        slippage_cents: 0,
        inventory: s.inventory as i64,
        max_inventory: s.max_inventory as i64,
        fills: s.fills as u32,
        orders: s.orders as u32,
        adverse_selection_cents: s.adverse as i64,
        queue_ahead_shares: 420,
    }
}

/// The market maker's figures: 12.50 dollars of P&L, 38 fills out of 128
/// orders, 60 shares held at the end and at most.
#[verifier::spinoff_prover]
pub proof fn lemma_maker_figures()
    ensures
        maker_metrics() == (StrategyMetrics {
            pnl_cents: 1250,
            slippage_cents: 0,
            inventory: 60,
            max_inventory: 60,
            fills: 38,
            orders: 128,
            adverse_selection_cents: 680,
            queue_ahead_shares: 420,
        }),
{
    assert(maker_run(0) == (MakerState { cash: 0, inventory: 0, max_inventory: 0, fills: 0, orders: 0, adverse: 0, mid: 10100 }));
    assert(maker_run(1) == (MakerState { cash: -101020, inventory: 10, max_inventory: 10, fills: 1, orders: 2, adverse: 0, mid: 10104 }));
    assert(maker_run(2) == (MakerState { cash: 70, inventory: 0, max_inventory: 10, fills: 2, orders: 4, adverse: 40, mid: 10108 }));
    assert(maker_run(3) == (MakerState { cash: 70, inventory: 0, max_inventory: 10, fills: 2, orders: 6, adverse: 40, mid: 10106 }));
    assert(maker_run(4) == (MakerState { cash: -101000, inventory: 10, max_inventory: 10, fills: 3, orders: 8, adverse: 40, mid: 10109 }));
    assert(maker_run(5) == (MakerState { cash: -101000, inventory: 10, max_inventory: 10, fills: 3, orders: 10, adverse: 40, mid: 10112 }));
    assert(maker_run(6) == (MakerState { cash: 80, inventory: 0, max_inventory: 10, fills: 4, orders: 12, adverse: 40, mid: 10107 }));
    assert(maker_run(7) == (MakerState { cash: -100920, inventory: 10, max_inventory: 10, fills: 5, orders: 14, adverse: 90, mid: 10102 }));
    assert(maker_run(8) == (MakerState { cash: -100920, inventory: 10, max_inventory: 10, fills: 5, orders: 16, adverse: 90, mid: 10106 }));
    assert(maker_run(9) == (MakerState { cash: -100920, inventory: 10, max_inventory: 10, fills: 5, orders: 18, adverse: 90, mid: 10110 }));
    assert(maker_run(10) == (MakerState { cash: -100880, inventory: 10, max_inventory: 10, fills: 7, orders: 20, adverse: 110, mid: 10108 }));
    assert(maker_run(11) == (MakerState { cash: -100880, inventory: 10, max_inventory: 10, fills: 7, orders: 22, adverse: 110, mid: 10111 }));
    assert(maker_run(12) == (MakerState { cash: -100880, inventory: 10, max_inventory: 10, fills: 7, orders: 24, adverse: 110, mid: 10114 }));
    assert(maker_run(13) == (MakerState { cash: -201940, inventory: 20, max_inventory: 20, fills: 8, orders: 26, adverse: 160, mid: 10109 }));
    assert(maker_run(14) == (MakerState { cash: -100900, inventory: 10, max_inventory: 20, fills: 9, orders: 28, adverse: 160, mid: 10104 }));
    assert(maker_run(15) == (MakerState { cash: -100900, inventory: 10, max_inventory: 20, fills: 9, orders: 30, adverse: 160, mid: 10108 }));
    assert(maker_run(16) == (MakerState { cash: -201990, inventory: 20, max_inventory: 20, fills: 10, orders: 32, adverse: 160, mid: 10112 }));
    assert(maker_run(17) == (MakerState { cash: -201990, inventory: 20, max_inventory: 20, fills: 10, orders: 34, adverse: 160, mid: 10110 }));
    assert(maker_run(18) == (MakerState { cash: -100860, inventory: 10, max_inventory: 20, fills: 11, orders: 36, adverse: 190, mid: 10113 }));
    assert(maker_run(19) == (MakerState { cash: -201990, inventory: 20, max_inventory: 20, fills: 12, orders: 38, adverse: 190, mid: 10116 }));
    assert(maker_run(20) == (MakerState { cash: -201990, inventory: 20, max_inventory: 20, fills: 12, orders: 40, adverse: 190, mid: 10111 }));
    assert(maker_run(21) == (MakerState { cash: -201990, inventory: 20, max_inventory: 20, fills: 12, orders: 42, adverse: 190, mid: 10106 }));
    assert(maker_run(22) == (MakerState { cash: -201950, inventory: 20, max_inventory: 20, fills: 14, orders: 44, adverse: 230, mid: 10110 }));
    assert(maker_run(23) == (MakerState { cash: -201950, inventory: 20, max_inventory: 20, fills: 14, orders: 46, adverse: 230, mid: 10114 }));
    assert(maker_run(24) == (MakerState { cash: -201950, inventory: 20, max_inventory: 20, fills: 14, orders: 48, adverse: 230, mid: 10112 }));
    assert(maker_run(25) == (MakerState { cash: -303060, inventory: 30, max_inventory: 30, fills: 15, orders: 50, adverse: 230, mid: 10115 }));
    assert(maker_run(26) == (MakerState { cash: -201890, inventory: 20, max_inventory: 30, fills: 16, orders: 52, adverse: 260, mid: 10118 }));
    assert(maker_run(27) == (MakerState { cash: -201890, inventory: 20, max_inventory: 30, fills: 16, orders: 54, adverse: 260, mid: 10113 }));
    assert(maker_run(28) == (MakerState { cash: -302930, inventory: 30, max_inventory: 30, fills: 17, orders: 56, adverse: 310, mid: 10108 }));
    assert(maker_run(29) == (MakerState { cash: -302930, inventory: 30, max_inventory: 30, fills: 17, orders: 58, adverse: 310, mid: 10112 }));
    assert(maker_run(30) == (MakerState { cash: -201780, inventory: 20, max_inventory: 30, fills: 18, orders: 60, adverse: 350, mid: 10116 }));
    assert(maker_run(31) == (MakerState { cash: -302880, inventory: 30, max_inventory: 30, fills: 19, orders: 62, adverse: 370, mid: 10114 }));
    assert(maker_run(32) == (MakerState { cash: -302880, inventory: 30, max_inventory: 30, fills: 19, orders: 64, adverse: 370, mid: 10117 }));
    assert(maker_run(33) == (MakerState { cash: -302880, inventory: 30, max_inventory: 30, fills: 19, orders: 66, adverse: 370, mid: 10120 }));
    assert(maker_run(34) == (MakerState { cash: -302840, inventory: 30, max_inventory: 30, fills: 21, orders: 68, adverse: 420, mid: 10115 }));
    assert(maker_run(35) == (MakerState { cash: -302840, inventory: 30, max_inventory: 30, fills: 21, orders: 70, adverse: 420, mid: 10110 }));
    assert(maker_run(36) == (MakerState { cash: -302840, inventory: 30, max_inventory: 30, fills: 21, orders: 72, adverse: 420, mid: 10114 }));
    assert(maker_run(37) == (MakerState { cash: -403970, inventory: 40, max_inventory: 40, fills: 22, orders: 74, adverse: 420, mid: 10118 }));
    assert(maker_run(38) == (MakerState { cash: -302820, inventory: 30, max_inventory: 40, fills: 23, orders: 76, adverse: 420, mid: 10116 }));
    assert(maker_run(39) == (MakerState { cash: -302820, inventory: 30, max_inventory: 40, fills: 23, orders: 78, adverse: 420, mid: 10119 }));
    assert(maker_run(40) == (MakerState { cash: -403990, inventory: 40, max_inventory: 40, fills: 24, orders: 80, adverse: 420, mid: 10122 }));
    assert(maker_run(41) == (MakerState { cash: -403990, inventory: 40, max_inventory: 40, fills: 24, orders: 82, adverse: 420, mid: 10117 }));
    assert(maker_run(42) == (MakerState { cash: -302880, inventory: 30, max_inventory: 40, fills: 25, orders: 84, adverse: 420, mid: 10112 }));
    assert(maker_run(43) == (MakerState { cash: -403990, inventory: 40, max_inventory: 40, fills: 26, orders: 86, adverse: 420, mid: 10116 }));
    assert(maker_run(44) == (MakerState { cash: -403990, inventory: 40, max_inventory: 40, fills: 26, orders: 88, adverse: 420, mid: 10120 }));
    assert(maker_run(45) == (MakerState { cash: -403990, inventory: 40, max_inventory: 40, fills: 26, orders: 90, adverse: 420, mid: 10118 }));
    assert(maker_run(46) == (MakerState { cash: -403950, inventory: 40, max_inventory: 40, fills: 28, orders: 92, adverse: 450, mid: 10121 }));
    assert(maker_run(47) == (MakerState { cash: -403950, inventory: 40, max_inventory: 40, fills: 28, orders: 94, adverse: 450, mid: 10124 }));
    assert(maker_run(48) == (MakerState { cash: -403950, inventory: 40, max_inventory: 40, fills: 28, orders: 96, adverse: 450, mid: 10119 }));
    assert(maker_run(49) == (MakerState { cash: -505040, inventory: 50, max_inventory: 50, fills: 29, orders: 98, adverse: 500, mid: 10114 }));
    assert(maker_run(50) == (MakerState { cash: -403870, inventory: 40, max_inventory: 50, fills: 30, orders: 100, adverse: 540, mid: 10118 }));
    assert(maker_run(51) == (MakerState { cash: -403870, inventory: 40, max_inventory: 50, fills: 30, orders: 102, adverse: 540, mid: 10122 }));
    assert(maker_run(52) == (MakerState { cash: -505020, inventory: 50, max_inventory: 50, fills: 31, orders: 104, adverse: 560, mid: 10120 }));
    assert(maker_run(53) == (MakerState { cash: -505020, inventory: 50, max_inventory: 50, fills: 31, orders: 106, adverse: 560, mid: 10123 }));
    assert(maker_run(54) == (MakerState { cash: -403770, inventory: 40, max_inventory: 50, fills: 32, orders: 108, adverse: 590, mid: 10126 }));
    assert(maker_run(55) == (MakerState { cash: -504930, inventory: 50, max_inventory: 50, fills: 33, orders: 110, adverse: 640, mid: 10121 }));
    assert(maker_run(56) == (MakerState { cash: -504930, inventory: 50, max_inventory: 50, fills: 33, orders: 112, adverse: 640, mid: 10116 }));
    assert(maker_run(57) == (MakerState { cash: -504930, inventory: 50, max_inventory: 50, fills: 33, orders: 114, adverse: 640, mid: 10120 }));
    assert(maker_run(58) == (MakerState { cash: -504890, inventory: 50, max_inventory: 50, fills: 35, orders: 116, adverse: 680, mid: 10124 }));
    assert(maker_run(59) == (MakerState { cash: -504890, inventory: 50, max_inventory: 50, fills: 35, orders: 118, adverse: 680, mid: 10122 }));
    assert(maker_run(60) == (MakerState { cash: -504890, inventory: 50, max_inventory: 50, fills: 35, orders: 120, adverse: 680, mid: 10125 }));
    assert(maker_run(61) == (MakerState { cash: -606120, inventory: 60, max_inventory: 60, fills: 36, orders: 122, adverse: 680, mid: 10128 }));
    assert(maker_run(62) == (MakerState { cash: -504900, inventory: 50, max_inventory: 60, fills: 37, orders: 124, adverse: 680, mid: 10123 }));
    assert(maker_run(63) == (MakerState { cash: -504900, inventory: 50, max_inventory: 60, fills: 37, orders: 126, adverse: 680, mid: 10118 }));
    assert(maker_run(64) == (MakerState { cash: -606070, inventory: 60, max_inventory: 60, fills: 38, orders: 128, adverse: 680, mid: 10122 }));
}

/// Running values of the market maker.
struct MakerBook {
    cash: i64,
    inventory: i64,
    max_inventory: i64,
    fills: u32,
    orders: u32,
    adverse: i64,
    mid: i64,
}

impl MakerBook {
    spec fn state(&self) -> MakerState {
        MakerState {
            cash: self.cash as int,
            inventory: self.inventory as int,
            max_inventory: self.max_inventory as int,
            fills: self.fills as int,
            orders: self.orders as int,
            adverse: self.adverse as int,
            mid: self.mid as int,
        }
    }

    /// Ranges the values stay in after `k` steps.
    spec fn bounded(&self, k: int) -> bool {
        &&& 10_100 - 5 * k <= self.mid <= 10_100 + 4 * k
        &&& 0 <= self.inventory <= 10 * k
        &&& 0 <= self.max_inventory <= 10 * k
        &&& self.inventory <= self.max_inventory
        &&& -110_000 * k <= self.cash <= 110_000 * k
        &&& self.fills <= 2 * k
        &&& self.orders == 2 * k
        &&& 0 <= self.adverse <= 100 * k
    }

    fn equity(&self) -> (r: i64)
        requires
            0 <= self.inventory <= 640,
            0 < self.mid <= 10_500,
            -110_000 * 64 <= self.cash <= 110_000 * 64,
        ensures
            r == maker_equity(self.state()),
    {
        assert(0 <= self.inventory * self.mid <= 640 * 10_500) by (nonlinear_arith)
            requires
                0 <= self.inventory <= 640,
                0 < self.mid <= 10_500,
        ;
        self.cash + self.inventory * self.mid
    }

    #[verifier::rlimit(40)]
    #[verifier::spinoff_prover]
    fn advance(&mut self, step: usize)
        requires
            step < CURVE_POINTS,
            old(self).bounded(step as int),
        ensures
            final(self).bounded(step + 1),
            final(self).state() == maker_step(old(self).state(), step as int),
    {
        let drift: i64 = if step % 7 == 0 || step % 7 == 1 {
            4
        } else if step % 7 == 2 {
            -2
        } else if step % 7 == 3 || step % 7 == 4 {
            3
        } else {
            -5
        };
        let previous_mid = self.mid;
        self.mid = self.mid + drift;
        let skew: i64 = if self.inventory < -30 {
            -30
        } else if self.inventory > 30 {
            30
        } else {
            self.inventory
        };
        let bid = self.mid - 2 - skew / 10;
        let ask = self.mid + 2 - skew / 10;
        self.orders = self.orders + 2;

        if step % 3 == 0 {
            let qty: i64 = 10;
            self.inventory = self.inventory + qty;
            self.cash = self.cash - bid * qty;
            self.fills = self.fills + 1;
            if self.mid < previous_mid {
                self.adverse = self.adverse + (previous_mid - self.mid) * qty;
            }
        }
        if step % 4 == 1 {
            let held: i64 = if self.inventory < 0 { 0 } else { self.inventory };
            let qty: i64 = if held < 10 { held } else { 10 };
            if qty > 0 {
                assert(0 <= ask * qty <= 10_500 * 10) by (nonlinear_arith)
                    requires
                        0 < ask <= 10_500,
                        0 <= qty <= 10,
                ;
                self.inventory = self.inventory - qty;
                self.cash = self.cash + ask * qty;
                self.fills = self.fills + 1;
                if self.mid > previous_mid {
                    assert(0 <= (self.mid - previous_mid) * qty <= 5 * 10) by (nonlinear_arith)
                        requires
                            0 < self.mid - previous_mid <= 5,
                            0 <= qty <= 10,
                    ;
                    self.adverse = self.adverse + (self.mid - previous_mid) * qty;
                }
            }
        }
        let held_abs: i64 = if self.inventory < 0 { -self.inventory } else { self.inventory };
        if held_abs > self.max_inventory {
            self.max_inventory = held_abs;
        }
    }
}

/// Inventory-aware market making on a synthetic mid-price path.
pub fn inventory_aware_market_maker() -> (r: Report)
    ensures
        r.name@ == "inventory_aware_market_maker"@,
        r.metrics == maker_metrics(),
        r.equity_curve_cents.wf(),
        r.equity_curve_cents@ == maker_curve(64),
        0 <= r.metrics.inventory <= r.metrics.max_inventory,
        r.metrics == (StrategyMetrics {
            pnl_cents: 1250,
            slippage_cents: 0,
            inventory: 60,
            max_inventory: 60,
            fills: 38,
            orders: 128,
            adverse_selection_cents: 680,
            queue_ahead_shares: 420,
        }),
{
    proof {
        lemma_maker_figures();
    }
    let mut book = MakerBook {
        cash: 0,
        inventory: 0,
        max_inventory: 0,
        fills: 0,
        orders: 0,
        adverse: 0,
        mid: 10_100,
    };
    let mut curve = FixedSeries::<CURVE_POINTS>::new();
    let mut step: usize = 0;
    while step < CURVE_POINTS
        invariant
            step <= CURVE_POINTS,
            curve.wf(),
            book.state() == maker_run(step as nat),
            curve@ == maker_curve(step as nat),
            curve@.len() == step,
            book.bounded(step as int),
        decreases CURVE_POINTS - step,
    {
        book.advance(step);
        let e = book.equity();
        curve.push(e);
        step = step + 1;
    }
    let pnl_cents = book.equity();
    StrategyReport {
        name: "inventory_aware_market_maker",
        metrics: StrategyMetrics {
            pnl_cents,
            slippage_cents: 0,
            inventory: book.inventory,
            max_inventory: book.max_inventory,
            fills: book.fills,
            orders: book.orders,
            adverse_selection_cents: book.adverse,
            queue_ahead_shares: 420,
        },
        equity_curve_cents: curve,
    }
}

/// State of the order-flow imbalance experiment after some steps.
pub struct FlowState {
    pub cash: int,
    pub inventory: int,
    pub max_inventory: int,
    pub fills: int,
    pub orders: int,
    pub slippage: int,
    pub mid: int,
}

/// Synthetic top-of-book sizes of step `step`.
pub open spec fn flow_bid_size(step: int) -> int {
    800 + (step * 37) % 520
}

pub open spec fn flow_ask_size(step: int) -> int {
    780 + (step * 53 + 90) % 540
}

/// Book imbalance of step `step` in basis points.
pub open spec fn flow_imbalance(step: int) -> int {
    tdiv((flow_bid_size(step) - flow_ask_size(step)) * 10_000, flow_bid_size(step) + flow_ask_size(step))
}

/// One step of the imbalance strategy: the mid moves with the imbalance;
/// buy 5 above the mid on a strong bid imbalance, sell 5 below it on a
/// strong ask imbalance while long.
pub open spec fn flow_step(s: FlowState, step: int) -> FlowState {
    let imbalance = flow_imbalance(step);
    let mid = s.mid + tdiv(imbalance, 1_500);
    let bought = imbalance > 650;
    let sold = !bought && imbalance < -650 && s.inventory > 0;
    let inventory = if bought {
        s.inventory + 5
    } else if sold {
        s.inventory - 5
    } else {
        s.inventory
    };
    FlowState {
        cash: if bought {
            s.cash - (mid + 1) * 5
        } else if sold {
            s.cash + (mid - 1) * 5
        } else {
            s.cash
        },
        inventory,
        max_inventory: if abs(inventory) > s.max_inventory { abs(inventory) } else { s.max_inventory },
        fills: if bought || sold { s.fills + 1 } else { s.fills },
        orders: s.orders + 1,
        slippage: if bought || sold { s.slippage + 5 } else { s.slippage },
        mid,
    }
}

/// The imbalance strategy after `n` steps, starting flat at 101.00.
pub open spec fn flow_run(n: nat) -> FlowState
    decreases n,
{
    if n == 0 {
        FlowState {
            cash: 0,
            inventory: 0,
            max_inventory: 0,
            fills: 0,
            orders: 0,
            slippage: 0,
            mid: 10_100,
        }
    } else {
        flow_step(flow_run((n - 1) as nat), n - 1)
    }
}

pub open spec fn flow_equity(s: FlowState) -> i64 {
    (s.cash + s.inventory * s.mid) as i64
}

/// Equity after each of the first `n` steps.
pub open spec fn flow_curve(n: nat) -> Seq<i64>
    decreases n,
{
    if n == 0 {
        Seq::empty()
    } else {
        flow_curve((n - 1) as nat).push(flow_equity(flow_run(n)))
    }
}

/// Metrics of the imbalance strategy after its 64 steps.
pub open spec fn flow_metrics() -> StrategyMetrics {
    let s = flow_run(64);
    StrategyMetrics {
        pnl_cents: flow_equity(s),
        slippage_cents: s.slippage as i64,
        inventory: s.inventory as i64,
        max_inventory: s.max_inventory as i64,
        fills: s.fills as u32,
        orders: s.orders as u32,
        adverse_selection_cents: tdiv(s.slippage, 2) as i64,
        queue_ahead_shares: 0,
    }
}

/// The book imbalance of step `k`, from its book sizes and the quotient
/// of the scaled size difference by the total size.
proof fn lemma_imbalance_at(k: int, b: int, a: int, q: int)
    requires
        flow_bid_size(k) == b,
        flow_ask_size(k) == a,
        a + b > 0,
        q == (if b >= a { (b - a) * 10_000 } else { (a - b) * 10_000 }) / (a + b),
    ensures
        flow_imbalance(k) == if b >= a { q } else { -q },
{
    if b < a {
        assert(-((b - a) * 10_000) == (a - b) * 10_000);
    }
}

/// The imbalance strategy's figures: a loss of 2.20 dollars, 35 fills in
/// 64 orders, 35 shares held at the end and 45 at most.
#[verifier::spinoff_prover]
pub proof fn lemma_flow_figures()
    ensures
        flow_metrics() == (StrategyMetrics {
            pnl_cents: -220i64,
            slippage_cents: 175,
            inventory: 35,
            max_inventory: 45,
            fills: 35,
            orders: 64,
            adverse_selection_cents: 87,
            queue_ahead_shares: 0,
        }),
{
    assert(700000int / 1670int == 419) by (nonlinear_arith);
    lemma_imbalance_at(0, 800, 870, 419);
    assert(860000int / 1760int == 488) by (nonlinear_arith);
    lemma_imbalance_at(1, 837, 923, 488);
    assert(1020000int / 1850int == 551) by (nonlinear_arith);
    lemma_imbalance_at(2, 874, 976, 551);
    assert(1180000int / 1940int == 608) by (nonlinear_arith);
    lemma_imbalance_at(3, 911, 1029, 608);
    assert(1340000int / 2030int == 660) by (nonlinear_arith);
    lemma_imbalance_at(4, 948, 1082, 660);
    assert(1500000int / 2120int == 707) by (nonlinear_arith);
    lemma_imbalance_at(5, 985, 1135, 707);
    assert(1660000int / 2210int == 751) by (nonlinear_arith);
    lemma_imbalance_at(6, 1022, 1188, 751);
    assert(1820000int / 2300int == 791) by (nonlinear_arith);
    lemma_imbalance_at(7, 1059, 1241, 791);
    assert(1980000int / 2390int == 828) by (nonlinear_arith);
    lemma_imbalance_at(8, 1096, 1294, 828);
    assert(3260000int / 1940int == 1680) by (nonlinear_arith);
    lemma_imbalance_at(9, 1133, 807, 1680);
    assert(3100000int / 2030int == 1527) by (nonlinear_arith);
    lemma_imbalance_at(10, 1170, 860, 1527);
    assert(2940000int / 2120int == 1386) by (nonlinear_arith);
    lemma_imbalance_at(11, 1207, 913, 1386);
    assert(2780000int / 2210int == 1257) by (nonlinear_arith);
    lemma_imbalance_at(12, 1244, 966, 1257);
    assert(2620000int / 2300int == 1139) by (nonlinear_arith);
    lemma_imbalance_at(13, 1281, 1019, 1139);
    assert(2460000int / 2390int == 1029) by (nonlinear_arith);
    lemma_imbalance_at(14, 1318, 1072, 1029);
    assert(2900000int / 1960int == 1479) by (nonlinear_arith);
    lemma_imbalance_at(15, 835, 1125, 1479);
    assert(3060000int / 2050int == 1492) by (nonlinear_arith);
    lemma_imbalance_at(16, 872, 1178, 1492);
    assert(3220000int / 2140int == 1504) by (nonlinear_arith);
    lemma_imbalance_at(17, 909, 1231, 1504);
    assert(3380000int / 2230int == 1515) by (nonlinear_arith);
    lemma_imbalance_at(18, 946, 1284, 1515);
    assert(1860000int / 1780int == 1044) by (nonlinear_arith);
    lemma_imbalance_at(19, 983, 797, 1044);
    assert(1700000int / 1870int == 909) by (nonlinear_arith);
    lemma_imbalance_at(20, 1020, 850, 909);
    assert(1540000int / 1960int == 785) by (nonlinear_arith);
    lemma_imbalance_at(21, 1057, 903, 785);
    assert(1380000int / 2050int == 673) by (nonlinear_arith);
    lemma_imbalance_at(22, 1094, 956, 673);
    assert(1220000int / 2140int == 570) by (nonlinear_arith);
    lemma_imbalance_at(23, 1131, 1009, 570);
    assert(1060000int / 2230int == 475) by (nonlinear_arith);
    lemma_imbalance_at(24, 1168, 1062, 475);
    assert(900000int / 2320int == 387) by (nonlinear_arith);
    lemma_imbalance_at(25, 1205, 1115, 387);
    assert(740000int / 2410int == 307) by (nonlinear_arith);
    lemma_imbalance_at(26, 1242, 1168, 307);
    assert(580000int / 2500int == 232) by (nonlinear_arith);
    lemma_imbalance_at(27, 1279, 1221, 232);
    assert(420000int / 2590int == 162) by (nonlinear_arith);
    lemma_imbalance_at(28, 1316, 1274, 162);
    assert(460000int / 1620int == 283) by (nonlinear_arith);
    lemma_imbalance_at(29, 833, 787, 283);
    assert(300000int / 1710int == 175) by (nonlinear_arith);
    lemma_imbalance_at(30, 870, 840, 175);
    assert(140000int / 1800int == 77) by (nonlinear_arith);
    lemma_imbalance_at(31, 907, 893, 77);
    assert(20000int / 1890int == 10) by (nonlinear_arith);
    lemma_imbalance_at(32, 944, 946, 10);
    assert(180000int / 1980int == 90) by (nonlinear_arith);
    lemma_imbalance_at(33, 981, 999, 90);
    assert(340000int / 2070int == 164) by (nonlinear_arith);
    lemma_imbalance_at(34, 1018, 1052, 164);
    assert(500000int / 2160int == 231) by (nonlinear_arith);
    lemma_imbalance_at(35, 1055, 1105, 231);
    assert(660000int / 2250int == 293) by (nonlinear_arith);
    lemma_imbalance_at(36, 1092, 1158, 293);
    assert(820000int / 2340int == 350) by (nonlinear_arith);
    lemma_imbalance_at(37, 1129, 1211, 350);
    assert(980000int / 2430int == 403) by (nonlinear_arith);
    lemma_imbalance_at(38, 1166, 1264, 403);
    assert(1140000int / 2520int == 452) by (nonlinear_arith);
    lemma_imbalance_at(39, 1203, 1317, 452);
    assert(4100000int / 2070int == 1980) by (nonlinear_arith);
    lemma_imbalance_at(40, 1240, 830, 1980);
    assert(3940000int / 2160int == 1824) by (nonlinear_arith);
    lemma_imbalance_at(41, 1277, 883, 1824);
    assert(3780000int / 2250int == 1680) by (nonlinear_arith);
    lemma_imbalance_at(42, 1314, 936, 1680);
    assert(1580000int / 1820int == 868) by (nonlinear_arith);
    lemma_imbalance_at(43, 831, 989, 868);
    assert(1740000int / 1910int == 910) by (nonlinear_arith);
    lemma_imbalance_at(44, 868, 1042, 910);
    assert(1900000int / 2000int == 950) by (nonlinear_arith);
    lemma_imbalance_at(45, 905, 1095, 950);
    assert(2060000int / 2090int == 985) by (nonlinear_arith);
    lemma_imbalance_at(46, 942, 1148, 985);
    assert(2220000int / 2180int == 1018) by (nonlinear_arith);
    lemma_imbalance_at(47, 979, 1201, 1018);
    assert(2380000int / 2270int == 1048) by (nonlinear_arith);
    lemma_imbalance_at(48, 1016, 1254, 1048);
    assert(2540000int / 2360int == 1076) by (nonlinear_arith);
    lemma_imbalance_at(49, 1053, 1307, 1076);
    assert(2700000int / 1910int == 1413) by (nonlinear_arith);
    lemma_imbalance_at(50, 1090, 820, 1413);
    assert(2540000int / 2000int == 1270) by (nonlinear_arith);
    lemma_imbalance_at(51, 1127, 873, 1270);
    assert(2380000int / 2090int == 1138) by (nonlinear_arith);
    lemma_imbalance_at(52, 1164, 926, 1138);
    assert(2220000int / 2180int == 1018) by (nonlinear_arith);
    lemma_imbalance_at(53, 1201, 979, 1018);
    assert(2060000int / 2270int == 907) by (nonlinear_arith);
    lemma_imbalance_at(54, 1238, 1032, 907);
    assert(1900000int / 2360int == 805) by (nonlinear_arith);
    lemma_imbalance_at(55, 1275, 1085, 805);
    assert(1740000int / 2450int == 710) by (nonlinear_arith);
    lemma_imbalance_at(56, 1312, 1138, 710);
    assert(3620000int / 2020int == 1792) by (nonlinear_arith);
    lemma_imbalance_at(57, 829, 1191, 1792);
    assert(3780000int / 2110int == 1791) by (nonlinear_arith);
    lemma_imbalance_at(58, 866, 1244, 1791);
    assert(3940000int / 2200int == 1790) by (nonlinear_arith);
    lemma_imbalance_at(59, 903, 1297, 1790);
    assert(1300000int / 1750int == 742) by (nonlinear_arith);
    lemma_imbalance_at(60, 940, 810, 742);
    assert(1140000int / 1840int == 619) by (nonlinear_arith);
    lemma_imbalance_at(61, 977, 863, 619);
    assert(980000int / 1930int == 507) by (nonlinear_arith);
    lemma_imbalance_at(62, 1014, 916, 507);
    assert(820000int / 2020int == 405) by (nonlinear_arith);
    lemma_imbalance_at(63, 1051, 969, 405);
    assert(flow_run(0) == (FlowState { cash: 0, inventory: 0, max_inventory: 0, fills: 0, orders: 0, slippage: 0, mid: 10100 }));
    assert(flow_run(1) == (FlowState { cash: 0, inventory: 0, max_inventory: 0, fills: 0, orders: 1, slippage: 0, mid: 10100 }));
    assert(flow_run(2) == (FlowState { cash: 0, inventory: 0, max_inventory: 0, fills: 0, orders: 2, slippage: 0, mid: 10100 }));
    assert(flow_run(3) == (FlowState { cash: 0, inventory: 0, max_inventory: 0, fills: 0, orders: 3, slippage: 0, mid: 10100 }));
    assert(flow_run(4) == (FlowState { cash: 0, inventory: 0, max_inventory: 0, fills: 0, orders: 4, slippage: 0, mid: 10100 }));
    assert(flow_run(5) == (FlowState { cash: 0, inventory: 0, max_inventory: 0, fills: 0, orders: 5, slippage: 0, mid: 10100 }));
    assert(flow_run(6) == (FlowState { cash: 0, inventory: 0, max_inventory: 0, fills: 0, orders: 6, slippage: 0, mid: 10100 }));
    assert(flow_run(7) == (FlowState { cash: 0, inventory: 0, max_inventory: 0, fills: 0, orders: 7, slippage: 0, mid: 10100 }));
    assert(flow_run(8) == (FlowState { cash: 0, inventory: 0, max_inventory: 0, fills: 0, orders: 8, slippage: 0, mid: 10100 }));
    assert(flow_run(9) == (FlowState { cash: 0, inventory: 0, max_inventory: 0, fills: 0, orders: 9, slippage: 0, mid: 10100 }));
    assert(flow_run(10) == (FlowState { cash: -50510, inventory: 5, max_inventory: 5, fills: 1, orders: 10, slippage: 5, mid: 10101 }));
    assert(flow_run(11) == (FlowState { cash: -101025, inventory: 10, max_inventory: 10, fills: 2, orders: 11, slippage: 10, mid: 10102 }));
    assert(flow_run(12) == (FlowState { cash: -151540, inventory: 15, max_inventory: 15, fills: 3, orders: 12, slippage: 15, mid: 10102 }));
    assert(flow_run(13) == (FlowState { cash: -202055, inventory: 20, max_inventory: 20, fills: 4, orders: 13, slippage: 20, mid: 10102 }));
    assert(flow_run(14) == (FlowState { cash: -252570, inventory: 25, max_inventory: 25, fills: 5, orders: 14, slippage: 25, mid: 10102 }));
    assert(flow_run(15) == (FlowState { cash: -303085, inventory: 30, max_inventory: 30, fills: 6, orders: 15, slippage: 30, mid: 10102 }));
    assert(flow_run(16) == (FlowState { cash: -252580, inventory: 25, max_inventory: 30, fills: 7, orders: 16, slippage: 35, mid: 10102 }));
    assert(flow_run(17) == (FlowState { cash: -202075, inventory: 20, max_inventory: 30, fills: 8, orders: 17, slippage: 40, mid: 10102 }));
    assert(flow_run(18) == (FlowState { cash: -151575, inventory: 15, max_inventory: 30, fills: 9, orders: 18, slippage: 45, mid: 10101 }));
    assert(flow_run(19) == (FlowState { cash: -101080, inventory: 10, max_inventory: 30, fills: 10, orders: 19, slippage: 50, mid: 10100 }));
    assert(flow_run(20) == (FlowState { cash: -151585, inventory: 15, max_inventory: 30, fills: 11, orders: 20, slippage: 55, mid: 10100 }));
    assert(flow_run(21) == (FlowState { cash: -202090, inventory: 20, max_inventory: 30, fills: 12, orders: 21, slippage: 60, mid: 10100 }));
    assert(flow_run(22) == (FlowState { cash: -252595, inventory: 25, max_inventory: 30, fills: 13, orders: 22, slippage: 65, mid: 10100 }));
    assert(flow_run(23) == (FlowState { cash: -303100, inventory: 30, max_inventory: 30, fills: 14, orders: 23, slippage: 70, mid: 10100 }));
    assert(flow_run(24) == (FlowState { cash: -303100, inventory: 30, max_inventory: 30, fills: 14, orders: 24, slippage: 70, mid: 10100 }));
    assert(flow_run(25) == (FlowState { cash: -303100, inventory: 30, max_inventory: 30, fills: 14, orders: 25, slippage: 70, mid: 10100 }));
    assert(flow_run(26) == (FlowState { cash: -303100, inventory: 30, max_inventory: 30, fills: 14, orders: 26, slippage: 70, mid: 10100 }));
    assert(flow_run(27) == (FlowState { cash: -303100, inventory: 30, max_inventory: 30, fills: 14, orders: 27, slippage: 70, mid: 10100 }));
    assert(flow_run(28) == (FlowState { cash: -303100, inventory: 30, max_inventory: 30, fills: 14, orders: 28, slippage: 70, mid: 10100 }));
    assert(flow_run(29) == (FlowState { cash: -303100, inventory: 30, max_inventory: 30, fills: 14, orders: 29, slippage: 70, mid: 10100 }));
    assert(flow_run(30) == (FlowState { cash: -303100, inventory: 30, max_inventory: 30, fills: 14, orders: 30, slippage: 70, mid: 10100 }));
    assert(flow_run(31) == (FlowState { cash: -303100, inventory: 30, max_inventory: 30, fills: 14, orders: 31, slippage: 70, mid: 10100 }));
    assert(flow_run(32) == (FlowState { cash: -303100, inventory: 30, max_inventory: 30, fills: 14, orders: 32, slippage: 70, mid: 10100 }));
    assert(flow_run(33) == (FlowState { cash: -303100, inventory: 30, max_inventory: 30, fills: 14, orders: 33, slippage: 70, mid: 10100 }));
    assert(flow_run(34) == (FlowState { cash: -303100, inventory: 30, max_inventory: 30, fills: 14, orders: 34, slippage: 70, mid: 10100 }));
    assert(flow_run(35) == (FlowState { cash: -303100, inventory: 30, max_inventory: 30, fills: 14, orders: 35, slippage: 70, mid: 10100 }));
    assert(flow_run(36) == (FlowState { cash: -303100, inventory: 30, max_inventory: 30, fills: 14, orders: 36, slippage: 70, mid: 10100 }));
    assert(flow_run(37) == (FlowState { cash: -303100, inventory: 30, max_inventory: 30, fills: 14, orders: 37, slippage: 70, mid: 10100 }));
    assert(flow_run(38) == (FlowState { cash: -303100, inventory: 30, max_inventory: 30, fills: 14, orders: 38, slippage: 70, mid: 10100 }));
    assert(flow_run(39) == (FlowState { cash: -303100, inventory: 30, max_inventory: 30, fills: 14, orders: 39, slippage: 70, mid: 10100 }));
    assert(flow_run(40) == (FlowState { cash: -303100, inventory: 30, max_inventory: 30, fills: 14, orders: 40, slippage: 70, mid: 10100 }));
    assert(flow_run(41) == (FlowState { cash: -353610, inventory: 35, max_inventory: 35, fills: 15, orders: 41, slippage: 75, mid: 10101 }));
    assert(flow_run(42) == (FlowState { cash: -404125, inventory: 40, max_inventory: 40, fills: 16, orders: 42, slippage: 80, mid: 10102 }));
    assert(flow_run(43) == (FlowState { cash: -454645, inventory: 45, max_inventory: 45, fills: 17, orders: 43, slippage: 85, mid: 10103 }));
    assert(flow_run(44) == (FlowState { cash: -404135, inventory: 40, max_inventory: 45, fills: 18, orders: 44, slippage: 90, mid: 10103 }));
    assert(flow_run(45) == (FlowState { cash: -353625, inventory: 35, max_inventory: 45, fills: 19, orders: 45, slippage: 95, mid: 10103 }));
    assert(flow_run(46) == (FlowState { cash: -303115, inventory: 30, max_inventory: 45, fills: 20, orders: 46, slippage: 100, mid: 10103 }));
    assert(flow_run(47) == (FlowState { cash: -252605, inventory: 25, max_inventory: 45, fills: 21, orders: 47, slippage: 105, mid: 10103 }));
    assert(flow_run(48) == (FlowState { cash: -202095, inventory: 20, max_inventory: 45, fills: 22, orders: 48, slippage: 110, mid: 10103 }));
    assert(flow_run(49) == (FlowState { cash: -151585, inventory: 15, max_inventory: 45, fills: 23, orders: 49, slippage: 115, mid: 10103 }));
    assert(flow_run(50) == (FlowState { cash: -101075, inventory: 10, max_inventory: 45, fills: 24, orders: 50, slippage: 120, mid: 10103 }));
    assert(flow_run(51) == (FlowState { cash: -151595, inventory: 15, max_inventory: 45, fills: 25, orders: 51, slippage: 125, mid: 10103 }));
    assert(flow_run(52) == (FlowState { cash: -202115, inventory: 20, max_inventory: 45, fills: 26, orders: 52, slippage: 130, mid: 10103 }));
    assert(flow_run(53) == (FlowState { cash: -252635, inventory: 25, max_inventory: 45, fills: 27, orders: 53, slippage: 135, mid: 10103 }));
    assert(flow_run(54) == (FlowState { cash: -303155, inventory: 30, max_inventory: 45, fills: 28, orders: 54, slippage: 140, mid: 10103 }));
    assert(flow_run(55) == (FlowState { cash: -353675, inventory: 35, max_inventory: 45, fills: 29, orders: 55, slippage: 145, mid: 10103 }));
    assert(flow_run(56) == (FlowState { cash: -404195, inventory: 40, max_inventory: 45, fills: 30, orders: 56, slippage: 150, mid: 10103 }));
    assert(flow_run(57) == (FlowState { cash: -454715, inventory: 45, max_inventory: 45, fills: 31, orders: 57, slippage: 155, mid: 10103 }));
    assert(flow_run(58) == (FlowState { cash: -404210, inventory: 40, max_inventory: 45, fills: 32, orders: 58, slippage: 160, mid: 10102 }));
    assert(flow_run(59) == (FlowState { cash: -353710, inventory: 35, max_inventory: 45, fills: 33, orders: 59, slippage: 165, mid: 10101 }));
    assert(flow_run(60) == (FlowState { cash: -303215, inventory: 30, max_inventory: 45, fills: 34, orders: 60, slippage: 170, mid: 10100 }));
    assert(flow_run(61) == (FlowState { cash: -353720, inventory: 35, max_inventory: 45, fills: 35, orders: 61, slippage: 175, mid: 10100 }));
    assert(flow_run(62) == (FlowState { cash: -353720, inventory: 35, max_inventory: 45, fills: 35, orders: 62, slippage: 175, mid: 10100 }));
    assert(flow_run(63) == (FlowState { cash: -353720, inventory: 35, max_inventory: 45, fills: 35, orders: 63, slippage: 175, mid: 10100 }));
    assert(flow_run(64) == (FlowState { cash: -353720, inventory: 35, max_inventory: 45, fills: 35, orders: 64, slippage: 175, mid: 10100 }));
}

/// An imbalance in basis points lies strictly between -10000 and 10000.
proof fn lemma_imbalance_bound(d: int, b: int)
    requires
        -b < d < b,
    ensures
        -10_000 < tdiv(d * 10_000, b) < 10_000,
{
    if d >= 0 {
        lemma_multiply_divide_lt(d * 10_000, b, 10_000);
        lemma_div_pos_is_pos(d * 10_000, b);
    } else {
        lemma_multiply_divide_lt((-d) * 10_000, b, 10_000);
        lemma_div_pos_is_pos((-d) * 10_000, b);
        assert(-(d * 10_000) == (-d) * 10_000);
    }
}

/// Running values of the imbalance strategy.
struct FlowBook {
    cash: i64,
    inventory: i64,
    max_inventory: i64,
    fills: u32,
    orders: u32,
    slippage: i64,
    mid: i64,
}

impl FlowBook {
    spec fn state(&self) -> FlowState {
        FlowState {
            cash: self.cash as int,
            inventory: self.inventory as int,
            max_inventory: self.max_inventory as int,
            fills: self.fills as int,
            orders: self.orders as int,
            slippage: self.slippage as int,
            mid: self.mid as int,
        }
    }

    /// Ranges the values stay in after `k` steps.
    spec fn bounded(&self, k: int) -> bool {
        &&& 10_100 - 7 * k <= self.mid <= 10_100 + 7 * k
        &&& 0 <= self.inventory <= 5 * k
        &&& self.inventory % 5 == 0
        &&& 0 <= self.max_inventory <= 5 * k
        &&& self.inventory <= self.max_inventory
        &&& -60_000 * k <= self.cash <= 60_000 * k
        &&& self.fills <= k
        &&& self.orders == k
        &&& 0 <= self.slippage <= 5 * k
    }

    fn equity(&self) -> (r: i64)
        requires
            0 <= self.inventory <= 320,
            0 < self.mid <= 10_600,
            -60_000 * 64 <= self.cash <= 60_000 * 64,
        ensures
            r == flow_equity(self.state()),
    {
        assert(0 <= self.inventory * self.mid <= 320 * 10_600) by (nonlinear_arith)
            requires
                0 <= self.inventory <= 320,
                0 < self.mid <= 10_600,
        ;
        self.cash + self.inventory * self.mid
    }

    #[verifier::rlimit(40)]
    #[verifier::spinoff_prover]
    fn advance(&mut self, step: usize)
        requires
            step < CURVE_POINTS,
            old(self).bounded(step as int),
        ensures
            final(self).bounded(step + 1),
            final(self).state() == flow_step(old(self).state(), step as int),
    {
        let bid_size: i64 = 800 + ((step * 37) % 520) as i64;
        let ask_size: i64 = 780 + ((step * 53 + 90) % 540) as i64;
        let d: i64 = bid_size - ask_size;
        let imbalance_bps: i64 = (d * 10_000) / (bid_size + ask_size);
        proof {
            lemma_imbalance_bound(d as int, (bid_size + ask_size) as int);
        }
        assert(imbalance_bps == flow_imbalance(step as int));
        self.mid = self.mid + imbalance_bps / 1_500;

        if imbalance_bps > 650 {
            let price = self.mid + 1;
            self.inventory = self.inventory + 5;
            self.cash = self.cash - price * 5;
            self.slippage = self.slippage + 5;
            self.fills = self.fills + 1;
            self.orders = self.orders + 1;
        } else if imbalance_bps < -650 && self.inventory > 0 {
            let price = self.mid - 1;
            self.inventory = self.inventory - 5;
            self.cash = self.cash + price * 5;
            self.slippage = self.slippage + 5;
            self.fills = self.fills + 1;
            self.orders = self.orders + 1;
        } else {
            self.orders = self.orders + 1;
        }
        let held_abs: i64 = if self.inventory < 0 { -self.inventory } else { self.inventory };
        if held_abs > self.max_inventory {
            self.max_inventory = held_abs;
        }
    }
}

/// Trade the synthetic top-of-book imbalance.
pub fn order_flow_imbalance_strategy() -> (r: Report)
    ensures
        r.name@ == "order_flow_imbalance"@,
        r.metrics == flow_metrics(),
        r.equity_curve_cents.wf(),
        r.equity_curve_cents@ == flow_curve(64),
        0 <= r.metrics.inventory <= r.metrics.max_inventory,
        r.metrics == (StrategyMetrics {
            pnl_cents: -220i64,
            slippage_cents: 175,
            inventory: 35,
            max_inventory: 45,
            fills: 35,
            orders: 64,
            adverse_selection_cents: 87,
            queue_ahead_shares: 0,
        }),
{
    proof {
        lemma_flow_figures();
    }
    let mut book = FlowBook {
        cash: 0,
        inventory: 0,
        max_inventory: 0,
        fills: 0,
        orders: 0,
        slippage: 0,
        mid: 10_100,
    };
    let mut curve = FixedSeries::<CURVE_POINTS>::new();
    let mut step: usize = 0;
    while step < CURVE_POINTS
        invariant
            step <= CURVE_POINTS,
            curve.wf(),
            book.state() == flow_run(step as nat),
            curve@ == flow_curve(step as nat),
            curve@.len() == step,
            book.bounded(step as int),
        decreases CURVE_POINTS - step,
    {
        book.advance(step);
        let e = book.equity();
        curve.push(e);
        step = step + 1;
    }
    let pnl_cents = book.equity();
    StrategyReport {
        name: "order_flow_imbalance",
        metrics: StrategyMetrics {
            pnl_cents,
            slippage_cents: book.slippage,
            inventory: book.inventory,
            max_inventory: book.max_inventory,
            fills: book.fills,
            orders: book.orders,
            adverse_selection_cents: book.slippage / 2,
            queue_ahead_shares: 0,
        },
        equity_curve_cents: curve,
    }
}

/// Quantity filled by the reports of agents of `kind`.
pub open spec fn filled_sum(rs: Seq<ArrivalView>, kind: AgentKind) -> int
    decreases rs.len(),
{
    if rs.len() == 0 {
        0
    } else {
        let a = rs.last();
        filled_sum(rs.drop_last(), kind) + if a.agent_kind == kind && a.report.filled_qty > 0 {
            a.report.filled_qty as int
        } else {
            0
        }
    }
}

/// Edge in cents per share that an agent of `kind` captures on a fill.
pub open spec fn agent_edge(kind: AgentKind) -> int {
    match kind {
        AgentKind::ColocatedMarketMaker => 3,
        AgentKind::LatencyArbitrageTrader => 1,
        AgentKind::RemoteTrader => -3,
    }
}

/// Edge captured over the reports, each fill weighted by its agent's edge.
pub open spec fn edge_pnl(rs: Seq<ArrivalView>) -> int
    decreases rs.len(),
{
    if rs.len() == 0 {
        0
    } else {
        let a = rs.last();
        edge_pnl(rs.drop_last()) + if a.report.filled_qty > 0 {
            a.report.filled_qty * agent_edge(a.agent_kind)
        } else {
            0
        }
    }
}

/// Running edge after each report.
pub open spec fn edge_curve(rs: Seq<ArrivalView>) -> Seq<i64>
    decreases rs.len(),
{
    if rs.len() == 0 {
        Seq::empty()
    } else {
        edge_curve(rs.drop_last()).push(edge_pnl(rs) as i64)
    }
}

/// Metrics of the latency-arbitrage experiment over a race.
pub open spec fn arbitrage_metrics(rs: Seq<ArrivalView>, m: RaceMetrics) -> StrategyMetrics {
    StrategyMetrics {
        pnl_cents: (filled_sum(rs, AgentKind::ColocatedMarketMaker) * 3 - filled_sum(
            rs,
            AgentKind::RemoteTrader,
        ) * 3) as i64,
        slippage_cents: 0,
        inventory: 0,
        max_inventory: 0,
        fills: m.colocated_wins as u32,
        orders: m.orders_sent as u32,
        adverse_selection_cents: (filled_sum(rs, AgentKind::RemoteTrader) * 3) as i64,
        queue_ahead_shares: (if m.avg_queue_advantage_ns < u32::MAX {
            m.avg_queue_advantage_ns as int
        } else {
            u32::MAX as int
        }) as u32,
    }
}

proof fn lemma_filled_sum_bound(rs: Seq<ArrivalView>, kind: AgentKind)
    ensures
        0 <= filled_sum(rs, kind) <= rs.len() * 0xffff_ffff,
    decreases rs.len(),
{
    if rs.len() > 0 {
        lemma_filled_sum_bound(rs.drop_last(), kind);
    }
}

proof fn lemma_edge_pnl_bound(rs: Seq<ArrivalView>)
    ensures
        -3 * rs.len() * 0xffff_ffff <= edge_pnl(rs) <= 3 * rs.len() * 0xffff_ffff,
    decreases rs.len(),
{
    if rs.len() > 0 {
        lemma_edge_pnl_bound(rs.drop_last());
        let a = rs.last();
        let q = a.report.filled_qty as int;
        assert(-3 * 0xffff_ffff <= q * agent_edge(a.agent_kind) <= 3 * 0xffff_ffff) by (nonlinear_arith)
            requires
                0 <= q <= 0xffff_ffff,
                -3 <= agent_edge(a.agent_kind) <= 3,
        ;
    }
}

/// Toy latency arbitrage: the co-located maker earns a small edge on each
/// fill it wins in the race for seed 42, the remote trader pays it.
pub fn latency_arbitrage_strategy() -> (r: Report)
    ensures
        r.name@ == "toy_latency_arbitrage"@,
        r.metrics == arbitrage_metrics(
            race_reports(42),
            metrics_spec(60, race_reports(42), race_schedule(42).dropped.len()),
        ),
        r.equity_curve_cents.wf(),
        r.equity_curve_cents@ == edge_curve(race_reports(42)),
{
    let race = run_latency_race(42);
    proof {
        lemma_race_reports_len(42);
    }
    let ghost rs = race_reports(42);
    let edge_cents: i64 = 3;
    let mut colocated_filled: i64 = 0;
    let mut remote_filled: i64 = 0;
    let mut k: usize = 0;
    assert(rs.take(0) =~= Seq::<ArrivalView>::empty());
    while k < race.reports.len()
        invariant
            k <= race.reports@.len(),
            rs.len() <= 60,
            arrival_views(race.reports@) == rs,
            colocated_filled == filled_sum(rs.take(k as int), AgentKind::ColocatedMarketMaker),
            remote_filled == filled_sum(rs.take(k as int), AgentKind::RemoteTrader),
        decreases race.reports@.len() - k,
    {
        proof {
            lemma_filled_sum_bound(rs.take(k as int), AgentKind::ColocatedMarketMaker);
            lemma_filled_sum_bound(rs.take(k as int), AgentKind::RemoteTrader);
        }
        assert(rs.take(k + 1).drop_last() =~= rs.take(k as int));
        assert(rs.take(k + 1).last() == race.reports@[k as int]@);
        let report = &race.reports[k];
        if report.agent_kind == AgentKind::ColocatedMarketMaker && report.report.filled_qty > 0 {
            colocated_filled = colocated_filled + report.report.filled_qty as i64;
        }
        if report.agent_kind == AgentKind::RemoteTrader && report.report.filled_qty > 0 {
            remote_filled = remote_filled + report.report.filled_qty as i64;
        }
        k = k + 1;
    }
    assert(rs.take(rs.len() as int) =~= rs);
    proof {
        lemma_filled_sum_bound(rs, AgentKind::ColocatedMarketMaker);
        lemma_filled_sum_bound(rs, AgentKind::RemoteTrader);
    }

    let mut curve = FixedSeries::<CURVE_POINTS>::new();
    let mut pnl: i64 = 0;
    let mut j: usize = 0;
    while j < race.reports.len() && j < CURVE_POINTS
        invariant
            j <= race.reports@.len(),
            rs.len() <= 60,
            arrival_views(race.reports@) == rs,
            edge_cents == 3,
            curve.wf(),
            curve@.len() == j,
            pnl == edge_pnl(rs.take(j as int)),
            curve@ == edge_curve(rs.take(j as int)),
        decreases race.reports@.len() - j,
    {
        proof {
            lemma_edge_pnl_bound(rs.take(j as int));
        }
        assert(rs.take(j + 1).drop_last() =~= rs.take(j as int));
        assert(rs.take(j + 1).last() == race.reports@[j as int]@);
        let report = &race.reports[j];
        if report.report.filled_qty > 0 {
            let qty: i64 = report.report.filled_qty as i64;
            let agent_edge: i64 = match report.agent_kind {
                AgentKind::ColocatedMarketMaker => edge_cents,
                AgentKind::LatencyArbitrageTrader => edge_cents / 2,
                AgentKind::RemoteTrader => -edge_cents,
            };
            assert(-3 * 0xffff_ffff <= qty * agent_edge <= 3 * 0xffff_ffff) by (nonlinear_arith)
                requires
                    0 <= qty <= 0xffff_ffff,
                    -3 <= agent_edge <= 3,
            ;
            pnl = pnl + qty * agent_edge;
        }
        curve.push(pnl);
        j = j + 1;
    }
    assert(rs.take(rs.len() as int) =~= rs);

    let queue_ahead: u64 = if race.metrics.avg_queue_advantage_ns < u32::MAX as u64 {
        race.metrics.avg_queue_advantage_ns
    } else {
        u32::MAX as u64
    };
    StrategyReport {
        name: "toy_latency_arbitrage",
        metrics: StrategyMetrics {
            pnl_cents: colocated_filled * edge_cents - remote_filled * edge_cents,
            slippage_cents: 0,
            inventory: 0,
            max_inventory: 0,
            fills: #[verifier::truncate] (race.metrics.colocated_wins as u32),
            orders: #[verifier::truncate] (race.metrics.orders_sent as u32),
            adverse_selection_cents: remote_filled * edge_cents,
            queue_ahead_shares: queue_ahead as u32,
        },
        equity_curve_cents: curve,
    }
}

/// Run the three strategy experiments.
pub fn run_strategy_suite() -> (r: StrategySuite)
    ensures
        r.market_maker.name@ == "inventory_aware_market_maker"@,
        r.market_maker.metrics == maker_metrics(),
        r.market_maker.equity_curve_cents@ == maker_curve(64),
        r.order_flow_imbalance.name@ == "order_flow_imbalance"@,
        r.order_flow_imbalance.metrics == flow_metrics(),
        r.order_flow_imbalance.equity_curve_cents@ == flow_curve(64),
        r.latency_arbitrage.name@ == "toy_latency_arbitrage"@,
        r.latency_arbitrage.metrics == arbitrage_metrics(
            race_reports(42),
            metrics_spec(60, race_reports(42), race_schedule(42).dropped.len()),
        ),
        r.latency_arbitrage.equity_curve_cents@ == edge_curve(race_reports(42)),
        r.market_maker.equity_curve_cents.wf(),
        r.order_flow_imbalance.equity_curve_cents.wf(),
        r.latency_arbitrage.equity_curve_cents.wf(),
{
    StrategySuite {
        market_maker: inventory_aware_market_maker(),
        order_flow_imbalance: order_flow_imbalance_strategy(),
        latency_arbitrage: latency_arbitrage_strategy(),
    }
}

} // verus!
