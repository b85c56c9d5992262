//! Strategy metrics, bounded equity series and fixed-width histograms.
use vstd::prelude::*;

verus! {

/// Truncating integer division, as Rust's `/` computes it (`b > 0`).
pub open spec fn tdiv(a: int, b: int) -> int {
    if a >= 0 {
        a / b
    } else {
        -((-a) / b)
    }
}

#[derive(Debug, Clone, Copy, PartialEq, Eq, Structural)]
pub struct StrategyMetrics {
    pub pnl_cents: i64,
    pub slippage_cents: i64,
    pub inventory: i64,
    pub max_inventory: i64,
    pub fills: u32,
    pub orders: u32,
    pub adverse_selection_cents: i64,
    pub queue_ahead_shares: u32,
}

impl StrategyMetrics {
    /// Fills per order in basis points (0 when no order was sent), cut to
    /// 32 bits.
    pub fn fill_ratio_bps(self) -> (r: u32)
        ensures
            self.orders == 0 ==> r == 0,
            self.orders > 0 ==> r == ((self.fills * 10_000) / (self.orders as int)) as u32,
    {
        if self.orders == 0 {
            return 0;
        }
        ((self.fills as u64 * 10_000) / self.orders as u64) as u32
    }
}

/// The last `n` values of `s` (all of them when there are fewer).
pub open spec fn keep_last(s: Seq<i64>, n: nat) -> Seq<i64> {
    if s.len() <= n {
        s
    } else {
        s.skip(s.len() - n)
    }
}

/// A series that keeps the last `N` values pushed into it.
#[derive(Debug, Clone, PartialEq, Eq)]
pub struct FixedSeries<const N: usize> {
    values: Vec<i64>,
}

impl<const N: usize> View for FixedSeries<N> {
    type V = Seq<i64>;

    closed spec fn view(&self) -> Seq<i64> {
        self.values@
    }
}

impl<const N: usize> FixedSeries<N> {
    /// Never more than `N` values.
    pub closed spec fn wf(&self) -> bool {
        self.values@.len() <= N
    }

    /// A series holds at most `N` values.
    pub proof fn lemma_wf(&self)
        requires
            self.wf(),
        ensures
            self@.len() <= N,
    {
    }

    pub fn new() -> (r: Self)
        ensures
            r.wf(),
            r@ == Seq::<i64>::empty(),
    {
        FixedSeries { values: Vec::new() }
    }

    /// Append `value`, dropping the oldest value once `N` are held.
    pub fn push(&mut self, value: i64)
        requires
            old(self).wf(),
        ensures
            final(self).wf(),
            final(self)@.len() <= N,
            final(self)@ == keep_last(old(self)@.push(value), N as nat),
    {
        if N == 0 {
            assert(old(self)@.push(value).skip(1) =~= Seq::<i64>::empty());
            return;
        }
        if self.values.len() < N {
            self.values.push(value);
        } else {
            let ghost s0 = self.values@;
            self.values.remove(0);
            self.values.push(value);
            assert(self.values@ =~= s0.push(value).skip(s0.push(value).len() - N));
        }
    }

    pub fn as_slice(&self) -> (r: &[i64])
        ensures
            r@ == self@,
    {
        self.values.as_slice()
    }

    pub fn len(&self) -> (r: usize)
        ensures
            r == self@.len(),
    {
        self.values.len()
    }

    pub fn is_empty(&self) -> (r: bool)
        ensures
            r == (self@.len() == 0),
    {
        self.values.len() == 0
    }
}

impl<const N: usize> Default for FixedSeries<N> {
    fn default() -> (r: Self)
        ensures
            r.wf(),
            r@ == Seq::<i64>::empty(),
    {
        Self::new()
    }
}

#[derive(Debug, Clone, PartialEq, Eq)]
pub struct StrategyReport<const N: usize> {
    pub name: &'static str,
    pub metrics: StrategyMetrics,
    pub equity_curve_cents: FixedSeries<N>,
}

/// A histogram of `BINS` bins of equal `width` starting at `min`; values
/// outside the range count in the first or last bin.
#[derive(Debug, Clone, PartialEq, Eq)]
pub struct FixedHistogram<const BINS: usize> {
    min: i64,
    width: i64,
    bins: Vec<u32>,
}

/// Mathematical view of a histogram.
pub struct HistogramView {
    pub min: i64,
    pub width: i64,
    pub bins: Seq<u32>,
}

impl<const BINS: usize> View for FixedHistogram<BINS> {
    type V = HistogramView;

    closed spec fn view(&self) -> HistogramView {
        HistogramView { min: self.min, width: self.width, bins: self.bins@ }
    }
}

/// The bin that `value` falls in: `(value - min) / width` clamped to
/// `0..bins`.
pub open spec fn bin_index(min: i64, width: i64, bins: nat, value: i64) -> int {
    let raw = tdiv(value - min, width as int);
    if raw < 0 {
        0
    } else if raw > bins - 1 {
        bins - 1
    } else {
        raw
    }
}

impl<const BINS: usize> FixedHistogram<BINS> {
    /// Exactly `BINS` bins.
    pub closed spec fn wf(&self) -> bool {
        self.bins@.len() == BINS
    }

    /// A histogram has exactly `BINS` bins.
    pub proof fn lemma_wf(&self)
        requires
            self.wf(),
        ensures
            self@.bins.len() == BINS,
    {
    }

    pub fn new(min: i64, width: i64) -> (r: Self)
        ensures
            r.wf(),
            r@.min == min,
            r@.width == width,
            r@.bins == Seq::new(BINS as nat, |i: int| 0u32),
    {
        let mut bins: Vec<u32> = Vec::new();
        let mut k: usize = 0;
        while k < BINS
            invariant
                k <= BINS,
                bins@ == Seq::new(k as nat, |i: int| 0u32),
            decreases BINS - k,
        {
            bins.push(0);
            k = k + 1;
            assert(bins@ =~= Seq::new(k as nat, |i: int| 0u32));
        }
        FixedHistogram { min, width, bins }
    }

    /// Count `value` in its bin; a histogram without bins or with a
    /// non-positive width ignores it.
    pub fn observe(&mut self, value: i64)
        requires
            old(self).wf(),
            BINS <= i64::MAX,
            BINS > 0 && old(self)@.width > 0 ==> {
                &&& i64::MIN <= value - old(self)@.min <= i64::MAX
                &&& old(self)@.bins[bin_index(old(self)@.min, old(self)@.width, BINS as nat, value)]
                    < u32::MAX
            },
        ensures
            final(self).wf(),
            final(self)@.bins.len() == BINS,
            BINS == 0 || old(self)@.width <= 0 ==> final(self)@ == old(self)@,
            BINS > 0 && old(self)@.width > 0 ==> {
                let i = bin_index(old(self)@.min, old(self)@.width, BINS as nat, value);
                final(self)@ == HistogramView {
                    bins: old(self)@.bins.update(i, (old(self)@.bins[i] + 1) as u32),
                    ..old(self)@
                }
            },
    {
        if BINS == 0 || self.width <= 0 {
            return;
        }
        let top: i64 = BINS as i64 - 1;
        let q: i64 = (value - self.min) / self.width;
        let raw: i64 = if q < 0 {
            0
        } else if q > top {
            top
        } else {
            q
        };
        let i = raw as usize;
        let c = self.bins[i];
        self.bins.set(i, c + 1);
    }

    pub fn bins(&self) -> (r: &[u32])
        ensures
            r@ == self@.bins,
            self.wf() ==> r@.len() == BINS,
    {
        self.bins.as_slice()
    }
}

} // verus!
