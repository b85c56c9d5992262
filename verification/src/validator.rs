//! Event-by-event validation of a reconstructed book against LOBSTER's
//! published visible book.
use vstd::prelude::*;
use crate::fields::{
    chars_of, parse_int, pieces_view, split_chars, split_on, trim, trim_chars, parse_int_chars,
};
use crate::lobster_parser::slice_chars;
use crate::market_events::{MarketEvent, Price, Quantity, Side};
use crate::orderbook::{
    book_error_text, from_snapshot_spec, snapshot_view, apply_lobster_delta_spec, Level, OrderBook,
    Snapshot, SnapshotView, EMPTY_ASK_PRICE, EMPTY_BID_PRICE,
};
use crate::replay_engine::ReplayEngine;
use crate::sides::BookView;
use crate::text::{decimal, push_chars, push_decimal, push_signed, push_str, signed_decimal};

verus! {

#[derive(Debug, Clone, PartialEq, Eq)]
pub enum ValidationError {
    Io(String),
    SnapshotParse { line: usize, message: String },
    LengthMismatch { events: usize, snapshots: usize },
    Replay { event_index: usize, message: String },
    InvalidTransition {
        event_index: usize,
        message: String,
        previous: Snapshot,
        expected: Snapshot,
    },
    Mismatch { event_index: usize, expected: Snapshot, actual: Snapshot },
}

/// Mathematical view of a validation error.
pub enum ValidationErrorView {
    Io(Seq<char>),
    SnapshotParse { line: usize, message: Seq<char> },
    LengthMismatch { events: usize, snapshots: usize },
    Replay { event_index: usize, message: Seq<char> },
    InvalidTransition {
        event_index: usize,
        message: Seq<char>,
        previous: SnapshotView,
        expected: SnapshotView,
    },
    Mismatch { event_index: usize, expected: SnapshotView, actual: SnapshotView },
}

impl View for ValidationError {
    type V = ValidationErrorView;

    open spec fn view(&self) -> ValidationErrorView {
        match self {
            ValidationError::Io(m) => ValidationErrorView::Io(m@),
            ValidationError::SnapshotParse { line, message } => ValidationErrorView::SnapshotParse {
                line: *line,
                message: message@,
            },
            ValidationError::LengthMismatch { events, snapshots } => ValidationErrorView::LengthMismatch {
                events: *events,
                snapshots: *snapshots,
            },
            ValidationError::Replay { event_index, message } => ValidationErrorView::Replay {
                event_index: *event_index,
                message: message@,
            },
            ValidationError::InvalidTransition { event_index, message, previous, expected } => {
                ValidationErrorView::InvalidTransition {
                    event_index: *event_index,
                    message: message@,
                    previous: previous@,
                    expected: expected@,
                }
            },
            ValidationError::Mismatch { event_index, expected, actual } => ValidationErrorView::Mismatch {
                event_index: *event_index,
                expected: expected@,
                actual: actual@,
            },
        }
    }
}

/// `ask price,ask qty,bid price,bid qty` for one depth.
pub open spec fn level_pair_text(a: Level, b: Level) -> Seq<char> {
    signed_decimal(a.price as int) + seq![','] + decimal(a.qty as nat) + seq![','] + signed_decimal(
        b.price as int,
    ) + seq![','] + decimal(b.qty as nat)
}

/// The first `k` depths, comma separated.
pub open spec fn snapshot_text_prefix(asks: Seq<Level>, bids: Seq<Level>, k: nat) -> Seq<char>
    decreases k,
{
    if k == 0 {
        Seq::empty()
    } else if k == 1 {
        level_pair_text(asks[0], bids[0])
    } else {
        snapshot_text_prefix(asks, bids, (k - 1) as nat) + seq![','] + level_pair_text(
            asks[k - 1],
            bids[k - 1],
        )
    }
}

/// A snapshot as one CSV row, depth by depth, as deep as both sides go.
pub open spec fn snapshot_text(s: SnapshotView) -> Seq<char> {
    let k = if s.asks.len() < s.bids.len() { s.asks.len() } else { s.bids.len() };
    snapshot_text_prefix(s.asks, s.bids, k)
}

fn push_comma(s: &mut String)
    ensures
        final(s)@ == old(s)@ + seq![','],
{
    proof {
        reveal_strlit(",");
    }
    push_str(s, ",");
}

/// A snapshot as one CSV row: `ask price,ask qty,bid price,bid qty` for
/// each depth.
pub fn format_snapshot(snapshot: &Snapshot) -> (r: String)
    ensures
        r@ == snapshot_text(snapshot@),
{
    let n = if snapshot.asks.len() < snapshot.bids.len() {
        snapshot.asks.len()
    } else {
        snapshot.bids.len()
    };
    let mut s = String::new();
    let mut k: usize = 0;
    while k < n
        invariant
            k <= n,
            n <= snapshot.asks@.len(),
            n <= snapshot.bids@.len(),
            s@ == snapshot_text_prefix(snapshot.asks@, snapshot.bids@, k as nat),
        decreases n - k,
    {
        if k > 0 {
            push_comma(&mut s);
        }
        let ask = snapshot.asks[k];
        let bid = snapshot.bids[k];
        push_signed(&mut s, ask.price);
        push_comma(&mut s);
        push_decimal(&mut s, ask.qty as u64);
        push_comma(&mut s);
        push_signed(&mut s, bid.price);
        push_comma(&mut s);
        push_decimal(&mut s, bid.qty as u64);
        k = k + 1;
        assert(s@ =~= snapshot_text_prefix(snapshot.asks@, snapshot.bids@, k as nat));
    }
    s
}


/// Human-readable text of a validation error.
pub open spec fn validation_error_text(e: ValidationErrorView) -> Seq<char> {
    match e {
        ValidationErrorView::Io(m) => m,
        ValidationErrorView::SnapshotParse { line, message } => "orderbook parse error on line "@
            + decimal(line as nat) + ": "@ + message,
        ValidationErrorView::LengthMismatch { events, snapshots } => "message/orderbook row count mismatch: "@
            + decimal(events as nat) + " events, "@ + decimal(snapshots as nat) + " snapshots"@,
        ValidationErrorView::Replay { event_index, message } => "replay failed at event index "@
            + decimal(event_index as nat) + ": "@ + message,
        ValidationErrorView::InvalidTransition { event_index, message, previous, expected } => {
            "invalid event transition\nevent index: "@ + decimal(event_index as nat) + "\nreason: "@
                + message + "\nprevious snapshot: "@ + snapshot_text(previous)
                + "\nexpected snapshot: "@ + snapshot_text(expected)
        },
        ValidationErrorView::Mismatch { event_index, expected, actual } => "Validation mismatch\nevent index: "@
            + decimal(event_index as nat) + "\nexpected snapshot: "@ + snapshot_text(expected)
            + "\nactual snapshot:   "@ + snapshot_text(actual),
    }
}

impl ValidationError {
    /// The error's message.
    pub fn to_string(&self) -> (r: String)
        ensures
            r@ == validation_error_text(self@),
    {
        let mut s = String::new();
        match self {
            ValidationError::Io(m) => {
                push_str(&mut s, m.as_str());
            },
            ValidationError::SnapshotParse { line, message } => {
                push_str(&mut s, "orderbook parse error on line ");
                push_decimal(&mut s, *line as u64);
                push_str(&mut s, ": ");
                push_str(&mut s, message.as_str());
            },
            ValidationError::LengthMismatch { events, snapshots } => {
                push_str(&mut s, "message/orderbook row count mismatch: ");
                push_decimal(&mut s, *events as u64);
                push_str(&mut s, " events, ");
                push_decimal(&mut s, *snapshots as u64);
                push_str(&mut s, " snapshots");
            },
            ValidationError::Replay { event_index, message } => {
                push_str(&mut s, "replay failed at event index ");
                push_decimal(&mut s, *event_index as u64);
                push_str(&mut s, ": ");
                push_str(&mut s, message.as_str());
            },
            ValidationError::InvalidTransition { event_index, message, previous, expected } => {
                push_str(&mut s, "invalid event transition\nevent index: ");
                push_decimal(&mut s, *event_index as u64);
                push_str(&mut s, "\nreason: ");
                push_str(&mut s, message.as_str());
                push_str(&mut s, "\nprevious snapshot: ");
                let p = format_snapshot(previous);
                push_str(&mut s, p.as_str());
                push_str(&mut s, "\nexpected snapshot: ");
                let x = format_snapshot(expected);
                push_str(&mut s, x.as_str());
            },
            ValidationError::Mismatch { event_index, expected, actual } => {
                push_str(&mut s, "Validation mismatch\nevent index: ");
                push_decimal(&mut s, *event_index as u64);
                push_str(&mut s, "\nexpected snapshot: ");
                let x = format_snapshot(expected);
                push_str(&mut s, x.as_str());
                push_str(&mut s, "\nactual snapshot:   ");
                let a = format_snapshot(actual);
                push_str(&mut s, a.as_str());
            },
        }
        assert(s@ =~= validation_error_text(self@));
        s
    }
}

/// One level's four columns, or the first bad column's message.
pub open spec fn depth_spec(fs: Seq<Seq<char>>, o: int) -> Result<(Level, Level), Seq<char>> {
    match parse_int(fs[o], true, i64::MIN as int, i64::MAX as int) {
        None => Err("invalid price "@ + fs[o]),
        Some(ap) => match parse_int(fs[o + 1], false, 0, u32::MAX as int) {
            None => Err("invalid quantity "@ + fs[o + 1]),
            Some(aq) => match parse_int(fs[o + 2], true, i64::MIN as int, i64::MAX as int) {
                None => Err("invalid price "@ + fs[o + 2]),
                Some(bp) => match parse_int(fs[o + 3], false, 0, u32::MAX as int) {
                    None => Err("invalid quantity "@ + fs[o + 3]),
                    Some(bq) => Ok(
                        (
                            Level { price: ap as i64, qty: aq as u32 },
                            Level { price: bp as i64, qty: bq as u32 },
                        ),
                    ),
                },
            },
        },
    }
}

/// The first `n` depths of trimmed columns `fs`.
pub open spec fn depths_spec(fs: Seq<Seq<char>>, n: nat) -> Result<SnapshotView, Seq<char>>
    decreases n,
{
    if n == 0 {
        Ok(SnapshotView { asks: Seq::empty(), bids: Seq::empty() })
    } else {
        match depths_spec(fs, (n - 1) as nat) {
            Err(m) => Err(m),
            Ok(s) => match depth_spec(fs, 4 * (n - 1)) {
                Err(m) => Err(m),
                Ok((a, b)) => Ok(SnapshotView { asks: s.asks.push(a), bids: s.bids.push(b) }),
            },
        }
    }
}

pub proof fn lemma_depths_err(fs: Seq<Seq<char>>, m: nat, n: nat)
    requires
        m <= n,
        depths_spec(fs, m) is Err,
    ensures
        depths_spec(fs, n) == depths_spec(fs, m),
    decreases n - m,
{
    if m < n {
        lemma_depths_err(fs, m, (n - 1) as nat);
    }
}

/// An orderbook row: `levels` depths of `ask price,ask qty,bid price,bid qty`.
pub open spec fn snapshot_row_spec(row: Seq<char>, levels: nat, line: usize) -> Result<
    SnapshotView,
    ValidationErrorView,
> {
    let fs = split_on(row, ',').map_values(|f: Seq<char>| trim(f));
    if fs.len() != levels * 4 {
        Err(
            ValidationErrorView::SnapshotParse {
                line,
                message: "expected "@ + decimal(levels * 4) + " columns, found "@ + decimal(fs.len()),
            },
        )
    } else {
        match depths_spec(fs, levels) {
            Err(m) => Err(ValidationErrorView::SnapshotParse { line, message: m }),
            Ok(s) => Ok(s),
        }
    }
}

pub open spec fn snapshot_result_view(r: Result<Snapshot, ValidationError>) -> Result<
    SnapshotView,
    ValidationErrorView,
> {
    match r {
        Ok(s) => Ok(s@),
        Err(e) => Err(e@),
    }
}

fn parse_column(raw: &Vec<char>, signed: bool, lo: i128, hi: i128, line: usize, what: &str) -> (r: Result<i128, ValidationError>)
    requires
        -crate::fields::MAG_CAP <= lo <= hi <= crate::fields::MAG_CAP,
    ensures
        parse_int(raw@, signed, lo as int, hi as int) matches Some(v) ==> r == Ok::<i128, ValidationError>(v as i128),
        parse_int(raw@, signed, lo as int, hi as int) is None ==> (r matches Err(e) && e@ == ValidationErrorView::SnapshotParse {
            line,
            message: what@ + raw@,
        }),
{
    match parse_int_chars(raw, signed, lo, hi) {
        Some(v) => Ok(v),
        None => {
            let mut m = String::new();
            push_str(&mut m, what);
            push_chars(&mut m, raw);
            Err(ValidationError::SnapshotParse { line, message: m })
        },
    }
}

/// Parse one row of the LOBSTER orderbook file.
#[verifier::loop_isolation(false)]
pub fn parse_snapshot_row(row: &str, levels: usize, line: usize) -> (r: Result<Snapshot, ValidationError>)
    requires
        levels * 4 <= usize::MAX,
    ensures
        snapshot_result_view(r) == snapshot_row_spec(row@, levels as nat, line),
{
    let chars = chars_of(row);
    let raw_fields = split_chars(&chars, ',');
    let ghost fs = split_on(row@, ',').map_values(|f: Seq<char>| trim(f));
    let mut fields: Vec<Vec<char>> = Vec::new();
    let mut j: usize = 0;
    while j < raw_fields.len()
        invariant
            j <= raw_fields@.len(),
            pieces_view(raw_fields@) == split_on(row@, ','),
            fs == split_on(row@, ',').map_values(|f: Seq<char>| trim(f)),
            fields@.len() == j,
            forall|k: int| 0 <= k < j ==> #[trigger] fields@[k]@ == fs[k],
        decreases raw_fields@.len() - j,
    {
        let t = trim_chars(&raw_fields[j]);
        fields.push(t);
        j = j + 1;
    }
    let expected_cols = levels * 4;
    if fields.len() != expected_cols {
        let mut m = String::new();
        push_str(&mut m, "expected ");
        push_decimal(&mut m, expected_cols as u64);
        push_str(&mut m, " columns, found ");
        push_decimal(&mut m, fields.len() as u64);
        return Err(ValidationError::SnapshotParse { line, message: m });
    }
    let mut asks: Vec<Level> = Vec::new();
    let mut bids: Vec<Level> = Vec::new();
    let mut level: usize = 0;
    while level < levels
        invariant
            level <= levels,
            fields@.len() == levels * 4,
            fs.len() == levels * 4,
            forall|k: int| 0 <= k < fields@.len() ==> #[trigger] fields@[k]@ == fs[k],
            depths_spec(fs, level as nat) == Ok::<SnapshotView, Seq<char>>(
                SnapshotView { asks: asks@, bids: bids@ },
            ),
        decreases levels - level,
    {
        assert(level * 4 + 3 < levels * 4) by (nonlinear_arith)
            requires
                level < levels,
        ;
        let offset = level * 4;
        proof {
            if depth_spec(fs, 4 * level as int) is Err {
                assert(depths_spec(fs, level as nat + 1) is Err);
                lemma_depths_err(fs, level as nat + 1, levels as nat);
            }
        }
        let ap = match parse_column(&fields[offset], true, i64::MIN as i128, i64::MAX as i128, line, "invalid price ") {
            Ok(v) => v as i64,
            Err(e) => {
                return Err(e);
            },
        };
        let aq = match parse_column(&fields[offset + 1], false, 0, u32::MAX as i128, line, "invalid quantity ") {
            Ok(v) => v as u32,
            Err(e) => {
                return Err(e);
            },
        };
        let bp = match parse_column(&fields[offset + 2], true, i64::MIN as i128, i64::MAX as i128, line, "invalid price ") {
            Ok(v) => v as i64,
            Err(e) => {
                return Err(e);
            },
        };
        let bq = match parse_column(&fields[offset + 3], false, 0, u32::MAX as i128, line, "invalid quantity ") {
            Ok(v) => v as u32,
            Err(e) => {
                return Err(e);
            },
        };
        asks.push(Level { price: ap, qty: aq });
        bids.push(Level { price: bp, qty: bq });
        level = level + 1;
    }
    Ok(Snapshot { asks, bids })
}


pub open spec fn side_name(side: Side) -> Seq<char> {
    match side {
        Side::Buy => "Buy"@,
        Side::Sell => "Sell"@,
    }
}

pub open spec fn side_levels(s: SnapshotView, side: Side) -> Seq<Level> {
    match side {
        Side::Buy => s.bids,
        Side::Sell => s.asks,
    }
}

/// Quantity of the first level at `price`, if any.
pub open spec fn visible_qty_spec(levels: Seq<Level>, price: Price) -> Option<Quantity>
    decreases levels.len(),
{
    if levels.len() == 0 {
        None
    } else if levels[0].price == price {
        Some(levels[0].qty)
    } else {
        visible_qty_spec(levels.drop_first(), price)
    }
}

pub open spec fn qty_or_zero(q: Option<Quantity>) -> int {
    match q {
        Some(v) => v as int,
        None => 0,
    }
}

/// The visible quantity at `price` on `side` must change by exactly `delta`
/// unless the price is outside both snapshots.
pub open spec fn qty_delta_spec(
    idx: usize,
    prev: SnapshotView,
    exp: SnapshotView,
    side: Side,
    price: Price,
    delta: int,
) -> Result<(), ValidationErrorView> {
    let before = visible_qty_spec(side_levels(prev, side), price);
    let after = visible_qty_spec(side_levels(exp, side), price);
    if before is None && after is None {
        Ok(())
    } else if qty_or_zero(after) - qty_or_zero(before) == delta {
        Ok(())
    } else {
        Err(
            ValidationErrorView::InvalidTransition {
                event_index: idx,
                message: "visible quantity at "@ + side_name(side) + " price "@ + signed_decimal(
                    price as int,
                ) + " changed by "@ + signed_decimal(qty_or_zero(after) - qty_or_zero(before))
                    + ", expected delta "@ + signed_decimal(delta),
                previous: prev,
                expected: exp,
            },
        )
    }
}

pub open spec fn halt_text() -> Seq<char> {
    "trading halt rows must duplicate the previous visible book"@
}

/// What the published books before and after an event must show.
pub open spec fn transition_spec(idx: usize, e: MarketEvent, prev: SnapshotView, exp: SnapshotView) -> Result<
    (),
    ValidationErrorView,
> {
    match e {
        MarketEvent::AddLimit { side, price, qty, .. } => qty_delta_spec(idx, prev, exp, side, price, qty as int),
        MarketEvent::PartialCancel { side, price, qty, .. } => qty_delta_spec(
            idx,
            prev,
            exp,
            side,
            price,
            -(qty as int),
        ),
        MarketEvent::FullDelete { side, price, qty, .. } => qty_delta_spec(
            idx,
            prev,
            exp,
            side,
            price,
            -(qty as int),
        ),
        MarketEvent::VisibleExecution { side, price, qty, .. } => qty_delta_spec(
            idx,
            prev,
            exp,
            side,
            price,
            -(qty as int),
        ),
        MarketEvent::HiddenExecution { .. } => Ok(()),
        MarketEvent::TradingHalt { .. } => if prev == exp {
            Ok(())
        } else {
            Err(
                ValidationErrorView::InvalidTransition {
                    event_index: idx,
                    message: halt_text(),
                    previous: prev,
                    expected: exp,
                },
            )
        },
    }
}

pub open spec fn unit_result_view(r: Result<(), ValidationError>) -> Result<(), ValidationErrorView> {
    match r {
        Ok(_) => Ok(()),
        Err(e) => Err(e@),
    }
}

fn visible_qty(snapshot: &Snapshot, side: Side, price: Price) -> (r: Option<Quantity>)
    ensures
        r == visible_qty_spec(side_levels(snapshot@, side), price),
{
    let levels = match side {
        Side::Buy => &snapshot.bids,
        Side::Sell => &snapshot.asks,
    };
    let ghost ls = side_levels(snapshot@, side);
    assert(ls == levels@);
    let mut j: usize = 0;
    assert(ls.subrange(0, ls.len() as int) =~= ls);
    while j < levels.len()
        invariant
            ls == levels@,
            ls == side_levels(snapshot@, side),
            j <= ls.len(),
            visible_qty_spec(ls, price) == visible_qty_spec(ls.subrange(j as int, ls.len() as int), price),
        decreases ls.len() - j,
    {
        let ghost rest = ls.subrange(j as int, ls.len() as int);
        assert(rest[0] == ls[j as int]);
        if levels[j].price == price {
            assert(rest.len() > 0);
            assert(visible_qty_spec(rest, price) == Some(rest[0].qty));
            return Some(levels[j].qty);
        }
        assert(rest.drop_first() =~= ls.subrange(j + 1, ls.len() as int));
        j = j + 1;
    }
    None
}

fn side_debug_name(side: Side) -> (r: &'static str)
    ensures
        r@ == side_name(side),
{
    match side {
        Side::Buy => "Buy",
        Side::Sell => "Sell",
    }
}

fn validate_qty_delta(
    event_index: usize,
    previous: &Snapshot,
    expected: &Snapshot,
    side: Side,
    price: Price,
    delta: i64,
) -> (r: Result<(), ValidationError>)
    ensures
        unit_result_view(r) == qty_delta_spec(event_index, previous@, expected@, side, price, delta as int),
{
    let before = visible_qty(previous, side, price);
    let after = visible_qty(expected, side, price);
    if before.is_none() && after.is_none() {
        return Ok(());
    }
    let before_qty: i64 = match before {
        Some(q) => q as i64,
        None => 0,
    };
    let after_qty: i64 = match after {
        Some(q) => q as i64,
        None => 0,
    };
    if after_qty - before_qty == delta {
        Ok(())
    } else {
        let mut m = String::new();
        push_str(&mut m, "visible quantity at ");
        push_str(&mut m, side_debug_name(side));
        push_str(&mut m, " price ");
        push_signed(&mut m, price);
        push_str(&mut m, " changed by ");
        push_signed(&mut m, after_qty - before_qty);
        push_str(&mut m, ", expected delta ");
        push_signed(&mut m, delta);
        Err(
            ValidationError::InvalidTransition {
                event_index,
                message: m,
                previous: previous.duplicate(),
                expected: expected.duplicate(),
            },
        )
    }
}

fn validate_observable_transition(
    event_index: usize,
    event: &MarketEvent,
    previous: &Snapshot,
    expected: &Snapshot,
) -> (r: Result<(), ValidationError>)
    ensures
        unit_result_view(r) == transition_spec(event_index, *event, previous@, expected@),
{
    match *event {
        MarketEvent::AddLimit { side, price, qty, .. } => validate_qty_delta(
            event_index,
            previous,
            expected,
            side,
            price,
            qty as i64,
        ),
        MarketEvent::PartialCancel { side, price, qty, .. } => validate_qty_delta(
            event_index,
            previous,
            expected,
            side,
            price,
            0 - qty as i64,
        ),
        MarketEvent::FullDelete { side, price, qty, .. } => validate_qty_delta(
            event_index,
            previous,
            expected,
            side,
            price,
            0 - qty as i64,
        ),
        MarketEvent::VisibleExecution { side, price, qty, .. } => validate_qty_delta(
            event_index,
            previous,
            expected,
            side,
            price,
            0 - qty as i64,
        ),
        MarketEvent::HiddenExecution { .. } => Ok(()),
        MarketEvent::TradingHalt { .. } => {
            if previous.same_as(expected) {
                Ok(())
            } else {
                let mut m = String::new();
                push_str(&mut m, "trading halt rows must duplicate the previous visible book");
                Err(
                    ValidationError::InvalidTransition {
                        event_index,
                        message: m,
                        previous: previous.duplicate(),
                        expected: expected.duplicate(),
                    },
                )
            }
        },
    }
}

/// The slot a snapshot shows where a side has no level.
pub open spec fn empty_slot(side: Side) -> Level {
    match side {
        Side::Buy => Level { price: EMPTY_BID_PRICE, qty: 0 },
        Side::Sell => Level { price: EMPTY_ASK_PRICE, qty: 0 },
    }
}

/// `l` is one of `levels`.
pub open spec fn shows_level(levels: Seq<Level>, l: Level) -> bool {
    exists|j: int| 0 <= j < levels.len() && #[trigger] levels[j] == l
}

/// Every level of `a` on `side` is an empty slot, is shown by `b` too, or
/// sits at a price the previous published book `prev` did not show.
pub open spec fn off_window_covered(prev: SnapshotView, side: Side, a: Seq<Level>, b: Seq<Level>) -> bool {
    forall|j: int|
        0 <= j < a.len() ==> {
            ||| #[trigger] a[j] == empty_slot(side)
            ||| shows_level(b, a[j])
            ||| visible_qty_spec(side_levels(prev, side), a[j].price) is None
        }
}

/// The reconstructed book `act` differs from the published book `exp` only
/// in liquidity from outside the previous published window `prev`: on each
/// side, every level that one of them shows and the other does not lies at
/// a price `prev` did not show. Such a difference is the sample's scoping
/// to the visible depth, not a reconstruction error.
pub open spec fn off_window_change(prev: SnapshotView, exp: SnapshotView, act: SnapshotView) -> bool {
    &&& off_window_covered(prev, Side::Sell, exp.asks, act.asks)
    &&& off_window_covered(prev, Side::Sell, act.asks, exp.asks)
    &&& off_window_covered(prev, Side::Buy, exp.bids, act.bids)
    &&& off_window_covered(prev, Side::Buy, act.bids, exp.bids)
}

/// Validation of events `idx..` from book `b`. After each event the
/// reconstructed visible book must equal the published one; where they
/// differ only in liquidity re-entering the window from outside it, the
/// book resynchronises to the published one; any other difference fails
/// with the event index and both books.
pub open spec fn validate_from(
    events: Seq<MarketEvent>,
    snaps: Seq<SnapshotView>,
    levels: nat,
    idx: nat,
    b: BookView,
) -> Result<(), ValidationErrorView>
    decreases events.len() - idx,
{
    if idx >= events.len() || idx == 0 || snaps.len() != events.len() {
        Ok(())
    } else {
        match transition_spec(idx as usize, events[idx as int], snaps[idx - 1], snaps[idx as int]) {
            Err(e) => Err(e),
            Ok(_) => {
                let (r, b1) = apply_lobster_delta_spec(b, events[idx as int]);
                match r {
                    Err(be) => Err(
                        ValidationErrorView::Replay {
                            event_index: idx as usize,
                            message: book_error_text(be),
                        },
                    ),
                    Ok(_) => {
                        let actual = snapshot_view(b1, levels);
                        if actual == snaps[idx as int] {
                            validate_from(events, snaps, levels, idx + 1, b1)
                        } else if off_window_change(snaps[idx - 1], snaps[idx as int], actual) {
                            validate_from(
                                events,
                                snaps,
                                levels,
                                idx + 1,
                                from_snapshot_spec(snaps[idx as int].asks, snaps[idx as int].bids),
                            )
                        } else {
                            Err(
                                ValidationErrorView::Mismatch {
                                    event_index: idx as usize,
                                    expected: snaps[idx as int],
                                    actual,
                                },
                            )
                        }
                    },
                }
            },
        }
    }
}

fn shows(levels: &Vec<Level>, l: Level) -> (r: bool)
    ensures
        r == shows_level(levels@, l),
{
    let mut j: usize = 0;
    while j < levels.len()
        invariant
            j <= levels@.len(),
            forall|k: int| 0 <= k < j ==> levels@[k] != l,
        decreases levels@.len() - j,
    {
        if levels[j] == l {
            assert(levels@[j as int] == l);
            return true;
        }
        j = j + 1;
    }
    false
}

fn empty_slot_of(side: Side) -> (r: Level)
    ensures
        r == empty_slot(side),
{
    match side {
        Side::Buy => Level { price: EMPTY_BID_PRICE, qty: 0 },
        Side::Sell => Level { price: EMPTY_ASK_PRICE, qty: 0 },
    }
}

fn covered(prev: &Snapshot, side: Side, a: &Vec<Level>, b: &Vec<Level>) -> (r: bool)
    ensures
        r == off_window_covered(prev@, side, a@, b@),
{
    let empty = empty_slot_of(side);
    let mut j: usize = 0;
    while j < a.len()
        invariant
            j <= a@.len(),
            empty == empty_slot(side),
            forall|k: int|
                0 <= k < j ==> {
                    ||| #[trigger] a@[k] == empty_slot(side)
                    ||| shows_level(b@, a@[k])
                    ||| visible_qty_spec(side_levels(prev@, side), a@[k].price) is None
                },
        decreases a@.len() - j,
    {
        let l = a[j];
        if !(l == empty) && !shows(b, l) && visible_qty(prev, side, l.price).is_some() {
            assert(!({
                ||| a@[j as int] == empty_slot(side)
                ||| shows_level(b@, a@[j as int])
                ||| visible_qty_spec(side_levels(prev@, side), a@[j as int].price) is None
            }));
            return false;
        }
        j = j + 1;
    }
    true
}

/// Whether the reconstructed book `actual` differs from the published book
/// `expected` only in liquidity from outside the window of `previous`.
fn differs_off_window(previous: &Snapshot, expected: &Snapshot, actual: &Snapshot) -> (r: bool)
    ensures
        r == off_window_change(previous@, expected@, actual@),
{
    covered(previous, Side::Sell, &expected.asks, &actual.asks) && covered(
        previous,
        Side::Sell,
        &actual.asks,
        &expected.asks,
    ) && covered(previous, Side::Buy, &expected.bids, &actual.bids) && covered(
        previous,
        Side::Buy,
        &actual.bids,
        &expected.bids,
    )
}

/// Replay LOBSTER messages against the published orderbook rows.
pub open spec fn validate_spec(events: Seq<MarketEvent>, snaps: Seq<SnapshotView>) -> Result<
    (),
    ValidationErrorView,
> {
    if events.len() != snaps.len() {
        Err(
            ValidationErrorView::LengthMismatch {
                events: events.len() as usize,
                snapshots: snaps.len() as usize,
            },
        )
    } else if events.len() == 0 {
        Ok(())
    } else {
        let levels = snaps[0].asks.len();
        let b0 = from_snapshot_spec(snaps[0].asks, snaps[0].bids);
        if snapshot_view(b0, levels) != snaps[0] {
            Err(
                ValidationErrorView::Mismatch {
                    event_index: 0,
                    expected: snaps[0],
                    actual: snapshot_view(b0, levels),
                },
            )
        } else {
            validate_from(events, snaps, levels, 1, b0)
        }
    }
}

pub open spec fn snapshot_views(s: Seq<Snapshot>) -> Seq<SnapshotView> {
    s.map_values(|x: Snapshot| x@)
}

/// Validate reconstructed book state after every event against LOBSTER's
/// published visible book.
pub fn validate_lobster(events: &[MarketEvent], snapshots: &[Snapshot]) -> (r: Result<(), ValidationError>)
    requires
        forall|k: int|
            0 <= k < snapshots@.len() ==> #[trigger] snapshots@[k].asks@.len() + snapshots@[k].bids@.len()
                <= u64::MAX,
    ensures
        unit_result_view(r) == validate_spec(events@, snapshot_views(snapshots@)),
{
    let ghost snaps = snapshot_views(snapshots@);
    if events.len() != snapshots.len() {
        return Err(
            ValidationError::LengthMismatch { events: events.len(), snapshots: snapshots.len() },
        );
    }
    if events.len() == 0 {
        return Ok(());
    }
    let levels = snapshots[0].asks.len();
    let mut engine = ReplayEngine::with_book(OrderBook::from_snapshot(&snapshots[0]));
    let first = engine.snapshot(levels);
    if !first.same_as(&snapshots[0]) {
        return Err(
            ValidationError::Mismatch {
                event_index: 0,
                expected: snapshots[0].duplicate(),
                actual: engine.snapshot(levels),
            },
        );
    }
    let mut idx: usize = 1;
    while idx < events.len()
        invariant
            1 <= idx <= events@.len(),
            events@.len() == snapshots@.len(),
            snaps == snapshot_views(snapshots@),
            levels == snaps[0].asks.len(),
            engine.wf(),
            forall|k: int|
                0 <= k < snapshots@.len() ==> #[trigger] snapshots@[k].asks@.len()
                    + snapshots@[k].bids@.len() <= u64::MAX,
            validate_spec(events@, snaps) == validate_from(events@, snaps, levels as nat, idx as nat, engine@),
        decreases events@.len() - idx,
    {
        let ghost b = engine@;
        match validate_observable_transition(idx, &events[idx], &snapshots[idx - 1], &snapshots[idx]) {
            Err(e) => {
                return Err(e);
            },
            Ok(()) => {},
        }
        match engine.apply_lobster_delta(&events[idx]) {
            Err(err) => {
                return Err(ValidationError::Replay { event_index: idx, message: err.to_string() });
            },
            Ok(()) => {},
        }
        let actual = engine.snapshot(levels);
        if !actual.same_as(&snapshots[idx]) {
            if differs_off_window(&snapshots[idx - 1], &snapshots[idx], &actual) {
                engine = ReplayEngine::with_book(OrderBook::from_snapshot(&snapshots[idx]));
            } else {
                return Err(
                    ValidationError::Mismatch {
                        event_index: idx,
                        expected: snapshots[idx].duplicate(),
                        actual,
                    },
                );
            }
        }
        idx = idx + 1;
    }
    Ok(())
}


/// Rows of an orderbook file given as lines numbered from `first`; blank
/// lines are skipped and the first bad row is reported.
pub open spec fn snapshot_lines_spec(lines: Seq<Seq<char>>, levels: nat, first: int) -> Result<
    Seq<SnapshotView>,
    ValidationErrorView,
>
    decreases lines.len(),
{
    if lines.len() == 0 {
        Ok(Seq::empty())
    } else if trim(lines[0]).len() == 0 {
        snapshot_lines_spec(lines.drop_first(), levels, first + 1)
    } else {
        match snapshot_row_spec(lines[0], levels, first as usize) {
            Err(e) => Err(e),
            Ok(s) => match snapshot_lines_spec(lines.drop_first(), levels, first + 1) {
                Err(e) => Err(e),
                Ok(rest) => Ok(seq![s] + rest),
            },
        }
    }
}

pub open spec fn prepend_snapshots(done: Seq<SnapshotView>, r: Result<Seq<SnapshotView>, ValidationErrorView>) -> Result<
    Seq<SnapshotView>,
    ValidationErrorView,
> {
    match r {
        Err(e) => Err(e),
        Ok(rest) => Ok(done + rest),
    }
}

pub open spec fn snapshots_result_view(r: Result<Vec<Snapshot>, ValidationError>) -> Result<
    Seq<SnapshotView>,
    ValidationErrorView,
> {
    match r {
        Ok(v) => Ok(snapshot_views(v@)),
        Err(e) => Err(e@),
    }
}

/// Parse the lines of an orderbook file, numbering them from 1.
pub fn parse_snapshot_lines(lines: &Vec<String>, levels: usize) -> (r: Result<Vec<Snapshot>, ValidationError>)
    requires
        lines@.len() < usize::MAX,
        levels * 4 <= usize::MAX,
    ensures
        snapshots_result_view(r) == snapshot_lines_spec(
            crate::lobster_parser::lines_view(lines@),
            levels as nat,
            1,
        ),
{
    let ghost all = crate::lobster_parser::lines_view(lines@);
    let mut snapshots: Vec<Snapshot> = Vec::new();
    let mut idx: usize = 0;
    assert(all.subrange(0, all.len() as int) =~= all);
    assert(snapshot_views(snapshots@) + Seq::<SnapshotView>::empty() =~= snapshot_views(snapshots@));
    while idx < lines.len()
        invariant
            all == crate::lobster_parser::lines_view(lines@),
            lines@.len() < usize::MAX,
            levels * 4 <= usize::MAX,
            idx <= lines@.len(),
            snapshot_lines_spec(all, levels as nat, 1) == prepend_snapshots(
                snapshot_views(snapshots@),
                snapshot_lines_spec(all.subrange(idx as int, all.len() as int), levels as nat, idx + 1),
            ),
        decreases lines@.len() - idx,
    {
        let ghost rest = all.subrange(idx as int, all.len() as int);
        assert(rest[0] == lines@[idx as int]@);
        assert(rest.drop_first() =~= all.subrange(idx + 1, all.len() as int));
        let line_no = idx + 1;
        let chars = chars_of(lines[idx].as_str());
        let trimmed = trim_chars(&chars);
        if trimmed.len() > 0 {
            match parse_snapshot_row(lines[idx].as_str(), levels, line_no) {
                Err(e) => {
                    return Err(e);
                },
                Ok(snap) => {
                    let ghost before = snapshot_views(snapshots@);
                    let ghost sv = snap@;
                    snapshots.push(snap);
                    proof {
                        assert(snapshot_views(snapshots@) =~= before.push(sv));
                        let tail = snapshot_lines_spec(rest.drop_first(), levels as nat, idx + 2);
                        match tail {
                            Ok(t) => {
                                assert(before + (seq![sv] + t) =~= snapshot_views(snapshots@) + t);
                            },
                            Err(_) => {},
                        }
                    }
                },
            }
        }
        idx = idx + 1;
    }
    proof {
        assert(all.subrange(idx as int, all.len() as int) =~= Seq::<Seq<char>>::empty());
        assert(snapshot_views(snapshots@) + Seq::<SnapshotView>::empty() =~= snapshot_views(snapshots@));
    }
    Ok(snapshots)
}

/// How the published books must show an event that names a visible price.
/// Where `price` shows on `side` in the book before or the book after, an
/// add of `qty` is accepted exactly when the visible quantity there rises
/// by `qty`, and a partial cancel, a full delete or a visible execution of
/// `qty` exactly when it falls by `qty` (a price that disappears counts as
/// showing nothing). Where the price shows in neither book, the change lies
/// outside the window and every such event is accepted. A hidden execution
/// never shows, and a trading halt is accepted exactly when the book after
/// it repeats the book before.
pub proof fn lemma_visible_quantity_transitions(
    idx: usize,
    ts: u64,
    order_id: u64,
    side: Side,
    price: Price,
    qty: Quantity,
    prev: SnapshotView,
    exp: SnapshotView,
)
    ensures
        ({
            let before = visible_qty_spec(side_levels(prev, side), price);
            let after = visible_qty_spec(side_levels(exp, side), price);
            let shown = before is Some || after is Some;
            let rise = qty_or_zero(after) == qty_or_zero(before) + qty;
            let fall = qty_or_zero(after) == qty_or_zero(before) - qty;
            &&& (transition_spec(idx, MarketEvent::AddLimit { ts, order_id, side, price, qty }, prev, exp) is Ok
                <==> (shown ==> rise))
            &&& (transition_spec(
                idx,
                MarketEvent::PartialCancel { ts, order_id, side, price, qty },
                prev,
                exp,
            ) is Ok <==> (shown ==> fall))
            &&& (transition_spec(idx, MarketEvent::FullDelete { ts, order_id, side, price, qty }, prev, exp) is Ok
                <==> (shown ==> fall))
            &&& (transition_spec(
                idx,
                MarketEvent::VisibleExecution { ts, order_id, qty, price, side },
                prev,
                exp,
            ) is Ok <==> (shown ==> fall))
            &&& transition_spec(
                idx,
                MarketEvent::HiddenExecution { ts, order_id, qty, price, side },
                prev,
                exp,
            ) is Ok
            &&& (transition_spec(idx, MarketEvent::TradingHalt { ts }, prev, exp) is Ok <==> prev == exp)
        }),
{
}

} // verus!
