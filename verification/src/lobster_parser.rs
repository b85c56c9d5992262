//! LOBSTER message rows: `time,type,order id,size,price,direction`.
use vstd::prelude::*;
use crate::fields::{
    all_digits, chars_of, digits_value, is_digit, parse_int, parse_int_chars, split_chars,
    split_on, trim, trim_chars, lemma_split_nonempty,
};
use crate::market_events::{MarketEvent, Side, Timestamp};
use crate::text::{decimal, push_chars, push_decimal, push_signed, push_str, signed_decimal};

verus! {

/// A message row that could not be parsed, with its 1-based line number.
#[derive(Debug, Clone, PartialEq, Eq)]
pub struct ParseError {
    line: usize,
    message: String,
}

pub struct ParseErrorView {
    pub line: usize,
    pub message: Seq<char>,
}

impl View for ParseError {
    type V = ParseErrorView;

    closed spec fn view(&self) -> ParseErrorView {
        ParseErrorView { line: self.line, message: self.message@ }
    }
}

pub type ParseResult<T> = Result<T, ParseError>;

impl ParseError {
    fn new(line: usize, message: String) -> (r: Self)
        ensures
            r@ == (ParseErrorView { line, message: message@ }),
    {
        ParseError { line, message }
    }

    pub fn line(&self) -> (r: usize)
        ensures
            r == self@.line,
    {
        self.line
    }

    /// `message parse error on line {line}: {message}`.
    pub fn to_string(&self) -> (r: String)
        ensures
            r@ == "message parse error on line "@ + decimal(self@.line as nat) + ": "@ + self@.message,
    {
        let mut s = String::new();
        push_str(&mut s, "message parse error on line ");
        push_decimal(&mut s, self.line as u64);
        push_str(&mut s, ": ");
        let m = self.message.clone();
        push_str(&mut s, m.as_str());
        s
    }
}

pub open spec fn pow10(n: nat) -> nat
    decreases n,
{
    if n == 0 {
        1
    } else {
        10 * pow10((n - 1) as nat)
    }
}

pub proof fn lemma_pow10_pos(n: nat)
    ensures
        pow10(n) >= 1,
    decreases n,
{
    if n > 0 {
        lemma_pow10_pos((n - 1) as nat);
    }
}

pub proof fn lemma_pow10_add(a: nat, b: nat)
    ensures
        pow10(a) * pow10(b) == pow10(a + b),
    decreases a,
{
    if a == 0 {
        assert(pow10(0) == 1);
        assert(a + b == b);
    } else {
        lemma_pow10_add((a - 1) as nat, b);
        assert(pow10(a + b) == 10 * pow10((a - 1 + b) as nat));
        assert(pow10(a) * pow10(b) == 10 * (pow10((a - 1) as nat) * pow10(b))) by (nonlinear_arith)
            requires
                pow10(a) == 10 * pow10((a - 1) as nat),
        ;
    }
}

/// Index of the first `c` in `s`, or `s.len()` when there is none.
pub open spec fn first_index(s: Seq<char>, c: char) -> nat
    decreases s.len(),
{
    if s.len() == 0 {
        0
    } else if s[0] == c {
        0
    } else {
        1 + first_index(s.drop_first(), c)
    }
}

pub proof fn lemma_first_index(s: Seq<char>, c: char, i: int)
    requires
        0 <= i <= s.len(),
        forall|j: int| 0 <= j < i ==> s[j] != c,
        i < s.len() ==> s[i] == c,
    ensures
        first_index(s, c) == i,
    decreases i,
{
    if i > 0 {
        lemma_first_index(s.drop_first(), c, i - 1);
    }
}

/// Nanoseconds written by a fraction of a second (first nine digits).
pub open spec fn frac_nanos(f: Seq<char>) -> nat {
    let k = if f.len() < 9 { f.len() } else { 9 };
    digits_value(f.take(k as int)) * pow10((9 - k) as nat)
}

pub open spec fn invalid_text(name: Seq<char>, raw: Seq<char>) -> Seq<char> {
    "invalid "@ + name + ": "@ + raw
}

pub open spec fn missing_text(name: Seq<char>) -> Seq<char> {
    "missing "@ + name + " column"@
}

/// `seconds[.fraction]` as nanoseconds, or the error message.
pub open spec fn timestamp_spec(raw: Seq<char>) -> Result<Timestamp, Seq<char>> {
    let p = first_index(raw, '.');
    let secs = raw.take(p as int);
    let frac = if p < raw.len() { raw.skip(p as int + 1) } else { Seq::<char>::empty() };
    match parse_int(secs, false, 0, u64::MAX as int) {
        None => Err(invalid_text("time seconds"@, secs)),
        Some(s) => if !all_digits(frac) {
            Err("invalid timestamp "@ + raw)
        } else if s * 1_000_000_000 + frac_nanos(frac) > u64::MAX {
            Err("timestamp overflow"@)
        } else {
            Ok((s * 1_000_000_000 + frac_nanos(frac)) as u64)
        },
    }
}


pub open spec fn err_at(line: usize, message: Seq<char>) -> ParseErrorView {
    ParseErrorView { line, message }
}

/// Characters `s[a..b]`.
pub fn slice_chars(s: &Vec<char>, a: usize, b: usize) -> (r: Vec<char>)
    requires
        a <= b <= s@.len(),
    ensures
        r@ == s@.subrange(a as int, b as int),
{
    let mut r: Vec<char> = Vec::new();
    let mut j: usize = a;
    while j < b
        invariant
            a <= j <= b <= s@.len(),
            r@ =~= s@.subrange(a as int, j as int),
        decreases b - j,
    {
        r.push(s[j]);
        j = j + 1;
    }
    r
}

fn invalid_error(line: usize, name: &str, raw: &Vec<char>) -> (r: ParseError)
    ensures
        r@ == err_at(line, invalid_text(name@, raw@)),
{
    let mut m = String::new();
    push_str(&mut m, "invalid ");
    push_str(&mut m, name);
    push_str(&mut m, ": ");
    push_chars(&mut m, raw);
    ParseError::new(line, m)
}

fn parse_i32(raw: &Vec<char>, line: usize, name: &str) -> (r: ParseResult<i32>)
    ensures
        parse_int(raw@, true, i32::MIN as int, i32::MAX as int) matches Some(v) ==> r == Ok::<
            i32,
            ParseError,
        >(v as i32),
        parse_int(raw@, true, i32::MIN as int, i32::MAX as int) is None ==> (r matches Err(e) && e@
            == err_at(line, invalid_text(name@, raw@))),
{
    match parse_int_chars(raw, true, i32::MIN as i128, i32::MAX as i128) {
        Some(v) => Ok(v as i32),
        None => Err(invalid_error(line, name, raw)),
    }
}

fn parse_i64(raw: &Vec<char>, line: usize, name: &str) -> (r: ParseResult<i64>)
    ensures
        parse_int(raw@, true, i64::MIN as int, i64::MAX as int) matches Some(v) ==> r == Ok::<
            i64,
            ParseError,
        >(v as i64),
        parse_int(raw@, true, i64::MIN as int, i64::MAX as int) is None ==> (r matches Err(e) && e@
            == err_at(line, invalid_text(name@, raw@))),
{
    match parse_int_chars(raw, true, i64::MIN as i128, i64::MAX as i128) {
        Some(v) => Ok(v as i64),
        None => Err(invalid_error(line, name, raw)),
    }
}

fn parse_u64(raw: &Vec<char>, line: usize, name: &str) -> (r: ParseResult<u64>)
    ensures
        parse_int(raw@, false, 0, u64::MAX as int) matches Some(v) ==> r == Ok::<u64, ParseError>(
            v as u64,
        ),
        parse_int(raw@, false, 0, u64::MAX as int) is None ==> (r matches Err(e) && e@ == err_at(
            line,
            invalid_text(name@, raw@),
        )),
{
    match parse_int_chars(raw, false, 0, u64::MAX as i128) {
        Some(v) => Ok(v as u64),
        None => Err(invalid_error(line, name, raw)),
    }
}

fn parse_u32(raw: &Vec<char>, line: usize, name: &str) -> (r: ParseResult<u32>)
    ensures
        parse_int(raw@, false, 0, u32::MAX as int) matches Some(v) ==> r == Ok::<u32, ParseError>(
            v as u32,
        ),
        parse_int(raw@, false, 0, u32::MAX as int) is None ==> (r matches Err(e) && e@ == err_at(
            line,
            invalid_text(name@, raw@),
        )),
{
    match parse_int_chars(raw, false, 0, u32::MAX as i128) {
        Some(v) => Ok(v as u32),
        None => Err(invalid_error(line, name, raw)),
    }
}

/// Nanoseconds written by an all-digit fraction of a second.
fn fraction_nanos(frac: &Vec<char>) -> (nanos: u64)
    requires
        all_digits(frac@),
    ensures
        nanos == frac_nanos(frac@),
        nanos < 1_000_000_000,
{
    let kmax: usize = if frac.len() < 9 { frac.len() } else { 9 };
    let mut nanos: u64 = 0;
    let mut scale: u64 = 100_000_000;
    let mut i: usize = 0;
    assert(frac@.take(0) =~= Seq::<char>::empty());
    assert(pow10(9) == 1_000_000_000 && pow10(8) == 100_000_000 && pow10(0) == 1) by {
        reveal_with_fuel(pow10, 10);
    }
    assert(all_digits(frac@));
    assert(digits_value(Seq::<char>::empty()) == 0);
    assert(digits_value(frac@.take(0)) * pow10(9) == 0);
    while i < kmax
        invariant
            kmax <= 9,
            kmax <= frac@.len(),
            all_digits(frac@),
            i <= kmax,
            nanos == digits_value(frac@.take(i as int)) * pow10((9 - i) as nat),
            nanos < pow10(9),
            pow10(9) == 1_000_000_000,
            scale == pow10((8 - i) as nat) || i == 9,
            digits_value(frac@.take(i as int)) < pow10(i as nat),
        decreases kmax - i,
    {
        let c = frac[i];
        assert(is_digit(frac@[i as int]));
        let d = (c as u32 - '0' as u32) as u64;
        let ghost v = digits_value(frac@.take(i as int));
        assert(frac@.take(i + 1).drop_last() =~= frac@.take(i as int));
        assert(digits_value(frac@.take(i + 1)) == v * 10 + d);
        let ghost p9 = pow10((9 - i) as nat);
        let ghost p8 = pow10((8 - i) as nat);
        assert(p9 == 10 * p8);
        assert(pow10(i as nat + 1) == 10 * pow10(i as nat));
        proof {
            lemma_pow10_add(i as nat + 1, (8 - i) as nat);
            lemma_pow10_pos((8 - i) as nat);
        }
        assert((v * 10 + d) * p8 == v * p9 + d * p8) by (nonlinear_arith)
            requires
                p9 == 10 * p8,
        ;
        assert(v * 10 + d < pow10(i as nat + 1)) by (nonlinear_arith)
            requires
                v < pow10(i as nat),
                d < 10,
                pow10(i as nat + 1) == 10 * pow10(i as nat),
        ;
        assert((v * 10 + d) * p8 < pow10(9)) by (nonlinear_arith)
            requires
                v * 10 + d < pow10(i as nat + 1),
                pow10(i as nat + 1) * p8 == pow10(9),
                p8 >= 1,
        {
        }
        assert(i < 8 ==> (scale / 10) as nat == pow10((7 - i) as nat)) by {
            if i < 8 {
                assert(pow10((8 - i) as nat) == 10 * pow10((7 - i) as nat));
            }
        }
        assert(scale == p8);
        assert(nanos + d * scale == (v * 10 + d) * p8);
        nanos = nanos + d * scale;
        if i < 8 {
            scale = scale / 10;
        }
        i = i + 1;
    }
    assert(kmax == (if frac@.len() < 9 { frac@.len() } else { 9 }));
    nanos
}

#[verifier::loop_isolation(false)]
fn parse_timestamp(raw: &Vec<char>, line: usize) -> (r: ParseResult<Timestamp>)
    ensures
        timestamp_spec(raw@) matches Ok(t) ==> r == Ok::<Timestamp, ParseError>(t),
        timestamp_spec(raw@) matches Err(m) ==> (r matches Err(e) && e@ == err_at(line, m)),
{
    let mut p: usize = 0;
    while p < raw.len() && raw[p] != '.'
        invariant
            p <= raw@.len(),
            forall|j: int| 0 <= j < p ==> raw@[j] != '.',
        decreases raw@.len() - p,
    {
        p = p + 1;
    }
    proof {
        lemma_first_index(raw@, '.', p as int);
    }
    let secs = slice_chars(raw, 0, p);
    let frac = if p < raw.len() {
        slice_chars(raw, p + 1, raw.len())
    } else {
        Vec::new()
    };
    assert(p < raw@.len() ==> frac@ =~= raw@.skip(p as int + 1));
    assert(secs@ =~= raw@.take(p as int));
    let seconds = match parse_u64(&secs, line, "time seconds") {
        Ok(v) => v,
        Err(e) => {
            return Err(e);
        },
    };
    let mut k: usize = 0;
    while k < frac.len()
        invariant
            k <= frac@.len(),
            forall|j: int| 0 <= j < k ==> is_digit(#[trigger] frac@[j]),
        decreases frac@.len() - k,
    {
        let c = frac[k];
        if !('0' <= c && c <= '9') {
            let mut m = String::new();
            push_str(&mut m, "invalid timestamp ");
            push_chars(&mut m, raw);
            return Err(ParseError::new(line, m));
        }
        k = k + 1;
    }
    let nanos = fraction_nanos(&frac);
    let base = seconds.checked_mul(1_000_000_000);
    let total = match base {
        Some(b) => b.checked_add(nanos),
        None => None,
    };
    match total {
        Some(t) => Ok(t),
        None => {
            let mut m = String::new();
            push_str(&mut m, "timestamp overflow");
            Err(ParseError::new(line, m))
        },
    }
}


pub open spec fn side_spec(direction: int, line: usize) -> Result<Side, ParseErrorView> {
    if direction == 1 {
        Ok(Side::Buy)
    } else if direction == -1 {
        Ok(Side::Sell)
    } else {
        Err(err_at(line, "invalid side direction "@ + signed_decimal(direction)))
    }
}

/// The event a row's numeric columns describe.
pub open spec fn event_spec(
    event_type: int,
    ts: Timestamp,
    order_id: u64,
    qty: u32,
    price: i64,
    direction: int,
    line: usize,
) -> Result<MarketEvent, ParseErrorView> {
    if event_type == 7 {
        Ok(MarketEvent::TradingHalt { ts })
    } else if event_type < 1 || event_type > 5 {
        Err(err_at(line, "unknown event type "@ + signed_decimal(event_type)))
    } else {
        match side_spec(direction, line) {
            Err(e) => Err(e),
            Ok(side) => Ok(
                if event_type == 1 {
                    MarketEvent::AddLimit { ts, order_id, side, price, qty }
                } else if event_type == 2 {
                    MarketEvent::PartialCancel { ts, order_id, side, price, qty }
                } else if event_type == 3 {
                    MarketEvent::FullDelete { ts, order_id, side, price, qty }
                } else if event_type == 4 {
                    MarketEvent::VisibleExecution { ts, order_id, qty, price, side }
                } else {
                    MarketEvent::HiddenExecution { ts, order_id, qty, price, side }
                },
            ),
        }
    }
}

/// A message row: six comma-separated columns, each trimmed, read left to
/// right; the first problem found is reported.
pub open spec fn row_spec(row: Seq<char>, line: usize) -> Result<MarketEvent, ParseErrorView> {
    let fs = split_on(row, ',');
    match timestamp_spec(trim(fs[0])) {
        Err(m) => Err(err_at(line, m)),
        Ok(ts) => if fs.len() < 2 {
            Err(err_at(line, missing_text("type"@)))
        } else {
            match parse_int(trim(fs[1]), true, i32::MIN as int, i32::MAX as int) {
                None => Err(err_at(line, invalid_text("type"@, trim(fs[1])))),
                Some(event_type) => if fs.len() < 3 {
                    Err(err_at(line, missing_text("order id"@)))
                } else {
                    match parse_int(trim(fs[2]), false, 0, u64::MAX as int) {
                        None => Err(err_at(line, invalid_text("order id"@, trim(fs[2])))),
                        Some(order_id) => if fs.len() < 4 {
                            Err(err_at(line, missing_text("size"@)))
                        } else {
                            match parse_int(trim(fs[3]), false, 0, u32::MAX as int) {
                                None => Err(err_at(line, invalid_text("size"@, trim(fs[3])))),
                                Some(qty) => if fs.len() < 5 {
                                    Err(err_at(line, missing_text("price"@)))
                                } else {
                                    match parse_int(trim(fs[4]), true, i64::MIN as int, i64::MAX as int) {
                                        None => Err(err_at(line, invalid_text("price"@, trim(fs[4])))),
                                        Some(price) => if fs.len() < 6 {
                                            Err(err_at(line, missing_text("direction"@)))
                                        } else {
                                            match parse_int(
                                                trim(fs[5]),
                                                true,
                                                i32::MIN as int,
                                                i32::MAX as int,
                                            ) {
                                                None => Err(
                                                    err_at(line, invalid_text("direction"@, trim(fs[5]))),
                                                ),
                                                Some(direction) => if fs.len() > 6 {
                                                    Err(err_at(line, "expected exactly 6 columns"@))
                                                } else {
                                                    event_spec(
                                                        event_type,
                                                        ts,
                                                        order_id as u64,
                                                        qty as u32,
                                                        price as i64,
                                                        direction,
                                                        line,
                                                    )
                                                },
                                            }
                                        },
                                    }
                                },
                            }
                        },
                    }
                },
            }
        },
    }
}

pub open spec fn event_result_view(r: ParseResult<MarketEvent>) -> Result<MarketEvent, ParseErrorView> {
    match r {
        Ok(e) => Ok(e),
        Err(e) => Err(e@),
    }
}

fn parse_side(direction: i32, line: usize) -> (r: ParseResult<Side>)
    ensures
        side_spec(direction as int, line) matches Ok(s) ==> r == Ok::<Side, ParseError>(s),
        side_spec(direction as int, line) matches Err(v) ==> (r matches Err(e) && e@ == v),
{
    match Side::from_lobster_direction(direction) {
        Some(s) => Ok(s),
        None => {
            let mut m = String::new();
            push_str(&mut m, "invalid side direction ");
            push_signed(&mut m, direction as i64);
            Err(ParseError::new(line, m))
        },
    }
}

/// The `k`-th column, trimmed, or the error for its absence.
fn next_field(fields: &Vec<Vec<char>>, k: usize, line: usize, name: &str) -> (r: ParseResult<
    Vec<char>,
>)
    ensures
        k < fields@.len() ==> (r matches Ok(f) && f@ == trim(fields@[k as int]@)),
        k >= fields@.len() ==> (r matches Err(e) && e@ == err_at(line, missing_text(name@))),
{
    if k < fields.len() {
        Ok(trim_chars(&fields[k]))
    } else {
        let mut m = String::new();
        push_str(&mut m, "missing ");
        push_str(&mut m, name);
        push_str(&mut m, " column");
        Err(ParseError::new(line, m))
    }
}

fn build_event(
    event_type: i32,
    ts: Timestamp,
    order_id: u64,
    qty: u32,
    price: i64,
    direction: i32,
    line: usize,
) -> (r: ParseResult<MarketEvent>)
    ensures
        event_result_view(r) == event_spec(
            event_type as int,
            ts,
            order_id,
            qty,
            price,
            direction as int,
            line,
        ),
{
    if event_type == 7 {
        return Ok(MarketEvent::TradingHalt { ts });
    }
    if event_type < 1 || event_type > 5 {
        let mut m = String::new();
        push_str(&mut m, "unknown event type ");
        push_signed(&mut m, event_type as i64);
        return Err(ParseError::new(line, m));
    }
    let side = match parse_side(direction, line) {
        Ok(s) => s,
        Err(e) => {
            return Err(e);
        },
    };
    if event_type == 1 {
        Ok(MarketEvent::AddLimit { ts, order_id, side, price, qty })
    } else if event_type == 2 {
        Ok(MarketEvent::PartialCancel { ts, order_id, side, price, qty })
    } else if event_type == 3 {
        Ok(MarketEvent::FullDelete { ts, order_id, side, price, qty })
    } else if event_type == 4 {
        Ok(MarketEvent::VisibleExecution { ts, order_id, qty, price, side })
    } else {
        Ok(MarketEvent::HiddenExecution { ts, order_id, qty, price, side })
    }
}

/// Parse one message row, reporting errors against line 1.
pub fn parse_message_row(row: &str) -> (r: ParseResult<MarketEvent>)
    ensures
        event_result_view(r) == row_spec(row@, 1),
{
    parse_message_row_with_line(row, 1)
}

/// Parse one message row, reporting errors against `line`.
pub fn parse_message_row_with_line(row: &str, line: usize) -> (r: ParseResult<MarketEvent>)
    ensures
        event_result_view(r) == row_spec(row@, line),
{
    let chars = chars_of(row);
    let fields = split_chars(&chars, ',');
    proof {
        lemma_split_nonempty(row@, ',');
    }
    let ghost fs = split_on(row@, ',');
    assert(forall|k: int| 0 <= k < fields@.len() ==> fields@[k]@ == #[trigger] fs[k]);
    let f0 = match next_field(&fields, 0, line, "time") {
        Ok(f) => f,
        Err(e) => {
            return Err(e);
        },
    };
    let ts = match parse_timestamp(&f0, line) {
        Ok(v) => v,
        Err(e) => {
            return Err(e);
        },
    };
    let f1 = match next_field(&fields, 1, line, "type") {
        Ok(f) => f,
        Err(e) => {
            return Err(e);
        },
    };
    let event_type = match parse_i32(&f1, line, "type") {
        Ok(v) => v,
        Err(e) => {
            return Err(e);
        },
    };
    let f2 = match next_field(&fields, 2, line, "order id") {
        Ok(f) => f,
        Err(e) => {
            return Err(e);
        },
    };
    let order_id = match parse_u64(&f2, line, "order id") {
        Ok(v) => v,
        Err(e) => {
            return Err(e);
        },
    };
    let f3 = match next_field(&fields, 3, line, "size") {
        Ok(f) => f,
        Err(e) => {
            return Err(e);
        },
    };
    let qty = match parse_u32(&f3, line, "size") {
        Ok(v) => v,
        Err(e) => {
            return Err(e);
        },
    };
    let f4 = match next_field(&fields, 4, line, "price") {
        Ok(f) => f,
        Err(e) => {
            return Err(e);
        },
    };
    let price = match parse_i64(&f4, line, "price") {
        Ok(v) => v,
        Err(e) => {
            return Err(e);
        },
    };
    let f5 = match next_field(&fields, 5, line, "direction") {
        Ok(f) => f,
        Err(e) => {
            return Err(e);
        },
    };
    let direction = match parse_i32(&f5, line, "direction") {
        Ok(v) => v,
        Err(e) => {
            return Err(e);
        },
    };
    if fields.len() > 6 {
        let mut m = String::new();
        push_str(&mut m, "expected exactly 6 columns");
        return Err(ParseError::new(line, m));
    }
    build_event(event_type, ts, order_id, qty, price, direction, line)
}


/// Events of a message file given as lines, numbered from `first`; blank
/// lines are skipped and the first bad row is reported.
pub open spec fn message_lines_spec(lines: Seq<Seq<char>>, first: int) -> Result<
    Seq<MarketEvent>,
    ParseErrorView,
>
    decreases lines.len(),
{
    if lines.len() == 0 {
        Ok(Seq::empty())
    } else if trim(lines[0]).len() == 0 {
        message_lines_spec(lines.drop_first(), first + 1)
    } else {
        match row_spec(lines[0], first as usize) {
            Err(e) => Err(e),
            Ok(ev) => match message_lines_spec(lines.drop_first(), first + 1) {
                Err(e) => Err(e),
                Ok(rest) => Ok(seq![ev] + rest),
            },
        }
    }
}

pub open spec fn prepend_events(done: Seq<MarketEvent>, r: Result<Seq<MarketEvent>, ParseErrorView>) -> Result<
    Seq<MarketEvent>,
    ParseErrorView,
> {
    match r {
        Err(e) => Err(e),
        Ok(rest) => Ok(done + rest),
    }
}

pub open spec fn lines_view(lines: Seq<String>) -> Seq<Seq<char>> {
    lines.map_values(|l: String| l@)
}

pub open spec fn events_result_view(r: ParseResult<Vec<MarketEvent>>) -> Result<
    Seq<MarketEvent>,
    ParseErrorView,
> {
    match r {
        Ok(v) => Ok(v@),
        Err(e) => Err(e@),
    }
}

/// Parse the lines of a message file, numbering them from 1.
pub fn parse_message_lines(lines: &Vec<String>) -> (r: ParseResult<Vec<MarketEvent>>)
    requires
        lines@.len() < usize::MAX,
    ensures
        events_result_view(r) == message_lines_spec(lines_view(lines@), 1),
{
    let ghost all = lines_view(lines@);
    let mut events: Vec<MarketEvent> = Vec::new();
    let mut idx: usize = 0;
    assert(all.subrange(0, all.len() as int) =~= all);
    assert(events@ + Seq::<MarketEvent>::empty() =~= events@);
    while idx < lines.len()
        invariant
            all == lines_view(lines@),
            lines@.len() < usize::MAX,
            idx <= lines@.len(),
            message_lines_spec(all, 1) == prepend_events(
                events@,
                message_lines_spec(all.subrange(idx as int, all.len() as int), idx + 1),
            ),
        decreases lines@.len() - idx,
    {
        let ghost rest = all.subrange(idx as int, all.len() as int);
        assert(rest[0] == lines@[idx as int]@);
        assert(rest.drop_first() =~= all.subrange(idx + 1, all.len() as int));
        let line_no = idx + 1;
        let chars = chars_of(lines[idx].as_str());
        let trimmed = trim_chars(&chars);
        if trimmed.len() > 0 {
            match parse_message_row_with_line(lines[idx].as_str(), line_no) {
                Err(e) => {
                    return Err(e);
                },
                Ok(ev) => {
                    let ghost before = events@;
                    events.push(ev);
                    proof {
                        let tail = message_lines_spec(rest.drop_first(), idx + 2);
                        match tail {
                            Ok(t) => {
                                assert(before + (seq![ev] + t) =~= events@ + t);
                            },
                            Err(_) => {},
                        }
                    }
                },
            }
        }
        idx = idx + 1;
    }
    proof {
        assert(all.subrange(idx as int, all.len() as int) =~= Seq::<Seq<char>>::empty());
        assert(events@ + Seq::<MarketEvent>::empty() =~= events@);
    }
    Ok(events)
}

/// LOBSTER's event codes: a row of type 1 is a new limit order, 2 a
/// partial cancel, 3 a full delete, 4 an execution of a visible order, 5 an
/// execution of a hidden order and 7 a trading halt; each carries the row's
/// time, order id, size, price and the side its direction names (1 buy,
/// -1 sell). Any other direction is refused for every order event.
pub proof fn lemma_event_codes(
    ts: Timestamp,
    order_id: u64,
    qty: u32,
    price: i64,
    direction: int,
    line: usize,
)
    ensures
        event_spec(7, ts, order_id, qty, price, direction, line) == Ok::<MarketEvent, ParseErrorView>(
            MarketEvent::TradingHalt { ts },
        ),
        direction == 1 || direction == -1 ==> {
            let side = if direction == 1 {
                Side::Buy
            } else {
                Side::Sell
            };
            &&& event_spec(1, ts, order_id, qty, price, direction, line) == Ok::<MarketEvent, ParseErrorView>(
                MarketEvent::AddLimit { ts, order_id, side, price, qty },
            )
            &&& event_spec(2, ts, order_id, qty, price, direction, line) == Ok::<MarketEvent, ParseErrorView>(
                MarketEvent::PartialCancel { ts, order_id, side, price, qty },
            )
            &&& event_spec(3, ts, order_id, qty, price, direction, line) == Ok::<MarketEvent, ParseErrorView>(
                MarketEvent::FullDelete { ts, order_id, side, price, qty },
            )
            &&& event_spec(4, ts, order_id, qty, price, direction, line) == Ok::<MarketEvent, ParseErrorView>(
                MarketEvent::VisibleExecution { ts, order_id, qty, price, side },
            )
            &&& event_spec(5, ts, order_id, qty, price, direction, line) == Ok::<MarketEvent, ParseErrorView>(
                MarketEvent::HiddenExecution { ts, order_id, qty, price, side },
            )
        },
        direction != 1 && direction != -1 ==> forall|t: int|
            1 <= t <= 5 ==> (#[trigger] event_spec(t, ts, order_id, qty, price, direction, line)) is Err,
{
}

} // verus!
