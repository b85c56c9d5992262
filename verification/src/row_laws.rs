//! Rows written in the LOBSTER file layouts parse back to what they
//! describe: an orderbook row written by `format_snapshot` to the same
//! snapshot, a message row to the event its columns name.
use vstd::prelude::*;
use crate::fields::{
    all_digits, digit_value, digits_value, int_syntax, is_digit, is_ws, parse_int, split_on, trim,
    trim_end, trim_start,
};
use crate::lobster_parser::{event_spec, frac_nanos, lemma_first_index, row_spec, timestamp_spec};
use crate::orderbook::{Level, SnapshotView};
use crate::text::{decimal, digit_char, signed_decimal};
use crate::validator::{
    depth_spec, depths_spec, level_pair_text, snapshot_row_spec, snapshot_text, snapshot_text_prefix,
};

verus! {

/// Digits and minus signs only.
pub open spec fn plain(s: Seq<char>) -> bool {
    forall|i: int| 0 <= i < s.len() ==> is_digit(#[trigger] s[i]) || s[i] == '-'
}

proof fn lemma_decimal(n: nat)
    ensures
        decimal(n).len() >= 1,
        all_digits(decimal(n)),
        digits_value(decimal(n)) == n,
    decreases n,
{
    if n >= 10 {
        lemma_decimal(n / 10);
        let d = decimal(n / 10);
        let c = digit_char(n % 10);
        assert(decimal(n) == d.push(c));
        assert(d.push(c).drop_last() =~= d);
        assert forall|i: int| 0 <= i < d.push(c).len() implies is_digit(#[trigger] d.push(c)[i]) by {
            if i < d.len() {
                assert(d.push(c)[i] == d[i]);
            }
        }
        assert(digit_value(c) == n % 10);
        assert(d.push(c).last() == c);
        assert((n / 10) * 10 + n % 10 == n);
        assert(digits_value(d.push(c)) == digits_value(d) * 10 + digit_value(c));
    } else {
        assert(digit_value(digit_char(n)) == n);
        assert(seq![digit_char(n)].drop_last() =~= Seq::<char>::empty());
        assert(seq![digit_char(n)].last() == digit_char(n));
        assert(digits_value(Seq::<char>::empty()) == 0);
        assert(decimal(n) == seq![digit_char(n)]);
    }
}

proof fn lemma_unsigned_parse(n: nat, hi: int)
    requires
        n <= hi,
    ensures
        parse_int(decimal(n), false, 0, hi) == Some(n as int),
        plain(decimal(n)),
        decimal(n).len() >= 1,
{
    lemma_decimal(n);
    let s = decimal(n);
    assert(is_digit(s[0]));
    assert forall|i: int| 0 <= i < s.len() implies is_digit(#[trigger] s[i]) || s[i] == '-' by {
        assert(is_digit(s[i]));
    }
}

proof fn lemma_signed_parse(v: int, lo: int, hi: int)
    requires
        lo <= v <= hi,
    ensures
        parse_int(signed_decimal(v), true, lo, hi) == Some(v),
        plain(signed_decimal(v)),
        signed_decimal(v).len() >= 1,
        !is_ws(signed_decimal(v)[0]),
        !is_ws(signed_decimal(v).last()),
{
    let s = signed_decimal(v);
    if v < 0 {
        let m = (-v) as nat;
        lemma_decimal(m);
        let d = decimal(m);
        assert(s == seq!['-'] + d);
        assert(s.drop_first() =~= d);
        assert(s.len() >= 2);
        assert(int_syntax(s, true) == Some(-(m as int)));
        assert forall|i: int| 0 <= i < s.len() implies is_digit(#[trigger] s[i]) || s[i] == '-' by {
            if i > 0 {
                assert(s[i] == d[i - 1]);
                assert(is_digit(d[i - 1]));
            }
        }
        assert(s.last() == d[d.len() - 1]);
        assert(is_digit(d[d.len() - 1]));
    } else {
        lemma_decimal(v as nat);
        assert(is_digit(s[0]));
        assert(is_digit(s[s.len() - 1]));
        assert forall|i: int| 0 <= i < s.len() implies is_digit(#[trigger] s[i]) || s[i] == '-' by {
            assert(is_digit(s[i]));
        }
    }
}

proof fn lemma_plain_ends(s: Seq<char>)
    requires
        plain(s),
        s.len() >= 1,
    ensures
        !is_ws(s[0]),
        !is_ws(s.last()),
        trim(s) == s,
{
    assert(is_digit(s[0]) || s[0] == '-');
    assert(is_digit(s[s.len() - 1]) || s[s.len() - 1] == '-');
    assert(trim_start(s) == s);
    assert(trim_end(s) == s);
}

/// Splitting at a separator splits each side apart.
pub proof fn lemma_split_concat(s: Seq<char>, t: Seq<char>, sep: char)
    ensures
        split_on(s + seq![sep] + t, sep) == split_on(s, sep) + split_on(t, sep),
    decreases t.len(),
{
    crate::fields::lemma_split_nonempty(t, sep);
    if t.len() == 0 {
        assert(s + seq![sep] + t =~= s.push(sep));
        assert((s.push(sep)).drop_last() =~= s);
        assert(split_on(t, sep) =~= seq![Seq::<char>::empty()]);
        assert(split_on(s, sep).push(Seq::<char>::empty()) =~= split_on(s, sep) + seq![Seq::<char>::empty()]);
    } else {
        let u = s + seq![sep] + t;
        let t1 = t.drop_last();
        lemma_split_concat(s, t1, sep);
        crate::fields::lemma_split_nonempty(t1, sep);
        crate::fields::lemma_split_nonempty(s, sep);
        assert(u.drop_last() =~= s + seq![sep] + t1);
        assert(u.last() == t.last());
        let a = split_on(s, sep);
        let b = split_on(t1, sep);
        if t.last() == sep {
            assert((a + b).push(Seq::<char>::empty()) =~= a + b.push(Seq::<char>::empty()));
        } else {
            let r = a + b;
            assert(r.last() == b.last());
            assert(r.update(r.len() - 1, r.last().push(t.last())) =~= a + b.update(
                b.len() - 1,
                b.last().push(t.last()),
            ));
        }
    }
}

proof fn lemma_split_plain(s: Seq<char>)
    requires
        plain(s),
    ensures
        split_on(s, ',') == seq![s],
    decreases s.len(),
{
    if s.len() > 0 {
        let d = s.drop_last();
        assert forall|i: int| 0 <= i < d.len() implies is_digit(#[trigger] d[i]) || d[i] == '-' by {
            assert(d[i] == s[i]);
        }
        lemma_split_plain(d);
        assert(s.last() == s[s.len() - 1]);
        assert(s.last() != ',');
        assert(d.push(s.last()) =~= s);
    } else {
        assert(s =~= Seq::<char>::empty());
    }
}

/// The four columns of one depth.
pub open spec fn depth_columns(a: Level, b: Level) -> Seq<Seq<char>> {
    seq![
        signed_decimal(a.price as int),
        decimal(a.qty as nat),
        signed_decimal(b.price as int),
        decimal(b.qty as nat),
    ]
}

/// The columns of the first `k` depths.
pub open spec fn columns(asks: Seq<Level>, bids: Seq<Level>, k: nat) -> Seq<Seq<char>>
    decreases k,
{
    if k == 0 {
        Seq::empty()
    } else {
        columns(asks, bids, (k - 1) as nat) + depth_columns(asks[k - 1], bids[k - 1])
    }
}

proof fn lemma_depth_plain(a: Level, b: Level)
    ensures
        forall|t: int| 0 <= t < 4 ==> plain(#[trigger] depth_columns(a, b)[t]) && depth_columns(a, b)[t].len() >= 1,
{
    lemma_signed_parse(a.price as int, a.price as int, a.price as int);
    lemma_signed_parse(b.price as int, b.price as int, b.price as int);
    lemma_unsigned_parse(a.qty as nat, a.qty as int);
    lemma_unsigned_parse(b.qty as nat, b.qty as int);
}

proof fn lemma_split_pair(a: Level, b: Level)
    ensures
        split_on(level_pair_text(a, b), ',') == depth_columns(a, b),
{
    lemma_depth_plain(a, b);
    let c = depth_columns(a, b);
    assert(plain(c[0]) && plain(c[1]) && plain(c[2]) && plain(c[3]));
    let x = c[0] + seq![','] + c[1] + seq![','] + c[2];
    assert(level_pair_text(a, b) =~= x + seq![','] + c[3]);
    lemma_split_concat(x, c[3], ',');
    let y = c[0] + seq![','] + c[1];
    assert(x =~= y + seq![','] + c[2]);
    lemma_split_concat(y, c[2], ',');
    lemma_split_concat(c[0], c[1], ',');
    lemma_split_plain(c[0]);
    lemma_split_plain(c[1]);
    lemma_split_plain(c[2]);
    lemma_split_plain(c[3]);
    assert(seq![c[0]] + seq![c[1]] + seq![c[2]] + seq![c[3]] =~= c);
}

proof fn lemma_split_text(asks: Seq<Level>, bids: Seq<Level>, k: nat)
    requires
        k >= 1,
    ensures
        split_on(snapshot_text_prefix(asks, bids, k), ',') == columns(asks, bids, k),
    decreases k,
{
    lemma_split_pair(asks[k - 1], bids[k - 1]);
    if k == 1 {
        assert(columns(asks, bids, 0) =~= Seq::<Seq<char>>::empty());
        assert(columns(asks, bids, 1) =~= depth_columns(asks[0], bids[0]));
    } else {
        lemma_split_text(asks, bids, (k - 1) as nat);
        lemma_split_concat(
            snapshot_text_prefix(asks, bids, (k - 1) as nat),
            level_pair_text(asks[k - 1], bids[k - 1]),
            ',',
        );
    }
}

proof fn lemma_columns(asks: Seq<Level>, bids: Seq<Level>, k: nat)
    ensures
        columns(asks, bids, k).len() == 4 * k,
        forall|j: int, t: int|
            0 <= j < k && 0 <= t < 4 ==> #[trigger] columns(asks, bids, k)[4 * j + t] == depth_columns(
                asks[j],
                bids[j],
            )[t],
        forall|i: int| 0 <= i < 4 * k ==> plain(#[trigger] columns(asks, bids, k)[i]) && columns(asks, bids, k)[i].len() >= 1,
    decreases k,
{
    if k > 0 {
        let k1 = (k - 1) as nat;
        lemma_columns(asks, bids, k1);
        lemma_depth_plain(asks[k1 as int], bids[k1 as int]);
        let p = columns(asks, bids, k1);
        let d = depth_columns(asks[k1 as int], bids[k1 as int]);
        assert forall|j: int, t: int| 0 <= j < k && 0 <= t < 4 implies #[trigger] columns(asks, bids, k)[4 * j
            + t] == depth_columns(asks[j], bids[j])[t] by {
            if j < k1 {
                assert((p + d)[4 * j + t] == p[4 * j + t]);
            } else {
                assert((p + d)[4 * j + t] == d[t]);
            }
        }
        assert forall|i: int| 0 <= i < 4 * k implies plain(#[trigger] columns(asks, bids, k)[i])
            && columns(asks, bids, k)[i].len() >= 1 by {
            if i < 4 * k1 {
                assert((p + d)[i] == p[i]);
            } else {
                assert((p + d)[i] == d[i - 4 * k1]);
            }
        }
    }
}

proof fn lemma_depths(asks: Seq<Level>, bids: Seq<Level>, n: nat, k: nat)
    requires
        k <= n,
        asks.len() == n,
        bids.len() == n,
    ensures
        depths_spec(columns(asks, bids, n), k) == Ok::<SnapshotView, Seq<char>>(
            SnapshotView { asks: asks.take(k as int), bids: bids.take(k as int) },
        ),
    decreases k,
{
    let fs = columns(asks, bids, n);
    if k == 0 {
        assert(asks.take(0) =~= Seq::<Level>::empty());
        assert(bids.take(0) =~= Seq::<Level>::empty());
    } else {
        let j = k - 1;
        lemma_depths(asks, bids, n, (k - 1) as nat);
        lemma_columns(asks, bids, n);
        let a = asks[j];
        let b = bids[j];
        assert(fs[4 * j + 0] == signed_decimal(a.price as int));
        assert(fs[4 * j + 1] == decimal(a.qty as nat));
        assert(fs[4 * j + 2] == signed_decimal(b.price as int));
        assert(fs[4 * j + 3] == decimal(b.qty as nat));
        lemma_signed_parse(a.price as int, i64::MIN as int, i64::MAX as int);
        lemma_signed_parse(b.price as int, i64::MIN as int, i64::MAX as int);
        lemma_unsigned_parse(a.qty as nat, u32::MAX as int);
        lemma_unsigned_parse(b.qty as nat, u32::MAX as int);
        assert(depth_spec(fs, 4 * j) == Ok::<(Level, Level), Seq<char>>((a, b)));
        assert(asks.take(j).push(a) =~= asks.take(k as int));
        assert(bids.take(j).push(b) =~= bids.take(k as int));
    }
}

/// A snapshot row written by `format_snapshot` parses back to the same
/// snapshot, whatever its line number.
pub proof fn lemma_row_round_trip(s: SnapshotView, n: nat, line: usize)
    requires
        s.asks.len() == n,
        s.bids.len() == n,
        n >= 1,
    ensures
        snapshot_row_spec(snapshot_text(s), n, line) == Ok::<SnapshotView, crate::validator::ValidationErrorView>(s),
{
    let text = snapshot_text(s);
    assert(text == snapshot_text_prefix(s.asks, s.bids, n));
    lemma_split_text(s.asks, s.bids, n);
    lemma_columns(s.asks, s.bids, n);
    let cols = columns(s.asks, s.bids, n);
    assert forall|i: int| 0 <= i < cols.len() implies #[trigger] trim(cols[i]) == cols[i] by {
        lemma_plain_ends(cols[i]);
    }
    assert(cols.map_values(|f: Seq<char>| trim(f)) =~= cols);
    lemma_depths(s.asks, s.bids, n, n);
    assert(s.asks.take(n as int) =~= s.asks);
    assert(s.bids.take(n as int) =~= s.bids);
}

/// A message row with whole-second time, in LOBSTER's column order: time,
/// event type, order id, size, price, direction.
pub open spec fn message_row_text(secs: nat, event_type: int, id: nat, size: nat, price: int, direction: int) -> Seq<
    char,
> {
    decimal(secs) + seq![','] + signed_decimal(event_type) + seq![','] + decimal(id) + seq![',']
        + decimal(size) + seq![','] + signed_decimal(price) + seq![','] + signed_decimal(direction)
}

proof fn lemma_whole_seconds(secs: nat)
    requires
        secs * 1_000_000_000 <= u64::MAX,
    ensures
        timestamp_spec(decimal(secs)) == Ok::<u64, Seq<char>>((secs * 1_000_000_000) as u64),
{
    let d = decimal(secs);
    lemma_decimal(secs);
    assert(secs <= u64::MAX);
    lemma_unsigned_parse(secs, u64::MAX as int);
    assert forall|j: int| 0 <= j < d.len() implies d[j] != '.' by {
        assert(is_digit(d[j]));
    }
    lemma_first_index(d, '.', d.len() as int);
    assert(d.take(d.len() as int) =~= d);
    let frac = Seq::<char>::empty();
    assert(frac.take(0) =~= frac);
    assert(digits_value(frac) == 0);
    assert(frac_nanos(frac) == 0);
}

/// A message row parses to the event its columns describe: the event type
/// and direction decide the kind of event and its side, and the event
/// carries the row's time (in nanoseconds), order id, size and price.
pub proof fn lemma_message_row_parses(
    secs: nat,
    event_type: int,
    id: nat,
    size: nat,
    price: int,
    direction: int,
    line: usize,
)
    requires
        secs * 1_000_000_000 <= u64::MAX,
        i32::MIN <= event_type <= i32::MAX,
        id <= u64::MAX,
        size <= u32::MAX,
        i64::MIN <= price <= i64::MAX,
        i32::MIN <= direction <= i32::MAX,
    ensures
        row_spec(message_row_text(secs, event_type, id, size, price, direction), line) == event_spec(
            event_type,
            (secs * 1_000_000_000) as u64,
            id as u64,
            size as u32,
            price as i64,
            direction,
            line,
        ),
{
    let f0 = decimal(secs);
    let f1 = signed_decimal(event_type);
    let f2 = decimal(id);
    let f3 = decimal(size);
    let f4 = signed_decimal(price);
    let f5 = signed_decimal(direction);
    lemma_unsigned_parse(secs, secs as int);
    lemma_signed_parse(event_type, i32::MIN as int, i32::MAX as int);
    lemma_unsigned_parse(id, u64::MAX as int);
    lemma_unsigned_parse(size, u32::MAX as int);
    lemma_signed_parse(price, i64::MIN as int, i64::MAX as int);
    lemma_signed_parse(direction, i32::MIN as int, i32::MAX as int);
    lemma_plain_ends(f0);
    lemma_plain_ends(f1);
    lemma_plain_ends(f2);
    lemma_plain_ends(f3);
    lemma_plain_ends(f4);
    lemma_plain_ends(f5);
    lemma_split_plain(f0);
    lemma_split_plain(f1);
    lemma_split_plain(f2);
    lemma_split_plain(f3);
    lemma_split_plain(f4);
    lemma_split_plain(f5);
    let a1 = f0 + seq![','] + f1;
    let a2 = a1 + seq![','] + f2;
    let a3 = a2 + seq![','] + f3;
    let a4 = a3 + seq![','] + f4;
    let a5 = a4 + seq![','] + f5;
    lemma_split_concat(f0, f1, ',');
    lemma_split_concat(a1, f2, ',');
    lemma_split_concat(a2, f3, ',');
    lemma_split_concat(a3, f4, ',');
    lemma_split_concat(a4, f5, ',');
    assert(a5 == message_row_text(secs, event_type, id, size, price, direction));
    let fs = split_on(a5, ',');
    assert(fs =~= seq![f0, f1, f2, f3, f4, f5]);
    lemma_whole_seconds(secs);
}

} // verus!
