//! Calendar-keyed operations: the month-window filter, month names, and
//! the gap-filling of missing months.

use vstd::prelude::*;
use crate::dates::{instant_seconds, instant_seconds_exec};
use crate::record::{Bucket, BucketV, BucketTable, Record, RecordV, Table};
use crate::strings::{all_digits, digits_value, parse_digits};
use crate::query::lemma_filter_take_step;

verus! {

// ---------------------------------------------------------------------------
// The calendar-month window
// ---------------------------------------------------------------------------

/// First instant of the month, in Unix seconds.
pub open spec fn month_start(y: int, m: int) -> int {
    instant_seconds(y, m, 1, 0, 0, 0)
}

/// First instant of the following month; December rolls over the year.
pub open spec fn next_month_start(y: int, m: int) -> int {
    if m == 12 {
        instant_seconds(y + 1, 1, 1, 0, 0, 0)
    } else {
        instant_seconds(y, m + 1, 1, 0, 0, 0)
    }
}

/// The half-open month window: a present timestamp inside
/// `[month_start, next_month_start)`.
pub open spec fn month_window_pred(y: int, m: int) -> spec_fn(RecordV) -> bool {
    |r: RecordV| r.timestamp matches Some(ts)
        && month_start(y, m) <= ts && ts < next_month_start(y, m)
}

/// Rows whose timestamp falls in the half-open window of one calendar
/// month; rows without a timestamp are excluded.
pub fn filter_by_calendar_month(t: &Table, year: i64, month: i64) -> (out: Table)
    requires
        1 <= month <= 12,
        -9999 <= year <= 9999,
    ensures
        out@ == t@.filter(month_window_pred(year as int, month as int)),
{
    let lo = instant_seconds_exec(year, month, 1, 0, 0, 0);
    let hi = if month == 12 {
        instant_seconds_exec(year + 1, 1, 1, 0, 0, 0)
    } else {
        instant_seconds_exec(year, month + 1, 1, 0, 0, 0)
    };
    let ghost p = month_window_pred(year as int, month as int);
    let mut rows: Vec<Record> = Vec::new();
    proof {
        reveal(Seq::filter);
        assert(t@.take(0) =~= Seq::<RecordV>::empty());
        assert(rows@.map_values(|x: Record| x@) =~= t@.take(0).filter(p));
    }
    let n = t.rows.len();
    let mut i: usize = 0;
    while i < n
        invariant
            i <= n == t.rows@.len(),
            lo == month_start(year as int, month as int),
            hi == next_month_start(year as int, month as int),
            p == month_window_pred(year as int, month as int),
            rows@.map_values(|x: Record| x@) == t@.take(i as int).filter(p),
        decreases n - i,
    {
        proof {
            lemma_filter_take_step(t@, p, i as int);
            assert(t@[i as int] == t.rows@[i as int]@);
        }
        let keep = match t.rows[i].timestamp {
            Some(ts) => lo <= ts && ts < hi,
            None => false,
        };
        if keep {
            let r = t.rows[i].clone();
            proof {
                assert(rows@.push(r).map_values(|x: Record| x@)
                    =~= rows@.map_values(|x: Record| x@).push(t@[i as int]));
            }
            rows.push(r);
        }
        i = i + 1;
    }
    proof {
        assert(t@.take(n as int) =~= t@);
    }
    Table { rows }
}

// ---------------------------------------------------------------------------
// Month codes and names
// ---------------------------------------------------------------------------

/// The two-digit code of a month number.
pub open spec fn month_code(m: int) -> Seq<char> {
    if m == 1 { "01"@ } else if m == 2 { "02"@ } else if m == 3 { "03"@ }
    else if m == 4 { "04"@ } else if m == 5 { "05"@ } else if m == 6 { "06"@ }
    else if m == 7 { "07"@ } else if m == 8 { "08"@ } else if m == 9 { "09"@ }
    else if m == 10 { "10"@ } else if m == 11 { "11"@ } else { "12"@ }
}

fn month_code_str(m: u64) -> (r: &'static str)
    requires
        1 <= m <= 12,
    ensures
        r@ == month_code(m as int),
{
    match m {
        1 => "01",
        2 => "02",
        3 => "03",
        4 => "04",
        5 => "05",
        6 => "06",
        7 => "07",
        8 => "08",
        9 => "09",
        10 => "10",
        11 => "11",
        _ => "12",
    }
}

/// The English name of a month number.
pub open spec fn spec_month_name(m: int) -> Seq<char> {
    if m == 1 { "January"@ } else if m == 2 { "February"@ } else if m == 3 { "March"@ }
    else if m == 4 { "April"@ } else if m == 5 { "May"@ } else if m == 6 { "June"@ }
    else if m == 7 { "July"@ } else if m == 8 { "August"@ } else if m == 9 { "September"@ }
    else if m == 10 { "October"@ } else if m == 11 { "November"@ } else { "December"@ }
}

/// The English month name of a month number; `None` outside 1 to 12.
pub fn number_to_month(m: u64) -> (r: Option<String>)
    ensures
        r is Some <==> 1 <= m <= 12,
        r is Some ==> r->0@ == spec_month_name(m as int),
{
    if m < 1 || m > 12 {
        return None;
    }
    let name = match m {
        1 => "January",
        2 => "February",
        3 => "March",
        4 => "April",
        5 => "May",
        6 => "June",
        7 => "July",
        8 => "August",
        9 => "September",
        10 => "October",
        11 => "November",
        _ => "December",
    };
    Some(String::from_str(name))
}

// ---------------------------------------------------------------------------
// Gap filling
// ---------------------------------------------------------------------------

/// The canonical key of month `m` in year `year`: `"{year}-{mm}"`.
pub open spec fn month_bucket_key(year: Seq<char>, m: int) -> Seq<char> {
    year + "-"@ + month_code(m)
}

/// Value of the first bucket holding `key`; zero when no bucket does.
pub open spec fn bucket_lookup(bs: Seq<BucketV>, key: Seq<char>) -> int
    decreases bs.len(),
{
    if bs.len() == 0 {
        0
    } else if bs[0].key == key {
        bs[0].value
    } else {
        bucket_lookup(bs.drop_first(), key)
    }
}

fn bucket_lookup_exec(t: &BucketTable, key: &String) -> (v: i128)
    ensures
        v == bucket_lookup(t@, key@),
{
    let n = t.rows.len();
    proof {
        assert(t@.skip(0) =~= t@);
    }
    let mut j: usize = 0;
    while j < n
        invariant
            j <= n == t.rows@.len(),
            bucket_lookup(t@, key@) == bucket_lookup(t@.skip(j as int), key@),
        decreases n - j,
    {
        proof {
            assert(t@.skip(j as int)[0] == t@[j as int]);
            assert(t@[j as int] == t.rows@[j as int]@);
            assert(t@.skip(j as int).drop_first() =~= t@.skip(j + 1));
        }
        if t.rows[j].key.eq(key) {
            return t.rows[j].value;
        }
        j = j + 1;
    }
    proof {
        assert(t@.skip(n as int) =~= Seq::<BucketV>::empty());
    }
    0
}

/// Produces exactly twelve buckets, keys `"{year}-01"` to `"{year}-12"` in
/// order; a month with no input bucket gets the value zero, so callers can
/// always walk twelve complete months.
pub fn fill_missing_months(t: &BucketTable, year: &str) -> (out: BucketTable)
    ensures
        out@.len() == 12,
        forall|m: int| 1 <= m <= 12 ==> (#[trigger] out@[m - 1]).key
            == month_bucket_key(year@, m),
        forall|m: int| 1 <= m <= 12 ==> (#[trigger] out@[m - 1]).value
            == bucket_lookup(t@, month_bucket_key(year@, m)),
{
    let mut rows: Vec<Bucket> = Vec::new();
    let mut m: u64 = 1;
    while m <= 12
        invariant
            1 <= m <= 13,
            rows@.len() == m - 1,
            forall|q: int| 1 <= q < m ==> (#[trigger] rows@[q - 1]@).key
                == month_bucket_key(year@, q),
            forall|q: int| 1 <= q < m ==> (#[trigger] rows@[q - 1]@).value
                == bucket_lookup(t@, month_bucket_key(year@, q)),
        decreases 13 - m,
    {
        let key = String::from_str(year).concat("-").concat(month_code_str(m));
        proof {
            assert(key@ == month_bucket_key(year@, m as int));
        }
        let value = bucket_lookup_exec(t, &key);
        rows.push(Bucket { key, value });
        m = m + 1;
    }
    proof {
        assert(forall|q: int| 0 <= q < 12 ==> rows@.map_values(|b: Bucket| b@)[q]
            == #[trigger] rows@[q]@);
    }
    BucketTable { rows }
}

// ---------------------------------------------------------------------------
// Month names over bucket keys
// ---------------------------------------------------------------------------

/// A bucket whose year-month key names a month gets the English month name
/// as its key; any other bucket is left as it stands.
pub open spec fn month_named(b: BucketV) -> BucketV {
    if b.key.len() >= 7 && all_digits(b.key.subrange(5, 7))
        && 1 <= digits_value(b.key.subrange(5, 7)) <= 12 {
        BucketV { key: spec_month_name(digits_value(b.key.subrange(5, 7))), value: b.value }
    } else {
        b
    }
}

/// Replaces each year-month bucket key by its English month name.
pub fn convert_date_month(t: &BucketTable) -> (out: BucketTable)
    ensures
        out@.len() == t@.len(),
        forall|i: int| 0 <= i < t@.len() ==> out@[i] == month_named(#[trigger] t@[i]),
{
    let mut rows: Vec<Bucket> = Vec::new();
    let n = t.rows.len();
    let mut i: usize = 0;
    while i < n
        invariant
            i <= n == t.rows@.len(),
            rows@.len() == i,
            forall|k: int| 0 <= k < i ==> rows@.map_values(|b: Bucket| b@)[k]
                == month_named(#[trigger] t@[k]),
        decreases n - i,
    {
        proof {
            assert(t@[i as int] == t.rows@[i as int]@);
        }
        let b = &t.rows[i];
        let klen = b.key.as_str().unicode_len();
        let named = if klen >= 7
            && crate::strings::check_digits_str(b.key.as_str().substring_char(5, 7)) {
            proof {
                assert(b.key@.subrange(5, 7) == t@[i as int].key.subrange(5, 7));
            }
            let v = parse_digits(b.key.as_str(), 5, 7);
            if 1 <= v && v <= 12 {
                match number_to_month(v) {
                    Some(name) => Bucket { key: name, value: b.value },
                    None => {
                        proof {
                            assert(false);
                        }
                        Bucket { key: String::new(), value: b.value }
                    },
                }
            } else {
                b.clone()
            }
        } else {
            b.clone()
        };
        rows.push(named);
        i = i + 1;
    }
    BucketTable { rows }
}

} // verus!
