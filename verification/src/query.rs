//! The query engine: range and category filters, column sums, and the
//! stable sort. Every operation reads a table and returns a new one.

use vstd::prelude::*;
use crate::record::{Category, Record, RecordV, Table, opt_int};

verus! {

// ---------------------------------------------------------------------------
// Columns
// ---------------------------------------------------------------------------

/// A numeric column of the table. Every column is always present except
/// `Timestamp`, which is absent on rows whose raw date did not normalize.
#[derive(Clone, Copy, PartialEq, Eq, Structural, Debug)]
pub enum Column {
    Energy,
    Distance,
    Duration,
    Pace,
    HeartAvg,
    HeartMax,
    Timestamp,
}

/// The value a row holds in a column.
pub open spec fn spec_value(r: RecordV, c: Column) -> Option<int> {
    match c {
        Column::Energy => Some(r.energy),
        Column::Distance => Some(r.distance),
        Column::Duration => Some(r.duration),
        Column::Pace => Some(r.pace),
        Column::HeartAvg => Some(r.heart_avg),
        Column::HeartMax => Some(r.heart_max),
        Column::Timestamp => r.timestamp,
    }
}

/// The value a row holds in a column, an absent value counting as zero.
pub open spec fn value_or_zero(r: RecordV, c: Column) -> int {
    match spec_value(r, c) {
        Some(v) => v,
        None => 0,
    }
}

/// Reads one column of one row.
pub fn record_value(r: &Record, c: Column) -> (v: Option<i64>)
    ensures
        opt_int(v) == spec_value(r@, c),
{
    match c {
        Column::Energy => Some(r.energy),
        Column::Distance => Some(r.distance),
        Column::Duration => Some(r.duration),
        Column::Pace => Some(r.pace),
        Column::HeartAvg => Some(r.heart_avg),
        Column::HeartMax => Some(r.heart_max),
        Column::Timestamp => r.timestamp,
    }
}

// ---------------------------------------------------------------------------
// Filters
// ---------------------------------------------------------------------------

/// The open-interval range predicate: the column is present and strictly
/// between the bounds. The exclusive bounds are deliberate and must not be
/// widened to inclusive ones.
pub open spec fn range_pred(c: Column, min: int, max: int) -> spec_fn(RecordV) -> bool {
    |r: RecordV| spec_value(r, c) matches Some(v) && min < v && v < max
}

/// The category predicate: the row was classified as `cat`.
pub open spec fn category_pred(cat: Category) -> spec_fn(RecordV) -> bool {
    |r: RecordV| r.activity_class == Some(cat)
}

/// The non-null-timestamp predicate.
pub open spec fn has_timestamp_pred() -> spec_fn(RecordV) -> bool {
    |r: RecordV| r.timestamp is Some
}

/// Unfolds a filter over one more element.
pub proof fn lemma_filter_take_step<A>(s: Seq<A>, p: spec_fn(A) -> bool, i: int)
    requires
        0 <= i < s.len(),
    ensures
        s.take(i + 1).filter(p) == if p(s[i]) {
            s.take(i).filter(p).push(s[i])
        } else {
            s.take(i).filter(p)
        },
{
    reveal(Seq::filter);
    assert(s.take(i + 1).drop_last() =~= s.take(i));
    assert(s.take(i + 1).last() == s[i]);
}

/// Filtering cannot add elements a second pass would drop: filtering twice
/// with one predicate equals filtering once.
pub proof fn lemma_filter_idempotent<A>(s: Seq<A>, p: spec_fn(A) -> bool)
    ensures
        s.filter(p).filter(p) == s.filter(p),
    decreases s.len(),
{
    reveal(Seq::filter);
    if s.len() > 0 {
        lemma_filter_idempotent(s.drop_last(), p);
        if p(s.last()) {
            let t = s.drop_last().filter(p).push(s.last());
            assert(t.drop_last() =~= s.drop_last().filter(p));
        }
    }
}

/// The range filter is idempotent: applying it twice with the same bounds
/// equals applying it once.
pub proof fn lemma_filter_by_range_idempotent(s: Seq<RecordV>, c: Column, min: int, max: int)
    ensures
        s.filter(range_pred(c, min, max)).filter(range_pred(c, min, max))
            == s.filter(range_pred(c, min, max)),
{
    lemma_filter_idempotent(s, range_pred(c, min, max));
}

/// Rows whose `c` column lies strictly between `min` and `max` (open
/// interval on both sides), in their original order.
pub fn filter_by_range(t: &Table, c: Column, min: i64, max: i64) -> (out: Table)
    ensures
        out@ == t@.filter(range_pred(c, min as int, max as int)),
{
    let ghost p = range_pred(c, min as int, max as int);
    let mut rows: Vec<Record> = Vec::new();
    proof {
        reveal(Seq::filter);
        assert(t@.take(0) =~= Seq::<RecordV>::empty());
        assert(rows@.map_values(|x: Record| x@) =~= t@.take(0).filter(p));
    }
    let n = t.rows.len();
    let mut i: usize = 0;
    while i < n
        invariant
            i <= n == t.rows@.len(),
            p == range_pred(c, min as int, max as int),
            rows@.map_values(|x: Record| x@) == t@.take(i as int).filter(p),
        decreases n - i,
    {
        proof {
            lemma_filter_take_step(t@, p, i as int);
            assert(t@[i as int] == t.rows@[i as int]@);
        }
        let keep = match record_value(&t.rows[i], c) {
            Some(v) => min < v && v < max,
            None => false,
        };
        if keep {
            let r = t.rows[i].clone();
            proof {
                assert(rows@.push(r).map_values(|x: Record| x@)
                    =~= rows@.map_values(|x: Record| x@).push(t@[i as int]));
            }
            rows.push(r);
        }
        i = i + 1;
    }
    proof {
        assert(t@.take(n as int) =~= t@);
    }
    Table { rows }
}

/// Rows classified as `cat`, in their original order.
pub fn filter_by_category(t: &Table, cat: Category) -> (out: Table)
    ensures
        out@ == t@.filter(category_pred(cat)),
{
    let ghost p = category_pred(cat);
    let mut rows: Vec<Record> = Vec::new();
    proof {
        reveal(Seq::filter);
        assert(t@.take(0) =~= Seq::<RecordV>::empty());
        assert(rows@.map_values(|x: Record| x@) =~= t@.take(0).filter(p));
    }
    let n = t.rows.len();
    let mut i: usize = 0;
    while i < n
        invariant
            i <= n == t.rows@.len(),
            p == category_pred(cat),
            rows@.map_values(|x: Record| x@) == t@.take(i as int).filter(p),
        decreases n - i,
    {
        proof {
            lemma_filter_take_step(t@, p, i as int);
            assert(t@[i as int] == t.rows@[i as int]@);
        }
        let keep = match &t.rows[i].activity_class {
            Some(k) => *k == cat,
            None => false,
        };
        if keep {
            let r = t.rows[i].clone();
            proof {
                assert(rows@.push(r).map_values(|x: Record| x@)
                    =~= rows@.map_values(|x: Record| x@).push(t@[i as int]));
            }
            rows.push(r);
        }
        i = i + 1;
    }
    proof {
        assert(t@.take(n as int) =~= t@);
    }
    Table { rows }
}

/// Rows with a normalized timestamp, in their original order. Callers must
/// apply this before any timestamp-ordered or month-keyed operation.
pub fn filter_with_timestamp(t: &Table) -> (out: Table)
    ensures
        out@ == t@.filter(has_timestamp_pred()),
{
    let ghost p = has_timestamp_pred();
    let mut rows: Vec<Record> = Vec::new();
    proof {
        reveal(Seq::filter);
        assert(t@.take(0) =~= Seq::<RecordV>::empty());
        assert(rows@.map_values(|x: Record| x@) =~= t@.take(0).filter(p));
    }
    let n = t.rows.len();
    let mut i: usize = 0;
    while i < n
        invariant
            i <= n == t.rows@.len(),
            p == has_timestamp_pred(),
            rows@.map_values(|x: Record| x@) == t@.take(i as int).filter(p),
        decreases n - i,
    {
        proof {
            lemma_filter_take_step(t@, p, i as int);
            assert(t@[i as int] == t.rows@[i as int]@);
        }
        if t.rows[i].timestamp.is_some() {
            let r = t.rows[i].clone();
            proof {
                assert(rows@.push(r).map_values(|x: Record| x@)
                    =~= rows@.map_values(|x: Record| x@).push(t@[i as int]));
            }
            rows.push(r);
        }
        i = i + 1;
    }
    proof {
        assert(t@.take(n as int) =~= t@);
    }
    Table { rows }
}

// ---------------------------------------------------------------------------
// Sums
// ---------------------------------------------------------------------------

/// Sum of a column over a sequence of rows; an empty sequence sums to zero,
/// and rows without the column count as zero.
pub open spec fn sum_of(s: Seq<RecordV>, c: Column) -> int
    decreases s.len(),
{
    if s.len() == 0 {
        0
    } else {
        sum_of(s.drop_last(), c) + value_or_zero(s.last(), c)
    }
}

/// Every numeric field of the row fits a machine integer. This holds of
/// every row a `Table` can hold.
pub open spec fn record_in_range(r: RecordV) -> bool {
    &&& -0x8000000000000000 <= r.energy < 0x8000000000000000
    &&& -0x8000000000000000 <= r.distance < 0x8000000000000000
    &&& -0x8000000000000000 <= r.duration < 0x8000000000000000
    &&& -0x8000000000000000 <= r.pace < 0x8000000000000000
    &&& -0x8000000000000000 <= r.heart_avg < 0x8000000000000000
    &&& -0x8000000000000000 <= r.heart_max < 0x8000000000000000
    &&& r.timestamp matches Some(ts) ==> -0x8000000000000000 <= ts < 0x8000000000000000
}

pub open spec fn records_in_range(s: Seq<RecordV>) -> bool {
    forall|i: int| 0 <= i < s.len() ==> record_in_range(#[trigger] s[i])
}

/// The rows of a table are machine values, so they are in range.
pub proof fn lemma_table_in_range(t: &Table)
    ensures
        records_in_range(t@),
{
    assert forall|i: int| 0 <= i < t@.len() implies record_in_range(#[trigger] t@[i]) by {
        assert(t@[i] == t.rows@[i]@);
    }
}

/// A column sum over in-range rows is bounded by the row count times the
/// magnitude of the largest machine integer.
pub proof fn lemma_sum_of_bound(s: Seq<RecordV>, c: Column)
    requires
        records_in_range(s),
    ensures
        -(s.len() * 0x8000000000000000) <= sum_of(s, c) <= s.len() * 0x8000000000000000,
    decreases s.len(),
{
    if s.len() > 0 {
        assert(records_in_range(s.drop_last())) by {
            assert(forall|i: int|
                0 <= i < s.len() - 1 ==> s.drop_last()[i] == #[trigger] s[i]);
        }
        lemma_sum_of_bound(s.drop_last(), c);
        assert(record_in_range(s.last()));
    }
}

/// Sums a column over the whole table; an empty table sums to zero, and
/// rows without the column contribute nothing.
pub fn sum_column(t: &Table, c: Column) -> (s: i128)
    ensures
        s == sum_of(t@, c),
{
    proof {
        lemma_table_in_range(t);
    }
    let mut acc: i128 = 0;
    let n = t.rows.len();
    let mut i: usize = 0;
    while i < n
        invariant
            i <= n == t.rows@.len(),
            records_in_range(t@),
            acc == sum_of(t@.take(i as int), c),
            -(i * 0x8000000000000000) <= acc <= i * 0x8000000000000000,
        decreases n - i,
    {
        proof {
            assert(t@.take(i + 1).drop_last() =~= t@.take(i as int));
            assert(t@.take(i + 1).last() == t@[i as int]);
            assert(t@[i as int] == t.rows@[i as int]@);
            lemma_sum_of_bound(t@.take(i as int), c);
            assert(t@.take(i as int).len() == i as int);
        }
        let v = match record_value(&t.rows[i], c) {
            Some(v) => v,
            None => 0,
        };
        acc = acc + (v as i128);
        i = i + 1;
    }
    proof {
        assert(t@.take(n as int) =~= t@);
    }
    acc
}

// ---------------------------------------------------------------------------
// The stable sort
// ---------------------------------------------------------------------------

/// Sort-key order on optional column values: an absent value comes before
/// every present one, present values compare as integers, and `descending`
/// reverses the order of present values.
pub open spec fn key_le(a: Option<int>, b: Option<int>, descending: bool) -> bool {
    match (a, b) {
        (Option::None, _) => true,
        (Option::Some(_), Option::None) => false,
        (Option::Some(x), Option::Some(y)) => if descending { x >= y } else { x <= y },
    }
}

/// The rows stand in sort-key order on column `c`.
pub open spec fn sorted_by(s: Seq<RecordV>, c: Column, descending: bool) -> bool {
    forall|i: int, j: int| 0 <= i < j < s.len()
        ==> key_le(spec_value(#[trigger] s[i], c), spec_value(#[trigger] s[j], c), descending)
}

/// The rows whose `c` column holds exactly `k`.
pub open spec fn key_eq_pred(c: Column, k: Option<int>) -> spec_fn(RecordV) -> bool {
    |r: RecordV| spec_value(r, c) == k
}

/// The views of a sequence of rows.
pub open spec fn seq_views(rows: Seq<Record>) -> Seq<RecordV> {
    rows.map_values(|r: Record| r@)
}

/// Decides `key_le` on machine values.
fn key_le_exec(a: Option<i64>, b: Option<i64>, descending: bool) -> (r: bool)
    ensures
        r == key_le(opt_int(a), opt_int(b), descending),
{
    match (a, b) {
        (Option::None, _) => true,
        (Option::Some(_), Option::None) => false,
        (Option::Some(x), Option::Some(y)) => if descending { x >= y } else { x <= y },
    }
}

/// Stable sort by a column. The output is a permutation of the input,
/// ordered by the sort key, and rows that share a key keep their input
/// order: for every key value, the subsequence holding it is unchanged.
/// Rows without the key (a null timestamp) sort before all others; callers
/// that need them gone must filter first.
pub fn sort_by(t: &Table, c: Column, descending: bool) -> (out: Table)
    ensures
        sorted_by(out@, c, descending),
        out@.to_multiset() == t@.to_multiset(),
        forall|k: Option<int>| #[trigger] out@.filter(key_eq_pred(c, k))
            == t@.filter(key_eq_pred(c, k)),
{
    broadcast use vstd::seq_lib::group_seq_properties;
    broadcast use vstd::seq_lib::group_to_multiset_ensures;
    broadcast use vstd::multiset::group_multiset_axioms;

    let mut rows: Vec<Record> = Vec::new();
    proof {
        reveal(Seq::filter);
        assert(t@.take(0) =~= Seq::<RecordV>::empty());
        assert(seq_views(rows@) =~= Seq::<RecordV>::empty());
        assert(forall|k: Option<int>|
            #[trigger] seq_views(rows@).filter(key_eq_pred(c, k))
                =~= t@.take(0).filter(key_eq_pred(c, k)));
        assert(seq_views(rows@).to_multiset() =~= t@.take(0).to_multiset());
    }
    let n = t.rows.len();
    let mut i: usize = 0;
    while i < n
        invariant
            i <= n == t.rows@.len(),
            rows@.len() == i,
            sorted_by(seq_views(rows@), c, descending),
            seq_views(rows@).to_multiset() == t@.take(i as int).to_multiset(),
            forall|k: Option<int>|
                #[trigger] seq_views(rows@).filter(key_eq_pred(c, k))
                    == t@.take(i as int).filter(key_eq_pred(c, k)),
        decreases n - i,
    {
        let x = t.rows[i].clone();
        let ghost xv = t@[i as int];
        proof {
            assert(t@[i as int] == t.rows@[i as int]@);
        }
        let kx = record_value(&x, c);
        let ghost out0 = seq_views(rows@);
        let mut pos: usize = rows.len();
        while pos > 0 && !key_le_exec(record_value(&rows[pos - 1], c), kx, descending)
            invariant
                pos <= rows@.len(),
                out0 == seq_views(rows@),
                opt_int(kx) == spec_value(xv, c),
                forall|j: int| pos <= j < out0.len()
                    ==> !key_le(spec_value(#[trigger] out0[j], c), spec_value(xv, c), descending),
            decreases pos,
        {
            proof {
                assert(out0[pos - 1] == rows@[pos - 1]@);
            }
            pos = pos - 1;
        }
        proof {
            if pos > 0 {
                assert(out0[pos - 1] == rows@[pos - 1]@);
                assert(key_le(spec_value(out0[pos - 1], c), spec_value(xv, c), descending));
            }
        }
        rows.insert(pos, x);
        proof {
            let out1 = seq_views(rows@);
            let a = out0.take(pos as int);
            let b = out0.skip(pos as int);
            assert(out1 =~= a + seq![xv] + b);
            // Sortedness of the new sequence.
            assert forall|p0: int, q0: int| 0 <= p0 < q0 < out1.len()
                implies key_le(
                    spec_value(out1[p0], c), spec_value(out1[q0], c), descending) by {
                let pl = pos as int;
                if p0 < pl && q0 < pl {
                    assert(out1[p0] == out0[p0] && out1[q0] == out0[q0]);
                } else if p0 < pl && q0 == pl {
                    assert(out1[p0] == out0[p0]);
                    assert(key_le(spec_value(out0[pl - 1], c), spec_value(xv, c), descending));
                    assert(key_le(spec_value(out0[p0], c), spec_value(out0[pl - 1], c),
                        descending) || p0 == pl - 1);
                } else if p0 < pl && q0 > pl {
                    assert(out1[p0] == out0[p0] && out1[q0] == out0[q0 - 1]);
                } else if p0 == pl {
                    assert(out1[q0] == out0[q0 - 1]);
                    assert(!key_le(spec_value(out0[q0 - 1], c), spec_value(xv, c), descending));
                } else {
                    assert(out1[p0] == out0[p0 - 1] && out1[q0] == out0[q0 - 1]);
                }
            }
            // Multiset: inserting contributes exactly one copy of the row.
            assert(out0 =~= a + b);
            assert(out1 =~= out0.insert(pos as int, xv));
            vstd::seq_lib::to_multiset_insert(out0, pos as int, xv);
            assert(t@.take(i + 1) =~= t@.take(i as int).push(xv));
            vstd::seq_lib::to_multiset_build(t@.take(i as int), xv);
            assert(t@.take(i + 1).to_multiset() == t@.take(i as int).to_multiset().insert(xv));
            // Stability: per-key subsequences grow only at the end.
            assert forall|k: Option<int>|
                #[trigger] out1.filter(key_eq_pred(c, k))
                    == t@.take(i + 1).filter(key_eq_pred(c, k)) by {
                let p = key_eq_pred(c, k);
                reveal(Seq::filter);
                assert(Seq::<RecordV>::empty().filter(p) =~= Seq::<RecordV>::empty());
                Seq::filter_distributes_over_add(a + seq![xv], b, p);
                Seq::filter_distributes_over_add(a, seq![xv], p);
                Seq::filter_distributes_over_add(a, b, p);
                assert(seq![xv].drop_last() =~= Seq::<RecordV>::empty());
                lemma_filter_take_step(t@, p, i as int);
                if k == spec_value(xv, c) {
                    // No row after the insertion point shares the key.
                    assert(b.filter(p) =~= Seq::<RecordV>::empty()) by {
                        if b.filter(p).len() > 0 {
                            b.lemma_filter_pred(p, 0);
                            let e = b.filter(p)[0];
                            assert(b.contains(e)) by {
                                b.lemma_filter_contains_rev(p, e);
                            }
                            let j = choose|j: int| 0 <= j < b.len() && b[j] == e;
                            assert(b[j] == out0[pos + j]);
                            assert(!key_le(spec_value(e, c), spec_value(xv, c), descending));
                            assert(spec_value(e, c) == spec_value(xv, c));
                        }
                    }
                    assert(seq![xv].filter(p) =~= seq![xv]);
                    assert(out1.filter(p) =~= out0.filter(p).push(xv));
                } else {
                    assert(seq![xv].filter(p) =~= Seq::<RecordV>::empty());
                    assert(out1.filter(p) =~= out0.filter(p));
                }
            }
        }
        i = i + 1;
    }
    proof {
        assert(t@.take(n as int) =~= t@);
    }
    Table { rows }
}

/// After the required null exclusion, an ascending timestamp sort yields a
/// non-decreasing timestamp sequence: the premises are exactly what
/// `filter_with_timestamp` followed by `sort_by` on `Timestamp` ensure.
pub proof fn lemma_null_exclusion_then_sort_non_decreasing(
    orig: Seq<RecordV>,
    sorted: Seq<RecordV>,
)
    requires
        sorted_by(sorted, Column::Timestamp, false),
        sorted.to_multiset() == orig.filter(has_timestamp_pred()).to_multiset(),
    ensures
        forall|i: int, j: int| 0 <= i < j < sorted.len()
            ==> (#[trigger] sorted[i]).timestamp->0 <= (#[trigger] sorted[j]).timestamp->0,
{
    let kept = orig.filter(has_timestamp_pred());
    assert forall|i: int| 0 <= i < sorted.len()
        implies (#[trigger] sorted[i]).timestamp is Some by {
        let e = sorted[i];
        assert(sorted.contains(e));
        vstd::seq_lib::to_multiset_contains(sorted, e);
        vstd::seq_lib::to_multiset_contains(kept, e);
        assert(kept.contains(e));
        let j = choose|j: int| 0 <= j < kept.len() && kept[j] == e;
        orig.lemma_filter_pred(has_timestamp_pred(), j);
    }
    lemma_sorted_timestamps_non_decreasing(sorted);
}

/// A timestamp-sorted sequence of rows that all hold a timestamp yields a
/// non-decreasing timestamp sequence.
pub proof fn lemma_sorted_timestamps_non_decreasing(s: Seq<RecordV>)
    requires
        sorted_by(s, Column::Timestamp, false),
        forall|i: int| 0 <= i < s.len() ==> (#[trigger] s[i]).timestamp is Some,
    ensures
        forall|i: int, j: int| 0 <= i < j < s.len()
            ==> (#[trigger] s[i]).timestamp->0 <= (#[trigger] s[j]).timestamp->0,
{
    assert forall|i: int, j: int| 0 <= i < j < s.len()
        implies (#[trigger] s[i]).timestamp->0 <= (#[trigger] s[j]).timestamp->0 by {
        assert(key_le(spec_value(s[i], Column::Timestamp),
            spec_value(s[j], Column::Timestamp), false));
    }
}

} // verus!
