//! The data model: session records, tables, monthly buckets, and the
//! activity categorizer.
//!
//! Numeric measurements are carried as fixed-point integers in thousandths
//! of the source unit (a distance of `5.1` km is stored as `5100`), so that
//! sums and comparisons are exact.

use vstd::prelude::*;
use crate::dates::{be_date_ok, be_timestamp, date_to_timestamp};
use crate::strings::{contains_seq, contains_str};

verus! {

/// The closed two-way activity classification; `Outdoor` is the default for
/// every label that does not name an indoor activity.
#[derive(Clone, Copy, PartialEq, Eq, Structural, Debug)]
pub enum Category {
    Indoor,
    Outdoor,
}

/// Mathematical content of one session record.
pub ghost struct RecordV {
    pub date_raw: Seq<char>,
    pub energy: int,
    pub activity_raw: Seq<char>,
    pub activity_class: Option<Category>,
    pub distance: int,
    pub duration: int,
    pub pace: int,
    pub heart_avg: int,
    pub heart_max: int,
    pub timestamp: Option<int>,
}

/// One row of the merged table. The derived fields `activity_class` and
/// `timestamp` are `None` until the one-time derivation pass fills them;
/// a `timestamp` that stays `None` marks an unparseable raw date.
pub struct Record {
    pub date_raw: String,
    pub energy: i64,
    pub activity_raw: String,
    pub activity_class: Option<Category>,
    pub distance: i64,
    pub duration: i64,
    pub pace: i64,
    pub heart_avg: i64,
    pub heart_max: i64,
    pub timestamp: Option<i64>,
}

/// View of an optional machine integer.
pub open spec fn opt_int(v: Option<i64>) -> Option<int> {
    match v {
        Some(x) => Some(x as int),
        None => None,
    }
}

impl View for Record {
    type V = RecordV;

    open spec fn view(&self) -> RecordV {
        RecordV {
            date_raw: self.date_raw@,
            energy: self.energy as int,
            activity_raw: self.activity_raw@,
            activity_class: self.activity_class,
            distance: self.distance as int,
            duration: self.duration as int,
            pace: self.pace as int,
            heart_avg: self.heart_avg as int,
            heart_max: self.heart_max as int,
            timestamp: opt_int(self.timestamp),
        }
    }
}

impl Clone for Record {
    fn clone(&self) -> (r: Self)
        ensures
            r@ == self@,
    {
        Record {
            date_raw: self.date_raw.clone(),
            energy: self.energy,
            activity_raw: self.activity_raw.clone(),
            activity_class: self.activity_class,
            distance: self.distance,
            duration: self.duration,
            pace: self.pace,
            heart_avg: self.heart_avg,
            heart_max: self.heart_max,
            timestamp: self.timestamp,
        }
    }
}

/// The merged table: an ordered sequence of records under one fixed schema.
/// Every query operation reads a table and builds a new one; a table is
/// never changed in place.
pub struct Table {
    pub rows: Vec<Record>,
}

impl View for Table {
    type V = Seq<RecordV>;

    open spec fn view(&self) -> Seq<RecordV> {
        self.rows@.map_values(|r: Record| r@)
    }
}

/// Mathematical content of one monthly bucket.
pub ghost struct BucketV {
    pub key: Seq<char>,
    pub value: int,
}

/// One keyed aggregate: a group key (a year-month string, an activity label,
/// or a histogram bin label) with its summed value or count.
pub struct Bucket {
    pub key: String,
    pub value: i128,
}

impl View for Bucket {
    type V = BucketV;

    open spec fn view(&self) -> BucketV {
        BucketV { key: self.key@, value: self.value as int }
    }
}

impl Clone for Bucket {
    fn clone(&self) -> (r: Self)
        ensures
            r@ == self@,
    {
        Bucket { key: self.key.clone(), value: self.value }
    }
}

/// An ordered sequence of keyed aggregates.
pub struct BucketTable {
    pub rows: Vec<Bucket>,
}

impl View for BucketTable {
    type V = Seq<BucketV>;

    open spec fn view(&self) -> Seq<BucketV> {
        self.rows@.map_values(|b: Bucket| b@)
    }
}

// ---------------------------------------------------------------------------
// Categorizer
// ---------------------------------------------------------------------------

/// A label classifies as `Indoor` exactly when it contains the substring
/// `"indoor"` (case-sensitive); everything else is `Outdoor`.
pub open spec fn spec_categorize(raw: Seq<char>) -> Category {
    if contains_seq(raw, "indoor"@) {
        Category::Indoor
    } else {
        Category::Outdoor
    }
}

/// Classifies a free-text activity label.
pub fn categorize(activity_raw: &str) -> (c: Category)
    ensures
        c == spec_categorize(activity_raw@),
{
    if contains_str(activity_raw, "indoor") {
        Category::Indoor
    } else {
        Category::Outdoor
    }
}

// ---------------------------------------------------------------------------
// The one-time derivation pass
// ---------------------------------------------------------------------------

/// A record after derivation: the classification is filled in, and the
/// timestamp is the normalized instant exactly when the raw date is valid.
pub open spec fn spec_derive(r: RecordV) -> RecordV {
    RecordV {
        activity_class: Some(spec_categorize(r.activity_raw)),
        timestamp: if be_date_ok(r.date_raw) {
            Some(be_timestamp(r.date_raw))
        } else {
            None
        },
        ..r
    }
}

/// Fills the derived fields of one record.
fn derive_record(r: &Record) -> (out: Record)
    ensures
        out@ == spec_derive(r@),
{
    let mut out = r.clone();
    out.activity_class = Some(categorize(out.activity_raw.as_str()));
    out.timestamp = date_to_timestamp(out.date_raw.as_str());
    out
}

/// The one-time map-and-rebuild pass that adds `activity_class` and
/// `timestamp` to every row, producing a new table.
pub fn derive_columns(t: &Table) -> (out: Table)
    ensures
        out@.len() == t@.len(),
        forall|i: int| 0 <= i < t@.len() ==> out@[i] == spec_derive(#[trigger] t@[i]),
{
    let mut rows: Vec<Record> = Vec::new();
    let n = t.rows.len();
    let mut i: usize = 0;
    while i < n
        invariant
            i <= n == t.rows@.len(),
            rows@.len() == i,
            forall|k: int| 0 <= k < i ==> rows@.map_values(|r: Record| r@)[k]
                == spec_derive(#[trigger] t@[k]),
        decreases n - i,
    {
        let d = derive_record(&t.rows[i]);
        rows.push(d);
        i = i + 1;
    }
    Table { rows }
}

} // verus!
