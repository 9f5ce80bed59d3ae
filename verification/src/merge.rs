//! The ingestion pipeline's accumulation step and the merger.
//!
//! The pipeline is handed one fetch outcome per resource locator. Outcomes
//! that fetched well-shaped tabular text contribute their header-stripped
//! fragment; every other outcome contributes nothing and aborts nothing.
//! The merger parses the accumulated fragments into one table under the
//! fixed eight-column schema and is the single authority on what a valid
//! session record is.

use vstd::prelude::*;
use crate::record::{Record, RecordV, Table};
use crate::strings::{
    all_digits, check_digits_str, digits_value, parse_digits, pow10, spec_split, split_on,
    views_of,
};

verus! {

// ---------------------------------------------------------------------------
// The canonical header
// ---------------------------------------------------------------------------

/// The canonical schema header line.
pub open spec fn spec_header() -> Seq<char> {
    "Date,Energy (kcal),Activity,Distance(km),Duration(min),Pace(min),Heart rate: Average(min),Heart rate: Maximum(min)"@
}

/// The canonical schema header line, which a fragment must repeat exactly
/// once, as its first line, to be merged.
pub fn header_line() -> (r: &'static str)
    ensures
        r@ == spec_header(),
{
    "Date,Energy (kcal),Activity,Distance(km),Duration(min),Pace(min),Heart rate: Average(min),Heart rate: Maximum(min)"
}

// ---------------------------------------------------------------------------
// Fixed-point decimal fields
// ---------------------------------------------------------------------------

/// A numeric field: one to twelve integer digits, optionally followed by a
/// point and one to three fraction digits.
pub open spec fn valid_decimal(s: Seq<char>) -> bool {
    let parts = spec_split(s, '.');
    &&& (parts.len() == 1 || parts.len() == 2)
    &&& all_digits(parts[0])
    &&& 1 <= parts[0].len() <= 12
    &&& parts.len() == 2 ==> (all_digits(parts[1]) && 1 <= parts[1].len() <= 3)
}

/// Value of a numeric field in thousandths.
pub open spec fn decimal_value(s: Seq<char>) -> int {
    let parts = spec_split(s, '.');
    if parts.len() == 1 {
        digits_value(parts[0]) * 1000
    } else {
        digits_value(parts[0]) * 1000 + digits_value(parts[1]) * pow10((3 - parts[1].len()) as nat)
    }
}

/// Parses a numeric field to thousandths; `None` on any other shape.
pub fn parse_decimal(s: &str) -> (r: Option<i64>)
    ensures
        r is Some <==> valid_decimal(s@),
        r is Some ==> r->0 == decimal_value(s@),
        r is Some ==> 0 <= r->0 < 1000000000000000,
{
    let parts = split_on(s, '.');
    proof {
        assert(views_of(parts@) == spec_split(s@, '.'));
    }
    if parts.len() != 1 && parts.len() != 2 {
        return None;
    }
    let int_part = &parts[0];
    let int_len = int_part.as_str().unicode_len();
    proof {
        assert(int_part@ == spec_split(s@, '.')[0]);
    }
    if int_len < 1 || int_len > 12 {
        return None;
    }
    if !check_digits_str(int_part.as_str()) {
        return None;
    }
    let int_val = parse_digits(int_part.as_str(), 0, int_len);
    proof {
        crate::strings::lemma_pow10_increases(int_len as nat, 12);
        assert(pow10(12) == 1000000000000) by {
            reveal_with_fuel(pow10, 13);
        }
        assert(int_part@.subrange(0, int_len as int) =~= int_part@);
    }
    if parts.len() == 2 {
        let frac_part = &parts[1];
        let frac_len = frac_part.as_str().unicode_len();
        proof {
            assert(frac_part@ == spec_split(s@, '.')[1]);
        }
        if frac_len < 1 || frac_len > 3 {
            return None;
        }
        if !check_digits_str(frac_part.as_str()) {
            return None;
        }
        let frac_val = parse_digits(frac_part.as_str(), 0, frac_len);
        proof {
            assert(pow10(3) == 1000 && pow10(2) == 100 && pow10(1) == 10 && pow10(0) == 1) by {
                reveal_with_fuel(pow10, 4);
            }
            assert(frac_part@.subrange(0, frac_len as int) =~= frac_part@);
        }
        let scale: i64 = if frac_len == 1 { 100 } else if frac_len == 2 { 10 } else { 1 };
        Some((int_val as i64) * 1000 + (frac_val as i64) * scale)
    } else {
        Some((int_val as i64) * 1000)
    }
}

// ---------------------------------------------------------------------------
// Rows
// ---------------------------------------------------------------------------

/// The comma-separated fields of one line.
pub open spec fn row_fields(line: Seq<char>) -> Seq<Seq<char>> {
    spec_split(line, ',')
}

/// A line is a valid session record: exactly eight fields, the six
/// measurement fields numeric.
pub open spec fn valid_row(line: Seq<char>) -> bool {
    let f = row_fields(line);
    &&& f.len() == 8
    &&& valid_decimal(f[1])
    &&& valid_decimal(f[3])
    &&& valid_decimal(f[4])
    &&& valid_decimal(f[5])
    &&& valid_decimal(f[6])
    &&& valid_decimal(f[7])
}

/// The record a valid line denotes; derived fields still unset.
pub open spec fn row_record(line: Seq<char>) -> RecordV {
    let f = row_fields(line);
    RecordV {
        date_raw: f[0],
        energy: decimal_value(f[1]),
        activity_raw: f[2],
        activity_class: None,
        distance: decimal_value(f[3]),
        duration: decimal_value(f[4]),
        pace: decimal_value(f[5]),
        heart_avg: decimal_value(f[6]),
        heart_max: decimal_value(f[7]),
        timestamp: None,
    }
}

/// Parses one line as a session record.
pub fn parse_row(line: &str) -> (r: Option<Record>)
    ensures
        r is Some <==> valid_row(line@),
        r is Some ==> r->0@ == row_record(line@),
{
    let fields = split_on(line, ',');
    proof {
        assert(views_of(fields@) == row_fields(line@));
    }
    if fields.len() != 8 {
        return None;
    }
    proof {
        assert(forall|k: int| 0 <= k < 8 ==> #[trigger] fields@[k]@ == row_fields(line@)[k]);
    }
    let energy = match parse_decimal(fields[1].as_str()) {
        Some(v) => v,
        None => { return None; },
    };
    let distance = match parse_decimal(fields[3].as_str()) {
        Some(v) => v,
        None => { return None; },
    };
    let duration = match parse_decimal(fields[4].as_str()) {
        Some(v) => v,
        None => { return None; },
    };
    let pace = match parse_decimal(fields[5].as_str()) {
        Some(v) => v,
        None => { return None; },
    };
    let heart_avg = match parse_decimal(fields[6].as_str()) {
        Some(v) => v,
        None => { return None; },
    };
    let heart_max = match parse_decimal(fields[7].as_str()) {
        Some(v) => v,
        None => { return None; },
    };
    Some(Record {
        date_raw: fields[0].clone(),
        energy,
        activity_raw: fields[2].clone(),
        activity_class: None,
        distance,
        duration,
        pace,
        heart_avg,
        heart_max,
        timestamp: None,
    })
}

// ---------------------------------------------------------------------------
// Fragments
// ---------------------------------------------------------------------------

/// The lines of a text.
pub open spec fn lines_of(s: Seq<char>) -> Seq<Seq<char>> {
    spec_split(s, '\n')
}

/// The fast-fail schema check of the pipeline: the first line repeats the
/// canonical header, and every later nonempty line has exactly eight fields.
pub open spec fn fragment_shape_ok(s: Seq<char>) -> bool {
    let ls = lines_of(s);
    &&& ls[0] == spec_header()
    &&& forall|i: int| 1 <= i < ls.len()
        ==> (#[trigger] ls[i]).len() == 0 || row_fields(ls[i]).len() == 8
}

/// A well-shaped fetched text with its header line removed.
pub open spec fn fragment_strip(s: Seq<char>) -> Seq<char> {
    if s.len() <= spec_header().len() {
        Seq::empty()
    } else {
        s.skip(spec_header().len() as int + 1)
    }
}

/// One fetch task's outcome: the raw text it fetched, or a recorded failure
/// (a transport error, or text that failed the schema check downstream).
pub enum FetchOutcome {
    Fetched(String),
    Failed,
}

/// Mathematical content of a fetch outcome.
pub ghost enum OutcomeV {
    Fetched(Seq<char>),
    Failed,
}

impl View for FetchOutcome {
    type V = OutcomeV;

    open spec fn view(&self) -> OutcomeV {
        match self {
            FetchOutcome::Fetched(s) => OutcomeV::Fetched(s@),
            FetchOutcome::Failed => OutcomeV::Failed,
        }
    }
}

/// An outcome contributes a fragment: it fetched text that passes the
/// schema check.
pub open spec fn outcome_good(o: OutcomeV) -> bool {
    o matches OutcomeV::Fetched(s) && fragment_shape_ok(s)
}

/// The fragments the accumulator holds after all outcomes settle, in
/// arrival order: one header-stripped fragment per good outcome.
pub open spec fn spec_collect(rs: Seq<OutcomeV>) -> Seq<Seq<char>>
    decreases rs.len(),
{
    if rs.len() == 0 {
        Seq::empty()
    } else {
        spec_collect(rs.drop_last()) + if outcome_good(rs.last()) {
            seq![fragment_strip(rs.last()->Fetched_0)]
        } else {
            Seq::empty()
        }
    }
}

/// Number of good outcomes.
pub open spec fn count_good(rs: Seq<OutcomeV>) -> int
    decreases rs.len(),
{
    if rs.len() == 0 {
        0
    } else {
        count_good(rs.drop_last()) + if outcome_good(rs.last()) { 1int } else { 0int }
    }
}

/// Checks a fetched text against the schema: header first, eight fields in
/// every later nonempty line.
fn fragment_check(text: &str) -> (r: bool)
    ensures
        r == fragment_shape_ok(text@),
{
    let lines = split_on(text, '\n');
    proof {
        crate::strings::lemma_split_nonempty(text@, '\n');
        assert(views_of(lines@) == lines_of(text@));
    }
    let header = String::from_str(header_line());
    if !(lines[0].eq(&header)) {
        return false;
    }
    let n = lines.len();
    let mut i: usize = 1;
    while i < n
        invariant
            1 <= i <= n == lines@.len(),
            views_of(lines@) == lines_of(text@),
            forall|k: int| 1 <= k < i
                ==> (#[trigger] lines_of(text@)[k]).len() == 0
                    || row_fields(lines_of(text@)[k]).len() == 8,
        decreases n - i,
    {
        proof {
            assert(lines@[i as int]@ == lines_of(text@)[i as int]);
        }
        if !lines[i].as_str().is_empty() {
            let fields = split_on(lines[i].as_str(), ',');
            proof {
                assert(views_of(fields@) == row_fields(lines_of(text@)[i as int]));
            }
            if fields.len() != 8 {
                return false;
            }
        }
        i = i + 1;
    }
    true
}

/// Accumulates the fragments of the outcomes that fetched well-shaped text,
/// in arrival order. A failed or ill-shaped outcome contributes nothing and
/// never aborts the others; all-failed input yields an empty accumulator.
pub fn collect_fragments(results: &Vec<FetchOutcome>) -> (out: Vec<String>)
    ensures
        views_of(out@) == spec_collect(results@.map_values(|o: FetchOutcome| o@)),
        out@.len() == count_good(results@.map_values(|o: FetchOutcome| o@)),
{
    let ghost rs = results@.map_values(|o: FetchOutcome| o@);
    let mut out: Vec<String> = Vec::new();
    proof {
        assert(views_of(out@) =~= spec_collect(rs.take(0)));
        assert(rs.take(0) =~= Seq::<OutcomeV>::empty());
    }
    let n = results.len();
    let mut i: usize = 0;
    while i < n
        invariant
            i <= n == results@.len(),
            rs == results@.map_values(|o: FetchOutcome| o@),
            views_of(out@) == spec_collect(rs.take(i as int)),
            out@.len() == count_good(rs.take(i as int)),
        decreases n - i,
    {
        proof {
            assert(rs.take(i + 1).drop_last() =~= rs.take(i as int));
            assert(rs.take(i + 1).last() == rs[i as int]);
        }
        match &results[i] {
            FetchOutcome::Fetched(text) => {
                if fragment_check(text.as_str()) {
                    let hlen = header_line().unicode_len();
                    let tlen = text.as_str().unicode_len();
                    let stripped = if tlen <= hlen {
                        String::new()
                    } else {
                        String::from_str(text.as_str().substring_char(hlen + 1, tlen))
                    };
                    proof {
                        assert(stripped@ =~= fragment_strip(text@));
                        assert(views_of(out@.push(stripped))
                            =~= views_of(out@) + seq![fragment_strip(text@)]);
                    }
                    out.push(stripped);
                } else {
                    proof {
                        assert(views_of(out@) =~= spec_collect(rs.take(i + 1)));
                    }
                }
            },
            FetchOutcome::Failed => {
                proof {
                    assert(views_of(out@) =~= spec_collect(rs.take(i + 1)));
                }
            },
        }
        i = i + 1;
    }
    proof {
        assert(rs.take(n as int) =~= rs);
    }
    out
}

// ---------------------------------------------------------------------------
// The merger
// ---------------------------------------------------------------------------

/// Raised by the merger when the accumulated text cannot be parsed as a
/// well-formed table under the fixed schema.
#[derive(Clone, Copy, PartialEq, Eq, Structural, Debug)]
pub struct MalformedInputError;

/// The records a sequence of lines denotes; blank lines denote nothing.
pub open spec fn rows_of_lines(ls: Seq<Seq<char>>) -> Seq<RecordV>
    decreases ls.len(),
{
    if ls.len() == 0 {
        Seq::empty()
    } else {
        rows_of_lines(ls.drop_last()) + if ls.last().len() == 0 {
            Seq::empty()
        } else {
            seq![row_record(ls.last())]
        }
    }
}

/// Every nonempty line is a valid record.
pub open spec fn lines_all_valid(ls: Seq<Seq<char>>) -> bool {
    forall|i: int| 0 <= i < ls.len()
        ==> (#[trigger] ls[i]).len() == 0 || valid_row(ls[i])
}

/// All lines of a sequence of fragments, in order.
pub open spec fn all_lines(fs: Seq<Seq<char>>) -> Seq<Seq<char>>
    decreases fs.len(),
{
    if fs.len() == 0 {
        Seq::empty()
    } else {
        all_lines(fs.drop_last()) + lines_of(fs.last())
    }
}

/// Every fragment parses row by row.
pub open spec fn fragments_valid(fs: Seq<Seq<char>>) -> bool {
    forall|i: int| 0 <= i < fs.len() ==> lines_all_valid(lines_of(#[trigger] fs[i]))
}

/// The table a sequence of fragments denotes.
pub open spec fn table_of_fragments(fs: Seq<Seq<char>>) -> Seq<RecordV> {
    rows_of_lines(all_lines(fs))
}

/// Rows contributed by each fragment separately, summed.
pub open spec fn sum_rows(fs: Seq<Seq<char>>) -> int
    decreases fs.len(),
{
    if fs.len() == 0 {
        0
    } else {
        sum_rows(fs.drop_last()) + rows_of_lines(lines_of(fs.last())).len()
    }
}

pub proof fn lemma_rows_of_lines_concat(a: Seq<Seq<char>>, b: Seq<Seq<char>>)
    ensures
        rows_of_lines(a + b) == rows_of_lines(a) + rows_of_lines(b),
    decreases b.len(),
{
    if b.len() == 0 {
        assert(a + b =~= a);
        assert(rows_of_lines(a) + rows_of_lines(b) =~= rows_of_lines(a));
    } else {
        lemma_rows_of_lines_concat(a, b.drop_last());
        assert((a + b).drop_last() =~= a + b.drop_last());
        assert((a + b).last() == b.last());
        assert(rows_of_lines(a + b) =~= rows_of_lines(a) + rows_of_lines(b));
    }
}

/// No row loss and no duplication: the merged table is exactly as long as
/// the per-fragment contributions, summed.
pub proof fn lemma_merge_row_conservation(fs: Seq<Seq<char>>)
    ensures
        table_of_fragments(fs).len() == sum_rows(fs),
    decreases fs.len(),
{
    if fs.len() > 0 {
        lemma_merge_row_conservation(fs.drop_last());
        lemma_rows_of_lines_concat(all_lines(fs.drop_last()), lines_of(fs.last()));
    }
}

/// The ingestion law: from `n` outcomes of which `n - k` are good, the
/// merger receives exactly `n - k` fragments, and the merged table holds
/// exactly the rows those fragments contribute, each once, whatever became
/// of the `k` failures.
pub proof fn lemma_ingestion_conservation(rs: Seq<OutcomeV>)
    ensures
        spec_collect(rs).len() == count_good(rs),
        table_of_fragments(spec_collect(rs)).len() == sum_rows(spec_collect(rs)),
    decreases rs.len(),
{
    if rs.len() > 0 {
        lemma_ingestion_conservation(rs.drop_last());
    }
    lemma_merge_row_conservation(spec_collect(rs));
}

/// Merges the accumulated fragments into one table under the fixed schema.
/// Fails, with nothing partial, exactly when some nonempty line of some
/// fragment is not a valid record.
pub fn merge_fragments(fragments: &Vec<String>) -> (r: Result<Table, MalformedInputError>)
    ensures
        r is Ok <==> fragments_valid(views_of(fragments@)),
        r is Ok ==> r->Ok_0@ == table_of_fragments(views_of(fragments@)),
{
    let ghost fs = views_of(fragments@);
    let mut rows: Vec<Record> = Vec::new();
    proof {
        assert(fs.take(0) =~= Seq::<Seq<char>>::empty());
        assert(rows@.map_values(|x: Record| x@) =~= table_of_fragments(fs.take(0)));
    }
    let n = fragments.len();
    let mut fi: usize = 0;
    while fi < n
        invariant
            fi <= n == fragments@.len(),
            fs == views_of(fragments@),
            rows@.map_values(|x: Record| x@) == table_of_fragments(fs.take(fi as int)),
            forall|k: int| 0 <= k < fi ==> lines_all_valid(lines_of(#[trigger] fs[k])),
        decreases n - fi,
    {
        let lines = split_on(fragments[fi].as_str(), '\n');
        proof {
            assert(fragments@[fi as int]@ == fs[fi as int]);
            assert(views_of(lines@) == lines_of(fs[fi as int]));
        }
        let ghost ls = lines_of(fs[fi as int]);
        let m = lines.len();
        let mut li: usize = 0;
        while li < m
            invariant
                li <= m == lines@.len(),
                fi < n == fragments@.len(),
                fs == views_of(fragments@),
                ls == lines_of(fs[fi as int]),
                views_of(lines@) == ls,
                rows@.map_values(|x: Record| x@)
                    == table_of_fragments(fs.take(fi as int)) + rows_of_lines(ls.take(li as int)),
                forall|k: int| 0 <= k < li
                    ==> (#[trigger] ls[k]).len() == 0 || valid_row(ls[k]),
            decreases m - li,
        {
            proof {
                assert(lines@[li as int]@ == ls[li as int]);
                assert(ls.take(li + 1).drop_last() =~= ls.take(li as int));
                assert(ls.take(li + 1).last() == ls[li as int]);
            }
            if !lines[li].as_str().is_empty() {
                match parse_row(lines[li].as_str()) {
                    Some(rec) => {
                        proof {
                            assert(rows@.push(rec).map_values(|x: Record| x@)
                                =~= rows@.map_values(|x: Record| x@) + seq![row_record(ls[li as int])]);
                            assert(rows_of_lines(ls.take(li + 1))
                                =~= rows_of_lines(ls.take(li as int)) + seq![row_record(ls[li as int])]);
                        }
                        rows.push(rec);
                    },
                    None => {
                        proof {
                            assert(ls[li as int].len() > 0);
                            assert(!valid_row(ls[li as int]));
                            assert(!lines_all_valid(lines_of(fs[fi as int])));
                            assert(!fragments_valid(fs));
                        }
                        return Err(MalformedInputError);
                    },
                }
            } else {
                proof {
                    assert(rows_of_lines(ls.take(li + 1)) =~= rows_of_lines(ls.take(li as int)));
                }
            }
            li = li + 1;
        }
        proof {
            assert(ls.take(m as int) =~= ls);
            assert(fs.take(fi + 1).drop_last() =~= fs.take(fi as int));
            assert(fs.take(fi + 1).last() == fs[fi as int]);
            lemma_rows_of_lines_concat(all_lines(fs.take(fi as int)), ls);
            assert(all_lines(fs.take(fi + 1)) =~= all_lines(fs.take(fi as int)) + ls);
        }
        fi = fi + 1;
    }
    proof {
        assert(fs.take(n as int) =~= fs);
    }
    Ok(Table { rows })
}

} // verus!
