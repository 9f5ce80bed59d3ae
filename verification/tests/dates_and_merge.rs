use runlog::dates::{date_to_timestamp, instant_seconds_exec, is_leap_year, days_in_month};
use runlog::merge::{
    collect_fragments, header_line, merge_fragments, parse_decimal, parse_row, FetchOutcome,
};
use runlog::record::{categorize, derive_columns, Category};

fn good_row(date: &str, activity: &str, distance: &str) -> String {
    format!("{date},432.0,{activity},{distance},30.0,5.3,150.0,165.0")
}

#[test]
fn be_date_normalizes_to_known_instant() {
    // 2567 BE is 2024 CE; 2024-03-02T17:55:38Z is 1709402138.
    assert_eq!(
        date_to_timestamp("2567-03-02 17:55:38 - 18:25:47"),
        Some(1709402138)
    );
    assert_eq!(date_to_timestamp("2567-03-02 17:55:38"), Some(1709402138));
}

#[test]
fn be_epoch_year_normalizes_to_zero() {
    // 2513 BE is 1970 CE.
    assert_eq!(date_to_timestamp("2513-01-01 00:00:00"), Some(0));
}

#[test]
fn short_date_yields_none() {
    assert_eq!(date_to_timestamp(""), None);
    assert_eq!(date_to_timestamp("2567-03-02"), None);
    assert_eq!(date_to_timestamp("2567-03-02 17:55:3"), None);
}

#[test]
fn non_numeric_year_yields_none() {
    assert_eq!(date_to_timestamp("25a7-03-02 17:55:38"), None);
    assert_eq!(date_to_timestamp("abcd-03-02 17:55:38"), None);
}

#[test]
fn impossible_calendar_date_yields_none() {
    // 2567 BE = 2024 CE is a leap year, so February ends on the 29th.
    assert_eq!(date_to_timestamp("2567-02-29 10:00:00"), Some(1709200800));
    assert_eq!(date_to_timestamp("2567-02-30 10:00:00"), None);
    // 2566 BE = 2023 CE is no leap year.
    assert_eq!(date_to_timestamp("2566-02-29 10:00:00"), None);
    assert_eq!(date_to_timestamp("2567-13-01 10:00:00"), None);
    assert_eq!(date_to_timestamp("2567-00-01 10:00:00"), None);
    assert_eq!(date_to_timestamp("2567-04-31 10:00:00"), None);
    assert_eq!(date_to_timestamp("2567-01-01 24:00:00"), None);
    assert_eq!(date_to_timestamp("2567-01-01 10:60:00"), None);
}

#[test]
fn malformed_layout_yields_none() {
    assert_eq!(date_to_timestamp("2567/03/02 17:55:38"), None);
    assert_eq!(date_to_timestamp("2567-03-02T17:55:38"), None);
}

#[test]
fn leap_year_rules() {
    assert!(is_leap_year(2024));
    assert!(!is_leap_year(2023));
    assert!(!is_leap_year(1900));
    assert!(is_leap_year(2000));
    assert_eq!(days_in_month(2024, 2), 29);
    assert_eq!(days_in_month(2023, 2), 28);
    assert_eq!(days_in_month(2024, 4), 30);
    assert_eq!(days_in_month(2024, 12), 31);
}

#[test]
fn instants_before_the_epoch_are_negative() {
    assert_eq!(instant_seconds_exec(1969, 12, 31, 23, 59, 59), -1);
    assert_eq!(instant_seconds_exec(1969, 12, 31, 0, 0, 0), -86400);
}

#[test]
fn categorizer_matches_substring_case_sensitively() {
    assert_eq!(categorize("Running indoor"), Category::Indoor);
    assert_eq!(categorize("indoor cycling"), Category::Indoor);
    assert_eq!(categorize("Indoor cycling"), Category::Outdoor);
    assert_eq!(categorize("Outdoor run"), Category::Outdoor);
    assert_eq!(categorize(""), Category::Outdoor);
}

#[test]
fn decimal_fields_parse_to_thousandths() {
    assert_eq!(parse_decimal("5.1"), Some(5100));
    assert_eq!(parse_decimal("432.0"), Some(432000));
    assert_eq!(parse_decimal("0.125"), Some(125));
    assert_eq!(parse_decimal("7"), Some(7000));
    assert_eq!(parse_decimal(""), None);
    assert_eq!(parse_decimal("5."), None);
    assert_eq!(parse_decimal(".5"), None);
    assert_eq!(parse_decimal("5.1234"), None);
    assert_eq!(parse_decimal("-1.0"), None);
    assert_eq!(parse_decimal("1.2.3"), None);
}

#[test]
fn row_parses_into_fixed_point_record() {
    let line = good_row("2567-03-02 17:55:38 - 18:25:47", "Running", "5.1");
    let rec = parse_row(&line).expect("row should parse");
    assert_eq!(rec.date_raw, "2567-03-02 17:55:38 - 18:25:47");
    assert_eq!(rec.energy, 432000);
    assert_eq!(rec.activity_raw, "Running");
    assert_eq!(rec.distance, 5100);
    assert_eq!(rec.duration, 30000);
    assert_eq!(rec.pace, 5300);
    assert_eq!(rec.heart_avg, 150000);
    assert_eq!(rec.heart_max, 165000);
    assert!(rec.activity_class.is_none());
    assert!(rec.timestamp.is_none());
}

#[test]
fn row_with_wrong_field_count_is_rejected() {
    assert!(parse_row("a,b,c").is_none());
    let line = good_row("2567-03-02 17:55:38", "Running", "bad");
    assert!(parse_row(&line).is_none());
}

#[test]
fn pipeline_collects_only_well_shaped_fetches() {
    // Four locators: two good, one transport failure, one ill-shaped text.
    let good1 = format!(
        "{}\n{}\n{}",
        header_line(),
        good_row("2567-03-02 17:55:38 - 18:25:47", "Running", "5.1"),
        good_row("2567-03-03 07:00:00 - 07:30:00", "Running indoor", "3.0"),
    );
    let good2 = format!(
        "{}\n{}\n",
        header_line(),
        good_row("2567-03-04 07:00:00 - 07:30:00", "Walking", "2.0"),
    );
    let results = vec![
        FetchOutcome::Fetched(good1),
        FetchOutcome::Failed,
        FetchOutcome::Fetched(String::from("this is not a table")),
        FetchOutcome::Fetched(good2),
    ];
    let fragments = collect_fragments(&results);
    // N = 4 locators, K = 2 failures: exactly N - K = 2 fragments arrive.
    assert_eq!(fragments.len(), 2);

    let table = merge_fragments(&fragments).expect("merge should succeed");
    // 2 rows from the first fragment, 1 from the second: no loss, no dupes.
    assert_eq!(table.rows.len(), 3);
    assert_eq!(table.rows[0].activity_raw, "Running");
    assert_eq!(table.rows[1].activity_raw, "Running indoor");
    assert_eq!(table.rows[2].activity_raw, "Walking");
}

#[test]
fn all_failed_fetches_yield_an_empty_accumulator() {
    let results = vec![FetchOutcome::Failed, FetchOutcome::Failed];
    let fragments = collect_fragments(&results);
    assert_eq!(fragments.len(), 0);
    let table = merge_fragments(&fragments).expect("empty merge is a valid empty table");
    assert_eq!(table.rows.len(), 0);
}

#[test]
fn merger_rejects_malformed_rows() {
    let fragments = vec![String::from("only,three,fields")];
    assert!(merge_fragments(&fragments).is_err());
    let bad_number = vec![good_row("2567-03-02 17:55:38", "Running", "five")];
    assert!(merge_fragments(&bad_number).is_err());
}

#[test]
fn merger_skips_blank_lines() {
    let fragments = vec![format!(
        "{}\n\n{}\n",
        good_row("2567-03-02 17:55:38 - 18:25:47", "Running", "5.1"),
        good_row("2567-03-03 07:00:00 - 07:30:00", "Walking", "2.0"),
    )];
    let table = merge_fragments(&fragments).expect("blank lines are ignored");
    assert_eq!(table.rows.len(), 2);
}

#[test]
fn derivation_fills_class_and_timestamp() {
    let fragments = vec![format!(
        "{}\n{}",
        good_row("2567-03-02 17:55:38 - 18:25:47", "Running indoor", "5.1"),
        good_row("not a date", "Running", "3.0"),
    )];
    let table = merge_fragments(&fragments).expect("merge should succeed");
    let derived = derive_columns(&table);
    assert_eq!(derived.rows[0].activity_class, Some(Category::Indoor));
    assert_eq!(derived.rows[0].timestamp, Some(1709402138));
    assert_eq!(derived.rows[1].activity_class, Some(Category::Outdoor));
    assert_eq!(derived.rows[1].timestamp, None);
}
