use runlog::bins::{bin_numeric, filter_by_year_prefix};
use runlog::group::{group_sum, GroupKey};
use runlog::months::{convert_date_month, fill_missing_months, filter_by_calendar_month, number_to_month};
use runlog::query::{
    filter_by_category, filter_by_range, filter_with_timestamp, sort_by, sum_column, Column,
};
use runlog::record::{Bucket, BucketTable, Category, Record, Table};

fn rec(date: &str, activity: &str, distance: i64, ts: Option<i64>) -> Record {
    Record {
        date_raw: date.to_string(),
        energy: 1000,
        activity_raw: activity.to_string(),
        activity_class: Some(if activity.contains("indoor") {
            Category::Indoor
        } else {
            Category::Outdoor
        }),
        distance,
        duration: 30000,
        pace: 5300,
        heart_avg: 150000,
        heart_max: 165000,
        timestamp: ts,
    }
}

fn same_rows(a: &Table, b: &Table) -> bool {
    a.rows.len() == b.rows.len()
        && a.rows.iter().zip(b.rows.iter()).all(|(x, y)| {
            x.date_raw == y.date_raw && x.distance == y.distance && x.timestamp == y.timestamp
        })
}

fn sample_table() -> Table {
    Table {
        rows: vec![
            rec("2567-03-02 17:55:38 - 18:25:47", "Running", 5100, Some(1709402138)),
            rec("2567-03-05 07:00:00 - 07:30:00", "Running indoor", 1050, Some(1709622000)),
            rec("2567-04-01 08:00:00 - 08:30:00", "Walking", 400, Some(1711958400)),
            rec("bad date", "Running", 10000, None),
            rec("2567-03-09 09:00:00 - 09:40:00", "Running", 5200, Some(1709967600)),
        ],
    }
}

#[test]
fn range_filter_uses_strict_open_interval() {
    let t = sample_table();
    let out = filter_by_range(&t, Column::Distance, 400, 5200);
    // 400 and 5200 sit on the bounds and are excluded; 5100 and 1050 pass.
    assert_eq!(out.rows.len(), 2);
    assert!(out.rows.iter().all(|r| 400 < r.distance && r.distance < 5200));
}

#[test]
fn range_filter_is_idempotent() {
    let t = sample_table();
    let once = filter_by_range(&t, Column::Distance, 400, 5200);
    let twice = filter_by_range(&once, Column::Distance, 400, 5200);
    assert!(same_rows(&once, &twice));
}

#[test]
fn category_filter_partitions_rows() {
    let t = sample_table();
    let indoor = filter_by_category(&t, Category::Indoor);
    let outdoor = filter_by_category(&t, Category::Outdoor);
    assert_eq!(indoor.rows.len(), 1);
    assert_eq!(outdoor.rows.len(), 4);
    assert_eq!(indoor.rows[0].activity_raw, "Running indoor");
}

#[test]
fn sum_column_totals_and_empty_is_zero() {
    let t = sample_table();
    assert_eq!(sum_column(&t, Column::Distance), 21750);
    let empty = Table { rows: vec![] };
    assert_eq!(sum_column(&empty, Column::Distance), 0);
    // A null timestamp contributes nothing to a timestamp sum.
    assert_eq!(
        sum_column(&t, Column::Timestamp),
        1709402138i128 + 1709622000 + 1711958400 + 1709967600
    );
}

#[test]
fn group_sum_totals_equal_column_sum() {
    let t = sample_table();
    let groups = group_sum(&t, GroupKey::Activity, Column::Distance);
    let total: i128 = groups.rows.iter().map(|b| b.value).sum();
    assert_eq!(total, sum_column(&t, Column::Distance));
    // Keys in first-seen order; every non-indoor activity grouped as outdoor.
    assert_eq!(groups.rows.len(), 2);
    assert_eq!(groups.rows[0].key, "outdoor");
    assert_eq!(groups.rows[0].value, 20700);
    assert_eq!(groups.rows[1].key, "indoor");
    assert_eq!(groups.rows[1].value, 1050);
}

#[test]
fn month_grouping_uses_date_prefix() {
    let mut t = sample_table();
    // Group only rows with a real date prefix.
    t.rows.remove(3);
    let groups = group_sum(&t, GroupKey::Month, Column::Distance);
    assert_eq!(groups.rows.len(), 2);
    assert_eq!(groups.rows[0].key, "2567-03");
    assert_eq!(groups.rows[0].value, 5100 + 1050 + 5200);
    assert_eq!(groups.rows[1].key, "2567-04");
    assert_eq!(groups.rows[1].value, 400);
}

#[test]
fn fill_missing_months_always_yields_twelve() {
    let input = BucketTable {
        rows: vec![
            Bucket { key: "2567-03".to_string(), value: 11350 },
            Bucket { key: "2567-04".to_string(), value: 400 },
        ],
    };
    let full = fill_missing_months(&input, "2567");
    assert_eq!(full.rows.len(), 12);
    for (i, b) in full.rows.iter().enumerate() {
        assert_eq!(b.key, format!("2567-{:02}", i + 1));
    }
    assert_eq!(full.rows[2].value, 11350);
    assert_eq!(full.rows[3].value, 400);
    let zeros: usize = full.rows.iter().filter(|b| b.value == 0).count();
    assert_eq!(zeros, 10);
}

#[test]
fn fill_missing_months_of_nothing_is_all_zero() {
    let empty = BucketTable { rows: vec![] };
    let full = fill_missing_months(&empty, "2567");
    assert_eq!(full.rows.len(), 12);
    assert!(full.rows.iter().all(|b| b.value == 0));
    assert_eq!(full.rows[0].key, "2567-01");
    assert_eq!(full.rows[11].key, "2567-12");
}

#[test]
fn year_prefix_filter_is_a_string_match() {
    let input = BucketTable {
        rows: vec![
            Bucket { key: "2567-03".to_string(), value: 1 },
            Bucket { key: "2568-01".to_string(), value: 2 },
            Bucket { key: "2567-11".to_string(), value: 3 },
        ],
    };
    let only = filter_by_year_prefix(&input, "2567");
    assert_eq!(only.rows.len(), 2);
    assert_eq!(only.rows[0].key, "2567-03");
    assert_eq!(only.rows[1].key, "2567-11");
}

#[test]
fn calendar_month_filter_is_half_open_and_rolls_over_december() {
    let t = Table {
        rows: vec![
            rec("a", "x", 1, Some(1733011200)), // 2024-12-01T00:00:00Z, first instant in
            rec("b", "x", 2, Some(1735689599)), // 2024-12-31T23:59:59Z, last instant in
            rec("c", "x", 3, Some(1735689600)), // 2025-01-01T00:00:00Z, out (next month)
            rec("d", "x", 4, Some(1733011199)), // 2024-11-30T23:59:59Z, out (month before)
            rec("e", "x", 5, None),             // null timestamp, out
        ],
    };
    let dec = filter_by_calendar_month(&t, 2024, 12);
    assert_eq!(dec.rows.len(), 2);
    assert_eq!(dec.rows[0].distance, 1);
    assert_eq!(dec.rows[1].distance, 2);
    let jan = filter_by_calendar_month(&t, 2025, 1);
    assert_eq!(jan.rows.len(), 1);
    assert_eq!(jan.rows[0].distance, 3);
}

#[test]
fn sort_after_null_exclusion_is_non_decreasing_and_stable() {
    let t = sample_table();
    let non_null = filter_with_timestamp(&t);
    assert_eq!(non_null.rows.len(), 4);
    let sorted = sort_by(&non_null, Column::Timestamp, false);
    assert_eq!(sorted.rows.len(), 4);
    let ts: Vec<i64> = sorted.rows.iter().map(|r| r.timestamp.unwrap()).collect();
    for w in ts.windows(2) {
        assert!(w[0] <= w[1]);
    }
    let descending = sort_by(&non_null, Column::Timestamp, true);
    let ts: Vec<i64> = descending.rows.iter().map(|r| r.timestamp.unwrap()).collect();
    for w in ts.windows(2) {
        assert!(w[0] >= w[1]);
    }
}

#[test]
fn sort_keeps_equal_keys_in_input_order() {
    let t = Table {
        rows: vec![
            rec("first", "x", 7, Some(5)),
            rec("second", "x", 7, Some(1)),
            rec("third", "x", 7, Some(5)),
            rec("fourth", "x", 7, Some(1)),
        ],
    };
    let sorted = sort_by(&t, Column::Timestamp, false);
    let order: Vec<&str> = sorted.rows.iter().map(|r| r.date_raw.as_str()).collect();
    assert_eq!(order, vec!["second", "fourth", "first", "third"]);
}

#[test]
fn bin_boundary_falls_into_the_lower_bucket() {
    let values: Vec<i64> = vec![10, 25, 45, 50, 51, 75, 90, 120, 150, 175, 200];
    let t = Table {
        rows: values.iter().map(|&v| rec("d", "x", v, None)).collect(),
    };
    let bounds: Vec<i64> = vec![50, 100, 150];
    let binned = bin_numeric(&t, Column::Distance, &bounds);
    // Labels come out sorted lexicographically.
    let keys: Vec<&str> = binned.rows.iter().map(|b| b.key.as_str()).collect();
    assert_eq!(keys, vec!["0-50", "101-150", "151+", "51-100"]);
    let counts: Vec<i128> = binned.rows.iter().map(|b| b.value).collect();
    // 10, 25, 45, 50 | 120, 150 | 175, 200 | 51, 75, 90
    assert_eq!(counts, vec![4, 2, 2, 3]);
}

#[test]
fn bin_labels_carry_multi_digit_numbers() {
    let values: Vec<i64> = vec![0, 9, 10, 99, 100, 5000];
    let t = Table {
        rows: values.iter().map(|&v| rec("d", "x", v, None)).collect(),
    };
    let bounds: Vec<i64> = vec![9, 99];
    let binned = bin_numeric(&t, Column::Distance, &bounds);
    let keys: Vec<&str> = binned.rows.iter().map(|b| b.key.as_str()).collect();
    assert_eq!(keys, vec!["0-9", "10-99", "100+"]);
    let counts: Vec<i128> = binned.rows.iter().map(|b| b.value).collect();
    assert_eq!(counts, vec![2, 2, 2]);
}

#[test]
fn unclassified_rows_group_under_their_raw_label() {
    let mut r = rec("2567-03-02 17:55:38", "Yoga", 700, None);
    r.activity_class = None;
    let t = Table {
        rows: vec![r, rec("2567-03-03 08:00:00", "Running", 5000, None)],
    };
    let groups = group_sum(&t, GroupKey::Activity, Column::Distance);
    assert_eq!(groups.rows.len(), 2);
    assert_eq!(groups.rows[0].key, "Yoga");
    assert_eq!(groups.rows[0].value, 700);
    assert_eq!(groups.rows[1].key, "outdoor");
}

#[test]
fn null_timestamps_sort_before_all_others() {
    let t = Table {
        rows: vec![
            rec("a", "x", 1, Some(10)),
            rec("b", "x", 2, None),
            rec("c", "x", 3, Some(-5)),
        ],
    };
    let sorted = sort_by(&t, Column::Timestamp, false);
    assert_eq!(sorted.rows[0].timestamp, None);
    assert_eq!(sorted.rows[1].timestamp, Some(-5));
    assert_eq!(sorted.rows[2].timestamp, Some(10));
}

#[test]
fn range_filter_on_timestamp_excludes_nulls() {
    let t = Table {
        rows: vec![
            rec("a", "x", 1, Some(10)),
            rec("b", "x", 2, None),
            rec("c", "x", 3, Some(50)),
        ],
    };
    let out = filter_by_range(&t, Column::Timestamp, 0, 100);
    assert_eq!(out.rows.len(), 2);
}

#[test]
fn month_names() {
    assert_eq!(number_to_month(1), Some("January".to_string()));
    assert_eq!(number_to_month(12), Some("December".to_string()));
    assert_eq!(number_to_month(0), None);
    assert_eq!(number_to_month(13), None);
    let input = BucketTable {
        rows: vec![
            Bucket { key: "2567-03".to_string(), value: 7 },
            Bucket { key: "2567-12".to_string(), value: 8 },
            Bucket { key: "junk".to_string(), value: 9 },
        ],
    };
    let named = convert_date_month(&input);
    assert_eq!(named.rows[0].key, "March");
    assert_eq!(named.rows[1].key, "December");
    assert_eq!(named.rows[2].key, "junk");
}
