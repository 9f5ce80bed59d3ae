//! Grouped sums: one output bucket per distinct key, keys in first-seen
//! order, each bucket holding the sum of a value column over its rows.

use vstd::prelude::*;
use vstd::pervasive::VecAdditionalExecFns;
use crate::record::{Bucket, BucketV, BucketTable, Category, Record, RecordV, Table};
use crate::query::{
    Column, lemma_filter_take_step, lemma_table_in_range, lemma_sum_of_bound, record_value,
    records_in_range, sum_of, value_or_zero,
};

verus! {

// ---------------------------------------------------------------------------
// Group keys
// ---------------------------------------------------------------------------

/// A key column for grouping.
#[derive(Clone, Copy, PartialEq, Eq, Structural, Debug)]
pub enum GroupKey {
    /// The classified activity label; an unclassified row groups under its
    /// raw label.
    Activity,
    /// The year-month prefix (the first seven characters) of the raw date.
    Month,
}

/// The key string a row contributes to.
pub open spec fn group_key(r: RecordV, k: GroupKey) -> Seq<char> {
    match k {
        GroupKey::Activity => match r.activity_class {
            Some(Category::Indoor) => "indoor"@,
            Some(Category::Outdoor) => "outdoor"@,
            None => r.activity_raw,
        },
        GroupKey::Month => if r.date_raw.len() >= 7 {
            r.date_raw.take(7)
        } else {
            r.date_raw
        },
    }
}

/// Reads the group key of one row.
pub fn record_group_key(r: &Record, k: GroupKey) -> (out: String)
    ensures
        out@ == group_key(r@, k),
{
    match k {
        GroupKey::Activity => match &r.activity_class {
            Some(Category::Indoor) => String::from_str("indoor"),
            Some(Category::Outdoor) => String::from_str("outdoor"),
            None => r.activity_raw.clone(),
        },
        GroupKey::Month => {
            let n = r.date_raw.as_str().unicode_len();
            if n >= 7 {
                let out = String::from_str(r.date_raw.as_str().substring_char(0, 7));
                proof {
                    assert(r.date_raw@.subrange(0, 7) =~= r.date_raw@.take(7));
                }
                out
            } else {
                r.date_raw.clone()
            }
        },
    }
}

// ---------------------------------------------------------------------------
// The grouping model
// ---------------------------------------------------------------------------

/// The distinct group keys of a row sequence, each at its first appearance.
pub open spec fn seen_keys(s: Seq<RecordV>, k: GroupKey) -> Seq<Seq<char>>
    decreases s.len(),
{
    if s.len() == 0 {
        Seq::empty()
    } else {
        let pre = seen_keys(s.drop_last(), k);
        if pre.contains(group_key(s.last(), k)) {
            pre
        } else {
            pre.push(group_key(s.last(), k))
        }
    }
}

/// The rows grouped under `key`.
pub open spec fn key_rows_pred(kc: GroupKey, key: Seq<char>) -> spec_fn(RecordV) -> bool {
    |r: RecordV| group_key(r, kc) == key
}

/// Sum of column `c` over the rows grouped under `key`.
pub open spec fn group_sum_value(s: Seq<RecordV>, kc: GroupKey, c: Column, key: Seq<char>) -> int {
    sum_of(s.filter(key_rows_pred(kc, key)), c)
}

/// The grouped table: one bucket per distinct key, in first-seen order.
pub open spec fn groups_of(s: Seq<RecordV>, kc: GroupKey, c: Column) -> Seq<BucketV> {
    Seq::new(
        seen_keys(s, kc).len(),
        |i: int| BucketV {
            key: seen_keys(s, kc)[i],
            value: group_sum_value(s, kc, c, seen_keys(s, kc)[i]),
        },
    )
}

/// Distinct keys stay distinct.
pub proof fn lemma_seen_keys_distinct(s: Seq<RecordV>, kc: GroupKey)
    ensures
        forall|i: int, j: int| 0 <= i < j < seen_keys(s, kc).len()
            ==> seen_keys(s, kc)[i] != seen_keys(s, kc)[j],
    decreases s.len(),
{
    if s.len() > 0 {
        lemma_seen_keys_distinct(s.drop_last(), kc);
        let pre = seen_keys(s.drop_last(), kc);
        let kk = group_key(s.last(), kc);
        if !pre.contains(kk) {
            assert(forall|i: int| 0 <= i < pre.len() ==> pre[i] != kk);
            assert(forall|i: int| 0 <= i < pre.len()
                ==> #[trigger] pre.push(kk)[i] == pre[i]);
        }
    }
}

/// Every row's key is seen.
pub proof fn lemma_seen_keys_complete(s: Seq<RecordV>, kc: GroupKey)
    ensures
        forall|i: int| 0 <= i < s.len()
            ==> seen_keys(s, kc).contains(group_key(#[trigger] s[i], kc)),
    decreases s.len(),
{
    if s.len() > 0 {
        lemma_seen_keys_complete(s.drop_last(), kc);
        let pre = seen_keys(s.drop_last(), kc);
        let post = seen_keys(s, kc);
        let kk = group_key(s.last(), kc);
        assert(forall|i: int| 0 <= i < pre.len() ==> post[i] == pre[i]);
        assert(forall|x: Seq<char>| pre.contains(x) ==> post.contains(x));
        assert(post.contains(kk)) by {
            if pre.contains(kk) {
            } else {
                assert(post[post.len() - 1] == kk);
            }
        }
        assert forall|i: int| 0 <= i < s.len()
            implies post.contains(group_key(#[trigger] s[i], kc)) by {
            if i < s.len() - 1 {
                assert(s[i] == s.drop_last()[i]);
                assert(pre.contains(group_key(s[i], kc)));
            }
        }
    }
}

/// An unseen key groups no rows.
pub proof fn lemma_unseen_key_empty(s: Seq<RecordV>, kc: GroupKey, key: Seq<char>)
    requires
        !seen_keys(s, kc).contains(key),
    ensures
        s.filter(key_rows_pred(kc, key)) == Seq::<RecordV>::empty(),
{
    let f = s.filter(key_rows_pred(kc, key));
    if f.len() > 0 {
        s.lemma_filter_pred(key_rows_pred(kc, key), 0);
        let e = f[0];
        assert(f.contains(e));
        s.lemma_filter_contains_rev(key_rows_pred(kc, key), e);
        let j = choose|j: int| 0 <= j < s.len() && s[j] == e;
        lemma_seen_keys_complete(s, kc);
        assert(seen_keys(s, kc).contains(group_key(s[j], kc)));
        assert(false);
    }
    assert(f =~= Seq::<RecordV>::empty());
}

/// One more row adds its value to exactly its own key's sum.
pub proof fn lemma_group_sum_step(s: Seq<RecordV>, kc: GroupKey, c: Column, i: int, key: Seq<char>)
    requires
        0 <= i < s.len(),
    ensures
        group_sum_value(s.take(i + 1), kc, c, key) == group_sum_value(s.take(i), kc, c, key)
            + if group_key(s[i], kc) == key { value_or_zero(s[i], c) } else { 0 },
{
    lemma_filter_take_step(s, key_rows_pred(kc, key), i);
    if group_key(s[i], kc) == key {
        let f = s.take(i).filter(key_rows_pred(kc, key));
        assert(f.push(s[i]).drop_last() =~= f);
    }
}

/// In-range rows stay in range under a filter.
pub proof fn lemma_filter_in_range(s: Seq<RecordV>, p: spec_fn(RecordV) -> bool)
    requires
        records_in_range(s),
    ensures
        records_in_range(s.filter(p)),
{
    let f = s.filter(p);
    assert forall|i: int| 0 <= i < f.len()
        implies crate::query::record_in_range(#[trigger] f[i]) by {
        let e = f[i];
        assert(f.contains(e));
        s.lemma_filter_contains_rev(p, e);
        let j = choose|j: int| 0 <= j < s.len() && s[j] == e;
        assert(crate::query::record_in_range(s[j]));
    }
}

// ---------------------------------------------------------------------------
// The executable grouping
// ---------------------------------------------------------------------------

/// Groups the table by a key column and sums a value column per group.
/// Output keys stand in first-seen order, one bucket per distinct key.
pub fn group_sum(t: &Table, kc: GroupKey, c: Column) -> (out: BucketTable)
    ensures
        out@ == groups_of(t@, kc, c),
{
    let mut rows: Vec<Bucket> = Vec::new();
    proof {
        lemma_table_in_range(t);
        reveal(Seq::filter);
        assert(t@.take(0) =~= Seq::<RecordV>::empty());
        assert(rows@.map_values(|b: Bucket| b@) =~= groups_of(t@.take(0), kc, c));
    }
    let n = t.rows.len();
    let mut i: usize = 0;
    while i < n
        invariant
            i <= n == t.rows@.len(),
            records_in_range(t@),
            rows@.map_values(|b: Bucket| b@) == groups_of(t@.take(i as int), kc, c),
        decreases n - i,
    {
        let ghost pre_seen = seen_keys(t@.take(i as int), kc);
        let ghost out0 = rows@.map_values(|b: Bucket| b@);
        proof {
            assert(t@[i as int] == t.rows@[i as int]@);
            assert(t@.take(i + 1).drop_last() =~= t@.take(i as int));
            assert(t@.take(i + 1).last() == t@[i as int]);
            lemma_seen_keys_distinct(t@.take(i as int), kc);
        }
        let key = record_group_key(&t.rows[i], kc);
        let ghost kk = group_key(t@[i as int], kc);
        let v = match record_value(&t.rows[i], c) {
            Some(v) => v,
            None => 0,
        };
        let m = rows.len();
        let mut j: usize = 0;
        let mut found = false;
        while !found && j < m
            invariant
                j <= m == rows@.len(),
                out0 == rows@.map_values(|b: Bucket| b@),
                kk == key@,
                found ==> (j < m && out0[j as int].key == kk),
                !found ==> forall|jj: int| 0 <= jj < j ==> (#[trigger] out0[jj]).key != kk,
            decreases m - j + if found { 0int } else { 1int },
        {
            proof {
                assert(out0[j as int] == rows@[j as int]@);
            }
            if rows[j].key.eq(&key) {
                found = true;
            } else {
                j = j + 1;
            }
        }
        let ghost post_seen = seen_keys(t@.take(i + 1), kc);
        proof {
            assert(out0.len() == pre_seen.len());
            assert forall|q: int| 0 <= q < out0.len()
                implies (#[trigger] out0[q]).key == pre_seen[q]
                    && out0[q].value == group_sum_value(t@.take(i as int), kc, c, pre_seen[q]) by {
                assert(out0[q] == groups_of(t@.take(i as int), kc, c)[q]);
            }
            if found {
                assert(pre_seen.contains(kk)) by {
                    assert(pre_seen[j as int] == kk);
                }
                assert(post_seen == pre_seen);
            } else {
                assert(!pre_seen.contains(kk)) by {
                    if pre_seen.contains(kk) {
                        let jj = choose|jj: int|
                            0 <= jj < pre_seen.len() && pre_seen[jj] == kk;
                        assert(out0[jj].key == kk);
                    }
                }
                assert(post_seen == pre_seen.push(kk));
            }
        }
        if found {
            let add = rows[j].value;
            proof {
                assert(out0[j as int] == rows@[j as int]@);
                assert(add == group_sum_value(t@.take(i as int), kc, c, kk));
                lemma_filter_in_range(t@.take(i as int), key_rows_pred(kc, kk));
                lemma_sum_of_bound(
                    t@.take(i as int).filter(key_rows_pred(kc, kk)), c);
                t@.take(i as int).lemma_filter_len(key_rows_pred(kc, kk));
                assert(records_in_range(t@.take(i as int))) by {
                    assert(forall|q: int| 0 <= q < i
                        ==> t@.take(i as int)[q] == #[trigger] t@[q]);
                }
            }
            let updated = Bucket { key, value: add + (v as i128) };
            rows.set(j, updated);
            proof {
                let out1 = rows@.map_values(|b: Bucket| b@);
                assert forall|q: int| 0 <= q < post_seen.len()
                    implies out1[q] == groups_of(t@.take(i + 1), kc, c)[q] by {
                    lemma_group_sum_step(t@, kc, c, i as int, post_seen[q]);
                    if q != j as int {
                        assert(out1[q] == out0[q]);
                        assert(post_seen[q] != kk);
                    } else {
                        assert(post_seen[q] == kk);
                    }
                }
                assert(out1 =~= groups_of(t@.take(i + 1), kc, c));
            }
        } else {
            proof {
                lemma_unseen_key_empty(t@.take(i as int), kc, kk);
            }
            rows.push(Bucket { key, value: v as i128 });
            proof {
                let out1 = rows@.map_values(|b: Bucket| b@);
                assert forall|q: int| 0 <= q < post_seen.len()
                    implies out1[q] == groups_of(t@.take(i + 1), kc, c)[q] by {
                    lemma_group_sum_step(t@, kc, c, i as int, post_seen[q]);
                    if q < out0.len() {
                        assert(out1[q] == out0[q]);
                        assert(post_seen[q] == pre_seen[q]);
                        assert(pre_seen[q] != kk) by {
                            assert(out0[q].key == pre_seen[q]);
                        }
                    } else {
                        assert(post_seen[q] == kk);
                        assert(group_sum_value(t@.take(i as int), kc, c, kk) == 0);
                    }
                }
                assert(out1 =~= groups_of(t@.take(i + 1), kc, c));
            }
        }
        i = i + 1;
    }
    proof {
        assert(t@.take(n as int) =~= t@);
    }
    BucketTable { rows }
}

// ---------------------------------------------------------------------------
// Sum preservation
// ---------------------------------------------------------------------------

/// Total value of a bucket sequence.
pub open spec fn sum_buckets(bs: Seq<BucketV>) -> int
    decreases bs.len(),
{
    if bs.len() == 0 {
        0
    } else {
        sum_buckets(bs.drop_last()) + bs.last().value
    }
}

/// Changing one bucket's value by `d` changes the total by `d`.
proof fn lemma_sum_buckets_delta(b1: Seq<BucketV>, b2: Seq<BucketV>, j: int, d: int)
    requires
        b1.len() == b2.len(),
        0 <= j < b1.len(),
        forall|i: int| 0 <= i < b1.len() && i != j ==> #[trigger] b2[i] == b1[i],
        b2[j].value == b1[j].value + d,
        b2[j].key == b1[j].key,
    ensures
        sum_buckets(b2) == sum_buckets(b1) + d,
    decreases b1.len(),
{
    if j == b1.len() - 1 {
        assert(b1.drop_last() =~= b2.drop_last());
    } else {
        lemma_sum_buckets_delta(b1.drop_last(), b2.drop_last(), j, d);
    }
}

/// Grouping loses nothing: the grouped sums total exactly the plain column
/// sum over the ungrouped rows.
pub proof fn lemma_group_sum_preserves_total(s: Seq<RecordV>, kc: GroupKey, c: Column)
    ensures
        sum_buckets(groups_of(s, kc, c)) == sum_of(s, c),
    decreases s.len(),
{
    if s.len() == 0 {
        assert(groups_of(s, kc, c) =~= Seq::<BucketV>::empty());
    } else {
        let s0 = s.drop_last();
        let r = s.last();
        let kk = group_key(r, kc);
        lemma_group_sum_preserves_total(s0, kc, c);
        lemma_seen_keys_distinct(s0, kc);
        let pre = seen_keys(s0, kc);
        let post = seen_keys(s, kc);
        assert(s.take(s.len() - 1) =~= s0);
        assert(s.take(s.len() as int) =~= s);
        assert forall|key: Seq<char>|
            #[trigger] group_sum_value(s, kc, c, key) == group_sum_value(s0, kc, c, key)
                + if group_key(s[s.len() - 1], kc) == key { value_or_zero(r, c) } else { 0 } by {
            lemma_group_sum_step(s, kc, c, s.len() - 1, key);
        }
        if pre.contains(kk) {
            assert(post == pre);
            let j = choose|j: int| 0 <= j < pre.len() && pre[j] == kk;
            lemma_sum_buckets_delta(
                groups_of(s0, kc, c), groups_of(s, kc, c), j, value_or_zero(r, c));
        } else {
            assert(post == pre.push(kk));
            lemma_unseen_key_empty(s0, kc, kk);
            let g1 = groups_of(s, kc, c);
            let g0 = groups_of(s0, kc, c);
            assert(g1.drop_last() =~= g0) by {
                assert forall|q: int| 0 <= q < g0.len()
                    implies g1.drop_last()[q] == g0[q] by {
                    assert(post[q] == pre[q]);
                    assert(pre[q] != kk) by {
                        if pre[q] == kk {
                            assert(pre.contains(kk));
                        }
                    }
                }
            }
            assert(g1.last().value == value_or_zero(r, c));
            assert(sum_buckets(g1) == sum_buckets(g0) + value_or_zero(r, c));
        }
    }
}

} // verus!
