//! Histogram binning: each row falls into the first half-open bucket
//! `(previous boundary, boundary]` that holds its value, with an open-ended
//! bucket above the last boundary; the result is one count per nonempty
//! bucket label, sorted by label. Also the prefix filter over bucket keys.

use vstd::prelude::*;
use crate::record::{Bucket, BucketV, BucketTable, RecordV, Table};
use crate::query::{Column, lemma_filter_take_step, record_value, spec_value};
use crate::strings::{
    has_prefix, lex_le, lemma_lex_total, lemma_lex_trans, spec_dec, str_lex_le, u64_to_string,
    views_of,
};

verus! {

// ---------------------------------------------------------------------------
// Bin assignment
// ---------------------------------------------------------------------------

/// The views of a vector of machine integers.
pub open spec fn bounds_view(bs: Seq<i64>) -> Seq<int> {
    bs.map_values(|b: i64| b as int)
}

/// Usable bin boundaries: at least one, nonnegative, strictly increasing,
/// with room above the last one.
pub open spec fn valid_boundaries(bs: Seq<int>) -> bool {
    &&& bs.len() >= 1
    &&& 0 <= bs[0]
    &&& forall|i: int, j: int| 0 <= i < j < bs.len() ==> bs[i] < bs[j]
    &&& bs.last() < 0x7fffffffffffffff
}

/// Index of the first boundary at or above `v` (closed upper bound), or
/// the boundary count for a value above them all.
pub open spec fn bin_of(v: int, bs: Seq<int>) -> int
    decreases bs.len(),
{
    if bs.len() == 0 {
        0
    } else if v <= bs[0] {
        0
    } else {
        1 + bin_of(v, bs.drop_first())
    }
}

proof fn lemma_bin_of_char(v: int, bs: Seq<int>, j: int)
    requires
        0 <= j <= bs.len(),
        forall|q: int| 0 <= q < j ==> v > #[trigger] bs[q],
        j < bs.len() ==> v <= bs[j],
    ensures
        bin_of(v, bs) == j,
    decreases bs.len(),
{
    if bs.len() > 0 && v > bs[0] {
        assert(j > 0);
        let d = bs.drop_first();
        assert(forall|q: int| 0 <= q < j - 1 ==> v > #[trigger] d[q]);
        lemma_bin_of_char(v, d, j - 1);
    }
}

fn bin_index(v: i64, bounds: &Vec<i64>) -> (k: usize)
    ensures
        k == bin_of(v as int, bounds_view(bounds@)),
        k <= bounds@.len(),
{
    let ghost bs = bounds_view(bounds@);
    let n = bounds.len();
    let mut k: usize = 0;
    while k < n && v > bounds[k]
        invariant
            k <= n == bounds@.len(),
            bs == bounds_view(bounds@),
            forall|q: int| 0 <= q < k ==> v as int > #[trigger] bs[q],
        decreases n - k,
    {
        k = k + 1;
    }
    proof {
        lemma_bin_of_char(v as int, bs, k as int);
    }
    k
}

// ---------------------------------------------------------------------------
// Bin labels
// ---------------------------------------------------------------------------

/// The label of bin `i`: `"0-{b0}"` for the first, `"{b+1}-{b'}"` between
/// two boundaries, `"{last+1}+"` for the open-ended final bin.
pub open spec fn bin_label(bs: Seq<int>, i: int) -> Seq<char> {
    if i == 0 {
        "0-"@ + spec_dec(bs[0])
    } else if i < bs.len() {
        spec_dec(bs[i - 1] + 1) + "-"@ + spec_dec(bs[i])
    } else {
        spec_dec(bs.last() + 1) + "+"@
    }
}

fn make_label(bounds: &Vec<i64>, k: usize) -> (out: String)
    requires
        valid_boundaries(bounds_view(bounds@)),
        k <= bounds@.len(),
    ensures
        out@ == bin_label(bounds_view(bounds@), k as int),
{
    let ghost bs = bounds_view(bounds@);
    let n = bounds.len();
    if k == 0 {
        let s = String::from_str("0-").concat(u64_to_string(bounds[0] as u64).as_str());
        proof {
            assert(bounds@[0] as int == bs[0]);
        }
        s
    } else if k < n {
        proof {
            assert(bs[k - 1] < bs[k as int]);
        }
        let low = u64_to_string((bounds[k - 1] + 1) as u64);
        let high = u64_to_string(bounds[k] as u64);
        low.concat("-").concat(high.as_str())
    } else {
        proof {
            assert(bs[n - 1] == bs.last());
        }
        u64_to_string((bounds[n - 1] + 1) as u64).concat("+")
    }
}

/// The bin label of every row whose column is present, in row order.
pub open spec fn labels_of(s: Seq<RecordV>, c: Column, bs: Seq<int>) -> Seq<Seq<char>>
    decreases s.len(),
{
    if s.len() == 0 {
        Seq::empty()
    } else {
        labels_of(s.drop_last(), c, bs) + match spec_value(s.last(), c) {
            Some(v) => seq![bin_label(bs, bin_of(v, bs))],
            None => Seq::<Seq<char>>::empty(),
        }
    }
}

fn row_labels(t: &Table, c: Column, bounds: &Vec<i64>) -> (out: Vec<String>)
    requires
        valid_boundaries(bounds_view(bounds@)),
    ensures
        views_of(out@) == labels_of(t@, c, bounds_view(bounds@)),
{
    let ghost bs = bounds_view(bounds@);
    let mut out: Vec<String> = Vec::new();
    proof {
        assert(t@.take(0) =~= Seq::<RecordV>::empty());
        assert(views_of(out@) =~= labels_of(t@.take(0), c, bs));
    }
    let n = t.rows.len();
    let mut i: usize = 0;
    while i < n
        invariant
            i <= n == t.rows@.len(),
            bs == bounds_view(bounds@),
            valid_boundaries(bs),
            views_of(out@) == labels_of(t@.take(i as int), c, bs),
        decreases n - i,
    {
        proof {
            assert(t@[i as int] == t.rows@[i as int]@);
            assert(t@.take(i + 1).drop_last() =~= t@.take(i as int));
            assert(t@.take(i + 1).last() == t@[i as int]);
        }
        match record_value(&t.rows[i], c) {
            Some(v) => {
                let k = bin_index(v, bounds);
                let label = make_label(bounds, k);
                proof {
                    assert(views_of(out@.push(label))
                        =~= views_of(out@) + seq![bin_label(bs, bin_of(v as int, bs))]);
                }
                out.push(label);
            },
            None => {
                proof {
                    assert(views_of(out@) =~= labels_of(t@.take(i + 1), c, bs));
                }
            },
        }
        i = i + 1;
    }
    proof {
        assert(t@.take(n as int) =~= t@);
    }
    out
}

// ---------------------------------------------------------------------------
// Counting labels
// ---------------------------------------------------------------------------

/// The labels equal to `key`.
pub open spec fn str_eq_pred(key: Seq<char>) -> spec_fn(Seq<char>) -> bool {
    |x: Seq<char>| x == key
}

/// How often `key` occurs among the labels.
pub open spec fn str_count(ls: Seq<Seq<char>>, key: Seq<char>) -> int {
    ls.filter(str_eq_pred(key)).len() as int
}

/// The distinct labels, each at its first appearance.
pub open spec fn seen_strs(ls: Seq<Seq<char>>) -> Seq<Seq<char>>
    decreases ls.len(),
{
    if ls.len() == 0 {
        Seq::empty()
    } else {
        let pre = seen_strs(ls.drop_last());
        if pre.contains(ls.last()) {
            pre
        } else {
            pre.push(ls.last())
        }
    }
}

/// One bucket per distinct label, in first-seen order, counting its rows.
pub open spec fn counts_of(ls: Seq<Seq<char>>) -> Seq<BucketV> {
    Seq::new(
        seen_strs(ls).len(),
        |i: int| BucketV { key: seen_strs(ls)[i], value: str_count(ls, seen_strs(ls)[i]) },
    )
}

proof fn lemma_seen_strs_distinct(ls: Seq<Seq<char>>)
    ensures
        forall|i: int, j: int| 0 <= i < j < seen_strs(ls).len()
            ==> seen_strs(ls)[i] != seen_strs(ls)[j],
    decreases ls.len(),
{
    if ls.len() > 0 {
        lemma_seen_strs_distinct(ls.drop_last());
        let pre = seen_strs(ls.drop_last());
        let kk = ls.last();
        if !pre.contains(kk) {
            assert(forall|i: int| 0 <= i < pre.len() ==> pre[i] != kk);
            assert(forall|i: int| 0 <= i < pre.len()
                ==> #[trigger] pre.push(kk)[i] == pre[i]);
        }
    }
}

proof fn lemma_seen_strs_complete(ls: Seq<Seq<char>>)
    ensures
        forall|i: int| 0 <= i < ls.len() ==> seen_strs(ls).contains(#[trigger] ls[i]),
    decreases ls.len(),
{
    if ls.len() > 0 {
        lemma_seen_strs_complete(ls.drop_last());
        let pre = seen_strs(ls.drop_last());
        let post = seen_strs(ls);
        assert(forall|i: int| 0 <= i < pre.len() ==> post[i] == pre[i]);
        assert(forall|x: Seq<char>| pre.contains(x) ==> post.contains(x));
        assert(post.contains(ls.last())) by {
            if !pre.contains(ls.last()) {
                assert(post[post.len() - 1] == ls.last());
            }
        }
        assert forall|i: int| 0 <= i < ls.len()
            implies post.contains(#[trigger] ls[i]) by {
            if i < ls.len() - 1 {
                assert(ls[i] == ls.drop_last()[i]);
            }
        }
    }
}

proof fn lemma_unseen_str_count_zero(ls: Seq<Seq<char>>, key: Seq<char>)
    requires
        !seen_strs(ls).contains(key),
    ensures
        str_count(ls, key) == 0,
{
    let f = ls.filter(str_eq_pred(key));
    if f.len() > 0 {
        ls.lemma_filter_pred(str_eq_pred(key), 0);
        let e = f[0];
        assert(f.contains(e));
        ls.lemma_filter_contains_rev(str_eq_pred(key), e);
        let j = choose|j: int| 0 <= j < ls.len() && ls[j] == e;
        lemma_seen_strs_complete(ls);
        assert(seen_strs(ls).contains(ls[j]));
        assert(false);
    }
}

proof fn lemma_str_count_step(ls: Seq<Seq<char>>, i: int, key: Seq<char>)
    requires
        0 <= i < ls.len(),
    ensures
        str_count(ls.take(i + 1), key) == str_count(ls.take(i), key)
            + if ls[i] == key { 1int } else { 0int },
{
    lemma_filter_take_step(ls, str_eq_pred(key), i);
}

fn count_labels(labels: &Vec<String>) -> (out: Vec<Bucket>)
    ensures
        out@.map_values(|b: Bucket| b@) == counts_of(views_of(labels@)),
{
    let ghost ls = views_of(labels@);
    let mut rows: Vec<Bucket> = Vec::new();
    proof {
        reveal(Seq::filter);
        assert(ls.take(0) =~= Seq::<Seq<char>>::empty());
        assert(rows@.map_values(|b: Bucket| b@) =~= counts_of(ls.take(0)));
    }
    let n = labels.len();
    let mut i: usize = 0;
    while i < n
        invariant
            i <= n == labels@.len(),
            ls == views_of(labels@),
            rows@.map_values(|b: Bucket| b@) == counts_of(ls.take(i as int)),
        decreases n - i,
    {
        let ghost pre_seen = seen_strs(ls.take(i as int));
        let ghost out0 = rows@.map_values(|b: Bucket| b@);
        proof {
            assert(labels@[i as int]@ == ls[i as int]);
            assert(ls.take(i + 1).drop_last() =~= ls.take(i as int));
            assert(ls.take(i + 1).last() == ls[i as int]);
            lemma_seen_strs_distinct(ls.take(i as int));
        }
        let key = &labels[i];
        let ghost kk = ls[i as int];
        let m = rows.len();
        let mut j: usize = 0;
        let mut found = false;
        while !found && j < m
            invariant
                j <= m == rows@.len(),
                out0 == rows@.map_values(|b: Bucket| b@),
                kk == key@,
                found ==> (j < m && out0[j as int].key == kk),
                !found ==> forall|jj: int| 0 <= jj < j ==> (#[trigger] out0[jj]).key != kk,
            decreases m - j + if found { 0int } else { 1int },
        {
            proof {
                assert(out0[j as int] == rows@[j as int]@);
            }
            if rows[j].key.eq(key) {
                found = true;
            } else {
                j = j + 1;
            }
        }
        let ghost post_seen = seen_strs(ls.take(i + 1));
        proof {
            assert(out0.len() == pre_seen.len());
            assert forall|q: int| 0 <= q < out0.len()
                implies (#[trigger] out0[q]).key == pre_seen[q]
                    && out0[q].value == str_count(ls.take(i as int), pre_seen[q]) by {
                assert(out0[q] == counts_of(ls.take(i as int))[q]);
            }
            if found {
                assert(pre_seen.contains(kk)) by {
                    assert(pre_seen[j as int] == kk);
                }
                assert(post_seen == pre_seen);
            } else {
                assert(!pre_seen.contains(kk)) by {
                    if pre_seen.contains(kk) {
                        let jj = choose|jj: int|
                            0 <= jj < pre_seen.len() && pre_seen[jj] == kk;
                        assert(out0[jj].key == kk);
                    }
                }
                assert(post_seen == pre_seen.push(kk));
            }
        }
        if found {
            let add = rows[j].value;
            proof {
                assert(out0[j as int] == rows@[j as int]@);
                assert(add == str_count(ls.take(i as int), kk));
                ls.take(i as int).lemma_filter_len(str_eq_pred(kk));
                assert(add >= 0) by {
                    assert(ls.take(i as int).filter(str_eq_pred(kk)).len() >= 0);
                }
            }
            let key_copy = labels[i].clone();
            let updated = Bucket { key: key_copy, value: add + 1 };
            vstd::pervasive::VecAdditionalExecFns::set(&mut rows, j, updated);
            proof {
                let out1 = rows@.map_values(|b: Bucket| b@);
                assert forall|q: int| 0 <= q < post_seen.len()
                    implies out1[q] == counts_of(ls.take(i + 1))[q] by {
                    lemma_str_count_step(ls, i as int, post_seen[q]);
                    if q != j as int {
                        assert(out1[q] == out0[q]);
                        assert(post_seen[q] != kk);
                    } else {
                        assert(post_seen[q] == kk);
                    }
                }
                assert(out1 =~= counts_of(ls.take(i + 1)));
            }
        } else {
            proof {
                lemma_unseen_str_count_zero(ls.take(i as int), kk);
            }
            let key_copy = labels[i].clone();
            rows.push(Bucket { key: key_copy, value: 1 });
            proof {
                let out1 = rows@.map_values(|b: Bucket| b@);
                assert forall|q: int| 0 <= q < post_seen.len()
                    implies out1[q] == counts_of(ls.take(i + 1))[q] by {
                    lemma_str_count_step(ls, i as int, post_seen[q]);
                    if q < out0.len() {
                        assert(out1[q] == out0[q]);
                        assert(post_seen[q] == pre_seen[q]);
                        assert(pre_seen[q] != kk) by {
                            assert(out0[q].key == pre_seen[q]);
                        }
                    } else {
                        assert(post_seen[q] == kk);
                    }
                }
                assert(out1 =~= counts_of(ls.take(i + 1)));
            }
        }
        i = i + 1;
    }
    proof {
        assert(ls.take(n as int) =~= ls);
    }
    rows
}

// ---------------------------------------------------------------------------
// Sorting buckets by label
// ---------------------------------------------------------------------------

/// The buckets stand in lexicographic key order.
pub open spec fn lex_sorted(bs: Seq<BucketV>) -> bool {
    forall|i: int, j: int| 0 <= i < j < bs.len()
        ==> lex_le((#[trigger] bs[i]).key, (#[trigger] bs[j]).key)
}

/// The views of a sequence of buckets.
pub open spec fn bucket_views(rows: Seq<Bucket>) -> Seq<BucketV> {
    rows.map_values(|b: Bucket| b@)
}

/// Sorts buckets by key, ascending lexicographically; the output holds the
/// same buckets.
pub fn sort_buckets_by_key(t: &BucketTable) -> (out: BucketTable)
    ensures
        lex_sorted(out@),
        out@.to_multiset() == t@.to_multiset(),
        out@.len() == t@.len(),
{
    broadcast use vstd::seq_lib::group_to_multiset_ensures;

    let mut rows: Vec<Bucket> = Vec::new();
    proof {
        assert(t@.take(0) =~= Seq::<BucketV>::empty());
        assert(bucket_views(rows@) =~= Seq::<BucketV>::empty());
        assert(bucket_views(rows@).to_multiset() =~= t@.take(0).to_multiset());
    }
    let n = t.rows.len();
    let mut i: usize = 0;
    while i < n
        invariant
            i <= n == t.rows@.len(),
            rows@.len() == i,
            lex_sorted(bucket_views(rows@)),
            bucket_views(rows@).to_multiset() == t@.take(i as int).to_multiset(),
        decreases n - i,
    {
        let x = t.rows[i].clone();
        let ghost xv = t@[i as int];
        proof {
            assert(t@[i as int] == t.rows@[i as int]@);
        }
        let ghost out0 = bucket_views(rows@);
        let mut pos: usize = rows.len();
        while pos > 0 && !str_lex_le(rows[pos - 1].key.as_str(), x.key.as_str())
            invariant
                pos <= rows@.len(),
                out0 == bucket_views(rows@),
                x@ == xv,
                forall|j: int| pos <= j < out0.len()
                    ==> !lex_le((#[trigger] out0[j]).key, xv.key),
            decreases pos,
        {
            proof {
                assert(out0[pos - 1] == rows@[pos - 1]@);
            }
            pos = pos - 1;
        }
        proof {
            if pos > 0 {
                assert(out0[pos - 1] == rows@[pos - 1]@);
                assert(lex_le(out0[pos - 1].key, xv.key));
            }
        }
        rows.insert(pos, x);
        proof {
            let out1 = bucket_views(rows@);
            assert(out1 =~= out0.insert(pos as int, xv));
            vstd::seq_lib::to_multiset_insert(out0, pos as int, xv);
            assert(t@.take(i + 1) =~= t@.take(i as int).push(xv));
            vstd::seq_lib::to_multiset_build(t@.take(i as int), xv);
            assert(t@.take(i + 1).to_multiset() == t@.take(i as int).to_multiset().insert(xv));
            assert forall|p0: int, q0: int| 0 <= p0 < q0 < out1.len()
                implies lex_le((#[trigger] out1[p0]).key, (#[trigger] out1[q0]).key) by {
                let pl = pos as int;
                if p0 < pl && q0 < pl {
                    assert(out1[p0] == out0[p0] && out1[q0] == out0[q0]);
                } else if p0 < pl && q0 == pl {
                    assert(out1[p0] == out0[p0]);
                    if p0 < pl - 1 {
                        lemma_lex_trans(out0[p0].key, out0[pl - 1].key, xv.key);
                    }
                } else if p0 < pl && q0 > pl {
                    assert(out1[p0] == out0[p0] && out1[q0] == out0[q0 - 1]);
                } else if p0 == pl {
                    assert(out1[q0] == out0[q0 - 1]);
                    assert(!lex_le(out0[q0 - 1].key, xv.key));
                    lemma_lex_total(out0[q0 - 1].key, xv.key);
                } else {
                    assert(out1[p0] == out0[p0 - 1] && out1[q0] == out0[q0 - 1]);
                }
            }
        }
        i = i + 1;
    }
    proof {
        assert(t@.take(n as int) =~= t@);
        vstd::seq_lib::to_multiset_len(bucket_views(rows@));
        vstd::seq_lib::to_multiset_len(t@);
    }
    BucketTable { rows }
}

// ---------------------------------------------------------------------------
// The histogram
// ---------------------------------------------------------------------------

/// Bins every row whose column is present into the first bucket whose
/// boundary is at or above its value (a value exactly on a boundary falls
/// into the lower, closed bucket), counts the rows per nonempty bin label,
/// and returns the counts sorted by label, ascending.
pub fn bin_numeric(t: &Table, c: Column, boundaries: &Vec<i64>) -> (out: BucketTable)
    requires
        valid_boundaries(bounds_view(boundaries@)),
    ensures
        lex_sorted(out@),
        out@.to_multiset()
            == counts_of(labels_of(t@, c, bounds_view(boundaries@))).to_multiset(),
        out@.len() == counts_of(labels_of(t@, c, bounds_view(boundaries@))).len(),
{
    let labels = row_labels(t, c, boundaries);
    let counts = count_labels(&labels);
    let grouped = BucketTable { rows: counts };
    proof {
        assert(grouped@ == counts_of(labels_of(t@, c, bounds_view(boundaries@))));
    }
    sort_buckets_by_key(&grouped)
}

// ---------------------------------------------------------------------------
// Prefix filtering over bucket keys
// ---------------------------------------------------------------------------

/// The buckets whose key begins with `prefix`.
pub open spec fn prefix_pred(prefix: Seq<char>) -> spec_fn(BucketV) -> bool {
    |b: BucketV| prefix.is_prefix_of(b.key)
}

/// Buckets whose key starts with the given prefix (a string match, not a
/// numeric one), in their original order.
pub fn filter_by_year_prefix(t: &BucketTable, prefix: &str) -> (out: BucketTable)
    ensures
        out@ == t@.filter(prefix_pred(prefix@)),
{
    let ghost p = prefix_pred(prefix@);
    let mut rows: Vec<Bucket> = Vec::new();
    proof {
        reveal(Seq::filter);
        assert(t@.take(0) =~= Seq::<BucketV>::empty());
        assert(rows@.map_values(|b: Bucket| b@) =~= t@.take(0).filter(p));
    }
    let n = t.rows.len();
    let mut i: usize = 0;
    while i < n
        invariant
            i <= n == t.rows@.len(),
            p == prefix_pred(prefix@),
            rows@.map_values(|b: Bucket| b@) == t@.take(i as int).filter(p),
        decreases n - i,
    {
        proof {
            lemma_filter_take_step(t@, p, i as int);
            assert(t@[i as int] == t.rows@[i as int]@);
        }
        if has_prefix(t.rows[i].key.as_str(), prefix) {
            let b = t.rows[i].clone();
            proof {
                assert(rows@.push(b).map_values(|x: Bucket| x@)
                    =~= rows@.map_values(|x: Bucket| x@).push(t@[i as int]));
            }
            rows.push(b);
        }
        i = i + 1;
    }
    proof {
        assert(t@.take(n as int) =~= t@);
    }
    BucketTable { rows }
}

} // verus!
