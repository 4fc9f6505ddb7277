//! Turn durations: fixed buckets and extremes.
use vstd::prelude::*;

use crate::models::{DurationBucket, TurnDurationSummary};
use crate::text::owned;

verus! {

/// The sum of `s`.
pub open spec fn sum_of(s: Seq<i64>) -> int
    decreases s.len(),
{
    if s.len() == 0 {
        0
    } else {
        sum_of(s.drop_last()) + s.last()
    }
}

/// The least element of a non-empty `s`.
pub open spec fn min_of(s: Seq<i64>) -> i64
    decreases s.len(),
{
    if s.len() <= 1 {
        s[0]
    } else {
        let m = min_of(s.drop_last());
        if s.last() < m { s.last() } else { m }
    }
}

/// The greatest element of a non-empty `s`.
pub open spec fn max_of(s: Seq<i64>) -> i64
    decreases s.len(),
{
    if s.len() <= 1 {
        s[0]
    } else {
        let m = max_of(s.drop_last());
        if s.last() > m { s.last() } else { m }
    }
}

/// The elements `d` of `s` with `lo <= d < hi`.
pub open spec fn count_in(s: Seq<i64>, lo: i64, hi: i64) -> nat
    decreases s.len(),
{
    if s.len() == 0 {
        0
    } else {
        count_in(s.drop_last(), lo, hi) + if lo <= s.last() && s.last() < hi {
            1nat
        } else {
            0nat
        }
    }
}

/// Whether every running sum of `s` fits in `i64`.
pub open spec fn sums_fit(s: Seq<i64>) -> bool {
    forall|n: int| 0 <= n <= s.len() ==> i64::MIN <= #[trigger] sum_of(s.take(n)) <= i64::MAX
}

/// The bucket bounds: `[0, 30s)`, `[30s, 60s)`, `[1m, 2m)`, `[2m, 5m)`, `[5m, i64::MAX)`.
pub open spec fn bucket_bounds(b: int) -> (i64, i64) {
    if b == 0 {
        (0, 30_000)
    } else if b == 1 {
        (30_000, 60_000)
    } else if b == 2 {
        (60_000, 120_000)
    } else if b == 3 {
        (120_000, 300_000)
    } else {
        (300_000, i64::MAX)
    }
}

/// The bucket labels.
pub open spec fn bucket_label(b: int) -> Seq<char> {
    if b == 0 {
        "0-30s"@
    } else if b == 1 {
        "30-60s"@
    } else if b == 2 {
        "1-2m"@
    } else if b == 3 {
        "2-5m"@
    } else {
        "5m+"@
    }
}

proof fn lemma_count_in_bound(s: Seq<i64>, lo: i64, hi: i64)
    ensures
        count_in(s, lo, hi) <= s.len(),
    decreases s.len(),
{
    if s.len() > 0 {
        lemma_count_in_bound(s.drop_last(), lo, hi);
    }
}

fn count_between(durations: &[i64], lo: i64, hi: i64) -> (n: u64)
    ensures
        n == count_in(durations@, lo, hi),
{
    let mut n: u64 = 0;
    let mut i: usize = 0;
    while i < durations.len()
        invariant
            i <= durations@.len(),
            n == count_in(durations@.take(i as int), lo, hi),
        decreases durations@.len() - i,
    {
        assert(durations@.take(i + 1).drop_last() =~= durations@.take(i as int));
        proof {
            lemma_count_in_bound(durations@.take(i as int), lo, hi);
        }
        if lo <= durations[i] && durations[i] < hi {
            n = n + 1;
        }
        i += 1;
    }
    assert(durations@.take(durations@.len() as int) =~= durations@);
    n
}

/// Whether `r` summarizes `durations`: all zero and no buckets when there are none, else
/// the least, greatest and mean (rounded toward zero) duration, their number and the count
/// in each of the five buckets.
pub open spec fn summarizes_durations(r: TurnDurationSummary, durations: Seq<i64>) -> bool {
    &&& durations.len() == 0 ==> r.buckets@.len() == 0 && r.min_ms == 0 && r.max_ms == 0 && r.avg_ms == 0
        && r.count == 0
    &&& durations.len() > 0 ==> {
        &&& r.min_ms == min_of(durations)
        &&& r.max_ms == max_of(durations)
        &&& r.avg_ms as int == crate::scan::quot(sum_of(durations), durations.len() as int)
        &&& r.count == durations.len()
        &&& r.buckets@.len() == 5
        &&& forall|b: int| 0 <= b < 5 ==> #[trigger] r.buckets@[b].label@ == bucket_label(b)
            && r.buckets@[b].count == count_in(durations, bucket_bounds(b).0, bucket_bounds(b).1)
    }
}

/// The bucket counts, extremes, truncated mean and number of the turn durations; all
/// zero and no buckets when there are none.
pub fn build_turn_duration_summary(durations: &[i64]) -> (r: TurnDurationSummary)
    requires
        sums_fit(durations@),
        durations@.len() <= i64::MAX,
    ensures
        summarizes_durations(r, durations@),
{
    if durations.len() == 0 {
        return TurnDurationSummary::default();
    }
    let n = durations.len();
    let mut min_ms = durations[0];
    let mut max_ms = durations[0];
    let mut sum: i64 = durations[0];
    assert(durations@.take(1).drop_last() =~= Seq::<i64>::empty());
    assert(durations@.take(1).last() == durations@[0]);
    assert(sum_of(Seq::<i64>::empty()) == 0);
    assert(sum_of(durations@.take(1)) == durations@[0]);
    assert(min_of(durations@.take(1)) == durations@[0]);
    assert(max_of(durations@.take(1)) == durations@[0]);
    let mut i: usize = 1;
    while i < n
        invariant
            1 <= i <= n == durations@.len(),
            sums_fit(durations@),
            min_ms == min_of(durations@.take(i as int)),
            max_ms == max_of(durations@.take(i as int)),
            sum == sum_of(durations@.take(i as int)),
        decreases n - i,
    {
        assert(durations@.take(i + 1).drop_last() =~= durations@.take(i as int));
        assert(i64::MIN <= sum_of(durations@.take(i + 1)) <= i64::MAX);
        let d = durations[i];
        if d < min_ms {
            min_ms = d;
        }
        if d > max_ms {
            max_ms = d;
        }
        sum = sum + d;
        i += 1;
    }
    assert(durations@.take(n as int) =~= durations@);
    let count = n as i64;
    let avg_ms = sum / count;
    let mut buckets: Vec<DurationBucket> = Vec::new();
    buckets.push(DurationBucket { label: owned("0-30s"), count: count_between(durations, 0, 30_000) });
    buckets.push(
        DurationBucket { label: owned("30-60s"), count: count_between(durations, 30_000, 60_000) },
    );
    buckets.push(
        DurationBucket { label: owned("1-2m"), count: count_between(durations, 60_000, 120_000) },
    );
    buckets.push(
        DurationBucket { label: owned("2-5m"), count: count_between(durations, 120_000, 300_000) },
    );
    buckets.push(
        DurationBucket { label: owned("5m+"), count: count_between(durations, 300_000, i64::MAX) },
    );
    TurnDurationSummary { buckets, min_ms, max_ms, avg_ms, count: n as u64 }
}

proof fn lemma_sum_between(s: Seq<i64>)
    requires
        s.len() > 0,
    ensures
        s.len() * min_of(s) <= sum_of(s) <= s.len() * max_of(s),
    decreases s.len(),
{
    if s.len() == 1 {
        assert(s.drop_last().len() == 0);
        assert(sum_of(s.drop_last()) == 0);
        assert(s.last() == s[0]);
        assert(sum_of(s) == s[0]);
        assert(s.len() * min_of(s) == min_of(s)) by (nonlinear_arith)
            requires
                s.len() == 1,
        ;
        assert(s.len() * max_of(s) == max_of(s)) by (nonlinear_arith)
            requires
                s.len() == 1,
        ;
    } else {
        let p = s.drop_last();
        lemma_sum_between(p);
        let n = p.len() as int;
        let a = min_of(s) as int;
        let b = min_of(p) as int;
        let c = max_of(s) as int;
        let d = max_of(p) as int;
        assert(n * a <= n * b) by (nonlinear_arith)
            requires
                n >= 0,
                a <= b,
        ;
        assert(n * d <= n * c) by (nonlinear_arith)
            requires
                n >= 0,
                d <= c,
        ;
        assert(s.len() * a == n * a + a) by (nonlinear_arith)
            requires
                s.len() == n + 1,
        ;
        assert(s.len() * c == n * c + c) by (nonlinear_arith)
            requires
                s.len() == n + 1,
        ;
    }
}

proof fn lemma_quot_between(sum: int, n: int, lo: int, hi: int)
    requires
        n > 0,
        n * lo <= sum <= n * hi,
    ensures
        lo <= crate::scan::quot(sum, n) <= hi,
{
    if sum >= 0 {
        assert(lo <= sum / n <= hi) by (nonlinear_arith)
            requires
                n > 0,
                n * lo <= sum <= n * hi,
        ;
    } else {
        assert(-hi <= (-sum) / n <= -lo) by (nonlinear_arith)
            requires
                n > 0,
                n * lo <= sum <= n * hi,
        ;
    }
}

/// The mean duration lies between the least and the greatest.
pub proof fn lemma_mean_between_extremes(r: TurnDurationSummary, durations: Seq<i64>)
    requires
        summarizes_durations(r, durations),
        durations.len() > 0,
    ensures
        r.min_ms <= r.avg_ms <= r.max_ms,
{
    lemma_sum_between(durations);
    lemma_quot_between(sum_of(durations), durations.len() as int, min_of(durations) as int, max_of(durations) as int);
}

proof fn lemma_buckets_partition(s: Seq<i64>)
    ensures
        count_in(s, 0, 30_000) + count_in(s, 30_000, 60_000) + count_in(s, 60_000, 120_000)
            + count_in(s, 120_000, 300_000) + count_in(s, 300_000, i64::MAX) == count_in(s, 0, i64::MAX),
    decreases s.len(),
{
    if s.len() > 0 {
        lemma_buckets_partition(s.drop_last());
    }
}

/// The five buckets split the durations from zero up to (not including) `i64::MAX`:
/// their counts add up to the number of such durations.
pub proof fn lemma_buckets_split_durations(r: TurnDurationSummary, durations: Seq<i64>)
    requires
        summarizes_durations(r, durations),
        durations.len() > 0,
    ensures
        r.buckets@[0].count + r.buckets@[1].count + r.buckets@[2].count + r.buckets@[3].count + r.buckets@[4].count
            == count_in(durations, 0, i64::MAX),
{
    lemma_buckets_partition(durations);
    assert(r.buckets@[0].label@ == bucket_label(0));
    assert(r.buckets@[0].count == count_in(durations, bucket_bounds(0).0, bucket_bounds(0).1));
    assert(r.buckets@[1].label@ == bucket_label(1));
    assert(r.buckets@[1].count == count_in(durations, bucket_bounds(1).0, bucket_bounds(1).1));
    assert(r.buckets@[2].label@ == bucket_label(2));
    assert(r.buckets@[2].count == count_in(durations, bucket_bounds(2).0, bucket_bounds(2).1));
    assert(r.buckets@[3].label@ == bucket_label(3));
    assert(r.buckets@[3].count == count_in(durations, bucket_bounds(3).0, bucket_bounds(3).1));
    assert(r.buckets@[4].label@ == bucket_label(4));
    assert(r.buckets@[4].count == count_in(durations, bucket_bounds(4).0, bucket_bounds(4).1));
}

} // verus!
