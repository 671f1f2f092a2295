//! What a client measures.

use vstd::prelude::*;

verus! {

/// The counts of an interval: the sum of latencies in microseconds, the
/// operations and the successful ones.
#[derive(Clone, Copy, Debug, PartialEq, Eq, Structural)]
pub struct Interval {
    pub latency_sum_us: u64,
    pub op_count: u64,
    pub success_count: u64,
}

/// Counts of the current interval, and of the writes given up since the start.
/// Each count starts over where it would exceed 64 bits.
pub struct IntervalMetrics {
    pub interval: Interval,
    pub max_retries_hit: u64,
}

/// A 64-bit count once `n` has been added, starting over behind the greatest.
pub open spec fn counted(count: u64, n: int) -> int {
    (count + n) % 0x1_0000_0000_0000_0000
}

/// The counts of an interval once an operation has ended.
pub open spec fn recorded(before: Interval, latency_us: u64, success: bool, after: Interval) -> bool {
    &&& after.latency_sum_us == counted(before.latency_sum_us, latency_us as int)
    &&& after.op_count == counted(before.op_count, 1)
    &&& after.success_count == if success {
        counted(before.success_count, 1)
    } else {
        before.success_count as int
    }
}

impl IntervalMetrics {
    /// Nothing counted yet.
    pub fn new() -> (metrics: IntervalMetrics)
        ensures
            metrics.interval == (Interval { latency_sum_us: 0, op_count: 0, success_count: 0 }),
            metrics.max_retries_hit == 0,
    {
        IntervalMetrics {
            interval: Interval { latency_sum_us: 0, op_count: 0, success_count: 0 },
            max_retries_hit: 0,
        }
    }

    /// Count an operation that has ended.
    pub fn record(&mut self, latency_us: u64, success: bool)
        ensures
            final(self).interval.latency_sum_us == (old(self).interval.latency_sum_us + latency_us)
                % 0x1_0000_0000_0000_0000,
            final(self).interval.op_count == (old(self).interval.op_count + 1)
                % 0x1_0000_0000_0000_0000,
            final(self).interval.success_count == (old(self).interval.success_count + if success {
                1int
            } else {
                0int
            }) % 0x1_0000_0000_0000_0000,
            final(self).max_retries_hit == old(self).max_retries_hit,
            recorded(old(self).interval, latency_us, success, final(self).interval),
    {
        self.interval.latency_sum_us = self.interval.latency_sum_us.wrapping_add(latency_us);
        self.interval.op_count = self.interval.op_count.wrapping_add(1);
        if success {
            self.interval.success_count = self.interval.success_count.wrapping_add(1);
        }
    }

    /// Count a write that was given up after the last attempt.
    pub fn record_given_up(&mut self)
        ensures
            final(self).max_retries_hit == (old(self).max_retries_hit + 1)
                % 0x1_0000_0000_0000_0000,
            final(self).interval == old(self).interval,
            final(self).max_retries_hit == counted(old(self).max_retries_hit, 1),
    {
        self.max_retries_hit = self.max_retries_hit.wrapping_add(1);
    }

    /// End the interval: hand out its counts and start the next from zero.
    pub fn take_interval(&mut self) -> (ended: Interval)
        ensures
            ended == old(self).interval,
            final(self).interval == (Interval {
                latency_sum_us: 0,
                op_count: 0,
                success_count: 0,
            }),
            final(self).max_retries_hit == old(self).max_retries_hit,
    {
        let ended = self.interval;
        self.interval = Interval { latency_sum_us: 0, op_count: 0, success_count: 0 };
        ended
    }
}

/// Ascending order.
pub open spec fn ascending(values: Seq<u64>) -> bool {
    forall|i: int, j: int| 0 <= i <= j < values.len() ==> values[i] <= values[j]
}

/// Calls `sort` of std's slices. Its documentation says that it sorts the slice
/// in ascending order of its elements, which for `u64` is numeric order: the
/// list is ascending and holds the same numbers as before, each as often.
#[verifier::external_body]
fn sort(values: &mut Vec<u64>)
    ensures
        ascending(final(values)@),
        final(values)@.to_multiset() == old(values)@.to_multiset(),
{
    values.sort()
}

/// The sum of some values.
pub open spec fn sum(values: Seq<u64>) -> int
    decreases values.len(),
{
    if values.len() == 0 {
        0
    } else {
        sum(values.drop_last()) + values.last()
    }
}

/// The latencies of a run, in nanoseconds: their mean, rounded down, and their
/// 50th and 99th percentiles.
#[derive(Clone, Copy, Debug, PartialEq, Eq, Structural)]
pub struct LatencySummary {
    pub avg: u64,
    pub p50: u64,
    pub p99: u64,
}

/// `sorted` holds the same numbers as `values`, in ascending order.
pub open spec fn is_sorted_copy(values: Seq<u64>, sorted: Seq<u64>) -> bool {
    ascending(sorted) && sorted.to_multiset() == values.to_multiset()
}

/// `summary` is the summary of some latencies.
pub open spec fn is_summary(latencies: Seq<u64>, summary: LatencySummary) -> bool {
    &&& summary.avg == sum(latencies) / latencies.len() as int
    &&& exists|sorted: Seq<u64>| #[trigger]
        is_sorted_copy(latencies, sorted) && sorted.len() == latencies.len() && summary.p50
            == sorted[latencies.len() as int / 2] && summary.p99 == sorted[latencies.len() as int * 99
            / 100]
}

/// Sum up the latencies of a run.
pub fn summarize(latencies: Vec<u64>) -> (summary: LatencySummary)
    requires
        0 < latencies@.len(),
        latencies@.len() * 99 <= usize::MAX,
        latencies@.len() <= u32::MAX,
    ensures
        summary.avg == sum(latencies@) / latencies@.len() as int,
        exists|sorted: Seq<u64>| #[trigger]
            is_sorted_copy(latencies@, sorted) && sorted.len() == latencies@.len() && summary.p50
                == sorted[latencies@.len() as int / 2] && summary.p99 == sorted[latencies@.len() as int
                * 99 / 100],
        is_summary(latencies@, summary),
{
    let ghost given = latencies@;
    let len = latencies.len();
    let mut total: u128 = 0;
    let mut i: usize = 0;
    while i < len
        invariant
            len == latencies@.len(),
            latencies@ == given,
            i <= len <= u32::MAX,
            total == sum(given.take(i as int)),
            total <= i * 0xffff_ffff_ffff_ffff,
        decreases len - i,
    {
        proof {
            assert(given.take(i + 1).drop_last() =~= given.take(i as int));
            assert(given.take(i + 1).last() == given[i as int]);
        }
        total = total + latencies[i] as u128;
        i += 1;
    }
    assert(given.take(len as int) =~= given);
    assert(total / len as u128 <= 0xffff_ffff_ffff_ffff) by (nonlinear_arith)
        requires
            0 < len,
            total <= len * 0xffff_ffff_ffff_ffff,
    ;
    let avg = (total / len as u128) as u64;
    let mut sorted = latencies;
    sort(&mut sorted);
    proof {
        broadcast use vstd::seq_lib::group_to_multiset_ensures;

        assert(sorted@.len() == sorted@.to_multiset().len());
        assert(given.len() == given.to_multiset().len());
        assert(is_sorted_copy(given, sorted@));
    }
    LatencySummary { avg, p50: sorted[len / 2], p99: sorted[len * 99 / 100] }
}

/// There is one way to sort a list of numbers, so its percentiles are determined.
pub proof fn law_sorted_copy_is_unique(values: Seq<u64>, a: Seq<u64>, b: Seq<u64>)
    requires
        is_sorted_copy(values, a),
        is_sorted_copy(values, b),
    ensures
        a == b,
{
    let leq = |x: u64, y: u64| x <= y;
    vstd::seq_lib::lemma_sorted_unique(a, b, leq);
}

/// A sum grows by each value, and ascending order means that no value is greater
/// than a later one.
pub proof fn law_sums_and_order(values: Seq<u64>, value: u64, sorted: Seq<u64>)
    ensures
        sum(Seq::<u64>::empty()) == 0,
        sum(values.push(value)) == sum(values) + value,
        is_sorted_copy(values, sorted) <==> {
            &&& forall|i: int, j: int| 0 <= i <= j < sorted.len() ==> sorted[i] <= sorted[j]
            &&& sorted.to_multiset() == values.to_multiset()
        },
{
    assert(values.push(value).drop_last() =~= values);
}

/// Counting in numbers: an operation adds its latency and one, and one more if
/// it was successful; a count that would exceed 64 bits starts over.
pub proof fn law_counts_in_numbers(
    count: u64,
    n: u64,
    before: Interval,
    latency_us: u64,
    success: bool,
    after: Interval,
)
    ensures
        count + n <= u64::MAX ==> counted(count, n as int) == count + n,
        count + n > u64::MAX ==> counted(count, n as int) == count + n - u64::MAX - 1,
        recorded(before, latency_us, success, after) ==> {
            &&& before.latency_sum_us + latency_us <= u64::MAX ==> after.latency_sum_us
                == before.latency_sum_us + latency_us
            &&& before.latency_sum_us + latency_us > u64::MAX ==> after.latency_sum_us
                == before.latency_sum_us + latency_us - u64::MAX - 1
            &&& before.op_count < u64::MAX ==> after.op_count == before.op_count + 1
            &&& before.op_count == u64::MAX ==> after.op_count == 0
            &&& success && before.success_count < u64::MAX ==> after.success_count
                == before.success_count + 1
            &&& success && before.success_count == u64::MAX ==> after.success_count == 0
            &&& !success ==> after.success_count == before.success_count
        },
{
}

/// A summary in numbers: the mean is the sum divided by the number of latencies,
/// rounded down; with the latencies in ascending order, the 50th percentile is
/// the one that half of them, rounded down, come before, and the 99th the one
/// that 99 in 100 of them, rounded down, come before.
pub proof fn law_summary_in_numbers(
    latencies: Seq<u64>,
    summary: LatencySummary,
    sorted: Seq<u64>,
)
    requires
        0 < latencies.len(),
        is_summary(latencies, summary),
        forall|i: int, j: int| 0 <= i <= j < sorted.len() ==> sorted[i] <= sorted[j],
        sorted.to_multiset() == latencies.to_multiset(),
    ensures
        summary.avg * latencies.len() <= sum(latencies) < (summary.avg + 1) * latencies.len(),
        summary.p50 == sorted[latencies.len() as int / 2],
        summary.p99 == sorted[latencies.len() as int * 99 / 100],
{
    let n = latencies.len() as int;
    let total = sum(latencies);
    let other = choose|other: Seq<u64>| #[trigger]
        is_sorted_copy(latencies, other) && other.len() == latencies.len() && summary.p50
            == other[n / 2] && summary.p99 == other[n * 99 / 100];
    law_sorted_copy_is_unique(latencies, sorted, other);
    vstd::arithmetic::div_mod::lemma_fundamental_div_mod(total, n);
    vstd::arithmetic::div_mod::lemma_mod_bound(total, n);
    assert(total / n * n == n * (total / n)) by (nonlinear_arith);
    assert((total / n + 1) * n == n * (total / n) + n) by (nonlinear_arith);
}

} // verus!
