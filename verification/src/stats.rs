//! What a run counts and reports.

use vstd::prelude::*;

verus! {

/// The sum of numbers.
pub open spec fn sum_of(values: Seq<u64>) -> nat
    decreases values.len(),
{
    if values.len() == 0 {
        0
    } else {
        sum_of(values.drop_last()) + values.last() as nat
    }
}

proof fn sum_of_grows(values: Seq<u64>, n: int)
    requires
        0 <= n <= values.len(),
    ensures
        sum_of(values.take(n)) <= sum_of(values),
    decreases values.len(),
{
    if n == values.len() {
        assert(values.take(n) == values);
    } else {
        sum_of_grows(values.drop_last(), n);
        assert(values.drop_last().take(n) == values.take(n));
    }
}

/// The sum of numbers, if it is small enough.
pub fn checked_sum(values: &Vec<u64>) -> (r: Option<u64>)
    ensures
        r == (if sum_of(values@) <= u64::MAX {
            Some(sum_of(values@) as u64)
        } else {
            None::<u64>
        }),
{
    let mut sum: u64 = 0;
    for i in 0..values.len()
        invariant
            sum == sum_of(values@.take(i as int)),
    {
        assert(values@.take(i + 1).drop_last() == values@.take(i as int));
        proof {
            sum_of_grows(values@, i + 1);
        }
        match sum.checked_add(values[i]) {
            Some(more) => {
                sum = more;
            },
            None => {
                return None;
            },
        }
    }
    assert(values@.take(values@.len() as int) == values@);
    Some(sum)
}

proof fn sum_of_zeros(n: nat)
    ensures
        sum_of(Seq::new(n, |i: int| 0u64)) == 0,
    decreases n,
{
    if n > 0 {
        let zeros = Seq::new(n, |i: int| 0u64);
        assert(zeros.drop_last() == Seq::new((n - 1) as nat, |i: int| 0u64));
        sum_of_zeros((n - 1) as nat);
    }
}

proof fn sum_after_update(values: Seq<u64>, i: int, v: u64)
    requires
        0 <= i < values.len(),
    ensures
        sum_of(values.update(i, v)) == sum_of(values) - values[i] + v,
        values[i] <= sum_of(values),
    decreases values.len(),
{
    let front = values.drop_last();
    if i == values.len() - 1 {
        assert(values.update(i, v).drop_last() == front);
    } else {
        assert(values.update(i, v).drop_last() == front.update(i, v));
        sum_after_update(front, i, v);
    }
}

// The workers.

/// What a GPU worker has counted.
pub struct GpuWorkerStats {
    pub batches: u64,
    pub total_rows: u64,
    pub total_capacity: u64,
    pub latencies_us: Vec<u64>,
    pub per_bucket_batches: Vec<u64>,
    pub per_bucket_messages: Vec<u64>,
}

impl GpuWorkerStats {
    /// There is a latency for each batch, and the buckets' batches and messages add up.
    pub open spec fn valid(self) -> bool {
        &&& self.per_bucket_batches@.len() == self.per_bucket_messages@.len()
        &&& self.latencies_us@.len() == self.batches
        &&& sum_of(self.per_bucket_batches@) == self.batches
        &&& sum_of(self.per_bucket_messages@) == self.total_rows
    }

    /// Whether another batch can be counted.
    pub open spec fn room_for(self, n_real: nat, capacity: nat) -> bool {
        &&& self.batches < u64::MAX
        &&& self.total_rows + n_real <= u64::MAX
        &&& self.total_capacity + capacity <= u64::MAX
    }

    /// Whether the stats are those of `before` with one more batch: of `n_real` messages, from the
    /// given bucket, with room for `capacity`.
    pub open spec fn counted(
        self,
        before: Self,
        bucket: usize,
        n_real: usize,
        capacity: usize,
        latency_us: u64,
    ) -> bool {
        let b = bucket as int;
        &&& self.batches == before.batches + 1
        &&& self.total_rows == before.total_rows + n_real
        &&& self.total_capacity == before.total_capacity + capacity
        &&& self.latencies_us@ == before.latencies_us@.push(latency_us)
        &&& self.per_bucket_batches@ == before.per_bucket_batches@.update(
            b,
            (before.per_bucket_batches@[b] + 1) as u64,
        )
        &&& self.per_bucket_messages@ == before.per_bucket_messages@.update(
            b,
            (before.per_bucket_messages@[b] + n_real) as u64,
        )
    }

    /// Whether another batch can be counted.
    pub fn has_room_for(&self, n_real: usize, capacity: usize) -> (r: bool)
        ensures
            r == self.room_for(n_real as nat, capacity as nat),
    {
        self.batches < u64::MAX && n_real as u64 <= u64::MAX - self.total_rows && capacity as u64
            <= u64::MAX - self.total_capacity
    }

    /// The stats of a worker that has done nothing yet.
    pub fn new(n_buckets: usize) -> (r: Self)
        ensures
            r.valid(),
            r.batches == 0,
            r.total_rows == 0,
            r.total_capacity == 0,
            r.latencies_us@ == Seq::<u64>::empty(),
            r.per_bucket_batches@ == Seq::new(n_buckets as nat, |i: int| 0u64),
            r.per_bucket_messages@ == Seq::new(n_buckets as nat, |i: int| 0u64),
    {
        let mut batches: Vec<u64> = Vec::new();
        let mut messages: Vec<u64> = Vec::new();
        for i in 0..n_buckets
            invariant
                batches@ == Seq::new(i as nat, |k: int| 0u64),
                messages@ == Seq::new(i as nat, |k: int| 0u64),
        {
            batches.push(0);
            messages.push(0);
        }
        proof {
            sum_of_zeros(n_buckets as nat);
        }
        GpuWorkerStats {
            batches: 0,
            total_rows: 0,
            total_capacity: 0,
            latencies_us: Vec::new(),
            per_bucket_batches: batches,
            per_bucket_messages: messages,
        }
    }

    /// Counts a batch of `n_real` messages from a bucket whose batches have room for `capacity`.
    pub fn record(&mut self, bucket: usize, n_real: usize, capacity: usize, latency_us: u64)
        requires
            old(self).valid(),
            bucket < old(self).per_bucket_batches@.len(),
            old(self).room_for(n_real as nat, capacity as nat),
        ensures
            final(self).valid(),
            final(self).counted(*old(self), bucket, n_real, capacity, latency_us),
    {
        proof {
            sum_after_update(
                self.per_bucket_batches@,
                bucket as int,
                (self.per_bucket_batches@[bucket as int] + 1) as u64,
            );
            sum_after_update(
                self.per_bucket_messages@,
                bucket as int,
                (self.per_bucket_messages@[bucket as int] + n_real) as u64,
            );
        }
        self.latencies_us.push(latency_us);
        self.batches += 1;
        self.total_rows += n_real as u64;
        self.total_capacity += capacity as u64;
        let b: u64 = self.per_bucket_batches[bucket];
        self.per_bucket_batches[bucket] = b + 1;
        let m: u64 = self.per_bucket_messages[bucket];
        self.per_bucket_messages[bucket] = m + n_real as u64;
    }
}

/// How many messages a batch of a bucket has room for: the bucket's batch size, or as many as are
/// in it where there is no such bucket.
pub fn batch_capacity(batch_sizes: &Vec<usize>, bucket: usize, n_real: usize) -> (r: usize)
    ensures
        r == (if bucket < batch_sizes@.len() {
            batch_sizes@[bucket as int]
        } else {
            n_real
        }),
{
    if bucket < batch_sizes.len() {
        batch_sizes[bucket]
    } else {
        n_real
    }
}

// Latencies.

/// Latency figures, in microseconds.
#[derive(Debug, Clone, Copy)]
pub struct LatencyStats {
    pub min: u64,
    pub p50: u64,
    pub p95: u64,
    pub p99: u64,
    pub max: u64,
    pub total: u128,
    pub count: u64,
}

/// Whether `sorted` holds the same numbers as `values`, in ascending order.
pub open spec fn puts_in_order(values: Seq<u64>, sorted: Seq<u64>) -> bool {
    &&& forall|i: int, j: int| 0 <= i <= j < sorted.len() ==> sorted[i] <= sorted[j]
    &&& sorted.to_multiset() == values.to_multiset()
}

/// There is only one way to put numbers in ascending order.
pub proof fn order_is_unique(values: Seq<u64>, a: Seq<u64>, b: Seq<u64>)
    requires
        puts_in_order(values, a),
        puts_in_order(values, b),
    ensures
        a == b,
{
    vstd::seq_lib::lemma_sorted_unique(a, b, |x: u64, y: u64| x <= y);
}

/// Calls `slice::sort_unstable`, which puts the numbers in ascending order.
#[verifier::external_body]
fn sort(values: &mut Vec<u64>)
    ensures
        puts_in_order(old(values)@, final(values)@),
{
    values.sort_unstable();
}

/// Which of `n` numbers in ascending order is the one that `percent` of a hundred are below.
pub open spec fn percentile_index(n: nat, percent: nat) -> int {
    (n * percent / 100) as int
}

/// The figures of latencies that stand in ascending order.
pub open spec fn latency_figures(sorted: Seq<u64>) -> LatencyStats {
    let n = sorted.len();
    LatencyStats {
        min: sorted[0],
        p50: sorted[(n / 2) as int],
        p95: sorted[percentile_index(n, 95)],
        p99: sorted[percentile_index(n, 99)],
        max: sorted[n - 1],
        total: sum_of(sorted) as u128,
        count: n as u64,
    }
}

/// The figures where there is no latency.
pub open spec fn no_latencies() -> LatencyStats {
    LatencyStats { min: 0, p50: 0, p95: 0, p99: 0, max: 0, total: 0, count: 0 }
}

impl Default for LatencyStats {
    fn default() -> (r: Self)
        ensures
            r == no_latencies(),
    {
        LatencyStats { min: 0, p50: 0, p95: 0, p99: 0, max: 0, total: 0, count: 0 }
    }
}

/// Which of `n` numbers in ascending order is the one that `percent` of a hundred are below.
pub fn percentile(n: usize, percent: usize) -> (r: usize)
    requires
        0 < n,
        percent < 100,
    ensures
        r == percentile_index(n as nat, percent as nat),
        r < n,
{
    let p: u128 = percent as u128;
    let m: u128 = n as u128;
    assert(m * p <= m * 100) by (nonlinear_arith)
        requires
            p < 100,
    ;
    assert(m * p < m * 100) by (nonlinear_arith)
        requires
            p < 100,
            m > 0,
    ;
    ((m * p) / 100) as usize
}

proof fn sum_is_bounded(values: Seq<u64>)
    ensures
        sum_of(values) <= values.len() * u64::MAX,
    decreases values.len(),
{
    if values.len() > 0 {
        sum_is_bounded(values.drop_last());
        assert((values.len() - 1) * u64::MAX + u64::MAX == values.len() * u64::MAX)
            by (nonlinear_arith);
    }
}

/// The figures of latencies in microseconds.
pub fn compute_latency_stats(latencies_us: Vec<u64>) -> (r: LatencyStats)
    ensures
        latencies_us@.len() == 0 ==> r == no_latencies(),
        latencies_us@.len() > 0 ==> exists|sorted: Seq<u64>|
            #[trigger] puts_in_order(latencies_us@, sorted) && r == latency_figures(sorted),
{
    let n: usize = latencies_us.len();
    if n == 0 {
        return LatencyStats::default();
    }
    let mut sorted = latencies_us;
    sort(&mut sorted);
    proof {
        broadcast use vstd::seq_lib::group_to_multiset_ensures;

        assert(sorted@.to_multiset().len() == latencies_us@.to_multiset().len());
        assert(sorted@.len() == n);
    }
    let mut total: u128 = 0;
    for i in 0..n
        invariant
            n == sorted@.len(),
            total == sum_of(sorted@.take(i as int)),
    {
        assert(sorted@.take(i + 1).drop_last() == sorted@.take(i as int));
        proof {
            sum_is_bounded(sorted@.take(i + 1));
            assert((i + 1) * u64::MAX <= n * u64::MAX) by (nonlinear_arith)
                requires
                    i < n,
            ;
            assert(n * u64::MAX <= u128::MAX) by (nonlinear_arith)
                requires
                    n <= u64::MAX,
            ;
        }
        total += sorted[i] as u128;
    }
    assert(sorted@.take(n as int) == sorted@);
    LatencyStats {
        min: sorted[0],
        p50: sorted[n / 2],
        p95: sorted[percentile(n, 95)],
        p99: sorted[percentile(n, 99)],
        max: sorted[n - 1],
        total,
        count: n as u64,
    }
}

/// Percentiles ascend: no figure is below a lower one.
pub proof fn latency_figures_ascend(sorted: Seq<u64>)
    requires
        sorted.len() > 0,
        forall|i: int, j: int| 0 <= i <= j < sorted.len() ==> sorted[i] <= sorted[j],
    ensures
        ({
            let f = latency_figures(sorted);
            f.min <= f.p50 <= f.p95 <= f.p99 <= f.max
        }),
{
    let n = sorted.len();
    assert(n / 2 <= n * 95 / 100 <= n * 99 / 100 <= n - 1);
}

// Laws.

/// Sums add up: the sum of numbers one after the other is the sum of both, and of one number is the
/// number.
pub proof fn sums_add_up(a: Seq<u64>, b: Seq<u64>, x: u64)
    ensures
        sum_of(a + b) == sum_of(a) + sum_of(b),
        sum_of(seq![x]) == x,
        sum_of(Seq::<u64>::empty()) == 0,
    decreases b.len(),
{
    assert(seq![x].drop_last() =~= Seq::<u64>::empty());
    assert(sum_of(seq![x].drop_last()) == 0);
    if b.len() == 0 {
        assert(a + b =~= a);
    } else {
        sums_add_up(a, b.drop_last(), x);
        assert((a + b).drop_last() =~= a + b.drop_last());
    }
}

/// The figures of latencies are what they are called: the least and the greatest are the first and
/// the last, no latency is outside of them, half of the latencies and 95 and 99 of a hundred are not
/// above their figures while the others are not below them, the total is the sum, and all count.
pub proof fn figures_divide_the_latencies(sorted: Seq<u64>, i: int)
    requires
        0 <= i < sorted.len() <= u64::MAX,
        forall|i: int, j: int| 0 <= i <= j < sorted.len() ==> sorted[i] <= sorted[j],
    ensures
        ({
            let f = latency_figures(sorted);
            let n = sorted.len() as int;
            &&& f.min <= sorted[i] <= f.max
            &&& sorted.contains(f.min) && sorted.contains(f.max) && sorted.contains(f.p50)
                && sorted.contains(f.p95) && sorted.contains(f.p99)
            &&& i * 2 <= n ==> sorted[i] <= f.p50
            &&& i * 2 >= n ==> sorted[i] >= f.p50
            &&& i * 100 <= n * 95 ==> sorted[i] <= f.p95
            &&& i * 100 >= n * 95 ==> sorted[i] >= f.p95
            &&& i * 100 <= n * 99 ==> sorted[i] <= f.p99
            &&& i * 100 >= n * 99 ==> sorted[i] >= f.p99
            &&& f.count == n
            &&& f.total == sum_of(sorted)
        }),
{
    let n = sorted.len() as int;
    let f = latency_figures(sorted);
    let a = n / 2;
    let b = n * 95 / 100;
    let c = n * 99 / 100;
    assert(0 <= a < n && 0 <= b < n && 0 <= c < n);
    assert(sorted[0] == f.min && sorted[n - 1] == f.max && sorted[a] == f.p50 && sorted[b] == f.p95
        && sorted[c] == f.p99);
    sum_is_bounded(sorted);
    assert(n * u64::MAX <= u128::MAX) by (nonlinear_arith)
        requires
            0 <= n <= u64::MAX,
    ;
}

/// A batch is counted once, in its own bucket: the batches and messages of that bucket and in all
/// grow by one and by the messages of the batch, the room by its room, and its latency is the last.
pub proof fn batch_is_counted_in_its_bucket(
    before: GpuWorkerStats,
    after: GpuWorkerStats,
    bucket: usize,
    n_real: usize,
    capacity: usize,
    latency_us: u64,
    other: int,
)
    requires
        before.valid(),
        after.counted(before, bucket, n_real, capacity, latency_us),
        bucket < before.per_bucket_batches@.len(),
        0 <= other < before.per_bucket_batches@.len(),
        before.batches < 0x8000_0000_0000_0000,
        before.total_rows + n_real < 0x8000_0000_0000_0000,
    ensures
        after.batches == before.batches + 1,
        after.total_rows == before.total_rows + n_real,
        after.total_capacity == before.total_capacity + capacity,
        after.latencies_us@ == before.latencies_us@ + seq![latency_us],
        after.per_bucket_batches@.len() == before.per_bucket_batches@.len(),
        other != bucket ==> after.per_bucket_batches@[other] == before.per_bucket_batches@[other]
            && after.per_bucket_messages@[other] == before.per_bucket_messages@[other],
        after.per_bucket_batches@[bucket as int] == before.per_bucket_batches@[bucket as int] + 1,
        after.per_bucket_messages@[bucket as int] == before.per_bucket_messages@[bucket as int]
            + n_real,
{
    let b = bucket as int;
    sum_after_update(before.per_bucket_batches@, b, 0);
    sum_after_update(before.per_bucket_messages@, b, 0);
    assert(before.latencies_us@.push(latency_us) =~= before.latencies_us@ + seq![latency_us]);
}

/// Latencies in order ascend, are the same latencies, each as often, and have the same sum.
pub proof fn order_keeps_every_latency(values: Seq<u64>, sorted: Seq<u64>, x: u64)
    requires
        puts_in_order(values, sorted),
    ensures
        sorted.len() == values.len(),
        forall|i: int, j: int| 0 <= i <= j < sorted.len() ==> sorted[i] <= sorted[j],
        values.to_multiset().count(x) == sorted.to_multiset().count(x),
        values.contains(x) <==> sorted.contains(x),
        sum_of(sorted) == sum_of(values),
{
    broadcast use vstd::seq_lib::group_to_multiset_ensures;

    assert(values.len() == values.to_multiset().len());
    assert(sorted.len() == sorted.to_multiset().len());
    assert(values.contains(x) <==> values.to_multiset().count(x) > 0);
    assert(sorted.contains(x) <==> sorted.to_multiset().count(x) > 0);
    sum_in_any_order(values, sorted);
}

proof fn sum_in_any_order(a: Seq<u64>, b: Seq<u64>)
    requires
        a.to_multiset() == b.to_multiset(),
    ensures
        sum_of(a) == sum_of(b),
    decreases a.len(),
{
    broadcast use vstd::seq_lib::group_to_multiset_ensures;

    assert(a.len() == a.to_multiset().len());
    assert(b.len() == b.to_multiset().len());
    if a.len() > 0 {
        let x = a.last();
        assert(a[a.len() - 1] == x);
        assert(a.contains(x));
        assert(b.to_multiset().count(x) > 0);
        assert(b.contains(x));
        let i = choose|i: int| 0 <= i < b.len() && b[i] == x;
        let (left, right) = (b.take(i), b.skip(i + 1));
        assert(b =~= left + seq![x] + right);
        assert(b.remove(i) =~= left + right);
        assert(a.remove(a.len() - 1) =~= a.drop_last());
        assert(a.remove(a.len() - 1).to_multiset() == a.to_multiset().remove(x));
        assert(b.remove(i).to_multiset() == b.to_multiset().remove(x));
        sum_in_any_order(a.drop_last(), b.remove(i));
        sums_add_up(left + seq![x], right, x);
        sums_add_up(left, seq![x], x);
        sums_add_up(left, right, x);
    }
}

/// There is room for a batch as long as no count is too large to be held.
pub proof fn room_until_a_count_is_full(stats: GpuWorkerStats, n_real: nat, capacity: nat)
    ensures
        stats.room_for(n_real, capacity) <==> stats.batches + 1 <= u64::MAX && stats.total_rows
            + n_real <= u64::MAX && stats.total_capacity + capacity <= u64::MAX,
{
}

}
