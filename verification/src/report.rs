//! The report of a run: what its workers have counted, brought together, and as JSON.

use vstd::prelude::*;
use vstd::string::StringExecFns;

use crate::dedup::{occupied, EmbedCacheInner};
use crate::number::{
    decimal, decimal_is_digits, decimal_reads_back, number_value, to_decimal, NumberError,
};
use crate::stats::{
    checked_sum, compute_latency_stats, latency_figures, no_latencies, order_keeps_every_latency,
    puts_in_order, sum_of, GpuWorkerStats, LatencyStats,
};
use crate::text::{join, joined, joined_pieces_are_cut_apart, pieces, texts, Separator};
use crate::worker::WorkerTotals;

verus! {

/// Statistics from an embed run. Times are whole numbers: the run's in nanoseconds, the latencies
/// in microseconds.
#[derive(Debug)]
pub struct EmbedStats {
    pub messages_processed: u64,
    pub messages_skipped: u64,
    pub batches_computed: u64,
    pub cache_hits: u64,
    pub cache_misses: u64,
    pub runtime_cache_hits: u64,
    pub runtime_cache_size: u64,
    pub dedup_hits: u64,
    pub dedup_size: u64,
    pub elapsed_ns: u64,
    pub per_gpu_batches: Vec<u64>,
    pub per_bucket_batches: Vec<u64>,
    pub per_bucket_messages: Vec<u64>,
    pub inference_latency: LatencyStats,
    pub total_rows: u64,
    pub total_capacity: u64,
    pub n_gpus: usize,
    pub n_buckets: usize,
}

/// What is known of the run as a whole.
pub struct RunCounters {
    pub dedup_size: u64,
    pub elapsed_ns: u64,
    pub n_gpus: usize,
    pub n_buckets: usize,
}

impl RunCounters {
    /// What is known of a run at its end. Without a dedup cache none of its slots is taken.
    pub fn new<T: Copy>(
        dedup: Option<&EmbedCacheInner<T>>,
        elapsed_ns: u64,
        n_gpus: usize,
        n_buckets: usize,
    ) -> (r: Self)
        ensures
            r.dedup_size == match dedup {
                Some(cache) => occupied(cache.slots()),
                None => 0,
            },
            r.elapsed_ns == elapsed_ns,
            r.n_gpus == n_gpus,
            r.n_buckets == n_buckets,
    {
        let dedup_size: u64 = match dedup {
            Some(cache) => cache.occupancy() as u64,
            None => 0,
        };
        RunCounters { dedup_size, elapsed_ns, n_gpus, n_buckets }
    }
}

/// What a bucket has of a list with one number for each bucket, or zero if the list is shorter.
pub open spec fn at_bucket(list: Seq<u64>, bucket: int) -> u64 {
    if bucket < list.len() {
        list[bucket]
    } else {
        0
    }
}

/// The batches of one bucket in each worker.
pub open spec fn bucket_batches(gpus: Seq<GpuWorkerStats>, bucket: int) -> Seq<u64> {
    gpus.map_values(|g: GpuWorkerStats| at_bucket(g.per_bucket_batches@, bucket))
}

/// The messages of one bucket in each worker.
pub open spec fn bucket_messages(gpus: Seq<GpuWorkerStats>, bucket: int) -> Seq<u64> {
    gpus.map_values(|g: GpuWorkerStats| at_bucket(g.per_bucket_messages@, bucket))
}

/// The latencies of all workers, one worker after the other.
pub open spec fn all_latencies(gpus: Seq<GpuWorkerStats>) -> Seq<u64>
    decreases gpus.len(),
{
    if gpus.len() == 0 {
        Seq::empty()
    } else {
        all_latencies(gpus.drop_last()) + gpus.last().latencies_us@
    }
}

/// Whether `r` is the figures of latencies in any order.
pub open spec fn has_figures(latencies: Seq<u64>, r: LatencyStats) -> bool {
    &&& latencies.len() == 0 ==> r == no_latencies()
    &&& latencies.len() > 0 ==> exists|sorted: Seq<u64>|
        #[trigger] puts_in_order(latencies, sorted) && r == latency_figures(sorted)
}

/// Whether every sum that a report holds is small enough to be held.
pub open spec fn sums_fit(
    tokenizers: Seq<WorkerTotals>,
    gpus: Seq<GpuWorkerStats>,
    n_buckets: nat,
) -> bool {
    &&& sum_of(tokenizers.map_values(|t: WorkerTotals| t.processed)) <= u64::MAX
    &&& sum_of(tokenizers.map_values(|t: WorkerTotals| t.skipped)) <= u64::MAX
    &&& sum_of(tokenizers.map_values(|t: WorkerTotals| t.dedup_hits)) <= u64::MAX
    &&& sum_of(tokenizers.map_values(|t: WorkerTotals| t.hits)) <= u64::MAX
    &&& sum_of(tokenizers.map_values(|t: WorkerTotals| t.misses)) <= u64::MAX
    &&& sum_of(tokenizers.map_values(|t: WorkerTotals| t.runtime_hits)) <= u64::MAX
    &&& sum_of(tokenizers.map_values(|t: WorkerTotals| t.runtime_size)) <= u64::MAX
    &&& sum_of(gpus.map_values(|g: GpuWorkerStats| g.batches)) <= u64::MAX
    &&& sum_of(gpus.map_values(|g: GpuWorkerStats| g.total_rows)) <= u64::MAX
    &&& sum_of(gpus.map_values(|g: GpuWorkerStats| g.total_capacity)) <= u64::MAX
    &&& forall|b: int|
        0 <= b < n_buckets ==> sum_of(#[trigger] bucket_batches(gpus, b)) <= u64::MAX
    &&& forall|b: int|
        0 <= b < n_buckets ==> sum_of(#[trigger] bucket_messages(gpus, b)) <= u64::MAX
}

/// The sum, over all workers, for each bucket.
fn bucket_sums(gpus: &Vec<GpuWorkerStats>, n_buckets: usize) -> (r: Option<(Vec<u64>, Vec<u64>)>)
    ensures
        match r {
            Some((batches, messages)) => {
                &&& batches@.len() == n_buckets
                &&& messages@.len() == n_buckets
                &&& forall|b: int|
                    0 <= b < n_buckets ==> #[trigger] batches@[b] == sum_of(bucket_batches(gpus@, b))
                &&& forall|b: int|
                    0 <= b < n_buckets ==> #[trigger] messages@[b] == sum_of(
                        bucket_messages(gpus@, b),
                    )
            },
            None => exists|b: int|
                0 <= b < n_buckets && (sum_of(#[trigger] bucket_batches(gpus@, b)) > u64::MAX
                    || sum_of(bucket_messages(gpus@, b)) > u64::MAX),
        },
{
    let mut batches: Vec<u64> = Vec::new();
    let mut messages: Vec<u64> = Vec::new();
    for b in 0..n_buckets
        invariant
            batches@.len() == b,
            messages@.len() == b,
            forall|k: int|
                0 <= k < b ==> #[trigger] batches@[k] == sum_of(bucket_batches(gpus@, k)),
            forall|k: int|
                0 <= k < b ==> #[trigger] messages@[k] == sum_of(bucket_messages(gpus@, k)),
    {
        let mut of_batches: Vec<u64> = Vec::new();
        let mut of_messages: Vec<u64> = Vec::new();
        for i in 0..gpus.len()
            invariant
                of_batches@ == bucket_batches(gpus@, b as int).take(i as int),
                of_messages@ == bucket_messages(gpus@, b as int).take(i as int),
        {
            let g = &gpus[i];
            of_batches.push(
                if b < g.per_bucket_batches.len() {
                    g.per_bucket_batches[b]
                } else {
                    0
                },
            );
            of_messages.push(
                if b < g.per_bucket_messages.len() {
                    g.per_bucket_messages[b]
                } else {
                    0
                },
            );
        }
        assert(of_batches@ == bucket_batches(gpus@, b as int));
        assert(of_messages@ == bucket_messages(gpus@, b as int));
        match (checked_sum(&of_batches), checked_sum(&of_messages)) {
            (Some(x), Some(y)) => {
                batches.push(x);
                messages.push(y);
            },
            _ => {
                return None;
            },
        }
    }
    Some((batches, messages))
}

/// Whether `stats` is the report of what the workers have counted.
pub open spec fn reports(
    tokenizers: Seq<WorkerTotals>,
    gpus: Seq<GpuWorkerStats>,
    run: RunCounters,
    stats: EmbedStats,
) -> bool {
    &&& stats.messages_processed == sum_of(
        tokenizers.map_values(|t: WorkerTotals| t.processed),
    )
    &&& stats.messages_skipped == sum_of(tokenizers.map_values(|t: WorkerTotals| t.skipped))
    &&& stats.batches_computed == sum_of(gpus.map_values(|g: GpuWorkerStats| g.batches))
    &&& stats.dedup_hits == sum_of(tokenizers.map_values(|t: WorkerTotals| t.dedup_hits))
    &&& stats.dedup_size == run.dedup_size
    &&& stats.elapsed_ns == run.elapsed_ns
    &&& stats.n_gpus == run.n_gpus
    &&& stats.n_buckets == run.n_buckets
    &&& stats.cache_hits == sum_of(tokenizers.map_values(|t: WorkerTotals| t.hits))
    &&& stats.cache_misses == sum_of(tokenizers.map_values(|t: WorkerTotals| t.misses))
    &&& stats.runtime_cache_hits == sum_of(
        tokenizers.map_values(|t: WorkerTotals| t.runtime_hits),
    )
    &&& stats.runtime_cache_size == sum_of(
        tokenizers.map_values(|t: WorkerTotals| t.runtime_size),
    )
    &&& stats.total_rows == sum_of(gpus.map_values(|g: GpuWorkerStats| g.total_rows))
    &&& stats.total_capacity == sum_of(gpus.map_values(|g: GpuWorkerStats| g.total_capacity))
    &&& stats.per_gpu_batches@ == gpus.map_values(|g: GpuWorkerStats| g.batches)
    &&& stats.per_bucket_batches@ == Seq::new(
        run.n_buckets as nat,
        |b: int| sum_of(bucket_batches(gpus, b)) as u64,
    )
    &&& stats.per_bucket_messages@ == Seq::new(
        run.n_buckets as nat,
        |b: int| sum_of(bucket_messages(gpus, b)) as u64,
    )
    &&& has_figures(all_latencies(gpus), stats.inference_latency)
}

/// Brings together what the workers have counted. There is no report if a sum is too large to be
/// held.
pub fn summarize(
    tokenizers: &Vec<WorkerTotals>,
    gpus: &Vec<GpuWorkerStats>,
    run: &RunCounters,
) -> (r: Option<EmbedStats>)
    ensures
        r is Some <==> sums_fit(tokenizers@, gpus@, run.n_buckets as nat),
        r matches Some(stats) ==> reports(tokenizers@, gpus@, *run, stats),
{
    let mut processed: Vec<u64> = Vec::new();
    let mut skipped: Vec<u64> = Vec::new();
    let mut reused: Vec<u64> = Vec::new();
    let mut hits: Vec<u64> = Vec::new();
    let mut misses: Vec<u64> = Vec::new();
    let mut runtime_hits: Vec<u64> = Vec::new();
    let mut runtime_sizes: Vec<u64> = Vec::new();
    let nt: usize = tokenizers.len();
    for i in 0..nt
        invariant
            nt == tokenizers@.len(),
            processed@ == tokenizers@.map_values(|t: WorkerTotals| t.processed).take(i as int),
            skipped@ == tokenizers@.map_values(|t: WorkerTotals| t.skipped).take(i as int),
            reused@ == tokenizers@.map_values(|t: WorkerTotals| t.dedup_hits).take(i as int),
            hits@ == tokenizers@.map_values(|t: WorkerTotals| t.hits).take(i as int),
            misses@ == tokenizers@.map_values(|t: WorkerTotals| t.misses).take(i as int),
            runtime_hits@ == tokenizers@.map_values(|t: WorkerTotals| t.runtime_hits).take(
                i as int,
            ),
            runtime_sizes@ == tokenizers@.map_values(|t: WorkerTotals| t.runtime_size).take(
                i as int,
            ),
    {
        let t = &tokenizers[i];
        processed.push(t.processed);
        skipped.push(t.skipped);
        reused.push(t.dedup_hits);
        hits.push(t.hits);
        misses.push(t.misses);
        runtime_hits.push(t.runtime_hits);
        runtime_sizes.push(t.runtime_size);
    }
    assert(processed@ == tokenizers@.map_values(|t: WorkerTotals| t.processed));
    assert(skipped@ == tokenizers@.map_values(|t: WorkerTotals| t.skipped));
    assert(reused@ == tokenizers@.map_values(|t: WorkerTotals| t.dedup_hits));
    assert(hits@ == tokenizers@.map_values(|t: WorkerTotals| t.hits));
    assert(misses@ == tokenizers@.map_values(|t: WorkerTotals| t.misses));
    assert(runtime_hits@ == tokenizers@.map_values(|t: WorkerTotals| t.runtime_hits));
    assert(runtime_sizes@ == tokenizers@.map_values(|t: WorkerTotals| t.runtime_size));

    let mut rows: Vec<u64> = Vec::new();
    let mut capacities: Vec<u64> = Vec::new();
    let mut per_gpu_batches: Vec<u64> = Vec::new();
    let mut latencies: Vec<u64> = Vec::new();
    let ng: usize = gpus.len();
    for i in 0..ng
        invariant
            ng == gpus@.len(),
            rows@ == gpus@.map_values(|g: GpuWorkerStats| g.total_rows).take(i as int),
            capacities@ == gpus@.map_values(|g: GpuWorkerStats| g.total_capacity).take(i as int),
            per_gpu_batches@ == gpus@.map_values(|g: GpuWorkerStats| g.batches).take(i as int),
            latencies@ == all_latencies(gpus@.take(i as int)),
    {
        assert(gpus@.take(i + 1).drop_last() == gpus@.take(i as int));
        let g = &gpus[i];
        rows.push(g.total_rows);
        capacities.push(g.total_capacity);
        per_gpu_batches.push(g.batches);
        let mut more = g.latencies_us.clone();
        assert(more@ == g.latencies_us@);
        latencies.append(&mut more);
    }
    assert(rows@ == gpus@.map_values(|g: GpuWorkerStats| g.total_rows));
    assert(capacities@ == gpus@.map_values(|g: GpuWorkerStats| g.total_capacity));
    assert(per_gpu_batches@ == gpus@.map_values(|g: GpuWorkerStats| g.batches));
    assert(gpus@.take(ng as int) == gpus@);

    let messages_processed: u64 = match checked_sum(&processed) {
        Some(sum) => sum,
        None => {
            return None;
        },
    };
    let messages_skipped: u64 = match checked_sum(&skipped) {
        Some(sum) => sum,
        None => {
            return None;
        },
    };
    let dedup_hits: u64 = match checked_sum(&reused) {
        Some(sum) => sum,
        None => {
            return None;
        },
    };
    let batches_computed: u64 = match checked_sum(&per_gpu_batches) {
        Some(sum) => sum,
        None => {
            return None;
        },
    };
    let cache_hits: u64 = match checked_sum(&hits) {
        Some(sum) => sum,
        None => {
            return None;
        },
    };
    let cache_misses: u64 = match checked_sum(&misses) {
        Some(sum) => sum,
        None => {
            return None;
        },
    };
    let runtime_cache_hits: u64 = match checked_sum(&runtime_hits) {
        Some(sum) => sum,
        None => {
            return None;
        },
    };
    let runtime_cache_size: u64 = match checked_sum(&runtime_sizes) {
        Some(sum) => sum,
        None => {
            return None;
        },
    };
    let total_rows: u64 = match checked_sum(&rows) {
        Some(sum) => sum,
        None => {
            return None;
        },
    };
    let total_capacity: u64 = match checked_sum(&capacities) {
        Some(sum) => sum,
        None => {
            return None;
        },
    };
    let (per_bucket_batches, per_bucket_messages) = match bucket_sums(gpus, run.n_buckets) {
        Some(sums) => sums,
        None => {
            return None;
        },
    };
    proof {
        assert forall|b: int| 0 <= b < run.n_buckets implies sum_of(
            #[trigger] bucket_batches(gpus@, b),
        ) <= u64::MAX by {
            assert(per_bucket_batches@[b] == sum_of(bucket_batches(gpus@, b)));
        }
        assert forall|b: int| 0 <= b < run.n_buckets implies sum_of(
            #[trigger] bucket_messages(gpus@, b),
        ) <= u64::MAX by {
            assert(per_bucket_messages@[b] == sum_of(bucket_messages(gpus@, b)));
        }
        assert(per_bucket_batches@ == Seq::new(
            run.n_buckets as nat,
            |b: int| sum_of(bucket_batches(gpus@, b)) as u64,
        ));
        assert(per_bucket_messages@ == Seq::new(
            run.n_buckets as nat,
            |b: int| sum_of(bucket_messages(gpus@, b)) as u64,
        ));
    }
    Some(
        EmbedStats {
            messages_processed,
            messages_skipped,
            batches_computed,
            cache_hits,
            cache_misses,
            runtime_cache_hits,
            runtime_cache_size,
            dedup_hits,
            dedup_size: run.dedup_size,
            elapsed_ns: run.elapsed_ns,
            per_gpu_batches,
            per_bucket_batches,
            per_bucket_messages,
            inference_latency: compute_latency_stats(latencies),
            total_rows,
            total_capacity,
            n_gpus: run.n_gpus,
            n_buckets: run.n_buckets,
        },
    )
}

// As JSON.

/// The figures of a report that are not whole numbers, as text: seconds, messages per second,
/// ratios and milliseconds.
pub struct Figures {
    pub elapsed_secs: String,
    pub throughput: String,
    pub cache_hit_rate: String,
    pub avg_batch_fill: String,
    pub min: String,
    pub p50: String,
    pub p95: String,
    pub p99: String,
    pub max: String,
    pub mean: String,
}

/// A member of a JSON object.
pub open spec fn member(name: Seq<char>, value: Seq<char>) -> Seq<char> {
    "\""@ + name + "\":"@ + value
}

/// A JSON object of the given members.
pub open spec fn object(members: Seq<Seq<char>>) -> Seq<char> {
    "{"@ + joined(members, ","@) + "}"@
}

/// A JSON array of numbers.
pub open spec fn array(values: Seq<u64>) -> Seq<char> {
    "["@ + joined(values.map_values(|v: u64| decimal(v as nat)), ","@) + "]"@
}

fn to_member(name: &str, value: &str) -> (r: String)
    ensures
        r@ == member(name@, value@),
{
    let mut out = "\"".to_owned();
    out.append(name);
    out.append("\":");
    out.append(value);
    out
}

fn to_count(name: &str, value: u64) -> (r: String)
    ensures
        r@ == member(name@, decimal(value as nat)),
{
    to_member(name, to_decimal(value).as_str())
}

fn to_object(members: &Vec<String>) -> (r: String)
    ensures
        r@ == object(texts(members@)),
{
    let mut out = "{".to_owned();
    out.append(join(members, ",").as_str());
    out.append("}");
    out
}

fn to_array(values: &Vec<u64>) -> (r: String)
    ensures
        r@ == array(values@),
{
    let ghost all = values@.map_values(|v: u64| decimal(v as nat));
    let mut items: Vec<String> = Vec::new();
    for i in 0..values.len()
        invariant
            all == values@.map_values(|v: u64| decimal(v as nat)),
            texts(items@) == all.take(i as int),
    {
        let ghost before = items@;
        items.push(to_decimal(values[i]));
        assert(texts(items@) == texts(before).push(all[i as int]));
    }
    assert(all.take(all.len() as int) == all);
    let mut out = "[".to_owned();
    out.append(join(&items, ",").as_str());
    out.append("]");
    out
}

/// The members of the latency figures.
pub open spec fn latency_members(figures: Figures, count: u64) -> Seq<Seq<char>> {
    seq![
        member("min"@, figures.min@),
        member("p50"@, figures.p50@),
        member("p95"@, figures.p95@),
        member("p99"@, figures.p99@),
        member("max"@, figures.max@),
        member("mean"@, figures.mean@),
        member("count"@, decimal(count as nat)),
    ]
}

fn latency_json(figures: &Figures, count: u64) -> (r: String)
    ensures
        r@ == object(latency_members(*figures, count)),
{
    let mut m: Vec<String> = Vec::new();
    m.push(to_member("min", figures.min.as_str()));
    m.push(to_member("p50", figures.p50.as_str()));
    m.push(to_member("p95", figures.p95.as_str()));
    m.push(to_member("p99", figures.p99.as_str()));
    m.push(to_member("max", figures.max.as_str()));
    m.push(to_member("mean", figures.mean.as_str()));
    m.push(to_count("count", count));
    assert(texts(m@) == latency_members(*figures, count));
    to_object(&m)
}

impl EmbedStats {
    /// The members of the report, in their order.
    pub open spec fn members(self, figures: Figures) -> Seq<Seq<char>> {
        seq![
            member("messages_processed"@, decimal(self.messages_processed as nat)),
            member("messages_skipped"@, decimal(self.messages_skipped as nat)),
            member("batches_computed"@, decimal(self.batches_computed as nat)),
            member("elapsed_secs"@, figures.elapsed_secs@),
            member("throughput"@, figures.throughput@),
            member("cache_hit_rate"@, figures.cache_hit_rate@),
            member("cache_hits"@, decimal(self.cache_hits as nat)),
            member("cache_misses"@, decimal(self.cache_misses as nat)),
            member("runtime_cache_hits"@, decimal(self.runtime_cache_hits as nat)),
            member("runtime_cache_size"@, decimal(self.runtime_cache_size as nat)),
            member("dedup_hits"@, decimal(self.dedup_hits as nat)),
            member("dedup_size"@, decimal(self.dedup_size as nat)),
            member("n_gpus"@, decimal(self.n_gpus as nat)),
            member("n_buckets"@, decimal(self.n_buckets as nat)),
            member("per_gpu_batches"@, array(self.per_gpu_batches@)),
            member("per_bucket_batches"@, array(self.per_bucket_batches@)),
            member("per_bucket_messages"@, array(self.per_bucket_messages@)),
            member("avg_batch_fill"@, figures.avg_batch_fill@),
            member(
                "inference_latency_ms"@,
                object(latency_members(figures, self.inference_latency.count)),
            ),
        ]
    }

    /// The report as one line of JSON, with the given figures for what is not a whole number.
    pub fn to_json(&self, figures: &Figures) -> (r: String)
        ensures
            r@ == object(self.members(*figures)),
    {
        let mut m: Vec<String> = Vec::new();
        m.push(to_count("messages_processed", self.messages_processed));
        m.push(to_count("messages_skipped", self.messages_skipped));
        m.push(to_count("batches_computed", self.batches_computed));
        m.push(to_member("elapsed_secs", figures.elapsed_secs.as_str()));
        m.push(to_member("throughput", figures.throughput.as_str()));
        m.push(to_member("cache_hit_rate", figures.cache_hit_rate.as_str()));
        m.push(to_count("cache_hits", self.cache_hits));
        m.push(to_count("cache_misses", self.cache_misses));
        m.push(to_count("runtime_cache_hits", self.runtime_cache_hits));
        m.push(to_count("runtime_cache_size", self.runtime_cache_size));
        m.push(to_count("dedup_hits", self.dedup_hits));
        m.push(to_count("dedup_size", self.dedup_size));
        m.push(to_count("n_gpus", self.n_gpus as u64));
        m.push(to_count("n_buckets", self.n_buckets as u64));
        m.push(to_member("per_gpu_batches", to_array(&self.per_gpu_batches).as_str()));
        m.push(to_member("per_bucket_batches", to_array(&self.per_bucket_batches).as_str()));
        m.push(to_member("per_bucket_messages", to_array(&self.per_bucket_messages).as_str()));
        m.push(to_member("avg_batch_fill", figures.avg_batch_fill.as_str()));
        let latency = latency_json(figures, self.inference_latency.count);
        m.push(to_member("inference_latency_ms", latency.as_str()));
        assert(texts(m@) == self.members(*figures));
        to_object(&m)
    }

    /// The hits of the word cache and all lookups, of which the first is a share, or none where
    /// there were no lookups or too many to count.
    pub fn cache_share(&self) -> (r: Option<(u64, u64)>)
        ensures
            r == (if 0 < self.cache_hits + self.cache_misses <= u64::MAX {
                Some((self.cache_hits, (self.cache_hits + self.cache_misses) as u64))
            } else {
                None::<(u64, u64)>
            }),
    {
        match self.cache_hits.checked_add(self.cache_misses) {
            Some(total) if total > 0 => Some((self.cache_hits, total)),
            _ => None,
        }
    }

    /// The rows of all batches and the room that there was in them, of which the first is a share,
    /// or none where there was no room.
    pub fn fill_share(&self) -> (r: Option<(u64, u64)>)
        ensures
            r == (if self.total_capacity > 0 {
                Some((self.total_rows, self.total_capacity))
            } else {
                None::<(u64, u64)>
            }),
    {
        if self.total_capacity > 0 {
            Some((self.total_rows, self.total_capacity))
        } else {
            None
        }
    }
}

/// The batches of the first `n` buckets in all workers.
pub open spec fn batches_by_bucket(gpus: Seq<GpuWorkerStats>, n: nat) -> nat
    decreases n,
{
    if n == 0 {
        0
    } else {
        batches_by_bucket(gpus, (n - 1) as nat) + sum_of(bucket_batches(gpus, n - 1))
    }
}

/// The messages of the first `n` buckets in all workers.
pub open spec fn messages_by_bucket(gpus: Seq<GpuWorkerStats>, n: nat) -> nat
    decreases n,
{
    if n == 0 {
        0
    } else {
        messages_by_bucket(gpus, (n - 1) as nat) + sum_of(bucket_messages(gpus, n - 1))
    }
}

proof fn last_worker_adds(gpus: Seq<GpuWorkerStats>, n: nat)
    requires
        gpus.len() > 0,
        n <= gpus.last().per_bucket_batches@.len(),
        n <= gpus.last().per_bucket_messages@.len(),
    ensures
        batches_by_bucket(gpus, n) == batches_by_bucket(gpus.drop_last(), n) + sum_of(
            gpus.last().per_bucket_batches@.take(n as int),
        ),
        messages_by_bucket(gpus, n) == messages_by_bucket(gpus.drop_last(), n) + sum_of(
            gpus.last().per_bucket_messages@.take(n as int),
        ),
    decreases n,
{
    if n > 0 {
        let k = (n - 1) as nat;
        let front = gpus.drop_last();
        let b = gpus.last().per_bucket_batches@;
        let m = gpus.last().per_bucket_messages@;
        last_worker_adds(gpus, k);
        assert(b.take(n as int).drop_last() == b.take(k as int));
        assert(m.take(n as int).drop_last() == m.take(k as int));
        assert(bucket_batches(gpus, k as int).drop_last() == bucket_batches(front, k as int));
        assert(bucket_messages(gpus, k as int).drop_last() == bucket_messages(front, k as int));
    }
}

proof fn no_workers_no_batches(gpus: Seq<GpuWorkerStats>, n: nat)
    requires
        gpus.len() == 0,
    ensures
        batches_by_bucket(gpus, n) == 0,
        messages_by_bucket(gpus, n) == 0,
    decreases n,
{
    if n > 0 {
        no_workers_no_batches(gpus, (n - 1) as nat);
    }
}

/// The batches and messages of all buckets are the batches and messages of all workers.
pub proof fn buckets_and_workers_agree(gpus: Seq<GpuWorkerStats>, n: nat)
    requires
        forall|i: int|
            0 <= i < gpus.len() ==> (#[trigger] gpus[i]).valid() && gpus[i].per_bucket_batches@.len()
                == n,
    ensures
        batches_by_bucket(gpus, n) == sum_of(gpus.map_values(|g: GpuWorkerStats| g.batches)),
        messages_by_bucket(gpus, n) == sum_of(gpus.map_values(|g: GpuWorkerStats| g.total_rows)),
    decreases gpus.len(),
{
    let batches = gpus.map_values(|g: GpuWorkerStats| g.batches);
    let rows = gpus.map_values(|g: GpuWorkerStats| g.total_rows);
    if gpus.len() == 0 {
        no_workers_no_batches(gpus, n);
    } else {
        let front = gpus.drop_last();
        let last = gpus.last();
        assert(gpus[gpus.len() - 1].valid());
        assert forall|i: int| 0 <= i < front.len() implies (#[trigger] front[i]).valid()
            && front[i].per_bucket_batches@.len() == n by {
            assert(front[i] == gpus[i]);
        }
        buckets_and_workers_agree(front, n);
        last_worker_adds(gpus, n);
        assert(last.per_bucket_batches@.take(n as int) == last.per_bucket_batches@);
        assert(last.per_bucket_messages@.take(n as int) == last.per_bucket_messages@);
        assert(batches.drop_last() == front.map_values(|g: GpuWorkerStats| g.batches));
        assert(rows.drop_last() == front.map_values(|g: GpuWorkerStats| g.total_rows));
    }
}

// Laws.

/// Every worker counts in full: with one more tokenizer worker each sum grows by what that worker
/// has counted, and with one more GPU worker by what that one has. Without workers all is zero.
pub proof fn every_worker_counts(
    tokenizers: Seq<WorkerTotals>,
    t: WorkerTotals,
    gpus: Seq<GpuWorkerStats>,
    g: GpuWorkerStats,
    run: RunCounters,
    before: EmbedStats,
    after: EmbedStats,
)
    requires
        reports(tokenizers, gpus, run, before),
        reports(tokenizers.push(t), gpus.push(g), run, after),
    ensures
        after.messages_processed == before.messages_processed + t.processed,
        after.messages_skipped == before.messages_skipped + t.skipped,
        after.dedup_hits == before.dedup_hits + t.dedup_hits,
        after.cache_hits == before.cache_hits + t.hits,
        after.cache_misses == before.cache_misses + t.misses,
        after.runtime_cache_hits == before.runtime_cache_hits + t.runtime_hits,
        after.runtime_cache_size == before.runtime_cache_size + t.runtime_size,
        after.batches_computed == before.batches_computed + g.batches,
        after.total_rows == before.total_rows + g.total_rows,
        after.total_capacity == before.total_capacity + g.total_capacity,
        after.per_gpu_batches@ == before.per_gpu_batches@.push(g.batches),
        after.dedup_size == run.dedup_size && after.elapsed_ns == run.elapsed_ns && after.n_gpus
            == run.n_gpus && after.n_buckets == run.n_buckets,
        tokenizers.len() == 0 ==> before.messages_processed == 0 && before.messages_skipped == 0
            && before.dedup_hits == 0 && before.cache_hits == 0 && before.cache_misses == 0
            && before.runtime_cache_hits == 0 && before.runtime_cache_size == 0,
        gpus.len() == 0 ==> before.batches_computed == 0 && before.total_rows == 0
            && before.total_capacity == 0 && before.inference_latency.count == 0,
{
    let ts = tokenizers.push(t);
    let gs = gpus.push(g);
    one_more_in_sum(
        ts.map_values(|x: WorkerTotals| x.processed),
        tokenizers.map_values(|x: WorkerTotals| x.processed),
    );
    one_more_in_sum(
        ts.map_values(|x: WorkerTotals| x.skipped),
        tokenizers.map_values(|x: WorkerTotals| x.skipped),
    );
    one_more_in_sum(
        ts.map_values(|x: WorkerTotals| x.dedup_hits),
        tokenizers.map_values(|x: WorkerTotals| x.dedup_hits),
    );
    one_more_in_sum(
        ts.map_values(|x: WorkerTotals| x.hits),
        tokenizers.map_values(|x: WorkerTotals| x.hits),
    );
    one_more_in_sum(
        ts.map_values(|x: WorkerTotals| x.misses),
        tokenizers.map_values(|x: WorkerTotals| x.misses),
    );
    one_more_in_sum(
        ts.map_values(|x: WorkerTotals| x.runtime_hits),
        tokenizers.map_values(|x: WorkerTotals| x.runtime_hits),
    );
    one_more_in_sum(
        ts.map_values(|x: WorkerTotals| x.runtime_size),
        tokenizers.map_values(|x: WorkerTotals| x.runtime_size),
    );
    one_more_in_sum(
        gs.map_values(|x: GpuWorkerStats| x.batches),
        gpus.map_values(|x: GpuWorkerStats| x.batches),
    );
    one_more_in_sum(
        gs.map_values(|x: GpuWorkerStats| x.total_rows),
        gpus.map_values(|x: GpuWorkerStats| x.total_rows),
    );
    one_more_in_sum(
        gs.map_values(|x: GpuWorkerStats| x.total_capacity),
        gpus.map_values(|x: GpuWorkerStats| x.total_capacity),
    );
    assert(gs.map_values(|x: GpuWorkerStats| x.batches) =~= gpus.map_values(
        |x: GpuWorkerStats| x.batches,
    ).push(g.batches));
}

proof fn one_more_in_sum(longer: Seq<u64>, shorter: Seq<u64>)
    requires
        longer.len() == shorter.len() + 1,
        forall|i: int| 0 <= i < shorter.len() ==> longer[i] == shorter[i],
    ensures
        sum_of(longer) == sum_of(shorter) + longer.last(),
        shorter.len() == 0 ==> sum_of(shorter) == 0,
{
    assert(longer.drop_last() =~= shorter);
}

/// What a bucket has in all is what it has in each worker: one more worker adds what it has counted
/// for the bucket to that bucket.
pub proof fn every_worker_counts_in_its_buckets(
    gpus: Seq<GpuWorkerStats>,
    g: GpuWorkerStats,
    b: int,
)
    requires
        0 <= b < g.per_bucket_batches@.len(),
        b < g.per_bucket_messages@.len(),
    ensures
        sum_of(bucket_batches(gpus.push(g), b)) == sum_of(bucket_batches(gpus, b))
            + g.per_bucket_batches@[b],
        sum_of(bucket_messages(gpus.push(g), b)) == sum_of(bucket_messages(gpus, b))
            + g.per_bucket_messages@[b],
        all_latencies(gpus.push(g)) == all_latencies(gpus) + g.latencies_us@,
{
    one_more_in_sum(bucket_batches(gpus.push(g), b), bucket_batches(gpus, b));
    one_more_in_sum(bucket_messages(gpus.push(g), b), bucket_messages(gpus, b));
    assert(gpus.push(g).drop_last() =~= gpus);
}

/// A report can be made as long as no sum is too large: workers whose counts are all at most a
/// bound that goes into the largest number as often as there are workers can always be reported.
pub proof fn reports_fail_only_on_overflow(
    tokenizers: Seq<WorkerTotals>,
    gpus: Seq<GpuWorkerStats>,
    n_buckets: nat,
    bound: nat,
)
    requires
        tokenizers.len() * bound <= u64::MAX,
        gpus.len() * bound <= u64::MAX,
        forall|i: int|
            0 <= i < tokenizers.len() ==> ({
                let t = #[trigger] tokenizers[i];
                t.processed <= bound && t.skipped <= bound && t.dedup_hits <= bound && t.hits
                    <= bound && t.misses <= bound && t.runtime_hits <= bound && t.runtime_size
                    <= bound
            }),
        forall|i: int|
            0 <= i < gpus.len() ==> ({
                let g = #[trigger] gpus[i];
                g.batches <= bound && g.total_rows <= bound && g.total_capacity <= bound && (forall|
                    b: int,
                |
                    0 <= b < g.per_bucket_batches@.len() ==> g.per_bucket_batches@[b] <= bound)
                    && (forall|b: int|
                    0 <= b < g.per_bucket_messages@.len() ==> g.per_bucket_messages@[b] <= bound)
            }),
    ensures
        sums_fit(tokenizers, gpus, n_buckets),
{
    sum_below(tokenizers.map_values(|x: WorkerTotals| x.processed), bound);
    sum_below(tokenizers.map_values(|x: WorkerTotals| x.skipped), bound);
    sum_below(tokenizers.map_values(|x: WorkerTotals| x.dedup_hits), bound);
    sum_below(tokenizers.map_values(|x: WorkerTotals| x.hits), bound);
    sum_below(tokenizers.map_values(|x: WorkerTotals| x.misses), bound);
    sum_below(tokenizers.map_values(|x: WorkerTotals| x.runtime_hits), bound);
    sum_below(tokenizers.map_values(|x: WorkerTotals| x.runtime_size), bound);
    sum_below(gpus.map_values(|x: GpuWorkerStats| x.batches), bound);
    sum_below(gpus.map_values(|x: GpuWorkerStats| x.total_rows), bound);
    sum_below(gpus.map_values(|x: GpuWorkerStats| x.total_capacity), bound);
    assert forall|b: int| 0 <= b < n_buckets implies sum_of(#[trigger] bucket_batches(gpus, b))
        <= u64::MAX by {
        sum_below(bucket_batches(gpus, b), bound);
    }
    assert forall|b: int| 0 <= b < n_buckets implies sum_of(#[trigger] bucket_messages(gpus, b))
        <= u64::MAX by {
        sum_below(bucket_messages(gpus, b), bound);
    }
}

proof fn sum_below(values: Seq<u64>, bound: nat)
    requires
        forall|i: int| 0 <= i < values.len() ==> #[trigger] values[i] <= bound,
    ensures
        sum_of(values) <= values.len() * bound,
    decreases values.len(),
{
    if values.len() > 0 {
        let front = values.drop_last();
        assert forall|i: int| 0 <= i < front.len() implies #[trigger] front[i] <= bound by {
            assert(front[i] == values[i]);
        }
        sum_below(front, bound);
        assert(values[values.len() - 1] <= bound);
        let n = front.len();
        assert((n + 1) * bound == n * bound + bound) by (nonlinear_arith);
    }
}

/// The JSON of a report: a member is its name in quotes, a colon and its value, an object is its
/// members between braces, and an array its numbers between brackets, in their order and with
/// commas between them, from which the numbers are read back.
pub proof fn json_is_written_in_full(
    name: Seq<char>,
    value: Seq<char>,
    members: Seq<Seq<char>>,
    values: Seq<u64>,
)
    ensures
        member(name, value) == "\""@ + name + "\":"@ + value,
        object(members) == "{"@ + joined(members, ","@) + "}"@,
        values.len() > 0 ==> ({
            let inner = array(values).subrange(1, array(values).len() - 1);
            let parts = pieces(inner, Separator::Char(','));
            &&& array(values)[0] == '[' && array(values).last() == ']'
            &&& parts.len() == values.len()
            &&& forall|i: int|
                0 <= i < values.len() ==> number_value(#[trigger] parts[i], u64::MAX as nat) == Ok::<
                    nat,
                    NumberError,
                >(values[i] as nat)
        }),
        values.len() == 0 ==> array(values) == "[]"@,
{
    reveal_strlit("[");
    reveal_strlit("]");
    reveal_strlit("[]");
    reveal_strlit(",");
    assert(","@ =~= seq![',']);
    let parts = values.map_values(|v: u64| decimal(v as nat));
    let text = joined(parts, ","@);
    assert(array(values).subrange(1, array(values).len() - 1) =~= text);
    if values.len() > 0 {
        assert forall|i: int| 0 <= i < parts.len() implies !(#[trigger] parts[i]).contains(',') by {
            decimal_is_digits(values[i] as nat);
        }
        joined_pieces_are_cut_apart(parts, ',');
        assert forall|i: int| 0 <= i < values.len() implies number_value(
            #[trigger] parts[i],
            u64::MAX as nat,
        ) == Ok::<nat, NumberError>(values[i] as nat) by {
            decimal_reads_back(values[i] as nat, u64::MAX as nat);
        }
    } else {
        assert(array(values) =~= "[]"@);
    }
}

/// The report as JSON has all of its members, each under its name and with its own value.
pub proof fn report_tells_every_member(stats: EmbedStats, figures: Figures)
    ensures
        ({
            let m = stats.members(figures);
            &&& m.len() == 19
            &&& m[0] == "\"messages_processed\":"@ + decimal(stats.messages_processed as nat)
            &&& m[1] == "\"messages_skipped\":"@ + decimal(stats.messages_skipped as nat)
            &&& m[2] == "\"batches_computed\":"@ + decimal(stats.batches_computed as nat)
            &&& m[3] == "\"elapsed_secs\":"@ + figures.elapsed_secs@
            &&& m[4] == "\"throughput\":"@ + figures.throughput@
            &&& m[5] == "\"cache_hit_rate\":"@ + figures.cache_hit_rate@
            &&& m[6] == "\"cache_hits\":"@ + decimal(stats.cache_hits as nat)
            &&& m[7] == "\"cache_misses\":"@ + decimal(stats.cache_misses as nat)
            &&& m[8] == "\"runtime_cache_hits\":"@ + decimal(stats.runtime_cache_hits as nat)
            &&& m[9] == "\"runtime_cache_size\":"@ + decimal(stats.runtime_cache_size as nat)
            &&& m[10] == "\"dedup_hits\":"@ + decimal(stats.dedup_hits as nat)
            &&& m[11] == "\"dedup_size\":"@ + decimal(stats.dedup_size as nat)
            &&& m[12] == "\"n_gpus\":"@ + decimal(stats.n_gpus as nat)
            &&& m[13] == "\"n_buckets\":"@ + decimal(stats.n_buckets as nat)
            &&& m[14] == "\"per_gpu_batches\":"@ + array(stats.per_gpu_batches@)
            &&& m[15] == "\"per_bucket_batches\":"@ + array(stats.per_bucket_batches@)
            &&& m[16] == "\"per_bucket_messages\":"@ + array(stats.per_bucket_messages@)
            &&& m[17] == "\"avg_batch_fill\":"@ + figures.avg_batch_fill@
            &&& m[18] == "\"inference_latency_ms\":"@ + object(
                latency_members(figures, stats.inference_latency.count),
            )
        }),
{
    reveal_strlit("\"");
    reveal_strlit("\":");
    reveal_strlit("messages_processed");
    reveal_strlit("\"messages_processed\":");
    assert("\""@ + "messages_processed"@ + "\":"@ =~= "\"messages_processed\":"@);
    reveal_strlit("messages_skipped");
    reveal_strlit("\"messages_skipped\":");
    assert("\""@ + "messages_skipped"@ + "\":"@ =~= "\"messages_skipped\":"@);
    reveal_strlit("batches_computed");
    reveal_strlit("\"batches_computed\":");
    assert("\""@ + "batches_computed"@ + "\":"@ =~= "\"batches_computed\":"@);
    reveal_strlit("elapsed_secs");
    reveal_strlit("\"elapsed_secs\":");
    assert("\""@ + "elapsed_secs"@ + "\":"@ =~= "\"elapsed_secs\":"@);
    reveal_strlit("throughput");
    reveal_strlit("\"throughput\":");
    assert("\""@ + "throughput"@ + "\":"@ =~= "\"throughput\":"@);
    reveal_strlit("cache_hit_rate");
    reveal_strlit("\"cache_hit_rate\":");
    assert("\""@ + "cache_hit_rate"@ + "\":"@ =~= "\"cache_hit_rate\":"@);
    reveal_strlit("cache_hits");
    reveal_strlit("\"cache_hits\":");
    assert("\""@ + "cache_hits"@ + "\":"@ =~= "\"cache_hits\":"@);
    reveal_strlit("cache_misses");
    reveal_strlit("\"cache_misses\":");
    assert("\""@ + "cache_misses"@ + "\":"@ =~= "\"cache_misses\":"@);
    reveal_strlit("runtime_cache_hits");
    reveal_strlit("\"runtime_cache_hits\":");
    assert("\""@ + "runtime_cache_hits"@ + "\":"@ =~= "\"runtime_cache_hits\":"@);
    reveal_strlit("runtime_cache_size");
    reveal_strlit("\"runtime_cache_size\":");
    assert("\""@ + "runtime_cache_size"@ + "\":"@ =~= "\"runtime_cache_size\":"@);
    reveal_strlit("dedup_hits");
    reveal_strlit("\"dedup_hits\":");
    assert("\""@ + "dedup_hits"@ + "\":"@ =~= "\"dedup_hits\":"@);
    reveal_strlit("dedup_size");
    reveal_strlit("\"dedup_size\":");
    assert("\""@ + "dedup_size"@ + "\":"@ =~= "\"dedup_size\":"@);
    reveal_strlit("n_gpus");
    reveal_strlit("\"n_gpus\":");
    assert("\""@ + "n_gpus"@ + "\":"@ =~= "\"n_gpus\":"@);
    reveal_strlit("n_buckets");
    reveal_strlit("\"n_buckets\":");
    assert("\""@ + "n_buckets"@ + "\":"@ =~= "\"n_buckets\":"@);
    reveal_strlit("per_gpu_batches");
    reveal_strlit("\"per_gpu_batches\":");
    assert("\""@ + "per_gpu_batches"@ + "\":"@ =~= "\"per_gpu_batches\":"@);
    reveal_strlit("per_bucket_batches");
    reveal_strlit("\"per_bucket_batches\":");
    assert("\""@ + "per_bucket_batches"@ + "\":"@ =~= "\"per_bucket_batches\":"@);
    reveal_strlit("per_bucket_messages");
    reveal_strlit("\"per_bucket_messages\":");
    assert("\""@ + "per_bucket_messages"@ + "\":"@ =~= "\"per_bucket_messages\":"@);
    reveal_strlit("avg_batch_fill");
    reveal_strlit("\"avg_batch_fill\":");
    assert("\""@ + "avg_batch_fill"@ + "\":"@ =~= "\"avg_batch_fill\":"@);
    reveal_strlit("inference_latency_ms");
    reveal_strlit("\"inference_latency_ms\":");
    assert("\""@ + "inference_latency_ms"@ + "\":"@ =~= "\"inference_latency_ms\":"@);
}

/// A report has a count for every bucket: what all workers have counted for it.
pub proof fn report_counts_every_bucket(
    tokenizers: Seq<WorkerTotals>,
    gpus: Seq<GpuWorkerStats>,
    run: RunCounters,
    stats: EmbedStats,
    b: int,
)
    requires
        sums_fit(tokenizers, gpus, run.n_buckets as nat),
        reports(tokenizers, gpus, run, stats),
        0 <= b < run.n_buckets,
    ensures
        stats.per_bucket_batches@.len() == run.n_buckets,
        stats.per_bucket_messages@.len() == run.n_buckets,
        stats.per_bucket_batches@[b] == sum_of(bucket_batches(gpus, b)),
        stats.per_bucket_messages@[b] == sum_of(bucket_messages(gpus, b)),
{
    assert(sum_of(bucket_batches(gpus, b)) <= u64::MAX);
    assert(sum_of(bucket_messages(gpus, b)) <= u64::MAX);
}

/// The latencies of a report are those of all workers: their number, sum, least and greatest, and
/// those at the half, at 95 and at 99 of a hundred parts of them in ascending order. Without any,
/// all are zero.
pub proof fn report_has_the_latencies_of_all(
    tokenizers: Seq<WorkerTotals>,
    gpus: Seq<GpuWorkerStats>,
    run: RunCounters,
    stats: EmbedStats,
) -> (sorted: Seq<u64>)
    requires
        reports(tokenizers, gpus, run, stats),
        all_latencies(gpus).len() <= u64::MAX,
        sum_of(all_latencies(gpus)) <= u128::MAX,
    ensures
        ({
            let all = all_latencies(gpus);
            let f = stats.inference_latency;
            let n = all.len();
            &&& n > 0 ==> {
                &&& sorted.to_multiset() == all.to_multiset()
                &&& sorted.len() == n
                &&& forall|i: int, j: int| 0 <= i <= j < n ==> sorted[i] <= sorted[j]
                &&& f.count == n
                &&& f.total == sum_of(all)
                &&& f.min == sorted[0]
                &&& f.max == sorted[n - 1]
                &&& f.p50 == sorted[(n / 2) as int]
                &&& f.p95 == sorted[(n * 95 / 100) as int]
                &&& f.p99 == sorted[(n * 99 / 100) as int]
            }
            &&& n == 0 ==> f.count == 0 && f.total == 0 && f.min == 0 && f.max == 0 && f.p50 == 0
                && f.p95 == 0 && f.p99 == 0
        }),
{
    let all = all_latencies(gpus);
    if all.len() > 0 {
        let sorted = choose|sorted: Seq<u64>|
            #[trigger] puts_in_order(all, sorted) && stats.inference_latency == latency_figures(
                sorted,
            );
        order_keeps_every_latency(all, sorted, 0);
        sorted
    } else {
        all
    }
}

}
