//! What becomes of a batch when inference is done: its embeddings go to the client, and into the
//! dedup cache.

use vstd::prelude::*;

use crate::assembler::{ReadyBatch, ReadyView};
use crate::dedup::{
    lookup, only_what_was_stored_is_found, slot_of, stored, stored_is_found, EmbedCacheInner, Slot,
};
use crate::stats::GpuWorkerStats;
use crate::worker::{row_of, EmbeddingBatch, EmbeddingBatchView};

verus! {

/// What the client gets of a batch: the rows of `output` for its messages, or none of them if
/// inference failed.
pub open spec fn delivered<T>(
    ready: ReadyView,
    output: Option<Seq<T>>,
    hidden_dim: nat,
) -> EmbeddingBatchView<T> {
    match output {
        Some(values) => EmbeddingBatchView::computed(ready.ids, values, hidden_dim),
        None => EmbeddingBatchView::failed(ready.ids, hidden_dim),
    }
}

/// The values that inference gave, if it gave any.
pub open spec fn output_view<T>(output: Option<&[T]>) -> Option<Seq<T>> {
    match output {
        Some(values) => Some(values@),
        None => None,
    }
}

/// Makes what the client gets of a batch. `output` is what inference gave, if it did not fail.
pub fn deliver<T: Copy>(ready: ReadyBatch, output: Option<&[T]>, hidden_dim: usize) -> (r:
    EmbeddingBatch<T>)
    requires
        output matches Some(values) ==> ready.ids@.len() * hidden_dim <= values@.len(),
    ensures
        r@ == delivered(ready@, output_view(output), hidden_dim as nat),
        r@.ids == ready@.ids,
        r@.complete(),
{
    match output {
        Some(values) => EmbeddingBatch::computed(ready.ids, values, hidden_dim),
        None => {
            assert(0 * hidden_dim == 0) by (nonlinear_arith);
            EmbeddingBatch::failed(ready.ids, hidden_dim)
        },
    }
}

/// The slots after the first `n` rows of `output` were stored, each for its hash.
pub open spec fn remembered<T>(
    slots: Seq<Slot<T>>,
    hashes: Seq<u64>,
    output: Seq<T>,
    dim: int,
    n: nat,
) -> Seq<Slot<T>>
    decreases n,
{
    if n == 0 {
        slots
    } else {
        stored(
            remembered(slots, hashes, output, dim, (n - 1) as nat),
            hashes[n - 1],
            row_of(output, dim, n - 1),
        )
    }
}

proof fn remembered_keeps_len<T>(
    slots: Seq<Slot<T>>,
    hashes: Seq<u64>,
    output: Seq<T>,
    dim: int,
    n: nat,
)
    requires
        slots.len() > 0,
    ensures
        remembered(slots, hashes, output, dim, n).len() == slots.len(),
    decreases n,
{
    if n > 0 {
        remembered_keeps_len(slots, hashes, output, dim, (n - 1) as nat);
    }
}

/// Stores the embeddings of a batch in the dedup cache, each for the hash of its text.
pub fn remember<T: Copy>(
    cache: &mut EmbedCacheInner<T>,
    hashes: &Vec<u64>,
    output: &[T],
    hidden_dim: usize,
)
    requires
        old(cache).dim() == hidden_dim,
        old(cache).slots().len() > 0,
        hashes@.len() * hidden_dim <= output@.len(),
    ensures
        final(cache).dim() == old(cache).dim(),
        final(cache).slots() == remembered(
            old(cache).slots(),
            hashes@,
            output@,
            hidden_dim as int,
            hashes@.len(),
        ),
{
    let n: usize = hashes.len();
    let available: usize = output.len();
    for i in 0..n
        invariant
            n == hashes@.len(),
            available == output@.len(),
            n * hidden_dim <= available,
            cache.dim() == hidden_dim,
            old(cache).slots().len() > 0,
            cache.slots() == remembered(
                old(cache).slots(),
                hashes@,
                output@,
                hidden_dim as int,
                i as nat,
            ),
    {
        proof {
            remembered_keeps_len(
                old(cache).slots(),
                hashes@,
                output@,
                hidden_dim as int,
                i as nat,
            );
            assert(i * hidden_dim + hidden_dim <= n * hidden_dim) by (nonlinear_arith)
                requires
                    i < n,
            ;
            assert(0 <= i * hidden_dim) by (nonlinear_arith);
        }
        let start: usize = i * hidden_dim;
        let row = vstd::slice::slice_subrange(output, start, start + hidden_dim);
        assert(row@.take(hidden_dim as int) == row@);
        cache.insert(hashes[i], row);
    }
}

/// Does all that is to be done with a batch when inference is over: counts it, stores its
/// embeddings in the dedup cache if there is one and inference did not fail, and makes what the
/// client gets.
pub fn complete<T: Copy>(
    stats: &mut GpuWorkerStats,
    dedup: &mut Option<EmbedCacheInner<T>>,
    ready: ReadyBatch,
    output: Option<&[T]>,
    capacity: usize,
    latency_us: u64,
    hidden_dim: usize,
) -> (r: EmbeddingBatch<T>)
    requires
        old(stats).valid(),
        ready.batch.bucket_idx < old(stats).per_bucket_batches@.len(),
        old(stats).room_for(ready.batch.n_real as nat, capacity as nat),
        (*old(dedup)) matches Some(cache) ==> cache.dim() == hidden_dim && cache.slots().len() > 0,
        ready.hashes@.len() == ready.ids@.len(),
        output matches Some(values) ==> ready.ids@.len() * hidden_dim <= values@.len(),
    ensures
        final(stats).valid(),
        final(stats).counted(
            *old(stats),
            ready.batch.bucket_idx,
            ready.batch.n_real,
            capacity,
            latency_us,
        ),
        r@ == delivered(ready@, output_view(output), hidden_dim as nat),
        r@.complete(),
        match (*old(dedup), output) {
            (Some(cache), Some(values)) => {
                &&& (*final(dedup)) matches Some(after)
                &&& after.dim() == cache.dim()
                &&& after.slots() == remembered(
                    cache.slots(),
                    ready.hashes@,
                    values@,
                    hidden_dim as int,
                    ready.hashes@.len(),
                )
            },
            _ => *final(dedup) == *old(dedup),
        },
{
    stats.record(ready.batch.bucket_idx, ready.batch.n_real, capacity, latency_us);
    if let Some(values) = output {
        if let Some(cache) = dedup {
            remember(cache, &ready.hashes, values, hidden_dim);
        }
    }
    deliver(ready, output, hidden_dim)
}

/// A text whose embedding was stored is found with that embedding, until another text takes its
/// slot.
pub proof fn remembered_text_is_found<T>(
    slots: Seq<Slot<T>>,
    hashes: Seq<u64>,
    output: Seq<T>,
    dim: int,
    n: nat,
    i: int,
)
    requires
        slots.len() > 0,
        0 <= i < n <= hashes.len(),
        hashes[i] != 0,
        forall|j: int|
            i < j < n ==> hashes[j] == 0 || slot_of(#[trigger] hashes[j], slots.len()) != slot_of(
                hashes[i],
                slots.len(),
            ),
    ensures
        lookup(remembered(slots, hashes, output, dim, n), hashes[i]) == Some(
            row_of(output, dim, i),
        ),
    decreases n,
{
    let before = remembered(slots, hashes, output, dim, (n - 1) as nat);
    remembered_keeps_len(slots, hashes, output, dim, (n - 1) as nat);
    if i < n - 1 {
        remembered_text_is_found(slots, hashes, output, dim, (n - 1) as nat, i);
        assert(hashes[n - 1] == 0 || slot_of(hashes[n - 1], slots.len()) != slot_of(
            hashes[i],
            slots.len(),
        ));
    }
}

/// Row `i` of what the client gets of a batch is the output of inference for message `i`.
pub proof fn delivered_rows_are_outputs<T>(
    ready: ReadyView,
    output: Seq<T>,
    hidden_dim: nat,
    i: int,
)
    requires
        ready.ids.len() * hidden_dim <= output.len(),
        0 <= i < ready.ids.len(),
    ensures
        row_of(delivered(ready, Some(output), hidden_dim).embeddings, hidden_dim as int, i)
            == row_of(output, hidden_dim as int, i),
        delivered(ready, Some(output), hidden_dim).ids[i] == ready.ids[i],
{
    let n = ready.ids.len();
    assert(i * hidden_dim + hidden_dim <= n * hidden_dim) by (nonlinear_arith)
        requires
            0 <= i < n,
    ;
    assert(0 <= i * hidden_dim) by (nonlinear_arith)
        requires
            0 <= i,
    ;
    let d = hidden_dim as int;
    assert(row_of(delivered(ready, Some(output), hidden_dim).embeddings, d, i) == row_of(
        output,
        d,
        i,
    ));
}

/// What the client gets has the IDs of the batch, all and in their order. With an output it has a
/// row for each, and without one it has none and says that inference failed.
pub proof fn delivered_has_the_ids_of_the_batch<T>(
    ready: ReadyView,
    output: Option<Seq<T>>,
    hidden_dim: nat,
)
    ensures
        delivered(ready, output, hidden_dim).ids == ready.ids,
        output is Some ==> delivered(ready, output, hidden_dim).n_rows == ready.ids.len(),
        output is None ==> delivered(ready, output, hidden_dim).n_rows == 0,
        delivered(ready, output, hidden_dim).inference_failed <==> output is None,
        delivered(ready, output, hidden_dim).hidden_dim == hidden_dim,
{
}

/// Only what was remembered is found: what is found for a hash was there before, or is the row of a
/// message of the batch with that hash.
pub proof fn only_remembered_rows_are_found<T>(
    slots: Seq<Slot<T>>,
    hashes: Seq<u64>,
    output: Seq<T>,
    dim: int,
    n: nat,
    hash: u64,
)
    requires
        slots.len() > 0,
        n <= hashes.len(),
    ensures
        remembered(slots, hashes, output, dim, n).len() == slots.len(),
        lookup(remembered(slots, hashes, output, dim, n), hash) matches Some(row) ==> lookup(
            slots,
            hash,
        ) == Some(row) || exists|i: int|
            0 <= i < n && #[trigger] hashes[i] == hash && row == row_of(output, dim, i),
        (forall|i: int|
            0 <= i < n ==> #[trigger] hashes[i] == 0 || slot_of(hashes[i], slots.len()) != slot_of(
                hash,
                slots.len(),
            )) ==> lookup(remembered(slots, hashes, output, dim, n), hash) == lookup(slots, hash),
    decreases n,
{
    if n > 0 {
        let before = remembered(slots, hashes, output, dim, (n - 1) as nat);
        let row = row_of(output, dim, n - 1);
        only_remembered_rows_are_found(slots, hashes, output, dim, (n - 1) as nat, hash);
        only_what_was_stored_is_found(before, hashes[n - 1], row, hash);
        if hashes[n - 1] != 0 {
            stored_is_found(before, hashes[n - 1], row, hash);
        }
    }
}

}
