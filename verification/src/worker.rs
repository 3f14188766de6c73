//! The tokenizer workers: each takes one message after the other, normalizes and tokenizes it, and
//! says where it goes.

use std::sync::Arc;

use tokenizers::Tokenizer;
use vstd::prelude::*;
use vstd::utf8::encode_utf8;

use crate::cache::SharedCache;
use crate::config::Message;
use crate::dedup::{fnv1a, fnv1a_of, lookup, EmbedCacheInner, Slot};
use crate::normalize::{normalized, Normalizer, NormalizerConfig};
use crate::text::{text_view, texts, words, words_at_most_chars};
use crate::tokenize::{
    can_tokenize, draws, encodes_soundly, fresh_tokenizer, learned_soundly, message_fits, message_of,
    possible_replies, run, run_keeps, unlearned_message, CachedTokenizer, TokenizedMessage,
    TokenizerView,
};
use crate::utf8::{byte_len, chars_at_most_bytes};

verus! {

/// After how many queued messages a worker reports its cache counters.
pub const REPORT_EVERY: u32 = 4096;

/// A completed batch of embeddings: `n_rows` rows of `hidden_dim` values.
pub struct EmbeddingBatch<T> {
    pub ids: Vec<String>,
    pub embeddings: Vec<T>,
    pub n_rows: usize,
    pub hidden_dim: usize,
    /// Whether the batch has no rows because inference failed, and not because its message was
    /// filtered out.
    pub inference_failed: bool,
}

/// The contents of an [`EmbeddingBatch`].
pub struct EmbeddingBatchView<T> {
    pub ids: Seq<Seq<char>>,
    pub embeddings: Seq<T>,
    pub n_rows: nat,
    pub hidden_dim: nat,
    pub inference_failed: bool,
}

impl<T> View for EmbeddingBatch<T> {
    type V = EmbeddingBatchView<T>;

    open spec fn view(&self) -> EmbeddingBatchView<T> {
        EmbeddingBatchView {
            ids: texts(self.ids@),
            embeddings: self.embeddings@,
            n_rows: self.n_rows as nat,
            hidden_dim: self.hidden_dim as nat,
            inference_failed: self.inference_failed,
        }
    }
}

/// Row `i` of rows of `dim` values that stand one after the other.
pub open spec fn row_of<T>(values: Seq<T>, dim: int, i: int) -> Seq<T> {
    values.subrange(i * dim, i * dim + dim)
}

impl<T> EmbeddingBatchView<T> {
    /// The batch that stands for a message which was filtered out.
    pub open spec fn skipped(id: Seq<char>, hidden_dim: nat) -> Self {
        EmbeddingBatchView {
            ids: seq![id],
            embeddings: Seq::empty(),
            n_rows: 0,
            hidden_dim,
            inference_failed: false,
        }
    }

    /// The batch of one message whose embedding was known already.
    pub open spec fn reused(id: Seq<char>, row: Seq<T>, hidden_dim: nat) -> Self {
        EmbeddingBatchView {
            ids: seq![id],
            embeddings: row,
            n_rows: 1,
            hidden_dim,
            inference_failed: false,
        }
    }

    /// The batch of messages of which the first values of `output` are the embeddings.
    pub open spec fn computed(ids: Seq<Seq<char>>, output: Seq<T>, hidden_dim: nat) -> Self {
        EmbeddingBatchView {
            ids,
            embeddings: output.take((ids.len() * hidden_dim) as int),
            n_rows: ids.len(),
            hidden_dim,
            inference_failed: false,
        }
    }

    /// The batch of messages for which inference failed.
    pub open spec fn failed(ids: Seq<Seq<char>>, hidden_dim: nat) -> Self {
        EmbeddingBatchView {
            ids,
            embeddings: Seq::empty(),
            n_rows: 0,
            hidden_dim,
            inference_failed: true,
        }
    }

    /// Whether every row has its ID and its values.
    pub open spec fn complete(self) -> bool {
        &&& self.n_rows <= self.ids.len()
        &&& self.embeddings.len() == self.n_rows * self.hidden_dim
    }
}

proof fn one_id(id: String, ids: Seq<String>)
    requires
        ids.len() == 1,
        ids[0] == id,
    ensures
        texts(ids) == seq![id@],
{
    assert(texts(ids) == seq![id@]);
}

impl<T> EmbeddingBatch<T> {
    /// The embedding of row `i`.
    pub fn embedding(&self, i: usize) -> (r: &[T])
        requires
            (i + 1) * self.hidden_dim <= self.embeddings@.len(),
        ensures
            r@ == row_of(self@.embeddings, self.hidden_dim as int, i as int),
    {
        let n: usize = self.embeddings.len();
        assert((i + 1) * self.hidden_dim == i * self.hidden_dim + self.hidden_dim)
            by (nonlinear_arith);
        let start: usize = i * self.hidden_dim;
        vstd::slice::slice_subrange(self.embeddings.as_slice(), start, start + self.hidden_dim)
    }

    /// The batch that stands for a message which was filtered out.
    pub fn skipped(id: String, hidden_dim: usize) -> (r: Self)
        ensures
            r@ == EmbeddingBatchView::<T>::skipped(id@, hidden_dim as nat),
    {
        let ids: Vec<String> = vec![id];
        proof {
            one_id(id, ids@);
        }
        EmbeddingBatch {
            ids,
            embeddings: Vec::new(),
            n_rows: 0,
            hidden_dim,
            inference_failed: false,
        }
    }

    /// The batch of messages for which inference failed.
    pub fn failed(ids: Vec<String>, hidden_dim: usize) -> (r: Self)
        ensures
            r@ == EmbeddingBatchView::<T>::failed(texts(ids@), hidden_dim as nat),
    {
        EmbeddingBatch {
            ids,
            embeddings: Vec::new(),
            n_rows: 0,
            hidden_dim,
            inference_failed: true,
        }
    }
}

fn first_values<T: Copy>(values: &[T], n: usize) -> (r: Vec<T>)
    requires
        n <= values@.len(),
    ensures
        r@ == values@.take(n as int),
{
    let mut out: Vec<T> = Vec::with_capacity(n);
    for i in 0..n
        invariant
            n <= values@.len(),
            out@ == values@.take(i as int),
    {
        out.push(values[i]);
    }
    out
}

impl<T: Copy> EmbeddingBatch<T> {
    /// The batch of one message whose embedding was known already.
    pub fn reused(id: String, row: &[T], hidden_dim: usize) -> (r: Self)
        ensures
            r@ == EmbeddingBatchView::reused(id@, row@, hidden_dim as nat),
    {
        let ids: Vec<String> = vec![id];
        proof {
            one_id(id, ids@);
        }
        let n: usize = row.len();
        let embeddings = first_values(row, n);
        assert(embeddings@ == row@);
        EmbeddingBatch { ids, embeddings, n_rows: 1, hidden_dim, inference_failed: false }
    }

    /// The batch of messages of which the first values of `output` are the embeddings.
    pub fn computed(ids: Vec<String>, output: &[T], hidden_dim: usize) -> (r: Self)
        requires
            ids@.len() * hidden_dim <= output@.len(),
        ensures
            r@ == EmbeddingBatchView::computed(texts(ids@), output@, hidden_dim as nat),
            r@.complete(),
    {
        let available: usize = output.len();
        let n_rows: usize = ids.len();
        let total: usize = n_rows * hidden_dim;
        let embeddings = first_values(output, total);
        EmbeddingBatch { ids, embeddings, n_rows, hidden_dim, inference_failed: false }
    }
}

/// A tokenized message on its way to a batch, with its ID and the hash of its text.
pub struct Queued {
    pub tokens: TokenizedMessage,
    pub id: String,
    pub hash: u64,
}

/// Where a message goes.
pub enum Routed<T> {
    /// It was filtered out. The batch says so to the client.
    Skipped(EmbeddingBatch<T>),
    /// Its embedding was known already. The batch holds it.
    Reused(EmbeddingBatch<T>),
    /// It is to be embedded with the messages of a bucket.
    Bucket(usize, Queued),
}

/// The first bucket whose length takes a message, or the last bucket if none does.
pub open spec fn bucket_for(lens: Seq<usize>, msg_len: usize) -> int
    decreases lens.len(),
{
    if lens.len() <= 1 || msg_len <= lens[0] {
        0
    } else {
        1 + bucket_for(lens.drop_first(), msg_len)
    }
}

proof fn bucket_for_is(lens: Seq<usize>, msg_len: usize, i: int)
    requires
        0 <= i < lens.len(),
        forall|j: int| 0 <= j < i ==> msg_len > lens[j],
        msg_len <= lens[i] || i == lens.len() - 1,
    ensures
        bucket_for(lens, msg_len) == i,
    decreases i,
{
    if i > 0 {
        assert(msg_len > lens[0]);
        bucket_for_is(lens.drop_first(), msg_len, i - 1);
    }
}

/// The index of the first bucket whose length takes a message, else of the last one.
pub fn assign_bucket(bucket_lens: &[usize], msg_len: usize) -> (r: usize)
    requires
        bucket_lens@.len() > 0,
    ensures
        r == bucket_for(bucket_lens@, msg_len),
        r < bucket_lens@.len(),
{
    let n: usize = bucket_lens.len();
    for i in 0..n
        invariant
            n == bucket_lens@.len(),
            forall|j: int| 0 <= j < i ==> msg_len > bucket_lens@[j],
    {
        if msg_len <= bucket_lens[i] {
            proof {
                bucket_for_is(bucket_lens@, msg_len, i as int);
            }
            return i;
        }
    }
    proof {
        bucket_for_is(bucket_lens@, msg_len, n - 1);
    }
    n - 1
}

/// Where the bucket lengths increase, a message goes to the shortest bucket that takes it, and to
/// the longest if none does.
pub proof fn bucket_is_shortest_fit(lens: Seq<usize>, msg_len: usize)
    requires
        lens.len() > 0,
        forall|i: int, j: int| 0 <= i < j < lens.len() ==> lens[i] < lens[j],
    ensures
        0 <= bucket_for(lens, msg_len) < lens.len(),
        forall|j: int|
            0 <= j < lens.len() ==> (msg_len <= #[trigger] lens[j] <==> bucket_for(lens, msg_len)
                <= j && msg_len <= lens.last()),
        msg_len > lens.last() ==> bucket_for(lens, msg_len) == lens.len() - 1,
    decreases lens.len(),
{
    if lens.len() > 1 && msg_len > lens[0] {
        let rest = lens.drop_first();
        assert(rest.last() == lens.last());
        bucket_is_shortest_fit(rest, msg_len);
        assert forall|j: int| 0 <= j < lens.len() implies (msg_len <= #[trigger] lens[j]
            <==> bucket_for(lens, msg_len) <= j && msg_len <= lens.last()) by {
            if j > 0 {
                assert(lens[j] == rest[j - 1]);
            }
        }
    } else {
        assert forall|j: int| 0 <= j < lens.len() implies (msg_len <= #[trigger] lens[j]
            <==> bucket_for(lens, msg_len) <= j && msg_len <= lens.last()) by {
            if j > 0 {
                assert(lens[0] < lens[j]);
            }
            if j < lens.len() - 1 {
                assert(lens[j] < lens[lens.len() - 1]);
            }
        }
    }
}

/// What a [`TokenizerWorker`] knows and has counted.
pub struct WorkerView {
    pub tokenizer: TokenizerView,
    pub settings: NormalizerConfig,
    pub bucket_lens: Seq<usize>,
    pub hidden_dim: nat,
    /// The hits and misses that were reported so far.
    pub reported: (nat, nat),
    /// How many messages were queued since then.
    pub queued: nat,
    /// How many messages go on to be embedded or are so already.
    pub processed: nat,
    /// How many messages were filtered out.
    pub skipped: nat,
    /// How many messages had their embedding in the dedup cache.
    pub dedup_hits: nat,
}

/// Normalizes and tokenizes messages, and says where they go.
pub struct TokenizerWorker<T> {
    cached: CachedTokenizer,
    normalizer: Normalizer,
    bucket_lens: Vec<usize>,
    hidden_dim: usize,
    reported_hits: u64,
    reported_misses: u64,
    queued: u32,
    processed: u64,
    skipped: u64,
    dedup_hits: u64,
    dedup_buf: Vec<T>,
}

impl<T> View for TokenizerWorker<T> {
    type V = WorkerView;

    closed spec fn view(&self) -> WorkerView {
        WorkerView {
            tokenizer: self.cached@,
            settings: self.normalizer.settings(),
            bucket_lens: self.bucket_lens@,
            hidden_dim: self.hidden_dim as nat,
            reported: (self.reported_hits as nat, self.reported_misses as nat),
            queued: self.queued as nat,
            processed: self.processed as nat,
            skipped: self.skipped as nat,
            dedup_hits: self.dedup_hits as nat,
        }
    }
}

/// What a worker has counted when it is done.
pub struct WorkerTotals {
    pub processed: u64,
    pub skipped: u64,
    pub dedup_hits: u64,
    pub unreported_hits: u64,
    pub unreported_misses: u64,
    pub hits: u64,
    pub misses: u64,
    pub runtime_hits: u64,
    pub runtime_size: u64,
}

/// The slots of a cache, if there is one.
pub open spec fn slots_of<T>(dedup: Option<&EmbedCacheInner<T>>) -> Option<Seq<Slot<T>>> {
    match dedup {
        Some(cache) => Some(cache.slots()),
        None => None,
    }
}

/// The embedding that a cache, if there is one, holds for a hash.
pub open spec fn found_row<T>(dedup: Option<Seq<Slot<T>>>, hash: u64) -> Option<Seq<T>> {
    match dedup {
        Some(slots) => lookup(slots, hash),
        None => None,
    }
}

/// Whether tokenizing `text` in state `s` may give `message` and leave state `after`.
pub open spec fn tokenizes(
    s: TokenizerView,
    text: Seq<char>,
    message: TokenizedMessage,
    after: TokenizerView,
) -> bool {
    &&& message.len == message.ids@.len()
    &&& exists|replies: Seq<Option<Seq<u32>>>|
        #[trigger] possible_replies(s, words(text), replies) && ({
            let (s1, ids) = run(s, words(text), replies, words(text).len());
            after == s1 && message.ids@ == ids.push(s1.sep_id)
        })
}

/// Whether the counters of a tokenizer have room for as many words as a text can have.
pub open spec fn has_room(s: TokenizerView, text: Seq<char>) -> bool {
    &&& s.hits + byte_len(text) <= u64::MAX
    &&& s.misses + byte_len(text) <= u64::MAX
    &&& s.runtime_hits + byte_len(text) <= u64::MAX
}

/// Whether a worker can count one more message.
pub open spec fn can_count(s: WorkerView) -> bool {
    s.processed < u64::MAX && s.skipped < u64::MAX && s.dedup_hits < u64::MAX
}

/// Whether a worker in state `s` may say `r` of a message with the normalized text `text`, and go
/// on in state `after`. The dedup cache, if there is one, has the given slots.
pub open spec fn routes_text<T>(
    s: WorkerView,
    id: String,
    text: Seq<char>,
    dedup: Option<Seq<Slot<T>>>,
    r: Result<Routed<T>, String>,
    after: WorkerView,
) -> bool {
    let hash = fnv1a_of(encode_utf8(text));
    if !can_count(s) {
        r == Err::<Routed<T>, String>(id) && after == s
    } else {
        match found_row(dedup, hash) {
            Some(row) => {
                &&& after == (WorkerView {
                    processed: s.processed + 1,
                    dedup_hits: s.dedup_hits + 1,
                    ..s
                })
                &&& r matches Ok(Routed::Reused(batch)) && batch@ == EmbeddingBatchView::reused(
                    id@,
                    row,
                    s.hidden_dim,
                )
            },
            None => if has_room(s.tokenizer, text) && can_tokenize(s.tokenizer, words(text)) {
                &&& r matches Ok(Routed::Bucket(bucket, item))
                &&& item.id == id
                &&& item.hash == hash
                &&& bucket == bucket_for(s.bucket_lens, item.tokens.len)
                &&& bucket < s.bucket_lens.len()
                &&& tokenizes(s.tokenizer, text, item.tokens, after.tokenizer)
                &&& unlearned_message(s.tokenizer, words(text), item.tokens.ids@)
                &&& !draws(s.tokenizer.tokenizer) ==> item.tokens.ids@ == message_of(
                    s.tokenizer,
                    words(text),
                )
                &&& after == (WorkerView {
                    tokenizer: after.tokenizer,
                    processed: s.processed + 1,
                    ..s
                })
            } else {
                r == Err::<Routed<T>, String>(id) && after == s
            },
        }
    }
}

/// Whether a worker in state `s` may say `r` of a message with the given ID, of whose text
/// normalization leaves `text`, and go on in state `after`.
pub open spec fn routes<T>(
    s: WorkerView,
    id: String,
    text: Option<Seq<char>>,
    dedup: Option<Seq<Slot<T>>>,
    r: Result<Routed<T>, String>,
    after: WorkerView,
) -> bool {
    match text {
        Some(text) => routes_text(s, id, text, dedup, r, after),
        None => if can_count(s) {
            &&& after == (WorkerView { skipped: s.skipped + 1, ..s })
            &&& r matches Ok(Routed::Skipped(batch)) && batch@ == EmbeddingBatchView::<
                T,
            >::skipped(id@, s.hidden_dim)
        } else {
            r == Err::<Routed<T>, String>(id) && after == s
        },
    }
}

impl<T> TokenizerWorker<T> {
    /// No more is reported than was counted, a report is not overdue, there is a bucket and room
    /// for a token in a message, and every learned word was learned from what the tokenizer said.
    pub closed spec fn valid(self) -> bool {
        &&& self.reported_hits <= self@.tokenizer.hits
        &&& self.reported_misses <= self@.tokenizer.misses
        &&& self.queued < REPORT_EVERY
        &&& self.bucket_lens@.len() > 0
        &&& self@.tokenizer.max_len >= 1
        &&& self.cached.valid()
        &&& learned_soundly(self@.tokenizer)
        &&& self.dedup_buf@.len() == self.hidden_dim
    }

    /// Counts a message that was queued. Every so often returns the hits and misses of the word
    /// cache that were not reported yet.
    pub fn queued(&mut self) -> (r: Option<(u64, u64)>)
        requires
            old(self).valid(),
        ensures
            final(self).valid(),
            ({
                let s = old(self)@;
                if s.queued + 1 >= REPORT_EVERY {
                    &&& r matches Some((hits, misses))
                    &&& hits == s.tokenizer.hits - s.reported.0
                    &&& misses == s.tokenizer.misses - s.reported.1
                    &&& final(self)@ == (WorkerView {
                        reported: (s.tokenizer.hits, s.tokenizer.misses),
                        queued: 0,
                        ..s
                    })
                } else {
                    &&& r is None
                    &&& final(self)@ == (WorkerView { queued: s.queued + 1, ..s })
                }
            }),
    {
        self.queued += 1;
        if self.queued >= REPORT_EVERY {
            let (hits, misses, _) = self.cached.counters();
            let report: (u64, u64) = (hits - self.reported_hits, misses - self.reported_misses);
            self.reported_hits = hits;
            self.reported_misses = misses;
            self.queued = 0;
            Some(report)
        } else {
            None
        }
    }

    /// What the worker has counted, and what of it was not reported yet.
    pub fn totals(&self) -> (r: WorkerTotals)
        requires
            self.valid(),
        ensures
            r.processed == self@.processed,
            r.skipped == self@.skipped,
            r.dedup_hits == self@.dedup_hits,
            r.hits == self@.tokenizer.hits,
            r.misses == self@.tokenizer.misses,
            r.runtime_hits == self@.tokenizer.runtime_hits,
            r.runtime_size == self@.tokenizer.learned.len(),
            r.unreported_hits == self@.tokenizer.hits - self@.reported.0,
            r.unreported_misses == self@.tokenizer.misses - self@.reported.1,
    {
        let (hits, misses, runtime_hits) = self.cached.counters();
        WorkerTotals {
            processed: self.processed,
            skipped: self.skipped,
            dedup_hits: self.dedup_hits,
            unreported_hits: hits - self.reported_hits,
            unreported_misses: misses - self.reported_misses,
            hits,
            misses,
            runtime_hits,
            runtime_size: self.cached.runtime_cache_size() as u64,
        }
    }
}

impl<T: Copy> TokenizerWorker<T> {
    /// A worker that has seen no message yet. `zero` fills its buffer for embeddings.
    pub fn new(
        tokenizer: Arc<Tokenizer>,
        cache: SharedCache,
        normalizer: Normalizer,
        bucket_lens: Vec<usize>,
        max_len: usize,
        hidden_dim: usize,
        zero: T,
    ) -> (r: Self)
        requires
            bucket_lens@.len() > 0,
            max_len >= 1,
        ensures
            r.valid(),
            r@ == (WorkerView {
                tokenizer: fresh_tokenizer(*tokenizer, max_len as nat, cache@),
                settings: normalizer.settings(),
                bucket_lens: bucket_lens@,
                hidden_dim: hidden_dim as nat,
                reported: (0, 0),
                queued: 0,
                processed: 0,
                skipped: 0,
                dedup_hits: 0,
            }),
    {
        let cached = CachedTokenizer::new(tokenizer, max_len, cache);
        let mut dedup_buf: Vec<T> = Vec::with_capacity(hidden_dim);
        for i in 0..hidden_dim
            invariant
                dedup_buf@.len() == i,
        {
            dedup_buf.push(zero);
        }
        TokenizerWorker {
            cached,
            normalizer,
            bucket_lens,
            hidden_dim,
            reported_hits: 0,
            reported_misses: 0,
            queued: 0,
            processed: 0,
            skipped: 0,
            dedup_hits: 0,
            dedup_buf,
        }
    }

    /// Says where a message goes whose normalized text is `text`, or whose text was too short to be
    /// embedded where there is none. A text whose embedding is in the dedup cache is done. Any
    /// other is tokenized for the bucket of its length. Hands the ID back if the counters have no
    /// room for the message or the words of its text, or if these need a tokenizer that cannot
    /// encode any text.
    pub fn route_text(
        &mut self,
        id: String,
        text: Option<String>,
        dedup: Option<&EmbedCacheInner<T>>,
    ) -> (r: Result<Routed<T>, String>)
        requires
            old(self).valid(),
            dedup matches Some(cache) ==> cache.slots().len() > 0 && cache.dim()
                == old(self)@.hidden_dim,
        ensures
            final(self).valid(),
            routes(old(self)@, id, text_view(text), slots_of(dedup), r, final(self)@),
    {
        if self.processed == u64::MAX || self.skipped == u64::MAX || self.dedup_hits == u64::MAX {
            return Err(id);
        }
        let text = match text {
            Some(text) => text,
            None => {
                self.skipped += 1;
                return Ok(Routed::Skipped(EmbeddingBatch::skipped(id, self.hidden_dim)));
            },
        };
        let hash: u64 = fnv1a(text.as_str());
        if let Some(cache) = dedup {
            if cache.get(hash, &mut self.dedup_buf) {
                let ghost row = lookup(cache.slots(), hash).unwrap();
                assert(self.dedup_buf@ == row);
                let batch = EmbeddingBatch::reused(
                    id,
                    self.dedup_buf.as_slice(),
                    self.hidden_dim,
                );
                self.processed += 1;
                self.dedup_hits += 1;
                return Ok(Routed::Reused(batch));
            }
        }
        let (hits, misses, runtime_hits) = self.cached.counters();
        let bytes: u64 = text.as_str().as_bytes().len() as u64;
        if u64::MAX - hits < bytes || u64::MAX - misses < bytes || u64::MAX - runtime_hits
            < bytes {
            return Err(id);
        }
        if !self.cached.takes(text.as_str()) {
            return Err(id);
        }
        proof {
            words_at_most_chars(text@);
            chars_at_most_bytes(text@);
        }
        let ghost s = self.cached@;
        let tokens = self.cached.tokenize_one(text.as_str());
        proof {
            let ws = words(text@);
            let replies = choose|replies: Seq<Option<Seq<u32>>>|
                #[trigger] possible_replies(s, ws, replies) && ({
                    let (s1, ids) = run(s, ws, replies, ws.len());
                    self.cached@ == s1 && tokens.ids@ == ids.push(s1.sep_id)
                });
            run_keeps(s, ws, replies, ws.len());
        }
        self.processed += 1;
        let bucket: usize = assign_bucket(self.bucket_lens.as_slice(), tokens.len);
        Ok(Routed::Bucket(bucket, Queued { tokens, id, hash }))
    }

    /// Normalizes a message and says where it goes. Hands the message back if the counters have no
    /// room for it or its words, or if these need a tokenizer that cannot encode any text.
    pub fn route(&mut self, msg: Message, dedup: Option<&EmbedCacheInner<T>>) -> (r: Result<
        Routed<T>,
        Message,
    >)
        requires
            old(self).valid(),
            dedup matches Some(cache) ==> cache.slots().len() > 0 && cache.dim()
                == old(self)@.hidden_dim,
        ensures
            final(self).valid(),
            r matches Err(back) ==> back == msg,
            routes(
                old(self)@,
                msg.id,
                normalized(old(self)@.settings, msg.text@),
                slots_of(dedup),
                match r {
                    Ok(routed) => Ok(routed),
                    Err(back) => Err(back.id),
                },
                final(self)@,
            ),
    {
        let normal = self.normalizer.normalize(msg.text.as_str());
        assert(text_view(normal) == normalized(self@.settings, msg.text@));
        let Message { id, text } = msg;
        match self.route_text(id, normal, dedup) {
            Ok(routed) => Ok(routed),
            Err(id) => Err(Message { id, text }),
        }
    }
}

/// A message that is to be embedded has a token ID for each token, so that its bucket can take it.
pub proof fn tokenized_message_has_its_tokens(
    s: TokenizerView,
    text: Seq<char>,
    message: TokenizedMessage,
    after: TokenizerView,
    len: int,
)
    requires
        tokenizes(s, text, message, after),
    ensures
        message.len > len ==> message.ids@.len() >= len,
        message.len >= 2,
        message.ids@[0] == s.cls_id,
        message.ids@.last() == s.sep_id,
{
    let replies = choose|replies: Seq<Option<Seq<u32>>>|
        #[trigger] possible_replies(s, words(text), replies) && ({
            let (s1, ids) = run(s, words(text), replies, words(text).len());
            after == s1 && message.ids@ == ids.push(s1.sep_id)
        });
    message_fits(s, words(text), replies);
}

/// Batching cuts no message: where the tokenizer stops at the length of the longest bucket, a
/// message goes to a bucket that takes all of its tokens.
pub proof fn message_is_not_cut(
    s: WorkerView,
    text: Seq<char>,
    message: TokenizedMessage,
    after: TokenizerView,
)
    requires
        s.bucket_lens.len() > 0,
        forall|i: int, j: int|
            0 <= i < j < s.bucket_lens.len() ==> s.bucket_lens[i] < s.bucket_lens[j],
        s.tokenizer.max_len == s.bucket_lens.last(),
        s.tokenizer.max_len >= 2,
        tokenizes(s.tokenizer, text, message, after),
    ensures
        message.len <= s.bucket_lens[bucket_for(s.bucket_lens, message.len)],
{
    let replies = choose|replies: Seq<Option<Seq<u32>>>|
        #[trigger] possible_replies(s.tokenizer, words(text), replies) && ({
            let (s1, ids) = run(s.tokenizer, words(text), replies, words(text).len());
            after == s1 && message.ids@ == ids.push(s1.sep_id)
        });
    message_fits(s.tokenizer, words(text), replies);
    bucket_is_shortest_fit(s.bucket_lens, message.len);
    let b = bucket_for(s.bucket_lens, message.len);
    assert(message.len <= s.bucket_lens[b] <==> b <= b && message.len <= s.bucket_lens.last());
}

/// A text whose embedding is in the dedup cache gets that embedding, under its own ID.
pub proof fn known_text_is_reused<T>(
    s: WorkerView,
    id: String,
    text: Seq<char>,
    slots: Seq<Slot<T>>,
    row: Seq<T>,
    r: Result<Routed<T>, String>,
    after: WorkerView,
)
    requires
        can_count(s),
        lookup(slots, fnv1a_of(encode_utf8(text))) == Some(row),
        routes_text(s, id, text, Some(slots), r, after),
    ensures
        r matches Ok(Routed::Reused(batch)) && batch@.ids == seq![id@] && batch@.embeddings == row
            && batch@.n_rows == 1,
{
}

// Laws.

/// Every message is routed, whatever its text: as long as the counters are not nearly full and the
/// tokenizer is sound, none is handed back. One of which normalization leaves nothing comes back as
/// skipped, under its ID and without rows. One whose normalized text has its embedding in the cache,
/// found by the hash of all bytes of that text, comes back with that embedding. Every other one
/// goes on with that hash and the tokens of the whole text.
pub proof fn every_message_is_routed<T>(
    s: WorkerView,
    id: String,
    text: Option<Seq<char>>,
    dedup: Option<Seq<Slot<T>>>,
    r: Result<Routed<T>, String>,
    after: WorkerView,
)
    requires
        routes(s, id, text, dedup, r, after),
        encodes_soundly(s.tokenizer.tokenizer),
        s.processed < 0x8000_0000_0000_0000,
        s.skipped < 0x8000_0000_0000_0000,
        s.dedup_hits < 0x8000_0000_0000_0000,
        s.tokenizer.hits < 0x8000_0000_0000_0000,
        s.tokenizer.misses < 0x8000_0000_0000_0000,
        s.tokenizer.runtime_hits < 0x8000_0000_0000_0000,
        text matches Some(text) ==> encode_utf8(text).len() < 0x8000_0000_0000_0000,
    ensures
        r is Ok,
        text is None <==> r matches Ok(Routed::Skipped(_)),
        r matches Ok(Routed::Skipped(batch)) ==> batch@.ids == seq![id@] && batch@.n_rows == 0
            && batch@.embeddings.len() == 0 && !batch@.inference_failed && after.skipped
            == s.skipped + 1 && after.processed == s.processed,
        r matches Ok(Routed::Reused(batch)) ==> (dedup matches Some(slots) && batch@.ids
            == seq![id@] && batch@.n_rows == 1 && lookup(
            slots,
            fnv1a_of(encode_utf8(text.unwrap())),
        ) == Some(batch@.embeddings) && after.dedup_hits == s.dedup_hits + 1 && after.processed
            == s.processed + 1),
        r matches Ok(Routed::Bucket(bucket, item)) ==> {
            &&& item.id == id
            &&& item.hash == fnv1a_of(encode_utf8(text.unwrap()))
            &&& dedup matches Some(slots) ==> lookup(slots, item.hash) is None
            &&& item.tokens.len == item.tokens.ids@.len()
            &&& unlearned_message(s.tokenizer, words(text.unwrap()), item.tokens.ids@)
            &&& !draws(s.tokenizer.tokenizer) ==> item.tokens.ids@ == message_of(
                s.tokenizer,
                words(text.unwrap()),
            )
            &&& after.processed == s.processed + 1 && after.dedup_hits == s.dedup_hits
        },
        after.settings == s.settings && after.bucket_lens == s.bucket_lens && after.hidden_dim
            == s.hidden_dim,
{
}

/// A skipped or failed batch has the IDs of its messages and no rows, and only the failed one says
/// so. A reused one has one row. A computed one has a row for each ID, in the order of the output.
pub proof fn batches_hold_their_messages<T>(
    id: Seq<char>,
    row: Seq<T>,
    ids: Seq<Seq<char>>,
    output: Seq<T>,
    dim: nat,
    i: int,
)
    ensures
        EmbeddingBatchView::<T>::skipped(id, dim).ids == seq![id],
        EmbeddingBatchView::<T>::skipped(id, dim).n_rows == 0,
        !EmbeddingBatchView::<T>::skipped(id, dim).inference_failed,
        EmbeddingBatchView::<T>::failed(ids, dim).ids == ids,
        EmbeddingBatchView::<T>::failed(ids, dim).n_rows == 0,
        EmbeddingBatchView::<T>::failed(ids, dim).inference_failed,
        EmbeddingBatchView::reused(id, row, dim).ids == seq![id],
        EmbeddingBatchView::reused(id, row, dim).embeddings == row,
        EmbeddingBatchView::reused(id, row, dim).n_rows == 1,
        !EmbeddingBatchView::reused(id, row, dim).inference_failed,
        EmbeddingBatchView::computed(ids, output, dim).ids == ids,
        EmbeddingBatchView::computed(ids, output, dim).n_rows == ids.len(),
        !EmbeddingBatchView::computed(ids, output, dim).inference_failed,
        EmbeddingBatchView::computed(ids, output, dim).hidden_dim == dim,
        ids.len() * dim <= output.len() && 0 <= i < ids.len() * dim
            ==> EmbeddingBatchView::computed(ids, output, dim).embeddings.len() == ids.len() * dim
            && EmbeddingBatchView::computed(ids, output, dim).embeddings[i] == output[i],
{
}

/// Row `i` of values that stand one after the other is the `dim` values behind the rows before it.
pub proof fn row_holds_its_values<T>(values: Seq<T>, dim: int, i: int, c: int)
    requires
        0 <= c < dim,
        0 <= i,
        (i + 1) * dim <= values.len(),
    ensures
        row_of(values, dim, i).len() == dim,
        row_of(values, dim, i)[c] == values[i * dim + c],
{
    assert(i * dim + dim == (i + 1) * dim) by (nonlinear_arith);
    assert(0 <= i * dim) by (nonlinear_arith)
        requires
            0 <= i,
            0 <= dim,
    ;
}

/// A message goes to the shortest bucket that takes its tokens: no shorter one does. If none takes
/// them all, it goes to the longest.
pub proof fn message_goes_to_the_shortest_bucket<T>(
    s: WorkerView,
    id: String,
    text: Seq<char>,
    dedup: Option<Seq<Slot<T>>>,
    bucket: usize,
    item: Queued,
    after: WorkerView,
)
    requires
        s.bucket_lens.len() > 0,
        forall|i: int, j: int|
            0 <= i < j < s.bucket_lens.len() ==> s.bucket_lens[i] < s.bucket_lens[j],
        routes(s, id, Some(text), dedup, Ok(Routed::Bucket(bucket, item)), after),
    ensures
        bucket < s.bucket_lens.len(),
        forall|j: int| 0 <= j < bucket ==> #[trigger] s.bucket_lens[j] < item.tokens.ids@.len(),
        item.tokens.ids@.len() <= s.bucket_lens[bucket as int] || bucket == s.bucket_lens.len() - 1,
{
    bucket_is_shortest_fit(s.bucket_lens, item.tokens.len);
}

/// Whatever the bucket lengths, a message goes to the first bucket that takes it, or to the last.
pub proof fn first_bucket_that_fits_is_taken(lens: Seq<usize>, msg_len: usize)
    requires
        lens.len() > 0,
    ensures
        0 <= bucket_for(lens, msg_len) < lens.len(),
        forall|j: int| 0 <= j < bucket_for(lens, msg_len) ==> #[trigger] lens[j] < msg_len,
        msg_len <= lens[bucket_for(lens, msg_len)] || bucket_for(lens, msg_len) == lens.len() - 1,
    decreases lens.len(),
{
    if lens.len() > 1 && msg_len > lens[0] {
        let rest = lens.drop_first();
        first_bucket_that_fits_is_taken(rest, msg_len);
        assert forall|j: int| 0 <= j < bucket_for(lens, msg_len) implies #[trigger] lens[j]
            < msg_len by {
            if j > 0 {
                assert(rest[j - 1] == lens[j]);
            }
        }
    }
}

}
