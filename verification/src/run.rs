//! A run as a whole: what becomes of its messages, whatever order its threads work in.
//!
//! The workers take the messages from one queue, each message once. What they say of a message goes
//! to the client or to the queue of a bucket. The batches of a bucket go through inference, and
//! then to the client too. All of this happens in no fixed order.

use vstd::multiset::Multiset;
use vstd::prelude::*;
use vstd::utf8::encode_utf8;

use crate::assembler::{
    after_all, batches_hold, every_message_in_one_batch, given_messages, ids_out, items_in,
    messages_are_of_items, messages_of, parts_of, zipped, BatchEvent, ReadyView,
};
use crate::batcher::{
    after_steps, arrivals, batcher_drives_its_assembler, events_of, every_arrival_gets_out,
    BatcherView,
};
use crate::bucket::{batch_of, kept_ids, real_rows, rows_are_read_back, BucketView};
use crate::config::Message;
use crate::dedup::{fnv1a_of, Slot};
use crate::delivery::{delivered, delivered_rows_are_outputs};
use crate::normalize::{
    normalized, same_settings, same_settings_normalize_alike, NormalizerConfig,
};
use crate::report::{
    all_latencies, batches_by_bucket, bucket_batches, bucket_messages, buckets_and_workers_agree,
    messages_by_bucket, reports, sums_fit, EmbedStats, RunCounters,
};
use crate::stats::{latency_figures, puts_in_order, sum_of, GpuWorkerStats};
use crate::tally::{
    gathered, gathered_alike, gathered_from_both, gathered_in_any_order, gathered_with_one_more,
};
use crate::text::words;
use crate::tokenize::{
    as_far_as, content_room, draws, ids_of_word, message_of, possible_replies, run as tokenized,
    run_keeps, strung, unlearned_ids, unlearned_message, unlearned_parts, TokenizedMessage,
    TokenizerView,
};
use crate::worker::{
    bucket_for, routes, row_of, tokenizes, EmbeddingBatchView, Queued, Routed, WorkerTotals,
    WorkerView,
};

verus! {

// The workers.

/// What one worker does in a run: the messages that it takes, what the slots of the dedup cache
/// hold then, what it says of each message, and the states that it goes through. `states` has one
/// more than there are messages. `after` are the states right after each message, before anything
/// is reported.
pub struct WorkerRun<T> {
    pub messages: Seq<Message>,
    pub dedups: Seq<Option<Seq<Slot<T>>>>,
    pub routed: Seq<Routed<T>>,
    pub states: Seq<WorkerView>,
    pub after: Seq<WorkerView>,
}

/// Whether a worker has only reported in between.
pub open spec fn only_reported(a: WorkerView, b: WorkerView) -> bool {
    b == (WorkerView { reported: b.reported, queued: b.queued, ..a })
}

impl<T> WorkerRun<T> {
    /// Whether the worker begins in state `start`, and says of each message what it may say.
    pub open spec fn valid(self, start: WorkerView) -> bool {
        &&& self.dedups.len() == self.messages.len()
        &&& self.routed.len() == self.messages.len()
        &&& self.after.len() == self.messages.len()
        &&& self.states.len() == self.messages.len() + 1
        &&& self.states[0] == start
        &&& forall|i: int| 0 <= i < self.messages.len() ==> #[trigger] self.step(i)
    }

    /// Whether the worker says of message `i` what it may say.
    pub open spec fn step(self, i: int) -> bool {
        let s = self.states[i];
        let msg = self.messages[i];
        &&& routes(
            s,
            msg.id,
            normalized(s.settings, msg.text@),
            self.dedups[i],
            Ok(self.routed[i]),
            self.after[i],
        )
        &&& only_reported(self.after[i], self.states[i + 1])
    }

    /// The state that the worker ends in.
    pub open spec fn end(self) -> WorkerView {
        self.states.last()
    }
}

/// Whether the tokens of a message are those of a text, and its hash is the hash of the text.
pub open spec fn holds_text(tokenizer: TokenizerView, text: Seq<char>, item: Queued) -> bool {
    &&& item.hash == fnv1a_of(encode_utf8(text))
    &&& item.tokens.len == item.tokens.ids@.len()
    &&& unlearned_message(tokenizer, words(text), item.tokens.ids@)
    &&& !draws(tokenizer.tokenizer) ==> item.tokens.ids@ == message_of(tokenizer, words(text))
}

/// Whether a worker that begins in state `start` can have said this of a message: it is skipped if
/// normalization leaves nothing of it, and otherwise has its embedding already or goes to a bucket,
/// with the tokens and the hash of its normalized text.
pub open spec fn said_of<T>(
    start: WorkerView,
    msg: Message,
    dedup: Option<Seq<Slot<T>>>,
    routed: Routed<T>,
) -> bool {
    match (routed, normalized(start.settings, msg.text@)) {
        (Routed::Skipped(batch), None) => batch@.ids == seq![msg.id@] && batch@.n_rows == 0,
        (Routed::Reused(batch), Some(_)) => {
            &&& batch@.ids == seq![msg.id@]
            &&& batch@.n_rows == 1
            &&& !batch@.inference_failed
            &&& dedup is Some
        },
        (Routed::Bucket(bucket, item), Some(text)) => {
            &&& item.id@ == msg.id@
            &&& bucket < start.bucket_lens.len()
            &&& bucket == bucket_for(start.bucket_lens, item.tokens.len)
            &&& holds_text(start.tokenizer, text, item)
        },
        _ => false,
    }
}

/// Whether two tokenizers differ only in what they have learned and counted.
pub open spec fn same_tokenizer(a: TokenizerView, b: TokenizerView) -> bool {
    &&& a.tokenizer == b.tokenizer
    &&& a.known == b.known
    &&& a.cls_id == b.cls_id
    &&& a.sep_id == b.sep_id
    &&& a.max_len == b.max_len
}

proof fn same_tokenizer_same_message(
    a: TokenizerView,
    b: TokenizerView,
    words: Seq<Seq<char>>,
    message: Seq<u32>,
)
    requires
        same_tokenizer(a, b),
        unlearned_message(a, words, message),
    ensures
        unlearned_message(b, words, message),
        message_of(a, words) == message_of(b, words),
{
    let parts = choose|parts: Seq<Seq<u32>>| #[trigger]
        unlearned_parts(a, words, parts) && message == seq![a.cls_id] + as_far_as(
            strung(parts),
            content_room(a),
        ) + seq![a.sep_id];
    assert forall|i: int| 0 <= i < parts.len() implies unlearned_ids(
        b,
        words[i],
        #[trigger] parts[i],
    ) by {
        assert(unlearned_ids(a, words[i], parts[i]));
    }
    assert(unlearned_parts(b, words, parts));
    assert(words.map_values(|w: Seq<char>| ids_of_word(a, w)) =~= words.map_values(
        |w: Seq<char>| ids_of_word(b, w),
    ));
}

proof fn tokenizing_keeps(
    s: TokenizerView,
    text: Seq<char>,
    message: TokenizedMessage,
    after: TokenizerView,
)
    requires
        tokenizes(s, text, message, after),
    ensures
        same_tokenizer(s, after),
{
    let replies = choose|replies: Seq<Option<Seq<u32>>>|
        #[trigger] possible_replies(s, words(text), replies) && ({
            let (s1, ids) = tokenized(s, words(text), replies, words(text).len());
            after == s1 && message.ids@ == ids.push(s1.sep_id)
        });
    run_keeps(s, words(text), replies, words(text).len());
}

/// How many messages were skipped, as far as what was said of them tells.
pub open spec fn skipped_in<T>(routed: Seq<Routed<T>>) -> nat
    decreases routed.len(),
{
    if routed.len() == 0 {
        0
    } else {
        skipped_in(routed.drop_last()) + if routed.last() is Skipped {
            1nat
        } else {
            0
        }
    }
}

/// How many messages had their embedding already.
pub open spec fn reused_in<T>(routed: Seq<Routed<T>>) -> nat
    decreases routed.len(),
{
    if routed.len() == 0 {
        0
    } else {
        reused_in(routed.drop_last()) + if routed.last() is Reused {
            1nat
        } else {
            0
        }
    }
}

/// A worker counts every message that it takes once, as skipped or as processed, and counts the
/// ones that had their embedding already.
pub proof fn worker_counts_its_messages<T>(w: WorkerRun<T>, start: WorkerView, n: int)
    requires
        w.valid(start),
        0 <= n <= w.messages.len(),
    ensures
        ({
            let s = w.states[n];
            let routed = w.routed.take(n);
            &&& s.settings == start.settings
            &&& s.bucket_lens == start.bucket_lens
            &&& same_tokenizer(start.tokenizer, s.tokenizer)
            &&& s.skipped == start.skipped + skipped_in(routed)
            &&& s.dedup_hits == start.dedup_hits + reused_in(routed)
            &&& s.processed + s.skipped == start.processed + start.skipped + n
        }),
        forall|i: int|
            0 <= i < n ==> said_of(
                start,
                w.messages[i],
                w.dedups[i],
                #[trigger] w.routed[i],
            ),
    decreases n,
{
    if n > 0 {
        worker_counts_its_messages(w, start, n - 1);
        assert(w.step(n - 1));
        assert(w.routed.take(n).drop_last() == w.routed.take(n - 1));
        assert(w.routed.take(n).last() == w.routed[n - 1]);
        let s = w.states[n - 1];
        if let Routed::Bucket(_, item) = w.routed[n - 1] {
            let text = normalized(s.settings, w.messages[n - 1].text@).unwrap();
            tokenizing_keeps(s.tokenizer, text, item.tokens, w.after[n - 1].tokenizer);
            same_tokenizer_same_message(
                s.tokenizer,
                start.tokenizer,
                words(text),
                item.tokens.ids@,
            );
        }
    }
}

// What the workers say, brought together.

/// The messages that the workers take, one worker after the other.
pub open spec fn taken<T>(workers: Seq<WorkerRun<T>>) -> Seq<Message>
    decreases workers.len(),
{
    if workers.len() == 0 {
        Seq::empty()
    } else {
        taken(workers.drop_last()) + workers.last().messages
    }
}

/// What the slots of the dedup cache hold when each message is taken.
pub open spec fn caches_seen<T>(workers: Seq<WorkerRun<T>>) -> Seq<Option<Seq<Slot<T>>>>
    decreases workers.len(),
{
    if workers.len() == 0 {
        Seq::empty()
    } else {
        caches_seen(workers.drop_last()) + workers.last().dedups
    }
}

/// What the workers say of the messages, one worker after the other.
pub open spec fn all_routed<T>(workers: Seq<WorkerRun<T>>) -> Seq<Routed<T>>
    decreases workers.len(),
{
    if workers.len() == 0 {
        Seq::empty()
    } else {
        all_routed(workers.drop_last()) + workers.last().routed
    }
}

/// The batches that go to the client at once.
pub open spec fn direct<T>(routed: Seq<Routed<T>>) -> Seq<EmbeddingBatchView<T>>
    decreases routed.len(),
{
    if routed.len() == 0 {
        Seq::empty()
    } else {
        let before = direct(routed.drop_last());
        match routed.last() {
            Routed::Skipped(batch) => before.push(batch@),
            Routed::Reused(batch) => before.push(batch@),
            Routed::Bucket(_, _) => before,
        }
    }
}

/// The ID of a message.
pub open spec fn message_id() -> spec_fn(Message) -> Seq<Seq<char>> {
    |m: Message| seq![m.id@]
}

/// The ID of a message of which normalization leaves something.
pub open spec fn surviving_id(settings: NormalizerConfig) -> spec_fn(Message) -> Seq<Seq<char>> {
    |m: Message|
        if normalized(settings, m.text@) is Some {
            seq![m.id@]
        } else {
            Seq::empty()
        }
}

/// The IDs of a batch.
pub open spec fn ids_of_batch<T>() -> spec_fn(EmbeddingBatchView<T>) -> Seq<Seq<char>> {
    |b: EmbeddingBatchView<T>| b.ids
}

/// The IDs of a batch that have an embedding.
pub open spec fn embedded_in_batch<T>() -> spec_fn(EmbeddingBatchView<T>) -> Seq<Seq<char>> {
    |b: EmbeddingBatchView<T>| b.ids.take(b.n_rows as int)
}

/// The ID of a message that goes to the given bucket.
pub open spec fn queued_id<T>(bucket: int) -> spec_fn(Routed<T>) -> Seq<Seq<char>> {
    |r: Routed<T>|
        match r {
            Routed::Bucket(b, item) => if b == bucket {
                seq![item.id@]
            } else {
                Seq::empty()
            },
            _ => Seq::empty(),
        }
}

/// The IDs of the messages that go to the first `n` buckets.
pub open spec fn queued_ids<T>(routed: Seq<Routed<T>>, n: nat) -> Multiset<Seq<char>>
    decreases n,
{
    if n == 0 {
        Multiset::empty()
    } else {
        queued_ids(routed, (n - 1) as nat).add(gathered(routed, queued_id(n - 1)))
    }
}

proof fn nothing_queued<T>(routed: Seq<Routed<T>>, n: nat)
    requires
        routed.len() == 0,
    ensures
        queued_ids(routed, n) == Multiset::<Seq<char>>::empty(),
    decreases n,
{
    if n > 0 {
        nothing_queued(routed, (n - 1) as nat);
        assert(queued_ids(routed, n) =~= Multiset::<Seq<char>>::empty());
    }
}

proof fn queued_with_one_more<T>(routed: Seq<Routed<T>>, last: Routed<T>, n: nat)
    ensures
        match last {
            Routed::Bucket(b, item) => queued_ids(routed.push(last), n) == if b < n {
                queued_ids(routed, n).insert(item.id@)
            } else {
                queued_ids(routed, n)
            },
            _ => queued_ids(routed.push(last), n) == queued_ids(routed, n),
        },
    decreases n,
{
    broadcast use vstd::seq_lib::group_to_multiset_ensures;

    if n > 0 {
        let b = n - 1;
        let f = queued_id::<T>(b);
        queued_with_one_more(routed, last, (n - 1) as nat);
        gathered_with_one_more(routed, last, f);
        let none = Seq::<Seq<char>>::empty();
        assert(none.to_multiset() =~= Multiset::empty());
        match last {
            Routed::Bucket(at, item) => {
                let one = none.push(item.id@);
                assert(one == seq![item.id@]);
                assert(one.to_multiset() =~= Multiset::singleton(item.id@));
                if at < n {
                    assert(queued_ids(routed.push(last), n) =~= queued_ids(routed, n).insert(
                        item.id@,
                    ));
                } else {
                    assert(queued_ids(routed.push(last), n) =~= queued_ids(routed, n));
                }
            },
            _ => {
                assert(queued_ids(routed.push(last), n) =~= queued_ids(routed, n));
            },
        }
    } else {
        assert(queued_ids(routed.push(last), n) == queued_ids(routed, n));
    }
}

/// Every message that was taken is in a batch that goes to the client at once, or in the queue of a
/// bucket. Those of which normalization leaves something have an embedding in such a batch, or are
/// in the queue of a bucket.
proof fn messages_are_split<T>(
    start: WorkerView,
    messages: Seq<Message>,
    caches: Seq<Option<Seq<Slot<T>>>>,
    routed: Seq<Routed<T>>,
)
    requires
        caches.len() == messages.len(),
        routed.len() == messages.len(),
        forall|i: int|
            0 <= i < messages.len() ==> said_of(
                start,
                messages[i],
                caches[i],
                #[trigger] routed[i],
            ),
    ensures
        gathered(messages, message_id()) == gathered(direct(routed), ids_of_batch()).add(
            queued_ids(routed, start.bucket_lens.len()),
        ),
        gathered(messages, surviving_id(start.settings)) == gathered(
            direct(routed),
            embedded_in_batch(),
        ).add(queued_ids(routed, start.bucket_lens.len())),
        queued_ids(routed, start.bucket_lens.len()).len() + skipped_in(routed) + reused_in(routed)
            == messages.len(),
    decreases messages.len(),
{
    broadcast use vstd::seq_lib::group_to_multiset_ensures;

    let n = start.bucket_lens.len();
    let kept = surviving_id(start.settings);
    let ids = ids_of_batch::<T>();
    let rows = embedded_in_batch::<T>();
    if messages.len() == 0 {
        nothing_queued(routed, n);
        assert(gathered(messages, message_id()) =~= gathered(direct(routed), ids).add(
            queued_ids(routed, n),
        ));
        assert(gathered(messages, kept) =~= gathered(direct(routed), rows).add(
            queued_ids(routed, n),
        ));
    } else {
        let m = messages.drop_last();
        let c = caches.drop_last();
        let r = routed.drop_last();
        let last = routed.last();
        let msg = messages.last();
        assert forall|i: int| 0 <= i < m.len() implies said_of(
            start,
            m[i],
            c[i],
            #[trigger] r[i],
        ) by {
            assert(routed[i] == r[i]);
        }
        messages_are_split(start, m, c, r);
        assert(said_of(start, msg, caches.last(), routed[routed.len() - 1]));
        assert(r.push(last) == routed);
        queued_with_one_more(r, last, n);
        let none = Seq::<Seq<char>>::empty();
        let one = none.push(msg.id@);
        assert(one == seq![msg.id@]);
        assert(none.to_multiset() =~= Multiset::empty());
        assert(one.to_multiset() =~= Multiset::singleton(msg.id@));
        match last {
            Routed::Skipped(batch) => {
                gathered_with_one_more(direct(r), batch@, ids);
                gathered_with_one_more(direct(r), batch@, rows);
                assert(batch@.ids.take(0) == none);
            },
            Routed::Reused(batch) => {
                gathered_with_one_more(direct(r), batch@, ids);
                gathered_with_one_more(direct(r), batch@, rows);
                assert(batch@.ids.take(1) == one);
            },
            Routed::Bucket(_, item) => {
                assert(queued_ids(routed, n).len() == queued_ids(r, n).len() + 1);
            },
        }
        assert(gathered(messages, message_id()) =~= gathered(direct(routed), ids).add(
            queued_ids(routed, n),
        ));
        assert(gathered(messages, kept) =~= gathered(direct(routed), rows).add(
            queued_ids(routed, n),
        ));
    }
}

pub(crate) proof fn all_said<T>(workers: Seq<WorkerRun<T>>, start: WorkerView)
    requires
        forall|w: int| 0 <= w < workers.len() ==> (#[trigger] workers[w]).valid(start),
    ensures
        caches_seen(workers).len() == taken(workers).len(),
        all_routed(workers).len() == taken(workers).len(),
        forall|i: int|
            0 <= i < taken(workers).len() ==> said_of(
                start,
                taken(workers)[i],
                caches_seen(workers)[i],
                #[trigger] all_routed(workers)[i],
            ),
    decreases workers.len(),
{
    if workers.len() > 0 {
        let front = workers.drop_last();
        let last = workers.last();
        assert forall|w: int| 0 <= w < front.len() implies (#[trigger] front[w]).valid(start) by {
            assert(front[w] == workers[w]);
        }
        all_said(front, start);
        assert(workers[workers.len() - 1].valid(start));
        worker_counts_its_messages(last, start, last.messages.len() as int);
        let k = taken(front).len();
        assert forall|i: int| 0 <= i < taken(workers).len() implies said_of(
            start,
            taken(workers)[i],
            caches_seen(workers)[i],
            #[trigger] all_routed(workers)[i],
        ) by {
            if i < k {
                assert(all_routed(front)[i] == all_routed(workers)[i]);
            } else {
                assert(last.routed[i - k] == all_routed(workers)[i]);
            }
        }
    }
}

// The buckets.

/// The messages that go to the given bucket, as the workers send them.
pub open spec fn queue<T>(routed: Seq<Routed<T>>, bucket: int) -> Seq<Queued>
    decreases routed.len(),
{
    if routed.len() == 0 {
        Seq::empty()
    } else {
        let before = queue(routed.drop_last(), bucket);
        match routed.last() {
            Routed::Bucket(b, item) => if b == bucket {
                before.push(item)
            } else {
                before
            },
            _ => before,
        }
    }
}

/// The ID of a message on its way to a batch.
pub open spec fn item_id() -> spec_fn(Queued) -> Seq<Seq<char>> {
    |item: Queued| seq![item.id@]
}

proof fn queue_has_its_ids<T>(routed: Seq<Routed<T>>, bucket: int)
    ensures
        gathered(queue(routed, bucket), item_id()) == gathered(routed, queued_id(bucket)),
    decreases routed.len(),
{
    broadcast use vstd::seq_lib::group_to_multiset_ensures;

    if routed.len() > 0 {
        let front = routed.drop_last();
        queue_has_its_ids(front, bucket);
        let none = Seq::<Seq<char>>::empty();
        assert(none.to_multiset() =~= Multiset::empty());
        let all = gathered(front, queued_id(bucket));
        assert(all.add(Multiset::empty()) =~= all);
        match routed.last() {
            Routed::Bucket(b, item) => if b == bucket {
                gathered_with_one_more(queue(front, bucket), item, item_id());
            },
            _ => {},
        }
    }
}

proof fn item_ids_are_gathered(items: Seq<Queued>)
    ensures
        gathered(items, item_id()) == items.map_values(|item: Queued| item.id@).to_multiset(),
    decreases items.len(),
{
    broadcast use vstd::seq_lib::group_to_multiset_ensures;

    let ids = items.map_values(|item: Queued| item.id@);
    if items.len() == 0 {
        assert(ids.to_multiset() =~= Multiset::empty());
    } else {
        let front = items.drop_last();
        item_ids_are_gathered(front);
        let id = items.last().id@;
        assert(ids == front.map_values(|item: Queued| item.id@).push(id));
        let none = Seq::<Seq<char>>::empty();
        assert(none.to_multiset() =~= Multiset::empty());
        assert(none.push(id) == seq![id]);
        assert(gathered(items, item_id()) =~= ids.to_multiset());
    }
}

proof fn queued_was_said<T>(routed: Seq<Routed<T>>, bucket: int, i: int) -> (j: int)
    requires
        0 <= i < queue(routed, bucket).len(),
    ensures
        0 <= j < routed.len(),
        routed[j] matches Routed::Bucket(b, item) && b == bucket && item == queue(
            routed,
            bucket,
        )[i],
    decreases routed.len(),
{
    let before = queue(routed.drop_last(), bucket);
    if i < before.len() {
        queued_was_said(routed.drop_last(), bucket, i)
    } else {
        routed.len() - 1
    }
}

/// The batches that the events of the first `n` buckets give, one bucket after the other.
pub open spec fn all_ready(
    batchers: Seq<BatcherView>,
    histories: Seq<Seq<(BatchEvent, nat)>>,
    n: nat,
) -> Seq<ReadyView>
    decreases n,
{
    if n == 0 {
        Seq::empty()
    } else {
        all_ready(batchers, histories, (n - 1) as nat) + after_steps(
            batchers[n - 1],
            histories[n - 1],
        ).1
    }
}

/// The IDs of a batch.
pub open spec fn ids_of_ready() -> spec_fn(ReadyView) -> Seq<Seq<char>> {
    |r: ReadyView| r.ids
}

proof fn ready_ids_are_gathered(given: Seq<ReadyView>)
    ensures
        gathered(given, ids_of_ready()) == ids_out(given).to_multiset(),
    decreases given.len(),
{
    broadcast use vstd::seq_lib::group_to_multiset_ensures;

    if given.len() == 0 {
        assert(ids_out(given).to_multiset() =~= Multiset::empty());
    } else {
        ready_ids_are_gathered(given.drop_last());
        vstd::seq_lib::lemma_multiset_commutative(ids_out(given.drop_last()), given.last().ids);
    }
}

/// Whether the queue of a bucket that waits for nothing is fed and closed: the messages that come
/// in are those that the workers send to it, in any order, and then no message will come in any
/// more.
pub open spec fn bucket_is_fed<T>(
    batcher: BatcherView,
    history: Seq<(BatchEvent, nat)>,
    routed: Seq<Routed<T>>,
    bucket: int,
) -> bool {
    &&& batcher.valid()
    &&& batcher.assembler.bucket == bucket
    &&& batcher.assembler.shape.pending.len() == 0
    &&& history.len() > 0
    &&& history.last().0 is Disconnected
    &&& arrivals(history).to_multiset() == queue(routed, bucket).to_multiset()
}

proof fn queued_get_ready<T>(
    batchers: Seq<BatcherView>,
    histories: Seq<Seq<(BatchEvent, nat)>>,
    routed: Seq<Routed<T>>,
    n: nat,
)
    requires
        n <= batchers.len(),
        n <= histories.len(),
        forall|b: int|
            0 <= b < n ==> bucket_is_fed(#[trigger] batchers[b], histories[b], routed, b),
    ensures
        gathered(all_ready(batchers, histories, n), ids_of_ready()) == queued_ids(routed, n),
    decreases n,
{
    if n > 0 {
        let b = n - 1;
        queued_get_ready(batchers, histories, routed, b as nat);
        assert(bucket_is_fed(batchers[b], histories[b], routed, b));
        let given = after_steps(batchers[b], histories[b]).1;
        every_arrival_gets_out(batchers[b], histories[b]);
        ready_ids_are_gathered(given);
        let items = arrivals(histories[b]);
        item_ids_are_gathered(items);
        gathered_in_any_order(items, queue(routed, b), item_id());
        queue_has_its_ids(routed, b);
        gathered_from_both(all_ready(batchers, histories, b as nat), given, ids_of_ready());
    }
}

/// A batch has an ID for each of its messages, and no more messages than its bucket takes.
proof fn ready_batches_fit<T>(
    batchers: Seq<BatcherView>,
    histories: Seq<Seq<(BatchEvent, nat)>>,
    routed: Seq<Routed<T>>,
    n: nat,
)
    requires
        n <= batchers.len(),
        n <= histories.len(),
        forall|b: int|
            0 <= b < n ==> bucket_is_fed(#[trigger] batchers[b], histories[b], routed, b),
    ensures
        forall|k: int|
            0 <= k < all_ready(batchers, histories, n).len() ==> fits_its_bucket(
                batchers,
                n,
                #[trigger] all_ready(batchers, histories, n)[k],
            ),
    decreases n,
{
    if n > 0 {
        let b = n - 1;
        let front = all_ready(batchers, histories, b as nat);
        let all = all_ready(batchers, histories, n);
        ready_batches_fit(batchers, histories, routed, b as nat);
        assert(bucket_is_fed(batchers[b], histories[b], routed, b));
        batcher_drives_its_assembler(batchers[b], histories[b]);
        every_message_in_one_batch(
            batchers[b].assembler,
            events_of(batchers[b], histories[b]),
        );
        let given = after_steps(batchers[b], histories[b]).1;
        assert forall|k: int| 0 <= k < all.len() implies fits_its_bucket(
            batchers,
            n,
            #[trigger] all[k],
        ) by {
            if k < front.len() {
                assert(front[k] == all[k]);
            } else {
                assert(given[k - front.len()] == all[k]);
            }
        }
    }
}

/// Whether a batch has an ID for each of its messages, and no more messages than its bucket takes.
pub open spec fn fits_its_bucket(
    batchers: Seq<BatcherView>,
    n: nat,
    ready: ReadyView,
) -> bool {
    let b = ready.batch.bucket_idx;
    &&& 0 <= b < n
    &&& ready.ids.len() == ready.batch.n_real
    &&& ready.batch.n_real <= batchers[b].assembler.shape.batch_size
}

// The run.

/// A run: its messages, what each worker does, what happens to each bucket, what inference gives
/// for each batch, and the batches that come to the client, in their order.
pub struct Run<T> {
    pub messages: Seq<Message>,
    pub start: WorkerView,
    pub workers: Seq<WorkerRun<T>>,
    pub batchers: Seq<BatcherView>,
    pub histories: Seq<Seq<(BatchEvent, nat)>>,
    pub outputs: Seq<Option<Seq<T>>>,
    pub out: Seq<EmbeddingBatchView<T>>,
}

impl<T> Run<T> {
    /// How many buckets there are.
    pub open spec fn n_buckets(self) -> nat {
        self.start.bucket_lens.len()
    }

    /// What the workers say.
    pub open spec fn routed(self) -> Seq<Routed<T>> {
        all_routed(self.workers)
    }

    /// The batches that go through inference.
    pub open spec fn ready(self) -> Seq<ReadyView> {
        all_ready(self.batchers, self.histories, self.n_buckets())
    }

    /// What the client gets of the batches that go through inference.
    pub open spec fn done(self) -> Seq<EmbeddingBatchView<T>> {
        Seq::new(
            self.ready().len(),
            |k: int| delivered(self.ready()[k], self.outputs[k], self.start.hidden_dim),
        )
    }

    /// Whether every message is taken by one worker, every worker and every bucket does what it
    /// may do, and the client gets what they give, each batch once, all in any order.
    pub open spec fn valid(self) -> bool {
        &&& taken(self.workers).to_multiset() == self.messages.to_multiset()
        &&& forall|w: int|
            0 <= w < self.workers.len() ==> (#[trigger] self.workers[w]).valid(self.start)
        &&& self.batchers.len() == self.n_buckets()
        &&& self.histories.len() == self.n_buckets()
        &&& forall|b: int|
            0 <= b < self.n_buckets() ==> bucket_is_fed(
                #[trigger] self.batchers[b],
                self.histories[b],
                self.routed(),
                b,
            )
        &&& self.outputs.len() == self.ready().len()
        &&& self.out.to_multiset() == (direct(self.routed()) + self.done()).to_multiset()
    }

    /// Whether inference fails for no batch.
    pub open spec fn nothing_fails(self) -> bool {
        forall|k: int| 0 <= k < self.outputs.len() ==> #[trigger] self.outputs[k] is Some
    }

    /// Whether there is no dedup cache.
    pub open spec fn without_cache(self) -> bool {
        forall|w: int, i: int|
            0 <= w < self.workers.len() && 0 <= i < self.workers[w].dedups.len() ==> (
            #[trigger] self.workers[w].dedups[i]) is None
    }
}

/// Every message comes back once: in whatever order the threads of a run work, and whether or not
/// inference fails, the IDs of the batches that come to the client are the IDs of the messages,
/// each as often as the messages have it.
pub proof fn every_message_comes_back_once<T>(run: Run<T>)
    requires
        run.valid(),
    ensures
        gathered(run.out, ids_of_batch()) == gathered(run.messages, message_id()),
{
    let n = run.n_buckets();
    let routed = run.routed();
    let ids = ids_of_batch::<T>();
    all_said(run.workers, run.start);
    messages_are_split(
        run.start,
        taken(run.workers),
        caches_seen(run.workers),
        routed,
    );
    gathered_in_any_order(taken(run.workers), run.messages, message_id());
    queued_get_ready(run.batchers, run.histories, routed, n);
    let ready = run.ready();
    assert forall|k: int| 0 <= k < ready.len() implies ids_of_ready()(#[trigger] ready[k]) == ids(
        run.done()[k],
    ) by {}
    gathered_alike(ready, ids_of_ready(), run.done(), ids);
    gathered_from_both(direct(routed), run.done(), ids);
    gathered_in_any_order(run.out, direct(routed) + run.done(), ids);
}

/// Where inference does not fail, exactly the messages of which normalization leaves something get
/// an embedding.
pub proof fn surviving_messages_are_embedded<T>(run: Run<T>)
    requires
        run.valid(),
        run.nothing_fails(),
    ensures
        gathered(run.out, embedded_in_batch()) == gathered(
            run.messages,
            surviving_id(run.start.settings),
        ),
{
    let n = run.n_buckets();
    let routed = run.routed();
    let rows = embedded_in_batch::<T>();
    let kept = surviving_id(run.start.settings);
    all_said(run.workers, run.start);
    messages_are_split(
        run.start,
        taken(run.workers),
        caches_seen(run.workers),
        routed,
    );
    gathered_in_any_order(taken(run.workers), run.messages, kept);
    queued_get_ready(run.batchers, run.histories, routed, n);
    let ready = run.ready();
    assert forall|k: int| 0 <= k < ready.len() implies ids_of_ready()(#[trigger] ready[k]) == rows(
        run.done()[k],
    ) by {
        assert(run.outputs[k] is Some);
        assert(ready[k].ids.take(ready[k].ids.len() as int) == ready[k].ids);
    }
    gathered_alike(ready, ids_of_ready(), run.done(), rows);
    gathered_from_both(direct(routed), run.done(), rows);
    gathered_in_any_order(run.out, direct(routed) + run.done(), rows);
}

/// The dedup cache changes no IDs: two runs of the same messages, in any order, with settings that
/// say the same, one with the cache and one without it or with another, give embeddings for the
/// same messages where inference does not fail.
pub proof fn cache_changes_no_ids<T>(a: Run<T>, b: Run<T>)
    requires
        a.valid(),
        b.valid(),
        a.nothing_fails(),
        b.nothing_fails(),
        a.messages.to_multiset() == b.messages.to_multiset(),
        same_settings(a.start.settings, b.start.settings),
    ensures
        gathered(a.out, embedded_in_batch()) == gathered(b.out, embedded_in_batch()),
        gathered(a.out, ids_of_batch()) == gathered(b.out, ids_of_batch()),
{
    surviving_messages_are_embedded(a);
    surviving_messages_are_embedded(b);
    every_message_comes_back_once(a);
    every_message_comes_back_once(b);
    let in_a = surviving_id(a.start.settings);
    let in_b = surviving_id(b.start.settings);
    assert forall|i: int| 0 <= i < a.messages.len() implies in_a(#[trigger] a.messages[i]) == in_b(
        a.messages[i],
    ) by {
        same_settings_normalize_alike(
            a.start.settings,
            b.start.settings,
            a.messages[i].text@,
        );
    }
    gathered_alike(a.messages, in_a, a.messages, in_b);
    gathered_in_any_order(a.messages, b.messages, in_b);
    gathered_in_any_order(a.messages, b.messages, message_id());
}

// The rows.

/// Whether row `i` of a batch holds a message: under the message's ID stand the hash of its
/// normalized text and, as far as the bucket keeps them, the tokens of that text.
pub open spec fn row_holds(
    start: WorkerView,
    ready: ReadyView,
    i: int,
    msg: Message,
    item: Queued,
) -> bool {
    &&& ready.ids[i] == msg.id@
    &&& normalized(start.settings, msg.text@) matches Some(text) && holds_text(
        start.tokenizer,
        text,
        item,
    )
    &&& ready.hashes[i] == item.hash
    &&& real_rows(ready.batch)[i] == kept_ids(item.tokens, ready.batch.bucket_len)
}

proof fn ready_comes_from(
    batchers: Seq<BatcherView>,
    histories: Seq<Seq<(BatchEvent, nat)>>,
    n: nat,
    k: int,
) -> (r: (int, int))
    requires
        0 <= k < all_ready(batchers, histories, n).len(),
    ensures
        0 <= r.0 < n,
        0 <= r.1 < after_steps(batchers[r.0], histories[r.0]).1.len(),
        all_ready(batchers, histories, n)[k] == after_steps(batchers[r.0], histories[r.0]).1[r.1],
    decreases n,
{
    let front = all_ready(batchers, histories, (n - 1) as nat);
    if k < front.len() {
        ready_comes_from(batchers, histories, (n - 1) as nat, k)
    } else {
        (n - 1, k - front.len())
    }
}

proof fn given_message_at(
    given: Seq<ReadyView>,
    parts: Seq<Seq<Seq<u32>>>,
    k: int,
    i: int,
) -> (at: int)
    requires
        parts.len() == given.len(),
        0 <= k < given.len(),
        0 <= i < parts[k].len(),
    ensures
        0 <= at < given_messages(given, parts).len(),
        given_messages(given, parts)[at] == (given[k].ids[i], given[k].hashes[i], parts[k][i]),
    decreases given.len(),
{
    let before = given_messages(given.drop_last(), parts.drop_last());
    if k < given.len() - 1 {
        given_message_at(given.drop_last(), parts.drop_last(), k, i)
    } else {
        before.len() + i
    }
}

/// The message in row `i` of batch `k` of a bucket was sent to it, and holds the text of a message
/// of the run.
proof fn row_was_sent<T>(run: Run<T>, b: int, k: int, i: int) -> (r: (int, Queued))
    requires
        run.valid(),
        0 <= b < run.n_buckets(),
        0 <= k < after_steps(run.batchers[b], run.histories[b]).1.len(),
        0 <= i < after_steps(run.batchers[b], run.histories[b]).1[k].ids.len(),
    ensures
        ({
            let (j, item) = r;
            let s = run.batchers[b].assembler;
            let ready = after_steps(run.batchers[b], run.histories[b]).1[k];
            let part = parts_of(s, events_of(run.batchers[b], run.histories[b]))[k];
            &&& 0 <= j < run.messages.len()
            &&& ready.batch == batch_of(b, BucketView { pending: part, ..s.shape })
            &&& ready.ids.len() == part.len() <= s.shape.batch_size
            &&& s.shape.len >= 0
            &&& ready.ids[i] == item.id@
            &&& item.id@ == run.messages[j].id@
            &&& ready.hashes[i] == item.hash
            &&& part[i] == kept_ids(item.tokens, s.shape.len)
            &&& normalized(run.start.settings, run.messages[j].text@) matches Some(text)
                && holds_text(run.start.tokenizer, text, item)
        }),
{
    broadcast use vstd::seq_lib::group_to_multiset_ensures;

    let batcher = run.batchers[b];
    let history = run.histories[b];
    let routed = run.routed();
    let s = batcher.assembler;
    let events = events_of(batcher, history);
    let given = after_steps(batcher, history).1;
    let parts = parts_of(s, events);
    let items = items_in(events);
    assert(bucket_is_fed(run.batchers[b], run.histories[b], routed, b));
    batcher_drives_its_assembler(batcher, history);
    every_message_in_one_batch(s, events);
    assert(batches_hold(s, given, parts));
    assert(given[k].ids.len() == parts[k].len());
    let at = given_message_at(given, parts, k, i);
    let end = after_all(s, events).0;
    let waiting = zipped(end.ids, end.hashes, end.shape.pending);
    assert((given_messages(given, parts) + waiting)[at] == given_messages(given, parts)[at]);
    messages_are_of_items(events, s.shape.len);
    let item = items[at];
    assert(messages_of(events, s.shape.len)[at] == (
        item.id@,
        item.hash,
        kept_ids(item.tokens, s.shape.len),
    ));
    assert(items == arrivals(history));
    assert(items.contains(item));
    assert(items.to_multiset().count(item) > 0);
    let sent = queue(routed, b);
    assert(sent.contains(item));
    let q = choose|q: int| 0 <= q < sent.len() && sent[q] == item;
    let w = queued_was_said(routed, b, q);
    all_said(run.workers, run.start);
    assert(said_of(
        run.start,
        taken(run.workers)[w],
        caches_seen(run.workers)[w],
        routed[w],
    ));
    let msg = taken(run.workers)[w];
    assert(taken(run.workers).contains(msg));
    assert(taken(run.workers).to_multiset().count(msg) > 0);
    assert(run.messages.contains(msg));
    let j = choose|j: int| 0 <= j < run.messages.len() && run.messages[j] == msg;
    (j, item)
}

/// Every row holds its own message: in whatever order the threads of a run work, row `i` of every
/// batch holds, under the ID of a message of the run, the hash and the tokens of that message's
/// normalized text. What the client gets for that ID is what inference gave for that row.
pub proof fn every_row_holds_its_message<T>(run: Run<T>, k: int, i: int)
    requires
        run.valid(),
        0 <= k < run.ready().len(),
        0 <= i < run.ready()[k].ids.len(),
    ensures
        exists|j: int, item: Queued|
            0 <= j < run.messages.len() && #[trigger] row_holds(
                run.start,
                run.ready()[k],
                i,
                run.messages[j],
                item,
            ),
        run.done()[k].ids == run.ready()[k].ids,
        run.outputs[k] matches Some(values) && run.ready()[k].ids.len() * run.start.hidden_dim
            <= values.len() ==> row_of(
            run.done()[k].embeddings,
            run.start.hidden_dim as int,
            i,
        ) == row_of(run.outputs[k].unwrap(), run.start.hidden_dim as int, i),
{
    let (b, at) = ready_comes_from(run.batchers, run.histories, run.n_buckets(), k);
    let ready = run.ready()[k];
    let s = run.batchers[b].assembler;
    let part = parts_of(s, events_of(run.batchers[b], run.histories[b]))[at];
    let (j, item) = row_was_sent(run, b, at, i);
    assert forall|r: int| 0 <= r < part.len() implies (#[trigger] part[r]).len()
        <= s.shape.len by {
        let (_, other) = row_was_sent(run, b, at, r);
        assert(part[r] == kept_ids(other.tokens, s.shape.len));
    }
    rows_are_read_back(b, BucketView { pending: part, ..s.shape });
    assert(row_holds(run.start, ready, i, run.messages[j], item));
    if let Some(values) = run.outputs[k] {
        if ready.ids.len() * run.start.hidden_dim <= values.len() {
            delivered_rows_are_outputs(ready, values, run.start.hidden_dim, i);
        }
    }
}

// The report.

/// What one GPU worker does in a run: the batches that it runs, each with the room that there is
/// in it and the latency of its inference, and the counters that it goes through, one more than
/// there are batches.
pub struct GpuRun {
    pub batches: Seq<ReadyView>,
    pub capacities: Seq<usize>,
    pub latencies: Seq<u64>,
    pub states: Seq<GpuWorkerStats>,
}

impl GpuRun {
    /// Whether the worker begins with nothing counted, and counts every batch.
    pub open spec fn valid(self, n_buckets: nat) -> bool {
        &&& self.capacities.len() == self.batches.len()
        &&& self.latencies.len() == self.batches.len()
        &&& self.states.len() == self.batches.len() + 1
        &&& self.states[0].valid()
        &&& self.states[0].batches == 0
        &&& self.states[0].total_rows == 0
        &&& self.states[0].total_capacity == 0
        &&& self.states[0].per_bucket_batches@.len() == n_buckets
        &&& forall|i: int| 0 <= i < self.batches.len() ==> #[trigger] self.step(i)
    }

    /// Whether the worker counts batch `i`.
    pub open spec fn step(self, i: int) -> bool {
        let batch = self.batches[i].batch;
        &&& 0 <= batch.bucket_idx < self.states[i].per_bucket_batches@.len()
        &&& 0 <= batch.n_real <= usize::MAX
        &&& self.states[i + 1].valid()
        &&& self.states[i + 1].counted(
            self.states[i],
            batch.bucket_idx as usize,
            batch.n_real as usize,
            self.capacities[i],
            self.latencies[i],
        )
    }

    /// What the worker has counted in the end.
    pub open spec fn end(self) -> GpuWorkerStats {
        self.states.last()
    }
}

/// The batches that the GPU workers run, one worker after the other.
pub open spec fn all_run(gpus: Seq<GpuRun>) -> Seq<ReadyView>
    decreases gpus.len(),
{
    if gpus.len() == 0 {
        Seq::empty()
    } else {
        all_run(gpus.drop_last()) + gpus.last().batches
    }
}

/// What the GPU workers have counted in the end.
pub open spec fn gpu_ends(gpus: Seq<GpuRun>) -> Seq<GpuWorkerStats> {
    gpus.map_values(|g: GpuRun| g.end())
}

/// Whether a batch has an ID for each of its messages, and no more messages than there is room for.
pub open spec fn has_room(ready: ReadyView, capacity: usize) -> bool {
    ready.ids.len() == ready.batch.n_real && ready.batch.n_real <= capacity
}

proof fn gpu_counts_its_batches(g: GpuRun, n_buckets: nat, n: int)
    requires
        g.valid(n_buckets),
        0 <= n <= g.batches.len(),
        forall|i: int| 0 <= i < n ==> has_room(#[trigger] g.batches[i], g.capacities[i]),
    ensures
        ({
            let s = g.states[n];
            &&& s.valid()
            &&& s.batches == n
            &&& s.total_rows == gathered(g.batches.take(n), ids_of_ready()).len()
            &&& s.total_rows <= s.total_capacity
            &&& s.per_bucket_batches@.len() == n_buckets
        }),
    decreases n,
{
    broadcast use vstd::seq_lib::group_to_multiset_ensures;

    if n > 0 {
        gpu_counts_its_batches(g, n_buckets, n - 1);
        assert(g.step(n - 1));
        assert(has_room(g.batches[n - 1], g.capacities[n - 1]));
        assert(g.batches.take(n).drop_last() == g.batches.take(n - 1));
        let ids = ids_of_ready()(g.batches[n - 1]);
        assert(ids.to_multiset().len() == ids.len());
    } else {
        assert(g.batches.take(0).len() == 0);
    }
}

proof fn gpus_count_their_batches(gpus: Seq<GpuRun>, n_buckets: nat)
    requires
        forall|w: int| 0 <= w < gpus.len() ==> (#[trigger] gpus[w]).valid(n_buckets),
        forall|w: int, i: int|
            0 <= w < gpus.len() && 0 <= i < gpus[w].batches.len() ==> has_room(
                #[trigger] gpus[w].batches[i],
                gpus[w].capacities[i],
            ),
    ensures
        ({
            let ends = gpu_ends(gpus);
            let rows = sum_of(ends.map_values(|g: GpuWorkerStats| g.total_rows));
            &&& sum_of(ends.map_values(|g: GpuWorkerStats| g.batches)) == all_run(gpus).len()
            &&& rows == gathered(all_run(gpus), ids_of_ready()).len()
            &&& rows <= sum_of(ends.map_values(|g: GpuWorkerStats| g.total_capacity))
            &&& all_latencies(ends).len() == all_run(gpus).len()
            &&& forall|w: int|
                0 <= w < ends.len() ==> (#[trigger] ends[w]).valid()
                    && ends[w].per_bucket_batches@.len() == n_buckets
        }),
    decreases gpus.len(),
{
    let ends = gpu_ends(gpus);
    let rows = ends.map_values(|g: GpuWorkerStats| g.total_rows);
    let batches = ends.map_values(|g: GpuWorkerStats| g.batches);
    let rooms = ends.map_values(|g: GpuWorkerStats| g.total_capacity);
    if gpus.len() > 0 {
        let front = gpus.drop_last();
        let last = gpus.last();
        let k = gpus.len() - 1;
        assert forall|w: int| 0 <= w < front.len() implies (#[trigger] front[w]).valid(
            n_buckets,
        ) by {
            assert(front[w] == gpus[w]);
        }
        assert forall|w: int, i: int|
            0 <= w < front.len() && 0 <= i < front[w].batches.len() implies has_room(
            #[trigger] front[w].batches[i],
            front[w].capacities[i],
        ) by {
            assert(has_room(gpus[w].batches[i], gpus[w].capacities[i]));
        }
        gpus_count_their_batches(front, n_buckets);
        assert(gpus[k].valid(n_buckets));
        assert forall|i: int| 0 <= i < last.batches.len() implies has_room(
            #[trigger] last.batches[i],
            last.capacities[i],
        ) by {
            assert(has_room(gpus[k].batches[i], gpus[k].capacities[i]));
        }
        gpu_counts_its_batches(last, n_buckets, last.batches.len() as int);
        assert(last.batches.take(last.batches.len() as int) == last.batches);
        gathered_from_both(all_run(front), last.batches, ids_of_ready());
        let before = gpu_ends(front);
        assert(ends.drop_last() == before);
        assert(rows.drop_last() == before.map_values(|g: GpuWorkerStats| g.total_rows));
        assert(batches.drop_last() == before.map_values(|g: GpuWorkerStats| g.batches));
        assert(rooms.drop_last() == before.map_values(|g: GpuWorkerStats| g.total_capacity));
        assert forall|w: int| 0 <= w < ends.len() implies (#[trigger] ends[w]).valid()
            && ends[w].per_bucket_batches@.len() == n_buckets by {
            if w < k {
                assert(before[w] == ends[w]);
            }
        }
    }
}

proof fn workers_count_their_messages<T>(
    workers: Seq<WorkerRun<T>>,
    start: WorkerView,
    totals: Seq<WorkerTotals>,
)
    requires
        start.processed == 0 && start.skipped == 0 && start.dedup_hits == 0,
        totals.len() == workers.len(),
        forall|w: int| 0 <= w < workers.len() ==> (#[trigger] workers[w]).valid(start),
        forall|w: int|
            0 <= w < workers.len() ==> counted_by(#[trigger] workers[w].end(), totals[w]),
    ensures
        ({
            let processed = sum_of(totals.map_values(|t: WorkerTotals| t.processed));
            let skipped = sum_of(totals.map_values(|t: WorkerTotals| t.skipped));
            let reused = sum_of(totals.map_values(|t: WorkerTotals| t.dedup_hits));
            &&& processed + skipped == taken(workers).len()
            &&& skipped == skipped_in(all_routed(workers))
            &&& reused == reused_in(all_routed(workers))
        }),
    decreases workers.len(),
{
    let processed = totals.map_values(|t: WorkerTotals| t.processed);
    let skipped = totals.map_values(|t: WorkerTotals| t.skipped);
    let reused = totals.map_values(|t: WorkerTotals| t.dedup_hits);
    if workers.len() > 0 {
        let front = workers.drop_last();
        let last = workers.last();
        let before = totals.drop_last();
        let k = workers.len() - 1;
        assert forall|w: int| 0 <= w < front.len() implies (#[trigger] front[w]).valid(start) by {
            assert(front[w] == workers[w]);
        }
        assert forall|w: int| 0 <= w < front.len() implies counted_by(
            #[trigger] front[w].end(),
            before[w],
        ) by {
            assert(counted_by(workers[w].end(), totals[w]));
        }
        workers_count_their_messages(front, start, before);
        assert(workers[k].valid(start));
        assert(counted_by(workers[k].end(), totals[k]));
        worker_counts_its_messages(last, start, last.messages.len() as int);
        assert(last.routed.take(last.messages.len() as int) == last.routed);
        assert(processed.drop_last() == before.map_values(|t: WorkerTotals| t.processed));
        assert(skipped.drop_last() == before.map_values(|t: WorkerTotals| t.skipped));
        assert(reused.drop_last() == before.map_values(|t: WorkerTotals| t.dedup_hits));
        counts_add_up(all_routed(front), last.routed);
    }
}

proof fn counts_add_up<T>(a: Seq<Routed<T>>, b: Seq<Routed<T>>)
    ensures
        skipped_in(a + b) == skipped_in(a) + skipped_in(b),
        reused_in(a + b) == reused_in(a) + reused_in(b),
    decreases b.len(),
{
    if b.len() == 0 {
        assert(a + b == a);
    } else {
        counts_add_up(a, b.drop_last());
        assert((a + b).drop_last() == a + b.drop_last());
    }
}

/// Whether totals are those of a worker in state `s`.
pub open spec fn counted_by(s: WorkerView, totals: WorkerTotals) -> bool {
    totals.processed == s.processed && totals.skipped == s.skipped && totals.dedup_hits
        == s.dedup_hits
}

/// Whether the GPU workers run the batches of a run, each batch once and in any order, and count
/// for each the room that its bucket has.
pub open spec fn gpus_run<T>(gpus: Seq<GpuRun>, run: Run<T>) -> bool {
    &&& forall|w: int| 0 <= w < gpus.len() ==> (#[trigger] gpus[w]).valid(run.n_buckets())
    &&& forall|w: int, i: int|
        0 <= w < gpus.len() && 0 <= i < gpus[w].batches.len() ==> gpus[w].capacities[i]
            == run.batchers[(
            #[trigger] gpus[w].batches[i]).batch.bucket_idx].assembler.shape.batch_size
    &&& all_run(gpus).to_multiset() == run.ready().to_multiset()
}

/// Whether `totals` are what the workers of a run have counted in the end.
pub open spec fn workers_counted<T>(run: Run<T>, totals: Seq<WorkerTotals>) -> bool {
    &&& run.start.processed == 0 && run.start.skipped == 0 && run.start.dedup_hits == 0
    &&& totals.len() == run.workers.len()
    &&& forall|w: int|
        0 <= w < totals.len() ==> counted_by(#[trigger] run.workers[w].end(), totals[w])
}

proof fn run_batch_is_in(gpus: Seq<GpuRun>, w: int, i: int)
    requires
        0 <= w < gpus.len(),
        0 <= i < gpus[w].batches.len(),
    ensures
        all_run(gpus).contains(gpus[w].batches[i]),
    decreases gpus.len(),
{
    let front = gpus.drop_last();
    let all = all_run(gpus);
    if w < front.len() {
        run_batch_is_in(front, w, i);
        let j = choose|j: int|
            0 <= j < all_run(front).len() && all_run(front)[j] == front[w].batches[i];
        assert(all[j] == gpus[w].batches[i]);
    } else {
        assert(all[all_run(front).len() + i] == gpus[w].batches[i]);
    }
}

proof fn batches_have_room<T>(gpus: Seq<GpuRun>, run: Run<T>)
    requires
        run.valid(),
        gpus_run(gpus, run),
    ensures
        forall|w: int, i: int|
            0 <= w < gpus.len() && 0 <= i < gpus[w].batches.len() ==> has_room(
                #[trigger] gpus[w].batches[i],
                gpus[w].capacities[i],
            ),
{
    broadcast use vstd::seq_lib::group_to_multiset_ensures;

    let ready = run.ready();
    ready_batches_fit(run.batchers, run.histories, run.routed(), run.n_buckets());
    assert forall|w: int, i: int|
        0 <= w < gpus.len() && 0 <= i < gpus[w].batches.len() implies has_room(
        #[trigger] gpus[w].batches[i],
        gpus[w].capacities[i],
    ) by {
        let batch = gpus[w].batches[i];
        run_batch_is_in(gpus, w, i);
        assert(all_run(gpus).to_multiset().count(batch) > 0);
        assert(ready.contains(batch));
        let k = choose|k: int| 0 <= k < ready.len() && ready[k] == batch;
        assert(fits_its_bucket(run.batchers, run.n_buckets(), ready[k]));
    }
}

proof fn bucket_lists_add_up(gpus: Seq<GpuWorkerStats>, n: nat)
    requires
        forall|b: int|
            0 <= b < n ==> sum_of(#[trigger] bucket_batches(gpus, b)) <= u64::MAX,
        forall|b: int|
            0 <= b < n ==> sum_of(#[trigger] bucket_messages(gpus, b)) <= u64::MAX,
    ensures
        sum_of(Seq::new(n, |b: int| sum_of(bucket_batches(gpus, b)) as u64)) == batches_by_bucket(
            gpus,
            n,
        ),
        sum_of(Seq::new(n, |b: int| sum_of(bucket_messages(gpus, b)) as u64))
            == messages_by_bucket(gpus, n),
    decreases n,
{
    if n > 0 {
        let k = (n - 1) as nat;
        bucket_lists_add_up(gpus, k);
        let batches = Seq::new(n, |b: int| sum_of(bucket_batches(gpus, b)) as u64);
        let messages = Seq::new(n, |b: int| sum_of(bucket_messages(gpus, b)) as u64);
        assert(batches.drop_last() == Seq::new(
            k,
            |b: int| sum_of(bucket_batches(gpus, b)) as u64,
        ));
        assert(messages.drop_last() == Seq::new(
            k,
            |b: int| sum_of(bucket_messages(gpus, b)) as u64,
        ));
        assert(sum_of(bucket_batches(gpus, k as int)) <= u64::MAX);
        assert(sum_of(bucket_messages(gpus, k as int)) <= u64::MAX);
    }
}

/// The report of a run adds up. Every message is counted once, as processed or as skipped. The
/// messages of all buckets are the processed ones that did not have their embedding already. The
/// batches of all GPU workers, those of all buckets and the latencies are as many as the batches
/// that were computed. No more rows are counted than there was room for. Without a dedup cache no
/// message has its embedding already.
pub proof fn report_adds_up<T>(
    run: Run<T>,
    gpus: Seq<GpuRun>,
    totals: Seq<WorkerTotals>,
    counters: RunCounters,
    stats: EmbedStats,
)
    requires
        run.valid(),
        gpus_run(gpus, run),
        workers_counted(run, totals),
        counters.n_buckets == run.n_buckets(),
        sums_fit(totals, gpu_ends(gpus), run.n_buckets()),
        reports(totals, gpu_ends(gpus), counters, stats),
    ensures
        stats.messages_processed + stats.messages_skipped == run.messages.len(),
        sum_of(stats.per_bucket_messages@) + stats.dedup_hits == stats.messages_processed,
        sum_of(stats.per_bucket_messages@) == stats.total_rows,
        sum_of(stats.per_bucket_batches@) == stats.batches_computed,
        sum_of(stats.per_gpu_batches@) == stats.batches_computed,
        stats.inference_latency.count == stats.batches_computed,
        stats.batches_computed == run.ready().len(),
        stats.per_bucket_batches@.len() == run.n_buckets(),
        stats.per_bucket_messages@.len() == run.n_buckets(),
        stats.total_rows <= stats.total_capacity,
        run.without_cache() ==> stats.dedup_hits == 0,
{
    broadcast use vstd::seq_lib::group_to_multiset_ensures;

    let n = run.n_buckets();
    let ends = gpu_ends(gpus);
    let routed = run.routed();
    assert(taken(run.workers).len() == run.messages.len()) by {
        assert(taken(run.workers).to_multiset().len() == run.messages.to_multiset().len());
    }
    workers_count_their_messages(run.workers, run.start, totals);
    all_said(run.workers, run.start);
    messages_are_split(
        run.start,
        taken(run.workers),
        caches_seen(run.workers),
        routed,
    );
    queued_get_ready(run.batchers, run.histories, routed, n);
    batches_have_room(gpus, run);
    gpus_count_their_batches(gpus, n);
    gathered_in_any_order(all_run(gpus), run.ready(), ids_of_ready());
    assert(all_run(gpus).len() == run.ready().len()) by {
        assert(all_run(gpus).to_multiset().len() == run.ready().to_multiset().len());
    }
    buckets_and_workers_agree(ends, n);
    bucket_lists_add_up(ends, n);
    let latencies = all_latencies(ends);
    if latencies.len() > 0 {
        let sorted = choose|sorted: Seq<u64>|
            #[trigger] puts_in_order(latencies, sorted) && stats.inference_latency
                == latency_figures(sorted);
        assert(sorted.to_multiset().len() == latencies.to_multiset().len());
        assert(sorted.len() == latencies.len());
    }
    if run.without_cache() {
        no_cache_no_reuse(run.workers, run.start);
    }
}

proof fn no_cache_no_reuse<T>(workers: Seq<WorkerRun<T>>, start: WorkerView)
    requires
        forall|w: int| 0 <= w < workers.len() ==> (#[trigger] workers[w]).valid(start),
        forall|w: int, i: int|
            0 <= w < workers.len() && 0 <= i < workers[w].dedups.len() ==> (
            #[trigger] workers[w].dedups[i]) is None,
    ensures
        reused_in(all_routed(workers)) == 0,
    decreases workers.len(),
{
    if workers.len() > 0 {
        let front = workers.drop_last();
        let last = workers.last();
        let k = workers.len() - 1;
        assert forall|w: int| 0 <= w < front.len() implies (#[trigger] front[w]).valid(start) by {
            assert(front[w] == workers[w]);
        }
        assert forall|w: int, i: int|
            0 <= w < front.len() && 0 <= i < front[w].dedups.len() implies (
        #[trigger] front[w].dedups[i]) is None by {
            assert(workers[w].dedups[i] is None);
        }
        no_cache_no_reuse(front, start);
        assert(workers[k].valid(start));
        worker_counts_its_messages(last, start, last.messages.len() as int);
        assert forall|i: int| 0 <= i < last.routed.len() implies !(
        #[trigger] last.routed[i] is Reused) by {
            assert(workers[k].dedups[i] is None);
        }
        none_reused(last.routed);
        counts_add_up(all_routed(front), last.routed);
    }
}

proof fn none_reused<T>(routed: Seq<Routed<T>>)
    requires
        forall|i: int| 0 <= i < routed.len() ==> !(#[trigger] routed[i] is Reused),
    ensures
        reused_in(routed) == 0,
    decreases routed.len(),
{
    if routed.len() > 0 {
        assert(!(routed[routed.len() - 1] is Reused));
        none_reused(routed.drop_last());
    }
}

}
