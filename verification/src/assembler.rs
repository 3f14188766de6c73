//! The batch assemblers: one for each bucket gathers the queued messages into batches and keeps
//! track of which row of a batch belongs to which message.

use vstd::prelude::*;

use crate::bucket::{
    batch_of, empty_buckets, flushed, kept_ids, stable_order_is_unique, stably_sorted, Batch,
    BatchView, BucketSpec, BucketView, Bucketizer,
};
use crate::text::texts;
use crate::worker::Queued;

verus! {

/// A batch with the ID and the text hash of the message in each row.
pub struct ReadyBatch {
    pub batch: Batch,
    pub ids: Vec<String>,
    pub hashes: Vec<u64>,
}

/// The contents of a [`ReadyBatch`].
pub struct ReadyView {
    pub batch: BatchView,
    pub ids: Seq<Seq<char>>,
    pub hashes: Seq<u64>,
}

impl View for ReadyBatch {
    type V = ReadyView;

    open spec fn view(&self) -> ReadyView {
        ReadyView { batch: self.batch@, ids: texts(self.ids@), hashes: self.hashes@ }
    }
}

/// What an assembler has gathered: the token IDs, the message ID and the text hash of each message.
pub struct AssemblerView {
    pub bucket: int,
    pub shape: BucketView,
    pub ids: Seq<Seq<char>>,
    pub hashes: Seq<u64>,
}

/// What happens to an assembler.
pub enum BatchEvent {
    /// A message comes in.
    Message(Queued),
    /// No message came in for a while.
    Timeout,
    /// No message will come in any more.
    Disconnected,
}

impl AssemblerView {
    /// As many IDs and hashes as messages, fewer messages than make a batch, and a length.
    pub open spec fn valid(self) -> bool {
        &&& self.ids.len() == self.shape.pending.len()
        &&& self.hashes.len() == self.shape.pending.len()
        &&& self.shape.pending.len() < self.shape.batch_size
        &&& self.shape.len >= 0
    }

    /// The same assembler with nothing gathered.
    pub open spec fn emptied(self) -> AssemblerView {
        AssemblerView {
            shape: BucketView { pending: Seq::empty(), ..self.shape },
            ids: Seq::empty(),
            hashes: Seq::empty(),
            ..self
        }
    }

    /// The batch of what is gathered.
    pub open spec fn ready(self) -> ReadyView {
        ReadyView { batch: batch_of(self.bucket, self.shape), ids: self.ids, hashes: self.hashes }
    }

    /// The assembler with one more message, before anything is handed out.
    pub open spec fn grown(self, item: Queued) -> AssemblerView {
        AssemblerView {
            shape: BucketView {
                pending: self.shape.pending.push(kept_ids(item.tokens, self.shape.len)),
                ..self.shape
            },
            ids: self.ids.push(item.id@),
            hashes: self.hashes.push(item.hash),
            ..self
        }
    }

    /// What is gathered after a message came in, and the batch that it completed.
    pub open spec fn pushed(self, item: Queued) -> (AssemblerView, Option<ReadyView>) {
        let grown = self.grown(item);
        if grown.shape.pending.len() == grown.shape.batch_size {
            (grown.emptied(), Some(grown.ready()))
        } else {
            (grown, None)
        }
    }

    /// What is gathered after a flush, and the batch that it gave.
    pub open spec fn flushed(self) -> (AssemblerView, Option<ReadyView>) {
        if self.shape.pending.len() == 0 {
            (self, None)
        } else {
            (self.emptied(), Some(self.ready()))
        }
    }

    /// What is gathered after an event, and the batch that it gave.
    pub open spec fn after(self, event: BatchEvent) -> (AssemblerView, Option<ReadyView>) {
        match event {
            BatchEvent::Message(item) => self.pushed(item),
            BatchEvent::Timeout => self.flushed(),
            BatchEvent::Disconnected => self.flushed(),
        }
    }
}

/// The batch that an option holds.
pub open spec fn ready_view(r: Option<ReadyBatch>) -> Option<ReadyView> {
    match r {
        Some(ready) => Some(ready@),
        None => None,
    }
}

/// Gathers the queued messages of one bucket into batches.
pub struct BatchAssembler {
    bucketizer: Bucketizer,
    bucket: usize,
    ids: Vec<String>,
    hashes: Vec<u64>,
}

impl View for BatchAssembler {
    type V = AssemblerView;

    closed spec fn view(&self) -> AssemblerView {
        AssemblerView {
            bucket: self.bucket as int,
            shape: self.bucketizer@[0],
            ids: texts(self.ids@),
            hashes: self.hashes@,
        }
    }
}

impl BatchAssembler {
    /// There is one bucket, with an ID and a hash for each message in it.
    pub closed spec fn valid(self) -> bool {
        &&& self.bucketizer.valid()
        &&& self.bucketizer@.len() == 1
        &&& self@.valid()
    }

    /// Whether a message has the token IDs that the bucket will keep of it.
    pub open spec fn accepts(self, item: Queued) -> bool {
        item.tokens.len > self@.shape.len ==> item.tokens.ids@.len() >= self@.shape.len
    }

    /// An assembler for the bucket at index `bucket`, of the given shape.
    pub fn new(bucket: usize, spec: BucketSpec) -> (r: Self)
        requires
            spec.valid(),
        ensures
            r.valid(),
            r@ == (AssemblerView {
                bucket: bucket as int,
                shape: BucketView {
                    len: spec.len as int,
                    batch_size: spec.batch_size as int,
                    pending: Seq::empty(),
                },
                ids: Seq::empty(),
                hashes: Seq::empty(),
            }),
    {
        let specs: Vec<BucketSpec> = vec![spec];
        let ghost given = specs@;
        assert(given == seq![spec]);
        let bucketizer = Bucketizer::new(specs);
        proof {
            let sorted = choose|sorted: Seq<BucketSpec>|
                stably_sorted(given, sorted) && bucketizer@ == #[trigger] empty_buckets(sorted);
            assert(stably_sorted(given, given));
            stable_order_is_unique(given, sorted, given);
        }
        let r = BatchAssembler { bucketizer, bucket, ids: Vec::new(), hashes: Vec::new() };
        assert(r@.ids == Seq::<Seq<char>>::empty());
        r
    }

    /// Takes the IDs and the hashes of the messages in a batch.
    fn make_ready(&mut self, batch: Batch) -> (r: ReadyBatch)
        requires
            batch.n_real == old(self).ids@.len(),
        ensures
            r@ == (ReadyView {
                batch: BatchView { bucket_idx: old(self).bucket as int, ..batch@ },
                ids: texts(old(self).ids@),
                hashes: old(self).hashes@,
            }),
            final(self).bucketizer == old(self).bucketizer,
            final(self).bucket == old(self).bucket,
            final(self).ids@ == Seq::<String>::empty(),
            final(self).hashes@ == Seq::<u64>::empty(),
    {
        let mut ids: Vec<String> = Vec::new();
        let mut hashes: Vec<u64> = Vec::new();
        std::mem::swap(&mut self.ids, &mut ids);
        std::mem::swap(&mut self.hashes, &mut hashes);
        let mut batch = batch;
        batch.bucket_idx = self.bucket;
        ReadyBatch { batch, ids, hashes }
    }

    /// Takes a message in. Returns a batch if that filled the bucket.
    pub fn push(&mut self, item: Queued) -> (r: Option<ReadyBatch>)
        requires
            old(self).valid(),
            old(self).accepts(item),
        ensures
            final(self).valid(),
            (final(self)@, ready_view(r)) == old(self)@.pushed(item),
    {
        let ghost before = self@;
        let ghost ids0 = self.ids@;
        let Queued { tokens, id, hash } = item;
        self.ids.push(id);
        self.hashes.push(hash);
        assert(texts(self.ids@) == texts(ids0).push(id@));
        match self.bucketizer.push(tokens) {
            Some(batch) => {
                let ready = self.make_ready(batch);
                assert(self@.ids == Seq::<Seq<char>>::empty());
                Some(ready)
            },
            None => None,
        }
    }

    /// Hands out what is gathered, if anything is.
    pub fn flush(&mut self) -> (r: Option<ReadyBatch>)
        requires
            old(self).valid(),
        ensures
            final(self).valid(),
            (final(self)@, ready_view(r)) == old(self)@.flushed(),
    {
        let ghost before = self@;
        let ghost buckets = self.bucketizer@;
        let mut batches = self.bucketizer.flush();
        proof {
            assert(buckets.drop_last() == Seq::<BucketView>::empty());
            assert(flushed(buckets.drop_last()) == Seq::<BatchView>::empty());
            let views = batches@.map_values(|b: Batch| b@);
            assert(views.len() == batches@.len());
            assert(buckets.last() == before.shape);
            if before.shape.pending.len() == 0 {
                assert(before.shape.pending == Seq::<Seq<u32>>::empty());
                assert(views == Seq::<BatchView>::empty());
            } else {
                assert(views == seq![batch_of(0, before.shape)]);
                assert(views[0] == batches@[0]@);
            }
        }
        match batches.pop() {
            Some(batch) => {
                let ready = self.make_ready(batch);
                assert(self@.ids == Seq::<Seq<char>>::empty());
                Some(ready)
            },
            None => None,
        }
    }

    /// Does what an event asks for. Returns the batch that it gave, and whether it was the last
    /// event.
    pub fn handle(&mut self, event: BatchEvent) -> (r: (Option<ReadyBatch>, bool))
        requires
            old(self).valid(),
            event matches BatchEvent::Message(item) ==> old(self).accepts(item),
        ensures
            final(self).valid(),
            (final(self)@, ready_view(r.0)) == old(self)@.after(event),
            r.1 == (event is Disconnected),
    {
        match event {
            BatchEvent::Message(item) => (self.push(item), false),
            BatchEvent::Timeout => (self.flush(), false),
            BatchEvent::Disconnected => (self.flush(), true),
        }
    }
}

/// The state after events, and the batches that they gave.
pub open spec fn after_all(s: AssemblerView, events: Seq<BatchEvent>) -> (
    AssemblerView,
    Seq<ReadyView>,
)
    decreases events.len(),
{
    if events.len() == 0 {
        (s, Seq::empty())
    } else {
        let (mid, given) = after_all(s, events.drop_last());
        let (end, last) = mid.after(events.last());
        (
            end,
            match last {
                Some(ready) => given.push(ready),
                None => given,
            },
        )
    }
}

/// The messages of events, each with its ID, its text hash and the token IDs that a bucket of
/// length `len` keeps.
pub open spec fn messages_of(events: Seq<BatchEvent>, len: int) -> Seq<(Seq<char>, u64, Seq<u32>)>
    decreases events.len(),
{
    if events.len() == 0 {
        Seq::empty()
    } else {
        let before = messages_of(events.drop_last(), len);
        match events.last() {
            BatchEvent::Message(item) => before.push(
                (item.id@, item.hash, kept_ids(item.tokens, len)),
            ),
            _ => before,
        }
    }
}

/// IDs, text hashes and token IDs, brought together message by message.
pub open spec fn zipped(ids: Seq<Seq<char>>, hashes: Seq<u64>, rows: Seq<Seq<u32>>) -> Seq<
    (Seq<char>, u64, Seq<u32>),
> {
    Seq::new(rows.len(), |i: int| (ids[i], hashes[i], rows[i]))
}

/// Whether `given` are the batches that the messages of `parts`, one part for each batch, make.
pub open spec fn batches_hold(
    s: AssemblerView,
    given: Seq<ReadyView>,
    parts: Seq<Seq<Seq<u32>>>,
) -> bool {
    &&& parts.len() == given.len()
    &&& forall|k: int|
        0 <= k < given.len() ==> {
            &&& (#[trigger] given[k]).batch == batch_of(
                s.bucket,
                BucketView { pending: parts[k], ..s.shape },
            )
            &&& given[k].ids.len() == parts[k].len()
            &&& given[k].hashes.len() == parts[k].len()
            &&& 0 < parts[k].len() <= s.shape.batch_size
        }
}

/// The messages of batches, one batch after the other.
pub open spec fn given_messages(given: Seq<ReadyView>, parts: Seq<Seq<Seq<u32>>>) -> Seq<
    (Seq<char>, u64, Seq<u32>),
>
    decreases given.len(),
{
    if given.len() == 0 {
        Seq::empty()
    } else {
        given_messages(given.drop_last(), parts.drop_last()) + zipped(
            given.last().ids,
            given.last().hashes,
            parts.last(),
        )
    }
}

/// The token IDs of the messages in each batch that the events gave.
pub open spec fn parts_of(s: AssemblerView, events: Seq<BatchEvent>) -> Seq<Seq<Seq<u32>>>
    decreases events.len(),
{
    if events.len() == 0 {
        Seq::empty()
    } else {
        let mid = after_all(s, events.drop_last()).0;
        let before = parts_of(s, events.drop_last());
        match events.last() {
            BatchEvent::Message(item) => if mid.pushed(item).1 is Some {
                before.push(mid.grown(item).shape.pending)
            } else {
                before
            },
            _ => if mid.flushed().1 is Some {
                before.push(mid.shape.pending)
            } else {
                before
            },
        }
    }
}

/// No message is lost, doubled or mixed up: whatever the events, the messages of the batches that
/// were given, followed by those that still wait, are the messages that came in, in their order,
/// each with its own ID, text hash and token IDs.
pub proof fn every_message_in_one_batch(s: AssemblerView, events: Seq<BatchEvent>)
    requires
        s.valid(),
        s.shape.pending.len() == 0,
    ensures
        ({
            let (end, given) = after_all(s, events);
            let parts = parts_of(s, events);
            &&& batches_hold(s, given, parts)
            &&& given_messages(given, parts) + zipped(end.ids, end.hashes, end.shape.pending)
                == messages_of(events, s.shape.len)
            &&& end.valid()
            &&& end.bucket == s.bucket
            &&& end.shape.len == s.shape.len
            &&& end.shape.batch_size == s.shape.batch_size
        }),
    decreases events.len(),
{
    if events.len() == 0 {
        assert(zipped(s.ids, s.hashes, s.shape.pending) == Seq::<
            (Seq<char>, u64, Seq<u32>),
        >::empty());
    } else {
        every_message_in_one_batch(s, events.drop_last());
        let (mid, given0) = after_all(s, events.drop_last());
        let parts0 = parts_of(s, events.drop_last());
        let (end, given) = after_all(s, events);
        let parts = parts_of(s, events);
        let waiting = zipped(mid.ids, mid.hashes, mid.shape.pending);
        let nothing = zipped(Seq::empty(), Seq::empty(), Seq::empty());
        assert(nothing == Seq::<(Seq<char>, u64, Seq<u32>)>::empty());
        match events.last() {
            BatchEvent::Message(item) => {
                let grown = mid.grown(item);
                let message = (item.id@, item.hash, kept_ids(item.tokens, s.shape.len));
                let more = zipped(grown.ids, grown.hashes, grown.shape.pending);
                assert(more == waiting.push(message));
                if grown.shape.pending.len() == grown.shape.batch_size {
                    assert(given.drop_last() == given0);
                    assert(parts.drop_last() == parts0);
                    assert(grown.shape == (BucketView { pending: parts.last(), ..s.shape }));
                }
                assert(given_messages(given, parts) + zipped(
                    end.ids,
                    end.hashes,
                    end.shape.pending,
                ) == messages_of(events, s.shape.len));
            },
            _ => {
                if mid.shape.pending.len() > 0 {
                    assert(given.drop_last() == given0);
                    assert(parts.drop_last() == parts0);
                    assert(mid.shape == (BucketView { pending: parts.last(), ..s.shape }));
                }
                assert(given_messages(given, parts) + zipped(
                    end.ids,
                    end.hashes,
                    end.shape.pending,
                ) == messages_of(events, s.shape.len));
            },
        }
    }
}

/// Once no message will come in any more, none waits.
pub proof fn nothing_waits_at_the_end(s: AssemblerView)
    requires
        s.valid(),
    ensures
        s.after(BatchEvent::Disconnected).0.shape.pending.len() == 0,
        s.after(BatchEvent::Disconnected).0.valid(),
{
}

/// The IDs of the messages that came in.
pub open spec fn ids_in(events: Seq<BatchEvent>) -> Seq<Seq<char>>
    decreases events.len(),
{
    if events.len() == 0 {
        Seq::empty()
    } else {
        let before = ids_in(events.drop_last());
        match events.last() {
            BatchEvent::Message(item) => before.push(item.id@),
            _ => before,
        }
    }
}

/// The messages that came in, as they came.
pub open spec fn items_in(events: Seq<BatchEvent>) -> Seq<Queued>
    decreases events.len(),
{
    if events.len() == 0 {
        Seq::empty()
    } else {
        let before = items_in(events.drop_last());
        match events.last() {
            BatchEvent::Message(item) => before.push(item),
            _ => before,
        }
    }
}

/// The IDs of the messages that came in, and what a bucket keeps of them, are those of what came
/// in.
pub proof fn messages_are_of_items(events: Seq<BatchEvent>, len: int)
    ensures
        ids_in(events) == items_in(events).map_values(|item: Queued| item.id@),
        messages_of(events, len) == items_in(events).map_values(
            |item: Queued| (item.id@, item.hash, kept_ids(item.tokens, len)),
        ),
    decreases events.len(),
{
    let id = |item: Queued| item.id@;
    let message = |item: Queued| (item.id@, item.hash, kept_ids(item.tokens, len));
    let items = items_in(events);
    if events.len() > 0 {
        let before = items_in(events.drop_last());
        messages_are_of_items(events.drop_last(), len);
        if let BatchEvent::Message(item) = events.last() {
            assert(items.map_values(id) =~= before.map_values(id).push(id(item)));
            assert(items.map_values(message) =~= before.map_values(message).push(message(item)));
        }
    }
    assert(ids_in(events) =~= items.map_values(id));
    assert(messages_of(events, len) =~= items.map_values(message));
}

/// The IDs of batches, one batch after the other.
pub open spec fn ids_out(given: Seq<ReadyView>) -> Seq<Seq<char>>
    decreases given.len(),
{
    if given.len() == 0 {
        Seq::empty()
    } else {
        ids_out(given.drop_last()) + given.last().ids
    }
}

proof fn ids_are_kept(s: AssemblerView, events: Seq<BatchEvent>)
    requires
        s.valid(),
        s.shape.pending.len() == 0,
    ensures
        ids_out(after_all(s, events).1) + after_all(s, events).0.ids == ids_in(events),
        after_all(s, events).0.valid(),
    decreases events.len(),
{
    if events.len() == 0 {
        assert(s.ids == Seq::<Seq<char>>::empty());
    } else {
        let front = events.drop_last();
        ids_are_kept(s, front);
        let (mid, given0) = after_all(s, front);
        let (end, given) = after_all(s, events);
        let (_, last) = mid.after(events.last());
        if last is Some {
            assert(given.drop_last() == given0);
        } else if events.last() !is Message {
            assert(mid.ids == Seq::<Seq<char>>::empty());
        }
        assert(ids_out(given) + end.ids == ids_in(events));
    }
}

/// Every message gets out: when no message will come in any more, the IDs of the batches that were
/// given are the IDs that came in, each once and in their order.
pub proof fn every_id_gets_out(s: AssemblerView, events: Seq<BatchEvent>)
    requires
        s.valid(),
        s.shape.pending.len() == 0,
        events.len() > 0,
        events.last() is Disconnected,
    ensures
        ids_out(after_all(s, events).1) == ids_in(events),
{
    ids_are_kept(s, events);
    ids_are_kept(s, events.drop_last());
    let end = after_all(s, events).0;
    assert(end.ids == Seq::<Seq<char>>::empty());
    assert(ids_out(after_all(s, events).1) + end.ids == ids_out(after_all(s, events).1));
}

/// A batch goes out exactly when it is full, with the IDs and hashes of all messages that waited, in
/// their order, and that of the message that filled it. Until then messages wait.
pub proof fn full_batch_goes_out(s: AssemblerView, item: Queued)
    requires
        s.valid(),
    ensures
        match s.after(BatchEvent::Message(item)) {
            (after, Some(ready)) => {
                &&& s.ids.len() + 1 == s.shape.batch_size
                &&& ready.ids == s.ids.push(item.id@)
                &&& ready.hashes == s.hashes.push(item.hash)
                &&& ready.batch.n_real == s.shape.batch_size
                &&& ready.batch.bucket_idx == s.bucket
                &&& ready.batch.bucket_len == s.shape.len
                &&& after.ids.len() == 0 && after.hashes.len() == 0
                    && after.shape.pending.len() == 0
            },
            (after, None) => {
                &&& s.ids.len() + 1 < s.shape.batch_size
                &&& after.ids == s.ids.push(item.id@)
                &&& after.hashes == s.hashes.push(item.hash)
                &&& after.shape.pending.len() == s.shape.pending.len() + 1
            },
        },
        s.after(BatchEvent::Message(item)).0.bucket == s.bucket,
        s.after(BatchEvent::Message(item)).0.shape.len == s.shape.len,
        s.after(BatchEvent::Message(item)).0.shape.batch_size == s.shape.batch_size,
{
}

/// A flush gives all that waits, if anything does, and nothing waits then.
pub proof fn flush_gives_all_that_waits(s: AssemblerView)
    requires
        s.valid(),
    ensures
        s.flushed().1 is Some <==> s.ids.len() > 0,
        s.flushed().1 matches Some(ready) ==> ready.ids == s.ids && ready.hashes == s.hashes
            && ready.batch.n_real == s.ids.len() && ready.batch.bucket_idx == s.bucket,
        s.flushed().0.ids.len() == 0 && s.flushed().0.shape.pending.len() == 0,
        s.after(BatchEvent::Timeout) == s.flushed(),
        s.after(BatchEvent::Disconnected) == s.flushed(),
{
}

/// Every message that says how many tokens it has is accepted, whatever its length.
pub proof fn whole_messages_are_accepted(to: BatchAssembler, item: Queued)
    requires
        item.tokens.len == item.tokens.ids@.len(),
    ensures
        to.accepts(item),
{
}

}
