//! The batchers: each gathers the messages of a bucket into batches, and does not let a message
//! wait too long.
//!
//! The time that messages wait counts from the first of them. A batch that is not full when that
//! time is up goes out as it is. Times are in milliseconds, from any fixed moment on.

use vstd::prelude::*;

use crate::assembler::{
    after_all, every_id_gets_out, ids_out, items_in, messages_are_of_items, ready_view,
    AssemblerView, BatchAssembler, BatchEvent, ReadyBatch, ReadyView,
};
use crate::worker::Queued;

verus! {

/// What a [`Batcher`] has gathered, how long a message may wait, and since when the first one does.
pub struct BatcherView {
    pub assembler: AssemblerView,
    pub timeout: nat,
    pub since: Option<nat>,
}

impl BatcherView {
    /// A time is noted if and only if a message waits.
    pub open spec fn valid(self) -> bool {
        &&& self.assembler.valid()
        &&& self.since is Some <==> self.assembler.shape.pending.len() > 0
    }

    /// Whether a message has waited for too long. Without a timeout none ever has.
    pub open spec fn due(self, now: nat) -> bool {
        self.timeout > 0 && (self.since matches Some(since) && now >= since + self.timeout)
    }

    /// What is gathered after everything goes out, and the batch that it gave.
    pub open spec fn fired(self) -> (BatcherView, Option<ReadyView>) {
        let (assembler, given) = self.assembler.flushed();
        (BatcherView { assembler, since: None, ..self }, given)
    }

    /// What is gathered with one more message, if that does not fill the batch.
    pub open spec fn grown(self, item: Queued, now: nat) -> BatcherView {
        BatcherView {
            assembler: self.assembler.pushed(item).0,
            since: match self.since {
                Some(since) => Some(since),
                None => Some(now),
            },
            ..self
        }
    }

    /// What is gathered after an event at a time, and the batch that it gave.
    pub open spec fn stepped(self, event: BatchEvent, now: nat) -> (
        BatcherView,
        Option<ReadyView>,
    ) {
        match event {
            BatchEvent::Message(item) => {
                let (assembler, given) = self.assembler.pushed(item);
                if given is Some {
                    (BatcherView { assembler, since: None, ..self }, given)
                } else if self.grown(item, now).due(now) {
                    self.grown(item, now).fired()
                } else {
                    (self.grown(item, now), None)
                }
            },
            BatchEvent::Timeout => if self.due(now) {
                self.fired()
            } else {
                (self, None)
            },
            BatchEvent::Disconnected => self.fired(),
        }
    }

    /// What an event at a time comes to for the assembler.
    pub open spec fn comes_to(self, event: BatchEvent, now: nat) -> Seq<BatchEvent> {
        match event {
            BatchEvent::Message(item) => if self.assembler.pushed(item).1 is None && self.grown(
                item,
                now,
            ).due(now) {
                seq![event, BatchEvent::Timeout]
            } else {
                seq![event]
            },
            BatchEvent::Timeout => if self.due(now) {
                seq![event]
            } else {
                Seq::empty()
            },
            BatchEvent::Disconnected => seq![event],
        }
    }
}

/// Gathers the messages of one bucket into batches, and keeps an eye on the time.
pub struct Batcher {
    assembler: BatchAssembler,
    timeout: u64,
    since: Option<u64>,
}

impl View for Batcher {
    type V = BatcherView;

    closed spec fn view(&self) -> BatcherView {
        BatcherView {
            assembler: self.assembler@,
            timeout: self.timeout as nat,
            since: match self.since {
                Some(since) => Some(since as nat),
                None => None,
            },
        }
    }
}

impl Batcher {
    /// The assembler is valid, and a time is noted if and only if a message waits.
    pub closed spec fn valid(self) -> bool {
        self.assembler.valid() && self@.valid()
    }

    /// Whether a message has the token IDs that the bucket will keep of it.
    pub open spec fn accepts(self, item: Queued) -> bool {
        item.tokens.len > self@.assembler.shape.len ==> item.tokens.ids@.len()
            >= self@.assembler.shape.len
    }

    /// A batcher whose messages wait for at most `timeout`, or as long as it takes if that is zero.
    pub fn new(assembler: BatchAssembler, timeout: u64) -> (r: Self)
        requires
            assembler.valid(),
            assembler@.shape.pending.len() == 0,
            assembler@.valid(),
        ensures
            r.valid(),
            r@ == (BatcherView {
                assembler: assembler@,
                timeout: timeout as nat,
                since: None,
            }),
    {
        Batcher { assembler, timeout, since: None }
    }

    fn is_due(&self, now: u64) -> (r: bool)
        ensures
            r == self@.due(now as nat),
    {
        match self.since {
            Some(since) => self.timeout > 0 && now >= since && now - since >= self.timeout,
            None => false,
        }
    }

    /// How long the next message is waited for: until the one that has waited longest is due, and
    /// without end if none waits or there is no timeout.
    pub fn patience(&self, now: u64) -> (r: Option<u64>)
        ensures
            match self@.since {
                Some(since) => if self@.timeout == 0 {
                    r is None
                } else {
                    r matches Some(left) && left == if self@.due(now as nat) {
                        0
                    } else if now >= since {
                        since + self@.timeout - now
                    } else {
                        self@.timeout as int
                    }
                },
                None => r is None,
            },
    {
        match self.since {
            Some(since) => {
                if self.timeout == 0 {
                    None
                } else if now < since {
                    Some(self.timeout)
                } else if now - since >= self.timeout {
                    Some(0)
                } else {
                    Some(self.timeout - (now - since))
                }
            },
            None => None,
        }
    }

    /// Does what an event at a time asks for. Returns the batch that it gave, and whether it was
    /// the last event.
    pub fn step(&mut self, event: BatchEvent, now: u64) -> (r: (Option<ReadyBatch>, bool))
        requires
            old(self).valid(),
            event matches BatchEvent::Message(item) ==> old(self).accepts(item),
        ensures
            final(self).valid(),
            (final(self)@, ready_view(r.0)) == old(self)@.stepped(event, now as nat),
            r.1 == (event is Disconnected),
            !final(self)@.due(now as nat),
    {
        match event {
            BatchEvent::Message(item) => {
                let full = self.assembler.push(item);
                if full.is_some() {
                    self.since = None;
                    return (full, false);
                }
                if self.since.is_none() {
                    self.since = Some(now);
                }
                if self.is_due(now) {
                    self.since = None;
                    return (self.assembler.flush(), false);
                }
                (None, false)
            },
            BatchEvent::Timeout => {
                if self.is_due(now) {
                    self.since = None;
                    return (self.assembler.flush(), false);
                }
                (None, false)
            },
            BatchEvent::Disconnected => {
                self.since = None;
                (self.assembler.flush(), true)
            },
        }
    }
}

// Many events.

/// What is gathered after events, each at its time, and the batches that they gave.
pub open spec fn after_steps(s: BatcherView, history: Seq<(BatchEvent, nat)>) -> (
    BatcherView,
    Seq<ReadyView>,
)
    decreases history.len(),
{
    if history.len() == 0 {
        (s, Seq::empty())
    } else {
        let (mid, given) = after_steps(s, history.drop_last());
        let (end, last) = mid.stepped(history.last().0, history.last().1);
        (
            end,
            match last {
                Some(ready) => given.push(ready),
                None => given,
            },
        )
    }
}

/// What events, each at its time, come to for the assembler.
pub open spec fn events_of(s: BatcherView, history: Seq<(BatchEvent, nat)>) -> Seq<BatchEvent>
    decreases history.len(),
{
    if history.len() == 0 {
        Seq::empty()
    } else {
        events_of(s, history.drop_last()) + after_steps(s, history.drop_last()).0.comes_to(
            history.last().0,
            history.last().1,
        )
    }
}

/// The messages that came in, as they came.
pub open spec fn arrivals(history: Seq<(BatchEvent, nat)>) -> Seq<Queued> {
    items_in(history.map_values(|e: (BatchEvent, nat)| e.0))
}

proof fn one_event_more(s: AssemblerView, events: Seq<BatchEvent>, event: BatchEvent)
    ensures
        after_all(s, events.push(event)) == ({
            let (mid, given) = after_all(s, events);
            let (end, last) = mid.after(event);
            (
                end,
                match last {
                    Some(ready) => given.push(ready),
                    None => given,
                },
            )
        }),
        items_in(events.push(event)) == match event {
            BatchEvent::Message(item) => items_in(events).push(item),
            _ => items_in(events),
        },
{
    assert(events.push(event).drop_last() == events);
}

/// What a batcher does with events in time is what its assembler does with what they come to: the
/// same messages come in, in the same order, and the same batches go out.
pub proof fn batcher_drives_its_assembler(s: BatcherView, history: Seq<(BatchEvent, nat)>)
    requires
        s.valid(),
    ensures
        ({
            let (end, given) = after_steps(s, history);
            let events = events_of(s, history);
            &&& after_all(s.assembler, events) == (end.assembler, given)
            &&& items_in(events) == arrivals(history)
            &&& end.valid()
            &&& end.timeout == s.timeout
            &&& history.len() > 0 && history.last().0 is Disconnected ==> events.len() > 0
                && events.last() is Disconnected
        }),
    decreases history.len(),
{
    let times = |e: (BatchEvent, nat)| e.0;
    if history.len() > 0 {
        let front = history.drop_last();
        let (event, now) = history.last();
        batcher_drives_its_assembler(s, front);
        let (mid, given) = after_steps(s, front);
        let events = events_of(s, front);
        let more = mid.comes_to(event, now);
        one_event_more(s.assembler, events, event);
        assert(history.map_values(times).drop_last() == front.map_values(times));
        if more.len() == 2 {
            one_event_more(s.assembler, events.push(event), BatchEvent::Timeout);
            assert(events + more == events.push(event).push(BatchEvent::Timeout));
        } else if more.len() == 1 {
            assert(events + more == events.push(event));
        } else {
            assert(events + more == events);
        }
    } else {
        assert(history.map_values(times).len() == 0);
    }
}

/// Every message gets out of a batcher: when no message will come in any more, the IDs of the
/// batches that were given are the IDs that came in, each once and in their order.
pub proof fn every_arrival_gets_out(s: BatcherView, history: Seq<(BatchEvent, nat)>)
    requires
        s.valid(),
        s.assembler.shape.pending.len() == 0,
        history.len() > 0,
        history.last().0 is Disconnected,
    ensures
        ids_out(after_steps(s, history).1) == arrivals(history).map_values(
            |item: Queued| item.id@,
        ),
{
    batcher_drives_its_assembler(s, history);
    every_id_gets_out(s.assembler, events_of(s, history));
    messages_are_of_items(events_of(s, history), s.assembler.shape.len);
}

/// The time that messages wait counts from the first of them: one that comes in later does not
/// start it again, and when it is up they go out, whatever happens then.
pub proof fn later_messages_do_not_prolong_the_wait(s: BatcherView, event: BatchEvent, now: nat)
    requires
        s.valid(),
        s.timeout > 0,
        s.since is Some,
    ensures
        ({
            let (end, given) = s.stepped(event, now);
            &&& now >= s.since.unwrap() + s.timeout ==> given is Some && end.since is None
            &&& end.since is Some ==> end.since == s.since
        }),
{
}

/// No batch goes out before it is full, its time is up or no message will come in any more: a batch
/// that is not full means that there is a timeout and the first message in it has waited that long.
pub proof fn no_batch_goes_out_early(s: BatcherView, event: BatchEvent, now: nat)
    requires
        s.valid(),
        !(event is Disconnected),
    ensures
        s.stepped(event, now).1 matches Some(ready) ==> ready.ids.len()
            == s.assembler.shape.batch_size || (s.timeout > 0 && (s.since matches Some(since) && now
            >= since + s.timeout)),
        s.stepped(event, now).1 is None ==> s.stepped(event, now).0.assembler.ids.len()
            >= s.assembler.ids.len(),
{
}

/// The time is noted when the first message comes in, and what goes out is all that waits.
pub proof fn wait_begins_with_the_first_message(s: BatcherView, item: Queued, now: nat)
    requires
        s.valid(),
        s.assembler.shape.pending.len() == 0,
        s.assembler.shape.batch_size > 1,
    ensures
        s.stepped(BatchEvent::Message(item), now).1 is None,
        s.stepped(BatchEvent::Message(item), now).0.since == Some(now),
        s.stepped(BatchEvent::Message(item), now).0.assembler.ids == s.assembler.ids.push(item.id@),
        s.stepped(BatchEvent::Message(item), now).0.timeout == s.timeout,
{
}

/// When no message will come in any more, all that waits goes out at once, if anything does.
pub proof fn end_gives_all_that_waits(s: BatcherView, now: nat)
    requires
        s.valid(),
    ensures
        s.stepped(BatchEvent::Disconnected, now).1 is Some <==> s.assembler.ids.len() > 0,
        s.stepped(BatchEvent::Disconnected, now).1 matches Some(ready) ==> ready.ids
            == s.assembler.ids && ready.hashes == s.assembler.hashes,
        s.stepped(BatchEvent::Disconnected, now).0.assembler.ids.len() == 0,
{
}

/// Every message that says how many tokens it has is accepted, whatever its length.
pub proof fn whole_messages_are_accepted(to: Batcher, item: Queued)
    requires
        item.tokens.len == item.tokens.ids@.len(),
    ensures
        to.accepts(item),
{
}

}
