//! The monitor: what it reports of a run from time to time, and when it stops.

use vstd::prelude::*;

verus! {

/// Every how many reports one is extended.
pub const EXTENDED_EVERY: u64 = 5;

/// What a report says.
pub struct Progress {
    /// How many messages were processed since the last report.
    pub since_last: u64,
    /// Whether the report is extended by the state of the caches and buckets.
    pub extended: bool,
    /// Whether it is the last report, as nothing happens any more.
    pub finished: bool,
}

/// Keeps track of the reports on a run.
pub struct Monitor {
    last_processed: u64,
    reports: u64,
}

/// What a [`Monitor`] remembers: how many messages were processed at the last report, and how many
/// reports there were.
pub struct MonitorView {
    pub last_processed: nat,
    pub reports: nat,
}

impl View for Monitor {
    type V = MonitorView;

    closed spec fn view(&self) -> MonitorView {
        MonitorView { last_processed: self.last_processed as nat, reports: self.reports as nat }
    }
}

impl Monitor {
    /// A monitor that has not reported yet.
    pub fn new() -> (r: Self)
        ensures
            r@ == (MonitorView { last_processed: 0, reports: 0 }),
    {
        Monitor { last_processed: 0, reports: 0 }
    }

    /// Makes the next report, unless the run is over. `processed` is how many messages were
    /// processed so far.
    pub fn next(&mut self, shutdown: bool, processed: u64) -> (r: Option<Progress>)
        requires
            processed >= old(self)@.last_processed,
            old(self)@.reports < u64::MAX,
        ensures
            shutdown ==> r is None && final(self)@ == old(self)@,
            !shutdown ==> {
                &&& r matches Some(progress)
                &&& progress.since_last == processed - old(self)@.last_processed
                &&& progress.extended == ((old(self)@.reports + 1) % 5 == 0)
                &&& progress.finished == (processed > 0 && processed == old(self)@.last_processed)
                &&& final(self)@ == (MonitorView {
                    last_processed: processed as nat,
                    reports: old(self)@.reports + 1,
                })
            },
    {
        if shutdown {
            return None;
        }
        let since_last: u64 = processed - self.last_processed;
        self.reports += 1;
        self.last_processed = processed;
        Some(
            Progress {
                since_last,
                extended: self.reports % EXTENDED_EVERY == 0,
                finished: processed > 0 && since_last == 0,
            },
        )
    }
}

}
