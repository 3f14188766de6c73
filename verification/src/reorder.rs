//! The reorder buffer: batches of buckets come back in any order, and the rows of the output stand
//! in the order of the input.

use std::collections::{BTreeMap, HashSet};

use vstd::prelude::*;

verus! {

broadcast use {
    vstd::std_specs::hash::group_hash_axioms,
    vstd::std_specs::btree::group_btree_axioms,
    vstd::laws_cmp::group_laws_cmp,
};

/// A row of the output: the number of its message in the input, and the embedding.
pub type Row<T> = (u64, Seq<T>);

/// What a [`ReorderBuffer`] holds: the number that is next, the embeddings that wait for their
/// turn, and the numbers that have none.
pub struct ReorderView<T> {
    pub next: nat,
    pub pending: Map<u64, Seq<T>>,
    pub skipped: Set<u64>,
}

impl<T> ReorderView<T> {
    /// The buffer with the next number passed over, which has no embedding.
    pub open spec fn passed(self) -> Self {
        ReorderView {
            next: self.next + 1,
            skipped: self.skipped.remove(self.next as u64),
            ..self
        }
    }

    /// The buffer with the embedding of the next number taken out.
    pub open spec fn taken(self) -> Self {
        ReorderView {
            next: self.next + 1,
            pending: self.pending.remove(self.next as u64),
            ..self
        }
    }

    /// Whether the next number is known to have no embedding.
    pub open spec fn next_is_skipped(self) -> bool {
        self.next <= u64::MAX && self.skipped.contains(self.next as u64)
    }

    /// Whether the embedding of the next number is there.
    pub open spec fn next_is_pending(self) -> bool {
        self.next <= u64::MAX && self.pending.contains_key(self.next as u64)
    }

    /// The buffer with all numbers passed over that have no embedding, up to the first that may
    /// have one.
    pub open spec fn past_skipped(self) -> Self
        decreases u64::MAX + 1 - self.next,
    {
        if self.next_is_skipped() {
            self.passed().past_skipped()
        } else {
            self
        }
    }

    /// The buffer after a row was taken out, and the row, if its turn has come.
    pub open spec fn popped(self) -> (Self, Option<Row<T>>) {
        let s = self.past_skipped();
        if s.next_is_pending() {
            (s.taken(), Some((s.next as u64, s.pending[s.next as u64])))
        } else {
            (s, None)
        }
    }

    /// The buffer after all rows were taken out whose turn has come, and the rows.
    pub open spec fn drained(self) -> (Self, Seq<Row<T>>)
        decreases u64::MAX + 1 - self.next,
    {
        if self.next_is_skipped() {
            self.passed().drained()
        } else if self.next_is_pending() {
            let (end, rows) = self.taken().drained();
            (end, seq![(self.next as u64, self.pending[self.next as u64])] + rows)
        } else {
            (self, Seq::empty())
        }
    }
}

/// Taking out all rows is taking out one after the other.
pub proof fn drained_row_by_row<T>(s: ReorderView<T>)
    ensures
        match s.popped() {
            (t, Some(row)) => s.drained() == (t.drained().0, seq![row] + t.drained().1),
            (t, None) => s.drained() == (t, Seq::<Row<T>>::empty()),
        },
    decreases u64::MAX + 1 - s.next,
{
    if s.next_is_skipped() {
        drained_row_by_row(s.passed());
    }
}

/// Passing over numbers does not go back.
pub proof fn passing_goes_on<T>(s: ReorderView<T>)
    ensures
        s.next <= s.past_skipped().next,
        s.popped().1 is Some ==> s.next < s.popped().0.next,
        s.popped().1 is None ==> s.next <= s.popped().0.next,
    decreases u64::MAX + 1 - s.next,
{
    if s.next_is_skipped() {
        passing_goes_on(s.passed());
    }
}

/// Where the largest number is not in use, it is never passed over.
pub proof fn largest_is_never_passed<T>(s: ReorderView<T>)
    requires
        s.next <= u64::MAX,
        !s.pending.contains_key(u64::MAX),
        !s.skipped.contains(u64::MAX),
    ensures
        s.popped().0.next <= u64::MAX,
        !s.popped().0.pending.contains_key(u64::MAX),
        !s.popped().0.skipped.contains(u64::MAX),
    decreases u64::MAX + 1 - s.next,
{
    if s.next_is_skipped() {
        largest_is_never_passed(s.passed());
    }
}

/// Accumulates embeddings that come out of order and yields them in order.
pub struct ReorderBuffer<T> {
    next_seq: u64,
    pending: BTreeMap<u64, Vec<T>>,
    skipped: HashSet<u64>,
    hidden_dim: usize,
}

impl<T> View for ReorderBuffer<T> {
    type V = ReorderView<T>;

    closed spec fn view(&self) -> ReorderView<T> {
        ReorderView {
            next: self.next_seq as nat,
            pending: self.pending@.map_values(|row: Vec<T>| row@),
            skipped: self.skipped@,
        }
    }
}

impl<T> ReorderBuffer<T> {
    /// The number of values of an embedding.
    pub closed spec fn dim(self) -> usize {
        self.hidden_dim
    }

    /// A buffer that starts with the number zero.
    pub fn new(hidden_dim: usize) -> (r: Self)
        ensures
            r.dim() == hidden_dim,
            r@ == (ReorderView::<T> { next: 0, pending: Map::empty(), skipped: Set::empty() }),
    {
        let r = ReorderBuffer {
            next_seq: 0,
            pending: BTreeMap::new(),
            skipped: HashSet::new(),
            hidden_dim,
        };
        assert(r@.pending == Map::<u64, Seq<T>>::empty());
        assert(r@.skipped == Set::<u64>::empty());
        r
    }

    /// Notes that a number has no embedding.
    pub fn mark_skipped(&mut self, seq: u64)
        ensures
            final(self).dim() == old(self).dim(),
            final(self)@ == (ReorderView {
                skipped: old(self)@.skipped.insert(seq),
                ..old(self)@
            }),
    {
        self.skipped.insert(seq);
        assert(self@.skipped == old(self)@.skipped.insert(seq));
    }

    /// Takes out the row whose turn it is, if it is there, passing over the numbers that have
    /// none. The largest number can be next, but not be taken or passed over.
    pub fn pop_next(&mut self) -> (r: Option<(u64, Vec<T>)>)
        requires
            old(self)@.popped().0.next <= u64::MAX,
        ensures
            final(self).dim() == old(self).dim(),
            final(self)@ == old(self)@.popped().0,
            match old(self)@.popped().1 {
                Some(row) => r matches Some(given) && given.0 == row.0 && given.1@ == row.1,
                None => r is None,
            },
    {
        proof {
            passing_goes_on(self@);
        }
        while self.skipped.contains(&self.next_seq)
            invariant
                old(self)@.popped().0.next <= u64::MAX,
                self.dim() == old(self).dim(),
                self@.past_skipped() == old(self)@.past_skipped(),
            decreases u64::MAX - self.next_seq,
        {
            let ghost before = self@;
            let seq: u64 = self.next_seq;
            proof {
                passing_goes_on(before.passed());
            }
            self.skipped.remove(&seq);
            self.next_seq = seq + 1;
            assert(self@.skipped == before.skipped.remove(seq));
            assert(self@ == before.passed());
        }
        let ghost mid = self@;
        let seq: u64 = self.next_seq;
        match self.pending.remove(&seq) {
            Some(row) => {
                self.next_seq = seq + 1;
                assert(self@.pending == mid.pending.remove(seq));
                Some((seq, row))
            },
            None => {
                assert(self@.pending == mid.pending);
                None
            },
        }
    }

    /// The number that is next.
    pub fn next_seq(&self) -> (r: u64)
        ensures
            r == self@.next,
    {
        self.next_seq
    }

    /// Whether the embedding of a number waits for its turn.
    pub fn has_pending(&self, seq: u64) -> (r: bool)
        ensures
            r == self@.pending.contains_key(seq),
    {
        self.pending.contains_key(&seq)
    }
}

impl<T: Copy> ReorderBuffer<T> {
    /// Takes in the embedding of a number.
    pub fn insert(&mut self, seq: u64, embedding: &[T])
        requires
            embedding@.len() == old(self).dim(),
        ensures
            final(self).dim() == old(self).dim(),
            final(self)@ == (ReorderView {
                pending: old(self)@.pending.insert(seq, embedding@),
                ..old(self)@
            }),
    {
        let mut row: Vec<T> = Vec::new();
        let n: usize = embedding.len();
        for i in 0..n
            invariant
                n == embedding@.len(),
                row@ == embedding@.take(i as int),
        {
            row.push(embedding[i]);
        }
        assert(row@ == embedding@);
        self.pending.insert(seq, row);
        assert(self@.pending == old(self)@.pending.insert(seq, embedding@));
    }
}

/// Draining goes on as long as the next number is skipped or has its embedding, and stops at the
/// first that is neither. The rows are the embeddings of the numbers passed that were not skipped,
/// in the order of the numbers, and all else stays in the buffer.
pub proof fn drained_rows_are_those_that_were_due<T>(s: ReorderView<T>, k: u64)
    ensures
        ({
            let (end, rows) = s.drained();
            let passed = s.next <= k < end.next;
            let due = passed && s.pending.contains_key(k) && !s.skipped.contains(k);
            &&& s.next <= end.next
            &&& passed ==> s.skipped.contains(k) || s.pending.contains_key(k)
            &&& k == end.next ==> !s.skipped.contains(k) && !s.pending.contains_key(k)
            &&& due ==> rows.contains((k, s.pending[k]))
            &&& (exists|i: int| 0 <= i < rows.len() && (#[trigger] rows[i]).0 == k) ==> due
            &&& forall|i: int, j: int|
                0 <= i < j < rows.len() ==> (#[trigger] rows[i]).0 < (#[trigger] rows[j]).0
            &&& forall|i: int| 0 <= i < rows.len() ==> s.next <= (#[trigger] rows[i]).0
            &&& end.pending.contains_key(k) <==> s.pending.contains_key(k) && !due
            &&& end.pending.contains_key(k) ==> end.pending[k] == s.pending[k]
            &&& end.skipped.contains(k) <==> s.skipped.contains(k) && !passed
        }),
    decreases u64::MAX + 1 - s.next,
{
    let (end, rows) = s.drained();
    if s.next_is_skipped() {
        drained_rows_are_those_that_were_due(s.passed(), k);
    } else if s.next_is_pending() {
        let first = (s.next as u64, s.pending[s.next as u64]);
        let (rest_end, rest) = s.taken().drained();
        drained_rows_are_those_that_were_due(s.taken(), k);
        assert(rows == seq![first] + rest);
        assert(rows[0] == first);
        assert forall|i: int| 0 < i < rows.len() implies #[trigger] rows[i] == rest[i - 1] by {}
        if s.taken().next <= k < end.next && s.pending.contains_key(k) && !s.skipped.contains(k) {
            let i = choose|i: int| 0 <= i < rest.len() && rest[i] == (k, s.pending[k]);
            assert(rows[i + 1] == (k, s.pending[k]));
        }
        if exists|i: int| 0 <= i < rows.len() && (#[trigger] rows[i]).0 == k {
            let i = choose|i: int| 0 <= i < rows.len() && (#[trigger] rows[i]).0 == k;
            if i > 0 {
                assert(rest[i - 1].0 == k);
            }
        }
    }
}

}
