//! Collecting a run: takes the batches of embeddings as they come and gives the rows of the output
//! in the order of the input.

use vstd::prelude::*;

use crate::number::{decimal, decimal_reads_back, number_value, parse_number, NumberError};
use crate::reorder::{
    drained_row_by_row, drained_rows_are_those_that_were_due, largest_is_never_passed,
    passing_goes_on, ReorderBuffer, ReorderView, Row,
};
use crate::worker::{row_of, EmbeddingBatch, EmbeddingBatchView};

verus! {

/// The number of the message with an ID: what the ID spells, or zero if it spells no number.
pub open spec fn seq_of(id: Seq<char>) -> u64 {
    match number_value(id, u64::MAX as nat) {
        Ok(n) => n as u64,
        Err(_) => 0,
    }
}

fn seq_number(id: &str) -> (r: u64)
    ensures
        r == seq_of(id@),
{
    match parse_number(id, u64::MAX) {
        Ok(n) => n,
        Err(_) => 0,
    }
}

/// Numbers together with those of the first `n` messages.
pub open spec fn with_marks(marks: Set<u64>, ids: Seq<Seq<char>>, n: nat) -> Set<u64>
    decreases n,
{
    if n == 0 {
        marks
    } else {
        with_marks(marks, ids, (n - 1) as nat).insert(seq_of(ids[n - 1]))
    }
}

/// Embeddings together with the first `n` rows of a batch.
pub open spec fn with_rows<T>(
    rows: Map<u64, Seq<T>>,
    batch: EmbeddingBatchView<T>,
    n: nat,
) -> Map<u64, Seq<T>>
    decreases n,
{
    if n == 0 {
        rows
    } else {
        with_rows(rows, batch, (n - 1) as nat).insert(
            seq_of(batch.ids[n - 1]),
            row_of(batch.embeddings, batch.hidden_dim as int, n - 1),
        )
    }
}

/// Whether a batch has no embeddings for its messages.
pub open spec fn has_none<T>(batch: EmbeddingBatchView<T>) -> bool {
    batch.inference_failed || batch.n_rows == 0
}

/// The buffer after a batch was taken in.
pub open spec fn absorbed<T>(s: ReorderView<T>, batch: EmbeddingBatchView<T>) -> ReorderView<T> {
    ReorderView {
        skipped: if has_none(batch) {
            with_marks(s.skipped, batch.ids, batch.ids.len())
        } else {
            s.skipped
        },
        pending: with_rows(s.pending, batch, batch.n_rows),
        ..s
    }
}

/// The buffer with every number below `total` that did not come noted as having no embedding.
pub open spec fn gaps_marked<T>(s: ReorderView<T>, total: nat) -> ReorderView<T> {
    ReorderView {
        skipped: s.skipped.union(
            Set::new(|k: u64| s.next <= k < total && !s.pending.contains_key(k)),
        ),
        ..s
    }
}

/// The contents of rows.
pub open spec fn rows_view<T>(rows: Seq<(u64, Vec<T>)>) -> Seq<Row<T>> {
    rows.map_values(|row: (u64, Vec<T>)| (row.0, row.1@))
}

/// What a [`Collector`] has: the buffer, and how many rows were given and messages were lost.
pub struct CollectorView<T> {
    pub buffer: ReorderView<T>,
    pub written: nat,
    pub lost: nat,
}

/// Takes the batches of a run and gives the rows of the output in order.
pub struct Collector<T> {
    reorder: ReorderBuffer<T>,
    written: u64,
    lost: u64,
}

impl<T> View for Collector<T> {
    type V = CollectorView<T>;

    closed spec fn view(&self) -> CollectorView<T> {
        CollectorView {
            buffer: self.reorder@,
            written: self.written as nat,
            lost: self.lost as nat,
        }
    }
}

impl<T> Collector<T> {
    /// No more rows were given than numbers have passed, and the largest number is not in use.
    pub closed spec fn valid(self) -> bool {
        &&& self.written <= self.reorder@.next <= u64::MAX
        &&& !self.reorder@.pending.contains_key(u64::MAX)
        &&& !self.reorder@.skipped.contains(u64::MAX)
    }

    /// The number of values of an embedding.
    pub closed spec fn dim(self) -> usize {
        self.reorder.dim()
    }

    /// A collector that has nothing yet.
    pub fn new(hidden_dim: usize) -> (r: Self)
        ensures
            r.valid(),
            r.dim() == hidden_dim,
            r@ == (CollectorView::<T> {
                buffer: ReorderView {
                    next: 0,
                    pending: Map::empty(),
                    skipped: Set::empty(),
                },
                written: 0,
                lost: 0,
            }),
    {
        Collector { reorder: ReorderBuffer::new(hidden_dim), written: 0, lost: 0 }
    }

    /// How many rows were given.
    pub fn written(&self) -> (r: u64)
        ensures
            r == self@.written,
    {
        self.written
    }

    /// How many messages were lost to failures of inference.
    pub fn lost(&self) -> (r: u64)
        ensures
            r == self@.lost,
    {
        self.lost
    }

    /// Takes all rows out of the buffer whose turn has come.
    fn drain(&mut self) -> (r: Vec<(u64, Vec<T>)>)
        requires
            old(self).valid(),
        ensures
            final(self).valid(),
            final(self).dim() == old(self).dim(),
            (final(self)@.buffer, rows_view(r@)) == old(self)@.buffer.drained(),
            final(self)@.written == old(self)@.written + r@.len(),
            final(self)@.lost == old(self)@.lost,
    {
        let mut rows: Vec<(u64, Vec<T>)> = Vec::new();
        let ghost start = self@.buffer;
        assert(rows_view(rows@) + start.drained().1 == start.drained().1);
        loop
            invariant_except_break
                self.valid(),
                self.dim() == old(self).dim(),
                start == old(self)@.buffer,
                start.drained() == (
                    self@.buffer.drained().0,
                    rows_view(rows@) + self@.buffer.drained().1,
                ),
                self@.written == old(self)@.written + rows@.len(),
                self@.lost == old(self)@.lost,
            ensures
                self.valid(),
                self.dim() == old(self).dim(),
                (self@.buffer, rows_view(rows@)) == start.drained(),
                self@.written == old(self)@.written + rows@.len(),
                self@.lost == old(self)@.lost,
            decreases u64::MAX - self@.buffer.next,
        {
            let ghost before = self@.buffer;
            let ghost given = rows@;
            proof {
                drained_row_by_row(before);
                largest_is_never_passed(before);
                passing_goes_on(before);
            }
            match self.reorder.pop_next() {
                Some(row) => {
                    self.written += 1;
                    rows.push(row);
                    proof {
                        let r = (row.0, row.1@);
                        assert(rows_view(rows@) == rows_view(given).push(r));
                        let rest = self@.buffer.drained().1;
                        assert(rows_view(given) + (seq![r] + rest) == rows_view(rows@) + rest);
                    }
                },
                None => {
                    assert(rows_view(rows@) + Seq::<Row<T>>::empty() == rows_view(rows@));
                    break;
                },
            }
        }
        rows
    }

    /// Notes that the numbers below `total` that did not come have no embedding, and gives the
    /// rows that are left.
    pub fn finish(&mut self, total: u64) -> (r: Vec<(u64, Vec<T>)>)
        requires
            old(self).valid(),
        ensures
            final(self).valid(),
            final(self).dim() == old(self).dim(),
            (final(self)@.buffer, rows_view(r@)) == gaps_marked(
                old(self)@.buffer,
                total as nat,
            ).drained(),
            final(self)@.written == old(self)@.written + r@.len(),
            final(self)@.lost == old(self)@.lost,
    {
        let ghost before = self@.buffer;
        let first: u64 = self.reorder.next_seq();
        let mut seq: u64 = first;
        assert(before.skipped == gaps_marked(before, first as nat).skipped);
        while seq < total
            invariant
                self.valid(),
                self.dim() == old(self).dim(),
                before == old(self)@.buffer,
                before.next == first,
                first <= seq,
                seq <= total || seq == first,
                self@.buffer == gaps_marked(before, seq as nat),
                self@.written == old(self)@.written,
                self@.lost == old(self)@.lost,
            decreases total - seq,
        {
            let ghost mid = self@.buffer;
            let ghost after = gaps_marked(before, (seq + 1) as nat);
            if !self.reorder.has_pending(seq) {
                self.reorder.mark_skipped(seq);
                assert(self@.buffer.skipped == after.skipped);
            } else {
                assert(mid.skipped == after.skipped);
            }
            seq += 1;
        }
        assert(gaps_marked(before, seq as nat).skipped == gaps_marked(before, total as nat).skipped);
        self.drain()
    }
}

impl<T: Copy> Collector<T> {
    /// Takes a batch in and gives the rows whose turn has come.
    pub fn absorb(&mut self, batch: &EmbeddingBatch<T>) -> (r: Vec<(u64, Vec<T>)>)
        requires
            old(self).valid(),
            batch@.n_rows <= batch@.ids.len(),
            batch@.n_rows * batch@.hidden_dim <= batch@.embeddings.len(),
            batch@.n_rows > 0 ==> batch@.hidden_dim == old(self).dim(),
            old(self)@.lost + batch@.ids.len() <= u64::MAX,
            forall|i: int| 0 <= i < batch@.ids.len() ==> seq_of(#[trigger] batch@.ids[i]) < u64::MAX,
        ensures
            final(self).valid(),
            final(self).dim() == old(self).dim(),
            (final(self)@.buffer, rows_view(r@)) == absorbed(old(self)@.buffer, batch@).drained(),
            final(self)@.written == old(self)@.written + r@.len(),
            final(self)@.lost == old(self)@.lost + (if batch.inference_failed {
                batch@.ids.len()
            } else {
                0
            }),
    {
        let n: usize = batch.ids.len();
        if batch.inference_failed {
            self.lost += n as u64;
        }
        if batch.inference_failed || batch.n_rows == 0 {
            for i in 0..n
                invariant
                    n == batch@.ids.len(),
                    n == batch.ids@.len(),
                    self.valid(),
                    self.dim() == old(self).dim(),
                    self@.written == old(self)@.written,
                    self@.lost == old(self)@.lost + (if batch.inference_failed {
                        n as nat
                    } else {
                        0
                    }),
                    self@.buffer == (ReorderView {
                        skipped: with_marks(old(self)@.buffer.skipped, batch@.ids, i as nat),
                        ..old(self)@.buffer
                    }),
                    forall|k: int|
                        0 <= k < batch@.ids.len() ==> seq_of(#[trigger] batch@.ids[k]) < u64::MAX,
            {
                assert(batch@.ids[i as int] == batch.ids@[i as int]@);
                let seq: u64 = seq_number(batch.ids[i].as_str());
                self.reorder.mark_skipped(seq);
            }
        }
        let ghost marked = self@.buffer;
        let rows: usize = batch.n_rows;
        for i in 0..rows
            invariant
                rows == batch.n_rows,
                batch@.n_rows <= batch@.ids.len(),
                batch@.n_rows * batch@.hidden_dim <= batch@.embeddings.len(),
                rows > 0 ==> batch@.hidden_dim == old(self).dim(),
                self.valid(),
                self.dim() == old(self).dim(),
                self@.written == old(self)@.written,
                self@.lost == old(self)@.lost + (if batch.inference_failed {
                    batch@.ids.len()
                } else {
                    0
                }),
                self@.buffer == (ReorderView {
                    pending: with_rows(marked.pending, batch@, i as nat),
                    ..marked
                }),
                forall|k: int|
                    0 <= k < batch@.ids.len() ==> seq_of(#[trigger] batch@.ids[k]) < u64::MAX,
        {
            assert(batch@.ids[i as int] == batch.ids@[i as int]@);
            assert((i + 1) * batch.hidden_dim <= batch.n_rows * batch.hidden_dim)
                by (nonlinear_arith)
                requires
                    i < batch.n_rows,
            ;
            let seq: u64 = seq_number(batch.ids[i].as_str());
            let embedding = batch.embedding(i);
            proof {
                assert(i * batch.hidden_dim + batch.hidden_dim == (i + 1) * batch.hidden_dim)
                    by (nonlinear_arith);
                assert(0 <= i * batch.hidden_dim) by (nonlinear_arith);
            }
            self.reorder.insert(seq, embedding);
        }
        self.drain()
    }
}

// What the output is.

/// The buffer after batches were taken in, and the rows that were given.
pub open spec fn collected<T>(batches: Seq<EmbeddingBatchView<T>>) -> (ReorderView<T>, Seq<Row<T>>)
    decreases batches.len(),
{
    if batches.len() == 0 {
        (ReorderView { next: 0, pending: Map::empty(), skipped: Set::empty() }, Seq::empty())
    } else {
        let (mid, rows) = collected(batches.drop_last());
        let (end, more) = absorbed(mid, batches.last()).drained();
        (end, rows + more)
    }
}

/// The rows of the output of a run of `total` messages that came back as `batches`.
pub open spec fn output_of<T>(batches: Seq<EmbeddingBatchView<T>>, total: nat) -> Seq<Row<T>> {
    let (end, rows) = collected(batches);
    rows + gaps_marked(end, total).drained().1
}

/// The embeddings that batches hold, by the number of their message.
pub open spec fn embeddings_of<T>(batches: Seq<EmbeddingBatchView<T>>) -> Map<u64, Seq<T>>
    decreases batches.len(),
{
    if batches.len() == 0 {
        Map::empty()
    } else {
        with_rows(
            embeddings_of(batches.drop_last()),
            batches.last(),
            batches.last().n_rows,
        )
    }
}

/// The numbers of the messages of batches, one batch after the other.
pub open spec fn seqs_of<T>(batches: Seq<EmbeddingBatchView<T>>) -> Seq<u64>
    decreases batches.len(),
{
    if batches.len() == 0 {
        Seq::empty()
    } else {
        seqs_of(batches.drop_last()) + batches.last().ids.map_values(|id: Seq<char>| seq_of(id))
    }
}

/// The rows of the numbers below `n`, in ascending order.
pub open spec fn rows_below<T>(embeddings: Map<u64, Seq<T>>, n: nat) -> Seq<Row<T>>
    decreases n,
{
    if n == 0 {
        Seq::empty()
    } else {
        let before = rows_below(embeddings, (n - 1) as nat);
        if n - 1 <= u64::MAX && embeddings.contains_key((n - 1) as u64) {
            before.push(((n - 1) as u64, embeddings[(n - 1) as u64]))
        } else {
            before
        }
    }
}

/// Whether a batch has an embedding for each of its messages, or for none.
pub open spec fn all_or_none<T>(batch: EmbeddingBatchView<T>) -> bool {
    if has_none(batch) {
        batch.n_rows == 0
    } else {
        batch.n_rows == batch.ids.len()
    }
}

/// The numbers without an embedding in batches.
spec fn marks_of<T>(batches: Seq<EmbeddingBatchView<T>>) -> Set<u64>
    decreases batches.len(),
{
    if batches.len() == 0 {
        Set::empty()
    } else if has_none(batches.last()) {
        with_marks(
            marks_of(batches.drop_last()),
            batches.last().ids,
            batches.last().ids.len(),
        )
    } else {
        marks_of(batches.drop_last())
    }
}

/// How a buffer stands to the embeddings and the marks that came so far, and to the rows given.
spec fn in_step<T>(
    s: ReorderView<T>,
    embeddings: Map<u64, Seq<T>>,
    marks: Set<u64>,
    rows: Seq<Row<T>>,
) -> bool {
    &&& forall|k: u64|
        #![trigger s.pending.contains_key(k)]
        #![trigger embeddings.contains_key(k)]
        s.pending.contains_key(k) <==> embeddings.contains_key(k) && k >= s.next
    &&& forall|k: u64| s.pending.contains_key(k) ==> #[trigger] s.pending[k] == embeddings[k]
    &&& forall|k: u64|
        #![trigger s.skipped.contains(k)]
        #![trigger marks.contains(k)]
        s.skipped.contains(k) <==> marks.contains(k) && k >= s.next
    &&& forall|k: u64|
        #![trigger marks.contains(k)]
        #![trigger embeddings.contains_key(k)]
        !(marks.contains(k) && embeddings.contains_key(k))
    &&& forall|k: u64|
        #![trigger marks.contains(k)]
        #![trigger embeddings.contains_key(k)]
        k < s.next ==> marks.contains(k) || embeddings.contains_key(k)
    &&& rows == rows_below(embeddings, s.next)
}

proof fn draining_keeps_step<T>(
    s: ReorderView<T>,
    embeddings: Map<u64, Seq<T>>,
    marks: Set<u64>,
    rows: Seq<Row<T>>,
)
    requires
        in_step(s, embeddings, marks, rows),
    ensures
        in_step(s.drained().0, embeddings, marks, rows + s.drained().1),
        !s.drained().0.next_is_skipped(),
        !s.drained().0.next_is_pending(),
        s.next <= s.drained().0.next,
    decreases u64::MAX + 1 - s.next,
{
    let k = s.next as u64;
    if s.next_is_skipped() {
        assert(marks.contains(k));
        assert(!embeddings.contains_key(k));
        draining_keeps_step(s.passed(), embeddings, marks, rows);
    } else if s.next_is_pending() {
        assert(embeddings.contains_key(k));
        let t = s.taken();
        let row = (k, s.pending[k]);
        assert(in_step(t, embeddings, marks, rows.push(row)));
        draining_keeps_step(t, embeddings, marks, rows.push(row));
        assert(rows.push(row) + t.drained().1 == rows + s.drained().1);
    } else {
        assert(rows + Seq::<Row<T>>::empty() == rows);
    }
}

proof fn marks_are(marks: Set<u64>, ids: Seq<Seq<char>>, n: nat)
    requires
        n <= ids.len(),
    ensures
        forall|k: u64|
            #[trigger] with_marks(marks, ids, n).contains(k) <==> marks.contains(k) || (exists|
                i: int,
            |
                0 <= i < n && seq_of(#[trigger] ids[i]) == k),
    decreases n,
{
    if n > 0 {
        let before = with_marks(marks, ids, (n - 1) as nat);
        marks_are(marks, ids, (n - 1) as nat);
        assert forall|k: u64| #[trigger] with_marks(marks, ids, n).contains(k) <==> marks.contains(
            k,
        ) || (exists|i: int| 0 <= i < n && seq_of(#[trigger] ids[i]) == k) by {
            assert(with_marks(marks, ids, n).contains(k) <==> before.contains(k) || seq_of(
                ids[n - 1],
            ) == k);
            if exists|i: int| 0 <= i < n && seq_of(#[trigger] ids[i]) == k {
                let i = choose|i: int| 0 <= i < n && seq_of(#[trigger] ids[i]) == k;
                assert(i < n - 1 ==> before.contains(k));
            }
        }
    }
}

pub(crate) proof fn rows_are<T>(
    a: Map<u64, Seq<T>>,
    b: Map<u64, Seq<T>>,
    batch: EmbeddingBatchView<T>,
    n: nat,
)
    requires
        n <= batch.ids.len(),
    ensures
        forall|k: u64|
            #[trigger] with_rows(a, batch, n).contains_key(k) <==> a.contains_key(k) || (exists|
                i: int,
            |
                0 <= i < n && seq_of(#[trigger] batch.ids[i]) == k),
        forall|k: u64|
            (exists|i: int| 0 <= i < n && seq_of(#[trigger] batch.ids[i]) == k)
                ==> #[trigger] with_rows(a, batch, n)[k] == with_rows(b, batch, n)[k],
        forall|k: u64|
            a.contains_key(k) && !(exists|i: int|
                0 <= i < n && seq_of(#[trigger] batch.ids[i]) == k) ==> #[trigger] with_rows(
                a,
                batch,
                n,
            )[k] == a[k],
    decreases n,
{
    if n > 0 {
        let m = (n - 1) as nat;
        rows_are(a, b, batch, m);
        let key = seq_of(batch.ids[n - 1]);
        let x = with_rows(a, batch, n);
        let y = with_rows(b, batch, n);
        assert forall|k: u64| #[trigger] x.contains_key(k) <==> a.contains_key(k) || (exists|
            i: int,
        |
            0 <= i < n && seq_of(#[trigger] batch.ids[i]) == k) by {
            if exists|i: int| 0 <= i < n && seq_of(#[trigger] batch.ids[i]) == k {
                let i = choose|i: int| 0 <= i < n && seq_of(#[trigger] batch.ids[i]) == k;
                if i < m {
                    assert(with_rows(a, batch, m).contains_key(k));
                }
                assert(x.contains_key(k));
            }
            if a.contains_key(k) {
                assert(with_rows(a, batch, m).contains_key(k));
            }
            if x.contains_key(k) && k != key {
                assert(with_rows(a, batch, m).contains_key(k));
            }
        }
        assert forall|k: u64| (exists|i: int|
            0 <= i < n && seq_of(#[trigger] batch.ids[i]) == k) implies #[trigger] x[k] == y[k] by {
            let i = choose|i: int| 0 <= i < n && seq_of(#[trigger] batch.ids[i]) == k;
            if k != key {
                assert(0 <= i < m);
                assert(with_rows(a, batch, m)[k] == with_rows(b, batch, m)[k]);
            }
        }
        assert forall|k: u64|
            a.contains_key(k) && !(exists|i: int|
                0 <= i < n && seq_of(#[trigger] batch.ids[i]) == k) implies #[trigger] x[k]
            == a[k] by {
            assert(seq_of(batch.ids[n - 1]) != k);
            assert(with_rows(a, batch, m)[k] == a[k]);
        }
    }
}

proof fn rows_below_ignores_later<T>(a: Map<u64, Seq<T>>, b: Map<u64, Seq<T>>, n: nat)
    requires
        forall|k: u64| k < n ==> (#[trigger] a.contains_key(k) <==> b.contains_key(k)),
        forall|k: u64| k < n && a.contains_key(k) ==> #[trigger] a[k] == b[k],
    ensures
        rows_below(a, n) == rows_below(b, n),
    decreases n,
{
    if n > 0 {
        rows_below_ignores_later(a, b, (n - 1) as nat);
        if n - 1 <= u64::MAX {
            let k = (n - 1) as u64;
            assert(a.contains_key(k) <==> b.contains_key(k));
            assert(a.contains_key(k) ==> a[k] == b[k]);
        }
    }
}

proof fn rows_below_end<T>(embeddings: Map<u64, Seq<T>>, n: nat, m: nat)
    requires
        n <= m,
        forall|k: u64| #[trigger] embeddings.contains_key(k) ==> k < n,
    ensures
        rows_below(embeddings, m) == rows_below(embeddings, n),
    decreases m - n,
{
    if n < m {
        rows_below_end(embeddings, n, (m - 1) as nat);
    }
}

/// Which numbers have come.
proof fn come_so_far<T>(batches: Seq<EmbeddingBatchView<T>>)
    requires
        forall|i: int| 0 <= i < batches.len() ==> all_or_none(#[trigger] batches[i]),
    ensures
        forall|k: u64|
            #[trigger] seqs_of(batches).contains(k) <==> marks_of(batches).contains(k)
                || embeddings_of(batches).contains_key(k),
    decreases batches.len(),
{
    if batches.len() > 0 {
        let front = batches.drop_last();
        let last = batches.last();
        assert forall|i: int| 0 <= i < front.len() implies all_or_none(#[trigger] front[i]) by {
            assert(front[i] == batches[i]);
        }
        come_so_far(front);
        assert(all_or_none(batches[batches.len() - 1]));
        marks_are(marks_of(front), last.ids, last.ids.len());
        rows_are(embeddings_of(front), embeddings_of(front), last, last.n_rows);
        let new = last.ids.map_values(|id: Seq<char>| seq_of(id));
        assert forall|k: u64| #[trigger] seqs_of(batches).contains(k) <==> marks_of(
            batches,
        ).contains(k) || embeddings_of(batches).contains_key(k) by {
            let old_seqs = seqs_of(front);
            if old_seqs.contains(k) {
                let j = choose|j: int| 0 <= j < old_seqs.len() && old_seqs[j] == k;
                assert(seqs_of(batches)[j] == k);
            }
            if exists|i: int| 0 <= i < last.ids.len() && seq_of(#[trigger] last.ids[i]) == k {
                let i = choose|i: int| 0 <= i < last.ids.len() && seq_of(#[trigger] last.ids[i]) == k;
                assert(new[i] == k);
                assert(seqs_of(batches)[old_seqs.len() + i] == k);
            }
            if seqs_of(batches).contains(k) {
                let j = choose|j: int| 0 <= j < seqs_of(batches).len() && seqs_of(batches)[j] == k;
                if j < old_seqs.len() {
                    assert(old_seqs[j] == k);
                    assert(old_seqs.contains(k));
                } else {
                    assert(seq_of(last.ids[j - old_seqs.len()]) == k);
                }
            }
            assert(old_seqs.contains(k) <==> marks_of(front).contains(k) || embeddings_of(
                front,
            ).contains_key(k));
            assert(with_marks(marks_of(front), last.ids, last.ids.len()).contains(k)
                <==> marks_of(front).contains(k) || (exists|i: int|
                0 <= i < last.ids.len() && seq_of(#[trigger] last.ids[i]) == k));
            assert(embeddings_of(batches).contains_key(k) <==> embeddings_of(front).contains_key(k)
                || (exists|i: int| 0 <= i < last.n_rows && seq_of(#[trigger] last.ids[i]) == k));
        }
    }
}

proof fn collecting_keeps_step<T>(batches: Seq<EmbeddingBatchView<T>>)
    requires
        forall|i: int| 0 <= i < batches.len() ==> all_or_none(#[trigger] batches[i]),
        seqs_of(batches).no_duplicates(),
    ensures
        in_step(
            collected(batches).0,
            embeddings_of(batches),
            marks_of(batches),
            collected(batches).1,
        ),
    decreases batches.len(),
{
    if batches.len() > 0 {
        let front = batches.drop_last();
        let last = batches.last();
        assert forall|i: int| 0 <= i < front.len() implies all_or_none(#[trigger] front[i]) by {
            assert(front[i] == batches[i]);
        }
        let old_seqs = seqs_of(front);
        let all = seqs_of(batches);
        let new = last.ids.map_values(|id: Seq<char>| seq_of(id));
        assert forall|i: int, j: int| 0 <= i < old_seqs.len() && 0 <= j < old_seqs.len() && i
            != j implies old_seqs[i] != old_seqs[j] by {
            assert(all[i] == old_seqs[i]);
            assert(all[j] == old_seqs[j]);
        }
        collecting_keeps_step(front);
        come_so_far(front);
        let (mid, rows) = collected(front);
        let e0 = embeddings_of(front);
        let m0 = marks_of(front);
        let e1 = embeddings_of(batches);
        let m1 = marks_of(batches);
        assert(all_or_none(batches[batches.len() - 1]));
        marks_are(m0, last.ids, last.ids.len());
        marks_are(mid.skipped, last.ids, last.ids.len());
        rows_are(e0, mid.pending, last, last.n_rows);
        rows_are(mid.pending, e0, last, last.n_rows);
        let s = absorbed(mid, last);
        assert forall|i: int| 0 <= i < last.ids.len() implies {
            let k = seq_of(#[trigger] last.ids[i]);
            k >= mid.next && !m0.contains(k) && !e0.contains_key(k)
        } by {
            let k = seq_of(last.ids[i]);
            assert(new[i] == k);
            assert(all[old_seqs.len() + i] == k);
            if old_seqs.contains(k) {
                let j = choose|j: int| 0 <= j < old_seqs.len() && old_seqs[j] == k;
                assert(all[j] == k);
            }
            assert(!m0.contains(k) && !e0.contains_key(k));
        }
        assert forall|k: u64|
            #![trigger s.pending.contains_key(k)]
            #![trigger e1.contains_key(k)]
            s.pending.contains_key(k) <==> e1.contains_key(k) && k >= s.next by {
            assert(mid.pending.contains_key(k) <==> e0.contains_key(k) && k >= mid.next);
        }
        assert forall|k: u64| s.pending.contains_key(k) implies #[trigger] s.pending[k]
            == e1[k] by {
            if exists|i: int| 0 <= i < last.n_rows && seq_of(#[trigger] last.ids[i]) == k {
            } else {
                assert(mid.pending.contains_key(k));
                assert(mid.pending[k] == e0[k]);
            }
        }
        assert forall|k: u64|
            #![trigger s.skipped.contains(k)]
            #![trigger m1.contains(k)]
            s.skipped.contains(k) <==> m1.contains(k) && k >= s.next by {
            assert(mid.skipped.contains(k) <==> m0.contains(k) && k >= mid.next);
        }
        assert forall|k: u64|
            #![trigger m1.contains(k)]
            #![trigger e1.contains_key(k)]
            !(m1.contains(k) && e1.contains_key(k)) by {
            assert(!(m0.contains(k) && e0.contains_key(k)));
        }
        assert forall|k: u64|
            #![trigger m1.contains(k)]
            #![trigger e1.contains_key(k)]
            k < s.next implies m1.contains(k) || e1.contains_key(k) by {
            assert(m0.contains(k) || e0.contains_key(k));
        }
        assert forall|k: u64| k < mid.next implies (#[trigger] e1.contains_key(k)
            <==> e0.contains_key(k)) by {
            if e1.contains_key(k) && !e0.contains_key(k) {
                let i = choose|i: int| 0 <= i < last.n_rows && seq_of(#[trigger] last.ids[i]) == k;
                assert(seq_of(last.ids[i]) >= mid.next);
            }
        }
        assert forall|k: u64| k < mid.next && e1.contains_key(k) implies #[trigger] e1[k]
            == e0[k] by {
            if exists|i: int| 0 <= i < last.n_rows && seq_of(#[trigger] last.ids[i]) == k {
                let i = choose|i: int| 0 <= i < last.n_rows && seq_of(#[trigger] last.ids[i]) == k;
                assert(seq_of(last.ids[i]) >= mid.next);
            }
        }
        rows_below_ignores_later(e1, e0, mid.next);
        assert(in_step(s, e1, m1, rows));
        draining_keeps_step(s, e1, m1, rows);
    }
}

/// The order of the rows is preserved: if every message comes back once at most, in whatever order
/// and batches, then the output has a row for every message that has an embedding, with that
/// embedding, in the order of the input.
pub proof fn output_is_in_input_order<T>(batches: Seq<EmbeddingBatchView<T>>, total: nat)
    requires
        total <= u64::MAX,
        forall|i: int| 0 <= i < batches.len() ==> all_or_none(#[trigger] batches[i]),
        seqs_of(batches).no_duplicates(),
        forall|j: int| 0 <= j < seqs_of(batches).len() ==> #[trigger] seqs_of(batches)[j] < total,
    ensures
        output_of(batches, total) == rows_below(embeddings_of(batches), total),
{
    let e = embeddings_of(batches);
    let m = marks_of(batches);
    let (s, rows) = collected(batches);
    collecting_keeps_step(batches);
    come_so_far(batches);
    let t = gaps_marked(s, total);
    let m2 = m.union(Set::new(|k: u64| s.next <= k < total && !s.pending.contains_key(k)));
    assert(in_step(t, e, m2, rows));
    draining_keeps_step(t, e, m2, rows);
    let end = t.drained().0;
    if end.next < total {
        let k = end.next as u64;
        if s.next <= k {
            assert(t.skipped.contains(k) || t.pending.contains_key(k));
        }
        assert(m2.contains(k) || e.contains_key(k));
        assert(end.skipped.contains(k) || end.pending.contains_key(k));
    }
    assert forall|k: u64| #[trigger] e.contains_key(k) implies k < total by {
        assert(seqs_of(batches).contains(k));
        let j = choose|j: int| 0 <= j < seqs_of(batches).len() && seqs_of(batches)[j] == k;
        assert(seqs_of(batches)[j] < total);
    }
    rows_below_end(e, total, end.next);
}

/// An ID that spells the number of its message in decimal notation is read as that number.
pub proof fn decimal_id_is_its_number(n: u64)
    ensures
        seq_of(decimal(n as nat)) == n,
{
    decimal_reads_back(n as nat, u64::MAX as nat);
}

/// The IDs of the messages of batches, one batch after the other.
pub open spec fn batch_ids<T>(batches: Seq<EmbeddingBatchView<T>>) -> Seq<Seq<char>>
    decreases batches.len(),
{
    if batches.len() == 0 {
        Seq::empty()
    } else {
        batch_ids(batches.drop_last()) + batches.last().ids
    }
}

/// Whether an ID is the decimal notation of a number below `total`.
pub open spec fn numbers_below(id: Seq<char>, total: nat) -> bool {
    exists|k: nat| k < total && id == #[trigger] decimal(k)
}

proof fn seqs_are_of_ids<T>(batches: Seq<EmbeddingBatchView<T>>)
    ensures
        seqs_of(batches) == batch_ids(batches).map_values(|id: Seq<char>| seq_of(id)),
    decreases batches.len(),
{
    if batches.len() > 0 {
        seqs_are_of_ids(batches.drop_last());
        let f = |id: Seq<char>| seq_of(id);
        assert(batch_ids(batches).map_values(f) == batch_ids(batches.drop_last()).map_values(f)
            + batches.last().ids.map_values(f));
    }
}

/// The order of the rows is preserved for messages that are numbered in decimal notation: if no
/// ID comes back twice, in whatever order and batches, then the output has a row for every message
/// that has an embedding, with that embedding, in the order of the input.
pub proof fn numbered_messages_stay_in_order<T>(batches: Seq<EmbeddingBatchView<T>>, total: nat)
    requires
        total <= u64::MAX,
        forall|i: int| 0 <= i < batches.len() ==> all_or_none(#[trigger] batches[i]),
        batch_ids(batches).no_duplicates(),
        forall|j: int|
            0 <= j < batch_ids(batches).len() ==> numbers_below(
                #[trigger] batch_ids(batches)[j],
                total,
            ),
    ensures
        output_of(batches, total) == rows_below(embeddings_of(batches), total),
{
    let ids = batch_ids(batches);
    let seqs = seqs_of(batches);
    seqs_are_of_ids(batches);
    assert forall|j: int| 0 <= j < seqs.len() implies #[trigger] seqs[j] < total && ids[j]
        == decimal(seqs[j] as nat) by {
        assert(numbers_below(ids[j], total));
        let k = choose|k: nat| k < total && ids[j] == #[trigger] decimal(k);
        decimal_id_is_its_number(k as u64);
    }
    assert forall|i: int, j: int| 0 <= i < seqs.len() && 0 <= j < seqs.len() && i
        != j implies seqs[i] != seqs[j] by {
        assert(ids[i] != ids[j]);
    }
    output_is_in_input_order(batches, total);
}

/// The batches that a run makes have an embedding for each of their messages, or for none.
pub proof fn batches_of_a_run_are_all_or_none<T>(
    id: Seq<char>,
    row: Seq<T>,
    ids: Seq<Seq<char>>,
    output: Seq<T>,
    hidden_dim: nat,
)
    ensures
        all_or_none(EmbeddingBatchView::<T>::skipped(id, hidden_dim)),
        all_or_none(EmbeddingBatchView::reused(id, row, hidden_dim)),
        all_or_none(EmbeddingBatchView::computed(ids, output, hidden_dim)),
        all_or_none(EmbeddingBatchView::<T>::failed(ids, hidden_dim)),
{
}

/// Where every message has an embedding, row `k` of the output is that of message `k`.
pub proof fn row_is_that_of_its_message<T>(embeddings: Map<u64, Seq<T>>, total: nat)
    requires
        total <= u64::MAX,
        forall|k: u64| k < total ==> #[trigger] embeddings.contains_key(k),
    ensures
        rows_below(embeddings, total).len() == total,
        forall|k: int|
            0 <= k < total ==> #[trigger] rows_below(embeddings, total)[k] == (
                k as u64,
                embeddings[k as u64],
            ),
    decreases total,
{
    if total > 0 {
        row_is_that_of_its_message(embeddings, (total - 1) as nat);
        assert(embeddings.contains_key((total - 1) as u64));
    }
}

// Laws.

proof fn rows_below_ascend<T>(embeddings: Map<u64, Seq<T>>, n: nat)
    ensures
        forall|i: int|
            0 <= i < rows_below(embeddings, n).len() ==> ({
                let row = #[trigger] rows_below(embeddings, n)[i];
                row.0 < n && embeddings.contains_key(row.0) && row.1 == embeddings[row.0]
            }),
        forall|i: int, j: int|
            0 <= i < j < rows_below(embeddings, n).len() ==> (#[trigger] rows_below(
                embeddings,
                n,
            )[i]).0 < (#[trigger] rows_below(embeddings, n)[j]).0,
        forall|k: u64|
            k < n && #[trigger] embeddings.contains_key(k) ==> rows_below(embeddings, n).contains(
                (k, embeddings[k]),
            ),
    decreases n,
{
    if n > 0 {
        let m = (n - 1) as nat;
        rows_below_ascend(embeddings, m);
        let before = rows_below(embeddings, m);
        let all = rows_below(embeddings, n);
        assert forall|i: int| 0 <= i < all.len() implies ({
            let row = #[trigger] all[i];
            row.0 < n && embeddings.contains_key(row.0) && row.1 == embeddings[row.0]
        }) by {
            if i < before.len() {
                assert(all[i] == before[i]);
            }
        }
        assert forall|i: int, j: int| 0 <= i < j < all.len() implies (#[trigger] all[i]).0 < (
        #[trigger] all[j]).0 by {
            assert(all[i] == before[i]);
            if j < before.len() {
                assert(all[j] == before[j]);
            }
        }
        assert forall|k: u64| k < n && #[trigger] embeddings.contains_key(k) implies all.contains(
            (k, embeddings[k]),
        ) by {
            if k < m {
                let i = choose|i: int| 0 <= i < before.len() && before[i] == (k, embeddings[k]);
                assert(all[i] == before[i]);
            } else {
                assert(all[all.len() - 1] == (k, embeddings[k]));
            }
        }
    }
}

proof fn row_in_batch<T>(rows: Map<u64, Seq<T>>, batch: EmbeddingBatchView<T>, n: nat, i: int)
    requires
        0 <= i < n <= batch.ids.len(),
        forall|j: int|
            0 <= j < n && j != i ==> seq_of(#[trigger] batch.ids[j]) != seq_of(batch.ids[i]),
    ensures
        with_rows(rows, batch, n).contains_key(seq_of(batch.ids[i])),
        with_rows(rows, batch, n)[seq_of(batch.ids[i])] == row_of(
            batch.embeddings,
            batch.hidden_dim as int,
            i,
        ),
    decreases n,
{
    if i < n - 1 {
        row_in_batch(rows, batch, (n - 1) as nat, i);
        assert(seq_of(batch.ids[n - 1]) != seq_of(batch.ids[i]));
    }
}

proof fn number_is_among<T>(batches: Seq<EmbeddingBatchView<T>>, b: int, i: int) -> (at: int)
    requires
        0 <= b < batches.len(),
        0 <= i < batches[b].ids.len(),
    ensures
        0 <= at < seqs_of(batches).len(),
        seqs_of(batches)[at] == seq_of(batches[b].ids[i]),
        b == batches.len() - 1 ==> at == seqs_of(batches.drop_last()).len() + i,
        b < batches.len() - 1 ==> at < seqs_of(batches.drop_last()).len(),
    decreases batches.len(),
{
    let front = batches.drop_last();
    if b < front.len() {
        let at = number_is_among(front, b, i);
        assert(seqs_of(batches)[at] == seqs_of(front)[at]);
        at
    } else {
        seqs_of(front).len() + i
    }
}

proof fn embedding_of_a_row<T>(batches: Seq<EmbeddingBatchView<T>>, b: int, i: int)
    requires
        forall|k: int| 0 <= k < batches.len() ==> (#[trigger] batches[k]).n_rows
            <= batches[k].ids.len(),
        seqs_of(batches).no_duplicates(),
        0 <= b < batches.len(),
        0 <= i < batches[b].n_rows,
    ensures
        embeddings_of(batches).contains_key(seq_of(batches[b].ids[i])),
        embeddings_of(batches)[seq_of(batches[b].ids[i])] == row_of(
            batches[b].embeddings,
            batches[b].hidden_dim as int,
            i,
        ),
    decreases batches.len(),
{
    let front = batches.drop_last();
    let last = batches.last();
    let k = batches.len() - 1;
    let key = seq_of(batches[b].ids[i]);
    assert(batches[k].n_rows <= batches[k].ids.len());
    let at = number_is_among(batches, b, i);
    if b < k {
        assert forall|j: int| 0 <= j < front.len() implies (#[trigger] front[j]).n_rows
            <= front[j].ids.len() by {
            assert(front[j] == batches[j]);
        }
        assert(seqs_of(front).no_duplicates()) by {
            assert forall|x: int, y: int|
                0 <= x < seqs_of(front).len() && 0 <= y < seqs_of(front).len() && x
                    != y implies seqs_of(front)[x] != seqs_of(front)[y] by {
                assert(seqs_of(batches)[x] == seqs_of(front)[x]);
                assert(seqs_of(batches)[y] == seqs_of(front)[y]);
            }
        }
        assert(front[b] == batches[b]);
        embedding_of_a_row(front, b, i);
        rows_are(embeddings_of(front), embeddings_of(front), last, last.n_rows);
        assert(!(exists|j: int| 0 <= j < last.n_rows && seq_of(#[trigger] last.ids[j]) == key)) by {
            if exists|j: int| 0 <= j < last.n_rows && seq_of(#[trigger] last.ids[j]) == key {
                let j = choose|j: int|
                    0 <= j < last.n_rows && seq_of(#[trigger] last.ids[j]) == key;
                let other = number_is_among(batches, k, j);
                assert(other != at);
            }
        }
    } else {
        assert forall|j: int| 0 <= j < last.n_rows && j != i implies seq_of(
            #[trigger] last.ids[j],
        ) != seq_of(last.ids[i]) by {
            let other = number_is_among(batches, k, j);
            assert(other != at);
        }
        row_in_batch(embeddings_of(front), last, last.n_rows, i);
    }
}

/// Every embedding that comes back is written once, under the number of its message and unchanged:
/// where no number comes back twice, the output holds row `i` of batch `b` whatever its place in the
/// batches, and its rows ascend by their numbers.
pub proof fn every_embedding_is_written<T>(
    batches: Seq<EmbeddingBatchView<T>>,
    total: nat,
    b: int,
    i: int,
    n: u64,
)
    requires
        total <= u64::MAX,
        forall|k: int| 0 <= k < batches.len() ==> all_or_none(#[trigger] batches[k]),
        batch_ids(batches).no_duplicates(),
        forall|j: int|
            0 <= j < batch_ids(batches).len() ==> numbers_below(
                #[trigger] batch_ids(batches)[j],
                total,
            ),
        0 <= b < batches.len(),
        0 <= i < batches[b].n_rows <= batches[b].ids.len(),
        batches[b].ids[i] == decimal(n as nat),
        n < total,
    ensures
        ({
            let dim = batches[b].hidden_dim;
            let out = output_of(batches, total);
            let row = batches[b].embeddings.subrange((i * dim) as int, (i * dim + dim) as int);
            &&& out.contains((n, row))
            &&& forall|x: int, y: int|
                0 <= x < y < out.len() ==> (#[trigger] out[x]).0 < (#[trigger] out[y]).0
        }),
{
    numbered_messages_stay_in_order(batches, total);
    let ids = batch_ids(batches);
    let seqs = seqs_of(batches);
    seqs_are_of_ids(batches);
    assert forall|x: int, y: int| 0 <= x < seqs.len() && 0 <= y < seqs.len() && x
        != y implies seqs[x] != seqs[y] by {
        assert(numbers_below(ids[x], total));
        assert(numbers_below(ids[y], total));
        let p = choose|p: nat| p < total && ids[x] == #[trigger] decimal(p);
        let q = choose|q: nat| q < total && ids[y] == #[trigger] decimal(q);
        decimal_id_is_its_number(p as u64);
        decimal_id_is_its_number(q as u64);
        assert(ids[x] != ids[y]);
    }
    assert forall|k: int| 0 <= k < batches.len() implies (#[trigger] batches[k]).n_rows
        <= batches[k].ids.len() by {
        assert(all_or_none(batches[k]));
    }
    decimal_id_is_its_number(n);
    embedding_of_a_row(batches, b, i);
    rows_below_ascend(embeddings_of(batches), total);
}

proof fn key_comes_from_a_row<T>(batches: Seq<EmbeddingBatchView<T>>, k: u64) -> (r: (int, int))
    requires
        forall|j: int| 0 <= j < batches.len() ==> (#[trigger] batches[j]).n_rows
            <= batches[j].ids.len(),
        embeddings_of(batches).contains_key(k),
    ensures
        0 <= r.0 < batches.len(),
        0 <= r.1 < batches[r.0].n_rows,
        seq_of(batches[r.0].ids[r.1]) == k,
    decreases batches.len(),
{
    if batches.len() == 0 {
        (0, 0)
    } else {
        let front = batches.drop_last();
        let last = batches.last();
        assert(batches[batches.len() - 1].n_rows <= batches[batches.len() - 1].ids.len());
        rows_are(embeddings_of(front), embeddings_of(front), last, last.n_rows);
        if embeddings_of(front).contains_key(k) {
            assert forall|j: int| 0 <= j < front.len() implies (#[trigger] front[j]).n_rows
                <= front[j].ids.len() by {
                assert(front[j] == batches[j]);
            }
            key_comes_from_a_row(front, k)
        } else {
            let i = choose|i: int| 0 <= i < last.n_rows && seq_of(#[trigger] last.ids[i]) == k;
            (batches.len() - 1, i)
        }
    }
}

/// Nothing else is written: every row of the output is a row of a batch that came back.
pub proof fn only_embeddings_are_written<T>(
    batches: Seq<EmbeddingBatchView<T>>,
    total: nat,
    x: int,
) -> (r: (int, int))
    requires
        total <= u64::MAX,
        forall|k: int| 0 <= k < batches.len() ==> all_or_none(#[trigger] batches[k]),
        batch_ids(batches).no_duplicates(),
        forall|j: int|
            0 <= j < batch_ids(batches).len() ==> numbers_below(
                #[trigger] batch_ids(batches)[j],
                total,
            ),
        0 <= x < output_of(batches, total).len(),
    ensures
        0 <= r.0 < batches.len(),
        0 <= r.1 < batches[r.0].n_rows,
        number_value(batches[r.0].ids[r.1], u64::MAX as nat) == Ok::<nat, NumberError>(
            output_of(batches, total)[x].0 as nat,
        ),
{
    numbered_messages_stay_in_order(batches, total);
    rows_below_ascend(embeddings_of(batches), total);
    assert forall|k: int| 0 <= k < batches.len() implies (#[trigger] batches[k]).n_rows
        <= batches[k].ids.len() by {
        assert(all_or_none(batches[k]));
    }
    let row = output_of(batches, total)[x];
    let (b, i) = key_comes_from_a_row(batches, row.0);
    let at = id_is_among(batches, b, i);
    assert(numbers_below(batch_ids(batches)[at], total));
    let p = choose|p: nat| p < total && batch_ids(batches)[at] == #[trigger] decimal(p);
    decimal_id_is_its_number(p as u64);
    decimal_reads_back(p, u64::MAX as nat);
    (b, i)
}

proof fn id_is_among<T>(batches: Seq<EmbeddingBatchView<T>>, b: int, i: int) -> (at: int)
    requires
        0 <= b < batches.len(),
        0 <= i < batches[b].ids.len(),
    ensures
        0 <= at < batch_ids(batches).len(),
        batch_ids(batches)[at] == batches[b].ids[i],
    decreases batches.len(),
{
    let front = batches.drop_last();
    if b < front.len() {
        let at = id_is_among(front, b, i);
        assert(batch_ids(batches)[at] == batch_ids(front)[at]);
        at
    } else {
        batch_ids(front).len() + i
    }
}

/// A row is written as soon as its turn has come: when rows were taken out, the next number is
/// neither there nor known to have no embedding.
pub proof fn nothing_due_is_held_back<T>(s: ReorderView<T>)
    ensures
        ({
            let (end, rows) = s.drained();
            &&& end.next >= s.next
            &&& end.next <= u64::MAX ==> !end.pending.contains_key(end.next as u64)
                && !end.skipped.contains(end.next as u64)
            &&& forall|i: int|
                0 <= i < rows.len() ==> s.pending.contains_key((#[trigger] rows[i]).0) && rows[i].1
                    == s.pending[rows[i].0] && s.next <= rows[i].0 < end.next
        }),
    decreases u64::MAX + 1 - s.next,
{
    if s.next_is_skipped() {
        nothing_due_is_held_back(s.passed());
    } else if s.next_is_pending() {
        nothing_due_is_held_back(s.taken());
        let (end, rows) = s.drained();
        let rest = s.taken().drained().1;
        assert forall|i: int| 0 <= i < rows.len() implies s.pending.contains_key(
            (#[trigger] rows[i]).0,
        ) && rows[i].1 == s.pending[rows[i].0] && s.next <= rows[i].0 < end.next by {
            if i > 0 {
                assert(rows[i] == rest[i - 1]);
            }
        }
    }
}

/// Rows hold the numbers and the values that are given out.
pub proof fn rows_hold_everything<T>(rows: Seq<(u64, Vec<T>)>, i: int)
    requires
        0 <= i < rows.len(),
    ensures
        rows_view(rows).len() == rows.len(),
        rows_view(rows)[i] == (rows[i].0, rows[i].1@),
{
}

/// A batch without embeddings marks its messages as skipped and gives no row. Any other leaves the
/// marks as they are, and its rows wait under the numbers of its messages. What was there of other
/// messages stays.
pub proof fn batch_is_absorbed_row_by_row<T>(
    s: ReorderView<T>,
    batch: EmbeddingBatchView<T>,
    k: u64,
    i: int,
)
    requires
        batch.n_rows <= batch.ids.len(),
        batch.inference_failed ==> batch.n_rows == 0,
    ensures
        ({
            let after = absorbed(s, batch);
            let numbers = batch.ids.map_values(|id: Seq<char>| seq_of(id));
            let dim = batch.hidden_dim;
            &&& after.next == s.next
            &&& batch.n_rows > 0 ==> after.skipped == s.skipped
            &&& batch.n_rows == 0 ==> after.pending == s.pending && (after.skipped.contains(k)
                <==> s.skipped.contains(k) || numbers.contains(k))
            &&& 0 <= i < batch.n_rows && (forall|j: int|
                i < j < batch.n_rows ==> #[trigger] numbers[j] != numbers[i])
                ==> after.pending.contains_key(numbers[i]) && after.pending[numbers[i]]
                == batch.embeddings.subrange((i * dim) as int, (i * dim + dim) as int)
            &&& !numbers.contains(k) ==> (after.pending.contains_key(k)
                <==> s.pending.contains_key(k)) && (s.pending.contains_key(k)
                ==> after.pending[k] == s.pending[k])
        }),
{
    let numbers = batch.ids.map_values(|id: Seq<char>| seq_of(id));
    marks_are_the_numbers(s.skipped, batch.ids, batch.ids.len(), k);
    rows_are_put_under_numbers(s.pending, batch, batch.n_rows, k, i);
}

proof fn marks_are_the_numbers(marks: Set<u64>, ids: Seq<Seq<char>>, n: nat, k: u64)
    requires
        n <= ids.len(),
    ensures
        with_marks(marks, ids, n).contains(k) <==> marks.contains(k) || ids.take(
            n as int,
        ).map_values(|id: Seq<char>| seq_of(id)).contains(k),
        n == ids.len() ==> ids.take(n as int) == ids,
    decreases n,
{
    let now = ids.take(n as int).map_values(|id: Seq<char>| seq_of(id));
    if n == ids.len() {
        assert(ids.take(n as int) =~= ids);
    }
    if n > 0 {
        let before = ids.take(n - 1).map_values(|id: Seq<char>| seq_of(id));
        marks_are_the_numbers(marks, ids, (n - 1) as nat, k);
        assert(now =~= before.push(seq_of(ids[n - 1])));
        assert(now.contains(k) <==> before.contains(k) || k == seq_of(ids[n - 1])) by {
            if before.contains(k) {
                let j = choose|j: int| 0 <= j < before.len() && before[j] == k;
                assert(now[j] == k);
            }
            if now.contains(k) && k != seq_of(ids[n - 1]) {
                let j = choose|j: int| 0 <= j < now.len() && now[j] == k;
                assert(before[j] == k);
            }
            assert(now[n - 1] == seq_of(ids[n - 1]));
        }
    } else {
        assert(now =~= Seq::<u64>::empty());
    }
}

proof fn rows_are_put_under_numbers<T>(
    rows: Map<u64, Seq<T>>,
    batch: EmbeddingBatchView<T>,
    n: nat,
    k: u64,
    i: int,
)
    requires
        n <= batch.ids.len(),
    ensures
        ({
            let after = with_rows(rows, batch, n);
            let numbers = batch.ids.map_values(|id: Seq<char>| seq_of(id));
            &&& 0 <= i < n && (forall|j: int| i < j < n ==> #[trigger] numbers[j] != numbers[i])
                ==> after.contains_key(numbers[i]) && after[numbers[i]] == row_of(
                batch.embeddings,
                batch.hidden_dim as int,
                i,
            )
            &&& !numbers.contains(k) ==> (after.contains_key(k) <==> rows.contains_key(k)) && (
            rows.contains_key(k) ==> after[k] == rows[k])
        }),
    decreases n,
{
    let numbers = batch.ids.map_values(|id: Seq<char>| seq_of(id));
    if n > 0 {
        rows_are_put_under_numbers(rows, batch, (n - 1) as nat, k, i);
        assert(numbers[n - 1] == seq_of(batch.ids[n - 1]));
        assert(numbers.contains(numbers[n - 1]));
        if 0 <= i < n - 1 && (forall|j: int| i < j < n ==> #[trigger] numbers[j] != numbers[i]) {
            assert(numbers[n - 1] != numbers[i]);
        }
    }
}

/// At the end nothing is waited for: with all that is missing marked, every row below the total is
/// written, and nothing is marked that has an embedding or lies behind the total.
pub proof fn nothing_is_waited_for_at_the_end<T>(s: ReorderView<T>, total: nat, k: u64)
    requires
        total <= u64::MAX,
    ensures
        ({
            let marked = gaps_marked(s, total);
            let (end, rows) = marked.drained();
            &&& end.next >= total || end.next >= s.next && s.next > total
            &&& marked.pending == s.pending && marked.next == s.next
            &&& marked.skipped.contains(k) <==> s.skipped.contains(k) || (s.next <= k < total
                && !s.pending.contains_key(k))
            &&& s.next <= k < total && s.pending.contains_key(k) && !s.skipped.contains(k)
                ==> rows.contains((k, s.pending[k]))
        }),
{
    let marked = gaps_marked(s, total);
    let (end, rows) = marked.drained();
    drained_rows_are_those_that_were_due(marked, k);
    if end.next < total {
        let at = end.next as u64;
        drained_rows_are_those_that_were_due(marked, at);
    }
}

/// The number of a message is what its ID spells, and zero for an ID that spells none.
pub proof fn number_is_what_the_id_spells(id: Seq<char>)
    ensures
        match number_value(id, u64::MAX as nat) {
            Ok(n) => seq_of(id) == n as u64,
            Err(_) => seq_of(id) == 0,
        },
{
}

}
