//! Length-bucketed batching: gathers tokenized messages into batches of a fixed shape.
//!
//! Each bucket takes the messages of up to a given length. A bucket that has gathered as many
//! messages as its batch size hands them out as one batch, padded with zeros to a full matrix.

use vstd::prelude::*;

use crate::tokenize::TokenizedMessage;

verus! {

/// A batch of tokenized sequences, ready to execute.
/// The buffers hold `batch_size` rows of `bucket_len` values, row after row.
pub struct Batch {
    pub bucket_idx: usize,
    pub bucket_len: usize,
    pub input_ids: Vec<i64>,
    pub attention_mask: Vec<i64>,
    pub n_real: usize,
}

/// The contents of a [`Batch`].
pub struct BatchView {
    pub bucket_idx: int,
    pub bucket_len: int,
    pub input_ids: Seq<i64>,
    pub attention_mask: Seq<i64>,
    pub n_real: int,
}

impl View for Batch {
    type V = BatchView;

    open spec fn view(&self) -> BatchView {
        BatchView {
            bucket_idx: self.bucket_idx as int,
            bucket_len: self.bucket_len as int,
            input_ids: self.input_ids@,
            attention_mask: self.attention_mask@,
            n_real: self.n_real as int,
        }
    }
}

/// The shape of one bucket: the longest message it takes, and how many make a batch.
pub struct BucketSpec {
    pub len: usize,
    pub batch_size: usize,
}

impl BucketSpec {
    /// A batch holds at least one message, and its matrix can be allocated.
    pub open spec fn valid(self) -> bool {
        &&& self.batch_size > 0
        &&& self.batch_size * self.len <= usize::MAX
    }
}

/// A bucket with the token IDs of the messages that wait in it.
pub struct BucketView {
    pub len: int,
    pub batch_size: int,
    pub pending: Seq<Seq<u32>>,
}

struct BucketState {
    spec: BucketSpec,
    pending: Vec<TokenizedMessage>,
}

/// The token IDs of each message.
pub open spec fn rows_of(messages: Seq<TokenizedMessage>) -> Seq<Seq<u32>> {
    messages.map_values(|m: TokenizedMessage| m.ids@)
}

/// The value at column `col` of a row that holds `ids`: a token ID, or zero behind the last one.
pub open spec fn padded_id(ids: Seq<u32>, col: int) -> i64 {
    if col < ids.len() {
        ids[col] as i64
    } else {
        0
    }
}

/// One where a row that holds `ids` has a token ID at column `col`, else zero.
pub open spec fn padded_mask(ids: Seq<u32>, col: int) -> i64 {
    if col < ids.len() {
        1
    } else {
        0
    }
}

/// The matrix of token IDs: row `r` holds `rows[r]`, cut or padded with zeros to `len` columns,
/// and the rows behind the last message are zero.
pub open spec fn id_matrix(rows: Seq<Seq<u32>>, batch_size: int, len: int) -> Seq<i64> {
    Seq::new(
        (batch_size * len) as nat,
        |k: int|
            if k / len < rows.len() {
                padded_id(rows[k / len], k % len)
            } else {
                0
            },
    )
}

/// The attention mask that belongs to [`id_matrix`].
pub open spec fn mask_matrix(rows: Seq<Seq<u32>>, batch_size: int, len: int) -> Seq<i64> {
    Seq::new(
        (batch_size * len) as nat,
        |k: int|
            if k / len < rows.len() {
                padded_mask(rows[k / len], k % len)
            } else {
                0
            },
    )
}

/// The batch that the messages waiting in bucket `idx` make.
pub open spec fn batch_of(idx: int, bucket: BucketView) -> BatchView {
    BatchView {
        bucket_idx: idx,
        bucket_len: bucket.len,
        input_ids: id_matrix(bucket.pending, bucket.batch_size, bucket.len),
        attention_mask: mask_matrix(bucket.pending, bucket.batch_size, bucket.len),
        n_real: bucket.pending.len() as int,
    }
}

/// The first bucket that takes a message of length `msg_len`, or the last bucket if none does.
pub open spec fn assigned(buckets: Seq<BucketView>, msg_len: int) -> int
    decreases buckets.len(),
{
    if buckets.len() <= 1 || msg_len <= buckets[0].len {
        0
    } else {
        1 + assigned(buckets.drop_first(), msg_len)
    }
}

/// The token IDs that a bucket of length `len` keeps of a message.
pub open spec fn kept_ids(msg: TokenizedMessage, len: int) -> Seq<u32> {
    if msg.len > len {
        msg.ids@.take(len)
    } else {
        msg.ids@
    }
}

/// A bucket with one more message waiting.
pub open spec fn with_row(bucket: BucketView, row: Seq<u32>) -> BucketView {
    BucketView { pending: bucket.pending.push(row), ..bucket }
}

/// A bucket in which no message waits.
pub open spec fn emptied(bucket: BucketView) -> BucketView {
    BucketView { pending: Seq::empty(), ..bucket }
}

/// The buckets after a message was put into its bucket, and the batch that it filled, if it did.
pub open spec fn pushed(buckets: Seq<BucketView>, msg: TokenizedMessage) -> (
    Seq<BucketView>,
    Option<BatchView>,
) {
    let b = assigned(buckets, msg.len as int);
    let grown = with_row(buckets[b], kept_ids(msg, buckets[b].len));
    if grown.pending.len() == grown.batch_size {
        (buckets.update(b, emptied(grown)), Some(batch_of(b, grown)))
    } else {
        (buckets.update(b, grown), None)
    }
}

/// What an option holds.
pub open spec fn batch_view(r: Option<Batch>) -> Option<BatchView> {
    match r {
        Some(batch) => Some(batch@),
        None => None,
    }
}

/// The batches that flushing the buckets makes, in the order of the buckets.
pub open spec fn flushed(buckets: Seq<BucketView>) -> Seq<BatchView>
    decreases buckets.len(),
{
    if buckets.len() == 0 {
        Seq::empty()
    } else {
        let before = flushed(buckets.drop_last());
        if buckets.last().pending.len() == 0 {
            before
        } else {
            before.push(batch_of(buckets.len() - 1, buckets.last()))
        }
    }
}

/// Whether `sorted` holds the same specifications as `specs`, in the order of their lengths,
/// those of the same length in the order that they had.
pub open spec fn stably_sorted(specs: Seq<BucketSpec>, sorted: Seq<BucketSpec>) -> bool {
    &&& forall|i: int, j: int| 0 <= i <= j < sorted.len() ==> sorted[i].len <= sorted[j].len
    &&& forall|len: usize|
        #![trigger of_len(sorted, len)]
        #![trigger of_len(specs, len)]
        of_len(sorted, len) == of_len(specs, len)
    &&& sorted.to_multiset() == specs.to_multiset()
}

/// The specifications of one length.
pub open spec fn of_len(specs: Seq<BucketSpec>, len: usize) -> Seq<BucketSpec> {
    specs.filter(|b: BucketSpec| b.len == len)
}

impl BucketState {
    spec fn view(self) -> BucketView {
        BucketView {
            len: self.spec.len as int,
            batch_size: self.spec.batch_size as int,
            pending: rows_of(self.pending@),
        }
    }
}

/// Gathers tokenized messages and hands out batches of a fixed shape.
pub struct Bucketizer {
    buckets: Vec<BucketState>,
}

impl View for Bucketizer {
    type V = Seq<BucketView>;

    closed spec fn view(&self) -> Seq<BucketView> {
        self.buckets@.map_values(|b: BucketState| b.view())
    }
}

impl Bucketizer {
    /// Every bucket holds fewer messages than make a batch, and its matrix can be allocated.
    pub open spec fn valid(self) -> bool {
        forall|i: int|
            #![trigger self@[i]]
            0 <= i < self@.len() ==> {
                &&& 0 <= self@[i].pending.len() < self@[i].batch_size
                &&& 0 <= self@[i].len
                &&& self@[i].batch_size * self@[i].len <= usize::MAX
            }
    }

    /// Whether a message has the token IDs that its bucket will keep of it.
    pub open spec fn accepts(self, msg: TokenizedMessage) -> bool {
        let b = self@[assigned(self@, msg.len as int)];
        msg.len > b.len ==> msg.ids@.len() >= b.len
    }
}

proof fn cell_of(row: int, col: int, len: int, batch_size: int)
    requires
        0 <= row < batch_size,
        0 <= col < len,
    ensures
        (row * len + col) / len == row,
        (row * len + col) % len == col,
        0 <= row * len + col < batch_size * len,
{
    vstd::arithmetic::div_mod::lemma_fundamental_div_mod_converse(row * len + col, len, row, col);
    assert(row * len + col < batch_size * len) by (nonlinear_arith)
        requires
            0 <= row < batch_size,
            0 <= col < len,
    ;
    assert(0 <= row * len) by (nonlinear_arith)
        requires
            0 <= row,
            0 <= len,
    ;
}

/// Writes out the matrix of token IDs and its attention mask.
fn fill_matrices(pending: &Vec<TokenizedMessage>, batch_size: usize, len: usize) -> (r: (
    Vec<i64>,
    Vec<i64>,
))
    requires
        batch_size * len <= usize::MAX,
    ensures
        r.0@ == id_matrix(rows_of(pending@), batch_size as int, len as int),
        r.1@ == mask_matrix(rows_of(pending@), batch_size as int, len as int),
{
    let total: usize = batch_size * len;
    let mut input_ids: Vec<i64> = Vec::with_capacity(total);
    let mut attention_mask: Vec<i64> = Vec::with_capacity(total);
    let ghost rows = rows_of(pending@);
    let ghost ids = id_matrix(rows, batch_size as int, len as int);
    let ghost mask = mask_matrix(rows, batch_size as int, len as int);
    assert(0 * len == 0) by (nonlinear_arith);
    assert(ids.take(0) == Seq::<i64>::empty());
    assert(mask.take(0) == Seq::<i64>::empty());
    for row in 0..batch_size
        invariant
            batch_size * len <= usize::MAX,
            rows == rows_of(pending@),
            ids == id_matrix(rows, batch_size as int, len as int),
            mask == mask_matrix(rows, batch_size as int, len as int),
            input_ids@ == ids.take(row * len),
            attention_mask@ == mask.take(row * len),
    {
        assert(row * len + len <= batch_size * len) by (nonlinear_arith)
            requires
                row < batch_size,
        ;
        assert(ids.len() == batch_size * len);
        assert(0 <= row * len) by (nonlinear_arith);
        for col in 0..len
            invariant
                row < batch_size,
                0 <= row * len,
                row * len + len <= batch_size * len,
                batch_size * len <= usize::MAX,
                rows == rows_of(pending@),
                ids == id_matrix(rows, batch_size as int, len as int),
                mask == mask_matrix(rows, batch_size as int, len as int),
                ids.len() == batch_size * len,
                mask.len() == batch_size * len,
                input_ids@ == ids.take(row * len + col),
                attention_mask@ == mask.take(row * len + col),
        {
            let ghost k = row * len + col;
            proof {
                cell_of(row as int, col as int, len as int, batch_size as int);
            }
            assert(ids.take(k + 1) == ids.take(k).push(ids[k]));
            assert(mask.take(k + 1) == mask.take(k).push(mask[k]));
            if row < pending.len() && col < pending[row].ids.len() {
                assert(rows[row as int] == pending@[row as int].ids@);
                input_ids.push(pending[row].ids[col] as i64);
                attention_mask.push(1);
            } else {
                assert(row < pending@.len() ==> rows[row as int] == pending@[row as int].ids@);
                input_ids.push(0);
                attention_mask.push(0);
            }
        }
        assert((row + 1) * len == row * len + len) by (nonlinear_arith);
    }
    assert(ids.take(batch_size * len) == ids);
    assert(mask.take(batch_size * len) == mask);
    (input_ids, attention_mask)
}

/// Puts specifications in the order of their lengths, those of one length in the order they had.
fn sort_by_len(specs: Vec<BucketSpec>) -> (r: Vec<BucketSpec>)
    ensures
        stably_sorted(specs@, r@),
{
    let mut rest = specs;
    let mut sorted: Vec<BucketSpec> = Vec::new();
    assert(specs@.skip(0) == specs@);
    assert(specs@.take(0) == Seq::<BucketSpec>::empty());
    let n: usize = rest.len();
    for i in 0..n
        invariant
            n == specs@.len(),
            rest@ == specs@.skip(i as int),
            stably_sorted(specs@.take(i as int), sorted@),
    {
        let spec = rest.remove(0);
        assert(spec == specs@[i as int]);
        assert(rest@ == specs@.skip(i + 1));
        assert(specs@.take(i + 1) == specs@.take(i as int).push(spec));
        let mut at: usize = sorted.len();
        while at > 0 && sorted[at - 1].len > spec.len
            invariant
                at <= sorted@.len(),
                forall|j: int| at <= j < sorted@.len() ==> sorted@[j].len > spec.len,
            decreases at,
        {
            at -= 1;
        }
        proof {
            insert_keeps_sorted(specs@.take(i as int), sorted@, at as int, spec);
        }
        sorted.insert(at, spec);
    }
    assert(specs@.take(n as int) == specs@);
    sorted
}

proof fn insert_keeps_sorted(
    specs: Seq<BucketSpec>,
    sorted: Seq<BucketSpec>,
    at: int,
    spec: BucketSpec,
)
    requires
        stably_sorted(specs, sorted),
        0 <= at <= sorted.len(),
        at > 0 ==> sorted[at - 1].len <= spec.len,
        forall|j: int| at <= j < sorted.len() ==> sorted[j].len > spec.len,
    ensures
        stably_sorted(specs.push(spec), sorted.insert(at, spec)),
{
    broadcast use vstd::seq_lib::group_to_multiset_ensures;

    let grown = sorted.insert(at, spec);
    let head = sorted.take(at);
    let tail = sorted.skip(at);
    assert(grown == head + seq![spec] + tail);
    assert(sorted == head + tail);
    assert forall|i: int, j: int| 0 <= i <= j < grown.len() implies grown[i].len <= grown[j].len by {
        if i < at {
            assert(sorted[i].len <= sorted[at - 1].len);
        }
    }
    assert forall|len: usize| of_len(grown, len) == of_len(specs.push(spec), len) by {
        let pred = |b: BucketSpec| b.len == len;
        assert(of_len(sorted, len) == of_len(specs, len));
        Seq::filter_distributes_over_add(head + seq![spec], tail, pred);
        Seq::filter_distributes_over_add(head, seq![spec], pred);
        Seq::filter_distributes_over_add(head, tail, pred);
        assert(specs.push(spec) == specs + seq![spec]);
        Seq::filter_distributes_over_add(specs, seq![spec], pred);
        if spec.len == len {
            none_kept(tail, pred);
        } else {
            none_kept(seq![spec], pred);
        }
    }
    assert(grown.to_multiset() =~= specs.push(spec).to_multiset());
}

proof fn none_kept(s: Seq<BucketSpec>, pred: spec_fn(BucketSpec) -> bool)
    requires
        forall|j: int| 0 <= j < s.len() ==> !pred(s[j]),
    ensures
        s.filter(pred) == Seq::<BucketSpec>::empty(),
    decreases s.len(),
{
    reveal(Seq::filter);
    if s.len() > 0 {
        none_kept(s.drop_last(), pred);
    }
}

/// A bucket for each specification, in order, in which nothing waits.
pub open spec fn empty_buckets(specs: Seq<BucketSpec>) -> Seq<BucketView> {
    specs.map_values(
        |b: BucketSpec|
            BucketView {
                len: b.len as int,
                batch_size: b.batch_size as int,
                pending: Seq::empty(),
            },
    )
}

/// The bucket found is the first of the given ones that takes the message, or the last.
proof fn assigned_is(buckets: Seq<BucketView>, msg_len: int, i: int)
    requires
        0 <= i < buckets.len(),
        forall|j: int| 0 <= j < i ==> msg_len > buckets[j].len,
        msg_len <= buckets[i].len || i == buckets.len() - 1,
    ensures
        assigned(buckets, msg_len) == i,
    decreases i,
{
    if i > 0 {
        assert(msg_len > buckets[0].len);
        assigned_is(buckets.drop_first(), msg_len, i - 1);
    }
}

impl Bucketizer {
    /// Makes an empty bucket for each specification, in the order of their lengths.
    pub fn new(specs: Vec<BucketSpec>) -> (r: Self)
        requires
            forall|i: int| 0 <= i < specs@.len() ==> #[trigger] specs@[i].valid(),
        ensures
            r.valid(),
            exists|sorted: Seq<BucketSpec>|
                stably_sorted(specs@, sorted) && r@ == #[trigger] empty_buckets(sorted),
    {
        let sorted = sort_by_len(specs);
        let ghost all = sorted@;
        let n: usize = sorted.len();
        let mut rest = sorted;
        let mut buckets: Vec<BucketState> = Vec::new();
        assert(all.skip(0) == all);
        proof {
            broadcast use vstd::seq_lib::group_to_multiset_ensures;
            assert forall|i: int| 0 <= i < all.len() implies #[trigger] all[i].valid() by {
                assert(all.contains(all[i]));
                assert(all.to_multiset().contains(all[i]));
                assert(specs@.contains(all[i]));
            }
        }
        for i in 0..n
            invariant
                n == all.len(),
                rest@ == all.skip(i as int),
                buckets@.len() == i,
                forall|j: int|
                    0 <= j < i ==> (#[trigger] buckets@[j]).spec == all[j] && buckets@[j].pending@
                        == Seq::<TokenizedMessage>::empty(),
        {
            let spec = rest.remove(0);
            assert(rest@ == all.skip(i + 1));
            buckets.push(BucketState { pending: Vec::new(), spec });
        }
        let r = Bucketizer { buckets };
        proof {
            assert forall|j: int| 0 <= j < n implies r@[j] == empty_buckets(all)[j] by {
                assert(r.buckets@[j].spec == all[j]);
                assert(rows_of(r.buckets@[j].pending@) == Seq::<Seq<u32>>::empty());
            }
            assert(r@ == empty_buckets(all));
            assert forall|i: int| #![trigger r@[i]] 0 <= i < r@.len() implies {
                &&& 0 <= r@[i].pending.len() < r@[i].batch_size
                &&& 0 <= r@[i].len
                &&& r@[i].batch_size * r@[i].len <= usize::MAX
            } by {
                assert(all[i].valid());
            }
        }
        r
    }

    /// Puts one message into its bucket. Returns a batch if that filled the bucket.
    pub fn push(&mut self, msg: TokenizedMessage) -> (r: Option<Batch>)
        requires
            old(self).valid(),
            old(self)@.len() > 0,
            old(self).accepts(msg),
        ensures
            final(self).valid(),
            (final(self)@, batch_view(r)) == pushed(old(self)@, msg),
    {
        let bucket_idx = self.assign_bucket(msg.len);
        let ghost b = bucket_idx as int;
        let ghost before = self@;
        assert(before[b] == self.buckets@[b].view());
        let bucket = &mut self.buckets[bucket_idx];
        let max: usize = bucket.spec.len;
        let truncated = if msg.len > max {
            let mut ids = msg.ids;
            ids.truncate(max);
            TokenizedMessage { ids, len: max }
        } else {
            msg
        };
        assert(truncated.ids@ == kept_ids(msg, max as int));
        let ghost pending0 = bucket.pending@;
        bucket.pending.push(truncated);
        assert(rows_of(bucket.pending@) == rows_of(pending0).push(truncated.ids@));
        if bucket.pending.len() >= bucket.spec.batch_size {
            let batch = Self::build_batch(bucket_idx, bucket);
            assert(self@ == before.update(b, self.buckets@[b].view()));
            Some(batch)
        } else {
            assert(self@ == before.update(b, self.buckets@[b].view()));
            None
        }
    }

    /// The index of the first bucket that takes a message of this length, else of the last one.
    fn assign_bucket(&self, msg_len: usize) -> (r: usize)
        requires
            self@.len() > 0,
        ensures
            r < self@.len(),
            r == assigned(self@, msg_len as int),
    {
        for i in 0..self.buckets.len()
            invariant
                self@.len() == self.buckets@.len(),
                forall|j: int| 0 <= j < i ==> msg_len > self@[j].len,
        {
            assert(self@[i as int] == self.buckets@[i as int].view());
            if msg_len <= self.buckets[i].spec.len {
                proof {
                    assigned_is(self@, msg_len as int, i as int);
                }
                return i;
            }
        }
        proof {
            assigned_is(self@, msg_len as int, self@.len() - 1);
        }
        self.buckets.len() - 1
    }

    /// Takes the waiting messages out of a bucket and makes a batch of them.
    fn build_batch(bucket_idx: usize, bucket: &mut BucketState) -> (r: Batch)
        requires
            old(bucket).spec.batch_size * old(bucket).spec.len <= usize::MAX,
        ensures
            r@ == batch_of(bucket_idx as int, old(bucket).view()),
            final(bucket).view() == emptied(old(bucket).view()),
    {
        let bs: usize = bucket.spec.batch_size;
        let bl: usize = bucket.spec.len;
        let mut pending: Vec<TokenizedMessage> = Vec::new();
        std::mem::swap(&mut bucket.pending, &mut pending);
        let (input_ids, attention_mask) = fill_matrices(&pending, bs, bl);
        assert(rows_of(bucket.pending@) == Seq::<Seq<u32>>::empty());
        Batch { bucket_idx, bucket_len: bl, input_ids, attention_mask, n_real: pending.len() }
    }

    /// Makes a last batch of every bucket in which messages wait.
    pub fn flush(&mut self) -> (r: Vec<Batch>)
        requires
            old(self).valid(),
        ensures
            final(self).valid(),
            final(self)@ == old(self)@.map_values(|b: BucketView| emptied(b)),
            r@.map_values(|b: Batch| b@) == flushed(old(self)@),
    {
        let mut out: Vec<Batch> = Vec::new();
        let n: usize = self.buckets.len();
        let ghost before = self@;
        for i in 0..n
            invariant
                n == self.buckets@.len(),
                before == old(self)@,
                before.len() == n,
                old(self).valid(),
                forall|j: int| 0 <= j < i ==> #[trigger] self@[j] == emptied(before[j]),
                forall|j: int| i <= j < n ==> #[trigger] self@[j] == before[j],
                out@.map_values(|b: Batch| b@) == flushed(before.take(i as int)),
        {
            let ghost mid = self@;
            assert(mid[i as int] == self.buckets@[i as int].view());
            assert(before.take(i + 1).drop_last() == before.take(i as int));
            let ghost out0 = out@;
            let bucket = &mut self.buckets[i];
            if bucket.pending.len() > 0 {
                assert(mid[i as int] == before[i as int]);
                let batch = Self::build_batch(i, bucket);
                out.push(batch);
                assert(out@.map_values(|b: Batch| b@) == out0.map_values(|b: Batch| b@).push(
                    batch@,
                ));
            } else {
                assert(mid[i as int].pending == Seq::<Seq<u32>>::empty());
            }
            assert(self@ == mid.update(i as int, self.buckets@[i as int].view()));
        }
        assert(before.take(n as int) == before);
        assert(self@ == before.map_values(|b: BucketView| emptied(b)));
        out
    }
}

/// Where the buckets stand in the order of their lengths, a message goes to the shortest bucket
/// that takes it. If none does, it goes to the longest one.
pub proof fn message_goes_to_shortest_fit(buckets: Seq<BucketView>, msg_len: int)
    requires
        buckets.len() > 0,
        forall|i: int, j: int| 0 <= i <= j < buckets.len() ==> buckets[i].len <= buckets[j].len,
    ensures
        0 <= assigned(buckets, msg_len) < buckets.len(),
        forall|j: int|
            0 <= j < buckets.len() && msg_len <= buckets[j].len ==> msg_len <= buckets[assigned(
                buckets,
                msg_len,
            )].len <= #[trigger] buckets[j].len,
        (forall|j: int| 0 <= j < buckets.len() ==> msg_len > buckets[j].len) ==> (forall|j: int|
            0 <= j < buckets.len() ==> #[trigger] buckets[j].len <= buckets[assigned(
                buckets,
                msg_len,
            )].len),
    decreases buckets.len(),
{
    if buckets.len() > 1 && msg_len > buckets[0].len {
        let rest = buckets.drop_first();
        message_goes_to_shortest_fit(rest, msg_len);
        let b = assigned(rest, msg_len);
        assert(rest[b] == buckets[b + 1]);
        assert forall|j: int| 0 <= j < buckets.len() && msg_len <= buckets[j].len implies msg_len
            <= buckets[assigned(buckets, msg_len)].len <= #[trigger] buckets[j].len by {
            assert(buckets[j] == rest[j - 1]);
        }
        if forall|j: int| 0 <= j < buckets.len() ==> msg_len > buckets[j].len {
            assert forall|j: int| 0 <= j < rest.len() implies msg_len > rest[j].len by {
                assert(rest[j] == buckets[j + 1]);
            }
            assert forall|j: int| 0 <= j < buckets.len() implies #[trigger] buckets[j].len
                <= buckets[assigned(buckets, msg_len)].len by {
                if j > 0 {
                    assert(buckets[j] == rest[j - 1]);
                }
            }
        }
    }
}

/// A batch holds at row `row` and column `col` the token ID of its message there, with the mask
/// set, and zeros where there is none.
pub proof fn batch_cell(rows: Seq<Seq<u32>>, batch_size: int, len: int, row: int, col: int)
    requires
        0 <= row < batch_size,
        0 <= col < len,
    ensures
        0 <= row * len + col < id_matrix(rows, batch_size, len).len(),
        row < rows.len() && col < rows[row].len() ==> {
            &&& id_matrix(rows, batch_size, len)[row * len + col] == rows[row][col]
            &&& mask_matrix(rows, batch_size, len)[row * len + col] == 1
        },
        row >= rows.len() || col >= rows[row].len() ==> {
            &&& id_matrix(rows, batch_size, len)[row * len + col] == 0
            &&& mask_matrix(rows, batch_size, len)[row * len + col] == 0
        },
{
    cell_of(row, col, len, batch_size);
}

proof fn last_of_len(s: Seq<BucketSpec>)
    requires
        s.len() > 0,
    ensures
        of_len(s, s.last().len) == of_len(s.drop_last(), s.last().len).push(s.last()),
        forall|len: usize|
            len != s.last().len ==> #[trigger] of_len(s, len) == of_len(s.drop_last(), len),
{
    reveal(Seq::filter);
}

proof fn same_groups_same_order(a: Seq<BucketSpec>, b: Seq<BucketSpec>)
    requires
        forall|i: int, j: int| 0 <= i <= j < a.len() ==> a[i].len <= a[j].len,
        forall|i: int, j: int| 0 <= i <= j < b.len() ==> b[i].len <= b[j].len,
        forall|len: usize| #[trigger] of_len(a, len) == of_len(b, len),
    ensures
        a == b,
    decreases a.len(),
{
    reveal(Seq::filter);
    if a.len() == 0 {
        if b.len() > 0 {
            last_of_len(b);
            assert(of_len(a, b.last().len) == of_len(b, b.last().len));
        }
        assert(a == b);
    } else {
        last_of_len(a);
        let len = a.last().len;
        assert(of_len(b, len).len() > 0);
        if b.len() == 0 {
            assert(of_len(b, len).len() == 0);
        }
        last_of_len(b);
        if b.last().len > len {
            none_kept(a, |x: BucketSpec| x.len == b.last().len);
            assert(of_len(a, b.last().len) == of_len(b, b.last().len));
        }
        if b.last().len < len {
            none_kept(b, |x: BucketSpec| x.len == len);
        }
        assert(b.last().len == len);
        assert(of_len(a, len) == of_len(a.drop_last(), len).push(a.last()));
        assert(of_len(b, len) == of_len(b.drop_last(), len).push(b.last()));
        assert(of_len(a, len).last() == a.last());
        assert(of_len(b, len).last() == b.last());
        let c = a.drop_last();
        let d = b.drop_last();
        assert forall|l: usize| #[trigger] of_len(c, l) == of_len(d, l) by {
            assert(of_len(a, l) == of_len(b, l));
            if l == len {
                assert(of_len(c, l) == of_len(a, l).drop_last());
                assert(of_len(d, l) == of_len(b, l).drop_last());
            }
        }
        same_groups_same_order(c, d);
        assert(a == c.push(a.last()));
        assert(b == d.push(b.last()));
    }
}

/// There is only one way to put specifications in order.
pub proof fn stable_order_is_unique(specs: Seq<BucketSpec>, a: Seq<BucketSpec>, b: Seq<BucketSpec>)
    requires
        stably_sorted(specs, a),
        stably_sorted(specs, b),
    ensures
        a == b,
{
    assert forall|len: usize| #[trigger] of_len(a, len) == of_len(b, len) by {
        assert(of_len(a, len) == of_len(specs, len));
    }
    same_groups_same_order(a, b);
}

/// A flush makes a batch of every bucket in which messages wait, and no other batch.
pub proof fn flush_hands_out_what_waits(buckets: Seq<BucketView>)
    ensures
        forall|i: int|
            0 <= i < buckets.len() && buckets[i].pending.len() > 0 ==> flushed(buckets).contains(
                batch_of(i, #[trigger] buckets[i]),
            ),
        forall|k: int|
            0 <= k < flushed(buckets).len() ==> ({
                let batch = #[trigger] flushed(buckets)[k];
                let i = batch.bucket_idx;
                &&& 0 <= i < buckets.len()
                &&& buckets[i].pending.len() > 0
                &&& batch == batch_of(i, buckets[i])
            }),
        forall|j: int, k: int|
            0 <= j < k < flushed(buckets).len() ==> (#[trigger] flushed(buckets)[j]).bucket_idx < (
            #[trigger] flushed(buckets)[k]).bucket_idx,
    decreases buckets.len(),
{
    if buckets.len() > 0 {
        let front = buckets.drop_last();
        let before = flushed(front);
        let all = flushed(buckets);
        flush_hands_out_what_waits(front);
        assert forall|i: int| 0 <= i < buckets.len() && buckets[i].pending.len()
            > 0 implies all.contains(batch_of(i, #[trigger] buckets[i])) by {
            if i < front.len() {
                assert(front[i] == buckets[i]);
                let k = choose|k: int|
                    0 <= k < before.len() && before[k] == batch_of(i, front[i]);
                assert(all[k] == before[k]);
            } else {
                assert(all[all.len() - 1] == batch_of(i, buckets[i]));
            }
        }
        assert forall|k: int| 0 <= k < all.len() implies ({
            let batch = #[trigger] all[k];
            let i = batch.bucket_idx;
            &&& 0 <= i < buckets.len()
            &&& buckets[i].pending.len() > 0
            &&& batch == batch_of(i, buckets[i])
        }) by {
            if k < before.len() {
                assert(all[k] == before[k]);
                assert(front[before[k].bucket_idx] == buckets[before[k].bucket_idx]);
            }
        }
        assert forall|j: int, k: int| 0 <= j < k < all.len() implies (
        #[trigger] all[j]).bucket_idx < (#[trigger] all[k]).bucket_idx by {
            assert(all[j] == before[j]);
            if k < before.len() {
                assert(all[k] == before[k]);
            }
        }
    }
}

// Many messages.

/// The buckets after messages were put into them, and the batches that they filled.
pub open spec fn after_pushes(buckets: Seq<BucketView>, messages: Seq<TokenizedMessage>) -> (
    Seq<BucketView>,
    Seq<BatchView>,
)
    decreases messages.len(),
{
    if messages.len() == 0 {
        (buckets, Seq::empty())
    } else {
        let (mid, given) = after_pushes(buckets, messages.drop_last());
        let (end, last) = pushed(mid, messages.last());
        (
            end,
            match last {
                Some(batch) => given.push(batch),
                None => given,
            },
        )
    }
}

/// The batches that messages fill, and those that a flush then makes.
pub open spec fn all_batches(
    buckets: Seq<BucketView>,
    messages: Seq<TokenizedMessage>,
) -> Seq<BatchView> {
    let (end, given) = after_pushes(buckets, messages);
    given + flushed(end)
}

/// How many of the first `n` values behind `start` are one.
pub open spec fn ones(mask: Seq<i64>, start: int, n: nat) -> nat
    decreases n,
{
    if n == 0 {
        0
    } else {
        ones(mask, start, (n - 1) as nat) + if mask[start + n - 1] == 1 {
            1nat
        } else {
            0
        }
    }
}

/// The token IDs of row `row` of a batch: as many as the mask says.
pub open spec fn read_row(batch: BatchView, row: int) -> Seq<u32> {
    let start = row * batch.bucket_len;
    Seq::new(
        ones(batch.attention_mask, start, batch.bucket_len as nat),
        |col: int| batch.input_ids[start + col] as u32,
    )
}

/// The token IDs of the messages in a batch.
pub open spec fn real_rows(batch: BatchView) -> Seq<Seq<u32>> {
    Seq::new(batch.n_real as nat, |row: int| read_row(batch, row))
}

/// The token IDs of the messages in the batches of bucket `b`, one batch after the other.
pub open spec fn rows_in(batches: Seq<BatchView>, b: int) -> Seq<Seq<u32>>
    decreases batches.len(),
{
    if batches.len() == 0 {
        Seq::empty()
    } else {
        let before = rows_in(batches.drop_last(), b);
        if batches.last().bucket_idx == b {
            before + real_rows(batches.last())
        } else {
            before
        }
    }
}

/// What bucket `b` keeps of the messages that go to it, in their order.
pub open spec fn rows_for(
    buckets: Seq<BucketView>,
    messages: Seq<TokenizedMessage>,
    b: int,
) -> Seq<Seq<u32>>
    decreases messages.len(),
{
    if messages.len() == 0 {
        Seq::empty()
    } else {
        let before = rows_for(buckets, messages.drop_last(), b);
        if assigned(buckets, messages.last().len as int) == b {
            before.push(kept_ids(messages.last(), buckets[b].len))
        } else {
            before
        }
    }
}

/// How many messages are in batches.
pub open spec fn real_total(batches: Seq<BatchView>) -> int
    decreases batches.len(),
{
    if batches.len() == 0 {
        0
    } else {
        real_total(batches.drop_last()) + batches.last().n_real
    }
}

/// Whether a batch comes from one of the buckets, has the matrices of its shape, and holds at least
/// one message and no more than make a batch.
pub open spec fn is_from(batch: BatchView, buckets: Seq<BucketView>) -> bool {
    let b = batch.bucket_idx;
    &&& 0 <= b < buckets.len()
    &&& batch.bucket_len == buckets[b].len
    &&& batch.input_ids.len() == buckets[b].batch_size * buckets[b].len
    &&& batch.attention_mask.len() == buckets[b].batch_size * buckets[b].len
    &&& 0 < batch.n_real <= buckets[b].batch_size
}

/// Whether a bucket has a shape, and what waits in it fits into a batch of it.
pub open spec fn well_shaped(bucket: BucketView) -> bool {
    &&& bucket.len >= 0
    &&& bucket.pending.len() < bucket.batch_size
    &&& forall|i: int|
        0 <= i < bucket.pending.len() ==> (#[trigger] bucket.pending[i]).len() <= bucket.len
}

/// Whether buckets have the same shapes.
pub open spec fn same_shapes(a: Seq<BucketView>, b: Seq<BucketView>) -> bool {
    &&& a.len() == b.len()
    &&& forall|i: int|
        0 <= i < a.len() ==> (#[trigger] a[i]).len == b[i].len && a[i].batch_size
            == b[i].batch_size
}

proof fn assigned_by_shape(a: Seq<BucketView>, b: Seq<BucketView>, msg_len: int)
    requires
        same_shapes(a, b),
    ensures
        assigned(a, msg_len) == assigned(b, msg_len),
        a.len() > 0 ==> 0 <= assigned(a, msg_len) < a.len(),
    decreases a.len(),
{
    if a.len() > 1 {
        let c = a.drop_first();
        let d = b.drop_first();
        assert(a[0].len == b[0].len);
        assert forall|i: int| 0 <= i < c.len() implies (#[trigger] c[i]).len == d[i].len
            && c[i].batch_size == d[i].batch_size by {
            assert(c[i] == a[i + 1]);
        }
        assigned_by_shape(c, d, msg_len);
    }
}

proof fn ones_of_row(rows: Seq<Seq<u32>>, batch_size: int, len: int, row: int, n: nat)
    requires
        0 <= row < rows.len() <= batch_size,
        rows[row].len() <= len,
        n <= len,
    ensures
        ones(mask_matrix(rows, batch_size, len), row * len, n) == if n <= rows[row].len() {
            n
        } else {
            rows[row].len()
        },
    decreases n,
{
    if n > 0 {
        ones_of_row(rows, batch_size, len, row, (n - 1) as nat);
        batch_cell(rows, batch_size, len, row, n - 1);
    }
}

/// The token IDs of the messages can be read back from a batch.
pub proof fn rows_are_read_back(idx: int, bucket: BucketView)
    requires
        bucket.len >= 0,
        bucket.pending.len() <= bucket.batch_size,
        forall|i: int|
            0 <= i < bucket.pending.len() ==> (#[trigger] bucket.pending[i]).len() <= bucket.len,
    ensures
        real_rows(batch_of(idx, bucket)) == bucket.pending,
{
    let batch = batch_of(idx, bucket);
    let rows = bucket.pending;
    assert forall|r: int| 0 <= r < rows.len() implies read_row(batch, r) == #[trigger] rows[r] by {
        ones_of_row(rows, bucket.batch_size, bucket.len, r, bucket.len as nat);
        assert forall|c: int| 0 <= c < rows[r].len() implies batch.input_ids[r * bucket.len + c]
            as u32 == rows[r][c] by {
            batch_cell(rows, bucket.batch_size, bucket.len, r, c);
        }
        assert(read_row(batch, r) =~= rows[r]);
    }
    assert(real_rows(batch) =~= rows);
}

/// How many messages wait in buckets.
pub open spec fn waiting(buckets: Seq<BucketView>) -> nat
    decreases buckets.len(),
{
    if buckets.len() == 0 {
        0
    } else {
        waiting(buckets.drop_last()) + buckets.last().pending.len()
    }
}

proof fn waiting_after_update(buckets: Seq<BucketView>, b: int, bucket: BucketView)
    requires
        0 <= b < buckets.len(),
    ensures
        waiting(buckets.update(b, bucket)) == waiting(buckets) - buckets[b].pending.len()
            + bucket.pending.len(),
    decreases buckets.len(),
{
    let front = buckets.drop_last();
    if b == buckets.len() - 1 {
        assert(buckets.update(b, bucket).drop_last() == front);
    } else {
        waiting_after_update(front, b, bucket);
        assert(buckets.update(b, bucket).drop_last() == front.update(b, bucket));
    }
}

proof fn nothing_waits(buckets: Seq<BucketView>)
    requires
        forall|i: int| 0 <= i < buckets.len() ==> (#[trigger] buckets[i]).pending.len() == 0,
    ensures
        waiting(buckets) == 0,
    decreases buckets.len(),
{
    if buckets.len() > 0 {
        assert(buckets[buckets.len() - 1].pending.len() == 0);
        assert forall|i: int| 0 <= i < buckets.drop_last().len() implies (
        #[trigger] buckets.drop_last()[i]).pending.len() == 0 by {
            assert(buckets[i].pending.len() == 0);
        }
        nothing_waits(buckets.drop_last());
    }
}

proof fn rows_in_both(a: Seq<BatchView>, c: Seq<BatchView>, b: int)
    ensures
        rows_in(a + c, b) == rows_in(a, b) + rows_in(c, b),
        real_total(a + c) == real_total(a) + real_total(c),
    decreases c.len(),
{
    if c.len() == 0 {
        assert(a + c == a);
        assert(rows_in(a, b) + rows_in(c, b) =~= rows_in(a, b));
    } else {
        rows_in_both(a, c.drop_last(), b);
        assert((a + c).drop_last() == a + c.drop_last());
        assert(rows_in(a + c, b) =~= rows_in(a, b) + rows_in(c, b));
    }
}

proof fn batch_is_from(idx: int, bucket: BucketView, buckets: Seq<BucketView>)
    requires
        0 <= idx < buckets.len(),
        bucket.len == buckets[idx].len >= 0,
        bucket.batch_size == buckets[idx].batch_size,
        0 < bucket.pending.len() <= bucket.batch_size,
    ensures
        is_from(batch_of(idx, bucket), buckets),
{
    assert(bucket.batch_size * bucket.len >= 0) by (nonlinear_arith)
        requires
            bucket.batch_size >= 0,
            bucket.len >= 0,
    ;
}

proof fn flushed_rows(buckets: Seq<BucketView>, b: int)
    requires
        forall|i: int| 0 <= i < buckets.len() ==> well_shaped(#[trigger] buckets[i]),
    ensures
        rows_in(flushed(buckets), b) == if 0 <= b < buckets.len() {
            buckets[b].pending
        } else {
            Seq::empty()
        },
        real_total(flushed(buckets)) == waiting(buckets),
        forall|k: int|
            0 <= k < flushed(buckets).len() ==> is_from(#[trigger] flushed(buckets)[k], buckets),
    decreases buckets.len(),
{
    let n = buckets.len() - 1;
    if buckets.len() > 0 {
        let front = buckets.drop_last();
        let last = buckets.last();
        assert forall|i: int| 0 <= i < front.len() implies well_shaped(#[trigger] front[i]) by {
            assert(well_shaped(buckets[i]));
        }
        flushed_rows(front, b);
        assert(well_shaped(buckets[n]));
        let all = flushed(buckets);
        if last.pending.len() > 0 {
            rows_are_read_back(n, last);
            batch_is_from(n, last, buckets);
            assert(all.drop_last() == flushed(front));
        }
        assert forall|k: int| 0 <= k < all.len() implies is_from(#[trigger] all[k], buckets) by {
            if k < flushed(front).len() {
                assert(is_from(flushed(front)[k], front));
                assert(all[k] == flushed(front)[k]);
                assert(front[all[k].bucket_idx] == buckets[all[k].bucket_idx]);
            }
        }
        assert(rows_in(all, b) =~= if 0 <= b < buckets.len() {
            buckets[b].pending
        } else {
            Seq::empty()
        });
    }
}

proof fn pushes_keep_rows(buckets: Seq<BucketView>, messages: Seq<TokenizedMessage>, b: int)
    requires
        buckets.len() > 0,
        forall|i: int| 0 <= i < buckets.len() ==> well_shaped(#[trigger] buckets[i]),
        forall|i: int| 0 <= i < buckets.len() ==> (#[trigger] buckets[i]).pending.len() == 0,
        forall|i: int|
            0 <= i < messages.len() ==> (#[trigger] messages[i]).len == messages[i].ids@.len(),
        0 <= b < buckets.len(),
    ensures
        ({
            let (end, given) = after_pushes(buckets, messages);
            &&& same_shapes(buckets, end)
            &&& forall|i: int| 0 <= i < end.len() ==> well_shaped(#[trigger] end[i])
            &&& rows_in(given, b) + end[b].pending == rows_for(buckets, messages, b)
            &&& real_total(given) + waiting(end) == messages.len()
            &&& forall|k: int| 0 <= k < given.len() ==> is_from(#[trigger] given[k], buckets)
        }),
    decreases messages.len(),
{
    if messages.len() == 0 {
        nothing_waits(buckets);
        assert(buckets[b].pending.len() == 0);
        assert(rows_in(Seq::<BatchView>::empty(), b) + buckets[b].pending =~= Seq::<
            Seq<u32>,
        >::empty());
    } else {
        let front = messages.drop_last();
        let msg = messages.last();
        assert forall|i: int| 0 <= i < front.len() implies (#[trigger] front[i]).len
            == front[i].ids@.len() by {
            assert(front[i] == messages[i]);
        }
        pushes_keep_rows(buckets, front, b);
        let (mid, given0) = after_pushes(buckets, front);
        let (end, given) = after_pushes(buckets, messages);
        let a = assigned(mid, msg.len as int);
        assigned_by_shape(buckets, mid, msg.len as int);
        assert(buckets[a].len == mid[a].len);
        assert(well_shaped(mid[a]));
        assert(messages[messages.len() - 1].len == msg.ids@.len());
        let row = kept_ids(msg, mid[a].len);
        let grown = with_row(mid[a], row);
        assert(row.len() <= mid[a].len);
        assert forall|i: int| 0 <= i < grown.pending.len() implies (
        #[trigger] grown.pending[i]).len() <= grown.len by {
            if i < mid[a].pending.len() {
                assert(grown.pending[i] == mid[a].pending[i]);
            }
        }
        waiting_after_update(mid, a, end[a]);
        if grown.pending.len() == grown.batch_size {
            rows_are_read_back(a, grown);
            batch_is_from(a, grown, buckets);
            assert(given.drop_last() == given0);
            assert forall|k: int| 0 <= k < given.len() implies is_from(
                #[trigger] given[k],
                buckets,
            ) by {
                if k < given0.len() {
                    assert(given[k] == given0[k]);
                }
            }
        }
        assert forall|i: int| 0 <= i < end.len() implies well_shaped(#[trigger] end[i]) by {
            if i != a {
                assert(end[i] == mid[i]);
            }
        }
        assert forall|i: int| 0 <= i < buckets.len() implies (#[trigger] buckets[i]).len
            == end[i].len && buckets[i].batch_size == end[i].batch_size by {
            if i != a {
                assert(end[i] == mid[i]);
            }
        }
        assert(rows_in(given, b) + end[b].pending =~= rows_for(buckets, messages, b));
    }
}

/// No message is lost, doubled or mixed up on its way through the buckets: after any messages and
/// a flush, the batches of each bucket hold what it keeps of the messages that go to it, in their
/// order, as read back from the matrices. All batches together hold as many messages as came in.
pub proof fn every_message_in_one_row(
    buckets: Seq<BucketView>,
    messages: Seq<TokenizedMessage>,
    b: int,
)
    requires
        buckets.len() > 0,
        forall|i: int| 0 <= i < buckets.len() ==> well_shaped(#[trigger] buckets[i]),
        forall|i: int| 0 <= i < buckets.len() ==> (#[trigger] buckets[i]).pending.len() == 0,
        forall|i: int|
            0 <= i < messages.len() ==> (#[trigger] messages[i]).len == messages[i].ids@.len(),
        0 <= b < buckets.len(),
    ensures
        rows_in(all_batches(buckets, messages), b) == rows_for(buckets, messages, b),
        real_total(all_batches(buckets, messages)) == messages.len(),
        forall|k: int|
            0 <= k < all_batches(buckets, messages).len() ==> is_from(
                #[trigger] all_batches(buckets, messages)[k],
                buckets,
            ),
{
    pushes_keep_rows(buckets, messages, b);
    let (end, given) = after_pushes(buckets, messages);
    flushed_rows(end, b);
    rows_in_both(given, flushed(end), b);
    let all = all_batches(buckets, messages);
    assert forall|k: int| 0 <= k < all.len() implies is_from(#[trigger] all[k], buckets) by {
        if k < given.len() {
            assert(is_from(given[k], buckets));
        } else {
            let batch = flushed(end)[k - given.len()];
            assert(is_from(batch, end));
            assert(buckets[batch.bucket_idx].len == end[batch.bucket_idx].len);
        }
    }
}

/// A bucket keeps the first token IDs of a message, as many as it has room for, and all of them if
/// there are not more.
pub proof fn bucket_keeps_the_first_tokens(msg: TokenizedMessage, len: int)
    requires
        msg.len == msg.ids@.len(),
        len >= 0,
    ensures
        kept_ids(msg, len).is_prefix_of(msg.ids@),
        kept_ids(msg, len).len() == if msg.ids@.len() <= len {
            msg.ids@.len() as int
        } else {
            len
        },
{
}

/// A message that comes in waits behind those that came before it, in the shortest bucket that
/// takes it, and no other bucket changes. Only when as many wait as make a batch do they go out,
/// all of them and in their order, and then none waits there.
pub proof fn full_bucket_goes_out(buckets: Seq<BucketView>, msg: TokenizedMessage)
    requires
        buckets.len() > 0,
        forall|i: int| 0 <= i < buckets.len() ==> well_shaped(#[trigger] buckets[i]),
        msg.len == msg.ids@.len(),
    ensures
        ({
            let (after, given) = pushed(buckets, msg);
            let b = assigned(buckets, msg.len as int);
            let waiting = buckets[b].pending.push(kept_ids(msg, buckets[b].len));
            &&& 0 <= b < buckets.len()
            &&& after.len() == buckets.len()
            &&& forall|i: int| 0 <= i < buckets.len() && i != b ==> #[trigger] after[i] == buckets[i]
            &&& after[b].len == buckets[b].len && after[b].batch_size == buckets[b].batch_size
            &&& match given {
                Some(batch) => waiting.len() == buckets[b].batch_size && after[b].pending.len() == 0
                    && batch.n_real == buckets[b].batch_size && batch.bucket_idx == b
                    && batch.bucket_len == buckets[b].len && real_rows(batch) == waiting,
                None => waiting.len() < buckets[b].batch_size && after[b].pending == waiting,
            }
        }),
{
    let b = assigned(buckets, msg.len as int);
    assigned_by_shape(buckets, buckets, msg.len as int);
    assert(well_shaped(buckets[b]));
    bucket_keeps_the_first_tokens(msg, buckets[b].len);
    let row = kept_ids(msg, buckets[b].len);
    let grown = with_row(buckets[b], row);
    assert forall|i: int| 0 <= i < grown.pending.len() implies (#[trigger] grown.pending[i]).len()
        <= grown.len by {
        if i < buckets[b].pending.len() {
            assert(grown.pending[i] == buckets[b].pending[i]);
        }
    }
    rows_are_read_back(b, grown);
}

/// Buckets stand from the shortest to the longest, and are those that were asked for. Buckets that
/// are given in ascending order stay as they are.
pub proof fn buckets_stand_in_ascending_order(specs: Seq<BucketSpec>, sorted: Seq<BucketSpec>, i: int)
    requires
        stably_sorted(specs, sorted),
    ensures
        sorted.len() == specs.len(),
        forall|i: int, j: int| 0 <= i <= j < sorted.len() ==> sorted[i].len <= sorted[j].len,
        0 <= i < specs.len() ==> sorted.contains(specs[i]),
        (forall|i: int, j: int| 0 <= i <= j < specs.len() ==> specs[i].len <= specs[j].len)
            ==> sorted == specs,
        0 <= i < sorted.len() ==> ({
            let bucket = empty_buckets(sorted)[i];
            bucket.len == sorted[i].len && bucket.batch_size == sorted[i].batch_size
                && bucket.pending.len() == 0
        }),
        empty_buckets(sorted).len() == sorted.len(),
{
    broadcast use vstd::seq_lib::group_to_multiset_ensures;

    assert(specs.len() == specs.to_multiset().len());
    assert(sorted.len() == sorted.to_multiset().len());
    if 0 <= i < specs.len() {
        assert(specs.contains(specs[i]));
        assert(sorted.to_multiset().count(specs[i]) > 0);
    }
    if forall|i: int, j: int| 0 <= i <= j < specs.len() ==> specs[i].len <= specs[j].len {
        assert(stably_sorted(specs, specs));
        stable_order_is_unique(specs, sorted, specs);
    }
}

/// A bucket that is emptied has its shape, and nothing waits in it.
pub proof fn emptied_bucket_keeps_its_shape(bucket: BucketView)
    ensures
        emptied(bucket).pending.len() == 0,
        emptied(bucket).len == bucket.len,
        emptied(bucket).batch_size == bucket.batch_size,
{
}

/// Every message that says how many tokens it has is accepted, whatever its length.
pub proof fn whole_messages_are_accepted(to: Bucketizer, msg: TokenizedMessage)
    requires
        msg.len == msg.ids@.len(),
    ensures
        to.accepts(msg),
{
}

}
