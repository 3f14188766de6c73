//! Inference sessions: the shapes that engines are compiled for, and what is checked before and
//! after the native calls.

use vstd::prelude::*;
use vstd::string::StringExecFns;

use crate::number::{decimal, to_decimal};

verus! {

/// The sequence length that an engine for all buckets is compiled for at least.
pub const MIN_SEQ: i32 = 32;

/// The sequence length that an engine for all buckets is made fast for.
pub const OPT_SEQ: i32 = 128;

/// The shapes and the precision that an engine is compiled for. The precision is one for FP16, and
/// two for FP16 and INT8.
#[derive(Clone, Copy, PartialEq, Eq, Structural)]
pub struct Profile {
    pub min_batch: i32,
    pub opt_batch: i32,
    pub max_batch: i32,
    pub min_seq: i32,
    pub opt_seq: i32,
    pub max_seq: i32,
    pub precision: i32,
}

/// The profile of an engine for all batches up to `max_batch` messages of up to `max_seq` tokens.
pub fn compile_engine(max_batch: usize, max_seq: usize) -> (r: Profile)
    ensures
        r == (Profile {
            min_batch: 1,
            opt_batch: (max_batch / 2) as i32,
            max_batch: max_batch as i32,
            min_seq: 32,
            opt_seq: 128,
            max_seq: max_seq as i32,
            precision: 1,
        }),
{
    Profile {
        min_batch: 1,
        opt_batch: (max_batch / 2) as i32,
        max_batch: max_batch as i32,
        min_seq: MIN_SEQ,
        opt_seq: OPT_SEQ,
        max_seq: max_seq as i32,
        precision: 1,
    }
}

/// The profile of an engine for one bucket: it is made for the exact shape, and takes smaller
/// batches.
pub open spec fn bucket_profile(batch_size: usize, seq_len: usize, precision: i32) -> Profile {
    Profile {
        min_batch: 1,
        opt_batch: batch_size as i32,
        max_batch: batch_size as i32,
        min_seq: seq_len as i32,
        opt_seq: seq_len as i32,
        max_seq: seq_len as i32,
        precision,
    }
}

/// The profile of an engine for one bucket.
pub fn compile_engine_for_bucket(batch_size: usize, seq_len: usize) -> (r: Profile)
    ensures
        r == bucket_profile(batch_size, seq_len, 1),
{
    Profile {
        min_batch: 1,
        opt_batch: batch_size as i32,
        max_batch: batch_size as i32,
        min_seq: seq_len as i32,
        opt_seq: seq_len as i32,
        max_seq: seq_len as i32,
        precision: 1,
    }
}

/// The profile of an engine for one bucket, in mixed precision.
pub fn compile_engine_for_bucket_int8(batch_size: usize, seq_len: usize) -> (r: Profile)
    ensures
        r == bucket_profile(batch_size, seq_len, 2),
{
    Profile {
        min_batch: 1,
        opt_batch: batch_size as i32,
        max_batch: batch_size as i32,
        min_seq: seq_len as i32,
        opt_seq: seq_len as i32,
        max_seq: seq_len as i32,
        precision: 2,
    }
}

/// What was compiled.
#[derive(Clone, Copy, PartialEq, Eq, Structural)]
pub enum Compiled {
    /// An engine for all buckets.
    General,
    /// An engine for one bucket.
    Bucket,
    /// An engine for one bucket, in mixed precision.
    BucketInt8,
}

/// What is said of an engine that was not compiled.
pub open spec fn compile_problem(what: Compiled, batch_size: usize, seq_len: usize) -> Seq<char> {
    let shape = "for bs="@ + decimal(batch_size as nat) + " seq="@ + decimal(seq_len as nat);
    match what {
        Compiled::General => "trt_compile failed"@,
        Compiled::Bucket => "trt_compile failed "@ + shape,
        Compiled::BucketInt8 => "trt_compile INT8 failed "@ + shape,
    }
}

/// Says whether an engine was compiled, from the return code of the compiler.
pub fn compile_verdict(what: Compiled, batch_size: usize, seq_len: usize, rc: i32) -> (r: Result<
    (),
    String,
>)
    ensures
        match r {
            Ok(()) => rc == 0,
            Err(msg) => rc != 0 && msg@ == compile_problem(what, batch_size, seq_len),
        },
{
    if rc == 0 {
        return Ok(());
    }
    let mut shape = "for bs=".to_owned();
    shape.append(to_decimal(batch_size as u64).as_str());
    shape.append(" seq=");
    shape.append(to_decimal(seq_len as u64).as_str());
    match what {
        Compiled::General => Err("trt_compile failed".to_owned()),
        Compiled::Bucket => {
            let mut msg = "trt_compile failed ".to_owned();
            msg.append(shape.as_str());
            Err(msg)
        },
        Compiled::BucketInt8 => {
            let mut msg = "trt_compile INT8 failed ".to_owned();
            msg.append(shape.as_str());
            Err(msg)
        },
    }
}

/// The shape that a session runs: `batch_size` messages of `seq_len` tokens, each with an embedding
/// of `hidden_dim` values.
pub struct TrtSession {
    pub batch_size: usize,
    pub seq_len: usize,
    pub hidden_dim: usize,
}

impl TrtSession {
    /// What is said of a session that did not come up.
    pub open spec fn create_problem(engine: Seq<char>, gpu_id: u32) -> Seq<char> {
        "trt_create failed: engine="@ + engine + " gpu="@ + decimal(gpu_id as nat)
    }

    /// The shape of a session, if it came up.
    pub fn new(
        created: bool,
        engine: &str,
        gpu_id: u32,
        batch_size: usize,
        seq_len: usize,
        hidden_dim: usize,
    ) -> (r: Result<Self, String>)
        ensures
            match r {
                Ok(session) => created && session == (TrtSession {
                    batch_size,
                    seq_len,
                    hidden_dim,
                }),
                Err(msg) => !created && msg@ == Self::create_problem(engine@, gpu_id),
            },
    {
        if created {
            Ok(TrtSession { batch_size, seq_len, hidden_dim })
        } else {
            let mut msg = "trt_create failed: engine=".to_owned();
            msg.append(engine);
            msg.append(" gpu=");
            msg.append(to_decimal(gpu_id as u64).as_str());
            Err(msg)
        }
    }

    /// What is said of inputs that do not have the session's shape.
    pub open spec fn size_problem(self, ids: nat, mask: nat) -> Seq<char> {
        "size mismatch: expected "@ + decimal((self.batch_size * self.seq_len) as nat) + " got "@
            + decimal(ids) + "/"@ + decimal(mask)
    }

    /// What is said of token types that do not have the session's shape.
    pub open spec fn types_problem(self, ids: nat, mask: nat, types: nat) -> Seq<char> {
        self.size_problem(ids, mask) + "/"@ + decimal(types)
    }

    /// Checks that the inputs have the session's shape, the token types too where there are any.
    pub fn check_inputs(
        &self,
        input_ids: &[i64],
        attention_mask: &[i64],
        token_type_ids: Option<&[i64]>,
    ) -> (r: Result<(), String>)
        requires
            self.batch_size * self.seq_len <= usize::MAX,
        ensures
            ({
                let expected = self.batch_size * self.seq_len;
                let (ids, mask) = (input_ids@.len(), attention_mask@.len());
                match r {
                    Ok(()) => {
                        &&& ids == expected && mask == expected
                        &&& token_type_ids matches Some(types) ==> types@.len() == expected
                    },
                    Err(msg) => if ids != expected || mask != expected {
                        msg@ == self.size_problem(ids, mask)
                    } else {
                        token_type_ids matches Some(types) && types@.len() != expected && msg@
                            == self.types_problem(ids, mask, types@.len())
                    },
                }
            }),
    {
        let expected: usize = self.batch_size * self.seq_len;
        let ids: usize = input_ids.len();
        let mask: usize = attention_mask.len();
        let types: usize = match token_type_ids {
            Some(types) => types.len(),
            None => expected,
        };
        if ids == expected && mask == expected && types == expected {
            return Ok(());
        }
        let mut msg = "size mismatch: expected ".to_owned();
        msg.append(to_decimal(expected as u64).as_str());
        msg.append(" got ");
        msg.append(to_decimal(ids as u64).as_str());
        msg.append("/");
        msg.append(to_decimal(mask as u64).as_str());
        if ids == expected && mask == expected {
            msg.append("/");
            msg.append(to_decimal(types as u64).as_str());
        }
        Err(msg)
    }

    /// Says whether inference went well, from its return code.
    pub fn infer_verdict(rc: i32) -> (r: Result<(), String>)
        ensures
            match r {
                Ok(()) => rc == 0,
                Err(msg) => rc != 0 && msg@ == "trt_infer failed"@,
            },
    {
        if rc != 0 {
            Err("trt_infer failed".to_owned())
        } else {
            Ok(())
        }
    }

    /// What is said of a buffer that has no room for the embeddings.
    pub open spec fn room_problem(self, len: nat) -> Seq<char> {
        "output buffer too small: "@ + decimal(len) + " < "@ + decimal(
            (self.batch_size * self.hidden_dim) as nat,
        )
    }

    /// Checks that a buffer has room for the embeddings.
    pub fn check_output(&self, len: usize) -> (r: Result<(), String>)
        requires
            self.batch_size * self.hidden_dim <= usize::MAX,
        ensures
            match r {
                Ok(()) => len >= self.batch_size * self.hidden_dim,
                Err(msg) => {
                    &&& len < self.batch_size * self.hidden_dim
                    &&& msg@ == self.room_problem(len as nat)
                },
            },
    {
        let expected: usize = self.batch_size * self.hidden_dim;
        if len < expected {
            let mut msg = "output buffer too small: ".to_owned();
            msg.append(to_decimal(len as u64).as_str());
            msg.append(" < ");
            msg.append(to_decimal(expected as u64).as_str());
            return Err(msg);
        }
        Ok(())
    }

    /// Says whether the embeddings were copied, from the return code of the copy.
    pub fn output_verdict(rc: i32) -> (r: Result<(), String>)
        ensures
            match r {
                Ok(()) => rc == 0,
                Err(msg) => rc != 0 && msg@ == "trt_get_output failed (cudaMemcpy error)"@,
            },
    {
        if rc != 0 {
            Err("trt_get_output failed (cudaMemcpy error)".to_owned())
        } else {
            Ok(())
        }
    }
}

/// The largest of numbers, or a default where there are none.
pub open spec fn largest(values: Seq<usize>, default: usize) -> usize
    decreases values.len(),
{
    if values.len() == 0 {
        default
    } else if values.len() == 1 {
        values[0]
    } else {
        let before = largest(values.drop_last(), default);
        if values.last() > before {
            values.last()
        } else {
            before
        }
    }
}

fn find_largest(values: &Vec<usize>, default: usize) -> (r: usize)
    ensures
        r == largest(values@, default),
{
    if values.len() == 0 {
        return default;
    }
    let mut best: usize = values[0];
    assert(values@.take(1).len() == 1);
    let n: usize = values.len();
    for i in 1..n
        invariant
            n == values@.len(),
            n >= 1,
            best == largest(values@.take(i as int), default),
    {
        assert(values@.take(i + 1).drop_last() == values@.take(i as int));
        if values[i] > best {
            best = values[i];
        }
    }
    assert(values@.take(n as int) == values@);
    best
}

/// The largest batch size where there are no buckets.
pub const DEFAULT_MAX_BATCH: usize = 512;

/// The largest bucket length where there are no buckets.
pub const DEFAULT_MAX_BUCKET: usize = 256;

/// The sizes of the buffers of a worker that runs the batches of all buckets: one for embeddings
/// and one for token types. There is none if a size is too large to be held.
pub fn worker_buffers(buckets: &Vec<usize>, batch_sizes: &Vec<usize>, hidden_dim: usize) -> (r:
    Option<(usize, usize)>)
    ensures
        ({
            let bs = largest(batch_sizes@, 512);
            let bl = largest(buckets@, 256);
            r == (if bs * hidden_dim <= usize::MAX && bs * bl <= usize::MAX {
                Some(((bs * hidden_dim) as usize, (bs * bl) as usize))
            } else {
                None::<(usize, usize)>
            })
        }),
{
    let bs: usize = find_largest(batch_sizes, DEFAULT_MAX_BATCH);
    let bl: usize = find_largest(buckets, DEFAULT_MAX_BUCKET);
    match (bs.checked_mul(hidden_dim), bs.checked_mul(bl)) {
        (Some(output), Some(types)) => Some((output, types)),
        _ => None,
    }
}

/// The largest number is one of them, and none is above it.
pub proof fn largest_is_an_upper_bound(values: Seq<usize>, default: usize)
    requires
        values.len() > 0,
    ensures
        values.contains(largest(values, default)),
        forall|i: int| 0 <= i < values.len() ==> #[trigger] values[i] <= largest(values, default),
    decreases values.len(),
{
    if values.len() > 1 {
        let front = values.drop_last();
        largest_is_an_upper_bound(front, default);
        let k = choose|k: int| 0 <= k < front.len() && front[k] == largest(front, default);
        assert(values[k] == front[k]);
        assert forall|i: int| 0 <= i < values.len() implies #[trigger] values[i] <= largest(
            values,
            default,
        ) by {
            if i < front.len() {
                assert(front[i] == values[i]);
            }
        }
        assert(values[values.len() - 1] == values.last());
    } else {
        assert(values[0] == largest(values, default));
    }
}

// Laws.

/// One number more is the largest if it is above the others. Where there are none, it is the
/// default, which else does not count.
pub proof fn default_counts_only_alone(
    values: Seq<usize>,
    one: usize,
    default: usize,
    other: usize,
)
    ensures
        largest(Seq::empty(), default) == default,
        largest(values.push(one), default) >= one,
        largest(values.push(one), default) == largest(values.push(one), other),
        values.len() == 0 ==> largest(values.push(one), default) == one,
{
    largest_is_an_upper_bound(values.push(one), default);
    largest_is_an_upper_bound(values.push(one), other);
    let (a, b) = (values.push(one), largest(values.push(one), default));
    let i = choose|i: int| 0 <= i < a.len() && a[i] == b;
    let j = choose|j: int| 0 <= j < a.len() && a[j] == largest(a, other);
    assert(a[i] <= largest(a, other));
    assert(a[j] <= b);
    assert(a[values.len() as int] == one);
}

/// An engine for a bucket takes from one message up to a full batch, at the length of the bucket
/// alone.
pub proof fn bucket_engine_takes_its_bucket(batch_size: usize, seq_len: usize, precision: i32)
    requires
        batch_size <= i32::MAX,
        seq_len <= i32::MAX,
    ensures
        ({
            let p = bucket_profile(batch_size, seq_len, precision);
            &&& p.min_batch == 1
            &&& p.max_batch == batch_size && p.opt_batch == batch_size
            &&& p.min_seq == seq_len && p.opt_seq == seq_len && p.max_seq == seq_len
            &&& p.precision == precision
        }),
{
}

/// What is said of a failure tells the numbers that it is about.
pub proof fn problems_tell_their_numbers(
    batch_size: usize,
    seq_len: usize,
    engine: Seq<char>,
    gpu_id: u32,
    session: TrtSession,
    ids: nat,
    mask: nat,
    types: nat,
)
    ensures
        compile_problem(Compiled::General, batch_size, seq_len) == "trt_compile failed"@,
        compile_problem(Compiled::Bucket, batch_size, seq_len) == "trt_compile failed for bs="@
            + decimal(batch_size as nat) + " seq="@ + decimal(seq_len as nat),
        compile_problem(Compiled::BucketInt8, batch_size, seq_len)
            == "trt_compile INT8 failed for bs="@ + decimal(batch_size as nat) + " seq="@ + decimal(
            seq_len as nat,
        ),
        TrtSession::create_problem(engine, gpu_id) == "trt_create failed: engine="@ + engine
            + " gpu="@ + decimal(gpu_id as nat),
        session.size_problem(ids, mask) == "size mismatch: expected "@ + decimal(
            (session.batch_size * session.seq_len) as nat,
        ) + " got "@ + decimal(ids) + "/"@ + decimal(mask),
        session.types_problem(ids, mask, types) == session.size_problem(ids, mask) + "/"@ + decimal(
            types,
        ),
        session.room_problem(ids) == "output buffer too small: "@ + decimal(ids) + " < "@ + decimal(
            (session.batch_size * session.hidden_dim) as nat,
        ),
{
    reveal_strlit("trt_compile failed ");
    reveal_strlit("trt_compile INT8 failed ");
    reveal_strlit("for bs=");
    reveal_strlit("trt_compile failed for bs=");
    reveal_strlit("trt_compile INT8 failed for bs=");
    let rest = decimal(batch_size as nat) + " seq="@ + decimal(seq_len as nat);
    assert("trt_compile failed "@ + "for bs="@ =~= "trt_compile failed for bs="@);
    assert("trt_compile INT8 failed "@ + "for bs="@ =~= "trt_compile INT8 failed for bs="@);
    assert(compile_problem(Compiled::Bucket, batch_size, seq_len) =~= "trt_compile failed for bs="@
        + decimal(batch_size as nat) + " seq="@ + decimal(seq_len as nat));
    assert(compile_problem(Compiled::BucketInt8, batch_size, seq_len)
        =~= "trt_compile INT8 failed for bs="@ + decimal(batch_size as nat) + " seq="@ + decimal(
        seq_len as nat,
    ));
}

}
