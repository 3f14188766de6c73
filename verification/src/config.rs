//! The settings of the engine, and the messages that go into it.

use std::path::PathBuf;

use vstd::prelude::*;
use vstd::string::StringExecFns;

use crate::bucket::BucketSpec;
use crate::error::Error;
use crate::number::{decimal, to_decimal};

verus! {

/// A path in the file system.
#[verifier::external_type_specification]
#[verifier::external_body]
pub struct ExPathBuf(PathBuf);

/// The path that a text spells.
pub uninterp spec fn path_from(text: Seq<char>) -> PathBuf;

/// Calls `PathBuf::from` on a text. The path is a function of the text.
#[verifier::external_body]
pub(crate) fn to_path(text: &str) -> (r: PathBuf)
    ensures
        r == path_from(text@),
{
    PathBuf::from(text)
}

/// The model's width up to which batches are of the configured size.
pub const FULL_BATCH_DIM: usize = 768;

/// The smallest batch size that a wide model's batches are cut to.
pub const MIN_SCALED_BATCH: usize = 64;

/// The length of the longest bucket where there are no buckets.
pub const DEFAULT_MAX_LEN: usize = 256;

/// A text message to embed.
pub struct Message {
    pub id: String,
    pub text: String,
}

/// Configuration for the embedding engine.
pub struct Config {
    /// Model name (e.g. "intfloat/multilingual-e5-small"). If it is set, the model's files are
    /// downloaded to `model_dir` and prepared there.
    pub model: Option<String>,
    /// S3 prefix for compiled engines (e.g. "s3://bucket/engines/"). Without it, engines are
    /// compiled locally.
    pub engine_cache: Option<String>,
    /// Local cache directory for model files and compiled engines. If `model` is not set, it must
    /// hold tokenizer.json and model.onnx already.
    pub model_dir: PathBuf,
    /// GPU device IDs to use, or none to use all that there are.
    pub gpus: Option<Vec<u32>>,
    /// Sequence length buckets for batching (e.g. 32, 64, 128, 256).
    pub buckets: Vec<usize>,
    /// Batch size of each bucket.
    pub batch_sizes: Vec<usize>,
    /// Number of tokenizer workers.
    pub tokenize_workers: usize,
    /// Max characters per input text (truncated before tokenization).
    pub truncation: usize,
    /// Lowercase text during normalization.
    pub lowercase: bool,
    /// Minimum text length after normalization. Shorter messages are skipped.
    pub min_chars: usize,
    /// Text prefix prepended after normalization (e.g. "passage: " for e5 models).
    pub prefix: String,
    /// INT8 quantization (FP16+INT8 mixed precision).
    pub int8: bool,
    /// Report structured telemetry at the end of a run.
    pub telemetry: bool,
    /// Batch timeout in milliseconds, after which a bucket's messages go out as a partial batch.
    /// Zero turns it off.
    pub batch_timeout_ms: u64,
    /// Capacity of the embedding dedup cache, in embeddings. Zero turns it off.
    pub dedup_capacity: usize,
}

impl Default for Config {
    fn default() -> (r: Self)
        ensures
            r.model is None,
            r.engine_cache is None,
            r.model_dir == path_from("/opt/ignite-ms/cache"@),
            r.gpus is None,
            r.buckets@ == seq![24usize, 32, 40, 48, 56, 64, 80, 96, 128, 256],
            r.batch_sizes@ == seq![
                4096usize,
                4096,
                3072,
                2048,
                2048,
                2048,
                1536,
                1536,
                1024,
                512,
            ],
            r.tokenize_workers == 8,
            r.truncation == 256,
            r.lowercase,
            r.min_chars == 10,
            r.prefix@ == "passage: "@,
            r.int8,
            r.telemetry,
            r.batch_timeout_ms == 5,
            r.dedup_capacity == 0,
    {
        Config {
            model: None,
            engine_cache: None,
            model_dir: to_path("/opt/ignite-ms/cache"),
            gpus: None,
            buckets: vec![24, 32, 40, 48, 56, 64, 80, 96, 128, 256],
            batch_sizes: vec![4096, 4096, 3072, 2048, 2048, 2048, 1536, 1536, 1024, 512],
            tokenize_workers: 8,
            truncation: 256,
            lowercase: true,
            min_chars: 10,
            prefix: "passage: ".to_owned(),
            int8: true,
            telemetry: true,
            batch_timeout_ms: 5,
            dedup_capacity: 0,
        }
    }
}

/// The first index from `from` on at which a size is zero, or the length if none is.
pub open spec fn first_zero(sizes: Seq<usize>, from: nat) -> nat
    decreases sizes.len() - from,
{
    if from >= sizes.len() || sizes[from as int] == 0 {
        from
    } else {
        first_zero(sizes, from + 1)
    }
}

/// The first index from `from` on at which a length is not above the one before it, or the number
/// of lengths if every one is.
pub open spec fn first_drop(lens: Seq<usize>, from: nat) -> nat
    decreases lens.len() - from,
{
    if from >= lens.len() || lens[from as int] <= lens[from - 1] {
        from
    } else {
        first_drop(lens, from + 1)
    }
}

/// What is said of batch sizes that do not match the buckets in number.
pub open spec fn length_problem(sizes: nat, buckets: nat) -> Seq<char> {
    "batch_sizes length ("@ + decimal(sizes) + ") must match buckets length ("@ + decimal(buckets)
        + ")"@
}

/// What is said of the batch size at index `i` that is zero.
pub open spec fn zero_problem(i: nat) -> Seq<char> {
    "batch_sizes["@ + decimal(i) + "] cannot be 0"@
}

/// What is said of the length at index `i` that is not above the one before it.
pub open spec fn order_problem(lens: Seq<usize>, i: nat) -> Seq<char> {
    "buckets must be strictly increasing, but buckets["@ + decimal(i) + "]="@ + decimal(
        lens[i as int] as nat,
    ) + " <= buckets["@ + decimal((i - 1) as nat) + "]="@ + decimal(lens[i - 1] as nat)
}

fn length_message(sizes: usize, buckets: usize) -> (r: String)
    ensures
        r@ == length_problem(sizes as nat, buckets as nat),
{
    let mut out = "batch_sizes length (".to_owned();
    out.append(to_decimal(sizes as u64).as_str());
    out.append(") must match buckets length (");
    out.append(to_decimal(buckets as u64).as_str());
    out.append(")");
    out
}

fn zero_message(i: usize) -> (r: String)
    ensures
        r@ == zero_problem(i as nat),
{
    let mut out = "batch_sizes[".to_owned();
    out.append(to_decimal(i as u64).as_str());
    out.append("] cannot be 0");
    out
}

fn order_message(lens: &Vec<usize>, i: usize) -> (r: String)
    requires
        0 < i < lens@.len(),
    ensures
        r@ == order_problem(lens@, i as nat),
{
    let mut out = "buckets must be strictly increasing, but buckets[".to_owned();
    out.append(to_decimal(i as u64).as_str());
    out.append("]=");
    out.append(to_decimal(lens[i] as u64).as_str());
    out.append(" <= buckets[");
    out.append(to_decimal((i - 1) as u64).as_str());
    out.append("]=");
    out.append(to_decimal(lens[i - 1] as u64).as_str());
    out
}

/// The length of the longest bucket: the last one, or a default where there is none.
pub open spec fn longest(buckets: Seq<usize>) -> usize {
    if buckets.len() == 0 {
        DEFAULT_MAX_LEN
    } else {
        buckets.last()
    }
}

/// The batch sizes for a model of the given width. A model that is wider than the batch sizes are
/// made for has the scaled ones, but none below a minimum.
pub open spec fn fitted(hidden_dim: usize, sizes: Seq<usize>, scaled: Seq<usize>) -> Seq<usize> {
    if hidden_dim > FULL_BATCH_DIM {
        scaled.map_values(|s: usize| if s < MIN_SCALED_BATCH { MIN_SCALED_BATCH } else { s })
    } else {
        sizes
    }
}

/// Whether batch sizes are too large for a model of the given width, and are to be scaled down.
pub fn needs_scaling(hidden_dim: usize) -> (r: bool)
    ensures
        r == (hidden_dim > FULL_BATCH_DIM),
{
    hidden_dim > FULL_BATCH_DIM
}

impl Config {
    /// What is wrong with the configuration, if anything is.
    pub open spec fn problem(self) -> Option<Seq<char>> {
        let n = self.buckets@.len();
        if n == 0 {
            Some("buckets cannot be empty"@)
        } else if self.batch_sizes@.len() != n {
            Some(length_problem(self.batch_sizes@.len(), n))
        } else if first_zero(self.batch_sizes@, 0) < n {
            Some(zero_problem(first_zero(self.batch_sizes@, 0)))
        } else if first_drop(self.buckets@, 1) < n {
            Some(order_problem(self.buckets@, first_drop(self.buckets@, 1)))
        } else if self.truncation == 0 {
            Some("truncation must be > 0"@)
        } else if self.tokenize_workers == 0 {
            Some("tokenize_workers must be > 0"@)
        } else if self.gpus matches Some(gpus) && gpus@.len() == 0 {
            Some("gpus list cannot be empty"@)
        } else {
            None
        }
    }

    /// Checks the configuration. The error says what is wrong first.
    pub fn validate(&self) -> (r: Result<(), Error>)
        ensures
            match r {
                Ok(()) => self.problem() is None,
                Err(Error::Config(msg)) => self.problem() == Some(msg@),
                Err(_) => false,
            },
    {
        let n: usize = self.buckets.len();
        if n == 0 {
            return Err(Error::Config("buckets cannot be empty".to_owned()));
        }
        if self.batch_sizes.len() != n {
            return Err(Error::Config(length_message(self.batch_sizes.len(), n)));
        }
        for i in 0..n
            invariant
                n == self.batch_sizes@.len(),
                n == self.buckets@.len(),
                n > 0,
                first_zero(self.batch_sizes@, 0) == first_zero(self.batch_sizes@, i as nat),
        {
            if self.batch_sizes[i] == 0 {
                return Err(Error::Config(zero_message(i)));
            }
        }
        for i in 1..n
            invariant
                n == self.batch_sizes@.len(),
                n == self.buckets@.len(),
                n > 0,
                first_zero(self.batch_sizes@, 0) == n,
                first_drop(self.buckets@, 1) == first_drop(self.buckets@, i as nat),
        {
            if self.buckets[i] <= self.buckets[i - 1] {
                return Err(Error::Config(order_message(&self.buckets, i)));
            }
        }
        if self.truncation == 0 {
            return Err(Error::Config("truncation must be > 0".to_owned()));
        }
        if self.tokenize_workers == 0 {
            return Err(Error::Config("tokenize_workers must be > 0".to_owned()));
        }
        if let Some(gpus) = &self.gpus {
            if gpus.len() == 0 {
                return Err(Error::Config("gpus list cannot be empty".to_owned()));
            }
        }
        Ok(())
    }

    /// The length of the longest bucket, to which the tokenizer truncates.
    pub fn max_len(&self) -> (r: usize)
        ensures
            r == longest(self.buckets@),
    {
        let n: usize = self.buckets.len();
        if n == 0 {
            DEFAULT_MAX_LEN
        } else {
            self.buckets[n - 1]
        }
    }

    /// Puts the scaled batch sizes, none below a minimum, in place of the configured ones if the
    /// model is wider than those are made for.
    pub fn fit_batch_sizes(&mut self, hidden_dim: usize, scaled: Vec<usize>)
        ensures
            final(self).batch_sizes@ == fitted(hidden_dim, old(self).batch_sizes@, scaled@),
            *final(self) == (Config { batch_sizes: final(self).batch_sizes, ..*old(self) }),
    {
        if needs_scaling(hidden_dim) {
            let mut sizes: Vec<usize> = Vec::new();
            let n: usize = scaled.len();
            for i in 0..n
                invariant
                    n == scaled@.len(),
                    hidden_dim > FULL_BATCH_DIM,
                    sizes@ == fitted(hidden_dim, sizes@, scaled@).take(i as int),
            {
                if scaled[i] < MIN_SCALED_BATCH {
                    sizes.push(MIN_SCALED_BATCH);
                } else {
                    sizes.push(scaled[i]);
                }
            }
            assert(sizes@ == fitted(hidden_dim, sizes@, scaled@));
            self.batch_sizes = sizes;
        }
    }

    /// The shape of the bucket at an index.
    pub fn bucket_spec(&self, i: usize) -> (r: BucketSpec)
        requires
            i < self.buckets@.len(),
            i < self.batch_sizes@.len(),
        ensures
            r.len == self.buckets@[i as int],
            r.batch_size == self.batch_sizes@[i as int],
    {
        BucketSpec { len: self.buckets[i], batch_size: self.batch_sizes[i] }
    }
}

proof fn no_zero_from(sizes: Seq<usize>, from: nat)
    requires
        from <= sizes.len(),
        first_zero(sizes, from) >= sizes.len(),
    ensures
        forall|i: int| from <= i < sizes.len() ==> sizes[i] > 0,
    decreases sizes.len() - from,
{
    if from < sizes.len() {
        no_zero_from(sizes, from + 1);
    }
}

proof fn no_drop_from(lens: Seq<usize>, from: nat)
    requires
        1 <= from,
        first_drop(lens, from) >= lens.len(),
    ensures
        forall|i: int, j: int| from - 1 <= i < j < lens.len() ==> lens[i] < lens[j],
    decreases lens.len() - from,
{
    if from < lens.len() {
        no_drop_from(lens, from + 1);
        assert forall|i: int, j: int| from - 1 <= i < j < lens.len() implies lens[i] < lens[j] by {
            if i == from - 1 && j > from {
                assert(lens[from as int] < lens[j]);
            }
        }
    }
}

/// A configuration that is found right has buckets of increasing lengths, each with a batch size
/// above zero, and is truncated, tokenized and run by something.
pub proof fn valid_config_is_usable(config: Config)
    requires
        config.problem() is None,
    ensures
        config.buckets@.len() > 0,
        config.batch_sizes@.len() == config.buckets@.len(),
        forall|i: int| 0 <= i < config.batch_sizes@.len() ==> config.batch_sizes@[i] > 0,
        forall|i: int, j: int|
            0 <= i < j < config.buckets@.len() ==> config.buckets@[i] < config.buckets@[j],
        config.truncation > 0,
        config.tokenize_workers > 0,
        config.gpus matches Some(gpus) ==> gpus@.len() > 0,
{
    no_zero_from(config.batch_sizes@, 0);
    no_drop_from(config.buckets@, 1);
}

/// The batch sizes for a model of any width match the buckets in number, and none is zero.
pub proof fn scaling_keeps_batch_sizes_usable(config: Config, hidden_dim: usize, scaled: Seq<usize>)
    requires
        config.problem() is None,
        scaled.len() == config.batch_sizes@.len(),
    ensures
        fitted(hidden_dim, config.batch_sizes@, scaled).len() == config.buckets@.len(),
        forall|i: int|
            0 <= i < config.buckets@.len() ==> #[trigger] fitted(
                hidden_dim,
                config.batch_sizes@,
                scaled,
            )[i] > 0,
{
    valid_config_is_usable(config);
}

// Laws.

proof fn first_zero_is(sizes: Seq<usize>, from: nat, i: nat)
    requires
        from <= i <= sizes.len(),
        forall|k: int| from <= k < i ==> sizes[k] > 0,
        i < sizes.len() ==> sizes[i as int] == 0,
    ensures
        first_zero(sizes, from) == i,
    decreases i - from,
{
    if from < i {
        first_zero_is(sizes, from + 1, i);
    }
}

proof fn first_drop_is(lens: Seq<usize>, from: nat, i: nat)
    requires
        1 <= from <= i <= lens.len(),
        forall|k: int| from <= k < i ==> lens[k - 1] < #[trigger] lens[k],
        i < lens.len() ==> lens[i as int] <= lens[i - 1],
    ensures
        first_drop(lens, from) == i,
    decreases i - from,
{
    if from < i {
        assert(lens[from as int] > lens[from - 1]);
        first_drop_is(lens, from + 1, i);
    }
}

/// A configuration is found right if and only if it can be used: there are buckets of strictly
/// increasing lengths, as many batch sizes, none of them zero, and neither the truncation nor the
/// number of workers is zero, nor the list of GPUs empty.
pub proof fn usable_config_is_valid(config: Config)
    ensures
        config.problem() is None <==> {
            &&& config.buckets@.len() > 0
            &&& config.batch_sizes@.len() == config.buckets@.len()
            &&& forall|i: int| 0 <= i < config.batch_sizes@.len() ==> config.batch_sizes@[i] > 0
            &&& forall|i: int, j: int|
                0 <= i < j < config.buckets@.len() ==> config.buckets@[i] < config.buckets@[j]
            &&& config.truncation > 0
            &&& config.tokenize_workers > 0
            &&& config.gpus matches Some(gpus) ==> gpus@.len() > 0
        },
{
    let n = config.buckets@.len();
    if config.problem() is None {
        valid_config_is_usable(config);
    }
    if n > 0 && config.batch_sizes@.len() == n && (forall|i: int|
        0 <= i < config.batch_sizes@.len() ==> config.batch_sizes@[i] > 0) && (forall|
        i: int,
        j: int,
    | 0 <= i < j < n ==> config.buckets@[i] < config.buckets@[j]) {
        first_zero_is(config.batch_sizes@, 0, n);
        first_drop_is(config.buckets@, 1, n);
    }
}

/// What is said of a configuration is the first thing that is wrong: a batch size that is zero is
/// named by its index if all before it are right, and so is a length that does not increase.
pub proof fn first_problem_is_named(config: Config, i: nat)
    requires
        config.buckets@.len() > 0,
        config.batch_sizes@.len() == config.buckets@.len(),
        0 <= i < config.buckets@.len(),
    ensures
        config.batch_sizes@[i as int] == 0 && (forall|k: int|
            0 <= k < i ==> config.batch_sizes@[k] > 0) ==> config.problem() == Some(
            "batch_sizes["@ + decimal(i) + "] cannot be 0"@,
        ),
        (forall|k: int| 0 <= k < config.batch_sizes@.len() ==> config.batch_sizes@[k] > 0) && i > 0
            && config.buckets@[i as int] <= config.buckets@[i - 1] && (forall|k: int|
            1 <= k < i ==> config.buckets@[k - 1] < #[trigger] config.buckets@[k])
            ==> config.problem() == Some(
            "buckets must be strictly increasing, but buckets["@ + decimal(i) + "]="@ + decimal(
                config.buckets@[i as int] as nat,
            ) + " <= buckets["@ + decimal((i - 1) as nat) + "]="@ + decimal(
                config.buckets@[i - 1] as nat,
            ),
        ),
{
    let n = config.buckets@.len();
    if config.batch_sizes@[i as int] == 0 && (forall|k: int|
        0 <= k < i ==> config.batch_sizes@[k] > 0) {
        first_zero_is(config.batch_sizes@, 0, i);
    }
    if (forall|k: int| 0 <= k < config.batch_sizes@.len() ==> config.batch_sizes@[k] > 0) && i > 0
        && config.buckets@[i as int] <= config.buckets@[i - 1] && (forall|k: int|
        1 <= k < i ==> config.buckets@[k - 1] < #[trigger] config.buckets@[k]) {
        first_zero_is(config.batch_sizes@, 0, n);
        first_drop_is(config.buckets@, 1, i);
    }
}

/// The longest bucket of a configuration that is found right takes the messages of every bucket.
/// Where there is none, messages have up to 256 tokens.
pub proof fn longest_bucket_takes_all(config: Config, i: int)
    requires
        config.problem() is None,
        0 <= i < config.buckets@.len(),
    ensures
        config.buckets@[i] <= longest(config.buckets@),
        config.buckets@.contains(longest(config.buckets@)),
        longest(Seq::empty()) == 256,
{
    valid_config_is_usable(config);
    let n = config.buckets@.len() - 1;
    assert(config.buckets@[n] == longest(config.buckets@));
}

/// Batch sizes are left as they are for models up to the width that they are made for, and for wider
/// ones are the scaled ones, each raised to the minimum if it is below that.
pub proof fn only_wide_models_are_scaled(
    hidden_dim: usize,
    sizes: Seq<usize>,
    scaled: Seq<usize>,
    i: int,
)
    requires
        0 <= i < scaled.len(),
    ensures
        hidden_dim <= 768 ==> fitted(hidden_dim, sizes, scaled) == sizes,
        hidden_dim > 768 ==> {
            &&& fitted(hidden_dim, sizes, scaled).len() == scaled.len()
            &&& fitted(hidden_dim, sizes, scaled)[i] >= 64
            &&& scaled[i] >= 64 ==> fitted(hidden_dim, sizes, scaled)[i] == scaled[i]
            &&& scaled[i] < 64 ==> fitted(hidden_dim, sizes, scaled)[i] == 64
        },
{
}

/// The other problems of a configuration, each with what is said of it.
pub proof fn each_problem_is_told(config: Config)
    ensures
        ({
            let n = config.buckets@.len();
            let shapes_are_fine = {
                &&& n > 0
                &&& config.batch_sizes@.len() == n
                &&& forall|i: int| 0 <= i < n ==> config.batch_sizes@[i] > 0
                &&& forall|i: int, j: int|
                    0 <= i < j < n ==> config.buckets@[i] < config.buckets@[j]
            };
            &&& n == 0 ==> config.problem() == Some("buckets cannot be empty"@)
            &&& n > 0 && config.batch_sizes@.len() != n ==> config.problem() == Some(
                "batch_sizes length ("@ + decimal(config.batch_sizes@.len())
                    + ") must match buckets length ("@ + decimal(n) + ")"@,
            )
            &&& shapes_are_fine && config.truncation == 0 ==> config.problem() == Some(
                "truncation must be > 0"@,
            )
            &&& shapes_are_fine && config.truncation > 0 && config.tokenize_workers == 0
                ==> config.problem() == Some("tokenize_workers must be > 0"@)
            &&& shapes_are_fine && config.truncation > 0 && config.tokenize_workers > 0
                && config.problem() is Some ==> config.problem() == Some(
                "gpus list cannot be empty"@,
            ) && (config.gpus matches Some(gpus) && gpus@.len() == 0)
        }),
{
    let n = config.buckets@.len();
    if n > 0 && config.batch_sizes@.len() == n && (forall|i: int|
        0 <= i < n ==> config.batch_sizes@[i] > 0) && (forall|i: int, j: int|
        0 <= i < j < n ==> config.buckets@[i] < config.buckets@[j]) {
        no_zero_is_found(config.batch_sizes@, 0);
        no_drop_is_found(config.buckets@, 1);
    }
}

proof fn no_zero_is_found(sizes: Seq<usize>, from: nat)
    requires
        from <= sizes.len(),
        forall|i: int| 0 <= i < sizes.len() ==> sizes[i] > 0,
    ensures
        first_zero(sizes, from) == sizes.len(),
    decreases sizes.len() - from,
{
    if from < sizes.len() {
        no_zero_is_found(sizes, from + 1);
    }
}

proof fn no_drop_is_found(lens: Seq<usize>, from: nat)
    requires
        0 < from <= lens.len(),
        forall|i: int, j: int| 0 <= i < j < lens.len() ==> lens[i] < lens[j],
    ensures
        first_drop(lens, from) == lens.len(),
    decreases lens.len() - from,
{
    if from < lens.len() {
        assert(lens[from - 1] < lens[from as int]);
        no_drop_is_found(lens, from + 1);
    }
}

}
