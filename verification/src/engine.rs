//! The engine: owns the model's tokenizer and vocabulary, and makes the parts of a run.

use std::sync::Arc;

use tokenizers::{PostProcessor, Tokenizer, TruncationParams};
use vstd::prelude::*;
use vstd::string::StringExecFns;

use crate::assembler::{AssemblerView, BatchAssembler};
use crate::batcher::Batcher;
use crate::bucket::BucketView;
use crate::cache::{self, parsed, SharedCache, VocabCache};
use crate::config::{fitted, longest, valid_config_is_usable, Config, FULL_BATCH_DIM};
use crate::dedup::EmbedCacheInner;
use crate::error::Error;
use crate::json::{json_value, member_number, number_at, parse_json};
use crate::normalize::{Normalizer, NormalizerConfig};
use crate::text::{
    cutting_at_a_character, pieces, split, texts, trim, trimmed, Separator,
};
use crate::tokenize::fresh_tokenizer;
use crate::worker::TokenizerWorker;

verus! {

/// The width of a model that does not say how wide it is.
pub const DEFAULT_HIDDEN_DIM: usize = 384;

// The model's files.

/// How many tokens a tokenizer adds to a text.
pub uninterp spec fn added_tokens(tokenizer: Tokenizer) -> usize;

/// The tokenizer with the given truncation, everything else as it was.
pub uninterp spec fn truncating(tokenizer: Tokenizer, max_length: usize) -> Tokenizer;

/// The tokenizer without padding, everything else as it was.
pub uninterp spec fn unpadded(tokenizer: Tokenizer) -> Tokenizer;

/// Calls `PostProcessor::added_tokens` on the tokenizer's post-processor, if it has one. The number
/// is a function of the tokenizer.
#[verifier::external_body]
fn count_added_tokens(tokenizer: &Tokenizer) -> (r: usize)
    ensures
        r == added_tokens(*tokenizer),
{
    tokenizer.get_post_processor().map_or(0, |p| p.added_tokens(false))
}

/// Calls `Tokenizer::with_truncation` with a maximal length and no stride. It fails only if the
/// stride is above what is left of the length without the added tokens, so it does not fail. The
/// tokenizer that results is a function of the tokenizer and the length.
#[verifier::external_body]
fn set_truncation(tokenizer: Tokenizer, max_length: usize) -> (r: Tokenizer)
    requires
        max_length >= added_tokens(tokenizer),
    ensures
        r == truncating(tokenizer, max_length),
{
    let mut out = tokenizer;
    let _ = out.with_truncation(Some(TruncationParams { max_length, ..Default::default() }));
    out
}

/// Calls `Tokenizer::with_padding` with no padding. The tokenizer that results is a function of
/// the tokenizer.
#[verifier::external_body]
fn unset_padding(tokenizer: Tokenizer) -> (r: Tokenizer)
    ensures
        r == unpadded(tokenizer),
{
    let mut out = tokenizer;
    out.with_padding(None);
    out
}

/// Makes a tokenizer truncate to `max_len` tokens and not pad. There is none if the tokens that it
/// adds have no room in `max_len`.
pub fn prepare_tokenizer(tokenizer: Tokenizer, max_len: usize) -> (r: Option<Tokenizer>)
    ensures
        r == (if max_len >= added_tokens(tokenizer) {
            Some(unpadded(truncating(tokenizer, max_len)))
        } else {
            None::<Tokenizer>
        }),
{
    if max_len < count_added_tokens(&tokenizer) {
        return None;
    }
    Some(unset_padding(set_truncation(tokenizer, max_len)))
}

/// What is said of a model directory without a tokenizer.
pub open spec fn no_tokenizer(dir: Seq<char>) -> Seq<char> {
    "tokenizer.json not found in "@ + dir
}

/// The tokenizer of the model in directory `dir`, from what was found of it: nothing, an error in
/// loading it, or the tokenizer itself.
pub fn found_tokenizer(dir: &str, found: Option<Result<Tokenizer, String>>) -> (r: Result<
    Tokenizer,
    Error,
>)
    ensures
        match found {
            None => r matches Err(Error::Model(msg)) && msg@ == no_tokenizer(dir@),
            Some(Err(e)) => r == Err::<Tokenizer, Error>(Error::Tokenizer(e)),
            Some(Ok(tokenizer)) => r == Ok::<Tokenizer, Error>(tokenizer),
        },
{
    match found {
        None => {
            let mut msg = "tokenizer.json not found in ".to_owned();
            msg.append(dir);
            Err(Error::Model(msg))
        },
        Some(Err(e)) => Err(Error::Tokenizer(e)),
        Some(Ok(tokenizer)) => Ok(tokenizer),
    }
}

/// What is said of a vocabulary cache that cannot be loaded.
pub open spec fn vocab_problem(e: Seq<char>) -> Seq<char> {
    "vocab cache: "@ + e
}

fn vocab_error(e: &str) -> (r: Error)
    ensures
        r matches Error::Model(msg) && msg@ == vocab_problem(e@),
{
    let mut msg = "vocab cache: ".to_owned();
    msg.append(e);
    Error::Model(msg)
}

/// The vocabulary cache of a model, from what was found of it: nothing, an error in reading it, or
/// its bytes. A model without one has an empty cache.
pub fn found_vocab_cache(found: Option<Result<Vec<u8>, String>>) -> (r: Result<SharedCache, Error>)
    ensures
        match found {
            None => r matches Ok(cache) && cache@ == Map::<Seq<char>, Seq<u32>>::empty(),
            Some(Err(e)) => r matches Err(Error::Model(msg)) && msg@ == vocab_problem(e@),
            Some(Ok(bytes)) => match parsed(bytes@) {
                Ok(map) => r matches Ok(cache) && cache@ == map,
                Err(e) => r matches Err(Error::Model(msg)) && msg@ == vocab_problem(e.text()),
            },
        },
{
    match found {
        None => Ok(Arc::new(VocabCache::new())),
        Some(Err(e)) => Err(vocab_error(e.as_str())),
        Some(Ok(bytes)) => match cache::load(bytes.as_slice()) {
            Ok(cache) => Ok(cache),
            Err(e) => Err(vocab_error(e.as_str())),
        },
    }
}

/// The width of a model that says `hidden_size` and `d_model`, if it says either.
pub open spec fn hidden_dim_from(hidden_size: Option<u64>, d_model: Option<u64>) -> usize {
    match (hidden_size, d_model) {
        (Some(dim), _) => dim as usize,
        (None, Some(dim)) => dim as usize,
        (None, None) => DEFAULT_HIDDEN_DIM,
    }
}

/// The width of a model that says `hidden_size` and `d_model`, if it says either.
pub fn choose_hidden_dim(hidden_size: Option<u64>, d_model: Option<u64>) -> (r: usize)
    ensures
        r == hidden_dim_from(hidden_size, d_model),
{
    match (hidden_size, d_model) {
        (Some(dim), _) => dim as usize,
        (None, Some(dim)) => dim as usize,
        (None, None) => DEFAULT_HIDDEN_DIM,
    }
}

/// The width that a model's configuration says.
pub open spec fn hidden_dim_in(content: Seq<char>) -> usize {
    match json_value(content) {
        Some(value) => hidden_dim_from(
            member_number(value, "hidden_size"@),
            member_number(value, "d_model"@),
        ),
        None => DEFAULT_HIDDEN_DIM,
    }
}

/// What is said of a model's configuration that cannot be read.
pub open spec fn config_problem(e: Seq<char>) -> Seq<char> {
    "reading config.json: "@ + e
}

/// The width of a model, from what was found of its configuration: nothing, an error in reading
/// it, or its text.
pub fn detect_hidden_dim(config_json: Option<Result<String, String>>) -> (r: Result<usize, Error>)
    ensures
        match config_json {
            None => r == Ok::<usize, Error>(DEFAULT_HIDDEN_DIM),
            Some(Err(e)) => r matches Err(Error::Model(msg)) && msg@ == config_problem(e@),
            Some(Ok(content)) => r == Ok::<usize, Error>(hidden_dim_in(content@)),
        },
{
    match config_json {
        None => Ok(DEFAULT_HIDDEN_DIM),
        Some(Err(e)) => {
            let mut msg = "reading config.json: ".to_owned();
            msg.append(e.as_str());
            Err(Error::Model(msg))
        },
        Some(Ok(content)) => match parse_json(content.as_str()) {
            Some(value) => {
                let hidden_size = number_at(&value, "hidden_size");
                let d_model = number_at(&value, "d_model");
                Ok(choose_hidden_dim(hidden_size, d_model))
            },
            None => Ok(DEFAULT_HIDDEN_DIM),
        },
    }
}

// The GPUs.

/// How many lines of a text are not blank.
pub open spec fn count_lines(text: Seq<char>) -> nat {
    pieces(text, Separator::Char('\n')).filter(|line: Seq<char>| trimmed(line).len() > 0).len()
}

/// How many GPUs there are: as many as the tool that lists them, one in a line, has listed, or one
/// if it could not be run.
pub fn detect_gpu_count(listed: Option<&str>) -> (r: u32)
    ensures
        match listed {
            Some(text) => r == count_lines(text@) as u32,
            None => r == 1,
        },
{
    let text = match listed {
        Some(text) => text,
        None => {
            return 1;
        },
    };
    let lines = split(text, Separator::Char('\n'));
    let ghost all = texts(lines@);
    let ghost keep = |line: Seq<char>| trimmed(line).len() > 0;
    let mut n: usize = 0;
    proof {
        reveal(Seq::filter);
        assert(all.take(0).filter(keep).len() == 0);
    }
    for i in 0..lines.len()
        invariant
            all == texts(lines@),
            keep == |line: Seq<char>| trimmed(line).len() > 0,
            n == all.take(i as int).filter(keep).len(),
            n <= i,
    {
        proof {
            reveal(Seq::filter);
            assert(all.take(i + 1).drop_last() == all.take(i as int));
            assert(all[i as int] == lines@[i as int]@);
        }
        if !trim(lines[i].as_str()).as_str().is_empty() {
            n += 1;
        }
    }
    assert(all.take(all.len() as int) == all);
    n as u32
}

/// The GPUs to use: those that are configured, or else as many as were detected, from zero on.
pub fn resolve_gpus(configured: &Option<Vec<u32>>, detected: u32) -> (r: Vec<u32>)
    ensures
        r@ == match configured {
            Some(gpus) => gpus@,
            None => Seq::new(detected as nat, |i: int| i as u32),
        },
{
    match configured {
        Some(gpus) => {
            let copy = gpus.clone();
            assert(copy@ == gpus@);
            copy
        },
        None => {
            let mut gpus: Vec<u32> = Vec::new();
            for i in 0..detected
                invariant
                    gpus@ == Seq::new(i as nat, |k: int| k as u32),
            {
                gpus.push(i);
            }
            gpus
        },
    }
}

// The engine.

/// What an [`Engine`] is made of.
pub struct EngineView {
    pub config: Config,
    pub hidden_dim: nat,
    pub tokenizer: Tokenizer,
    pub known: Map<Seq<char>, Seq<u32>>,
    pub settings: NormalizerConfig,
}

/// Turns texts into embeddings: owns what the parts of a run share.
pub struct Engine {
    tokenizer: Arc<Tokenizer>,
    vocab_cache: SharedCache,
    normalizer: Normalizer,
    config: Config,
    hidden_dim: usize,
}

impl View for Engine {
    type V = EngineView;

    closed spec fn view(&self) -> EngineView {
        EngineView {
            config: self.config,
            hidden_dim: self.hidden_dim as nat,
            tokenizer: *self.tokenizer,
            known: self.vocab_cache@,
            settings: self.normalizer.settings(),
        }
    }
}

/// Whether a normalizer's settings are those of a configuration.
pub open spec fn settings_of(config: Config, settings: NormalizerConfig) -> bool {
    &&& settings.lowercase == config.lowercase
    &&& settings.max_chars == config.truncation
    &&& settings.min_chars == config.min_chars
    &&& settings.prefix@ == config.prefix@
}

impl Engine {
    /// There is a bucket, a batch size for each, and none is zero. The normalizer has the settings
    /// of the configuration.
    pub open spec fn valid(self) -> bool {
        let config = self@.config;
        &&& config.buckets@.len() > 0
        &&& config.batch_sizes@.len() == config.buckets@.len()
        &&& forall|i: int| 0 <= i < config.batch_sizes@.len() ==> config.batch_sizes@[i] > 0
        &&& settings_of(config, self@.settings)
    }

    /// Sets up an engine for a model of width `hidden_dim`. If the model is wider than the batch
    /// sizes are made for, `scaled` are the batch sizes for it. The tokenizer is made to truncate
    /// to the longest bucket and not to pad. There is no engine if the tokens that it adds have no
    /// room in that.
    pub fn new(
        config: Config,
        hidden_dim: usize,
        scaled: Vec<usize>,
        tokenizer: Tokenizer,
        vocab_cache: SharedCache,
    ) -> (r: Result<Option<Self>, Error>)
        requires
            hidden_dim > FULL_BATCH_DIM ==> scaled@.len() == config.batch_sizes@.len(),
        ensures
            match r {
                Ok(Some(engine)) => {
                    let max_len = longest(config.buckets@);
                    &&& config.problem() is None
                    &&& max_len >= added_tokens(tokenizer)
                    &&& engine.valid()
                    &&& engine@.hidden_dim == hidden_dim
                    &&& engine@.tokenizer == unpadded(truncating(tokenizer, max_len))
                    &&& engine@.known == vocab_cache@
                    &&& engine@.config.batch_sizes@ == fitted(
                        hidden_dim,
                        config.batch_sizes@,
                        scaled@,
                    )
                    &&& engine@.config == (Config {
                        batch_sizes: engine@.config.batch_sizes,
                        ..config
                    })
                },
                Ok(None) => {
                    &&& config.problem() is None
                    &&& longest(config.buckets@) < added_tokens(tokenizer)
                },
                Err(Error::Config(msg)) => config.problem() == Some(msg@),
                Err(_) => false,
            },
    {
        match config.validate() {
            Ok(()) => {},
            Err(e) => {
                return Err(e);
            },
        }
        proof {
            valid_config_is_usable(config);
        }
        let mut config = config;
        config.fit_batch_sizes(hidden_dim, scaled);
        let tokenizer = match prepare_tokenizer(tokenizer, config.max_len()) {
            Some(tokenizer) => Arc::new(tokenizer),
            None => {
                return Ok(None);
            },
        };
        let settings = NormalizerConfig {
            lowercase: config.lowercase,
            max_chars: config.truncation,
            min_chars: config.min_chars,
            prefix: config.prefix.clone(),
        };
        let normalizer = Normalizer::new(settings);
        Ok(Some(Engine { tokenizer, vocab_cache, normalizer, config, hidden_dim }))
    }

    /// The normalizer of the messages.
    pub fn normalizer(&self) -> (r: Normalizer)
        ensures
            r.settings() == self@.settings,
    {
        self.normalizer.clone()
    }

    /// The number of values of an embedding.
    pub fn hidden_dim(&self) -> (r: usize)
        ensures
            r == self@.hidden_dim,
    {
        self.hidden_dim
    }

    /// The number of words in the vocabulary cache.
    pub fn vocab_cache_size(&self) -> (r: usize)
        ensures
            r == self@.known.len(),
    {
        self.vocab_cache.len()
    }

    /// The configuration, with the batch sizes that are used.
    pub fn config(&self) -> (r: &Config)
        ensures
            *r == self@.config,
    {
        &self.config
    }

    /// A tokenizer worker for a run.
    pub fn worker<T: Copy>(&self, zero: T) -> (r: TokenizerWorker<T>)
        requires
            self.valid(),
            longest(self@.config.buckets@) >= 1,
        ensures
            r.valid(),
            r@.tokenizer == fresh_tokenizer(
                self@.tokenizer,
                longest(self@.config.buckets@) as nat,
                self@.known,
            ),
            settings_of(self@.config, r@.settings),
            r@.bucket_lens == self@.config.buckets@,
            r@.hidden_dim == self@.hidden_dim,
            r@.reported == (0nat, 0nat),
            r@.queued == 0,
    {
        let lens = self.config.buckets.clone();
        assert(lens@ == self.config.buckets@);
        TokenizerWorker::new(
            self.tokenizer.clone(),
            self.vocab_cache.clone(),
            self.normalizer.clone(),
            lens,
            self.config.max_len(),
            self.hidden_dim,
            zero,
        )
    }

    /// The assembler of a bucket for a run.
    pub fn assembler(&self, bucket: usize) -> (r: BatchAssembler)
        requires
            self.valid(),
            bucket < self@.config.buckets@.len(),
            self@.config.batch_sizes@[bucket as int] * self@.config.buckets@[bucket as int]
                <= usize::MAX,
        ensures
            r.valid(),
            r@ == (AssemblerView {
                bucket: bucket as int,
                shape: BucketView {
                    len: self@.config.buckets@[bucket as int] as int,
                    batch_size: self@.config.batch_sizes@[bucket as int] as int,
                    pending: Seq::empty(),
                },
                ids: Seq::empty(),
                hashes: Seq::empty(),
            }),
    {
        BatchAssembler::new(bucket, self.config.bucket_spec(bucket))
    }

    /// The batcher of a bucket for a run.
    pub fn batcher(&self, bucket: usize) -> (r: Batcher)
        requires
            self.valid(),
            bucket < self@.config.buckets@.len(),
            self@.config.batch_sizes@[bucket as int] * self@.config.buckets@[bucket as int]
                <= usize::MAX,
        ensures
            r.valid(),
            r@.timeout == self@.config.batch_timeout_ms,
            r@.since is None,
            r@.assembler == (AssemblerView {
                bucket: bucket as int,
                shape: BucketView {
                    len: self@.config.buckets@[bucket as int] as int,
                    batch_size: self@.config.batch_sizes@[bucket as int] as int,
                    pending: Seq::empty(),
                },
                ids: Seq::empty(),
                hashes: Seq::empty(),
            }),
    {
        Batcher::new(self.assembler(bucket), self.config.batch_timeout_ms)
    }

    /// The dedup cache for a run, if there is to be one. Its slots are filled with `zero`.
    pub fn dedup_cache<T: Copy>(&self, zero: T) -> (r: Option<EmbedCacheInner<T>>)
        requires
            self@.config.dedup_capacity * self@.hidden_dim <= usize::MAX,
        ensures
            r is Some <==> self@.config.dedup_capacity > 0,
            r matches Some(cache) ==> {
                &&& cache.dim() == self@.hidden_dim
                &&& cache.slots() == Seq::new(
                    self@.config.dedup_capacity as nat,
                    |i: int| (0u64, Seq::new(self@.hidden_dim, |j: int| zero)),
                )
            },
    {
        if self.config.dedup_capacity > 0 {
            Some(EmbedCacheInner::new(self.config.dedup_capacity, self.hidden_dim, zero))
        } else {
            None
        }
    }
}

// Laws.

/// A model is as wide as its configuration says under `hidden_size`, or else under `d_model`, and
/// 384 where it says neither or is no JSON.
pub proof fn width_is_what_the_model_says(content: Seq<char>)
    ensures
        json_value(content) is None ==> hidden_dim_in(content) == 384,
        json_value(content) matches Some(value) ==> {
            &&& member_number(value, "hidden_size"@) matches Some(dim) ==> hidden_dim_in(content)
                == dim as usize
            &&& member_number(value, "hidden_size"@) is None ==> (member_number(value, "d_model"@)
                matches Some(dim) ==> hidden_dim_in(content) == dim as usize)
            &&& member_number(value, "hidden_size"@) is None && member_number(value, "d_model"@)
                is None ==> hidden_dim_in(content) == 384
        },
{
}

proof fn kept_lines_of_both(a: Seq<Seq<char>>, b: Seq<Seq<char>>)
    ensures
        (a + b).filter(|line: Seq<char>| trimmed(line).len() > 0).len() == a.filter(
            |line: Seq<char>| trimmed(line).len() > 0,
        ).len() + b.filter(|line: Seq<char>| trimmed(line).len() > 0).len(),
    decreases b.len(),
{
    reveal(Seq::filter);
    if b.len() == 0 {
        assert(a + b =~= a);
    } else {
        kept_lines_of_both(a, b.drop_last());
        assert((a + b).drop_last() =~= a + b.drop_last());
    }
}

/// Every line that is not blank counts one: the lines before and behind a line feed are counted each
/// for itself, and a text without one counts one if it holds anything but white space.
pub proof fn every_line_counts_one(a: Seq<char>, b: Seq<char>)
    ensures
        count_lines(a + seq!['\n'] + b) == count_lines(a) + count_lines(b),
        !a.contains('\n') ==> count_lines(a) == if trimmed(a).len() > 0 {
            1nat
        } else {
            0
        },
{
    let sep = Separator::Char('\n');
    let keep = |line: Seq<char>| trimmed(line).len() > 0;
    cutting_at_a_character(a, '\n', b);
    kept_lines_of_both(pieces(a, sep), pieces(b, sep));
    if !a.contains('\n') {
        reveal(Seq::filter);
        let one = seq![a];
        assert(one.drop_last() =~= Seq::<Seq<char>>::empty());
        assert(one.drop_last().filter(keep).len() == 0);
    }
}

/// The normalizer of an engine has the settings of its configuration: the same case, limit, least
/// length and prefix.
pub proof fn normalizer_has_the_settings_of_its_engine(engine: Engine)
    requires
        engine.valid(),
    ensures
        engine@.settings.lowercase == engine@.config.lowercase,
        engine@.settings.max_chars == engine@.config.truncation,
        engine@.settings.min_chars == engine@.config.min_chars,
        engine@.settings.prefix@ == engine@.config.prefix@,
{
}

/// What is said of files that cannot be used names the file, and tells what was wrong in full.
pub proof fn file_problems_are_told(dir: Seq<char>, e: Seq<char>)
    ensures
        no_tokenizer(dir) == "tokenizer.json not found in "@ + dir,
        vocab_problem(e) == "vocab cache: "@ + e,
        config_problem(e) == "reading config.json: "@ + e,
{
}

}
