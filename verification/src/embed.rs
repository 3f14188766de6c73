//! The `embed` command: what its arguments mean, and how it ends.

use vstd::prelude::*;
use vstd::string::StringExecFns;

use crate::config::{path_from, to_path, Config};
use crate::number::{
    decimal, number_value, parse_number, reading_goes_digit_by_digit, to_decimal, NumberError,
};
use crate::text::{
    contains_char, cutting_at_a_character, file_part, last_part,
    last_part_is_behind_the_last_slash, only_the_run_at_the_end_goes, pieces, pieces_nonempty,
    same_text, split, text_view, texts, trim, trimmed, without_trailing, Separator,
};

verus! {

/// The arguments of the `embed` command.
pub struct EmbedArgs {
    /// Model name (e.g. "intfloat/e5-small-v2") or path to a local model directory.
    pub model: String,
    /// Input files and directories.
    pub input: Vec<String>,
    /// Output file.
    pub output: String,
    /// Input format: "jsonl" or "plain".
    pub format: String,
    /// GPU IDs: "all" or comma-separated (e.g. "0,1,2").
    pub gpus: String,
    /// Directory for models and compiled engines.
    pub cache_dir: String,
    /// Max characters per text (longer texts truncated).
    pub truncation: usize,
    /// Number of tokenizer workers.
    pub tokenize_workers: usize,
    /// Text prefix (e.g. "passage: " for e5 models). Omit to use model default.
    pub prefix: Option<String>,
    /// INT8 mixed-precision inference.
    pub int8: bool,
    /// S3 prefix for compiled engines.
    pub engine_cache: Option<String>,
    /// Capacity of the embedding dedup cache. Zero turns it off.
    pub dedup_capacity: usize,
    /// Batch timeout in milliseconds. Zero turns it off.
    pub batch_timeout_ms: u64,
    /// Comma-separated bucket lengths (e.g. "32,64,128,256").
    pub buckets: Option<String>,
    /// Comma-separated batch sizes, one for each bucket.
    pub batch_sizes: Option<String>,
    /// No progress output.
    pub quiet: bool,
}

/// The quoted form of a text, as it stands in messages.
pub uninterp spec fn quoted(text: Seq<char>) -> Seq<char>;

/// Calls the `Debug` format of `str`. The quoted text is a function of the text.
#[verifier::external_body]
fn quote(text: &str) -> (r: String)
    ensures
        r@ == quoted(text@),
{
    format!("{:?}", text)
}

/// What is said of an input format that does not exist.
pub open spec fn format_problem(format: Seq<char>) -> Seq<char> {
    "invalid format "@ + quoted(format) + " (expected \"jsonl\" or \"plain\")"@
}

/// Checks the name of an input format.
pub fn parse_format(s: &str) -> (r: Result<String, String>)
    ensures
        match r {
            Ok(name) => name@ == s@ && (s@ == "jsonl"@ || s@ == "plain"@),
            Err(msg) => {
                &&& s@ != "jsonl"@ && s@ != "plain"@
                &&& msg@ == format_problem(s@)
            },
        },
{
    if same_text(s, "jsonl") || same_text(s, "plain") {
        return Ok(s.to_owned());
    }
    let mut msg = "invalid format ".to_owned();
    msg.append(quote(s).as_str());
    msg.append(" (expected \"jsonl\" or \"plain\")");
    Err(msg)
}

// Lists.

/// The items of a comma-separated list, trimmed, without those that are empty then.
pub open spec fn items_of(list: Seq<char>) -> Seq<Seq<char>> {
    pieces(list, Separator::Char(',')).map_values(|s: Seq<char>| trimmed(s)).filter(
        |s: Seq<char>| s.len() > 0,
    )
}

/// The items of a comma-separated list, trimmed, without those that are empty then.
pub fn list_items(list: &str) -> (r: Vec<String>)
    ensures
        texts(r@) == items_of(list@),
{
    let parts = split(list, Separator::Char(','));
    let ghost all = texts(parts@).map_values(|s: Seq<char>| trimmed(s));
    let ghost keep = |s: Seq<char>| s.len() > 0;
    let mut items: Vec<String> = Vec::new();
    proof {
        reveal(Seq::filter);
        assert(all.take(0).filter(keep) == Seq::<Seq<char>>::empty());
        assert(texts(items@) == Seq::<Seq<char>>::empty());
    }
    for i in 0..parts.len()
        invariant
            all == texts(parts@).map_values(|s: Seq<char>| trimmed(s)),
            keep == |s: Seq<char>| s.len() > 0,
            texts(items@) == all.take(i as int).filter(keep),
    {
        let ghost before = items@;
        let item = trim(parts[i].as_str());
        proof {
            reveal(Seq::filter);
            assert(all.take(i + 1).drop_last() == all.take(i as int));
            assert(texts(parts@)[i as int] == parts@[i as int]@);
            assert(all[i as int] == item@);
        }
        if !item.as_str().is_empty() {
            items.push(item);
            assert(texts(items@) == texts(before).push(item@));
        }
    }
    assert(all.take(all.len() as int) == all);
    items
}

/// The numbers that items spell, or the index of the first that spells none, with what is wrong
/// with it.
pub open spec fn numbers_of(items: Seq<Seq<char>>, max: nat) -> Result<
    Seq<nat>,
    (int, NumberError),
>
    decreases items.len(),
{
    if items.len() == 0 {
        Ok(Seq::empty())
    } else {
        match numbers_of(items.drop_last(), max) {
            Err(e) => Err(e),
            Ok(values) => match number_value(items.last(), max) {
                Ok(n) => Ok(values.push(n)),
                Err(e) => Err((items.len() - 1, e)),
            },
        }
    }
}

proof fn number_error_stays(items: Seq<Seq<char>>, n: int, max: nat)
    requires
        0 <= n <= items.len(),
        numbers_of(items.take(n), max) is Err,
    ensures
        numbers_of(items, max) == numbers_of(items.take(n), max),
    decreases items.len(),
{
    if n == items.len() {
        assert(items.take(n) == items);
    } else {
        assert(items.drop_last().take(n) == items.take(n));
        number_error_stays(items.drop_last(), n, max);
    }
}

/// Numbers, each of which is what was spelled.
pub open spec fn as_nats(values: Seq<u64>) -> Seq<nat> {
    values.map_values(|v: u64| v as nat)
}

fn parse_items(items: &Vec<String>, max: u64) -> (r: Result<Vec<u64>, (usize, NumberError)>)
    ensures
        match r {
            Ok(values) => {
                &&& numbers_of(texts(items@), max as nat) == Ok::<Seq<nat>, (int, NumberError)>(
                    as_nats(values@),
                )
                &&& forall|i: int| 0 <= i < values@.len() ==> #[trigger] values@[i] <= max
            },
            Err((i, e)) => {
                &&& i < items@.len()
                &&& numbers_of(texts(items@), max as nat) == Err::<Seq<nat>, (int, NumberError)>(
                    (i as int, e),
                )
            },
        },
{
    let ghost all = texts(items@);
    let mut values: Vec<u64> = Vec::new();
    assert(all.take(0) == Seq::<Seq<char>>::empty());
    assert(as_nats(values@) == Seq::<nat>::empty());
    for i in 0..items.len()
        invariant
            all == texts(items@),
            numbers_of(all.take(i as int), max as nat) == Ok::<Seq<nat>, (int, NumberError)>(
                as_nats(values@),
            ),
            forall|k: int| 0 <= k < values@.len() ==> #[trigger] values@[k] <= max,
    {
        let ghost before = values@;
        proof {
            assert(all.take(i + 1).drop_last() == all.take(i as int));
            assert(all.take(i + 1).last() == items@[i as int]@);
        }
        match parse_number(items[i].as_str(), max) {
            Ok(n) => {
                values.push(n);
                assert(as_nats(values@) == as_nats(before).push(n as nat));
            },
            Err(e) => {
                proof {
                    number_error_stays(all, i + 1, max as nat);
                }
                return Err((i, e));
            },
        }
    }
    assert(all.take(all.len() as int) == all);
    Ok(values)
}

/// What is wrong with a list of sizes, if anything is.
pub open spec fn sizes_problem(list: Seq<char>) -> Option<Seq<char>> {
    match numbers_of(items_of(list), usize::MAX as nat) {
        Err((_, e)) => Some(e.text()),
        Ok(values) => if values.len() == 0 {
            Some("empty comma-separated list"@)
        } else {
            None
        },
    }
}

/// The sizes in a list.
pub open spec fn sizes_in(list: Seq<char>) -> Seq<usize> {
    match numbers_of(items_of(list), usize::MAX as nat) {
        Err(_) => Seq::empty(),
        Ok(values) => values.map_values(|v: nat| v as usize),
    }
}

/// Reads a comma-separated list of sizes.
pub fn parse_usize_csv(raw: &str) -> (r: Result<Vec<usize>, String>)
    ensures
        match r {
            Ok(sizes) => sizes_problem(raw@) is None && sizes@ == sizes_in(raw@),
            Err(msg) => sizes_problem(raw@) == Some(msg@),
        },
{
    let items = list_items(raw);
    match parse_items(&items, usize::MAX as u64) {
        Err((_, e)) => Err(e.message()),
        Ok(values) => {
            if values.len() == 0 {
                assert(as_nats(values@).len() == 0);
                return Err("empty comma-separated list".to_owned());
            }
            let mut sizes: Vec<usize> = Vec::new();
            let n: usize = values.len();
            for i in 0..n
                invariant
                    n == values@.len(),
                    sizes@ == as_nats(values@).map_values(|v: nat| v as usize).take(i as int),
                    forall|k: int| 0 <= k < values@.len() ==> #[trigger] values@[k] <= usize::MAX,
            {
                assert(values@[i as int] <= usize::MAX);
                sizes.push(values[i] as usize);
            }
            assert(as_nats(values@).len() == n);
            assert(sizes@ == as_nats(values@).map_values(|v: nat| v as usize));
            Ok(sizes)
        },
    }
}

/// What is wrong with a list of GPU IDs, if anything is.
pub open spec fn gpus_problem(list: Seq<char>) -> Option<Seq<char>> {
    if list == "all"@ {
        None
    } else {
        match numbers_of(items_of(list), u32::MAX as nat) {
            Err((i, _)) => Some("invalid GPU id: "@ + quoted(items_of(list)[i])),
            Ok(values) => if values.len() == 0 {
                Some("--gpus requires at least one GPU id or \"all\""@)
            } else {
                None
            },
        }
    }
}

/// The GPU IDs in a list, or none if it says that all are meant.
pub open spec fn gpus_in(list: Seq<char>) -> Option<Seq<u32>> {
    if list == "all"@ {
        None
    } else {
        match numbers_of(items_of(list), u32::MAX as nat) {
            Err(_) => Some(Seq::empty()),
            Ok(values) => Some(values.map_values(|v: nat| v as u32)),
        }
    }
}

/// The GPU IDs that an option holds.
pub open spec fn gpus_view(gpus: Option<Vec<u32>>) -> Option<Seq<u32>> {
    match gpus {
        Some(gpus) => Some(gpus@),
        None => None,
    }
}

/// Reads a comma-separated list of GPU IDs, or "all".
pub fn parse_gpus(spec: &str) -> (r: Result<Option<Vec<u32>>, String>)
    ensures
        match r {
            Ok(gpus) => gpus_problem(spec@) is None && gpus_view(gpus) == gpus_in(spec@),
            Err(msg) => gpus_problem(spec@) == Some(msg@),
        },
{
    if same_text(spec, "all") {
        return Ok(None);
    }
    let items = list_items(spec);
    match parse_items(&items, u32::MAX as u64) {
        Err((i, _)) => {
            assert(items_of(spec@)[i as int] == items@[i as int]@);
            let mut msg = "invalid GPU id: ".to_owned();
            msg.append(quote(items[i].as_str()).as_str());
            Err(msg)
        },
        Ok(values) => {
            if values.len() == 0 {
                assert(as_nats(values@).len() == 0);
                return Err("--gpus requires at least one GPU id or \"all\"".to_owned());
            }
            let mut gpus: Vec<u32> = Vec::new();
            let n: usize = values.len();
            for i in 0..n
                invariant
                    n == values@.len(),
                    gpus@ == as_nats(values@).map_values(|v: nat| v as u32).take(i as int),
                    forall|k: int| 0 <= k < values@.len() ==> #[trigger] values@[k] <= u32::MAX,
            {
                assert(values@[i as int] <= u32::MAX);
                gpus.push(values[i] as u32);
            }
            assert(as_nats(values@).len() == n);
            assert(gpus@ == as_nats(values@).map_values(|v: nat| v as u32));
            Ok(Some(gpus))
        },
    }
}

// The configuration.

/// The model that a name means: the name itself if it has a slash or is a path that exists, or
/// else the name in the default organisation.
pub open spec fn full_model_name(model: Seq<char>, exists_as_path: bool) -> Seq<char> {
    if model.contains('/') || exists_as_path {
        model
    } else {
        "intfloat/"@ + model
    }
}

/// The model that a name means.
pub fn model_name(model: &str, exists_as_path: bool) -> (r: String)
    ensures
        r@ == full_model_name(model@, exists_as_path),
{
    if contains_char(model, '/') || exists_as_path {
        model.to_owned()
    } else {
        let mut name = "intfloat/".to_owned();
        name.append(model);
        name
    }
}

/// Whether a model is of the e5 family: "e5" is one of the parts of its name between hyphens.
pub open spec fn is_e5(model: Seq<char>) -> bool {
    pieces(last_part(model), Separator::Char('-')).contains("e5"@)
}

/// The prefix that a model wants before every text.
pub open spec fn default_prefix(model: Seq<char>) -> Seq<char> {
    if is_e5(model) {
        "passage: "@
    } else {
        ""@
    }
}

/// The prefix that a model wants before every text.
pub fn model_prefix(model: &str) -> (r: String)
    ensures
        r@ == default_prefix(model@),
{
    let name = file_part(model);
    let parts = split(name.as_str(), Separator::Char('-'));
    for i in 0..parts.len()
        invariant
            texts(parts@) == pieces(last_part(model@), Separator::Char('-')),
            forall|j: int| 0 <= j < i ==> texts(parts@)[j] != "e5"@,
    {
        assert(texts(parts@)[i as int] == parts@[i as int]@);
        if same_text(parts[i].as_str(), "e5") {
            return "passage: ".to_owned();
        }
    }
    "".to_owned()
}

/// What is said of buckets and batch sizes that do not match in number.
pub open spec fn mismatch(buckets: nat, batch_sizes: nat) -> Seq<char> {
    "--buckets/--batch-sizes length mismatch: "@ + decimal(buckets) + " vs "@ + decimal(
        batch_sizes,
    )
}

/// What is wrong with an optional list of sizes, if anything is.
pub open spec fn option_problem(list: Option<String>) -> Option<Seq<char>> {
    match list {
        Some(list) => sizes_problem(list@),
        None => None,
    }
}

/// What is wrong with the bucket lengths and batch sizes given, if anything is.
pub open spec fn overrides_problem(buckets: Option<String>, batch_sizes: Option<String>) -> Option<
    Seq<char>,
> {
    if option_problem(buckets) is Some {
        option_problem(buckets)
    } else if option_problem(batch_sizes) is Some {
        option_problem(batch_sizes)
    } else {
        match (buckets, batch_sizes) {
            (Some(b), Some(s)) => if sizes_in(b@).len() != sizes_in(s@).len() {
                Some(mismatch(sizes_in(b@).len(), sizes_in(s@).len()))
            } else {
                None
            },
            _ => None,
        }
    }
}

/// The sizes in a list if it is given, or else the default ones.
pub open spec fn sizes_or(list: Option<String>, default: Seq<usize>) -> Seq<usize> {
    match list {
        Some(list) => sizes_in(list@),
        None => default,
    }
}

fn parse_option(list: &Option<String>) -> (r: Result<Option<Vec<usize>>, String>)
    ensures
        match r {
            Ok(sizes) => {
                &&& option_problem(*list) is None
                &&& sizes is Some <==> list is Some
                &&& sizes matches Some(sizes) ==> sizes@ == sizes_in(list.unwrap()@)
            },
            Err(msg) => option_problem(*list) == Some(msg@),
        },
{
    match list {
        Some(list) => match parse_usize_csv(list.as_str()) {
            Ok(sizes) => Ok(Some(sizes)),
            Err(msg) => Err(msg),
        },
        None => Ok(None),
    }
}

/// Puts the bucket lengths and batch sizes that are given in place of those of a configuration.
pub fn override_sizes(
    config: &mut Config,
    buckets: &Option<String>,
    batch_sizes: &Option<String>,
) -> (r: Result<(), String>)
    ensures
        match r {
            Ok(()) => {
                &&& overrides_problem(*buckets, *batch_sizes) is None
                &&& final(config).buckets@ == sizes_or(*buckets, old(config).buckets@)
                &&& final(config).batch_sizes@ == sizes_or(*batch_sizes, old(config).batch_sizes@)
                &&& *final(config) == (Config {
                    buckets: final(config).buckets,
                    batch_sizes: final(config).batch_sizes,
                    ..*old(config)
                })
            },
            Err(msg) => {
                &&& overrides_problem(*buckets, *batch_sizes) == Some(msg@)
                &&& *final(config) == *old(config)
            },
        },
{
    let new_buckets = match parse_option(buckets) {
        Ok(sizes) => sizes,
        Err(msg) => {
            return Err(msg);
        },
    };
    let new_sizes = match parse_option(batch_sizes) {
        Ok(sizes) => sizes,
        Err(msg) => {
            return Err(msg);
        },
    };
    if let (Some(b), Some(s)) = (&new_buckets, &new_sizes) {
        if b.len() != s.len() {
            let mut msg = "--buckets/--batch-sizes length mismatch: ".to_owned();
            msg.append(to_decimal(b.len() as u64).as_str());
            msg.append(" vs ");
            msg.append(to_decimal(s.len() as u64).as_str());
            return Err(msg);
        }
    }
    if let Some(b) = new_buckets {
        config.buckets = b;
    }
    if let Some(s) = new_sizes {
        config.batch_sizes = s;
    }
    Ok(())
}

/// What is wrong with the arguments, if anything is.
pub open spec fn args_problem(args: EmbedArgs) -> Option<Seq<char>> {
    if overrides_problem(args.buckets, args.batch_sizes) is Some {
        overrides_problem(args.buckets, args.batch_sizes)
    } else {
        gpus_problem(args.gpus@)
    }
}

/// Whether a configuration is the one that arguments ask for. `model_exists` says whether the model
/// is the path of something that exists.
pub open spec fn configures(args: EmbedArgs, model_exists: bool, config: Config) -> bool {
    &&& model_exists ==> {
        &&& config.model is None
        &&& config.model_dir == path_from(args.model@)
    }
    &&& !model_exists ==> {
        &&& config.model matches Some(model) && model@ == full_model_name(args.model@, false)
        &&& config.model_dir == path_from(args.cache_dir@)
    }
    &&& match args.engine_cache {
        Some(store) => config.engine_cache matches Some(s) && s@ == store@,
        None => config.engine_cache is None,
    }
    &&& gpus_view(config.gpus) == gpus_in(args.gpus@)
    &&& config.buckets@ == sizes_or(
        args.buckets,
        seq![24usize, 32, 40, 48, 56, 64, 80, 96, 128, 256],
    )
    &&& config.batch_sizes@ == sizes_or(
        args.batch_sizes,
        seq![4096usize, 4096, 3072, 2048, 2048, 2048, 1536, 1536, 1024, 512],
    )
    &&& config.tokenize_workers == args.tokenize_workers
    &&& config.truncation == args.truncation
    &&& config.lowercase
    &&& config.min_chars == 10
    &&& match args.prefix {
        Some(prefix) => config.prefix@ == prefix@,
        None => config.prefix@ == default_prefix(full_model_name(args.model@, model_exists)),
    }
    &&& config.int8 == args.int8
    &&& config.telemetry
    &&& config.batch_timeout_ms == args.batch_timeout_ms
    &&& config.dedup_capacity == args.dedup_capacity
}

/// Makes the configuration that the arguments ask for. `model_exists` says whether the model is
/// the path of something that exists: that is then used as it is. Any other model is kept in the
/// cache directory.
pub fn build_config(args: &EmbedArgs, model_exists: bool) -> (r: Result<Config, String>)
    ensures
        match r {
            Ok(config) => args_problem(*args) is None && configures(*args, model_exists, config),
            Err(msg) => args_problem(*args) == Some(msg@),
        },
{
    let mut config = Config::default();
    match override_sizes(&mut config, &args.buckets, &args.batch_sizes) {
        Ok(()) => {},
        Err(msg) => {
            return Err(msg);
        },
    }
    let gpus = match parse_gpus(args.gpus.as_str()) {
        Ok(gpus) => gpus,
        Err(msg) => {
            return Err(msg);
        },
    };
    let model = model_name(args.model.as_str(), model_exists);
    config.prefix = match &args.prefix {
        Some(prefix) => prefix.clone(),
        None => model_prefix(model.as_str()),
    };
    if model_exists {
        config.model = None;
        config.model_dir = to_path(args.model.as_str());
    } else {
        config.model = Some(model);
        config.model_dir = to_path(args.cache_dir.as_str());
    }
    config.engine_cache = match &args.engine_cache {
        Some(store) => Some(store.clone()),
        None => None,
    };
    config.gpus = gpus;
    config.truncation = args.truncation;
    config.tokenize_workers = args.tokenize_workers;
    config.int8 = args.int8;
    config.batch_timeout_ms = args.batch_timeout_ms;
    config.dedup_capacity = args.dedup_capacity;
    Ok(config)
}

/// Whether two configurations say the same.
pub open spec fn says_the_same(a: Config, b: Config) -> bool {
    &&& text_view(a.model) == text_view(b.model)
    &&& a.model_dir == b.model_dir
    &&& text_view(a.engine_cache) == text_view(b.engine_cache)
    &&& gpus_view(a.gpus) == gpus_view(b.gpus)
    &&& a.buckets@ == b.buckets@
    &&& a.batch_sizes@ == b.batch_sizes@
    &&& a.tokenize_workers == b.tokenize_workers
    &&& a.truncation == b.truncation
    &&& a.lowercase == b.lowercase
    &&& a.min_chars == b.min_chars
    &&& a.prefix@ == b.prefix@
    &&& a.int8 == b.int8
    &&& a.telemetry == b.telemetry
    &&& a.batch_timeout_ms == b.batch_timeout_ms
    &&& a.dedup_capacity == b.dedup_capacity
}

/// An omitted prefix is the one of the model: arguments without a prefix, and the same arguments
/// with the prefix that the model wants, ask for the same configuration.
pub proof fn omitted_prefix_is_that_of_the_model(
    args: EmbedArgs,
    prefix: String,
    model_exists: bool,
    omitted: Config,
    given: Config,
)
    requires
        args.prefix is None,
        prefix@ == default_prefix(full_model_name(args.model@, model_exists)),
        configures(args, model_exists, omitted),
        configures(EmbedArgs { prefix: Some(prefix), ..args }, model_exists, given),
    ensures
        says_the_same(omitted, given),
        is_e5(full_model_name(args.model@, model_exists)) ==> given.prefix@ == "passage: "@,
{
}

// The start and the end of a run.

/// Checks that there is something to read.
pub fn check_files(n_files: usize) -> (r: Result<(), String>)
    ensures
        match r {
            Ok(()) => n_files > 0,
            Err(msg) => n_files == 0 && msg@ == "no input files found"@,
        },
{
    if n_files == 0 {
        Err("no input files found".to_owned())
    } else {
        Ok(())
    }
}

/// What is said at the end of a run that has lost messages.
pub open spec fn lost_messages(lost: u64) -> Seq<char> {
    decimal(lost as nat) + " messages lost to inference failures (output is partial)"@
}

/// Says how a run ended that has lost the given number of messages to failures of inference.
pub fn run_verdict(lost: u64) -> (r: Result<(), String>)
    ensures
        match r {
            Ok(()) => lost == 0,
            Err(msg) => lost > 0 && msg@ == lost_messages(lost),
        },
{
    if lost > 0 {
        let mut msg = to_decimal(lost);
        msg.append(" messages lost to inference failures (output is partial)");
        Err(msg)
    } else {
        Ok(())
    }
}

// Laws.

proof fn items_kept_of_both(a: Seq<Seq<char>>, b: Seq<Seq<char>>)
    ensures
        (a + b).map_values(|s: Seq<char>| trimmed(s)).filter(|s: Seq<char>| s.len() > 0)
            == a.map_values(|s: Seq<char>| trimmed(s)).filter(|s: Seq<char>| s.len() > 0)
            + b.map_values(|s: Seq<char>| trimmed(s)).filter(|s: Seq<char>| s.len() > 0),
    decreases b.len(),
{
    reveal(Seq::filter);
    let f = |s: Seq<char>| trimmed(s);
    let keep = |s: Seq<char>| s.len() > 0;
    if b.len() == 0 {
        assert(a + b =~= a);
        assert(b.map_values(f) =~= Seq::<Seq<char>>::empty());
        assert(a.map_values(f).filter(keep) + b.map_values(f).filter(keep) =~= a.map_values(
            f,
        ).filter(keep));
    } else {
        items_kept_of_both(a, b.drop_last());
        assert((a + b).map_values(f).drop_last() =~= (a + b.drop_last()).map_values(f));
        assert(b.map_values(f).drop_last() =~= b.drop_last().map_values(f));
        assert((a + b).map_values(f).last() == b.map_values(f).last());
        assert((a + b).map_values(f).filter(keep) =~= a.map_values(f).filter(keep) + b.map_values(
            f,
        ).filter(keep));
    }
}

/// A list has the items before and those behind each comma. What holds no comma is one item,
/// without the white space at its ends, if anything is left of it.
pub proof fn items_lie_between_commas(a: Seq<char>, b: Seq<char>)
    ensures
        items_of(a + seq![','] + b) == items_of(a) + items_of(b),
        !a.contains(',') ==> items_of(a) == if trimmed(a).len() > 0 {
            seq![trimmed(a)]
        } else {
            Seq::empty()
        },
{
    let sep = Separator::Char(',');
    let f = |s: Seq<char>| trimmed(s);
    let keep = |s: Seq<char>| s.len() > 0;
    cutting_at_a_character(a, ',', b);
    items_kept_of_both(pieces(a, sep), pieces(b, sep));
    if !a.contains(',') {
        reveal(Seq::filter);
        let one = seq![a].map_values(f);
        assert(one.drop_last() =~= Seq::<Seq<char>>::empty());
        assert(one.drop_last().filter(keep) =~= Seq::<Seq<char>>::empty());
        assert(one.last() == trimmed(a));
        assert(one.filter(keep) =~= if trimmed(a).len() > 0 {
            seq![trimmed(a)]
        } else {
            Seq::empty()
        });
    }
}

/// The numbers of items are the number of each, in their order. If one spells none, the first such
/// is named.
pub proof fn numbers_are_those_of_the_items(items: Seq<Seq<char>>, max: nat)
    ensures
        match numbers_of(items, max) {
            Ok(values) => values.len() == items.len() && forall|i: int|
                0 <= i < items.len() ==> number_value(#[trigger] items[i], max) == Ok::<
                    nat,
                    NumberError,
                >(values[i]),
            Err((i, e)) => 0 <= i < items.len() && number_value(items[i], max) == Err::<
                nat,
                NumberError,
            >(e) && forall|k: int|
                0 <= k < i ==> number_value(#[trigger] items[k], max) is Ok,
        },
    decreases items.len(),
{
    if items.len() > 0 {
        let front = items.drop_last();
        numbers_are_those_of_the_items(front, max);
        match numbers_of(items, max) {
            Ok(values) => {
                assert forall|i: int| 0 <= i < items.len() implies number_value(
                    #[trigger] items[i],
                    max,
                ) == Ok::<nat, NumberError>(values[i]) by {
                    if i < front.len() {
                        assert(front[i] == items[i]);
                    }
                }
            },
            Err((i, _)) => {
                assert forall|k: int| 0 <= k < i implies number_value(#[trigger] items[k], max)
                    is Ok by {
                    assert(front[k] == items[k]);
                }
                if i < front.len() {
                    assert(front[i] == items[i]);
                }
            },
        }
    }
}

/// A list of sizes is read if and only if it has items and each spells a number that fits, and is
/// then those numbers in their order.
pub proof fn sizes_are_read_one_by_one(list: Seq<char>)
    ensures
        sizes_problem(list) is None <==> items_of(list).len() > 0 && forall|i: int|
            0 <= i < items_of(list).len() ==> number_value(
                #[trigger] items_of(list)[i],
                usize::MAX as nat,
            ) is Ok,
        sizes_problem(list) is None ==> sizes_in(list).len() == items_of(list).len() && forall|
            i: int,
        |
            0 <= i < items_of(list).len() ==> number_value(
                #[trigger] items_of(list)[i],
                usize::MAX as nat,
            ) == Ok::<nat, NumberError>(sizes_in(list)[i] as nat),
{
    let items = items_of(list);
    numbers_are_those_of_the_items(items, usize::MAX as nat);
    if let Ok(values) = numbers_of(items, usize::MAX as nat) {
        assert forall|i: int| 0 <= i < items.len() implies values[i] <= usize::MAX && number_value(
            #[trigger] items[i],
            usize::MAX as nat,
        ) is Ok by {
            reading_goes_digit_by_digit(items[i], 0, usize::MAX as nat);
        }
    } else {
        let (i, _) = numbers_of(items, usize::MAX as nat)->Err_0;
        assert(number_value(items[i], usize::MAX as nat) is Err);
    }
}

/// A list of GPUs is read if and only if it says that all are meant, or has items and each spells a
/// number that fits, and is then those numbers in their order.
pub proof fn gpus_are_read_one_by_one(list: Seq<char>)
    ensures
        gpus_problem("all"@) is None && gpus_in("all"@) is None,
        list != "all"@ ==> (gpus_problem(list) is None <==> items_of(list).len() > 0 && forall|
            i: int,
        |
            0 <= i < items_of(list).len() ==> number_value(
                #[trigger] items_of(list)[i],
                u32::MAX as nat,
            ) is Ok),
        list != "all"@ && gpus_problem(list) is None ==> (gpus_in(list) matches Some(gpus)
            && gpus.len() == items_of(list).len() && forall|i: int|
            0 <= i < items_of(list).len() ==> number_value(
                #[trigger] items_of(list)[i],
                u32::MAX as nat,
            ) == Ok::<nat, NumberError>(gpus[i] as nat)),
{
    let items = items_of(list);
    numbers_are_those_of_the_items(items, u32::MAX as nat);
    if let Ok(values) = numbers_of(items, u32::MAX as nat) {
        assert forall|i: int| 0 <= i < items.len() implies values[i] <= u32::MAX && number_value(
            #[trigger] items[i],
            u32::MAX as nat,
        ) is Ok by {
            reading_goes_digit_by_digit(items[i], 0, u32::MAX as nat);
        }
    } else {
        let (i, _) = numbers_of(items, u32::MAX as nat)->Err_0;
        assert(number_value(items[i], u32::MAX as nat) is Err);
    }
}

/// A model name is left as it is if it has a slash or is a path that exists, and else is that of the
/// default organisation.
pub proof fn only_bare_names_are_completed(model: Seq<char>, exists_as_path: bool)
    ensures
        model.contains('/') || exists_as_path ==> full_model_name(model, exists_as_path) == model,
        !model.contains('/') && !exists_as_path ==> full_model_name(model, exists_as_path)
            == "intfloat/"@ + model,
{
}

/// A model is of the e5 family wherever "e5" stands between hyphens or at an end of its name, and
/// one whose name has no digit five is not. The prefix goes with the family.
pub proof fn e5_models_have_their_prefix(a: Seq<char>, b: Seq<char>, model: Seq<char>)
    requires
        !a.contains('/'),
        !b.contains('/'),
    ensures
        is_e5("e5"@),
        is_e5(a + "-e5"@),
        is_e5("e5-"@ + b),
        is_e5(a + "-e5-"@ + b),
        !model.contains('5') ==> !is_e5(model),
        is_e5(model) ==> default_prefix(model) == "passage: "@,
        !is_e5(model) ==> default_prefix(model) == ""@,
{
    reveal_strlit("e5");
    reveal_strlit("-e5");
    reveal_strlit("e5-");
    reveal_strlit("-e5-");
    let sep = Separator::Char('-');
    let e5 = "e5"@;
    let none = Seq::<char>::empty();
    assert(e5 =~= seq!['e', '5']);
    assert(!e5.contains('-') && !e5.contains('/'));
    cutting_at_a_character(e5, '-', b);
    cutting_at_a_character(a, '-', e5);
    cutting_at_a_character(a + seq!['-'] + e5, '-', b);
    let mid = pieces(e5, sep);
    assert(mid =~= seq![e5]);
    assert(mid[0] == e5);
    name_is_its_last_part(e5);
    let x = a + "-e5"@;
    assert(x =~= a + seq!['-'] + e5);
    assert(!x.contains('/'));
    name_is_its_last_part(x);
    let px = pieces(x, sep);
    assert(px[pieces(a, sep).len() as int] == e5);
    let y = "e5-"@ + b;
    assert(y =~= e5 + seq!['-'] + b);
    let z = a + "-e5-"@ + b;
    assert(z =~= a + seq!['-'] + e5 + seq!['-'] + b);
    assert(!y.contains('/')) by {
        if y.contains('/') {
            let i = choose|i: int| 0 <= i < y.len() && y[i] == '/';
            if i >= 3 {
                assert(b[i - 3] == '/');
            }
        }
    }
    assert(!z.contains('/')) by {
        if z.contains('/') {
            let i = choose|i: int| 0 <= i < z.len() && z[i] == '/';
            if i < a.len() {
                assert(a[i] == '/');
            } else if i >= a.len() + 4 {
                assert(b[i - a.len() - 4] == '/');
            }
        }
    }
    name_is_its_last_part(y);
    name_is_its_last_part(z);
    assert(pieces(y, sep)[0] == e5);
    assert(pieces(z, sep)[pieces(a, sep).len() as int] == e5);
    if !model.contains('5') && is_e5(model) {
        last_part_is_behind_the_last_slash(model);
        let name = last_part(model);
        let i = choose|i: int| 0 <= i < pieces(name, sep).len() && pieces(name, sep)[i] == e5;
        assert(pieces(name, sep)[i][1] == '5');
        piece_is_in_text(name, '-', i, 1);
        let k = choose|k: int| 0 <= k < name.len() && name[k] == '5';
        let (f, t) = choose|f: int, t: int|
            0 <= f <= t <= model.len() && name == #[trigger] model.subrange(f, t) && (f > 0
                ==> model[f - 1] == '/') && (forall|k: int|
                t <= k < model.len() ==> model[k] == '/');
        assert(model[f + k] == '5');
    }
}

proof fn name_is_its_last_part(name: Seq<char>)
    requires
        !name.contains('/'),
    ensures
        last_part(name) == name,
{
    only_the_run_at_the_end_goes(name, '/');
    let bare = without_trailing(name, '/');
    if bare.len() < name.len() {
        assert(name[bare.len() as int] == '/');
    }
    assert(bare =~= name);
    cutting_at_a_character(name, '/', Seq::empty());
}

proof fn piece_is_in_text(s: Seq<char>, c: char, i: int, j: int)
    requires
        0 <= i < pieces(s, Separator::Char(c)).len(),
        0 <= j < pieces(s, Separator::Char(c))[i].len(),
    ensures
        s.contains(pieces(s, Separator::Char(c))[i][j]),
    decreases s.len(),
{
    let sep = Separator::Char(c);
    if s.len() > 0 {
        let front = s.drop_last();
        let before = pieces(front, sep);
        pieces_nonempty(front, sep);
        let x = pieces(s, sep)[i][j];
        if i < before.len() && j < before[i].len() {
            piece_is_in_text(front, c, i, j);
            let k = choose|k: int| 0 <= k < front.len() && front[k] == before[i][j];
            assert(s[k] == x);
        } else {
            assert(s[s.len() - 1] == x);
        }
    }
}

/// A configuration says what the arguments say: every number, switch and text of theirs stands in
/// it unchanged, and what they leave out is the default.
pub proof fn configuration_says_what_the_arguments_say(
    args: EmbedArgs,
    model_exists: bool,
    config: Config,
)
    requires
        configures(args, model_exists, config),
    ensures
        config.truncation == args.truncation,
        config.tokenize_workers == args.tokenize_workers,
        config.int8 == args.int8,
        config.batch_timeout_ms == args.batch_timeout_ms,
        config.dedup_capacity == args.dedup_capacity,
        args.prefix matches Some(prefix) ==> config.prefix@ == prefix@,
        args.prefix is None ==> config.prefix@ == default_prefix(
            full_model_name(args.model@, model_exists),
        ),
        args.buckets is None ==> config.buckets@
            == seq![24usize, 32, 40, 48, 56, 64, 80, 96, 128, 256],
        args.buckets matches Some(list) ==> config.buckets@ == sizes_in(list@),
        args.batch_sizes matches Some(list) ==> config.batch_sizes@ == sizes_in(list@),
        args.engine_cache matches Some(store) ==> (config.engine_cache matches Some(s) && s@
            == store@),
        args.gpus@ == "all"@ ==> config.gpus is None,
        args.gpus@ != "all"@ ==> (config.gpus matches Some(gpus) && Some(gpus@) == gpus_in(
            args.gpus@,
        )),
        model_exists ==> config.model is None && config.model_dir == path_from(args.model@),
        !model_exists ==> (config.model matches Some(model) && (args.model@.contains('/')
            ==> model@ == args.model@)) && config.model_dir == path_from(args.cache_dir@),
        config.lowercase,
        config.min_chars == 10,
{
}

/// What is said of a run that lost messages begins with their number.
pub proof fn loss_is_told_in_full(lost: u64)
    ensures
        lost_messages(lost) == decimal(lost as nat)
            + " messages lost to inference failures (output is partial)"@,
{
}

/// A model is of the e5 family if and only if one of the parts of its name between hyphens is "e5":
/// what stands before the last slash, and slashes at the end, do not count.
pub proof fn family_is_a_part_of_the_name(dir: Seq<char>, a: Seq<char>, b: Seq<char>)
    requires
        !a.contains('/'),
        !b.contains('/'),
    ensures
        is_e5(a + seq!['-'] + b) <==> is_e5(a) || is_e5(b),
        !a.contains('-') ==> (is_e5(a) <==> a == "e5"@),
        a.len() > 0 ==> is_e5(dir + seq!['/'] + a) == is_e5(a),
        is_e5(a + seq!['/']) == is_e5(a),
{
    let sep = Separator::Char('-');
    let whole = a + seq!['-'] + b;
    assert(!whole.contains('/')) by {
        if whole.contains('/') {
            let i = choose|i: int| 0 <= i < whole.len() && whole[i] == '/';
            if i < a.len() {
                assert(a[i] == '/');
            } else {
                assert(i != a.len());
                assert(b[i - a.len() - 1] == '/');
            }
        }
    }
    name_is_its_last_part(whole);
    name_is_its_last_part(a);
    name_is_its_last_part(b);
    cutting_at_a_character(a, '-', b);
    let (pa, pb) = (pieces(a, sep), pieces(b, sep));
    let e5 = "e5"@;
    assert((pa + pb).contains(e5) <==> pa.contains(e5) || pb.contains(e5)) by {
        if pa.contains(e5) {
            let i = choose|i: int| 0 <= i < pa.len() && pa[i] == e5;
            assert((pa + pb)[i] == e5);
        }
        if pb.contains(e5) {
            let i = choose|i: int| 0 <= i < pb.len() && pb[i] == e5;
            assert((pa + pb)[pa.len() + i] == e5);
        }
        if (pa + pb).contains(e5) {
            let i = choose|i: int| 0 <= i < (pa + pb).len() && (pa + pb)[i] == e5;
            if i < pa.len() {
                assert(pa[i] == e5);
            } else {
                assert(pb[i - pa.len()] == e5);
            }
        }
    }
    if !a.contains('-') {
        assert(pa =~= seq![a]);
        assert(pa[0] == a);
    }
    let slashed = a + seq!['/'];
    assert(slashed.drop_last() =~= a);
    assert(slashed.last() == '/');
    assert(last_part(slashed) == last_part(a));
    if a.len() > 0 {
        let path = dir + seq!['/'] + a;
        assert(path.last() == a.last());
        assert(a.last() != '/') by {
            assert(a[a.len() - 1] == a.last());
        }
        assert(without_trailing(path, '/') == path);
        cutting_at_a_character(dir, '/', a);
        cutting_at_a_character(a, '/', b);
        assert(pieces(a, Separator::Char('/')) =~= seq![a]);
        assert(last_part(path) == a);
    }
}

/// Bucket lengths and batch sizes can be given if both lists, where they are given, are readable,
/// and are of the same length where both are. The first list that is not readable is told.
pub proof fn given_sizes_must_match(buckets: Option<String>, batch_sizes: Option<String>)
    ensures
        overrides_problem(buckets, batch_sizes) is None <==> {
            &&& buckets matches Some(list) ==> sizes_problem(list@) is None
            &&& batch_sizes matches Some(list) ==> sizes_problem(list@) is None
            &&& buckets is Some && batch_sizes is Some ==> sizes_in(buckets.unwrap()@).len()
                == sizes_in(batch_sizes.unwrap()@).len()
        },
        buckets matches Some(list) ==> (sizes_problem(list@) is Some ==> overrides_problem(
            buckets,
            batch_sizes,
        ) == sizes_problem(list@)),
        buckets is None ==> (batch_sizes matches Some(list) ==> overrides_problem(
            buckets,
            batch_sizes,
        ) == sizes_problem(list@)),
        buckets is Some && batch_sizes is Some && sizes_problem(buckets.unwrap()@) is None
            && sizes_problem(batch_sizes.unwrap()@) is None && sizes_in(buckets.unwrap()@).len()
            != sizes_in(batch_sizes.unwrap()@).len() ==> overrides_problem(buckets, batch_sizes)
            == Some(
            "--buckets/--batch-sizes length mismatch: "@ + decimal(
                sizes_in(buckets.unwrap()@).len(),
            ) + " vs "@ + decimal(sizes_in(batch_sizes.unwrap()@).len()),
        ),
{
}

/// Arguments are refused only for the sizes or the GPUs that they give.
pub proof fn arguments_are_refused_for_sizes_or_gpus(args: EmbedArgs)
    ensures
        args_problem(args) is None <==> overrides_problem(args.buckets, args.batch_sizes) is None
            && gpus_problem(args.gpus@) is None,
        overrides_problem(args.buckets, args.batch_sizes) is None ==> args_problem(args)
            == gpus_problem(args.gpus@),
        overrides_problem(args.buckets, args.batch_sizes) is Some ==> args_problem(args)
            == overrides_problem(args.buckets, args.batch_sizes),
{
}

/// What is said of a list that is refused names what is wrong with it.
pub proof fn refusals_say_why(list: Seq<char>, i: int)
    ensures
        items_of(list).len() == 0 ==> sizes_problem(list) == Some("empty comma-separated list"@),
        items_of(list).len() == 0 && list != "all"@ ==> gpus_problem(list) == Some(
            "--gpus requires at least one GPU id or \"all\""@,
        ),
        0 <= i < items_of(list).len() && (forall|k: int|
            0 <= k < i ==> number_value(#[trigger] items_of(list)[k], usize::MAX as nat) is Ok) ==> (
        number_value(items_of(list)[i], usize::MAX as nat) matches Err(e) ==> sizes_problem(list)
            == Some(e.text())),
        list != "all"@ && 0 <= i < items_of(list).len() && (forall|k: int|
            0 <= k < i ==> number_value(#[trigger] items_of(list)[k], u32::MAX as nat) is Ok)
            && number_value(items_of(list)[i], u32::MAX as nat) is Err ==> gpus_problem(list)
            == Some("invalid GPU id: "@ + quoted(items_of(list)[i])),
        format_problem(list) == "invalid format "@ + quoted(list)
            + " (expected \"jsonl\" or \"plain\")"@,
{
    let items = items_of(list);
    numbers_are_those_of_the_items(items, usize::MAX as nat);
    numbers_are_those_of_the_items(items, u32::MAX as nat);
    if 0 <= i < items.len() {
        if let Err((k, _)) = numbers_of(items, usize::MAX as nat) {
            assert(number_value(items[k], usize::MAX as nat) is Err);
        }
        if let Err((k, _)) = numbers_of(items, u32::MAX as nat) {
            assert(number_value(items[k], u32::MAX as nat) is Err);
        }
    }
}

/// What is not given is as it is by default.
pub proof fn omitted_sizes_are_the_default(args: EmbedArgs, model_exists: bool, config: Config)
    requires
        configures(args, model_exists, config),
    ensures
        args.batch_sizes is None ==> config.batch_sizes@
            == seq![4096usize, 4096, 3072, 2048, 2048, 2048, 1536, 1536, 1024, 512],
        args.engine_cache is None ==> config.engine_cache is None,
        config.telemetry,
        !model_exists && !args.model@.contains('/') ==> (config.model matches Some(model) && model@
            == "intfloat/"@ + args.model@),
{
}

}
