//! The benchmark: what it reads, and what it counts after the warm-up.

use std::path::PathBuf;

use vstd::prelude::*;

use crate::config::{Config, Message};
use crate::embed::{
    gpus_view, items_lie_between_commas, items_of, list_items, override_sizes, overrides_problem,
    sizes_or,
};
use crate::input::{str_view, InputFormat};
use crate::json::{json_value, member_text, parse_json, text_at};
use crate::number::{
    decimal, decimal_is_digits, decimal_reads_back, number_value, parse_number, to_decimal,
    NumberError,
};
use crate::text::{
    is_white, same_text, texts, trim, trimmed, trimming_takes_only_white_space,
};

verus! {

/// The arguments of the benchmark.
pub struct BenchArgs {
    pub model_dir: PathBuf,
    pub model: Option<String>,
    pub gpus: String,
    pub truncation: usize,
    pub tokenize_workers: usize,
    pub int8: bool,
    pub buckets: Option<String>,
    pub batch_sizes: Option<String>,
    pub batch_timeout_ms: u64,
    pub dedup_capacity: usize,
}

/// The numbers that items spell, without the items that spell none.
pub open spec fn good_numbers(items: Seq<Seq<char>>, max: nat) -> Seq<nat>
    decreases items.len(),
{
    if items.len() == 0 {
        Seq::empty()
    } else {
        let before = good_numbers(items.drop_last(), max);
        match number_value(items.last(), max) {
            Ok(n) => before.push(n),
            Err(_) => before,
        }
    }
}

/// The GPU IDs in a list, without what is no ID, or none if it says that all are meant.
pub open spec fn good_gpus(list: Seq<char>) -> Option<Seq<u32>> {
    if list == "all"@ {
        None
    } else {
        Some(good_numbers(items_of(list), u32::MAX as nat).map_values(|v: nat| v as u32))
    }
}

/// Reads a comma-separated list of GPU IDs, or "all". What is no ID is passed over.
pub fn parse_gpus(spec: &str) -> (r: Option<Vec<u32>>)
    ensures
        gpus_view(r) == good_gpus(spec@),
{
    if same_text(spec, "all") {
        return None;
    }
    let items = list_items(spec);
    let ghost all = texts(items@);
    let mut gpus: Vec<u32> = Vec::new();
    assert(all.take(0) == Seq::<Seq<char>>::empty());
    assert(gpus@ == good_numbers(all.take(0), u32::MAX as nat).map_values(|v: nat| v as u32));
    for i in 0..items.len()
        invariant
            all == texts(items@),
            gpus@ == good_numbers(all.take(i as int), u32::MAX as nat).map_values(
                |v: nat| v as u32,
            ),
    {
        let ghost before = good_numbers(all.take(i as int), u32::MAX as nat);
        proof {
            assert(all.take(i + 1).drop_last() == all.take(i as int));
            assert(all.take(i + 1).last() == items@[i as int]@);
        }
        if let Ok(n) = parse_number(items[i].as_str(), u32::MAX as u64) {
            gpus.push(n as u32);
            assert(before.push(n as nat).map_values(|v: nat| v as u32) == before.map_values(
                |v: nat| v as u32,
            ).push(n as u32));
        }
    }
    assert(all.take(all.len() as int) == all);
    Some(gpus)
}

/// Makes the configuration that the arguments ask for.
pub fn build_config(args: BenchArgs) -> (r: Result<Config, String>)
    ensures
        match r {
            Ok(config) => {
                &&& overrides_problem(args.buckets, args.batch_sizes) is None
                &&& config.model == args.model
                &&& config.model_dir == args.model_dir
                &&& config.engine_cache is None
                &&& gpus_view(config.gpus) == good_gpus(args.gpus@)
                &&& config.buckets@ == sizes_or(
                    args.buckets,
                    seq![24usize, 32, 40, 48, 56, 64, 80, 96, 128, 256],
                )
                &&& config.batch_sizes@ == sizes_or(
                    args.batch_sizes,
                    seq![4096usize, 4096, 3072, 2048, 2048, 2048, 1536, 1536, 1024, 512],
                )
                &&& config.tokenize_workers == args.tokenize_workers
                &&& config.truncation == args.truncation
                &&& config.lowercase
                &&& config.min_chars == 10
                &&& config.prefix@ == "passage: "@
                &&& config.int8 == args.int8
                &&& config.telemetry
                &&& config.batch_timeout_ms == args.batch_timeout_ms
                &&& config.dedup_capacity == args.dedup_capacity
            },
            Err(msg) => overrides_problem(args.buckets, args.batch_sizes) == Some(msg@),
        },
{
    let mut config = Config::default();
    match override_sizes(&mut config, &args.buckets, &args.batch_sizes) {
        Ok(()) => {},
        Err(msg) => {
            return Err(msg);
        },
    }
    config.model = args.model;
    config.model_dir = args.model_dir;
    config.gpus = parse_gpus(args.gpus.as_str());
    config.truncation = args.truncation;
    config.tokenize_workers = args.tokenize_workers;
    config.int8 = args.int8;
    config.batch_timeout_ms = args.batch_timeout_ms;
    config.dedup_capacity = args.dedup_capacity;
    Ok(config)
}

/// Whether a file with the given extension, if it has one, is read through a Zstandard decoder.
pub fn is_compressed(extension: Option<&str>) -> (r: bool)
    ensures
        r == match extension {
            Some(extension) => extension@ == "zst"@,
            None => false,
        },
{
    match extension {
        Some(extension) => same_text(extension, "zst"),
        None => false,
    }
}

/// How many threads read the given number of files: one for each, but not fewer than four and not
/// more than thirty-two.
pub fn reader_count(n_files: usize) -> (r: usize)
    ensures
        r == (if n_files < 4 {
            4
        } else if n_files > 32 {
            32
        } else {
            n_files as int
        }),
{
    if n_files < 4 {
        4
    } else if n_files > 32 {
        32
    } else {
        n_files
    }
}

/// Whether enough messages were read. A limit of zero is none.
pub fn limit_reached(read: u64, max_messages: u64) -> (r: bool)
    ensures
        r == (if max_messages == 0 {
            read == u64::MAX
        } else {
            read >= max_messages
        }),
{
    if max_messages == 0 {
        read == u64::MAX
    } else {
        read >= max_messages
    }
}

/// The text of a line: the line itself or the text of its JSON object, trimmed, if it is not empty
/// then.
pub open spec fn bench_text(format: InputFormat, line: Seq<char>, json: Option<Seq<char>>) -> Option<
    Seq<char>,
> {
    let text = match format {
        InputFormat::Plain => Some(line),
        InputFormat::Jsonl => json,
    };
    match text {
        Some(text) => if trimmed(text).len() == 0 {
            None
        } else {
            Some(trimmed(text))
        },
        None => None,
    }
}

/// The text of the JSON object in a line.
pub open spec fn json_text_in(line: Seq<char>) -> Option<Seq<char>> {
    match json_value(line) {
        Some(value) => member_text(value, "text"@),
        None => None,
    }
}

/// The message that a text makes, if there is one, and the number of messages then.
pub open spec fn numbered_message(
    n: nat,
    text: Option<Seq<char>>,
    r: Option<Message>,
    after: nat,
) -> bool {
    match text {
        Some(text) => {
            &&& r matches Some(msg) && msg.text@ == text && msg.id@ == decimal(n + 1)
            &&& after == n + 1
        },
        None => r is None && after == n,
    }
}

/// Makes messages of lines, numbered from one on.
pub struct BenchReader {
    n: u64,
}

impl BenchReader {
    /// How many messages were made.
    pub closed spec fn count(self) -> nat {
        self.n as nat
    }

    /// A reader that has made no message.
    pub fn new() -> (r: Self)
        ensures
            r.count() == 0,
    {
        BenchReader { n: 0 }
    }

    /// Makes a message of a line, if it has a text. `json` is the text of the JSON object in it.
    pub fn take_line(&mut self, format: InputFormat, line: &str, json: Option<&str>) -> (r: Option<
        Message,
    >)
        requires
            old(self).count() < u64::MAX,
        ensures
            numbered_message(
                old(self).count(),
                bench_text(format, line@, str_view(json)),
                r,
                final(self).count(),
            ),
    {
        let found = match format {
            InputFormat::Plain => line,
            InputFormat::Jsonl => match json {
                Some(text) => text,
                None => {
                    return None;
                },
            },
        };
        let text = trim(found);
        if text.as_str().is_empty() {
            return None;
        }
        self.n += 1;
        Some(Message { id: to_decimal(self.n), text })
    }

    /// Makes a message of a line, if it has a text.
    pub fn read_line(&mut self, format: InputFormat, line: &str) -> (r: Option<Message>)
        requires
            old(self).count() < u64::MAX,
        ensures
            numbered_message(
                old(self).count(),
                bench_text(format, line@, json_text_in(line@)),
                r,
                final(self).count(),
            ),
    {
        match format {
            InputFormat::Plain => self.take_line(format, line, None),
            InputFormat::Jsonl => match parse_json(line) {
                Some(value) => self.take_line(format, line, text_at(&value, "text")),
                None => self.take_line(format, line, None),
            },
        }
    }
}

/// What a [`Warmup`] has counted: all messages, and those since the measurement began, if it has.
pub struct WarmupView {
    pub total: nat,
    pub measured: Option<nat>,
}

/// Counts messages, and from the end of the warm-up on measures them.
pub struct Warmup {
    warmup: u64,
    total: u64,
    measured: u64,
    started: bool,
}

impl View for Warmup {
    type V = WarmupView;

    closed spec fn view(&self) -> WarmupView {
        WarmupView {
            total: self.total as nat,
            measured: if self.started {
                Some(self.measured as nat)
            } else {
                None
            },
        }
    }
}

impl Warmup {
    /// How many messages the warm-up takes.
    pub closed spec fn length(self) -> u64 {
        self.warmup
    }

    /// No more was measured than counted.
    pub closed spec fn valid(self) -> bool {
        self.measured <= self.total
    }

    /// Nothing counted yet.
    pub fn new(warmup: u64) -> (r: Self)
        ensures
            r.valid(),
            r.length() == warmup,
            r@ == (WarmupView { total: 0, measured: None }),
    {
        Warmup { warmup, total: 0, measured: 0, started: false }
    }

    /// Counts the messages of a batch. Returns whether the warm-up ended with it. The batch that
    /// ends it is measured.
    pub fn count(&mut self, n_rows: u64) -> (r: bool)
        requires
            old(self).valid(),
            old(self)@.total + n_rows <= u64::MAX,
        ensures
            final(self).valid(),
            final(self).length() == old(self).length(),
            final(self)@.total == old(self)@.total + n_rows,
            r == (old(self)@.measured is None && old(self)@.total + n_rows >= old(self).length()),
            final(self)@.measured == match old(self)@.measured {
                Some(m) => Some((m + n_rows) as nat),
                None => if r {
                    Some(n_rows as nat)
                } else {
                    None
                },
            },
    {
        self.total += n_rows;
        let ends = !self.started && self.total >= self.warmup;
        if ends {
            self.started = true;
            self.measured = 0;
        }
        if self.started {
            self.measured += n_rows;
        }
        ends
    }

    /// How many messages were counted, discarded as warm-up, and measured.
    pub fn totals(&self) -> (r: (u64, u64, u64))
        ensures
            r.0 == self@.total,
            r.1 == (if self.length() < self@.total {
                self.length() as nat
            } else {
                self@.total
            }),
            r.2 == match self@.measured {
                Some(m) => m,
                None => 0,
            },
    {
        let discarded: u64 = if self.warmup < self.total {
            self.warmup
        } else {
            self.total
        };
        let measured: u64 = if self.started {
            self.measured
        } else {
            0
        };
        (self.total, discarded, measured)
    }
}

// Laws.

/// Items count each by itself and in their order: one that spells a number gives that number, and
/// any other gives none.
pub proof fn good_numbers_are_kept_in_order(
    before: Seq<Seq<char>>,
    item: Seq<char>,
    n: nat,
    max: nat,
    behind: Seq<Seq<char>>,
)
    requires
        n <= max,
    ensures
        number_value(item, max) is Err ==> good_numbers(before + seq![item] + behind, max)
            == good_numbers(before + behind, max),
        good_numbers(before + seq![decimal(n)] + behind, max) == good_numbers(before, max).push(n)
            + good_numbers(behind, max),
        good_numbers(Seq::empty(), max) == Seq::<nat>::empty(),
{
    decimal_reads_back(n, max);
    good_numbers_of_parts(before, behind, max);
    assert(before.push(item).drop_last() =~= before);
    assert(before.push(decimal(n)).drop_last() =~= before);
    assert(before + seq![item] =~= before.push(item));
    assert(before + seq![decimal(n)] =~= before.push(decimal(n)));
    good_numbers_of_parts(before.push(item), behind, max);
    good_numbers_of_parts(before.push(decimal(n)), behind, max);
}

proof fn good_numbers_of_parts(a: Seq<Seq<char>>, b: Seq<Seq<char>>, max: nat)
    ensures
        good_numbers(a + b, max) == good_numbers(a, max) + good_numbers(b, max),
    decreases b.len(),
{
    if b.len() == 0 {
        assert(a + b =~= a);
        assert(good_numbers(a, max) + good_numbers(b, max) =~= good_numbers(a, max));
    } else {
        good_numbers_of_parts(a, b.drop_last(), max);
        assert((a + b).drop_last() =~= a + b.drop_last());
        assert((a + b).last() == b.last());
        assert(good_numbers(a + b, max) =~= good_numbers(a, max) + good_numbers(b, max));
    }
}

/// "all" means all GPUs, and no other list does. Any other list is read item by item between its
/// commas, and a GPU ID with nothing but white space around it is one of the GPUs.
pub proof fn listed_gpus_are_used(list: Seq<char>, item: Seq<char>, behind: Seq<char>, id: u32)
    requires
        trimmed(item) == decimal(id as nat),
        !item.contains(','),
        !(item + seq![','] + behind == "all"@),
        !(behind == "all"@),
    ensures
        good_gpus(list) is None <==> list == seq!['a', 'l', 'l'],
        good_gpus(item) == Some(seq![id]),
        good_gpus(item + seq![','] + behind) == Some(seq![id] + good_gpus(behind)->Some_0),
{
    reveal_strlit("all");
    assert("all"@ =~= seq!['a', 'l', 'l']);
    let max = u32::MAX as nat;
    let f = |v: nat| v as u32;
    let (one, rest) = (items_of(item), items_of(behind));
    items_lie_between_commas(item, behind);
    decimal_is_digits(id as nat);
    decimal_reads_back(id as nat, max);
    assert(one =~= seq![decimal(id as nat)]);
    assert(one.drop_last() =~= Seq::<Seq<char>>::empty());
    assert(good_numbers(one.drop_last(), max) =~= Seq::<nat>::empty());
    assert(good_numbers(one, max) =~= seq![id as nat]);
    assert(good_numbers(one, max).map_values(f) =~= seq![id]);
    good_numbers_of_parts(one, rest, max);
    assert(good_numbers(one + rest, max).map_values(f) =~= seq![id] + good_numbers(
        rest,
        max,
    ).map_values(f));
    if item == "all"@ {
        trimming_takes_only_white_space(item);
        let (i, j) = choose|i: int, j: int|
            0 <= i <= j <= item.len() && trimmed(item) == #[trigger] item.subrange(i, j) && (forall|
                k: int,
            |
                0 <= k < i || j <= k < item.len() ==> is_white(#[trigger] item[k]));
        assert(decimal(id as nat)[0] == item[i]);
        assert('0' <= decimal(id as nat)[0] <= '9');
    }
}

/// A message has the whole text of its line but for white space around it, and lines of white space
/// make none. The messages are numbered from one on, by the lines that made one.
pub proof fn message_has_the_text_of_its_line(
    before: Seq<char>,
    text: Seq<char>,
    behind: Seq<char>,
    line: Seq<char>,
    json: Option<Seq<char>>,
    n: nat,
    r: Option<Message>,
    after: nat,
)
    requires
        text.len() > 0 && !is_white(text[0]) && !is_white(text.last()),
        forall|i: int| 0 <= i < before.len() ==> is_white(#[trigger] before[i]),
        forall|i: int| 0 <= i < behind.len() ==> is_white(#[trigger] behind[i]),
    ensures
        bench_text(InputFormat::Plain, before + text + behind, json) == Some(text),
        bench_text(InputFormat::Jsonl, line, Some(before + text + behind)) == Some(text),
        bench_text(InputFormat::Plain, before, json) is None,
        bench_text(InputFormat::Jsonl, line, Some(before)) is None,
        bench_text(InputFormat::Jsonl, line, None) is None,
        numbered_message(n, Some(text), r, after) <==> after == n + 1 && r is Some
            && r->Some_0.text@ == text && number_value(r->Some_0.id@, after) == Ok::<
            nat,
            NumberError,
        >(after) && r->Some_0.id@ == decimal(after),
        numbered_message(n, None, r, after) <==> after == n && r is None,
{
    let s = before + text + behind;
    trimming_takes_only_white_space(s);
    trimming_takes_only_white_space(before);
    let (i, j) = choose|i: int, j: int|
        0 <= i <= j <= s.len() && trimmed(s) == #[trigger] s.subrange(i, j) && (forall|k: int|
            0 <= k < i || j <= k < s.len() ==> is_white(#[trigger] s[k]));
    let (first, last) = (before.len() as int, before.len() + text.len() - 1);
    assert(s[first] == text[0] && s[last] == text.last());
    assert(i <= first && last < j);
    assert(trimmed(s)[0] == s[i] && trimmed(s).last() == s[j - 1]);
    assert(i == first) by {
        if i < first {
            assert(is_white(before[i]));
        }
    }
    assert(j == last + 1) by {
        if j > last + 1 {
            assert(s[j - 1] == behind[j - 1 - (last + 1)]);
        }
    }
    assert(trimmed(s) =~= text);
    if trimmed(before).len() > 0 {
        let (i, j) = choose|i: int, j: int|
            0 <= i <= j <= before.len() && trimmed(before) == #[trigger] before.subrange(i, j) && (
            forall|k: int|
                0 <= k < i || j <= k < before.len() ==> is_white(#[trigger] before[k]));
        assert(trimmed(before)[0] == before[i]);
    }
    decimal_reads_back(n + 1, n + 1);
}

/// The text of a line of JSON is that of its member "text", and there is none in anything else.
pub proof fn json_text_is_that_of_its_member(line: Seq<char>)
    ensures
        json_text_in(line) is Some <==> (json_value(line) matches Some(value) && member_text(
            value,
            "text"@,
        ) is Some),
        json_value(line) matches Some(value) ==> json_text_in(line) == member_text(value, "text"@),
{
}

/// An item of a list that is no GPU ID is passed over, and changes nothing of the others.
pub proof fn other_items_are_passed_over(before: Seq<char>, item: Seq<char>, behind: Seq<char>)
    requires
        !item.contains(','),
        number_value(trimmed(item), u32::MAX as nat) is Err,
        before + seq![','] + item + seq![','] + behind != "all"@,
        before + seq![','] + behind != "all"@,
    ensures
        good_gpus(before + seq![','] + item + seq![','] + behind) == good_gpus(
            before + seq![','] + behind,
        ),
{
    let max = u32::MAX as nat;
    let (a, b) = (items_of(before), items_of(behind));
    let one = items_of(item);
    items_lie_between_commas(before, item);
    items_lie_between_commas(before + seq![','] + item, behind);
    items_lie_between_commas(item, behind);
    items_lie_between_commas(before, behind);
    good_numbers_of_parts(a + one, b, max);
    good_numbers_of_parts(a, one, max);
    good_numbers_of_parts(a, b, max);
    assert(good_numbers(one, max) =~= Seq::<nat>::empty()) by {
        if one.len() > 0 {
            assert(one =~= seq![trimmed(item)]);
            assert(one.drop_last() =~= Seq::<Seq<char>>::empty());
            assert(good_numbers(one.drop_last(), max) =~= Seq::<nat>::empty());
            assert(number_value(one.last(), max) is Err);
        }
    }
    assert(good_numbers(a, max) + Seq::<nat>::empty() =~= good_numbers(a, max));
}

}
