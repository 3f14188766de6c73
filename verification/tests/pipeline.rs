use std::str::FromStr;
use std::sync::Arc;

use ignite_ms::assembler::{BatchEvent, ReadyBatch};
use ignite_ms::bucket::Batch;
use ignite_ms::cache::VocabCache;
use ignite_ms::collector::Collector;
use ignite_ms::dedup::{fnv1a, EmbedCacheInner};
use ignite_ms::delivery::{complete, deliver, remember};
use ignite_ms::engine::Engine;
use ignite_ms::reorder::ReorderBuffer;
use ignite_ms::report::{summarize, RunCounters};
use ignite_ms::stats::GpuWorkerStats;
use ignite_ms::worker::{Routed, TokenizerWorker, REPORT_EVERY};
use ignite_ms::{Config, EmbedStats, EmbeddingBatch, Message};
use tokenizers::Tokenizer;

fn engine(dedup_capacity: usize) -> Engine {
    let json = r#"{"version":"1.0","truncation":null,"padding":null,"added_tokens":[],"normalizer":null,"pre_tokenizer":null,"post_processor":null,"decoder":null,"model":{"type":"WordLevel","vocab":{"<s>":10,"</s>":12,"<unk>":3},"unk_token":"<unk>"}}"#;
    let config = Config {
        buckets: vec![4, 8],
        batch_sizes: vec![2, 2],
        dedup_capacity,
        ..Default::default()
    };
    let tokenizer = Tokenizer::from_str(json).unwrap();
    let engine = Engine::new(config, 3, Vec::new(), tokenizer, Arc::new(VocabCache::new()));
    engine.ok().unwrap().unwrap()
}

fn message(id: &str, text: &str) -> Message {
    Message { id: id.to_string(), text: text.to_string() }
}

#[test]
fn hash_is_fnv1a() {
    assert_eq!(fnv1a(""), 0xcbf29ce484222325);
    assert_eq!(fnv1a("a"), 0xaf63dc4c8601ec8c);
    assert_eq!(fnv1a("foobar"), 0x85944171f73967e8);
}

#[test]
fn stored_embedding_is_found_until_overwritten() {
    let mut cache = EmbedCacheInner::new(4, 2, 0.0f32);
    let mut out = vec![9.0f32; 2];
    assert!(!cache.get(5, &mut out));
    assert_eq!(out, vec![9.0, 9.0]);
    cache.insert(5, &[1.0, 2.0]);
    assert!(cache.get(5, &mut out));
    assert_eq!(out, vec![1.0, 2.0]);
    assert_eq!(cache.occupancy(), 1);
    cache.insert(9, &[3.0, 4.0]);
    assert!(!cache.get(5, &mut out));
    assert!(cache.get(9, &mut out));
    assert_eq!(out, vec![3.0, 4.0]);
    cache.insert(6, &[5.0, 6.0]);
    assert_eq!(cache.occupancy(), 2);
}

#[test]
fn hash_zero_is_never_stored() {
    let mut cache = EmbedCacheInner::new(4, 1, 0u8);
    let mut out = vec![7u8];
    cache.insert(0, &[1]);
    assert!(!cache.get(0, &mut out));
    assert_eq!(cache.occupancy(), 0);
}

#[test]
fn engine_says_what_it_is_made_of() {
    let e = engine(0);
    assert_eq!(e.hidden_dim(), 3);
    assert_eq!(e.vocab_cache_size(), 0);
    assert_eq!(e.config().buckets, vec![4, 8]);
    assert!(e.dedup_cache(0.0f32).is_none());
    assert_eq!(engine(5).dedup_cache(0.0f32).unwrap().occupancy(), 0);
}

#[test]
fn short_text_is_skipped() {
    let mut w: TokenizerWorker<f32> = engine(0).worker(0.0);
    match w.route(message("m1", "short"), None) {
        Ok(Routed::Skipped(b)) => {
            assert_eq!(b.ids, vec!["m1"]);
            assert_eq!(b.n_rows, 0);
            assert_eq!(b.hidden_dim, 3);
            assert!(b.embeddings.is_empty());
            assert!(!b.inference_failed);
        }
        _ => panic!(),
    }
    assert_eq!(w.totals().misses, 0);
}

#[test]
fn text_is_tokenized_for_its_bucket() {
    let mut w: TokenizerWorker<f32> = engine(0).worker(0.0);
    match w.route(message("m1", "Some words HERE"), None) {
        Ok(Routed::Bucket(bucket, item)) => {
            // "passage: some words here" has four words.
            assert_eq!(item.tokens.ids, vec![10, 3, 3, 3, 3, 12]);
            assert_eq!(bucket, 1);
            assert_eq!(item.id, "m1");
            assert_eq!(item.hash, fnv1a("passage: some words here"));
        }
        _ => panic!(),
    }
    match w.route_text("m2".to_string(), Some("one two".to_string()), None) {
        Ok(Routed::Bucket(bucket, item)) => {
            assert_eq!(bucket, 0);
            assert_eq!(item.tokens.len, 4);
            assert_eq!(item.hash, fnv1a("one two"));
        }
        _ => panic!(),
    }
    assert!(matches!(w.route_text("m3".to_string(), None, None), Ok(Routed::Skipped(_))));
    let t = w.totals();
    assert_eq!((t.hits, t.misses, t.runtime_hits, t.runtime_size), (0, 6, 0, 6));
    assert_eq!((t.unreported_hits, t.unreported_misses), (0, 6));
}

#[test]
fn known_embedding_is_reused() {
    let e = engine(64);
    let mut w: TokenizerWorker<f32> = e.worker(0.0);
    let mut cache = e.dedup_cache(0.0f32).unwrap();
    let hash = match w.route(message("a", "some longer text"), Some(&cache)) {
        Ok(Routed::Bucket(_, item)) => item.hash,
        _ => panic!(),
    };
    remember(&mut cache, &vec![hash], &[1.0, 2.0, 3.0], 3);
    match w.route(message("b", "Some  LONGER text"), Some(&cache)) {
        Ok(Routed::Reused(b)) => {
            assert_eq!(b.ids, vec!["b"]);
            assert_eq!(b.n_rows, 1);
            assert_eq!(b.embedding(0), &[1.0, 2.0, 3.0]);
        }
        _ => panic!(),
    }
}

#[test]
fn counters_are_reported_every_so_often() {
    let mut w: TokenizerWorker<f32> = engine(0).worker(0.0);
    for _ in 0..REPORT_EVERY - 1 {
        let _ = w.route_text("x".to_string(), Some("word".to_string()), None);
        assert!(w.queued().is_none());
    }
    let _ = w.route_text("x".to_string(), Some("word".to_string()), None);
    assert_eq!(w.queued(), Some((REPORT_EVERY as u64 - 1, 1)));
    let _ = w.route_text("x".to_string(), Some("word".to_string()), None);
    assert!(w.queued().is_none());
    let t = w.totals();
    assert_eq!((t.unreported_hits, t.unreported_misses), (1, 0));
    assert_eq!((t.hits, t.misses), (REPORT_EVERY as u64, 1));
}

fn ready(ids: &[&str], hashes: &[u64]) -> ReadyBatch {
    ReadyBatch {
        batch: Batch {
            bucket_idx: 0,
            bucket_len: 1,
            input_ids: vec![0; 4],
            attention_mask: vec![0; 4],
            n_real: ids.len(),
        },
        ids: ids.iter().map(|s| s.to_string()).collect(),
        hashes: hashes.to_vec(),
    }
}

#[test]
fn outputs_are_delivered_row_by_row() {
    let output = [1.0f32, 2.0, 3.0, 4.0, 5.0, 6.0];
    let b = deliver(ready(&["x", "y"], &[1, 2]), Some(&output), 2);
    assert_eq!(b.n_rows, 2);
    assert_eq!(b.embeddings, vec![1.0, 2.0, 3.0, 4.0]);
    assert_eq!(b.embedding(1), &[3.0, 4.0]);
    assert!(!b.inference_failed);
    let none: Option<&[f32]> = None;
    let b = deliver(ready(&["x", "y"], &[1, 2]), none, 2);
    assert_eq!(b.ids, vec!["x", "y"]);
    assert_eq!(b.n_rows, 0);
    assert!(b.inference_failed);
}

#[test]
fn batch_is_remembered() {
    let mut cache = EmbedCacheInner::new(8, 2, 0u8);
    remember(&mut cache, &vec![1, 9, 0, 3], &[1, 1, 2, 2, 3, 3, 4, 4], 2);
    let mut out = vec![0u8; 2];
    assert!(!cache.get(1, &mut out));
    assert!(cache.get(9, &mut out));
    assert_eq!(out, vec![2, 2]);
    assert!(cache.get(3, &mut out));
    assert_eq!(out, vec![4, 4]);
    assert_eq!(cache.occupancy(), 2);
}

#[test]
fn finished_batch_is_counted_remembered_and_delivered() {
    let mut stats = GpuWorkerStats::new(1);
    let mut dedup = Some(EmbedCacheInner::new(8, 1, 0u8));
    let batch = ready(&["x", "y"], &[3, 4]);
    let b = complete(&mut stats, &mut dedup, batch, Some(&[7, 8, 9]), 4, 50, 1);
    assert_eq!(b.embeddings, vec![7, 8]);
    assert_eq!((stats.batches, stats.total_rows, stats.total_capacity), (1, 2, 4));
    assert_eq!(stats.latencies_us, vec![50]);
    let mut out = vec![0u8];
    assert!(dedup.as_ref().unwrap().get(4, &mut out));
    assert_eq!(out, vec![8]);
    let b = complete(&mut stats, &mut dedup, ready(&["z"], &[5]), None, 4, 60, 1);
    assert!(b.inference_failed);
    assert_eq!(b.ids, vec!["z"]);
    assert_eq!(dedup.as_ref().unwrap().occupancy(), 2);
    let mut none: Option<EmbedCacheInner<u8>> = None;
    let b = complete(&mut stats, &mut none, ready(&["w"], &[6]), Some(&[1]), 4, 70, 1);
    assert_eq!(b.embedding(0), &[1]);
    assert!(none.is_none());
    assert_eq!(stats.per_bucket_messages, vec![4]);
}

#[test]
fn largest_number_waits_for_ever() {
    let mut b: ReorderBuffer<u8> = ReorderBuffer::new(1);
    b.insert(u64::MAX, &[1]);
    b.mark_skipped(0);
    assert!(b.pop_next().is_none());
    assert_eq!(b.next_seq(), 1);
    assert!(b.has_pending(u64::MAX));
}

#[test]
fn buffer_yields_in_order() {
    let mut b: ReorderBuffer<u8> = ReorderBuffer::new(1);
    b.insert(2, &[20]);
    assert!(b.pop_next().is_none());
    b.insert(0, &[10]);
    assert_eq!(b.pop_next(), Some((0, vec![10])));
    assert!(b.pop_next().is_none());
    assert_eq!(b.next_seq(), 1);
    b.mark_skipped(1);
    assert!(b.has_pending(2));
    assert_eq!(b.pop_next(), Some((2, vec![20])));
    assert!(!b.has_pending(2));
    assert_eq!(b.next_seq(), 3);
}

fn rows(ids: &[&str], values: &[u8]) -> EmbeddingBatch<u8> {
    EmbeddingBatch {
        ids: ids.iter().map(|s| s.to_string()).collect(),
        embeddings: values.to_vec(),
        n_rows: ids.len(),
        hidden_dim: 1,
        inference_failed: false,
    }
}

#[test]
fn output_is_in_input_order() {
    let mut c: Collector<u8> = Collector::new(1);
    let mut out: Vec<(u64, Vec<u8>)> = Vec::new();
    out.extend(c.absorb(&rows(&["3", "1"], &[30, 10])));
    assert!(out.is_empty());
    out.extend(c.absorb(&EmbeddingBatch::skipped("2".to_string(), 1)));
    out.extend(c.absorb(&rows(&["0"], &[0])));
    assert_eq!(out, vec![(0, vec![0]), (1, vec![10]), (3, vec![30])]);
    out.extend(c.absorb(&EmbeddingBatch::failed(vec!["5".to_string(), "4".to_string()], 1)));
    out.extend(c.absorb(&rows(&["8"], &[80])));
    assert_eq!(c.written(), 3);
    // Six and seven never come back.
    out.extend(c.finish(9));
    assert_eq!(out.last(), Some(&(8, vec![80])));
    assert_eq!(c.written(), 4);
    assert_eq!(c.lost(), 2);
}

#[test]
fn id_that_is_no_number_counts_as_zero() {
    let mut c: Collector<u8> = Collector::new(1);
    assert_eq!(c.absorb(&rows(&["zero"], &[7])), vec![(0, vec![7])]);
}

struct Outcome {
    batches: Vec<EmbeddingBatch<f32>>,
    stats: EmbedStats,
}

/// Runs messages through everything but inference, with two workers that take turns.
fn run(dedup_capacity: usize, messages: Vec<Message>) -> Outcome {
    let e = engine(dedup_capacity);
    let mut workers: Vec<TokenizerWorker<f32>> = vec![e.worker(0.0), e.worker(0.0)];
    let mut batchers = vec![e.batcher(0), e.batcher(1)];
    let mut gpu = GpuWorkerStats::new(2);
    let mut dedup = e.dedup_cache(0.0f32);
    let mut batches = Vec::new();
    let mut finish = |ready: Option<ReadyBatch>,
                      dedup: &mut Option<EmbedCacheInner<f32>>,
                      batches: &mut Vec<EmbeddingBatch<f32>>| {
        if let Some(ready) = ready {
            let output: Vec<f32> = ready
                .hashes
                .iter()
                .flat_map(|h| [(h % 97) as f32, (h % 89) as f32, (h % 83) as f32])
                .collect();
            batches.push(complete(&mut gpu, dedup, ready, Some(&output), 2, 10, 3));
        }
    };
    for (i, msg) in messages.into_iter().enumerate() {
        match workers[i % 2].route(msg, dedup.as_ref()) {
            Ok(Routed::Skipped(b)) | Ok(Routed::Reused(b)) => batches.push(b),
            Ok(Routed::Bucket(bucket, item)) => {
                let ready = batchers[bucket].step(BatchEvent::Message(item), i as u64).0;
                finish(ready, &mut dedup, &mut batches);
            }
            Err(_) => panic!(),
        }
    }
    for b in batchers.iter_mut() {
        let ready = b.step(BatchEvent::Disconnected, 1000).0;
        finish(ready, &mut dedup, &mut batches);
    }
    let totals = workers.iter().map(|w| w.totals()).collect();
    let counters = RunCounters::new(dedup.as_ref(), 1, 1, 2);
    Outcome { batches, stats: summarize(&totals, &vec![gpu], &counters).unwrap() }
}

fn messages() -> Vec<Message> {
    (0..40)
        .map(|i| {
            let text = match i % 4 {
                0 => "the same text again".to_string(),
                1 => format!("number {} is another text", ["one", "two", "three"][i % 3]),
                2 => "12345".to_string(),
                _ => format!("{} another", "word ".repeat(i % 5 + 1)),
            };
            message(&i.to_string(), &text)
        })
        .collect()
}

fn sorted(mut ids: Vec<String>) -> Vec<String> {
    ids.sort();
    ids
}

fn embedded(batches: &[EmbeddingBatch<f32>]) -> Vec<String> {
    sorted(batches.iter().flat_map(|b| b.ids[..b.n_rows].to_vec()).collect())
}

#[test]
fn every_message_comes_back_once() {
    let expected = sorted((0..40).map(|i| i.to_string()).collect());
    for capacity in [0, 64] {
        let outcome = run(capacity, messages());
        let ids = outcome.batches.iter().flat_map(|b| b.ids.clone()).collect();
        assert_eq!(sorted(ids), expected);
    }
}

#[test]
fn dedup_cache_changes_no_ids() {
    let with = run(64, messages());
    let without = run(0, messages());
    assert_eq!(embedded(&with.batches), embedded(&without.batches));
    assert!(with.stats.dedup_hits > 0 && with.stats.dedup_size > 0);
    assert_eq!((without.stats.dedup_hits, without.stats.dedup_size), (0, 0));
}

#[test]
fn report_adds_up() {
    for capacity in [0, 64] {
        let s = run(capacity, messages()).stats;
        assert_eq!(s.messages_processed + s.messages_skipped, 40);
        assert_eq!(s.messages_skipped, 10);
        let in_buckets: u64 = s.per_bucket_messages.iter().sum();
        assert_eq!(in_buckets + s.dedup_hits, s.messages_processed);
        assert_eq!(in_buckets, s.total_rows);
        assert_eq!(s.per_bucket_batches.iter().sum::<u64>(), s.batches_computed);
        assert_eq!(s.per_gpu_batches.iter().sum::<u64>(), s.batches_computed);
        assert_eq!(s.inference_latency.count, s.batches_computed);
        assert_eq!((s.per_bucket_batches.len(), s.per_bucket_messages.len()), (2, 2));
        assert!(s.total_rows <= s.total_capacity);
    }
}

#[test]
fn rows_of_a_run_are_in_the_order_of_the_messages() {
    let outcome = run(64, messages());
    let mut c: Collector<f32> = Collector::new(3);
    let mut out: Vec<u64> = Vec::new();
    for b in outcome.batches.iter().rev() {
        out.extend(c.absorb(b).into_iter().map(|(seq, _)| seq));
    }
    out.extend(c.finish(40).into_iter().map(|(seq, _)| seq));
    let expected: Vec<u64> = (0..40).filter(|i| i % 4 != 2).collect();
    assert_eq!(out, expected);
}

#[test]
fn message_that_needs_an_unsound_tokenizer_is_handed_back() {
    let json = r#"{"version":"1.0","truncation":null,"padding":null,"added_tokens":[],"normalizer":{"type":"Prepend","prepend":""},"pre_tokenizer":null,"post_processor":null,"decoder":null,"model":{"type":"WordLevel","vocab":{"<s>":10,"</s>":12,"<unk>":3},"unk_token":"<unk>"}}"#;
    let tokenizer = Tokenizer::from_str(json).unwrap();
    let engine =
        Engine::new(Config::default(), 3, Vec::new(), tokenizer, Arc::new(VocabCache::new()));
    let mut w: TokenizerWorker<f32> = engine.ok().unwrap().unwrap().worker(0.0);
    let back = w.route(message("m1", "some longer text"), None).err().unwrap();
    assert_eq!((back.id.as_str(), back.text.as_str()), ("m1", "some longer text"));
    assert!(matches!(w.route(message("m2", "short"), None), Ok(Routed::Skipped(_))));
    assert_eq!(w.totals().processed, 0);
}

#[test]
fn every_row_holds_its_own_message() {
    let normalizer = engine(0).normalizer();
    for capacity in [0, 64] {
        let outcome = run(capacity, messages());
        let texts = messages();
        let mut rows = 0;
        for b in &outcome.batches {
            for i in 0..b.n_rows {
                let k: usize = b.ids[i].parse().unwrap();
                let h = fnv1a(&normalizer.normalize(&texts[k].text).unwrap());
                let expected = [(h % 97) as f32, (h % 89) as f32, (h % 83) as f32];
                assert_eq!(b.embedding(i), &expected);
                rows += 1;
            }
        }
        assert_eq!(rows, 30);
    }
}

#[test]
fn alike_runs_write_the_same_rows() {
    let numbers = |capacity: usize| {
        let mut c: Collector<f32> = Collector::new(3);
        let mut out: Vec<(u64, Vec<f32>)> = Vec::new();
        for b in &run(capacity, messages()).batches {
            out.extend(c.absorb(b));
        }
        out.extend(c.finish(40));
        out
    };
    assert_eq!(numbers(0), numbers(64));
}
