use ignite_ms::assembler::{BatchAssembler, BatchEvent, ReadyBatch};
use ignite_ms::batcher::Batcher;
use ignite_ms::bucket::{Batch, BucketSpec, Bucketizer};
use ignite_ms::tokenize::TokenizedMessage;
use ignite_ms::worker::{assign_bucket, Queued};

fn message(ids: &[u32]) -> TokenizedMessage {
    TokenizedMessage { ids: ids.to_vec(), len: ids.len() }
}

fn queued(ids: &[u32], id: &str, hash: u64) -> Queued {
    Queued { tokens: message(ids), id: id.to_string(), hash }
}

#[test]
fn full_bucket_gives_padded_batch() {
    let mut b = Bucketizer::new(vec![BucketSpec { len: 3, batch_size: 2 }]);
    assert!(b.push(message(&[5])).is_none());
    let batch = b.push(message(&[6, 7])).unwrap();
    assert_eq!(batch.bucket_idx, 0);
    assert_eq!(batch.bucket_len, 3);
    assert_eq!(batch.n_real, 2);
    assert_eq!(batch.input_ids, vec![5, 0, 0, 6, 7, 0]);
    assert_eq!(batch.attention_mask, vec![1, 0, 0, 1, 1, 0]);
    assert!(b.flush().is_empty());
}

#[test]
fn message_goes_to_shortest_bucket_that_fits() {
    let mut b = Bucketizer::new(vec![
        BucketSpec { len: 4, batch_size: 1 },
        BucketSpec { len: 2, batch_size: 1 },
    ]);
    assert_eq!(b.push(message(&[1, 2])).unwrap().bucket_len, 2);
    assert_eq!(b.push(message(&[1, 2, 3])).unwrap().bucket_idx, 1);
    let cut = b.push(message(&[1, 2, 3, 4, 5])).unwrap();
    assert_eq!(cut.bucket_len, 4);
    assert_eq!(cut.input_ids, vec![1, 2, 3, 4]);
}

#[test]
fn buckets_of_one_length_keep_their_order() {
    let mut b = Bucketizer::new(vec![
        BucketSpec { len: 2, batch_size: 3 },
        BucketSpec { len: 1, batch_size: 1 },
        BucketSpec { len: 2, batch_size: 1 },
    ]);
    assert!(b.push(message(&[1, 2])).is_none());
    let rest = b.flush();
    assert_eq!(rest.len(), 1);
    assert_eq!(rest[0].bucket_idx, 1);
    assert_eq!(rest[0].input_ids.len(), 6);
}

#[test]
fn flush_gives_partial_batches_in_order() {
    let mut b = Bucketizer::new(vec![
        BucketSpec { len: 1, batch_size: 2 },
        BucketSpec { len: 2, batch_size: 2 },
    ]);
    b.push(message(&[9]));
    b.push(message(&[8, 7]));
    let rest = b.flush();
    assert_eq!(rest.len(), 2);
    assert_eq!(rest[0].input_ids, vec![9, 0]);
    assert_eq!(rest[0].n_real, 1);
    assert_eq!(rest[1].input_ids, vec![8, 7, 0, 0]);
    assert_eq!(rest[1].attention_mask, vec![1, 1, 0, 0]);
    assert!(b.flush().is_empty());
}

#[test]
fn bucket_is_assigned_by_length() {
    let lens = [24usize, 32, 40];
    assert_eq!(assign_bucket(&lens, 0), 0);
    assert_eq!(assign_bucket(&lens, 24), 0);
    assert_eq!(assign_bucket(&lens, 25), 1);
    assert_eq!(assign_bucket(&lens, 40), 2);
    assert_eq!(assign_bucket(&lens, 41), 2);
}

#[test]
fn assembler_keeps_ids_with_rows() {
    let mut a = BatchAssembler::new(7, BucketSpec { len: 2, batch_size: 2 });
    assert!(a.push(queued(&[1], "a", 11)).is_none());
    let ready = a.push(queued(&[2, 3, 4], "b", 12)).unwrap();
    assert_eq!(ready.batch.bucket_idx, 7);
    assert_eq!(ready.ids, vec!["a", "b"]);
    assert_eq!(ready.hashes, vec![11, 12]);
    assert_eq!(ready.batch.input_ids, vec![1, 0, 2, 3]);
    assert!(a.flush().is_none());
}

#[test]
fn every_message_comes_out_once_whatever_the_events() {
    let mut a = BatchAssembler::new(0, BucketSpec { len: 1, batch_size: 3 });
    let mut out: Vec<String> = Vec::new();
    let mut sizes: Vec<usize> = Vec::new();
    let mut events: Vec<BatchEvent> = Vec::new();
    for i in 0..8u32 {
        events.push(BatchEvent::Message(queued(&[i + 1], &i.to_string(), i as u64)));
        if i == 4 {
            events.push(BatchEvent::Timeout);
            events.push(BatchEvent::Timeout);
        }
    }
    events.push(BatchEvent::Disconnected);
    let n = events.len();
    for (i, event) in events.into_iter().enumerate() {
        let (ready, last) = a.handle(event);
        assert_eq!(last, i == n - 1);
        if let Some(ready) = ready {
            assert_eq!(ready.ids.len(), ready.batch.n_real);
            for (row, id) in ready.ids.iter().enumerate() {
                let expected: i64 = id.parse::<i64>().unwrap() + 1;
                assert_eq!(ready.batch.input_ids[row], expected);
                assert_eq!(ready.hashes[row].to_string(), *id);
            }
            sizes.push(ready.batch.n_real);
            out.extend(ready.ids);
        }
    }
    assert_eq!(out, vec!["0", "1", "2", "3", "4", "5", "6", "7"]);
    assert_eq!(sizes, vec![3, 2, 3]);
    assert!(a.flush().is_none());
}

/// The token IDs of the messages in a batch, read back from its matrices.
fn read_back(b: &Batch) -> Vec<Vec<u32>> {
    (0..b.n_real)
        .map(|r| {
            let row = r * b.bucket_len..(r + 1) * b.bucket_len;
            let n = b.attention_mask[row.clone()].iter().filter(|&&m| m == 1).count();
            b.input_ids[row][..n].iter().map(|&id| id as u32).collect()
        })
        .collect()
}

#[test]
fn every_message_is_in_one_row_of_its_bucket() {
    let specs = vec![BucketSpec { len: 4, batch_size: 2 }, BucketSpec { len: 2, batch_size: 3 }];
    let mut b = Bucketizer::new(specs);
    let mut out: Vec<Batch> = Vec::new();
    let mut expected: Vec<Vec<Vec<u32>>> = vec![Vec::new(), Vec::new()];
    for n in 0..23u32 {
        let ids: Vec<u32> = (0..n % 6 + 1).map(|k| 100 * n + k).collect();
        let bucket = if ids.len() <= 2 { 0 } else { 1 };
        expected[bucket].push(ids[..ids.len().min(4)].to_vec());
        out.extend(b.push(message(&ids)));
    }
    out.extend(b.flush());
    assert_eq!(out.iter().map(|b| b.n_real).sum::<usize>(), 23);
    for bucket in 0..2 {
        let rows: Vec<Vec<u32>> =
            out.iter().filter(|b| b.bucket_idx == bucket).flat_map(|b| read_back(b)).collect();
        assert_eq!(rows, expected[bucket]);
    }
}

fn batcher(timeout: u64) -> Batcher {
    Batcher::new(BatchAssembler::new(0, BucketSpec { len: 2, batch_size: 3 }), timeout)
}

fn ids_of(ready: Option<ReadyBatch>) -> Option<Vec<String>> {
    ready.map(|r| r.ids)
}

fn came(id: &str) -> BatchEvent {
    BatchEvent::Message(queued(&[1, 2], id, 1))
}

#[test]
fn wait_counts_from_the_first_message() {
    let mut b = batcher(5);
    assert_eq!(b.patience(100), None);
    assert!(b.step(came("a"), 100).0.is_none());
    assert_eq!(b.patience(100), Some(5));
    assert!(b.step(came("b"), 104).0.is_none());
    assert_eq!(b.patience(104), Some(1));
    assert!(b.step(BatchEvent::Timeout, 104).0.is_none());
    assert_eq!(b.patience(109), Some(0));
    assert_eq!(ids_of(b.step(BatchEvent::Timeout, 105).0).unwrap(), vec!["a", "b"]);
    assert_eq!(b.patience(105), None);
    // A message that comes in late goes out with those that are due.
    assert!(b.step(came("c"), 200).0.is_none());
    assert_eq!(ids_of(b.step(came("d"), 205).0).unwrap(), vec!["c", "d"]);
    // A full batch does not wait.
    assert!(b.step(came("e"), 300).0.is_none());
    assert!(b.step(came("f"), 301).0.is_none());
    assert_eq!(ids_of(b.step(came("g"), 302).0).unwrap(), vec!["e", "f", "g"]);
    assert!(b.step(came("h"), 303).0.is_none());
    let (ready, last) = b.step(BatchEvent::Disconnected, 303);
    assert_eq!(ids_of(ready).unwrap(), vec!["h"]);
    assert!(last);
}

#[test]
fn without_timeout_messages_wait_for_a_full_batch() {
    let mut b = batcher(0);
    assert!(b.step(came("a"), 0).0.is_none());
    assert_eq!(b.patience(1_000_000), None);
    assert!(b.step(BatchEvent::Timeout, 1_000_000).0.is_none());
    assert!(b.step(came("b"), 2_000_000).0.is_none());
    assert_eq!(ids_of(b.step(came("c"), 3_000_000).0).unwrap(), vec!["a", "b", "c"]);
    let (ready, last) = b.step(BatchEvent::Disconnected, 3_000_000);
    assert!(ready.is_none() && last);
}
