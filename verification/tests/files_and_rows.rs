use std::path::PathBuf;

use ignite_ms::files::{drop_repeats, resolve_inputs, resolve_present, Probe};
use ignite_ms::input::{
    compression_of, input_format, make_entry, parse_jsonl_line, read_sequential, Compression,
    InputFormat, InputReader,
};
use ignite_ms::list::reversed;
use ignite_ms::normalize::{Normalizer, NormalizerConfig};
use ignite_ms::npy::{npy_header, NpyWriter, HEADER_LEN};
use ignite_ms::output::{output_format, user_id_at, OutputFormat, RowGroups, ROW_GROUP_SIZE};

fn path(s: &str) -> PathBuf {
    PathBuf::from(s)
}

#[test]
fn files_are_sorted_without_repeats() {
    let inputs = vec!["b".to_string(), "d".to_string()];
    let probes = vec![
        Probe::File(path("/x/b")),
        Probe::Directory(vec![path("/x/d/2"), path("/x/b"), path("/x/a"), path("/x//b")]),
    ];
    let mut expected = vec![path("/x/b"), path("/x/d/2"), path("/x/b"), path("/x/a"), path("/x//b")];
    expected.sort();
    expected.dedup();
    assert_eq!(expected.len(), 3);
    assert_eq!(resolve_inputs(&inputs, probes), Ok(expected));
}

#[test]
fn missing_input_is_an_error() {
    let inputs = vec!["a".to_string(), "gone".to_string()];
    let r = resolve_inputs(&inputs, vec![Probe::File(path("/a")), Probe::Missing]);
    assert_eq!(r, Err("not found: gone".to_string()));
    assert_eq!(resolve_present(vec![Probe::Missing, Probe::File(path("/a"))]), vec![path("/a")]);
    assert_eq!(resolve_inputs(&Vec::new(), Vec::new()), Ok(Vec::new()));
}

#[test]
fn only_neighbours_are_repeats() {
    let kept = drop_repeats(vec![path("a"), path("a"), path("b"), path("a")]);
    assert_eq!(kept, vec![path("a"), path("b"), path("a")]);
    assert_eq!(reversed(vec![1, 2, 3]), vec![3, 2, 1]);
}

#[test]
fn formats_and_compressions() {
    assert!(input_format("plain") == InputFormat::Plain);
    assert!(input_format("jsonl") == InputFormat::Jsonl);
    assert!(compression_of("zst") == Compression::Zstd);
    assert!(compression_of("zstd") == Compression::Zstd);
    assert!(compression_of("gz") == Compression::Gzip);
    assert!(compression_of("") == Compression::Uncompressed);
    assert!(output_format(Some("parquet")) == OutputFormat::Parquet);
    assert!(output_format(Some("npy")) == OutputFormat::Npy);
    assert!(output_format(None) == OutputFormat::Npy);
}

#[test]
fn json_lines_are_read() {
    let entry = |t: &str, i: &str| Some((t.to_string(), i.to_string()));
    assert_eq!(parse_jsonl_line(r#"{"text": " hi ", "id": "x"}"#), entry("hi", "x"));
    assert_eq!(parse_jsonl_line(r#"{"text": "hi", "id": 3}"#), entry("hi", ""));
    assert_eq!(parse_jsonl_line(r#"{"text": "aé"}"#), entry("aé", ""));
    assert_eq!(parse_jsonl_line(r#"{"text": "  "}"#), None);
    assert_eq!(parse_jsonl_line(r#"{"body": "hi"}"#), None);
    assert_eq!(parse_jsonl_line("{"), None);
    assert_eq!(make_entry(Some(" a "), None), entry("a", ""));
    assert_eq!(make_entry(None, Some("i")), None);
}

#[test]
fn plain_lines_make_numbered_messages() {
    let mut r = InputReader::new(Normalizer::new(NormalizerConfig::default()));
    for line in ["a first long line", "   ", "short", "  another long line \r", "1234567890"] {
        r.read_line(InputFormat::Plain, Some(line));
    }
    r.read_line(InputFormat::Plain, None);
    assert_eq!(r.counters(), (2, 1));
    let (messages, ids) = r.finish();
    let got: Vec<(&str, &str)> =
        messages.iter().map(|m| (m.id.as_str(), m.text.as_str())).collect();
    assert_eq!(got, vec![("0", "a first long line"), ("1", "another long line")]);
    assert_eq!(ids, vec!["0", "1"]);
}

#[test]
fn json_lines_make_numbered_messages() {
    let lines = vec![
        Some(r#"{"text": "long enough text", "id": "u1"}"#.to_string()),
        Some("".to_string()),
        Some("broken".to_string()),
        None,
        Some(r#"{"text": "ten bytes!"}"#.to_string()),
        Some(r#"{"text": "nine byte"}"#.to_string()),
    ];
    let n = Normalizer::new(NormalizerConfig::default());
    let r = read_sequential(&lines, InputFormat::Jsonl, n);
    assert_eq!(r.counters(), (1, 2));
    let (messages, ids) = r.finish();
    assert_eq!(messages.len(), 2);
    assert_eq!(messages[1].id, "1");
    assert_eq!(messages[1].text, "ten bytes!");
    assert_eq!(ids, vec!["u1", ""]);
}

#[test]
fn every_text_that_is_read_survives_normalization() {
    let n = Normalizer::new(NormalizerConfig::default());
    let lines: Vec<Option<String>> =
        ["1234567890", "http://example.com/a/b", "a plain sentence", "hi #12345678901"]
            .iter()
            .map(|l| Some(l.to_string()))
            .collect();
    let r = read_sequential(&lines, InputFormat::Plain, n.clone());
    assert_eq!(r.counters(), (3, 0));
    let (messages, _) = r.finish();
    assert_eq!(messages.len(), 1);
    assert!(messages.iter().all(|m| n.normalize(&m.text).is_some()));
    let mut r = InputReader::new(n);
    r.take_line(InputFormat::Plain, Some("a plain sentence"), None, false);
    r.take_line(InputFormat::Plain, Some("a plain sentence"), None, true);
    assert_eq!(r.counters(), (1, 0));
    assert_eq!(r.finish().0.len(), 1);
}

#[test]
fn header_tells_shape_and_has_fixed_size() {
    let h = npy_header(3, 384);
    assert_eq!(h.len(), HEADER_LEN);
    assert_eq!(&h[..8], b"\x93NUMPY\x01\x00");
    assert_eq!(h[8..10], 118u16.to_le_bytes());
    let text = String::from_utf8(h[10..].to_vec()).unwrap();
    assert!(text.starts_with("{'descr': '<f4', 'fortran_order': False, 'shape': (3, 384), } "));
    assert!(text.ends_with(" \n"));
    assert_eq!(npy_header(u64::MAX, usize::MAX).len(), HEADER_LEN);
}

#[test]
fn values_are_written_and_read_back() {
    let mut w = NpyWriter::new();
    let mut file = w.begin(2);
    assert_eq!(file, npy_header(0, 2));
    let rows = [[1.5f32, -2.0], [0.25, 3.0]];
    for row in rows {
        let bits: Vec<u32> = row.iter().map(|v| v.to_bits()).collect();
        file.extend(w.write_row(&bits));
    }
    let header = w.finish(2);
    file[..HEADER_LEN].copy_from_slice(&header);
    assert_eq!(file.len(), HEADER_LEN + 16);
    assert_eq!(file[..HEADER_LEN], npy_header(2, 2)[..]);
    let values: Vec<f32> = file[HEADER_LEN..]
        .chunks(4)
        .map(|b| f32::from_le_bytes([b[0], b[1], b[2], b[3]]))
        .collect();
    assert_eq!(values, vec![1.5, -2.0, 0.25, 3.0]);
}

#[test]
fn rows_have_the_ids_of_the_input() {
    let ids = vec!["u0".to_string(), "".to_string()];
    assert_eq!(user_id_at(&ids, 0), Some("u0"));
    assert_eq!(user_id_at(&ids, 2), None);
    let mut g: RowGroups<u8> = RowGroups::new(2);
    assert!(g.write_row(0, user_id_at(&ids, 0), &[1, 2]).is_none());
    assert!(g.write_row(1, user_id_at(&ids, 1), &[3, 4]).is_none());
    assert!(g.write_row(2, user_id_at(&ids, 2), &[5, 6]).is_none());
    let group = g.finish().unwrap();
    assert_eq!(group.ids, vec!["u0", "1", "2"]);
    assert_eq!(group.embeddings, vec![1, 2, 3, 4, 5, 6]);
    assert!(g.finish().is_none());
}

#[test]
fn groups_have_a_fixed_size() {
    let mut g: RowGroups<u8> = RowGroups::new(1);
    let mut full: Vec<usize> = Vec::new();
    for i in 0..ROW_GROUP_SIZE as u64 + 5 {
        if let Some(group) = g.write_row(i, None, &[7]) {
            assert_eq!(group.ids[1], "1");
            full.push(group.ids.len());
        }
    }
    assert_eq!(full, vec![ROW_GROUP_SIZE]);
    let rest = g.finish().unwrap();
    assert_eq!(rest.ids[0], ROW_GROUP_SIZE.to_string());
    assert_eq!(rest.embeddings.len(), 5);
}

#[test]
fn order_of_inputs_does_not_matter() {
    let probe = |names: &[&str]| -> Vec<Probe> {
        names.iter().map(|n| Probe::File(path(n))).collect()
    };
    let a = resolve_present(probe(&["/b/x", "/a", "/b", "/a", "/b/y"]));
    let b = resolve_present(probe(&["/a", "/b/y", "/b", "/b/x"]));
    assert_eq!(a, b);
    assert_eq!(a, vec![path("/a"), path("/b"), path("/b/x"), path("/b/y")]);
}
