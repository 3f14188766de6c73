use std::path::PathBuf;

use ignite_ms::bench::{self, BenchArgs, BenchReader, Warmup};
use ignite_ms::config::needs_scaling;
use ignite_ms::embed::{
    build_config, check_files, list_items, model_name, model_prefix, parse_format, parse_gpus,
    parse_usize_csv, run_verdict, EmbedArgs,
};
use ignite_ms::input::InputFormat;
use ignite_ms::normalize::{Normalizer, NormalizerConfig};
use ignite_ms::{Config, Error};

fn problem(config: Config) -> String {
    match config.validate() {
        Err(Error::Config(msg)) => msg,
        _ => panic!("no problem found"),
    }
}

#[test]
fn default_configuration() {
    let c = Config::default();
    assert!(c.model.is_none() && c.engine_cache.is_none() && c.gpus.is_none());
    assert_eq!(c.model_dir, PathBuf::from("/opt/ignite-ms/cache"));
    assert_eq!(c.buckets, vec![24, 32, 40, 48, 56, 64, 80, 96, 128, 256]);
    assert_eq!(c.batch_sizes, vec![4096, 4096, 3072, 2048, 2048, 2048, 1536, 1536, 1024, 512]);
    assert_eq!((c.tokenize_workers, c.truncation, c.min_chars), (8, 256, 10));
    assert!(c.lowercase && c.int8 && c.telemetry);
    assert_eq!(c.prefix, "passage: ");
    assert_eq!((c.batch_timeout_ms, c.dedup_capacity), (5, 0));
    assert!(c.validate().is_ok());
    assert_eq!(c.max_len(), 256);
    assert_eq!(c.bucket_spec(2).len, 40);
    assert_eq!(c.bucket_spec(2).batch_size, 3072);
}

#[test]
fn configuration_is_validated() {
    let d = Config::default;
    assert_eq!(problem(Config { buckets: vec![], ..d() }), "buckets cannot be empty");
    assert_eq!(
        problem(Config { batch_sizes: vec![1], ..d() }),
        "batch_sizes length (1) must match buckets length (10)"
    );
    assert_eq!(
        problem(Config { buckets: vec![1, 2], batch_sizes: vec![3, 0], ..d() }),
        "batch_sizes[1] cannot be 0"
    );
    assert_eq!(
        problem(Config { buckets: vec![8, 9, 9], batch_sizes: vec![1, 1, 1], ..d() }),
        "buckets must be strictly increasing, but buckets[2]=9 <= buckets[1]=9"
    );
    assert_eq!(problem(Config { truncation: 0, ..d() }), "truncation must be > 0");
    assert_eq!(problem(Config { tokenize_workers: 0, ..d() }), "tokenize_workers must be > 0");
    assert_eq!(problem(Config { gpus: Some(vec![]), ..d() }), "gpus list cannot be empty");
    assert!(Config { gpus: Some(vec![3]), ..d() }.validate().is_ok());
}

#[test]
fn wide_models_have_smaller_batches() {
    assert!(!needs_scaling(768));
    assert!(needs_scaling(769));
    let mut c = Config { buckets: vec![8, 16], batch_sizes: vec![100, 200], ..Default::default() };
    c.fit_batch_sizes(768, vec![1, 1]);
    assert_eq!(c.batch_sizes, vec![100, 200]);
    c.fit_batch_sizes(1024, vec![50, 150]);
    assert_eq!(c.batch_sizes, vec![64, 150]);
}

#[test]
fn longest_bucket_has_a_default() {
    assert_eq!(Config { buckets: vec![], ..Default::default() }.max_len(), 256);
    assert_eq!(Config { buckets: vec![3, 5], ..Default::default() }.max_len(), 5);
}

#[test]
fn errors_are_labelled() {
    assert_eq!(Error::Config("a".to_string()).message(), "config: a");
    assert_eq!(Error::Model("b".to_string()).message(), "model: b");
    assert_eq!(Error::Tokenizer("c".to_string()).message(), "tokenizer: c");
    assert_eq!(Error::Inference("d".to_string()).message(), "inference: d");
    let io = std::io::Error::new(std::io::ErrorKind::Other, "disk on fire");
    assert_eq!(Error::from(io).message(), "io: disk on fire");
}

#[test]
fn lists_are_read() {
    assert_eq!(list_items(" a, ,b ,"), vec!["a", "b"]);
    assert_eq!(parse_usize_csv("24, 32,,64"), Ok(vec![24, 32, 64]));
    assert_eq!(parse_usize_csv("1,x,"), Err("invalid digit found in string".to_string()));
    assert_eq!(
        parse_usize_csv("99999999999999999999"),
        Err("number too large to fit in target type".to_string())
    );
    assert_eq!(parse_usize_csv(" , "), Err("empty comma-separated list".to_string()));
}

#[test]
fn gpus_are_read() {
    assert_eq!(parse_gpus("all"), Ok(None));
    assert_eq!(parse_gpus("0, 2,"), Ok(Some(vec![0, 2])));
    assert_eq!(parse_gpus("0,a\"b"), Err("invalid GPU id: \"a\\\"b\"".to_string()));
    assert_eq!(
        parse_gpus(","),
        Err("--gpus requires at least one GPU id or \"all\"".to_string())
    );
    assert_eq!(parse_gpus("4294967296"), Err("invalid GPU id: \"4294967296\"".to_string()));
    assert_eq!(bench::parse_gpus("all"), None);
    assert_eq!(bench::parse_gpus("0,x, 3,,-1"), Some(vec![0, 3]));
}

#[test]
fn formats_are_checked() {
    assert_eq!(parse_format("jsonl"), Ok("jsonl".to_string()));
    assert_eq!(parse_format("plain"), Ok("plain".to_string()));
    assert_eq!(
        parse_format("x\ty"),
        Err("invalid format \"x\\ty\" (expected \"jsonl\" or \"plain\")".to_string())
    );
}

#[test]
fn model_names_are_completed() {
    assert_eq!(model_name("e5-small-v2", false), "intfloat/e5-small-v2");
    assert_eq!(model_name("e5-small-v2", true), "e5-small-v2");
    assert_eq!(model_name("a/b", false), "a/b");
}

fn args() -> EmbedArgs {
    EmbedArgs {
        model: "e5-small-v2".to_string(),
        input: vec!["in".to_string()],
        output: "embeddings.npy".to_string(),
        format: "jsonl".to_string(),
        gpus: "1".to_string(),
        cache_dir: "/cache".to_string(),
        truncation: 512,
        tokenize_workers: 3,
        prefix: None,
        int8: false,
        engine_cache: Some("s3://b".to_string()),
        dedup_capacity: 9,
        batch_timeout_ms: 7,
        buckets: None,
        batch_sizes: None,
        quiet: true,
    }
}

#[test]
fn arguments_make_a_configuration() {
    let c = build_config(&args(), false).ok().unwrap();
    assert_eq!(c.model.as_deref(), Some("intfloat/e5-small-v2"));
    assert_eq!(c.model_dir, PathBuf::from("/cache"));
    assert_eq!(c.engine_cache.as_deref(), Some("s3://b"));
    assert_eq!(c.gpus, Some(vec![1]));
    assert_eq!(c.buckets.len(), 10);
    assert_eq!((c.truncation, c.tokenize_workers, c.min_chars), (512, 3, 10));
    assert_eq!(c.prefix, "passage: ");
    assert!(!c.int8 && c.telemetry && c.lowercase);
    assert_eq!((c.batch_timeout_ms, c.dedup_capacity), (7, 9));
    let mut a = args();
    a.buckets = Some("8,16".to_string());
    a.batch_sizes = Some("4,2".to_string());
    a.prefix = Some("query: ".to_string());
    let c = build_config(&a, true).ok().unwrap();
    assert_eq!((c.buckets, c.batch_sizes), (vec![8, 16], vec![4, 2]));
    assert_eq!(c.prefix, "query: ");
    assert_eq!(c.model, None);
    assert_eq!(c.model_dir, PathBuf::from("e5-small-v2"));
}

#[test]
fn local_model_is_used_as_it_is() {
    let mut a = args();
    a.model = "/models/mine".to_string();
    let c = build_config(&a, true).ok().unwrap();
    assert_eq!(c.model, None);
    assert_eq!(c.model_dir, PathBuf::from("/models/mine"));
    let c = build_config(&a, false).ok().unwrap();
    assert_eq!(c.model.as_deref(), Some("/models/mine"));
    assert_eq!(c.model_dir, PathBuf::from("/cache"));
}

#[test]
fn omitted_prefix_is_that_of_the_model() {
    let mut a = args();
    a.model = "intfloat/e5-small-v2".to_string();
    let omitted = build_config(&a, false).ok().unwrap();
    a.prefix = Some("passage: ".to_string());
    let given = build_config(&a, false).ok().unwrap();
    assert_eq!(omitted.prefix, given.prefix);
    assert_eq!((&omitted.model, &omitted.model_dir), (&given.model, &given.model_dir));
    assert_eq!((&omitted.buckets, &omitted.gpus), (&given.buckets, &given.gpus));
    let normal = |c: &Config| {
        Normalizer::new(NormalizerConfig {
            lowercase: c.lowercase,
            max_chars: c.truncation,
            min_chars: c.min_chars,
            prefix: c.prefix.clone(),
        })
        .normalize("A text to be embedded")
    };
    assert_eq!(normal(&omitted), normal(&given));
    assert_eq!(normal(&given).unwrap(), "passage: a text to be embedded");
    a.prefix = Some("".to_string());
    assert_eq!(build_config(&a, false).ok().unwrap().prefix, "");
    assert_eq!(model_prefix("intfloat/multilingual-e5-large"), "passage: ");
    assert_eq!(model_prefix("/models/e5-base-v2/"), "passage: ");
    assert_eq!(model_prefix("BAAI/bge-small-en-v1.5"), "");
    assert_eq!(model_prefix("e5/bert"), "");
}

#[test]
fn wrong_arguments_are_refused() {
    let mut a = args();
    a.buckets = Some("8,16".to_string());
    a.batch_sizes = Some("4".to_string());
    assert_eq!(
        build_config(&a, false).err().unwrap(),
        "--buckets/--batch-sizes length mismatch: 2 vs 1"
    );
    a.buckets = Some("8,y".to_string());
    assert_eq!(build_config(&a, false).err().unwrap(), "invalid digit found in string");
    a.buckets = None;
    a.gpus = "x".to_string();
    assert_eq!(build_config(&a, false).err().unwrap(), "invalid GPU id: \"x\"");
    a.batch_sizes = Some("".to_string());
    assert_eq!(build_config(&a, false).err().unwrap(), "empty comma-separated list");
}

#[test]
fn run_ends_well_unless_messages_are_lost() {
    assert_eq!(run_verdict(0), Ok(()));
    assert_eq!(
        run_verdict(12),
        Err("12 messages lost to inference failures (output is partial)".to_string())
    );
    assert_eq!(check_files(1), Ok(()));
    assert_eq!(check_files(0), Err("no input files found".to_string()));
}

#[test]
fn benchmark_configuration() {
    let c = bench::build_config(BenchArgs {
        model_dir: PathBuf::from("/m"),
        model: None,
        gpus: "0,1".to_string(),
        truncation: 100,
        tokenize_workers: 2,
        int8: true,
        buckets: Some("8".to_string()),
        batch_sizes: Some("4".to_string()),
        batch_timeout_ms: 1,
        dedup_capacity: 2,
    })
    .ok()
    .unwrap();
    assert_eq!(c.model_dir, PathBuf::from("/m"));
    assert_eq!(c.gpus, Some(vec![0, 1]));
    assert_eq!(c.buckets, vec![8]);
    assert_eq!(c.prefix, "passage: ");
    assert!(c.int8);
}

#[test]
fn benchmark_reads_and_numbers_messages() {
    let mut r = BenchReader::new();
    assert!(r.read_line(InputFormat::Plain, "  ").is_none());
    let m = r.read_line(InputFormat::Plain, " hi ").unwrap();
    assert_eq!((m.id.as_str(), m.text.as_str()), ("1", "hi"));
    let m = r.read_line(InputFormat::Jsonl, r#"{"text": " yo "}"#).unwrap();
    assert_eq!((m.id.as_str(), m.text.as_str()), ("2", "yo"));
    assert!(r.read_line(InputFormat::Jsonl, r#"{"text": 5}"#).is_none());
    assert!(r.read_line(InputFormat::Jsonl, "nope").is_none());
    assert!(r.take_line(InputFormat::Jsonl, "", Some(" ")).is_none());
    assert_eq!(r.take_line(InputFormat::Jsonl, "", Some("z")).unwrap().id, "3");
}

#[test]
fn benchmark_counts_after_the_warm_up() {
    let mut w = Warmup::new(10);
    assert!(!w.count(4));
    assert_eq!(w.totals(), (4, 4, 0));
    assert!(w.count(6));
    assert!(!w.count(5));
    assert_eq!(w.totals(), (15, 10, 11));
    let mut w = Warmup::new(0);
    assert!(w.count(0));
    assert_eq!(w.totals(), (0, 0, 0));
    assert_eq!([0, 4, 9, 32, 33].map(bench::reader_count), [4, 4, 9, 32, 32]);
    assert!(bench::is_compressed(Some("zst")));
    assert!(!bench::is_compressed(Some("gz")) && !bench::is_compressed(None));
    assert!(!bench::limit_reached(5, 0));
    assert!(!bench::limit_reached(5, 6));
    assert!(bench::limit_reached(6, 6));
}
