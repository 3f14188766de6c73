use ignite_ms::inference::{
    compile_engine, compile_engine_for_bucket, compile_engine_for_bucket_int8, compile_verdict,
    worker_buffers, Compiled, Profile, TrtSession,
};
use ignite_ms::monitor::Monitor;
use ignite_ms::provision::{
    answer, detect_gpu_arch, download_url, download_verdict, downloads, engine_cache_key,
    engine_error, engine_file_name, engine_remote_path, engine_source, engines_to_compile,
    ensure_model, export_dim, file_step, find_python, model_slug, python_candidate, python_verdict,
    resolve_model_info, settle, EngineSource, FileStep, Job, JobEnd, PresentFiles, PythonSearch,
    PythonTask, ToolRun,
};
use ignite_ms::report::{summarize, Figures, RunCounters};
use ignite_ms::sessions::{complete_sets, gather, take_single};
use ignite_ms::stats::{
    batch_capacity, checked_sum, compute_latency_stats, percentile, GpuWorkerStats,
};
use ignite_ms::worker::WorkerTotals;
use ignite_ms::{Error, LatencyStats};

fn present(all: bool) -> PresentFiles {
    PresentFiles { onnx: true, tokenizer: true, config: all, vocab_cache: true }
}

#[test]
fn known_models_are_pinned() {
    let m = resolve_model_info("intfloat/e5-base-v2").unwrap();
    assert_eq!(m.hf_repo, "intfloat/e5-base-v2");
    assert_eq!(m.hf_revision, "f52bf8ec8c7124536f0efb74aca902b2995e5bcd");
    assert_eq!(m.onnx_repo, "Xenova/e5-base-v2");
    assert_eq!(m.onnx_revision, "21f8d0e36fdfe76e6a023802dfb293fc6d750ad1");
    assert_eq!(m.onnx_path, "onnx/model.onnx");
    assert_eq!(m.hidden_dim, Some(768));
    for (name, dim) in [
        ("intfloat/multilingual-e5-small", 384),
        ("intfloat/multilingual-e5-base", 768),
        ("intfloat/multilingual-e5-large", 1024),
        ("intfloat/e5-small-v2", 384),
        ("intfloat/e5-large-v2", 1024),
    ] {
        let m = resolve_model_info(name).unwrap();
        assert_eq!(m.hf_repo, name);
        assert_eq!(m.hidden_dim, Some(dim));
        assert_eq!(m.hf_revision.len(), 40);
    }
    assert!(resolve_model_info("e5-base-v2").is_none());
}

#[test]
fn model_is_provisioned_if_files_are_missing() {
    assert!(matches!(ensure_model("anything", present(true)), Ok(None)));
    let info = ensure_model("intfloat/e5-small-v2", present(false)).ok().unwrap().unwrap();
    let d = downloads(&info);
    let names: Vec<&str> = d.iter().map(|d| d.name).collect();
    assert_eq!(names, vec!["tokenizer.json", "config.json", "model_raw.onnx"]);
    assert_eq!(d[2].repo, "Xenova/e5-small-v2");
    assert_eq!(
        download_url(&d[1].repo, &d[1].revision, &d[1].path),
        "https://huggingface.co/intfloat/e5-small-v2/resolve/ffb93f3bd4047442299a41ebb6fa998a38507c52/config.json"
    );
    let e = ensure_model("//", present(false)).err().unwrap().message();
    assert_eq!(e, "model: unknown model '//'");
    assert_eq!(model_slug("intfloat/e5"), "intfloat--e5");
}

#[test]
fn any_model_of_the_hub_is_provisioned() {
    let name = "BAAI/bge-small-en-v1.5";
    let info = ensure_model(name, present(false)).ok().unwrap().unwrap();
    let urls: Vec<String> = downloads(&info)
        .iter()
        .map(|d| download_url(&d.repo, &d.revision, &d.path))
        .collect();
    assert_eq!(
        urls,
        vec![
            "https://huggingface.co/BAAI/bge-small-en-v1.5/resolve/main/tokenizer.json",
            "https://huggingface.co/BAAI/bge-small-en-v1.5/resolve/main/config.json",
            "https://huggingface.co/Xenova/bge-small-en-v1.5/resolve/main/onnx/model.onnx",
        ]
    );
    assert_eq!(model_slug(name), "BAAI--bge-small-en-v1.5");
    let dim = |text: &str| export_dim(&info, Some(Ok(text.to_string()))).ok();
    assert_eq!(dim("{\"hidden_size\": 512}"), Some(512));
    assert_eq!(dim("{}"), Some(384));
    assert_eq!(
        export_dim(&info, Some(Err("gone".to_string()))).err().unwrap().message(),
        "model: reading config.json: gone"
    );
    let pinned = ensure_model("intfloat/e5-base-v2", present(false)).ok().unwrap().unwrap();
    assert_eq!(export_dim(&pinned, None).ok(), Some(768));
}

#[test]
fn downloads_are_judged() {
    let msg = |run: ToolRun, size: u64| match download_verdict("U", &run, size) {
        Err(Error::Model(m)) => m,
        _ => panic!(),
    };
    assert!(download_verdict("U", &ToolRun::Succeeded, 1).is_ok());
    assert_eq!(msg(ToolRun::Succeeded, 0), "download produced empty file: U");
    assert_eq!(msg(ToolRun::Failed(" 404\n".to_string()), 9), "download failed: U — 404");
    assert_eq!(msg(ToolRun::NotRun("no curl".to_string()), 9), "failed to run curl: no curl");
    assert!(file_step(None) == FileStep::Make);
    assert!(file_step(Some(0)) == FileStep::Replace);
    assert!(file_step(Some(5)) == FileStep::Keep);
}

#[test]
fn first_job_that_failed_counts() {
    let job = |what: &'static str, end: JobEnd| Job { what, end };
    assert!(settle(vec![]).is_ok());
    assert!(settle(vec![job("a", JobEnd::Done), job("b", JobEnd::Done)]).is_ok());
    let e = settle(vec![
        job("a", JobEnd::Done),
        job("b", JobEnd::Panicked),
        job("c", JobEnd::Failed(Error::Config("x".to_string()))),
    ]);
    assert_eq!(e.err().unwrap().message(), "model: b thread panicked");
    let e = settle(vec![job("c", JobEnd::Failed(Error::Config("x".to_string())))]);
    assert_eq!(e.err().unwrap().message(), "config: x");
}

#[test]
fn first_usable_python_is_found() {
    let runs = [false, true, true, false, true];
    let pip = [true, false, true, true, true];
    let mut search = PythonSearch::AskVersion(0);
    loop {
        search = match search {
            PythonSearch::AskVersion(i) => answer(search, runs[i]),
            PythonSearch::AskPip(i) => answer(search, pip[i]),
            _ => break,
        };
    }
    assert!(search == PythonSearch::Found(2));
    assert_eq!(find_python(None, search).ok().unwrap(), "python3.11");
    assert_eq!(find_python(Some("py".to_string()), PythonSearch::NotFound).ok().unwrap(), "py");
    assert!(answer(PythonSearch::AskVersion(4), false) == PythonSearch::NotFound);
    assert!(answer(PythonSearch::AskPip(4), false) == PythonSearch::NotFound);
    assert_eq!(
        find_python(None, PythonSearch::NotFound).err().unwrap().message(),
        "model: python3 with pip not found. Install Python 3.10+ with pip, or set PYTHON env var."
    );
    assert_eq!(python_candidate(0), Some("python3"));
    assert_eq!(python_candidate(4), Some("python"));
    assert_eq!(python_candidate(5), None);
}

#[test]
fn runs_of_python_are_judged() {
    let msg = |task: PythonTask, run: ToolRun, made: bool| {
        python_verdict(task, "py", &run, made).err().unwrap().message()
    };
    let not_run = || ToolRun::NotRun("e".to_string());
    let failed = || ToolRun::Failed("  e \n".to_string());
    assert_eq!(msg(PythonTask::Packages, not_run(), true), "model: failed to run pip (py): e");
    assert_eq!(
        msg(PythonTask::Export, not_run(), true),
        "model: failed to run py for ONNX export: e"
    );
    assert_eq!(
        msg(PythonTask::VocabCache, not_run(), true),
        "model: failed to run py for vocab cache: e"
    );
    assert_eq!(msg(PythonTask::Packages, failed(), true), "model: pip install failed: e");
    assert_eq!(msg(PythonTask::Export, failed(), true), "model: ONNX export failed: e");
    assert_eq!(msg(PythonTask::VocabCache, failed(), true), "model: vocab cache build failed: e");
    assert_eq!(
        msg(PythonTask::Export, ToolRun::Succeeded, false),
        "model: ONNX export produced no non-empty output file"
    );
    assert_eq!(
        msg(PythonTask::VocabCache, ToolRun::Succeeded, false),
        "model: vocab cache build produced no non-empty output file"
    );
    assert!(python_verdict(PythonTask::Packages, "py", &ToolRun::Succeeded, false).is_ok());
    assert!(python_verdict(PythonTask::Export, "py", &ToolRun::Succeeded, true).is_ok());
}

#[test]
fn engines_are_keyed_by_architecture_and_shape() {
    assert_eq!(engine_file_name(512, 64, false), "model_b512_s64.engine");
    assert_eq!(engine_file_name(512, 64, true), "model_b512_s64_int8.engine");
    assert_eq!(engine_cache_key("sm_80", 1, 2, false), "sm_80/model_b1_s2.engine");
    assert_eq!(
        engine_remote_path("s3://b/e//", "intfloat/e5", "sm_80", 1, 2, true),
        "s3://b/e/intfloat--e5/sm_80/model_b1_s2_int8.engine"
    );
    assert_eq!(detect_gpu_arch(Some(" 8.0\n")), Some("sm_80".to_string()));
    assert_eq!(detect_gpu_arch(Some(" \n")), None);
    assert_eq!(detect_gpu_arch(None), None);
}

#[test]
fn missing_engines_are_compiled() {
    assert!(engine_source(true, true) == EngineSource::Local);
    assert!(engine_source(false, true) == EngineSource::Remote);
    assert!(engine_source(false, false) == EngineSource::Compiled);
    let sources = vec![
        EngineSource::Compiled,
        EngineSource::Local,
        EngineSource::Compiled,
        EngineSource::Remote,
    ];
    assert_eq!(engines_to_compile(&sources), vec![0, 2]);
    assert_eq!(engine_error(4, 8, Some("bad")).message(), "inference: engine b4_s8: bad");
    assert_eq!(engine_error(4, 8, None).message(), "inference: engine compile thread panicked");
}

#[test]
fn profiles_have_the_shapes_asked_for() {
    let p = compile_engine(100, 256);
    assert_eq!((p.min_batch, p.opt_batch, p.max_batch), (1, 50, 100));
    assert_eq!((p.min_seq, p.opt_seq, p.max_seq, p.precision), (32, 128, 256, 1));
    let tight = |precision: i32| Profile {
        min_batch: 1,
        opt_batch: 4,
        max_batch: 4,
        min_seq: 8,
        opt_seq: 8,
        max_seq: 8,
        precision,
    };
    assert!(compile_engine_for_bucket(4, 8) == tight(1));
    assert!(compile_engine_for_bucket_int8(4, 8) == tight(2));
    assert_eq!(compile_verdict(Compiled::General, 4, 8, 0), Ok(()));
    assert_eq!(compile_verdict(Compiled::General, 4, 8, 1), Err("trt_compile failed".to_string()));
    assert_eq!(
        compile_verdict(Compiled::Bucket, 4, 8, -1),
        Err("trt_compile failed for bs=4 seq=8".to_string())
    );
    assert_eq!(
        compile_verdict(Compiled::BucketInt8, 4, 8, 2),
        Err("trt_compile INT8 failed for bs=4 seq=8".to_string())
    );
}

#[test]
fn sessions_check_their_shapes() {
    let e = TrtSession::new(false, "/e", 3, 2, 4, 8).err().unwrap();
    assert_eq!(e, "trt_create failed: engine=/e gpu=3");
    let s = TrtSession::new(true, "/e", 3, 2, 4, 8).ok().unwrap();
    assert_eq!(s.check_inputs(&[0; 8], &[0; 8], None), Ok(()));
    assert_eq!(s.check_inputs(&[0; 8], &[0; 8], Some(&[0; 8])), Ok(()));
    assert_eq!(
        s.check_inputs(&[0; 8], &[0; 7], None),
        Err("size mismatch: expected 8 got 8/7".to_string())
    );
    assert_eq!(
        s.check_inputs(&[0; 8], &[0; 8], Some(&[0; 7])),
        Err("size mismatch: expected 8 got 8/8/7".to_string())
    );
    assert_eq!(s.check_output(16), Ok(()));
    assert_eq!(s.check_output(15), Err("output buffer too small: 15 < 16".to_string()));
    assert_eq!(TrtSession::infer_verdict(0), Ok(()));
    assert_eq!(TrtSession::infer_verdict(1), Err("trt_infer failed".to_string()));
    assert_eq!(TrtSession::output_verdict(0), Ok(()));
    assert_eq!(
        TrtSession::output_verdict(1),
        Err("trt_get_output failed (cudaMemcpy error)".to_string())
    );
    assert_eq!(worker_buffers(&vec![8, 16], &vec![5, 3], 10), Some((50, 80)));
    assert_eq!(worker_buffers(&vec![], &vec![], 10), Some((5120, 131072)));
    assert_eq!(worker_buffers(&vec![1], &vec![usize::MAX], 2), None);
}

#[test]
fn sessions_are_gathered() {
    let s = gather(2, 2, vec![Some((1, 0, 'a')), None, Some((0, 1, 'b'))]).ok().unwrap();
    assert_eq!(s.table, vec![vec![None, Some('b')], vec![Some('a'), None]]);
    assert_eq!((s.total, s.failed), (2, 1));
    let none: Vec<Option<(usize, usize, char)>> = vec![None];
    assert_eq!(
        gather(1, 1, none).err().unwrap().message(),
        "inference: no TRT sessions created — check GPU availability"
    );
}

#[test]
fn only_complete_gpus_run() {
    let table = vec![vec![Some(1), Some(2), None], vec![Some(3), Some(4), Some(5)]];
    assert_eq!(
        complete_sets(table, 3).ok().unwrap(),
        vec![vec![Some(1), Some(3)], vec![Some(2), Some(4)]]
    );
    assert_eq!(
        complete_sets(vec![vec![None::<i32>]], 1).err().unwrap().message(),
        "inference: no GPUs have complete session sets — cannot run inference"
    );
    let mut table = vec![vec![Some('x')], vec![]];
    assert_eq!(take_single(&mut table, 0), Some('x'));
    assert_eq!(take_single(&mut table, 0), None);
    assert_eq!(take_single(&mut table, 1), None);
    assert_eq!(take_single(&mut table, 2), None);
}

#[test]
fn monitor_extends_every_fifth_report_and_stops() {
    let mut m = Monitor::new();
    let mut extended: Vec<bool> = Vec::new();
    for i in 1..=10u64 {
        let p = m.next(false, i * 3).unwrap();
        assert_eq!(p.since_last, 3);
        assert!(!p.finished);
        extended.push(p.extended);
    }
    assert_eq!(extended.iter().filter(|e| **e).count(), 2);
    assert!(extended[4] && extended[9]);
    assert!(m.next(true, 30).is_none());
    let p = m.next(false, 30).unwrap();
    assert_eq!(p.since_last, 0);
    assert!(p.finished);
    assert!(!Monitor::new().next(false, 0).unwrap().finished);
}

#[test]
fn latencies_have_figures() {
    let l = compute_latency_stats((1..=200u64).rev().collect());
    assert_eq!((l.min, l.p50, l.p95, l.p99, l.max), (1, 101, 191, 199, 200));
    assert_eq!((l.total, l.count), (20100, 200));
    let l = compute_latency_stats(vec![7]);
    assert_eq!((l.min, l.p50, l.p95, l.p99, l.max, l.total, l.count), (7, 7, 7, 7, 7, 7, 1));
    let l = compute_latency_stats(vec![u64::MAX, u64::MAX]);
    assert_eq!(l.total, 2 * u64::MAX as u128);
    let l = LatencyStats::default();
    assert_eq!((l.min, l.max, l.total, l.count), (0, 0, 0, 0));
    assert_eq!(compute_latency_stats(vec![]).count, 0);
    for n in 1..3000usize {
        assert_eq!(percentile(n, 95), (n as f64 * 0.95) as usize);
        assert_eq!(percentile(n, 99), (n as f64 * 0.99).min((n - 1) as f64) as usize);
    }
}

fn worker(bucket: usize, rows: usize) -> GpuWorkerStats {
    let mut g = GpuWorkerStats::new(2);
    assert!(g.has_room_for(rows, 10));
    g.record(bucket, rows, 10, 5 * rows as u64);
    g.record(1, 1, 10, 1);
    g
}

fn totals(n: u64) -> WorkerTotals {
    WorkerTotals {
        processed: 10,
        skipped: 1,
        dedup_hits: n / 20,
        unreported_hits: 0,
        unreported_misses: 0,
        hits: n,
        misses: n + 1,
        runtime_hits: n + 2,
        runtime_size: n + 3,
    }
}

fn run() -> RunCounters {
    RunCounters {
        dedup_size: 3,
        elapsed_ns: 1_500_000_000,
        n_gpus: 2,
        n_buckets: 2,
    }
}

#[test]
fn workers_count_batches() {
    let g = worker(0, 7);
    assert_eq!((g.batches, g.total_rows, g.total_capacity), (2, 8, 20));
    assert_eq!(g.latencies_us, vec![35, 1]);
    assert_eq!(g.per_bucket_batches, vec![1, 1]);
    assert_eq!(g.per_bucket_messages, vec![7, 1]);
    assert_eq!(batch_capacity(&vec![4, 5], 1, 3), 5);
    assert_eq!(batch_capacity(&vec![4, 5], 2, 3), 3);
    assert_eq!(checked_sum(&vec![1, u64::MAX - 1]), Some(u64::MAX));
    assert_eq!(checked_sum(&vec![2, u64::MAX - 1]), None);
}

#[test]
fn report_brings_workers_together() {
    let stats = summarize(&vec![totals(10), totals(20)], &vec![worker(0, 7), worker(1, 3)], &run())
        .unwrap();
    assert_eq!((stats.messages_processed, stats.messages_skipped), (20, 2));
    assert_eq!((stats.batches_computed, stats.dedup_hits), (4, 1));
    assert_eq!((stats.cache_hits, stats.cache_misses), (30, 32));
    assert_eq!((stats.runtime_cache_hits, stats.runtime_cache_size), (34, 36));
    assert_eq!((stats.total_rows, stats.total_capacity), (12, 40));
    assert_eq!(stats.per_gpu_batches, vec![2, 2]);
    assert_eq!(stats.per_bucket_batches, vec![1, 3]);
    assert_eq!(stats.per_bucket_messages, vec![7, 5]);
    assert_eq!(stats.per_bucket_batches.iter().sum::<u64>(), 4);
    assert_eq!(stats.inference_latency.max, 35);
    assert_eq!(stats.inference_latency.count, 4);
    assert_eq!(stats.cache_share(), Some((30, 62)));
    assert_eq!(stats.fill_share(), Some((12, 40)));
    assert!(summarize(&vec![totals(1), totals(u64::MAX - 4)], &vec![], &run()).is_none());
    let none = summarize(&vec![], &vec![], &run()).unwrap();
    assert_eq!((none.cache_share(), none.fill_share()), (None, None));
}

#[test]
fn report_is_written_as_json() {
    let figure = |s: &str| s.to_string();
    let figures = Figures {
        elapsed_secs: figure("1.500"),
        throughput: figure("13"),
        cache_hit_rate: figure("0.4839"),
        avg_batch_fill: figure("0.300"),
        min: figure("0.00"),
        p50: figure("0.01"),
        p95: figure("0.03"),
        p99: figure("0.03"),
        max: figure("0.04"),
        mean: figure("0.01"),
    };
    let stats = summarize(&vec![totals(10), totals(20)], &vec![worker(0, 7), worker(1, 3)], &run())
        .unwrap();
    assert_eq!(
        stats.to_json(&figures),
        concat_json()
    );
}

fn concat_json() -> String {
    [
        "{\"messages_processed\":20,\"messages_skipped\":2,\"batches_computed\":4,",
        "\"elapsed_secs\":1.500,\"throughput\":13,\"cache_hit_rate\":0.4839,",
        "\"cache_hits\":30,\"cache_misses\":32,\"runtime_cache_hits\":34,",
        "\"runtime_cache_size\":36,\"dedup_hits\":1,\"dedup_size\":3,",
        "\"n_gpus\":2,\"n_buckets\":2,\"per_gpu_batches\":[2,2],",
        "\"per_bucket_batches\":[1,3],\"per_bucket_messages\":[7,5],",
        "\"avg_batch_fill\":0.300,\"inference_latency_ms\":{\"min\":0.00,\"p50\":0.01,",
        "\"p95\":0.03,\"p99\":0.03,\"max\":0.04,\"mean\":0.01,\"count\":4}}",
    ]
    .concat()
}
