//! Baselines: the ladder, llama-bench's output, and the sweep.
use modelsteward::bench::{
    bench_bin, bench_command, checked, depth_rung, extra_args, failure_text, files_by_id,
    parse_output, refuse_tenant, targets, to_unload, Baseline, Fleet, Sweep,
};
use modelsteward::json::{parse, Json};
use modelsteward::library::{ModelFile, Source};
use modelsteward::measurements::{Measurement, Measurements};
use modelsteward::path::PathMap;
use modelsteward::router::{RouterModel, RouterState};
use modelsteward::settings::ModelOverrides;
use modelsteward::textmap::TextMap;

fn json(text: &str) -> Json {
    parse(text).unwrap()
}

fn micro(x: f64) -> Option<i64> {
    Some((x * 1e6).round() as i64)
}

const NOTHING: Baseline =
    Baseline { pp_tps: None, tg_tps: None, tg_deep_tps: None, tg_depth: None, build: None };

#[test]
fn depth_rung_is_a_fixed_ladder_that_leaves_room_for_the_probe() {
    // A generation benchmark from an EMPTY cache overstates what a user
    // gets, so we also bench at depth. The rung is FIXED rather than
    // "settled_ctx / 2" because settled context itself varies run to run,
    // and a moving depth would make the rebuild scorecard compare two
    // different tests.
    assert_eq!(depth_rung(Some(131_072)), 32_768);
    assert_eq!(depth_rung(Some(65_536)), 32_768);
    assert_eq!(depth_rung(Some(65_535)), 16_384, "just under the rung");
    assert_eq!(depth_rung(Some(32_768)), 16_384);
    assert_eq!(depth_rung(Some(16_384)), 8_192);
    assert_eq!(depth_rung(Some(9_000)), 4_096);
    // Small or unknown contexts get no deep pass: the probe itself
    // needs 512 prompt + 128 gen of headroom on top of the depth.
    assert_eq!(depth_rung(Some(8_000)), 0);
    assert_eq!(depth_rung(None), 0);
    // Every rung must fit its own probe inside the context.
    for ctx in [8_192u64, 16_384, 32_768, 65_536, 131_072, 262_144] {
        let d = depth_rung(Some(ctx));
        assert!(d + 512 + 128 < ctx, "rung {d} does not fit in {ctx}");
    }
}

#[test]
fn parse_output_separates_the_empty_cache_run_from_the_deep_one() {
    // llama-bench emits one row per (test, depth); the JSON carries
    // n_depth.
    let body = json(
        r#"[
        {"n_prompt": 512, "n_gen": 0, "n_depth": 0, "avg_ts": 1063.0, "build_number": 10760},
        {"n_prompt": 0, "n_gen": 128, "n_depth": 0, "avg_ts": 38.25, "build_number": 10760},
        {"n_prompt": 512, "n_gen": 0, "n_depth": 32768, "avg_ts": 944.0, "build_number": 10760},
        {"n_prompt": 0, "n_gen": 128, "n_depth": 32768, "avg_ts": 30.10, "build_number": 10760}
    ]"#,
    );
    let b = parse_output(&body);
    // Depth-0 keeps its historical meaning so old baselines and the
    // rebuild scorecard stay comparable.
    assert_eq!(b.pp_tps, micro(1063.0));
    assert_eq!(b.tg_tps, micro(38.25));
    // The honest headline: generation at a depth users actually run.
    assert_eq!(b.tg_deep_tps, micro(30.10));
    assert_eq!(b.tg_depth, Some(32_768));
    assert_eq!(b.build, Some(10760));

    // A legacy single-depth run (no n_depth field) still parses,
    // and claims no deep number rather than inventing one.
    let legacy = json(
        r#"[
        {"n_prompt": 512, "n_gen": 0, "avg_ts": 1000.0, "build_number": 10454},
        {"n_prompt": 0, "n_gen": 128, "avg_ts": 40.0, "build_number": 10454}
    ]"#,
    );
    let b = parse_output(&legacy);
    assert_eq!(b.tg_tps, micro(40.0));
    assert_eq!(b.tg_deep_tps, None);
    assert_eq!(b.tg_depth, None);
}

#[test]
fn parses_pp_and_tg_from_real_shape() {
    // Trimmed from a live run (build 10454).
    let body = json(
        r#"[
        {"build_number": 10454, "n_prompt": 512, "n_gen": 0, "avg_ts": 1234.5, "stddev_ts": 10.0},
        {"build_number": 10454, "n_prompt": 0, "n_gen": 128, "avg_ts": 42.25, "stddev_ts": 0.5},
        {"build_number": 10454, "n_prompt": 512, "n_gen": 128, "avg_ts": 99.0}
    ]"#,
    );
    let b = parse_output(&body);
    assert_eq!(b.pp_tps, micro(1234.5));
    assert_eq!(b.tg_tps, micro(42.25));
    assert_eq!(b.build, Some(10454), "mixed pp+tg row ignored");
}

#[test]
fn tolerates_junk() {
    assert_eq!(parse_output(&json(r#"{"not": "an array"}"#)), NOTHING);
    assert_eq!(parse_output(&json("[]")), NOTHING);
}

#[test]
fn bench_bin_is_a_sibling() {
    assert_eq!(bench_bin("/opt/llama.cpp/bin/llama-server"), "/opt/llama.cpp/bin/llama-bench");
}

#[test]
fn a_run_without_results_is_a_failure() {
    assert_eq!(
        checked(&json("[]")),
        Err("llama-bench ran but produced no pp/tg results".to_string())
    );
    let one = json(r#"[{"n_prompt": 0, "n_gen": 128, "avg_ts": 40.0}]"#);
    assert_eq!(checked(&one).unwrap().tg_tps, micro(40.0));
}

#[test]
fn failures_carry_the_last_three_lines() {
    assert_eq!(
        failure_text("/m.gguf", "a\n\nb\nc\n  \nd\n"),
        "llama-bench failed for /m.gguf: b | c | d"
    );
}

#[test]
fn the_command_measures_both_depths_in_one_load() {
    let args = bench_command("/m.gguf", &["-ctk".to_string(), "q8_0".to_string()], 8_192);
    assert_eq!(
        args,
        vec![
            "-o", "json", "-r", "3", "-p", "512", "-n", "128", "-d", "0,8192", "-m", "/m.gguf",
            "-ctk", "q8_0",
        ]
    );
    assert_eq!(bench_command("/m.gguf", &[], 0)[9], "0");
}

fn overrides(pairs: &[(&str, &str)]) -> ModelOverrides {
    ModelOverrides {
        cache_type_kv: None,
        ctx: None,
        extra: pairs.iter().map(|(k, v)| (k.to_string(), v.to_string())).collect(),
        no_mmproj: false,
    }
}

#[test]
fn the_bench_mirrors_the_serving_config() {
    let plain = vec!["-ctk", "q8_0", "-ctv", "q8_0"];
    assert_eq!(extra_args(None), plain);
    assert_eq!(extra_args(Some(&overrides(&[("ubatch-size", "1024")]))), plain);
    let moe = extra_args(Some(&overrides(&[("cpu-moe", "1")])));
    assert_eq!(moe[4..], ["-ncmoe", "999"]);
    let split = extra_args(Some(&overrides(&[("n-cpu-moe", "12")])));
    assert_eq!(split[4..], ["-ncmoe", "12"]);
    let mut ov = overrides(&[]);
    ov.cache_type_kv = Some("f16".to_string());
    assert_eq!(extra_args(Some(&ov)), vec!["-ctk", "f16", "-ctv", "f16"]);
}

fn file(path: &str) -> ModelFile {
    ModelFile {
        path: path.to_string(),
        file_size: 1_000,
        source: Source::Shelf,
        meta: None,
        mmproj: None,
    }
}

#[test]
fn throughputs_below_zero_keep_their_sign() {
    let body =
        parse(r#"[{"n_prompt": 512, "n_gen": 0, "avg_ts": -1.25, "build_number": 1}]"#).unwrap();
    assert_eq!(parse_output(&body).pp_tps, micro(-1.25));
}

#[test]
fn a_sweep_takes_measured_models_whose_baseline_is_missing_or_old() {
    let models = vec![file("/m/a.gguf"), file("/m/b.gguf"), file("/m/c.gguf")];
    let mut ids = PathMap::new();
    for (p, id) in [("/m/a.gguf", "a"), ("/m/b.gguf", "b"), ("/m/c.gguf", "c")] {
        ids.insert(p.to_string(), id.to_string());
    }
    let by_id = files_by_id(&models, &ids);
    assert_eq!(by_id.get("b"), Some(&1));
    let mut store = Measurements::new();
    store.insert("a".into(), Measurement { n_ctx: Some(9_000), ..Default::default() });
    store.insert(
        "b".into(),
        Measurement {
            n_ctx: Some(9_000),
            pp_tps: micro(1.0),
            tg_tps: micro(1.0),
            bench_build: Some(7),
            ..Default::default()
        },
    );
    let off = TextMap::new();
    let fleet = Fleet { models: &models, by_id: &by_id, measurements: &store, off: &off };
    assert_eq!(targets(&fleet, None, false, Some(7)), Ok(vec!["a".to_string()]));
    assert_eq!(
        targets(&fleet, None, false, Some(8)),
        Ok(vec!["a".to_string(), "b".to_string()])
    );
    assert_eq!(targets(&fleet, Some("c"), false, Some(7)), Ok(vec!["c".to_string()]));
    assert!(targets(&fleet, Some("zzz"), false, None).unwrap_err().starts_with("unknown model id \"zzz\""));
    let mut off = TextMap::new();
    off.insert("c".to_string(), ());
    let fleet = Fleet { models: &models, by_id: &by_id, measurements: &store, off: &off };
    assert_eq!(
        targets(&fleet, Some("c"), false, None),
        Err("c is disabled — enable it on the Library tab first".to_string())
    );
}

#[test]
fn a_foreign_server_is_never_unloaded() {
    assert_eq!(to_unload(&RouterState::Down, 8080), Ok(vec![]));
    let m = |id: &str, status: &str| RouterModel {
        id: id.to_string(),
        status: status.to_string(),
        source: None,
        args_fp: None,
    };
    let ours = RouterState::Ours {
        models: vec![m("a", "loaded"), m("b", "unloaded"), m("c", "sleeping")],
    };
    assert_eq!(to_unload(&ours, 8080), Ok(vec!["a".to_string(), "c".to_string()]));
}

#[test]
fn another_tenant_stops_the_sweep() {
    assert!(refuse_tenant(None).is_ok());
    assert!(refuse_tenant(Some("ollama")).unwrap_err().starts_with("ollama is holding the GPU"));
}

#[test]
fn the_sweep_narrates_records_and_counts() {
    let mut store = Measurements::new();
    store.insert("a".into(), Measurement { n_ctx: Some(16_384), ..Default::default() });
    let mut s = Sweep::begin(vec!["a".to_string(), "b".to_string()], Some(20_000), store);
    let (depth, said) = s.start();
    assert_eq!(depth, 8_192);
    assert!(said.starts_with("[1/2] benching a (pp512 + tg128 ×3, plus generation with 8192 tokens"), "{said}");
    let done = s.finish(Ok(Baseline {
        pp_tps: micro(1063.0),
        tg_tps: micro(38.25),
        tg_deep_tps: micro(30.1),
        tg_depth: Some(8_192),
        build: Some(10760),
    }));
    assert_eq!(done, "[1/2] a: pp 1063.0 t/s, tg 38.2 t/s (empty cache), tg 30.1 t/s at 8192 depth");
    let (depth, said) = s.start();
    assert_eq!(depth, 0);
    assert_eq!(said, "[2/2] benching b (pp512 + tg128 ×3 — a 27B takes about a minute)…");
    let failed = s.finish(Err("llama-bench not found".to_string()));
    assert!(failed.starts_with("[2/2] b: bench failed: llama-bench not found"), "{failed}");
    assert_eq!((s.benched, s.failed), (1, 1));
    let a = s.store.get("a").unwrap();
    assert_eq!(a.n_ctx, Some(16_384), "the measured context stays");
    assert_eq!(a.bench_build, Some(10760));
    assert_eq!(a.free_vram_mib, Some(20_000));
    assert!(!s.store.contains_key("b"));
}
