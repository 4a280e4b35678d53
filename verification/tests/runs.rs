//! Trial runs, driven step by step with made-up outcomes.
use modelsteward::bench::{Baseline, NOTHING_TO_BENCH};
use modelsteward::campaign::{Race, Trials, SLOT_COLD, SLOT_RESTORE};
use modelsteward::measurements::Measurements;
use modelsteward::router::{RouterModel, RouterState};
use modelsteward::runs::{
    freeing_line, BenchRun, BenchStage, Pass, SlotRun, SlotStage, Stage, TrialRun,
};
use modelsteward::settings::{AppConfig, Env};
use modelsteward::trial::{TrialReport, TrialResult, BASELINE};
use modelsteward::variants::{baseline_label, menu};
use modelsteward::workload::GenStats;

fn config() -> AppConfig {
    AppConfig::defaults(&Env {
        home: Some("/home/u".to_string()),
        config_home: None,
        state_home: None,
        data_home: None,
    })
}

fn micro(x: f64) -> u64 {
    (x * 1e6).round() as u64
}

fn figure(x: f64) -> i64 {
    (x * 1e6).round() as i64
}

fn timing(rewrite: f64) -> TrialResult {
    TrialResult {
        tg_novel: Some(figure(40.0)),
        tg_rewrite: Some(figure(rewrite)),
        settled_ctx: Some(100_000),
        fidelity: Some(micro(1.0)),
        ..Default::default()
    }
}

fn begin() -> TrialRun {
    let (variants, goal) = menu("spec").unwrap();
    TrialRun::begin(Race::begin("m", "spec", variants, goal, Some(7)), Trials::new())
}

/// Drive a run to its end: the first variant is fast, and `fail` names the
/// round whose load fails, with what the server holds then.
fn drive(fail: Option<(usize, Option<&str>)>) -> (TrialRun, Vec<&'static str>) {
    let cfg = config();
    let mut run = begin();
    let mut seen = Vec::new();
    loop {
        let round = run.race.at;
        run = match run.stage {
            Stage::Asking => {
                seen.push("ask");
                run.go_on(&cfg, Ok(())).0
            }
            Stage::Applying => run.applied(Ok(())),
            Stage::Loading => {
                let failing = fail.is_some_and(|(n, _)| n == round);
                let done = if failing {
                    Err("boom".to_string())
                } else {
                    Ok((micro(4.0), 100_000))
                };
                run.loaded(done).0
            }
            Stage::Timing { ctx, .. } => {
                assert_eq!(ctx, 100_000);
                run.timed(Ok(timing(if round == 1 { 80.0 } else { 40.0 })))
            }
            Stage::Leaving { .. } => {
                seen.push("release");
                run.left().0
            }
            Stage::Looking { .. } => run.looked(fail.and_then(|(_, other)| other)).0,
            Stage::Storing => {
                seen.push("store");
                run.stored(Ok(())).0
            }
            Stage::Restoring { .. } => {
                seen.push("put back");
                run.put_back(Ok(()))
            }
            Stage::Over { .. } => return (run, seen),
        };
    }
}

fn end(run: TrialRun) -> Result<TrialReport, String> {
    match run.stage {
        Stage::Over { end } => end,
        _ => panic!("the run is not over"),
    }
}

#[test]
fn a_run_measures_every_round_and_puts_the_preset_back() {
    let rounds = menu("spec").unwrap().0.len() + 1;
    let (run, seen) = drive(None);
    assert_eq!(seen.iter().filter(|s| **s == "release").count(), rounds);
    assert_eq!(seen.iter().filter(|s| **s == "store").count(), rounds);
    assert_eq!(seen.last(), Some(&"put back"));
    let table = run.trials.get("m").unwrap();
    assert!(table.contains_key(&baseline_label("spec")));
    assert!(!table.contains_key(BASELINE));
    assert_eq!(table.len(), rounds);
    let report = end(run).unwrap();
    assert!(report.verdict.winner.is_some(), "{}", report.verdict.reason);
    assert!(report.raced.contains_key(BASELINE));
}

#[test]
fn a_failed_round_is_recorded_and_the_run_goes_on() {
    let rounds = menu("spec").unwrap().0.len() + 1;
    let (run, seen) = drive(Some((2, None)));
    assert_eq!(seen.iter().filter(|s| **s == "release").count(), rounds, "released even so");
    let label = menu("spec").unwrap().0[1].label.clone();
    let row = run.trials.get("m").unwrap().get(&label).unwrap();
    assert_eq!(row.error.as_deref(), Some("boom"));
    assert_eq!(row.build, Some(7));
    assert!(end(run).is_ok());
}

#[test]
fn a_busy_server_ends_the_run_with_nothing_recorded() {
    let (run, seen) = drive(Some((0, Some("other"))));
    assert_eq!(seen, ["ask", "release", "put back"]);
    assert!(run.trials.is_empty());
    let why = end(run).err().unwrap();
    assert!(why.starts_with("the server is busy with other"), "{why}");
}

#[test]
fn a_cancelled_run_still_puts_the_preset_back() {
    let (run, begun) = begin().go_on(&config(), Err("cancelled".to_string()));
    assert!(begun.is_none());
    assert!(matches!(run.stage, Stage::Restoring { .. }));
    assert_eq!(end(run.put_back(Ok(()))).err().as_deref(), Some("cancelled"));
    let (run, _) = begin().go_on(&config(), Err("cancelled".to_string()));
    let failed = run.put_back(Err("disk full".to_string()));
    assert_eq!(end(failed).err().as_deref(), Some("disk full"));
}

#[test]
fn a_run_says_what_it_does() {
    let (run, begun) = begin().go_on(&config(), Ok(()));
    let (said, _) = begun.unwrap();
    let rounds = menu("spec").unwrap().0.len() + 1;
    assert_eq!(said, format!("[1/{rounds}] m · baseline: applying config + loading…"));
    let (run, said) = run.applied(Ok(())).loaded(Ok((micro(4.04), 8192)));
    assert_eq!(
        said.unwrap(),
        format!("[1/{rounds}] m · baseline: loaded in 4.0s (ctx 8192), timing generations…")
    );
    let (_, said) = run.timed(Ok(timing(40.0))).left();
    assert_eq!(
        said.unwrap(),
        format!("[1/{rounds}] m · baseline: novel 40.0 t/s, rewrite 40.0 t/s")
    );
}

fn turn(n: u64, ms: f64) -> GenStats {
    GenStats {
        tps: figure(40.0),
        prompt_tps: None,
        prompt_n: Some(n),
        prompt_ms: Some(figure(ms)),
        draft_n: None,
        draft_accepted: None,
        content: String::new(),
    }
}

/// Drive a slot trial; `save` is what saving comes to.
fn drive_slot(save: Result<Option<u64>, String>) -> (SlotRun, Vec<&'static str>, Vec<String>) {
    let mut run = SlotRun::begin("m", Some(7), Trials::new());
    let mut save = Some(save);
    let mut seen = Vec::new();
    let mut said = Vec::new();
    loop {
        run = match run.stage {
            SlotStage::Asking { .. } => run.go_on(Ok(())),
            SlotStage::Reloading { ref pass } => {
                seen.push(match pass {
                    Pass::Cold => "cold process",
                    Pass::First => "first process",
                    Pass::Warm { .. } => "warm process",
                });
                run.reloaded(Ok(100_000))
            }
            SlotStage::ColdTurn => {
                let (run, line) = run.cold_timed(Ok(turn(100, 4800.0)));
                said.extend(line);
                run
            }
            SlotStage::FirstTurn => run.first_timed(Ok(turn(100, 4700.0))),
            SlotStage::Saving { .. } => {
                seen.push("save");
                let (run, line) = run.saved(save.take().unwrap());
                said.extend(line);
                run
            }
            SlotStage::Restoring { .. } => {
                seen.push("restore");
                run.restored(Ok(micro(1.4)))
            }
            SlotStage::WarmTurn { .. } => {
                let (run, line) = run.warm_timed(Ok(turn(6, 300.0)));
                said.extend(line);
                run
            }
            SlotStage::Storing { .. } => run.written(),
            SlotStage::Cleaning { .. } => {
                seen.push("clean");
                run.cleaned()
            }
            SlotStage::StoringFailure { .. } => run.failure_written(),
            SlotStage::Over { .. } => return (run, seen, said),
        };
    }
}

fn slot_end(run: SlotRun) -> Result<String, String> {
    match run.stage {
        SlotStage::Over { end } => end,
        _ => panic!("the run is not over"),
    }
}

#[test]
fn a_slot_trial_saves_swaps_and_restores() {
    let (run, seen, said) = drive_slot(Ok(Some(12 << 20)));
    let order =
        ["cold process", "first process", "save", "warm process", "restore", "clean"];
    assert_eq!(seen, order);
    assert_eq!(said[0], "m: cold swap-back turn: 4800 ms prefill (100 tokens reprocessed)");
    assert_eq!(said[1], "m: saved slot snapshot (12 MiB)");
    let table = run.trials.get("m").unwrap();
    assert_eq!(table.get(SLOT_COLD).unwrap().turn2_prompt_ms, Some(figure(4800.0)));
    let warm = table.get(SLOT_RESTORE).unwrap();
    assert_eq!(warm.turn2_reuse, Some(micro(0.94)));
    assert_eq!(warm.load_secs, Some(micro(1.4)));
    let summary = slot_end(run).unwrap();
    assert!(summary.contains("300 ms vs 4800 ms cold — 16.0x faster"), "{summary}");
    assert_eq!(said[2], format!("m: {summary}"));
}

#[test]
fn a_failed_slot_trial_cleans_up_and_is_remembered() {
    let (run, seen, _) = drive_slot(Err("no spawn line".to_string()));
    assert_eq!(seen, ["cold process", "first process", "save", "clean"]);
    let row = run.trials.get("m").unwrap().get(SLOT_RESTORE).unwrap();
    assert_eq!(row.error.as_deref(), Some("no spawn line"));
    assert_eq!(slot_end(run), Err("no spawn line".to_string()));
}

#[test]
fn a_slot_trial_needs_room_for_its_prompt() {
    let run = SlotRun::begin("m", None, Trials::new()).go_on(Ok(())).reloaded(Ok(4096));
    let run = run.cleaned().failure_written();
    let why = slot_end(run).err().unwrap();
    assert!(why.starts_with("settled context 4096 is too small"), "{why}");
}

fn baseline(tg: f64) -> Baseline {
    Baseline {
        pp_tps: Some(figure(900.0)),
        tg_tps: Some(figure(tg)),
        tg_deep_tps: None,
        tg_depth: None,
        build: Some(7),
    }
}

fn resident(id: &str, status: &str) -> RouterModel {
    RouterModel {
        id: id.to_string(),
        status: status.to_string(),
        source: None,
        args_fp: None,
    }
}

fn sweep(ids: &[&str]) -> (BenchRun, Option<&'static str>) {
    BenchRun::begin(8080, ids.iter().map(|s| s.to_string()).collect(), Measurements::new())
}

fn bench_end(run: BenchRun) -> Result<(usize, usize), String> {
    match run.stage {
        BenchStage::Over { end } => end,
        _ => panic!("the run is not over"),
    }
}

#[test]
fn a_sweep_frees_the_gpu_and_benches_every_target() {
    let ours = RouterState::Ours {
        models: vec![resident("x", "loaded"), resident("y", "unloaded"), resident("z", "sleeping")],
    };
    let run = sweep(&["a", "b"]).0.found(&ours);
    assert!(matches!(&run.stage, BenchStage::Freeing { ids, next: 0 } if *ids == ["x", "z"]));
    assert_eq!(freeing_line("x"), "unloading x to free the GPU for benching…");
    let run = run.freed(Ok(()));
    assert!(matches!(run.stage, BenchStage::Freeing { next: 1, .. }));
    let run = run.freed(Ok(()));
    assert!(matches!(run.stage, BenchStage::Sensing));
    let (run, said) = run.sensed(Some(20_000), None).go_on(Ok(()));
    assert!(said.unwrap().starts_with("[1/2] benching a "));
    let (run, said) = run.benched(Ok(baseline(40.0)));
    assert_eq!(said, "[1/2] a: pp 900.0 t/s, tg 40.0 t/s (empty cache)");
    let stored = run.sweep.store.get("a").unwrap();
    assert_eq!(stored.tg_tps, Some(figure(40.0)));
    assert_eq!(stored.free_vram_mib, Some(20_000));
    let (run, _) = run.stored(Ok(())).go_on(Ok(()));
    // A failure is told and skipped.
    let (run, said) = run.benched(Err("boom".to_string()));
    assert_eq!(said, "[2/2] b: bench failed: boom");
    assert_eq!(bench_end(run), Ok((1, 1)));
}

#[test]
fn a_sweep_is_refused_on_a_contended_gpu() {
    let run = sweep(&["a"]).0.found(&RouterState::Down).sensed(None, Some("Ollama (q)"));
    let why = bench_end(run).unwrap_err();
    assert!(why.starts_with("Ollama (q) is holding the GPU"), "{why}");
    let foreign = RouterState::External { detail: "someone's".to_string() };
    let why = bench_end(sweep(&["a"]).0.found(&foreign)).unwrap_err();
    assert!(why.contains("not ours to unload"), "{why}");
}

#[test]
fn an_empty_sweep_touches_nothing() {
    let (run, said) = sweep(&[]);
    assert_eq!(said, Some(NOTHING_TO_BENCH));
    assert_eq!(bench_end(run), Ok((0, 0)));
}

#[test]
fn a_cancelled_sweep_stops_between_models() {
    let run = sweep(&["a"]).0.found(&RouterState::Down).sensed(None, None);
    let (run, said) = run.go_on(Err("cancelled".to_string()));
    assert!(said.is_none());
    assert_eq!(bench_end(run), Err("cancelled".to_string()));
}
