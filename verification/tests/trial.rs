//! Trials: verdicts, menus, what is kept.
use modelsteward::campaign::{
    cold_pass, record_baseline, record_trial, reloading_line, require_ours, restore_pass,
    saved_line, slot_ready, slot_summary, Race, Trials, SLOT_COLD, SLOT_RESTORE, TRIALS_NEED,
};
use modelsteward::json::parse;
use modelsteward::measurements::{Measurement, Measurements};
use modelsteward::router::RouterState;
use modelsteward::settings::{AppConfig, Env, ModelOverrides};
use modelsteward::textmap::TextMap;
use modelsteward::trial::{
    explain, improvement, near_misses, verdict, Goal, TrialReport, TrialResult, BASELINE,
};
use modelsteward::variants::{
    applied_keys, baseline_label, baseline_override, carry_settled, keep_variant, menu,
    spec_decode_variants, stored_report, vision_variants,
};
use modelsteward::workload::{
    agent_turn_code, measure, probe_body, probes, read_stats, rewrite_code, rewrite_fidelity,
    turn_reuse, warmup_body, GenStats, Probe, PROBE_MIN_CTX,
};

fn env() -> Env {
    Env {
        home: Some("/home/u".to_string()),
        config_home: None,
        state_home: None,
        data_home: None,
    }
}

fn micro(x: f64) -> Option<u64> {
    Some((x * 1e6).round() as u64)
}

fn figure(x: f64) -> Option<i64> {
    Some((x * 1e6).round() as i64)
}

fn r(novel: f64, rewrite: f64, ctx: u64) -> TrialResult {
    TrialResult {
        tg_novel: figure(novel),
        tg_rewrite: figure(rewrite),
        settled_ctx: Some(ctx),
        ..Default::default()
    }
}

#[test]
fn verdict_picks_best_rewrite_that_costs_nothing() {
    let base = r(38.6, 39.2, 116_224);
    let mut c = TextMap::new();
    c.insert("ngram-simple".to_string(), r(40.4, 86.8, 117_248));
    c.insert("ngram-mod".to_string(), r(39.9, 70.0, 117_000));
    let v = verdict(Goal::RewriteTg, &base, &c);
    assert_eq!(v.winner.as_deref(), Some("ngram-simple"));
}

#[test]
fn prefill_goal_judges_by_prompt_speed() {
    let mut base = r(38.6, 39.2, 116_224);
    base.pp_prefill = figure(1400.0);
    let mut c = TextMap::new();
    let mut ub = r(38.5, 39.0, 115_500);
    ub.pp_prefill = figure(1800.0);
    c.insert("ub-1024".to_string(), ub);
    // Faster prefill but pays with generation speed → rejected.
    let mut bad = r(35.0, 39.0, 116_000);
    bad.pp_prefill = figure(2000.0);
    c.insert("ub-2048".to_string(), bad);
    let v = verdict(Goal::Prefill, &base, &c);
    assert_eq!(v.winner.as_deref(), Some("ub-1024"), "{}", v.reason);
    assert!(v.reason.contains("prefill"));
}

#[test]
fn verdict_rejects_context_or_speed_costs() {
    let base = r(38.6, 39.2, 116_224);
    let mut c = TextMap::new();
    // A classic draft: faster rewrite is irrelevant when the
    // context collapses.
    c.insert("draft-4b".to_string(), r(38.0, 60.0, 4_096));
    // Fast rewrite but slower novel code → rejected.
    c.insert("slower-novel".to_string(), r(30.0, 80.0, 117_000));
    // Barely faster rewrite → not worth a config change.
    c.insert("meh".to_string(), r(39.0, 41.0, 117_000));
    let v = verdict(Goal::RewriteTg, &base, &c);
    assert_eq!(v.winner, None, "{}", v.reason);
}

#[test]
fn verdict_ignores_failed_variants_and_failed_baseline() {
    let mut c = TextMap::new();
    c.insert(
        "crashed".to_string(),
        TrialResult { error: Some("boom".into()), ..Default::default() },
    );
    assert_eq!(verdict(Goal::RewriteTg, &r(38.0, 39.0, 100_000), &c).winner, None);
    assert!(verdict(Goal::RewriteTg, &TrialResult::default(), &c)
        .reason
        .contains("baseline itself failed"));
}

#[test]
fn baseline_strips_only_knob_keys() {
    let mut cfg = AppConfig::defaults(&env());
    cfg.overrides.insert(
        "m".into(),
        ModelOverrides {
            cache_type_kv: Some("q8_0".into()),
            ctx: None,
            no_mmproj: false,
            extra: vec![
                ("spec-type".into(), "ngram-simple".into()),
                ("ub".into(), "1024".into()),
            ],
        },
    );
    let ov = baseline_override(&cfg, "m", &spec_decode_variants());
    assert_eq!(ov.cache_type_kv.as_deref(), Some("q8_0"), "unrelated override kept");
    assert_eq!(
        ov.extra,
        vec![("ub".to_string(), "1024".to_string())],
        "the knob under trial is stripped; unrelated extras survive"
    );
}

#[test]
fn near_misses_surface_guard_rejected_tradeoffs() {
    // +30% prefill, rejected only on ctx.
    let mut base = r(187.2, 249.6, 255_744);
    base.pp_prefill = figure(3583.0);
    let mut c = TextMap::new();
    let mut ub = r(186.4, 293.3, 237_568);
    ub.pp_prefill = figure(4662.0);
    c.insert("ub-1024".to_string(), ub);
    // A variant that never beat the goal is NOT interesting.
    let mut dud = r(187.0, 250.0, 255_000);
    dud.pp_prefill = figure(3600.0);
    c.insert("dud".to_string(), dud);
    assert_eq!(verdict(Goal::Prefill, &base, &c).winner, None);
    let nm = near_misses(Goal::Prefill, &base, &c);
    assert_eq!(nm.len(), 1);
    assert_eq!(nm[0].label, "ub-1024");
    assert!(nm[0].gain.contains("+30% prefill"), "{}", nm[0].gain);
    assert!(nm[0].cost.contains("7% of context"), "{}", nm[0].cost);

    // An outright winner is the verdict's business, not a near-miss.
    let mut clean = r(188.0, 250.0, 255_744);
    clean.pp_prefill = figure(4700.0);
    let mut c2 = TextMap::new();
    c2.insert("clean".to_string(), clean);
    assert!(near_misses(Goal::Prefill, &base, &c2).is_empty());
}

#[test]
fn explain_narrates_the_ornith_table() {
    let mut raced = TextMap::new();
    let mk = |novel: f64, rewrite: f64, ctx: u64, acc: Option<f64>| {
        let mut t = r(novel, rewrite, ctx);
        t.accept_rewrite = acc.and_then(micro);
        t.pp_prefill = figure(3050.0);
        t
    };
    raced.insert(BASELINE.into(), mk(148.5, 149.0, 37_376, None));
    raced.insert("ngram-map-k4v".into(), mk(148.6, 159.0, 37_120, Some(0.69)));
    raced.insert("ngram-mod".into(), mk(146.5, 161.8, 36_864, Some(0.48)));
    raced.insert("ngram-simple".into(), mk(147.7, 176.0, 37_376, Some(0.48)));
    let baseline = raced.get(BASELINE).unwrap().copy();
    let v = verdict(Goal::RewriteTg, &baseline, &raced);
    assert_eq!(v.winner.as_deref(), Some("ngram-simple"));
    let report = TrialReport {
        goal: Goal::RewriteTg,
        near_misses: near_misses(Goal::RewriteTg, &baseline, &raced),
        verdict: v,
        raced,
    };
    let text = explain(&report).join("\n");
    assert!(text.contains("ngram-simple is recommended"), "{text}");
    assert!(text.contains("+18%"), "{text}");
    assert!(text.contains("under the 10% bar"), "{text}");
    assert!(
        text.contains("HIGHER acceptance rate (69% vs 48%)"),
        "acceptance lesson must fire: {text}"
    );
    assert!(text.contains("already fast"), "{text}");
    assert!(text.contains("fast helper"), "ctx framing for 37k: {text}");

    // No-winner tables explain the bar instead.
    let mut raced2 = TextMap::new();
    raced2.insert(BASELINE.into(), mk(148.5, 149.0, 37_376, None));
    raced2.insert("meh".into(), mk(148.0, 152.0, 37_376, Some(0.3)));
    let base2 = raced2.get(BASELINE).unwrap().copy();
    let report2 = TrialReport {
        goal: Goal::RewriteTg,
        verdict: verdict(Goal::RewriteTg, &base2, &raced2),
        near_misses: near_misses(Goal::RewriteTg, &base2, &raced2),
        raced: raced2,
    };
    let text2 = explain(&report2).join("\n");
    assert!(text2.contains("No candidate is recommended"), "{text2}");
    assert!(text2.contains("meh gained only +2%"), "{text2}");
}

#[test]
fn fidelity_scores_verbatim_preservation() {
    let orig = rewrite_code();
    // Perfect: response embeds the module with docstrings added.
    let good = format!("```python\n{orig}```\ndone");
    assert_eq!(rewrite_fidelity(&orig, &good), 1_000_000);
    // Whitespace variance doesn't count against it.
    let spaced = orig.replace("    ", "  ");
    assert_eq!(rewrite_fidelity(&orig, &spaced), 1_000_000);
    // Half the functions dropped → score collapses.
    let half: String = orig.lines().take(orig.lines().count() / 2)
        .collect::<Vec<_>>().join("\n");
    let s = rewrite_fidelity(&orig, &half);
    assert!(s > 400_000 && s < 600_000, "{s}");
    // Garbage → ~0.
    assert!(rewrite_fidelity(&orig, "I cannot help with that.") < 50_000);
}

#[test]
fn kv_menu_wins_on_context_and_quality_gate_disqualifies() {
    let mk = |ctx: u64, fid: f64| {
        let mut t = r(40.0, 40.0, ctx);
        t.pp_prefill = figure(1400.0);
        t.fidelity = micro(fid);
        t
    };
    let base = mk(100_000, 0.98);
    // Quality holds → the extra context wins.
    let mut c = TextMap::new();
    c.insert("ctv-q4_0".to_string(), mk(130_000, 0.96));
    let v = verdict(Goal::Context, &base, &c);
    assert_eq!(v.winner.as_deref(), Some("ctv-q4_0"), "{}", v.reason);
    assert!(v.reason.contains("tokens"), "context wins report tokens: {}", v.reason);
    // Quality collapses → disqualified no matter the context gain, and
    // surfaced as a near-miss with the quality cost spelled out.
    let mut c2 = TextMap::new();
    c2.insert("ctv-q4_0".to_string(), mk(130_000, 0.70));
    let v2 = verdict(Goal::Context, &base, &c2);
    assert_eq!(v2.winner, None, "{}", v2.reason);
    let nm = near_misses(Goal::Context, &base, &c2);
    assert_eq!(nm.len(), 1);
    assert!(nm[0].cost.contains("QUALITY"), "{}", nm[0].cost);
}

#[test]
fn massive_wins_relax_speed_guards_but_never_fidelity() {
    // cpu-moe restored context 4096 → 262144 (64x)
    // while novel speed dipped ~4% — inside run-to-run noise. A fixed
    // 3% guard vetoed it; the scaled guard must crown it.
    let mk = |novel: f64, ctx: u64, fid: f64| {
        let mut t = r(novel, 39.6, ctx);
        t.pp_prefill = figure(250.0);
        t.fidelity = micro(fid);
        t
    };
    let base = mk(41.5, 4096, 1.0);
    let mut c = TextMap::new();
    c.insert("cpu-moe".to_string(), mk(39.9, 262_144, 1.0));
    let v = verdict(Goal::Context, &base, &c);
    assert_eq!(v.winner.as_deref(), Some("cpu-moe"), "{}", v.reason);
    // And it is no longer double-listed as a near-miss.
    assert!(near_misses(Goal::Context, &base, &c).is_empty());
    // A real speed collapse still fails even the widest floor…
    let mut c2 = TextMap::new();
    c2.insert("cpu-moe-t24".to_string(), mk(23.0, 262_144, 1.0));
    assert_eq!(verdict(Goal::Context, &base, &c2).winner, None);
    // …and fidelity never relaxes, no matter the win.
    let mut c3 = TextMap::new();
    c3.insert("cheat".to_string(), mk(41.0, 262_144, 0.80));
    let v3 = verdict(Goal::Context, &base, &c3);
    assert_eq!(v3.winner, None);
    assert!(v3.reason.contains("paid too much elsewhere"), "{}", v3.reason);
}

#[test]
fn explain_classifies_slower_loads_as_under_bar() {
    // dio was 2x SLOWER — explain must file
    // it under-the-bar, never as 'qualified but outgained'.
    let mk = |secs: f64| {
        let mut t = r(43.0, 83.0, 114_000);
        t.pp_prefill = figure(1400.0);
        t.load_secs = micro(secs);
        t
    };
    let baseline = mk(4.0);
    let mut raced = TextMap::new();
    raced.insert("load-dio".to_string(), mk(8.1));
    let won = verdict(Goal::LoadTime, &baseline, &raced);
    let missed = near_misses(Goal::LoadTime, &baseline, &raced);
    raced.insert(BASELINE.to_string(), baseline);
    let report =
        TrialReport { goal: Goal::LoadTime, verdict: won, near_misses: missed, raced };
    let text = explain(&report).join("\n");
    assert!(text.contains("load-dio gained only -51%"), "{text}");
    assert!(!text.contains("qualified"), "{text}");
}

#[test]
fn load_time_goal_inverts_direction() {
    let mk = |secs: f64| {
        let mut t = r(40.0, 40.0, 100_000);
        t.pp_prefill = figure(1400.0);
        t.load_secs = micro(secs);
        t
    };
    let base = mk(12.0);
    let mut c = TextMap::new();
    c.insert("load-dio".to_string(), mk(7.5));
    c.insert("load-mlock".to_string(), mk(11.8));
    let v = verdict(Goal::LoadTime, &base, &c);
    assert_eq!(v.winner.as_deref(), Some("load-dio"), "{}", v.reason);
    assert!(v.reason.contains("7.5s"), "{}", v.reason);
    assert!(v.reason.contains("+60% better"), "lower is better: {}", v.reason);
    // A SLOWER load can never win.
    let mut c2 = TextMap::new();
    c2.insert("load-mlock".to_string(), mk(15.0));
    assert_eq!(verdict(Goal::LoadTime, &base, &c2).winner, None);
}

#[test]
fn stored_report_splits_menus_and_applied_keys_filter() {
    // A stored table mixing both menus: each menu's standing
    // recommendation must race only its own variants.
    let mut table = TextMap::new();
    table.insert(BASELINE.to_string(), {
        let mut t = r(40.0, 40.0, 100_000);
        t.pp_prefill = figure(1400.0);
        t
    });
    table.insert("ngram-simple".to_string(), {
        let mut t = r(40.0, 80.0, 100_000);
        t.pp_prefill = figure(1400.0);
        t
    });
    table.insert("ub-1024".to_string(), {
        let mut t = r(40.0, 40.0, 99_000);
        t.pp_prefill = figure(1800.0);
        t
    });
    let spec = stored_report("spec", &table).unwrap();
    assert_eq!(spec.verdict.winner.as_deref(), Some("ngram-simple"));
    assert!(!spec.raced.contains_key("ub-1024"), "menus never cross-race");
    let ub = stored_report("ub", &table).unwrap();
    assert_eq!(ub.verdict.winner.as_deref(), Some("ub-1024"), "{}", ub.verdict.reason);
    assert!(stored_report("nope", &table).is_none());

    let mut cfg = AppConfig::defaults(&env());
    cfg.overrides.insert(
        "m".into(),
        ModelOverrides {
            extra: vec![
                ("spec-type".into(), "ngram-simple".into()),
                ("ubatch-size".into(), "2048".into()),
                ("mmproj".into(), "/x".into()),
            ],
            ..Default::default()
        },
    );
    assert_eq!(
        applied_keys(&cfg, "m", "spec"),
        vec![("spec-type".to_string(), "ngram-simple".to_string())]
    );
    assert_eq!(
        applied_keys(&cfg, "m", "ub"),
        vec![("ubatch-size".to_string(), "2048".to_string())]
    );
}

#[test]
fn agent_turn_goal_rewards_lower_second_turn_ms() {
    // The probe measures time — a candidate that HALVES second-turn
    // prefill must win, and one that doubles it must lose, even with
    // every other column identical.
    let mk = |ms: f64| {
        let mut t = r(40.0, 40.0, 100_000);
        t.turn2_prompt_ms = figure(ms);
        t.turn2_reuse = micro(0.5);
        t
    };
    let base = mk(2000.0);
    let mut c = TextMap::new();
    c.insert("cache-reuse-1024".to_string(), mk(900.0));
    c.insert("cache-reuse-0".to_string(), mk(4000.0));
    let v = verdict(Goal::AgentTurn, &base, &c);
    assert_eq!(v.winner.as_deref(), Some("cache-reuse-1024"), "{}", v.reason);
    let ratio = improvement(Goal::AgentTurn, 2_000_000_000, 900_000_000);
    assert!(
        ratio.num > 2 * ratio.den,
        "halving the time should read as >2x improvement"
    );
}

#[test]
fn vision_menu_baseline_serves_with_projector() {
    // A user who already toggled vision off still gets a fair race:
    // the vision menu's baseline forces the projector back ON, and
    // keeping the text-only winner persists no_mmproj.
    let mut cfg = AppConfig::defaults(&env());
    cfg.overrides.insert(
        "m".into(),
        ModelOverrides {
            no_mmproj: true,
            ..Default::default()
        },
    );
    let variants = vision_variants();
    assert!(!baseline_override(&cfg, "m", &variants).no_mmproj);
    // ...but a menu that never touches vision leaves the toggle alone.
    assert!(baseline_override(&cfg, "m", &spec_decode_variants()).no_mmproj);
    // applied_keys surfaces the toggle as a pseudo-key for the vision
    // menu only.
    assert_eq!(
        applied_keys(&cfg, "m", "vision"),
        vec![("no-mmproj".to_string(), "true".to_string())]
    );
    assert!(applied_keys(&cfg, "m", "spec").is_empty());
}

#[test]
fn scoped_baselines_end_the_cross_menu_overwrite() {
    // The cache campaign's baseline
    // (ngram-simple still applied → fast rewrite) overwrote the spec
    // campaign's stripped baseline, so ngram-simple raced itself.
    let mut table = TextMap::new();
    table.insert(BASELINE.to_string(), r(41.0, 88.0, 114_944)); // legacy: confounded
    table.insert(baseline_label("spec"), r(41.0, 40.0, 114_944)); // true spec baseline
    table.insert("ngram-simple".to_string(), r(41.0, 87.9, 114_944));
    let rep = stored_report("spec", &table).unwrap();
    assert_eq!(
        rep.verdict.winner.as_deref(),
        Some("ngram-simple"),
        "scoped baseline restores the honest +120% rewrite win — {}",
        rep.verdict.reason
    );
    // Menus without a scoped row still fall back to the legacy one.
    table.remove(&baseline_label("spec"));
    let rep = stored_report("spec", &table).unwrap();
    assert!(rep.verdict.winner.is_none(), "legacy fallback still works");
}

#[test]
fn slot_summary_prices_the_swap_back() {
    let mut table = TextMap::new();
    table.insert(
        SLOT_COLD.to_string(),
        TrialResult {
            turn2_prompt_ms: figure(4800.0),
            ..Default::default()
        },
    );
    table.insert(
        SLOT_RESTORE.to_string(),
        TrialResult {
            turn2_prompt_ms: figure(300.0),
            load_secs: micro(1.4),
            ..Default::default()
        },
    );
    let line = slot_summary(&table).unwrap();
    assert!(line.contains("300 ms vs 4800 ms"), "{line}");
    assert!(line.contains("16.0x faster"), "{line}");
    assert!(line.contains("+1.4s"), "{line}");
    // A failed restore reports itself instead of a ratio.
    let mut failed = table.get(SLOT_RESTORE).unwrap().copy();
    failed.error = Some("500 from child".into());
    table.insert(SLOT_RESTORE.to_string(), failed);
    assert!(slot_summary(&table).unwrap().contains("failed: 500 from child"));
    // No restore row → no line (cold alone proves nothing).
    table.remove(SLOT_RESTORE);
    assert!(slot_summary(&table).is_none());
}

#[test]
fn trials_roundtrip() {
    let mut t = Trials::new();
    record_trial(&mut t, "m", BASELINE, r(38.0, 39.0, 100_000));
    assert_eq!(t.get("m").unwrap().get(BASELINE).unwrap().tg_novel, figure(38.0));
}

#[test]
fn baselines_are_recorded_under_both_labels() {
    let mut t = Trials::new();
    record_baseline(&mut t, "m", "spec", r(38.0, 39.0, 100_000));
    let table = t.get("m").unwrap();
    assert!(table.contains_key(&baseline_label("spec")));
    record_trial(&mut t, "other", "x", r(1.0, 1.0, 1));
    assert!(t.get("m").unwrap().contains_key(&baseline_label("spec")), "other models stay");
}

#[test]
fn a_kept_winner_is_written_and_recompetes_fairly() {
    let mut cfg = AppConfig::defaults(&env());
    let variants = spec_decode_variants();
    keep_variant(&mut cfg, "m", &variants, "ngram-simple").unwrap();
    assert!(!applied_keys(&cfg, "m", "spec").is_empty());
    assert!(baseline_override(&cfg, "m", &variants).extra.is_empty(), "the knob is stripped");
    keep_variant(&mut cfg, "m", &variants, BASELINE).unwrap();
    assert!(applied_keys(&cfg, "m", "spec").is_empty(), "the baseline carries no knob");
    assert!(keep_variant(&mut cfg, "m", &variants, "nope").is_err());
    assert!(menu("spec").is_some() && menu("nope").is_none());
}

#[test]
fn a_kept_context_is_carried_stale() {
    let mut all = Measurements::new();
    all.insert(
        "m".into(),
        Measurement { n_ctx: Some(1), args_fp: Some("a".into()), ..Default::default() },
    );
    assert!(carry_settled(&mut all, "m", Some(&r(1.0, 1.0, 9_000))));
    let m = all.get("m").unwrap();
    assert_eq!(m.n_ctx, Some(9_000));
    assert!(m.args_fp.is_none(), "re-measured on the next calibrate");
    assert!(!carry_settled(&mut all, "m", Some(&TrialResult::default())));
    assert!(!carry_settled(&mut all, "m", None));
}

#[test]
fn the_modules_differ_in_one_place() {
    let a = agent_turn_code(false);
    let b = agent_turn_code(true);
    assert_ne!(a, b);
    let same = a.lines().zip(b.lines()).filter(|(x, y)| x == y).count();
    assert!(same + 3 >= a.lines().count(), "one edit only");
    assert!(rewrite_code().contains("def "));
}

fn stats(tps: f64, n: u64, ms: f64) -> GenStats {
    GenStats {
        tps: figure(tps).unwrap(),
        prompt_tps: figure(1400.0),
        prompt_n: Some(n),
        prompt_ms: figure(ms),
        draft_n: None,
        draft_accepted: None,
        content: rewrite_code(),
    }
}

#[test]
fn timings_are_read_off_the_reply() {
    let body = parse(
        r#"{"choices":[{"message":{"content":"hi"}}],
            "timings":{"predicted_per_second":41.5,"prompt_per_second":1400.25,"prompt_n":286,
                       "prompt_ms":142.88,"draft_n":10,"draft_n_accepted":5}}"#,
    )
    .unwrap();
    let s = read_stats(&body, Probe::Rewrite).unwrap();
    assert_eq!(s.tps, 41_500_000);
    assert_eq!(s.prompt_n, Some(286));
    assert_eq!(s.prompt_ms, Some(142_880_000));
    assert_eq!(s.content, "hi");
    assert!(read_stats(&parse("{}").unwrap(), Probe::NovelClass).is_err());
    assert_eq!(probe_body("m", Probe::Rewrite).get("model").unwrap().as_str().unwrap(), "m");
    assert_eq!(warmup_body("m").get("model").unwrap().as_str().unwrap(), "m");
}

#[test]
fn a_measurement_joins_its_probes() {
    let all = probes(100_000);
    assert!(all.len() > probes(PROBE_MIN_CTX - 1).len(), "small contexts skip the long probes");
    let st: Vec<GenStats> = all.iter().map(|_| stats(40.0, 100, 900.0)).collect();
    let t = measure(100_000, &st).unwrap();
    assert_eq!(t.settled_ctx, Some(100_000));
    assert_eq!(t.tg_rewrite, figure(40.0));
    assert_eq!(t.fidelity, micro(1.0));
    assert_eq!(turn_reuse(Some(100), Some(25)), micro(0.75));
    assert_eq!(turn_reuse(Some(100), None), None);
}

#[test]
fn a_race_records_every_variant_and_reports() {
    let (variants, goal) = menu("spec").unwrap();
    let total = variants.len();
    let cfg = AppConfig::defaults(&env());
    let mut trials = Trials::new();
    let mut race = Race::begin("m", "spec", variants, goal, Some(10_630));
    for k in 0..=total {
        let (said, _) = race.start(&cfg);
        assert!(said.contains('m'), "{said}");
        let speed = if k == 1 { 80.0 } else { 40.0 };
        let (_, row) = race.measured(r(40.0, speed, 100_000), micro(4.0).unwrap());
        assert_eq!(row.build, Some(10_630));
        race.record(&mut trials, row);
    }
    let (lines, report) = race.finish();
    assert!(!lines.is_empty());
    assert!(report.verdict.winner.is_some(), "{}", report.verdict.reason);
    assert!(trials.get("m").unwrap().contains_key(&baseline_label("spec")));
    let (variants, goal) = menu("spec").unwrap();
    let race = Race::begin("m", "spec", variants, goal, None);
    assert!(race.failed("boom", Some("other")).is_err(), "a busy server records nothing");
    assert_eq!(race.failed("boom", None).unwrap().1.error.as_deref(), Some("boom"));
}

#[test]
fn trials_run_only_on_our_router() {
    assert!(require_ours(&RouterState::Ours { models: vec![] }, 8080, TRIALS_NEED).is_ok());
    assert!(require_ours(&RouterState::Down, 8080, TRIALS_NEED).is_err());
}

#[test]
fn the_slot_trial_compares_cold_and_restored() {
    assert!(slot_ready(100_000).is_ok());
    assert!(slot_ready(10).is_err());
    let (said, cold) = cold_pass("m", &stats(40.0, 100, 4800.0), Some(7)).unwrap();
    assert!(said.contains("4800"), "{said}");
    assert_eq!(cold.turn2_prompt_ms, figure(4800.0));
    let warm =
        restore_pass(&stats(40.0, 100, 4800.0), &stats(40.0, 6, 300.0), micro(1.4).unwrap(), Some(7))
            .unwrap();
    assert_eq!(warm.turn2_prompt_ms, figure(300.0));
    assert_eq!(warm.load_secs, micro(1.4));
    assert_eq!(saved_line("m", Some(12 << 20)), "m: saved slot snapshot (12 MiB)");
    assert!(reloading_line("m").contains('m'));
}

/// A figure below zero is read as it stands, judged by it, and told with its
/// sign.
#[test]
fn figures_below_zero_keep_their_sign() {
    let body = parse(
        r#"{"timings": {"predicted_per_second": -2.5, "prompt_per_second": -3, "prompt_ms": -0.4}}"#,
    )
    .unwrap();
    let s = read_stats(&body, Probe::Rewrite).unwrap();
    assert_eq!(Some(s.tps), figure(-2.5));
    assert_eq!((s.prompt_tps, s.prompt_ms), (figure(-3.0), figure(-0.4)));
    let base = r(40.0, 40.0, 100_000);
    let mut c = TextMap::new();
    c.insert("odd".to_string(), r(-4.0, 80.0, 100_000));
    let misses = near_misses(Goal::RewriteTg, &base, &c);
    assert_eq!(misses[0].cost, "110% of novel-code speed (40 → -4 t/s)");
    assert_eq!(verdict(Goal::RewriteTg, &base, &c).winner, None);
    // Against a baseline that is not above zero.
    let mut c = TextMap::new();
    c.insert("odd".to_string(), r(-10.0, 80.0, 100_000));
    let below = near_misses(Goal::RewriteTg, &r(-5.0, 40.0, 100_000), &c);
    assert_eq!(below[0].cost, "-100% of novel-code speed (-5 → -10 t/s)");
    let nothing = near_misses(Goal::RewriteTg, &r(0.0, 40.0, 100_000), &c);
    assert_eq!(nothing[0].cost, "inf% of novel-code speed (0 → -10 t/s)");
    let imp = improvement(Goal::RewriteTg, 40, -20);
    assert_eq!((imp.num, imp.den), (-20, 40));
    let (said, row) = cold_pass("m", &s, None).unwrap();
    assert_eq!(said, "m: cold swap-back turn: -0 ms prefill (0 tokens reprocessed)");
    assert_eq!(row.turn2_prompt_ms, figure(-0.4));
}
