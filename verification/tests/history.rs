//! The measurement journal and what it says of builds.
use modelsteward::history::{
    bench_entry, build_advisory, build_deltas, calibration_entry, for_model, needs_prune, prune,
    Entry, KEEP_PER_MODEL, PRUNE_AT,
};
use modelsteward::measurements::Measurement;

fn e(when: u64, model: &str, ctx: Option<u64>) -> Entry {
    Entry {
        when,
        model: model.into(),
        build: Some(10_630),
        n_ctx: ctx,
        ..Default::default()
    }
}

fn micro(x: f64) -> i64 {
    (x * 1e6).round() as i64
}

#[test]
fn journal_appends_reads_and_orders() {
    let all = vec![e(1, "a", Some(100)), e(2, "b", Some(200)), e(3, "a", Some(90))];
    let a = for_model(&all, "a");
    assert_eq!(a.len(), 2);
    assert_eq!(a[0].when, 3, "newest first");
    assert_eq!(a[0].n_ctx, Some(90));
}

#[test]
fn build_deltas_compare_builds_not_configs() {
    let mk = |when, model: &str, build, ctx: Option<u64>, tg: Option<f64>, fp: &str| Entry {
        when,
        model: model.into(),
        build: Some(build),
        n_ctx: ctx,
        tg_tps: tg.map(micro),
        args_fp: if fp.is_empty() { None } else { Some(fp.into()) },
        ..Default::default()
    };
    let all = vec![
        // model "a": measured on both builds, same fingerprint.
        mk(1, "a", 10_454, Some(128_000), None, "fp1"),
        mk(2, "a", 10_630, Some(116_480), None, "fp1"),
        // bench baselines: no fingerprint needed.
        mk(3, "a", 10_454, None, Some(40.0), ""),
        mk(4, "a", 10_630, None, Some(41.0), ""),
        // model "b": config changed between builds — ctx delta is
        // confounded and must be skipped.
        mk(5, "b", 10_454, Some(100_000), None, "fp1"),
        mk(6, "b", 10_630, Some(50_000), None, "fp2"),
        // model "c": only ever on the new build — nothing to compare.
        mk(7, "c", 10_630, Some(9000), None, "fp1"),
    ];
    let d = build_deltas(&all);
    assert_eq!(d.len(), 1, "b confounded, c single-build: {d:?}");
    assert_eq!(d[0].model, "a");
    assert_eq!(d[0].ctx, Some((128_000, 116_480)));
    assert_eq!(d[0].tg, Some((micro(40.0), micro(41.0))));
    let line = build_advisory(&all).unwrap();
    assert!(line.contains("b10630 vs b10454"), "{line}");
    assert!(line.contains("context -9% avg (1 model)"), "{line}");
    assert!(line.contains("worst: a -9% context"), "{line}");
    // One build only -> no advisory (never extrapolate).
    assert!(build_advisory(&all[6..]).is_none());
}

fn compared(before: &[u64], after: &[u64]) -> String {
    let mut all = Vec::new();
    for (k, (b, a)) in before.iter().zip(after).enumerate() {
        for (build, ctx) in [(1u64, *b), (2, *a)] {
            all.push(Entry {
                when: build,
                model: format!("m{k}"),
                build: Some(build),
                n_ctx: Some(ctx),
                args_fp: Some("fp".to_string()),
                ..Default::default()
            });
        }
    }
    build_advisory(&all).unwrap()
}

/// A loss is told from 5% on, and not a token before it.
#[test]
fn the_worst_loss_is_exact() {
    assert_eq!(compared(&[100], &[95]), "b2 vs b1: context -5% avg (1 model); worst: m0 -5% context");
    assert_eq!(compared(&[100_000_001], &[95_000_001]), "b2 vs b1: context -5% avg (1 model)");
    let line = compared(&[300_000_000, 300_000_001], &[240_000_000, 240_000_000]);
    assert!(line.ends_with("; worst: m1 -20% context"), "{line}");
    let line = compared(&[10, 1_000], &[8, 800]);
    assert!(line.ends_with("; worst: m0 -20% context"), "of equal ones the first: {line}");
}

#[test]
fn a_speed_below_zero_counts_as_it_stands() {
    let at = |build: u64, tg: f64| Entry {
        when: build,
        model: "m".to_string(),
        build: Some(build),
        tg_tps: Some(micro(tg)),
        ..Default::default()
    };
    let told = build_advisory(&[at(1, 40.0), at(2, -20.0)]).unwrap();
    assert_eq!(told, "b2 vs b1: generation -150% avg (1 model)");
    assert!(build_advisory(&[at(1, -40.0), at(2, 20.0)]).is_none(), "nothing to compare with");
}

#[test]
fn the_average_is_that_of_the_true_ratios() {
    assert!(compared(&[3, 7, 11], &[4, 5, 11]).contains("context +2% avg (3 models)"));
    assert!(compared(&[1, 1], &[u64::MAX, 1]).contains("context +922337203685477580700% avg"));
    assert!(compared(&[1_000], &[1_025]).contains("context +2% avg (1 model)"));
}

#[test]
fn pruning_keeps_newest_per_model_and_survives_junk() {
    let mut all = Vec::new();
    for i in 0..(KEEP_PER_MODEL as u64 + 20) {
        all.push(e(i, "m", Some(i)));
    }
    let kept: Vec<Entry> = prune(&all).into_iter().cloned().collect();
    assert_eq!(kept.len(), KEEP_PER_MODEL);
    assert_eq!(
        for_model(&kept, "m")[0].when,
        KEEP_PER_MODEL as u64 + 19,
        "newest survives"
    );
}

#[test]
fn pruning_starts_past_the_threshold() {
    assert!(!needs_prune(PRUNE_AT));
    assert!(needs_prune(PRUNE_AT + 1));
}

#[test]
fn entries_carry_what_was_measured() {
    let m = Measurement {
        n_ctx: Some(50_000),
        args_fp: Some("fp".into()),
        error: None,
        ..Default::default()
    };
    let c = calibration_entry(9, "m", Some(10_630), &m);
    assert_eq!((c.when, c.model.as_str(), c.build), (9, "m", Some(10_630)));
    assert_eq!(c.n_ctx, Some(50_000));
    assert_eq!(c.args_fp.as_deref(), Some("fp"));
    let b = bench_entry(9, "m", Some(10_630), Some(micro(900.0)), Some(micro(40.0)));
    assert_eq!(b.tg_tps, Some(micro(40.0)));
    assert_eq!(b.n_ctx, None);
}
