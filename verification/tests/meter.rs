//! The token meter.
use modelsteward::dates::date_from_epoch;
use modelsteward::meter::{
    deltas, fmt_report, group, harvest, log_fingerprint, report, summary_line, Bucket, Cursor,
    Tally,
};
use modelsteward::textmap::TextMap;

fn tal(turns: u64, prompt: u64, generated: u64, reused: u64) -> Tally {
    Tally {
        turns,
        prompt,
        generated,
        reused,
    }
}

fn one(model: &str, t: Tally) -> TextMap<Tally> {
    let mut m = TextMap::new();
    m.insert(model.to_string(), t);
    m
}

#[test]
fn deltas_credit_only_the_new_and_survive_truncation() {
    let totals = one("m", tal(5, 1000, 200, 300));
    // Same instance, partially credited → only the growth.
    let cursor = Cursor {
        fingerprint: "fp1".into(),
        credited: one("m", tal(3, 600, 120, 200)),
    };
    let d = deltas(&totals, &cursor, "fp1");
    assert_eq!(d, vec![("m".to_string(), tal(2, 400, 80, 100))]);
    // New instance (router restarted) → everything is new credit.
    let d = deltas(&totals, &cursor, "fp2");
    assert_eq!(d, vec![("m".to_string(), tal(5, 1000, 200, 300))]);
    // Fully credited, same instance → nothing.
    let cursor = Cursor {
        fingerprint: "fp1".into(),
        credited: one("m", tal(5, 1000, 200, 300)),
    };
    assert!(deltas(&totals, &cursor, "fp1").is_empty());
}

#[test]
fn harvest_is_idempotent_and_ledger_accumulates_across_instances() {
    let log1 = "load: spawning server instance with name=m on port 40001\n\
         [40001] I slot update_slots: id  0 | task 7 | new prompt, n_ctx_slot = 8, prompt processing, n_tokens = 100\n\
         [40001] I slot print_timing: id  0 | task 7 | n_gen = 20\n\
         [40001] I slot release: id  0 | task 7 | stop processing: n_tokens = 140, truncated = 0\n";
    let mut all = Vec::new();
    let h = harvest(log1, 3600, &Cursor::default());
    assert_eq!(h.buckets.len(), 1);
    all.extend(h.buckets);
    let again = harvest(log1, 3700, &h.cursor);
    assert_eq!(again.buckets.len(), 0, "idempotent");
    // Router restart: NEW log (different first line), same-shaped turn.
    let log2 = log1.replace("40001", "40002");
    let h = harvest(&log2, 7300, &again.cursor);
    assert_eq!(h.buckets.len(), 1);
    all.extend(h.buckets);
    let r = report(&all, None, None);
    assert_eq!(r.fleet.turns, 2);
    assert_eq!(r.fleet.prompt, 240, "release-n_gen per turn: 120 x2");
    assert_eq!(r.fleet.generated, 40);
    assert_eq!(r.fleet.reused, 40, "(120-100) x2 served from cache");
    // Range query: only the second instance's hour.
    let r = report(&all, Some(7200), None);
    assert_eq!(r.fleet.turns, 1);
    // Buckets landed on hour boundaries.
    assert!(all.iter().all(|b| b.when % 3600 == 0));
}

#[test]
fn report_ranges_shape_and_busiest_hour() {
    let b = |when, model: &str, prompt, generated| Bucket {
        when,
        model: model.into(),
        turns: 1,
        prompt,
        generated,
        reused: 0,
    };
    let buckets = vec![
        b(0, "a", 900, 100),
        b(3600, "a", 100, 50),
        b(90_000, "b", 10, 5),
    ];
    let r = report(&buckets, None, None);
    assert_eq!(r.busiest_hour, Some((0, 1000)));
    assert_eq!(r.per_day.len(), 2, "two UTC days");
    assert_eq!(r.per_model.get("a").unwrap().prompt, 1000);
    let text = fmt_report(&r, "all time", 3_000_000);
    assert!(text.contains("6.5 prompt tokens per generated"), "{text}");
    assert!(text.contains("≈ $0.00"), "{text}");
    // Range excludes day two.
    let r = report(&buckets, None, Some(86_400));
    assert!(!r.per_model.contains_key("b"));
}

#[test]
fn an_empty_range_says_so() {
    let r = report(&[], None, None);
    assert_eq!(
        fmt_report(&r, "today (UTC)", 3_000_000),
        "Meter — today (UTC) (UTC buckets, hour grain)\nno usage recorded in this range\n"
    );
    assert_eq!(summary_line(&[], 0), None);
}

#[test]
fn figures_are_grouped_by_thousands() {
    assert_eq!(group(0), "0");
    assert_eq!(group(999), "999");
    assert_eq!(group(1_000), "1,000");
    assert_eq!(group(12_345_678), "12,345,678");
}

#[test]
fn the_fingerprint_is_that_of_the_first_line() {
    assert_eq!(log_fingerprint("a\nb\n"), log_fingerprint("a\nc\n"));
    assert_ne!(log_fingerprint("a\n"), log_fingerprint("b\n"));
}

#[test]
fn days_are_dated() {
    assert_eq!(date_from_epoch(0), "1970-01-01");
    assert_eq!(date_from_epoch(86_399), "1970-01-01");
    assert_eq!(date_from_epoch(11_016 * 86_400), "2000-02-29");
    assert_eq!(date_from_epoch(11_017 * 86_400), "2000-03-01");
}
