//! Joules: measured or absent.
use modelsteward::energy::{
    counter_delta, cpu_joules, gpu_joules, idle_baseline, measure_window, parse_power_w,
    rapl_packages, rapl_readable, read_counter, Baseline, EnergySample, PowerZone, Rapl,
};

fn micro(x: f64) -> u64 {
    (x * 1e6).round() as u64
}

fn figure(x: f64) -> i64 {
    (x * 1e6).round() as i64
}

fn sample(secs: f64, gpu_j: Option<f64>, cpu_j: Option<f64>) -> EnergySample {
    EnergySample { secs: micro(secs), gpu_j: gpu_j.map(figure), cpu_j: cpu_j.map(figure) }
}

fn idle(gpu_w: f64, cpu_w: f64) -> Baseline {
    Baseline { gpu_w: Some(figure(gpu_w)), cpu_w: Some(figure(cpu_w)) }
}

fn joules(x: f64) -> Option<u128> {
    Some(micro(x) as u128)
}

#[test]
fn a_missing_cpu_half_is_unknown_not_a_total() {
    let s = sample(10.0, Some(1000.0), None);
    assert_eq!(
        s.marginal_j(&idle(20.0, 5.0)),
        None,
        "GPU-only is not the total energy; measured or absent, no estimates"
    );
}

#[test]
fn a_missing_gpu_half_is_also_unknown() {
    let s = sample(10.0, None, Some(200.0));
    assert_eq!(s.marginal_j(&idle(20.0, 5.0)), None);
}

/// Both halves present: a real total, idle draw subtracted.
#[test]
fn both_halves_present_gives_the_marginal_total() {
    let s = sample(10.0, Some(1000.0), Some(200.0));
    // (1000 - 200) + (200 - 50) = 950
    assert_eq!(s.marginal_j(&idle(20.0, 5.0)), joules(950.0));
}

/// nvidia-smi reporting no usable value is unknown, not zero watts.
#[test]
fn nvidia_smi_reporting_no_value_is_unknown() {
    assert_eq!(parse_power_w("[N/A]\n"), None);
    assert_eq!(parse_power_w("[Not Supported]"), None);
    assert_eq!(parse_power_w(""), None);
    assert_eq!(parse_power_w("   \n  \n"), None);
}

#[test]
fn real_readings_still_sum_across_cards() {
    assert_eq!(parse_power_w("350.5\n"), Some(micro(350.5) as i128));
    assert_eq!(parse_power_w("100.0\n200.0\n"), Some(micro(300.0) as i128));
}

#[test]
fn a_reading_of_any_length_is_read() {
    assert_eq!(parse_power_w("350.500000000000000000000000001\n"), Some(micro(350.5) as i128));
    assert_eq!(parse_power_w("3505e-1"), Some(micro(350.5) as i128));
    assert_eq!(parse_power_w("-1.5"), Some(-(micro(1.5) as i128)));
    assert_eq!(parse_power_w("1.2.3"), None);
    assert_eq!(parse_power_w("--1"), None);
}

fn package(max_range_uj: u64) -> Rapl {
    Rapl { energy_path: "/sys/energy_uj".to_string(), max_range_uj }
}

#[test]
fn a_failed_energy_read_is_unknown_not_a_phantom_wraparound() {
    let max = 262_143_328_850u64;
    assert_eq!(counter_delta(0, 0, max), 0);
    assert_eq!(
        counter_delta(500, 0, max),
        max - 500,
        "a zeroed 'after' really does look like a full wrap"
    );
    // Any missing reading makes the whole CPU figure None.
    let pkgs = vec![package(max), package(max), package(max)];
    let before = [Some(0), Some(0), Some(0)];
    let partial = cpu_joules(&pkgs, &before, &[Some(1_000_000), None, Some(2_000_000)]);
    assert_eq!(partial, None, "one missing package poisons the sum, by design");
    let complete = cpu_joules(&pkgs[..2], &before[..2], &[Some(1_000_000), Some(2_000_000)]);
    assert_eq!(complete, joules(3.0));
    assert_eq!(cpu_joules(&[], &[], &[]), None, "no package, no figure");
}

#[test]
fn an_unreadable_counter_file_reads_as_none_not_zero() {
    assert_eq!(read_counter(&Some("123456\n".to_string())), Some(123_456));
    assert_eq!(read_counter(&None), None);
    assert_eq!(read_counter(&Some("locked".to_string())), None);
}

#[test]
fn counter_delta_handles_wraparound() {
    assert_eq!(counter_delta(100, 250, 1000), 150);
    // Wrapped: 900 -> top (1000) is 100, plus 50 past zero.
    assert_eq!(counter_delta(900, 50, 1000), 150);
    assert_eq!(counter_delta(0, 0, 1000), 0);
}

#[test]
fn marginal_subtracts_idle_and_never_goes_negative() {
    let s = sample(10.0, Some(3000.0), Some(500.0)); // 300W and 50W avg
    // (3000 - 250) + (500 - 100) = 3150
    assert_eq!(s.marginal_j(&idle(25.0, 10.0)), joules(3150.0));
    // Idle hotter than the window -> clamps to zero, not negative.
    assert_eq!(s.marginal_j(&idle(400.0, 100.0)), joules(0.0));
    // Below zero either way, what is above the idle draw is what counts.
    let fed = sample(10.0, Some(-10.0), Some(500.0));
    assert_eq!(fed.marginal_j(&idle(-5.0, 10.0)), joules(440.0));
    // Both halves, or no number.
    assert_eq!(sample(10.0, Some(3000.0), None).marginal_j(&idle(25.0, 10.0)), None);
    // Nothing measurable -> None, never a guess.
    assert_eq!(sample(10.0, None, None).marginal_j(&idle(25.0, 10.0)), None);
}

#[test]
fn power_samples_integrate_over_their_times() {
    // 100 W for half a second, then 300 W for half a second.
    let half = micro(0.5);
    assert_eq!(gpu_joules(&[(figure(100.0), half), (figure(300.0), half)]), Some(figure(200.0)));
    assert_eq!(gpu_joules(&[]), None, "no sample is no figure");
    assert_eq!(gpu_joules(&[(i64::MAX, u64::MAX), (i64::MAX, u64::MAX)]), Some(i64::MAX));
    // A card that feeds power back counts against the others.
    assert_eq!(gpu_joules(&[(figure(-100.0), half), (figure(60.0), half)]), Some(figure(-20.0)));
    assert_eq!(gpu_joules(&[(i64::MIN, u64::MAX), (i64::MIN, u64::MAX)]), Some(i64::MIN));
}

#[test]
fn a_window_joins_both_instruments() {
    let w = measure_window(
        micro(2.0),
        &[(figure(150.0), micro(2.0))],
        &[package(1_000_000)],
        &[Some(900_000)],
        &[Some(50_000)],
    );
    assert_eq!(w, sample(2.0, Some(300.0), Some(0.15)));
    let quiet = measure_window(micro(2.0), &[], &[], &[], &[]);
    assert_eq!(quiet, sample(2.0, None, None));
}

#[test]
fn a_quiet_window_gives_the_average_power() {
    assert_eq!(idle_baseline(&sample(10.0, Some(250.0), Some(100.0))), idle(25.0, 10.0));
    // A window of no length is taken for a millisecond.
    assert_eq!(
        idle_baseline(&sample(0.0, Some(1.0), None)),
        Baseline { gpu_w: Some(figure(1000.0)), cpu_w: None }
    );
}

#[test]
fn only_readable_packages_count() {
    let zone = |name: &str, energy: Option<&str>, range: Option<&str>| PowerZone {
        name: name.to_string(),
        path: format!("/sys/class/powercap/{name}"),
        energy_uj: energy.map(String::from),
        max_energy_range_uj: range.map(String::from),
    };
    let zones = vec![
        zone("intel-rapl:0", Some("5\n"), Some("262143328850\n")),
        zone("intel-rapl:0:0", Some("5\n"), Some("262143328850\n")),
        zone("dtpm", Some("5\n"), Some("1\n")),
    ];
    let p = rapl_packages(&zones);
    assert_eq!(p.len(), 1, "{p:?}");
    assert_eq!(p[0].max_range_uj, 262_143_328_850);
    assert!(rapl_readable(&zones));
    assert!(!rapl_readable(&[zone("intel-rapl:0", None, Some("262143328850\n"))]));
}
