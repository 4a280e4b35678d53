//! The energy instrument: what a token costs in joules, measured, not
//! guessed.
//!
//! GPU power is what `nvidia-smi` reports, every GPU summed; CPU energy is
//! what Intel's RAPL package counters say — REAL joules, but root-locked on
//! many kernels; when unreadable the CPU column is honestly None (never
//! estimated).
//!
//! Marginal accounting: an idle baseline taken moments earlier is subtracted
//! — the watts the machine burns anyway are not the model's bill.
//!
//! Seconds, watts and joules are in millionths.
use crate::big::{rounded_between, Big};
use crate::num::{
    parse_micro, parse_micro_of, parse_number, parse_u64, round_even, round_even_int, rounded,
    rounded_int, UNIT,
};
use crate::path::{join_of, join_path};
use crate::text::{
    begins, chars_of, lines, lines_of, starts_with, trim, trimmed, views,
};
use vstd::prelude::*;
use vstd::string::*;

verus! {

/// One RAPL package counter (µJ, wrapping at max_energy_range_uj).
#[derive(Debug, Clone, PartialEq)]
pub struct Rapl {
    pub energy_path: String,
    pub max_range_uj: u64,
}

/// How often a character occurs.
pub open spec fn count_char(s: Seq<char>, c: char) -> nat
    decreases s.len(),
{
    if s.len() == 0 {
        0
    } else {
        count_char(s.drop_last(), c) + if s.last() == c {
            1nat
        } else {
            0nat
        }
    }
}

/// Top-level packages only (intel-rapl:N) — subzones (intel-rapl:N:M) would
/// double-count.
pub open spec fn is_package(name: Seq<char>) -> bool {
    starts_with(name, "intel-rapl:"@) && count_char(name, ':') == 1
}

fn count_of(s: &[char], c: char) -> (r: usize)
    ensures
        r as nat == count_char(s@, c),
{
    let mut n: usize = 0;
    let mut i: usize = 0;
    while i < s.len()
        invariant
            i <= s.len(),
            n <= i,
            n as nat == count_char(s@.take(i as int), c),
        decreases s.len() - i,
    {
        assert(s@.take(i + 1).drop_last() =~= s@.take(i as int));
        if s[i] == c {
            n += 1;
        }
        i += 1;
    }
    assert(s@.take(i as int) =~= s@);
    n
}

/// A directory of the power interface: its name and path, and what its two
/// files hold where they can be read.
#[derive(Debug, Clone)]
pub struct PowerZone {
    pub name: String,
    pub path: String,
    pub energy_uj: Option<String>,
    pub max_energy_range_uj: Option<String>,
}

/// The counter's reading: a failed read is UNKNOWN, not zero.
pub open spec fn reading(text: Option<String>) -> Option<u64> {
    match text {
        Some(t) => parse_u64(trim(t@)),
        None => None,
    }
}

/// What a counter file says.
pub fn read_counter(text: &Option<String>) -> (r: Option<u64>)
    ensures
        r == reading(*text),
{
    match text {
        Some(t) => {
            let c = chars_of(t.as_str());
            parse_number(trimmed(&c))
        },
        None => None,
    }
}

/// The package that a zone is; root-locked counters are reported as absent,
/// not zero.
pub open spec fn package_of(z: PowerZone) -> Option<(Seq<char>, u64)> {
    if is_package(z.name@) && z.energy_uj is Some {
        match reading(z.max_energy_range_uj) {
            Some(n) => Some((join_path(z.path@, "energy_uj"@), n)),
            None => None,
        }
    } else {
        None
    }
}

pub open spec fn packages_of(z: Seq<PowerZone>) -> Seq<(Seq<char>, u64)>
    decreases z.len(),
{
    if z.len() == 0 {
        Seq::empty()
    } else {
        let before = packages_of(z.drop_last());
        match package_of(z.last()) {
            Some(p) => before.push(p),
            None => before,
        }
    }
}

pub open spec fn rapl_views(v: Seq<Rapl>) -> Seq<(Seq<char>, u64)> {
    Seq::new(v.len(), |i: int| (v[i].energy_path@, v[i].max_range_uj))
}

/// The package counters among the zones of the power interface.
pub fn rapl_packages(zones: &[PowerZone]) -> (r: Vec<Rapl>)
    ensures
        rapl_views(r@) == packages_of(zones@),
{
    let mut out: Vec<Rapl> = Vec::new();
    let mut i: usize = 0;
    assert(zones@.take(0) =~= Seq::empty());
    assert(rapl_views(out@) =~= Seq::empty());
    while i < zones.len()
        invariant
            i <= zones.len(),
            rapl_views(out@) == packages_of(zones@.take(i as int)),
        decreases zones.len() - i,
    {
        assert(zones@.take(i + 1).drop_last() =~= zones@.take(i as int));
        assert(zones@.take(i + 1).last() == zones@[i as int]);
        let z = &zones[i];
        let name = chars_of(z.name.as_str());
        if begins(&name, "intel-rapl:") && count_of(&name, ':') == 1 && z.energy_uj.is_some() {
            if let Some(n) = read_counter(&z.max_energy_range_uj) {
                let ghost sofar = rapl_views(out@);
                let path = join_of(z.path.as_str(), "energy_uj");
                out.push(Rapl { energy_path: path, max_range_uj: n });
                assert(rapl_views(out@) =~= sofar.push((path@, n)));
            }
        }
        i += 1;
    }
    assert(zones@.take(i as int) =~= zones@);
    out
}

/// Whether CPU energy is measurable without privileges — the Build
/// Advisor surfaces the unlock hint when it isn't.
pub fn rapl_readable(zones: &[PowerZone]) -> (r: bool)
    ensures
        r == (packages_of(zones@).len() > 0),
{
    let p = rapl_packages(zones);
    assert(rapl_views(p@).len() == p@.len());
    p.len() > 0
}

/// How far a wrapping counter went.
pub open spec fn delta(before: u64, after: u64, max_range: u64) -> u64 {
    if after >= before {
        (after - before) as u64
    } else if max_range >= before {
        (max_range - before + after) as u64
    } else {
        after
    }
}

/// Counter delta with wraparound: the distance to the top plus the new value.
pub fn counter_delta(before: u64, after: u64, max_range: u64) -> (r: u64)
    ensures
        r == delta(before, after, max_range),
{
    if after >= before {
        after - before
    } else if max_range >= before {
        max_range - before + after
    } else {
        after
    }
}

/// The energy that the packages used between two readings; unknown where a
/// package has not both of them, or where there is no package.
pub open spec fn cpu_energy(
    pkgs: Seq<Rapl>,
    before: Seq<Option<u64>>,
    after: Seq<Option<u64>>,
) -> Option<nat>
    decreases pkgs.len(),
{
    if pkgs.len() == 0 {
        Some(0)
    } else {
        let k = pkgs.len() - 1;
        match (cpu_energy(pkgs.drop_last(), before, after), before[k], after[k]) {
            (Some(sum), Some(b), Some(a)) => Some(
                sum + delta(b, a, pkgs.last().max_range_uj) as nat,
            ),
            _ => None,
        }
    }
}

/// The packages' energy in microjoules. Reporting a partial sum would inject
/// invented joules into the measured-cost line.
pub fn cpu_joules(pkgs: &[Rapl], before: &[Option<u64>], after: &[Option<u64>]) -> (r: Option<u128>)
    requires
        before.len() == pkgs.len(),
        after.len() == pkgs.len(),
    ensures
        match r {
            Some(n) => pkgs@.len() > 0 && cpu_energy(pkgs@, before@, after@) == Some(n as nat),
            None => pkgs@.len() == 0 || cpu_energy(pkgs@, before@, after@) is None,
        },
{
    if pkgs.len() == 0 {
        return None;
    }
    let mut sum: u128 = 0;
    let mut i: usize = 0;
    assert(pkgs@.take(0) =~= Seq::empty());
    while i < pkgs.len()
        invariant
            i <= pkgs.len(),
            before.len() == pkgs.len(),
            after.len() == pkgs.len(),
            sum <= 0xffff_ffff_ffff_ffff * i,
            cpu_energy(pkgs@.take(i as int), before@, after@) == Some(sum as nat),
        decreases pkgs.len() - i,
    {
        assert(pkgs@.take(i + 1).drop_last() =~= pkgs@.take(i as int));
        assert(pkgs@.take(i + 1).last() == pkgs@[i as int]);
        match (before[i], after[i]) {
            (Some(b), Some(a)) => {
                assert(0xffff_ffff_ffff_ffff * i <= 0xffff_ffff_ffff_ffff * 0xffff_ffff_ffff_ffff);
                sum = sum + counter_delta(b, a, pkgs[i].max_range_uj) as u128;
            },
            _ => {
                proof {
                    lemma_unknown(pkgs@, before@, after@, i + 1);
                }
                return None;
            },
        }
        i += 1;
    }
    assert(pkgs@.take(i as int) =~= pkgs@);
    Some(sum)
}

proof fn lemma_unknown(pkgs: Seq<Rapl>, before: Seq<Option<u64>>, after: Seq<Option<u64>>, k: int)
    requires
        0 <= k <= pkgs.len(),
        cpu_energy(pkgs.take(k), before, after) is None,
    ensures
        cpu_energy(pkgs, before, after) is None,
    decreases pkgs.len() - k,
{
    if k == pkgs.len() {
        assert(pkgs.take(k) =~= pkgs);
    } else {
        assert(pkgs.take(k + 1).drop_last() =~= pkgs.take(k));
        lemma_unknown(pkgs, before, after, k + 1);
    }
}

// ------------------------------------------------------------------------- the GPU

/// The power that the lines add up to; `[N/A]`, or anything non-numeric, is a
/// card that does not tell, which is not the same as zero.
pub open spec fn power_of(l: Seq<Seq<char>>) -> Option<int>
    decreases l.len(),
{
    if l.len() == 0 {
        Some(0)
    } else {
        let t = trim(l.last());
        match power_of(l.drop_last()) {
            Some(sum) => if t.len() == 0 {
                Some(sum)
            } else {
                match parse_micro_of(t) {
                    Some(w) => Some(sum + w),
                    None => None,
                }
            },
            None => None,
        }
    }
}

/// A line holds something.
pub open spec fn any_filled(l: Seq<Seq<char>>) -> bool {
    exists|i: int| 0 <= i < l.len() && trim(#[trigger] l[i]).len() > 0
}

/// Sum the per-GPU `power.draw` column, or `None` when nothing usable
/// came back.
pub fn parse_power_w(stdout: &str) -> (r: Option<i128>)
    ensures
        match r {
            Some(w) => any_filled(lines(stdout@)) && power_of(lines(stdout@)) == Some(w as int),
            None => !any_filled(lines(stdout@)) || power_of(lines(stdout@)) is None,
        },
{
    let c = chars_of(stdout);
    let l = lines_of(&c);
    let ghost all = lines(stdout@);
    let mut any = false;
    let mut total: i128 = 0;
    let mut i: usize = 0;
    assert(all.take(0) =~= Seq::empty());
    while i < l.len()
        invariant
            i <= l.len(),
            all == lines(stdout@),
            views(l@) == all,
            any == exists|k: int| 0 <= k < i && trim(#[trigger] all[k]).len() > 0,
            -0x4000_0000_0000_0000 * i <= total <= 0x4000_0000_0000_0000 * i,
            power_of(all.take(i as int)) == Some(total as int),
        decreases l.len() - i,
    {
        assert(all.take(i + 1).drop_last() =~= all.take(i as int));
        assert(all.take(i + 1).last() == l@[i as int]@);
        assert(all[i as int] == l@[i as int]@);
        let t = trimmed(l[i]);
        if t.len() > 0 {
            match parse_micro(t) {
                Some(w) => {
                    assert(0x4000_0000_0000_0000 * i <= 0x4000_0000_0000_0000
                        * 0xffff_ffff_ffff_ffff);
                    total = total + w;
                },
                None => {
                    proof {
                        lemma_no_power(all, i + 1);
                    }
                    return None;
                },
            }
            any = true;
        }
        i += 1;
    }
    assert(all.take(i as int) =~= all);
    if any {
        Some(total)
    } else {
        None
    }
}

proof fn lemma_no_power(l: Seq<Seq<char>>, k: int)
    requires
        0 <= k <= l.len(),
        power_of(l.take(k)) is None,
    ensures
        power_of(l) is None,
    decreases l.len() - k,
{
    if k == l.len() {
        assert(l.take(k) =~= l);
    } else {
        assert(l.take(k + 1).drop_last() =~= l.take(k));
        lemma_no_power(l, k + 1);
    }
}

// ---------------------------------------------------------------------- accounting

/// What one measured window cost.
#[derive(Debug, Clone, PartialEq)]
pub struct EnergySample {
    pub secs: u64,
    /// Integrated GPU draw over the window (all GPUs), joules.
    pub gpu_j: Option<i64>,
    /// RAPL package energy over the window, joules. None = root-locked.
    pub cpu_j: Option<i64>,
}

/// Average power over a quiet window — the baseline the marginal
/// accounting subtracts.
#[derive(Debug, Clone, PartialEq)]
pub struct Baseline {
    pub gpu_w: Option<i64>,
    pub cpu_w: Option<i64>,
}

/// Energy over a time, of at least a millisecond, in watts.
pub open spec fn average_w(j: Option<i64>, secs: u64) -> Option<int> {
    match j {
        Some(j) => Some(
            round_even_int(
                j * UNIT,
                (if secs < 1000 {
                    1000nat
                } else {
                    secs as nat
                }),
            ),
        ),
        None => None,
    }
}

fn watts(j: Option<i64>, secs: u64) -> (r: Option<i64>)
    ensures
        r == clamped(average_w(j, secs)),
{
    match j {
        Some(j) => {
            let s: u64 = if secs < 1000 {
                1000
            } else {
                secs
            };
            Some(clamp(rounded_int(j as i128 * UNIT as i128, s as u128)))
        },
        None => None,
    }
}

/// The number, as far as it is held.
pub open spec fn clamped_to(v: int) -> i64 {
    if v > i64::MAX {
        i64::MAX
    } else if v < i64::MIN {
        i64::MIN
    } else {
        v as i64
    }
}

pub open spec fn clamped(n: Option<int>) -> Option<i64> {
    match n {
        Some(v) => Some(clamped_to(v)),
        None => None,
    }
}

fn clamp(v: i128) -> (r: i64)
    ensures
        r == clamped_to(v as int),
{
    if v > i64::MAX as i128 {
        i64::MAX
    } else if v < i64::MIN as i128 {
        i64::MIN
    } else {
        v as i64
    }
}

/// What power samples — watts, and the time each one stands for — add up to,
/// before the units are put right.
pub open spec fn drawn(samples: Seq<(i64, u64)>) -> int
    decreases samples.len(),
{
    if samples.len() == 0 {
        0
    } else {
        drawn(samples.drop_last()) + samples.last().0 * samples.last().1
    }
}

/// The joules of the samples; unknown where no sample came.
pub open spec fn sampled_energy(samples: Seq<(i64, u64)>) -> Option<i64> {
    if samples.len() == 0 {
        None
    } else {
        Some(clamped_to(round_even_int(drawn(samples), UNIT as nat)))
    }
}

/// Integrate GPU power samples: watts, and the time since the sample before.
pub fn gpu_joules(samples: &[(i64, u64)]) -> (r: Option<i64>)
    ensures
        r == sampled_energy(samples@),
{
    if samples.len() == 0 {
        return None;
    }
    let mut fed = Big::of(0);
    let mut back = Big::of(0);
    let mut i: usize = 0;
    assert(samples@.take(0) =~= Seq::empty());
    while i < samples.len()
        invariant
            i <= samples.len(),
            samples.len() > 0,
            drawn(samples@.take(i as int)) == fed@ - back@,
        decreases samples.len() - i,
    {
        assert(samples@.take(i + 1).drop_last() =~= samples@.take(i as int));
        assert(samples@.take(i + 1).last() == samples@[i as int]);
        let (w, dt) = samples[i];
        if w >= 0 {
            fed = fed.plus(&Big::of(w as u64).times(dt));
        } else {
            let m: u64 = (-(w as i128)) as u64;
            assert(m as nat * dt as nat == -(w * dt)) by (nonlinear_arith)
                requires
                    m == -(w as int),
            ;
            back = back.plus(&Big::of(m).times(dt));
        }
        i += 1;
    }
    assert(samples@.take(i as int) =~= samples@);
    let unit = Big::of(UNIT);
    if back.at_most(&fed) {
        Some(held_between(back, &fed, &unit, false))
    } else {
        Some(held_between(fed, &back, &unit, true))
    }
}

/// The difference of two numbers in units, with its sign, as far as it is
/// held.
fn held_between(from: Big, to: &Big, unit: &Big, negative: bool) -> (r: i64)
    requires
        from@ <= to@,
        unit@ == UNIT,
    ensures
        r == clamped_to(
            round_even_int(
                if negative {
                    from@ - to@
                } else {
                    to@ - from@
                },
                UNIT as nat,
            ),
        ),
{
    let limit = unit.times(u64::MAX);
    let ghost num = (to@ - from@) as nat;
    if from.plus(&limit).at_most(to) {
        proof {
            assert(num / (UNIT as nat) >= u64::MAX) by (nonlinear_arith)
                requires
                    num >= UNIT as nat * u64::MAX as nat,
                    UNIT == 1_000_000,
            ;
        }
        return if negative {
            i64::MIN
        } else {
            i64::MAX
        };
    }
    let q = rounded_between(from, to, unit);
    proof {
        assert(num / (UNIT as nat) <= u64::MAX) by (nonlinear_arith)
            requires
                num < UNIT as nat * u64::MAX as nat,
                UNIT == 1_000_000,
        ;
    }
    if negative {
        clamp(-(q as i128))
    } else {
        clamp(q as i128)
    }
}

/// What one window cost: its length, the GPU samples taken in it, and the
/// package counters around it.
pub fn measure_window(
    secs: u64,
    samples: &[(i64, u64)],
    pkgs: &[Rapl],
    before: &[Option<u64>],
    after: &[Option<u64>],
) -> (r: EnergySample)
    requires
        before.len() == pkgs.len(),
        after.len() == pkgs.len(),
    ensures
        r.secs == secs,
        r.gpu_j == sampled_energy(samples@),
        r.cpu_j == match cpu_energy(pkgs@, before@, after@) {
            Some(n) => if pkgs@.len() == 0 {
                None
            } else {
                Some(clamped_to(n as int))
            },
            None => None::<i64>,
        },
{
    EnergySample {
        secs,
        gpu_j: gpu_joules(samples),
        cpu_j: match cpu_joules(pkgs, before, after) {
            Some(n) => Some(
                if n <= i64::MAX as u128 {
                    n as i64
                } else {
                    i64::MAX
                },
            ),
            None => None,
        },
    }
}

/// The power of a quiet window.
pub fn idle_baseline(s: &EnergySample) -> (r: Baseline)
    ensures
        r.gpu_w == clamped(average_w(s.gpu_j, s.secs)),
        r.cpu_w == clamped(average_w(s.cpu_j, s.secs)),
{
    Baseline { gpu_w: watts(s.gpu_j, s.secs), cpu_w: watts(s.cpu_j, s.secs) }
}

/// Energy beyond what an idle machine would have used in the time; never
/// below zero.
pub open spec fn beyond_idle(j: Option<i64>, w: Option<i64>, secs: u64) -> Option<nat> {
    match (j, w) {
        (Some(j), Some(w)) => Some(
            if j * UNIT >= w * secs {
                round_even((j * UNIT - w * secs) as nat, UNIT as nat)
            } else {
                0
            },
        ),
        _ => None,
    }
}

fn above_idle(j: Option<i64>, w: Option<i64>, secs: u64) -> (r: Option<u128>)
    ensures
        match r {
            Some(n) => beyond_idle(j, w, secs) == Some(n as nat) && n <= i128::MAX,
            None => beyond_idle(j, w, secs) is None,
        },
{
    match (j, w) {
        (Some(j), Some(w)) => {
            assert(-0x8000_0000_0000_0000 * 0xffff_ffff_ffff_ffff <= w * secs
                <= 0x8000_0000_0000_0000 * 0xffff_ffff_ffff_ffff) by (nonlinear_arith)
                requires
                    -0x8000_0000_0000_0000 <= w <= 0x8000_0000_0000_0000,
                    0 <= secs <= 0xffff_ffff_ffff_ffff,
            ;
            let total: i128 = j as i128 * UNIT as i128;
            let idle: i128 = w as i128 * secs as i128;
            if total >= idle {
                let rest: u128 = if idle >= 0 {
                    (total - idle) as u128
                } else if total >= 0 {
                    total as u128 + (-idle) as u128
                } else {
                    (total - idle) as u128
                };
                let n = rounded(rest, UNIT as u128);
                assert(rest / 1_000_000 + 1 <= i128::MAX);
                Some(n)
            } else {
                Some(0)
            }
        },
        _ => None,
    }
}

impl EnergySample {
    /// Joules attributable to the work itself: measured minus what the
    /// idle machine would have burned in the same time. Clamped at 0.
    ///
    /// BOTH halves or nothing: a partial sum is not a total.
    pub fn marginal_j(&self, idle: &Baseline) -> (r: Option<u128>)
        ensures
            match (
                beyond_idle(self.gpu_j, idle.gpu_w, self.secs),
                beyond_idle(self.cpu_j, idle.cpu_w, self.secs),
            ) {
                (Some(g), Some(c)) => r is Some && r->0 as nat == g + c,
                _ => r is None,
            },
    {
        let gpu = above_idle(self.gpu_j, idle.gpu_w, self.secs);
        let cpu = above_idle(self.cpu_j, idle.cpu_w, self.secs);
        match (gpu, cpu) {
            (Some(g), Some(c)) => Some(g + c),
            _ => None,
        }
    }
}

// ------------------------------------------------------------------------- laws

/// A counter that wrapped went as far as its range allows, and never further.
pub proof fn deltas_stay_in_range(before: u64, after: u64, max_range: u64)
    requires
        before <= max_range,
        after <= max_range,
    ensures
        delta(before, after, max_range) <= max_range,
        after >= before ==> delta(before, after, max_range) == after - before,
        after < before ==> delta(before, after, max_range) == max_range - before + after,
{
}

/// The sum of the readings that are there.
pub open spec fn total_read(v: Seq<Option<u64>>) -> int
    decreases v.len(),
{
    if v.len() == 0 {
        0
    } else {
        total_read(v.drop_last()) + match v.last() {
            Some(n) => n as int,
            None => 0int,
        }
    }
}

/// What the packages used is what their counters went up by, all together; where a counter
/// was not read, nothing is known.
pub proof fn packages_add_up(
    pkgs: Seq<Rapl>,
    before: Seq<Option<u64>>,
    after: Seq<Option<u64>>,
)
    requires
        before.len() == pkgs.len(),
        after.len() == pkgs.len(),
    ensures
        (exists|k: int| 0 <= k < pkgs.len() && (#[trigger] before[k] is None || after[k] is None))
            ==> cpu_energy(pkgs, before, after) is None,
        (forall|k: int|
            0 <= k < pkgs.len() ==> #[trigger] before[k] is Some && after[k] is Some
                && before[k]->0 <= after[k]->0) ==> cpu_energy(pkgs, before, after) is Some
            && cpu_energy(pkgs, before, after)->0 == total_read(after) - total_read(before),
    decreases pkgs.len(),
{
    if pkgs.len() > 0 {
        let k = pkgs.len() - 1;
        lemma_first_packages(pkgs.drop_last(), before, after);
        packages_add_up(pkgs.drop_last(), before.drop_last(), after.drop_last());
        if exists|j: int| 0 <= j < pkgs.len() && (#[trigger] before[j] is None || after[j] is None) {
            let j = choose|j: int|
                0 <= j < pkgs.len() && (#[trigger] before[j] is None || after[j] is None);
            if j < k {
                assert(before.drop_last()[j] is None || after.drop_last()[j] is None);
            }
        }
        if forall|j: int|
            0 <= j < pkgs.len() ==> #[trigger] before[j] is Some && after[j] is Some
                && before[j]->0 <= after[j]->0 {
            assert(before[k] is Some);
            assert forall|j: int| 0 <= j < pkgs.drop_last().len() implies #[trigger] before.drop_last()[j] is Some
                && after.drop_last()[j] is Some && before.drop_last()[j]->0
                <= after.drop_last()[j]->0 by {
                assert(before[j] is Some);
            }
        }
    }
}

/// The readings behind the packages say nothing.
proof fn lemma_first_packages(pkgs: Seq<Rapl>, before: Seq<Option<u64>>, after: Seq<Option<u64>>)
    requires
        before.len() > pkgs.len(),
        after.len() > pkgs.len(),
    ensures
        cpu_energy(pkgs, before, after) == cpu_energy(pkgs, before.drop_last(), after.drop_last()),
    decreases pkgs.len(),
{
    if pkgs.len() > 0 {
        lemma_first_packages(pkgs.drop_last(), before, after);
    }
}

/// Every card's power counts: the power of all lines is the power of the first of them and
/// that of the others together.
pub proof fn cards_add_up(a: Seq<Seq<char>>, b: Seq<Seq<char>>)
    ensures
        power_of(a + b) == match (power_of(a), power_of(b)) {
            (Some(x), Some(y)) => Some(x + y),
            _ => None,
        },
    decreases b.len(),
{
    if b.len() == 0 {
        assert(a + b =~= a);
    } else {
        cards_add_up(a, b.drop_last());
        assert((a + b).drop_last() =~= a + b.drop_last());
        assert((a + b).last() == b.last());
    }
}

/// One card's power is what its line says in watts; a line that holds no number is not a
/// card without power.
pub proof fn a_card_tells_its_power(line: Seq<char>)
    ensures
        trim(line).len() == 0 ==> power_of(seq![line]) == Some(0int),
        trim(line).len() > 0 ==> power_of(seq![line]) == parse_micro_of(trim(line)),
{
    let l = seq![line];
    reveal_with_fuel(power_of, 2);
    assert(l.drop_last() =~= Seq::empty());
    assert(power_of(l.drop_last()) == Some(0int));
    assert(l.last() == line);
}

/// The average power, over the time that it was drawn for, comes to the energy, but for
/// what rounding to a millionth of a watt leaves; a time below a millisecond counts as one.
pub proof fn an_average_comes_to_the_energy(j: i64, secs: u64)
    ensures
        average_w(None, secs) is None,
        average_w(Some(j), secs) is Some,
        ({
            let w = average_w(Some(j), secs)->0;
            let t: int = if secs < 1000 {
                1000
            } else {
                secs as int
            };
            -t <= 2 * (w * t - j * 1_000_000) <= t
        }),
{
    let t: nat = if secs < 1000 {
        1000
    } else {
        secs as nat
    };
    crate::num::rounding_is_to_the_nearest(j * 1_000_000, t);
}

/// The energy of samples is that of the first of them and that of the others together, and
/// that of one sample is its power times its time.
pub proof fn samples_add_up(a: Seq<(i64, u64)>, b: Seq<(i64, u64)>, w: i64, secs: u64)
    ensures
        drawn(a + b) == drawn(a) + drawn(b),
        drawn(seq![(w, secs)]) == w * secs,
        drawn(Seq::empty()) == 0,
    decreases b.len(),
{
    reveal_with_fuel(drawn, 2);
    assert(seq![(w, secs)].drop_last() =~= Seq::<(i64, u64)>::empty());
    if b.len() == 0 {
        assert(a + b =~= a);
    } else {
        samples_add_up(a, b.drop_last(), w, secs);
        assert((a + b).drop_last() =~= a + b.drop_last());
        assert((a + b).last() == b.last());
    }
}

/// The energy that is told of samples is what they drew, to the nearest millionth of a joule.
pub proof fn samples_tell_their_energy(samples: Seq<(i64, u64)>)
    requires
        samples.len() > 0,
        -1_000_000_000_000_000_000 <= drawn(samples) <= 1_000_000_000_000_000_000,
    ensures
        sampled_energy(samples) is Some,
        -1_000_000 <= 2 * (sampled_energy(samples)->0 * 1_000_000 - drawn(samples)) <= 1_000_000,
{
    crate::num::rounding_is_to_the_nearest(drawn(samples), 1_000_000);
}

/// What a window used beyond idle, and what idling would have used, come to what it used;
/// where idling would have used more, nothing was used beyond it.
pub proof fn idle_and_beyond_come_to_the_whole(j: i64, w: i64, secs: u64)
    ensures
        beyond_idle(None, Some(w), secs) is None,
        beyond_idle(Some(j), None, secs) is None,
        beyond_idle(Some(j), Some(w), secs) is Some,
        ({
            let n = beyond_idle(Some(j), Some(w), secs)->0;
            &&& w * secs >= j * 1_000_000 ==> n == 0
            &&& w * secs < j * 1_000_000 ==> -1_000_000 <= 2 * (n * 1_000_000 + w * secs - j
                * 1_000_000) <= 1_000_000
        }),
{
    let d = j * 1_000_000 - w * secs;
    if d >= 0 {
        crate::num::rounding_is_to_the_nearest(d, 1_000_000);
    }
}

/// A package is named `intel-rapl:` and a number; the parts of a package, which have a
/// colon more, are none.
pub proof fn parts_of_a_package_are_none(rest: Seq<char>)
    ensures
        is_package("intel-rapl:"@ + rest) <==> !rest.contains(':'),
{
    reveal_strlit("intel-rapl:");
    let p = "intel-rapl:"@;
    assert((p + rest).take(p.len() as int) =~= p);
    lemma_count_of_two(p, rest, ':');
    lemma_count_none(rest, ':');
    assert(p =~= seq!['i', 'n', 't', 'e', 'l', '-', 'r', 'a', 'p', 'l', ':']);
    reveal_with_fuel(count_char, 12);
    assert(p.drop_last() =~= seq!['i', 'n', 't', 'e', 'l', '-', 'r', 'a', 'p', 'l']);
    lemma_count_none(p.drop_last(), ':');
    assert(p.last() == ':');
    assert(count_char(p, ':') == 1);
}

proof fn lemma_count_of_two(a: Seq<char>, b: Seq<char>, c: char)
    ensures
        count_char(a + b, c) == count_char(a, c) + count_char(b, c),
    decreases b.len(),
{
    if b.len() == 0 {
        assert(a + b =~= a);
    } else {
        lemma_count_of_two(a, b.drop_last(), c);
        assert((a + b).drop_last() =~= a + b.drop_last());
        assert((a + b).last() == b.last());
    }
}

proof fn lemma_count_none(s: Seq<char>, c: char)
    ensures
        count_char(s, c) == 0 <==> !s.contains(c),
    decreases s.len(),
{
    if s.len() > 0 {
        lemma_count_none(s.drop_last(), c);
        if s.contains(c) {
            let i = choose|i: int| 0 <= i < s.len() && s[i] == c;
            if i < s.len() - 1 {
                assert(s.drop_last()[i] == c);
            }
        }
        if s.drop_last().contains(c) {
            let i = choose|i: int| 0 <= i < s.drop_last().len() && s.drop_last()[i] == c;
            assert(s[i] == c);
        }
        if s.last() == c {
            assert(s[s.len() - 1] == c);
        }
    }
}

/// Every package with a counter and a readable range is measured.
pub proof fn every_readable_package_is_measured(z: Seq<PowerZone>, i: int, rest: Seq<char>, n: u64)
    requires
        0 <= i < z.len(),
        z[i].name@ == "intel-rapl:"@ + rest,
        !rest.contains(':'),
        z[i].energy_uj is Some,
        z[i].max_energy_range_uj is Some,
        parse_u64(trim(z[i].max_energy_range_uj->0@)) == Some(n),
    ensures
        packages_of(z).contains((join_path(z[i].path@, "energy_uj"@), n)),
    decreases z.len(),
{
    parts_of_a_package_are_none(rest);
    let p = (join_path(z[i].path@, "energy_uj"@), n);
    assert(package_of(z[i]) == Some(p));
    if i == z.len() - 1 {
        assert(packages_of(z).last() == p);
    } else {
        every_readable_package_is_measured(z.drop_last(), i, rest, n);
        let before = packages_of(z.drop_last());
        let k = choose|k: int| 0 <= k < before.len() && before[k] == p;
        assert(packages_of(z)[k] == p);
    }
}

} // verus!
