//! The measured-trial harness: a trial takes a model and a set of candidate
//! config deltas, measures each, and decides from the measurements to keep
//! the best candidate or to keep the baseline.
//!
//! Measured quantities are in millionths of their unit.
use crate::num::{
    dec, dec_len, dec_text, fixed0, fixed0_int, fixed0_int_text, fixed0_text, fixed1_int,
    fixed1_int_text, signed0, signed0_text, UNIT,
};
use crate::rows::AGENT_MIN_CTX;
use crate::text::{copy_opt, copy_text, join, join_texts, opt_text, texts};
use crate::textmap::{lookup, sorted, TextMap};
use vstd::prelude::*;
use vstd::string::*;

verus! {

/// What a trial menu is optimizing for — picks the verdict rules.
#[derive(Debug, Clone, Copy, PartialEq, Eq, Structural)]
pub enum Goal {
    /// Faster generation on edit-heavy work (speculation menus).
    RewriteTg,
    /// Faster prompt processing (batch-size menus) — agent turns are
    /// prefill-dominated when the context is large.
    Prefill,
    /// A bigger settled context for the same VRAM (KV-precision menus).
    Context,
    /// A faster model load/swap (load-mode menus) — LOWER is better.
    LoadTime,
    /// A faster SECOND agent turn (vision / cache-reuse menus): the
    /// agent-turn probe's incremental prefill milliseconds. LOWER is
    /// better — this is the wait you actually feel in OpenCode.
    AgentTurn,
}

/// Measured outcome of one configuration on one model.
#[derive(Debug, Clone)]
pub struct TrialResult {
    /// Mean generation tokens/sec over the novel-code prompts.
    pub tg_novel: Option<i64>,
    /// Generation tokens/sec on the rewrite prompt (agent-workload proxy).
    pub tg_rewrite: Option<i64>,
    /// Draft-token acceptance on the rewrite prompt, when speculation ran.
    pub accept_rewrite: Option<u64>,
    /// Prompt-processing tokens/sec on the long prefill probe.
    pub pp_prefill: Option<i64>,
    /// Quality gate: fraction of the rewrite module preserved verbatim.
    pub fidelity: Option<u64>,
    /// Context `--fit` settled on under this config, in tokens.
    pub settled_ctx: Option<u64>,
    /// Wall seconds from load request to loaded — the hot-swap cost.
    pub load_secs: Option<u64>,
    /// Agent-turn probe: prefill milliseconds of the SECOND turn (same
    /// conversation, middle edit, cache_prompt on) — real agent latency.
    pub turn2_prompt_ms: Option<i64>,
    /// Fraction of the second turn's prompt served from cache.
    pub turn2_reuse: Option<u64>,
    /// Load or generation failure — the result is still recorded so a
    /// crashing variant is remembered, not retried forever.
    pub error: Option<String>,
    /// llama.cpp build that produced this (staleness signal, like bench).
    pub build: Option<u64>,
}

impl Default for TrialResult {
    fn default() -> (r: TrialResult)
        ensures
            r.tg_novel is None,
            r.tg_rewrite is None,
            r.accept_rewrite is None,
            r.pp_prefill is None,
            r.fidelity is None,
            r.settled_ctx is None,
            r.load_secs is None,
            r.turn2_prompt_ms is None,
            r.turn2_reuse is None,
            r.error is None,
            r.build is None,
    {
        TrialResult {
            tg_novel: None,
            tg_rewrite: None,
            accept_rewrite: None,
            pp_prefill: None,
            fidelity: None,
            settled_ctx: None,
            load_secs: None,
            turn2_prompt_ms: None,
            turn2_reuse: None,
            error: None,
            build: None,
        }
    }
}

impl TrialResult {
    /// The same result once more.
    pub fn copy(&self) -> (r: TrialResult)
        ensures
            r == *self,
    {
        TrialResult {
            tg_novel: self.tg_novel,
            tg_rewrite: self.tg_rewrite,
            accept_rewrite: self.accept_rewrite,
            pp_prefill: self.pp_prefill,
            fidelity: self.fidelity,
            settled_ctx: self.settled_ctx,
            load_secs: self.load_secs,
            turn2_prompt_ms: self.turn2_prompt_ms,
            turn2_reuse: self.turn2_reuse,
            error: copy_opt(&self.error),
            build: self.build,
        }
    }
}

pub const BASELINE: &'static str = "baseline";

/// The measured verdict over one model's trial table: a winner must not cost
/// novel-code speed or context, and must earn its keep on the goal metric
/// (at least 10% better).
#[derive(Debug, Clone, PartialEq)]
pub struct Verdict {
    pub winner: Option<String>,
    pub reason: String,
}

/// A candidate the rules rejected but a human might still want: it beat
/// the goal metric by at least 10% and lost only on a guard. The rules stay
/// conservative; the tradeoff is presented instead of swallowed.
#[derive(Debug, Clone, PartialEq)]
pub struct NearMiss {
    pub label: String,
    /// The win, in plain language ("+50% prefill (3583 → 5377)").
    pub gain: String,
    /// What it costs, in plain language ("21% of context (255744 → 202752)").
    pub cost: String,
}

/// Everything a trial run produced: the rule-based verdict, the raced
/// table (baseline included), and the guard-rejected tradeoffs.
pub struct TrialReport {
    pub goal: Goal,
    pub verdict: Verdict,
    pub near_misses: Vec<NearMiss>,
    pub raced: TextMap<TrialResult>,
}

// ---------------------------------------------------------------- the metrics

/// The goal metric of one result, in millionths, whatever its direction.
pub open spec fn primary_of(goal: Goal, r: TrialResult) -> Option<int> {
    match goal {
        Goal::RewriteTg => opt_figure(r.tg_rewrite),
        Goal::Prefill => opt_figure(r.pp_prefill),
        Goal::Context => opt_count(r.settled_ctx, UNIT as nat),
        Goal::LoadTime => opt_count(r.load_secs, 1),
        Goal::AgentTurn => opt_figure(r.turn2_prompt_ms),
    }
}

pub open spec fn opt_count(o: Option<u64>, scale: nat) -> Option<int> {
    match o {
        Some(v) => Some(v * scale),
        None => None,
    }
}

pub open spec fn opt_figure(o: Option<i64>) -> Option<int> {
    match o {
        Some(v) => Some(v as int),
        None => None,
    }
}

/// A smaller value of the metric is the better one.
pub open spec fn lower_is_better(goal: Goal) -> bool {
    goal == Goal::LoadTime || goal == Goal::AgentTurn
}

/// The improvement of a candidate over the baseline on the goal metric, as
/// a fraction: more than one is better, whatever the metric's direction.
pub open spec fn improvement_ratio(goal: Goal, baseline: int, candidate: int) -> (int, nat) {
    if lower_is_better(goal) {
        if candidate > 0 {
            (baseline, candidate as nat)
        } else {
            (0, 1)
        }
    } else if baseline > 0 {
        (candidate, baseline as nat)
    } else {
        (0, 1)
    }
}

/// The fraction `r` is at least `num / den`.
pub open spec fn at_least(r: (int, nat), num: nat, den: nat) -> bool {
    r.0 * den >= r.1 * num
}

/// A fraction of two measured values.
pub struct Ratio {
    pub num: i128,
    pub den: i128,
}

impl View for Ratio {
    type V = (int, nat);

    open spec fn view(&self) -> (int, nat) {
        (self.num as int, self.den as nat)
    }
}

/// The largest value that a metric can take, in millionths.
pub open spec fn metric_max() -> int {
    u64::MAX * UNIT
}

/// A value that a metric can take.
pub open spec fn metric_fits(v: int) -> bool {
    -metric_max() <= v <= metric_max()
}

pub open spec fn opt_metric(o: Option<i128>) -> Option<int> {
    match o {
        Some(v) => Some(v as int),
        None => None,
    }
}

fn primary(goal: Goal, r: &TrialResult) -> (p: Option<i128>)
    ensures
        opt_metric(p) == primary_of(goal, *r),
        p is Some ==> metric_fits(p->0 as int),
{
    let figure: Option<i64> = match goal {
        Goal::RewriteTg => r.tg_rewrite,
        Goal::Prefill => r.pp_prefill,
        Goal::AgentTurn => r.turn2_prompt_ms,
        Goal::Context => {
            return match r.settled_ctx {
                Some(c) => Some(c as i128 * UNIT as i128),
                None => None,
            };
        },
        Goal::LoadTime => {
            return match r.load_secs {
                Some(t) => Some(t as i128),
                None => None,
            };
        },
    };
    match figure {
        Some(x) => Some(x as i128),
        None => None,
    }
}

/// Improvement RATIO of candidate over baseline on the goal metric: above
/// one = better, direction-aware.
pub fn improvement(goal: Goal, baseline: i128, candidate: i128) -> (r: Ratio)
    ensures
        r@ == improvement_ratio(goal, baseline as int, candidate as int),
        r.den > 0,
        r.num == baseline || r.num == candidate || r.num == 0,
        r.den <= baseline || r.den <= candidate || r.den == 1,
{
    if goal == Goal::LoadTime || goal == Goal::AgentTurn {
        if candidate > 0 {
            Ratio { num: baseline, den: candidate }
        } else {
            Ratio { num: 0, den: 1 }
        }
    } else if baseline > 0 {
        Ratio { num: candidate, den: baseline }
    } else {
        Ratio { num: 0, den: 1 }
    }
}

/// How much of the speed, and of the context, a win of this size must keep,
/// in hundredths.
pub open spec fn floors_of(imp: (int, nat)) -> (nat, nat) {
    if at_least(imp, 2, 1) {
        (90, 90)
    } else if at_least(imp, 5, 4) {
        (95, 97)
    } else {
        (97, 98)
    }
}

/// A result that measured everything the rules read.
pub open spec fn complete(goal: Goal, r: TrialResult) -> bool {
    r.tg_novel is Some && r.tg_rewrite is Some && r.settled_ctx is Some && primary_of(goal, r)
        is Some
}

/// The candidate beats the baseline on the goal metric by at least 10%.
pub open spec fn beats_goal(goal: Goal, baseline: TrialResult, r: TrialResult) -> bool {
    complete(goal, r) && at_least(
        improvement_ratio(goal, primary_of(goal, baseline)->0, primary_of(goal, r)->0),
        11,
        10,
    )
}

/// The candidate lost more than 5 points of output fidelity.
pub open spec fn fidelity_lost(baseline: TrialResult, r: TrialResult) -> bool {
    match (baseline.fidelity, r.fidelity) {
        (Some(bf), Some(cf)) => cf + 50_000 < bf,
        _ => false,
    }
}

/// `value` is under `floor` hundredths of `base`.
pub open spec fn under(value: int, base: int, floor: nat) -> bool {
    value * 100 < base * floor
}

/// The candidate pays for its win more than its size allows. Guards SCALE
/// with the size of the win: a modest win spends nothing; a win of 25% may
/// spend up to 5% on speed; a win of 2x up to 10%. The fidelity gate NEVER
/// relaxes — quality is not a currency.
pub open spec fn guarded(goal: Goal, baseline: TrialResult, r: TrialResult) -> bool {
    let imp = improvement_ratio(goal, primary_of(goal, baseline)->0, primary_of(goal, r)->0);
    let f = floors_of(imp);
    ||| under(r.tg_novel->0 as int, baseline.tg_novel->0 as int, f.0)
    ||| under(r.tg_rewrite->0 as int, baseline.tg_rewrite->0 as int, f.0)
    ||| under(r.settled_ctx->0 as int, baseline.settled_ctx->0 as int, f.1)
    ||| fidelity_lost(baseline, r)
}

/// The candidate may win: it beats the goal and no guard rejects it.
pub open spec fn qualifies(goal: Goal, baseline: TrialResult, r: TrialResult) -> bool {
    beats_goal(goal, baseline, r) && !guarded(goal, baseline, r)
}

/// A strictly larger improvement over the same baseline.
pub open spec fn improves_more(goal: Goal, base: int, p: int, q: int) -> bool {
    let a = improvement_ratio(goal, base, p);
    let b = improvement_ratio(goal, base, q);
    a.0 * b.1 > b.0 * a.1
}

/// The first of the best candidates, in the order of their labels.
pub open spec fn best_of(
    goal: Goal,
    baseline: TrialResult,
    s: Seq<(Seq<char>, TrialResult)>,
) -> Option<(Seq<char>, TrialResult)>
    decreases s.len(),
{
    if s.len() == 0 {
        None
    } else {
        let sofar = best_of(goal, baseline, s.drop_last());
        let (label, r) = s.last();
        if label == BASELINE@ || !qualifies(goal, baseline, r) {
            sofar
        } else {
            match sofar {
                None => Some((label, r)),
                Some(b) => if improves_more(
                    goal,
                    primary_of(goal, baseline)->0,
                    primary_of(goal, r)->0,
                    primary_of(goal, b.1)->0,
                ) {
                    Some((label, r))
                } else {
                    sofar
                },
            }
        }
    }
}

/// How many candidates beat the goal and were rejected by a guard.
pub open spec fn rejected_count(
    goal: Goal,
    baseline: TrialResult,
    s: Seq<(Seq<char>, TrialResult)>,
) -> nat
    decreases s.len(),
{
    if s.len() == 0 {
        0
    } else {
        rejected_count(goal, baseline, s.drop_last()) + if traded_off(goal, baseline, s.last()) {
            1nat
        } else {
            0nat
        }
    }
}

fn ratio_at_least(r: &Ratio, num: i128, den: i128) -> (b: bool)
    requires
        metric_fits(r.num as int),
        0 < r.den,
        metric_fits(r.den as int),
        0 <= num <= 1000,
        0 <= den <= 1000,
    ensures
        b == at_least(r@, num as nat, den as nat),
{
    assert(-(metric_max() * 1000) <= r.num * den <= metric_max() * 1000 && 0 <= r.den * num
        <= metric_max() * 1000) by (nonlinear_arith)
        requires
            -metric_max() <= r.num <= metric_max(),
            0 < r.den <= metric_max(),
            0 <= num <= 1000,
            0 <= den <= 1000,
    ;
    r.num * den >= r.den * num
}

fn floors(r: &Ratio) -> (f: (i128, i128))
    requires
        metric_fits(r.num as int),
        0 < r.den,
        metric_fits(r.den as int),
    ensures
        (f.0 as nat, f.1 as nat) == floors_of(r@),
        0 <= f.0 <= 100,
        0 <= f.1 <= 100,
{
    if ratio_at_least(r, 2, 1) {
        (90, 90)
    } else if ratio_at_least(r, 5, 4) {
        (95, 97)
    } else {
        (97, 98)
    }
}

fn is_under(value: i128, base: i128, floor: i128) -> (b: bool)
    requires
        -(u64::MAX as int) <= value <= u64::MAX,
        -(u64::MAX as int) <= base <= u64::MAX,
        0 <= floor <= 100,
    ensures
        b == under(value as int, base as int, floor as nat),
{
    assert(-(u64::MAX * 100) <= base * floor <= u64::MAX * 100) by (nonlinear_arith)
        requires
            -(u64::MAX as int) <= base <= u64::MAX,
            0 <= floor <= 100,
    ;
    value * 100 < base * floor
}

fn lost_fidelity(baseline: &TrialResult, r: &TrialResult) -> (b: bool)
    ensures
        b == fidelity_lost(*baseline, *r),
{
    match (baseline.fidelity, r.fidelity) {
        (Some(bf), Some(cf)) => (cf as u128) + 50_000 < bf as u128,
        _ => false,
    }
}

/// The measured values of a complete result, and its goal metric.
struct Measured {
    novel: i64,
    rewrite: i64,
    ctx: u64,
    metric: i128,
}

fn measured(goal: Goal, r: &TrialResult) -> (m: Option<Measured>)
    ensures
        match m {
            Some(x) => complete(goal, *r) && r.tg_novel == Some(x.novel) && r.tg_rewrite == Some(
                x.rewrite,
            ) && r.settled_ctx == Some(x.ctx) && primary_of(goal, *r) == Some(x.metric as int)
                && metric_fits(x.metric as int),
            None => !complete(goal, *r),
        },
{
    match (r.tg_novel, r.tg_rewrite, r.settled_ctx, primary(goal, r)) {
        (Some(novel), Some(rewrite), Some(ctx), Some(metric)) => Some(
            Measured { novel, rewrite, ctx, metric },
        ),
        _ => None,
    }
}

/// The guards on a candidate that beat the goal.
fn is_guarded(goal: Goal, baseline: &TrialResult, b: &Measured, r: &TrialResult, m: &Measured) -> (g:
    bool)
    requires
        complete(goal, *baseline),
        complete(goal, *r),
        baseline.tg_novel == Some(b.novel) && baseline.tg_rewrite == Some(b.rewrite)
            && baseline.settled_ctx == Some(b.ctx) && primary_of(goal, *baseline) == Some(
            b.metric as int,
        ) && metric_fits(b.metric as int),
        r.tg_novel == Some(m.novel) && r.tg_rewrite == Some(m.rewrite) && r.settled_ctx == Some(
            m.ctx,
        ) && primary_of(goal, *r) == Some(m.metric as int) && metric_fits(m.metric as int),
    ensures
        g == guarded(goal, *baseline, *r),
{
    let imp = improvement(goal, b.metric, m.metric);
    let f = floors(&imp);
    is_under(m.novel as i128, b.novel as i128, f.0) || is_under(
        m.rewrite as i128,
        b.rewrite as i128,
        f.0,
    ) || is_under(m.ctx as i128, b.ctx as i128, f.1) || lost_fidelity(baseline, r)
}

fn better(goal: Goal, base: i128, p: i128, q: i128) -> (b: bool)
    requires
        at_least(improvement_ratio(goal, base as int, p as int), 11, 10),
        at_least(improvement_ratio(goal, base as int, q as int), 11, 10),
    ensures
        b == improves_more(goal, base as int, p as int, q as int),
{
    if goal == Goal::LoadTime || goal == Goal::AgentTurn {
        assert(base > 0 && p > 0 && q > 0);
        assert((base * q > base * p) == (q > p)) by (nonlinear_arith)
            requires
                base > 0,
        ;
        p < q
    } else {
        assert(base > 0);
        assert((p * base > q * base) == (p > q)) by (nonlinear_arith)
            requires
                base > 0,
        ;
        p > q
    }
}

// ---------------------------------------------------------------- the verdict

pub const BASELINE_FAILED: &'static str = "baseline itself failed to measure — nothing to compare against";

pub const NO_GOAL_METRIC: &'static str = "baseline lacks the goal metric — re-run the trial";

/// The goal metric's name.
pub open spec fn metric_name(goal: Goal) -> Seq<char> {
    match goal {
        Goal::RewriteTg => "rewrite"@,
        Goal::Prefill => "prefill"@,
        Goal::Context => "context"@,
        Goal::LoadTime => "load time"@,
        Goal::AgentTurn => "second-turn prefill"@,
    }
}

fn metric(goal: Goal) -> (r: &'static str)
    ensures
        r@ == metric_name(goal),
{
    match goal {
        Goal::RewriteTg => "rewrite",
        Goal::Prefill => "prefill",
        Goal::Context => "context",
        Goal::LoadTime => "load time",
        Goal::AgentTurn => "second-turn prefill",
    }
}

/// A value of the goal metric with its unit.
pub open spec fn value_text(goal: Goal, v: int) -> Seq<char> {
    match goal {
        Goal::Context => fixed0_int(v, UNIT as nat) + " tokens"@,
        Goal::LoadTime => fixed1_int(v, UNIT as nat) + "s"@,
        Goal::AgentTurn => fixed0_int(v, UNIT as nat) + " ms"@,
        _ => fixed1_int(v, UNIT as nat) + " t/s"@,
    }
}

fn value_words(goal: Goal, v: i128) -> (r: String)
    requires
        metric_fits(v as int),
    ensures
        r@ == value_text(goal, v as int),
{
    match goal {
        Goal::Context => {
            let mut s = fixed0_int_text(v, UNIT as u128);
            s.append(" tokens");
            s
        },
        Goal::LoadTime => {
            let mut s = fixed1_int_text(v, UNIT as u128);
            s.append("s");
            s
        },
        Goal::AgentTurn => {
            let mut s = fixed0_int_text(v, UNIT as u128);
            s.append(" ms");
            s
        },
        _ => {
            let mut s = fixed1_int_text(v, UNIT as u128);
            s.append(" t/s");
            s
        },
    }
}

/// The improvement in percent, with its sign.
pub open spec fn gain_text(goal: Goal, base: int, p: int) -> Seq<char> {
    let imp = improvement_ratio(goal, base, p);
    signed0((imp.0 - imp.1) * 100, imp.1)
}

fn gain_words(goal: Goal, base: i128, p: i128) -> (r: String)
    requires
        metric_fits(base as int),
        metric_fits(p as int),
    ensures
        r@ == gain_text(goal, base as int, p as int),
{
    let imp = improvement(goal, base, p);
    signed0_text((imp.num - imp.den) * 100, imp.den as u128)
}

pub struct VerdictView {
    pub winner: Option<Seq<char>>,
    pub reason: Seq<char>,
}

impl View for Verdict {
    type V = VerdictView;

    open spec fn view(&self) -> VerdictView {
        VerdictView { winner: opt_text(self.winner), reason: self.reason@ }
    }
}

/// The rules that pick the winner, and the sentence that gives the reason.
pub open spec fn verdict_of(
    goal: Goal,
    baseline: TrialResult,
    s: Seq<(Seq<char>, TrialResult)>,
) -> VerdictView {
    if baseline.tg_novel is None || baseline.tg_rewrite is None || baseline.settled_ctx is None {
        VerdictView { winner: None, reason: BASELINE_FAILED@ }
    } else if primary_of(goal, baseline) is None {
        VerdictView { winner: None, reason: NO_GOAL_METRIC@ }
    } else {
        let base = primary_of(goal, baseline)->0;
        match best_of(goal, baseline, s) {
            Some((label, r)) => {
                let p = primary_of(goal, r)->0;
                VerdictView {
                    winner: Some(label),
                    reason: label + ": "@ + metric_name(goal) + " "@ + value_text(goal, p)
                        + " vs baseline "@ + value_text(goal, base) + " ("@ + gain_text(
                        goal,
                        base,
                        p,
                    ) + "% better), everything else preserved"@,
                }
            },
            None => if rejected_count(goal, baseline, s) > 0 {
                VerdictView {
                    winner: None,
                    reason: dec(rejected_count(goal, baseline, s))
                        + " candidate(s) beat baseline on "@ + metric_name(goal) + PAID_TOO_MUCH@,
                }
            } else {
                VerdictView {
                    winner: None,
                    reason: "no candidate beat baseline by ≥10% on "@ + metric_name(goal)
                        + KEEPING_BASELINE@,
                }
            },
        }
    }
}

pub const PAID_TOO_MUCH: &'static str = " but paid too \
                 much elsewhere — no clean winner; the tradeoffs and their numbers are \
                 listed below, and the choice is yours";

pub const KEEPING_BASELINE: &'static str = " without costing \
                 generation speed, context, or output quality — keeping baseline";

/// The measured verdict over the raced candidates.
pub fn verdict(goal: Goal, baseline: &TrialResult, candidates: &TextMap<TrialResult>) -> (v:
    Verdict)
    ensures
        v@ == verdict_of(goal, *baseline, candidates@),
{
    if baseline.tg_novel.is_none() || baseline.tg_rewrite.is_none()
        || baseline.settled_ctx.is_none() {
        return Verdict { winner: None, reason: copy_text(BASELINE_FAILED) };
    }
    let b = match measured(goal, baseline) {
        Some(m) => m,
        None => {
            return Verdict { winner: None, reason: copy_text(NO_GOAL_METRIC) };
        },
    };
    let ghost s = candidates@;
    let mut best: Option<(usize, i128)> = None;
    let mut rejected: usize = 0;
    let mut i: usize = 0;
    while i < candidates.len()
        invariant
            i <= candidates@.len(),
            s == candidates@,
            rejected <= i,
            complete(goal, *baseline),
            baseline.tg_novel == Some(b.novel) && baseline.tg_rewrite == Some(b.rewrite)
                && baseline.settled_ctx == Some(b.ctx) && primary_of(goal, *baseline) == Some(
                b.metric as int,
            ) && metric_fits(b.metric as int),
            rejected as nat == rejected_count(goal, *baseline, s.take(i as int)),
            match best {
                Some((k, p)) => k < i && best_of(goal, *baseline, s.take(i as int)) == Some(
                    s[k as int],
                ) && primary_of(goal, s[k as int].1) == Some(p as int) && metric_fits(p as int)
                    && qualifies(goal, *baseline, s[k as int].1),
                None => best_of(goal, *baseline, s.take(i as int)) is None,
            },
        decreases candidates@.len() - i,
    {
        let ghost sofar = s.take(i + 1);
        assert(sofar.drop_last() =~= s.take(i as int));
        assert(sofar.last() == s[i as int]);
        let label = candidates.key_at(i);
        let r = candidates.value_at(i);
        if !crate::text::same_text(label.as_str(), BASELINE) {
            if let Some(m) = measured(goal, r) {
                let imp = improvement(goal, b.metric, m.metric);
                if ratio_at_least(&imp, 11, 10) {
                    if is_guarded(goal, baseline, &b, r, &m) {
                        rejected += 1;
                    } else {
                        let take = match best {
                            Some((_, q)) => better(goal, b.metric, m.metric, q),
                            None => true,
                        };
                        if take {
                            best = Some((i, m.metric));
                        }
                    }
                }
            }
        }
        i += 1;
    }
    assert(s.take(i as int) =~= s);
    match best {
        Some((k, p)) => {
            let label = candidates.key_at(k);
            let mut reason = label.clone();
            reason.append(": ");
            reason.append(metric(goal));
            reason.append(" ");
            reason.append(value_words(goal, p).as_str());
            reason.append(" vs baseline ");
            reason.append(value_words(goal, b.metric).as_str());
            reason.append(" (");
            reason.append(gain_words(goal, b.metric, p).as_str());
            reason.append("% better), everything else preserved");
            Verdict { winner: Some(label.clone()), reason }
        },
        None => if rejected > 0 {
            let mut reason = dec_len(rejected);
            reason.append(" candidate(s) beat baseline on ");
            reason.append(metric(goal));
            reason.append(PAID_TOO_MUCH);
            Verdict { winner: None, reason }
        } else {
            let mut reason = copy_text("no candidate beat baseline by ≥10% on ");
            reason.append(metric(goal));
            reason.append(KEEPING_BASELINE);
            Verdict { winner: None, reason }
        },
    }
}

// ------------------------------------------------------------- the near misses

/// The goal metric's name where a tradeoff is offered.
pub open spec fn offer_name(goal: Goal) -> Seq<char> {
    if goal == Goal::RewriteTg {
        "rewrite generation"@
    } else {
        metric_name(goal)
    }
}

fn offer(goal: Goal) -> (r: &'static str)
    ensures
        r@ == offer_name(goal),
{
    if goal == Goal::RewriteTg {
        "rewrite generation"
    } else {
        metric(goal)
    }
}

pub const QUALITY_LOSS: &'static str = "% preserved) — a QUALITY \
                 loss, weigh it heavily";

/// What a loss of fidelity costs, in words.
pub open spec fn fidelity_cost(bf: nat, cf: nat) -> Seq<char> {
    fixed0(((bf - cf) * 100) as nat, UNIT as nat) + " points of rewrite fidelity ("@ + fixed0(
        bf * 100,
        UNIT as nat,
    ) + "% → "@ + fixed0(cf * 100, UNIT as nat) + QUALITY_LOSS@
}

/// The part of `base` that a lower `value` lost, in percent. Of nothing at
/// all, any loss is without bound.
pub open spec fn lost_part(base: int, value: int) -> Seq<char> {
    if base == 0 {
        "inf"@
    } else if base > 0 {
        fixed0_int((base - value) * 100, base as nat)
    } else {
        fixed0_int((value - base) * 100, (-base) as nat)
    }
}

/// What a loss of speed costs, in words.
pub open spec fn speed_cost(name: Seq<char>, base: int, value: int) -> Seq<char> {
    lost_part(base, value) + "% of "@ + name + " speed ("@ + fixed0_int(base, UNIT as nat)
        + " → "@ + fixed0_int(value, UNIT as nat) + " t/s)"@
}

/// What a loss of context costs, in words.
pub open spec fn context_cost(base: nat, value: nat) -> Seq<char> {
    fixed0(((base - value) * 100) as nat, base) + "% of context ("@ + dec(base) + " → "@ + dec(
        value,
    ) + ")"@
}

pub open spec fn one_if(cond: bool, t: Seq<char>) -> Seq<Seq<char>> {
    if cond {
        seq![t]
    } else {
        Seq::empty()
    }
}

/// Everything that a candidate's win costs, in words.
pub open spec fn costs_of(goal: Goal, baseline: TrialResult, r: TrialResult) -> Seq<Seq<char>> {
    let imp = improvement_ratio(goal, primary_of(goal, baseline)->0, primary_of(goal, r)->0);
    let f = floors_of(imp);
    let (bn, n) = (baseline.tg_novel->0 as int, r.tg_novel->0 as int);
    let (br, w) = (baseline.tg_rewrite->0 as int, r.tg_rewrite->0 as int);
    let (bc, c) = (baseline.settled_ctx->0 as int, r.settled_ctx->0 as int);
    one_if(
        fidelity_lost(baseline, r),
        fidelity_cost(baseline.fidelity->0 as nat, r.fidelity->0 as nat),
    ) + one_if(under(n, bn, f.0), speed_cost("novel-code"@, bn, n)) + one_if(
        under(w, br, f.0),
        speed_cost("rewrite"@, br, w),
    ) + one_if(under(c, bc, f.1), context_cost(bc as nat, c as nat))
}

pub struct NearMissView {
    pub label: Seq<char>,
    pub gain: Seq<char>,
    pub cost: Seq<char>,
}

impl View for NearMiss {
    type V = NearMissView;

    open spec fn view(&self) -> NearMissView {
        NearMissView { label: self.label@, gain: self.gain@, cost: self.cost@ }
    }
}

pub open spec fn miss_views(v: Seq<NearMiss>) -> Seq<NearMissView> {
    Seq::new(v.len(), |i: int| v[i]@)
}

/// A win in words.
pub open spec fn offer_text(goal: Goal, base: int, p: int) -> Seq<char> {
    let imp = improvement_ratio(goal, base, p);
    "+"@ + fixed0(((imp.0 - imp.1) * 100) as nat, imp.1) + "% "@ + offer_name(goal) + " ("@
        + fixed0_int(base, UNIT as nat) + " → "@ + fixed0_int(p, UNIT as nat) + ")"@
}

/// The tradeoff that a guard-rejected candidate offers.
#[verifier::opaque]
pub open spec fn near_miss_of(
    goal: Goal,
    baseline: TrialResult,
    label: Seq<char>,
    r: TrialResult,
) -> NearMissView {
    NearMissView {
        label,
        gain: offer_text(goal, primary_of(goal, baseline)->0, primary_of(goal, r)->0),
        cost: join(costs_of(goal, baseline, r), " and "@),
    }
}

/// The candidate beat the goal and was rejected by a guard.
pub open spec fn traded_off(goal: Goal, baseline: TrialResult, e: (Seq<char>, TrialResult)) -> bool {
    e.0 != BASELINE@ && beats_goal(goal, baseline, e.1) && guarded(goal, baseline, e.1)
}

/// The candidates that beat the goal and were rejected by a guard.
pub open spec fn near_misses_of(
    goal: Goal,
    baseline: TrialResult,
    s: Seq<(Seq<char>, TrialResult)>,
) -> Seq<NearMissView>
    decreases s.len(),
{
    if s.len() == 0 || !complete(goal, baseline) {
        Seq::empty()
    } else {
        let sofar = near_misses_of(goal, baseline, s.drop_last());
        let (label, r) = s.last();
        if traded_off(goal, baseline, s.last()) {
            sofar.push(near_miss_of(goal, baseline, label, r))
        } else {
            sofar
        }
    }
}

fn fidelity_words(bf: u64, cf: u64) -> (r: String)
    requires
        cf <= bf,
    ensures
        r@ == fidelity_cost(bf as nat, cf as nat),
{
    let mut s = fixed0_text((bf - cf) as u128 * 100, UNIT as u128);
    s.append(" points of rewrite fidelity (");
    s.append(fixed0_text(bf as u128 * 100, UNIT as u128).as_str());
    s.append("% → ");
    s.append(fixed0_text(cf as u128 * 100, UNIT as u128).as_str());
    s.append(QUALITY_LOSS);
    s
}

fn speed_words(name: &str, base: i64, value: i64) -> (r: String)
    ensures
        r@ == speed_cost(name@, base as int, value as int),
{
    let mut s = if base == 0 {
        copy_text("inf")
    } else if base > 0 {
        fixed0_int_text((base as i128 - value as i128) * 100, base as u128)
    } else {
        fixed0_int_text((value as i128 - base as i128) * 100, (-(base as i128)) as u128)
    };
    s.append("% of ");
    s.append(name);
    s.append(" speed (");
    s.append(fixed0_int_text(base as i128, UNIT as u128).as_str());
    s.append(" → ");
    s.append(fixed0_int_text(value as i128, UNIT as u128).as_str());
    s.append(" t/s)");
    s
}

fn context_words(base: u64, value: u64) -> (r: String)
    requires
        value <= base,
        base > 0,
    ensures
        r@ == context_cost(base as nat, value as nat),
{
    let mut s = fixed0_text((base - value) as u128 * 100, base as u128);
    s.append("% of context (");
    s.append(dec_text(base).as_str());
    s.append(" → ");
    s.append(dec_text(value).as_str());
    s.append(")");
    s
}

proof fn lemma_under(value: nat, base: nat, floor: nat)
    requires
        under(value as int, base as int, floor),
        floor <= 100,
    ensures
        value <= base,
        base > 0,
{
    assert(value < base) by (nonlinear_arith)
        requires
            value * 100 < base * floor,
            floor <= 100,
    ;
}

/// What a win costs; empty exactly where no guard rejects it.
fn costs(goal: Goal, baseline: &TrialResult, b: &Measured, r: &TrialResult, m: &Measured) -> (v:
    Vec<String>)
    requires
        complete(goal, *baseline),
        complete(goal, *r),
        baseline.tg_novel == Some(b.novel) && baseline.tg_rewrite == Some(b.rewrite)
            && baseline.settled_ctx == Some(b.ctx) && primary_of(goal, *baseline) == Some(
            b.metric as int,
        ) && metric_fits(b.metric as int),
        r.tg_novel == Some(m.novel) && r.tg_rewrite == Some(m.rewrite) && r.settled_ctx == Some(
            m.ctx,
        ) && primary_of(goal, *r) == Some(m.metric as int) && metric_fits(m.metric as int),
    ensures
        texts(v@) == costs_of(goal, *baseline, *r),
        v@.len() > 0 <==> guarded(goal, *baseline, *r),
{
    broadcast use crate::text::lemma_texts_push;

    let imp = improvement(goal, b.metric, m.metric);
    let f = floors(&imp);
    let mut v: Vec<String> = Vec::new();
    let ghost c0 = Seq::<Seq<char>>::empty();
    assert(texts(v@) =~= c0);
    if lost_fidelity(baseline, r) {
        if let (Some(bf), Some(cf)) = (baseline.fidelity, r.fidelity) {
            v.push(fidelity_words(bf, cf));
        }
    }
    let ghost c1 = one_if(
        fidelity_lost(*baseline, *r),
        fidelity_cost(baseline.fidelity->0 as nat, r.fidelity->0 as nat),
    );
    assert(texts(v@) =~= c1);
    if is_under(m.novel as i128, b.novel as i128, f.0) {
        v.push(speed_words("novel-code", b.novel, m.novel));
    }
    let ghost c2 = c1 + one_if(
        under(m.novel as int, b.novel as int, f.0 as nat),
        speed_cost("novel-code"@, b.novel as int, m.novel as int),
    );
    assert(texts(v@) =~= c2);
    if is_under(m.rewrite as i128, b.rewrite as i128, f.0) {
        v.push(speed_words("rewrite", b.rewrite, m.rewrite));
    }
    let ghost c3 = c2 + one_if(
        under(m.rewrite as int, b.rewrite as int, f.0 as nat),
        speed_cost("rewrite"@, b.rewrite as int, m.rewrite as int),
    );
    assert(texts(v@) =~= c3);
    if is_under(m.ctx as i128, b.ctx as i128, f.1) {
        proof {
            lemma_under(m.ctx as nat, b.ctx as nat, f.1 as nat);
        }
        v.push(context_words(b.ctx, m.ctx));
    }
    assert(texts(v@) =~= c3 + one_if(
        under(m.ctx as int, b.ctx as int, f.1 as nat),
        context_cost(b.ctx as nat, m.ctx as nat),
    ));
    assert(texts(v@).len() == v@.len());
    v
}

fn offer_words(goal: Goal, base: i128, p: i128) -> (r: String)
    requires
        metric_fits(base as int),
        metric_fits(p as int),
        at_least(improvement_ratio(goal, base as int, p as int), 11, 10),
    ensures
        r@ == offer_text(goal, base as int, p as int),
{
    let imp = improvement(goal, base, p);
    let mut s = copy_text("+");
    s.append(fixed0_text(((imp.num - imp.den) * 100) as u128, imp.den as u128).as_str());
    s.append("% ");
    s.append(offer(goal));
    s.append(" (");
    s.append(fixed0_int_text(base, UNIT as u128).as_str());
    s.append(" → ");
    s.append(fixed0_int_text(p, UNIT as u128).as_str());
    s.append(")");
    s
}

/// Guard-rejected-but-goal-beating candidates, with gains and costs
/// spelled out.
pub fn near_misses(goal: Goal, baseline: &TrialResult, raced: &TextMap<TrialResult>) -> (v: Vec<
    NearMiss,
>)
    ensures
        miss_views(v@) == near_misses_of(goal, *baseline, raced@),
{
    let mut out: Vec<NearMiss> = Vec::new();
    assert(miss_views(out@) =~= Seq::<NearMissView>::empty());
    let b = match measured(goal, baseline) {
        Some(m) => m,
        None => {
            return out;
        },
    };
    let ghost s = raced@;
    let mut i: usize = 0;
    while i < raced.len()
        invariant
            i <= raced@.len(),
            s == raced@,
            complete(goal, *baseline),
            baseline.tg_novel == Some(b.novel) && baseline.tg_rewrite == Some(b.rewrite)
                && baseline.settled_ctx == Some(b.ctx) && primary_of(goal, *baseline) == Some(
                b.metric as int,
            ) && metric_fits(b.metric as int),
            miss_views(out@) == near_misses_of(goal, *baseline, s.take(i as int)),
        decreases raced@.len() - i,
    {
        let ghost sofar = s.take(i + 1);
        assert(sofar.drop_last() =~= s.take(i as int));
        assert(sofar.last() == s[i as int]);
        let label = raced.key_at(i);
        let r = raced.value_at(i);
        if !crate::text::same_text(label.as_str(), BASELINE) {
            if let Some(m) = measured(goal, r) {
                let imp = improvement(goal, b.metric, m.metric);
                if ratio_at_least(&imp, 11, 10) {
                    let c = costs(goal, baseline, &b, r, &m);
                    if c.len() > 0 {
                        let ghost before = miss_views(out@);
                        let nm = NearMiss {
                            label: label.clone(),
                            gain: offer_words(goal, b.metric, m.metric),
                            cost: join_texts(&c, " and "),
                        };
                        proof {
                            reveal(near_miss_of);
                        }
                        out.push(nm);
                        assert(miss_views(out@) =~= before.push(nm@));
                    }
                }
            }
        }
        i += 1;
    }
    assert(s.take(i as int) =~= s);
    out
}

// ------------------------------------------------------------- the explanation

pub const COLUMNS: &'static str = "What the columns mean — novel: generating brand-new code, speculation's worst \
         case (the did-anything-get-hurt check). rewrite: regenerating code the model was \
         given — edits, refactors, applying diffs — which is most of what a coding agent \
         does. prefill: how fast it reads your prompt before the first token. context: \
         the window memory-fitting could afford under this config. accepted: how many \
         speculated tokens the model confirmed. 2nd-turn ms: the agent-turn probe — \
         a big prompt sent, then re-sent with a middle edit (what agents do every \
         turn); this is how long the second turn's prefill took, with how much of it \
         the prompt cache served. fidelity: the quality gate — how much of a module \
         the model was told to preserve came back verbatim (a drop means the config \
         is degrading output, and no speed win survives that).";

pub const NOTHING_TO_COMPARE: &'static str = "The baseline itself failed to measure, so nothing can be compared.";

pub const BASELINE_INCOMPLETE: &'static str = "The baseline lacks the goal metric — re-run the trial.";

pub const NO_CANDIDATE: &'static str = "No candidate is recommended: earning a config change takes a ≥10% win on the \
             goal metric without giving up generation speed or context, and none managed it.";

pub const RECOMMENDED: &'static str = " is recommended because the metric that matters most here — ";

pub const NOTHING_PAID: &'static str = ") while nothing was paid for it: \
             novel-code speed stayed within noise (";

pub const QUALITY_HELD: &'static str = " and \
             output quality held at the fidelity gate.";

pub const UNDER_THE_BAR: &'static str = " — under the 10% bar a config \
                 change must earn to be worth carrying.";

pub const OFFERED: &'static str = ". That tradeoff is offered as \
                 a button, not silently picked; for a win this size it is often worth \
                 taking.";

pub const COUNTERINTUITIVE: &'static str = "Counterintuitive but consistent across every model measured so far: ";

pub const NOT_PAYOFF: &'static str = "%) yet gained \
                     less. Acceptance counts agreements, not payoff — a mode that drafts \
                     short, cheap spans wins often and earns little. Speed is the truth, \
                     which is why the app measures it instead of trusting the proxy.";

pub const ALREADY_FAST: &'static str = "If the gain looks smaller than the +100% some models see: this model is \
             already fast, and a fast model spends proportionally more of its time \
             verifying drafts — slower models have the most to win from speculation.";

pub const SETTLES_AT: &'static str = "Separate observation: the BASELINE config settles at ";

pub const ABOVE_THE_FLOOR: &'static str = " tokens of context — \
             above the ~";

pub const FAST_HELPER: &'static str = " floor where agent work gets painful, but modest. Think \"fast \
             helper\", not \"whole repo in the window\".";

/// The goal metric's unit.
pub open spec fn unit_name(goal: Goal) -> Seq<char> {
    match goal {
        Goal::Context => "tokens"@,
        Goal::LoadTime => "s"@,
        Goal::AgentTurn => "ms"@,
        _ => "t/s"@,
    }
}

fn unit(goal: Goal) -> (r: &'static str)
    ensures
        r@ == unit_name(goal),
{
    match goal {
        Goal::Context => "tokens",
        Goal::LoadTime => "s",
        Goal::AgentTurn => "ms",
        _ => "t/s",
    }
}

pub open spec fn or_zero(o: Option<u64>) -> nat {
    match o {
        Some(v) => v as nat,
        None => 0,
    }
}

pub open spec fn figure_or_zero(o: Option<i64>) -> int {
    match o {
        Some(v) => v as int,
        None => 0,
    }
}

/// What became of the context where it was not the goal.
pub open spec fn context_words_of(goal: Goal, base: nat, value: nat) -> Seq<char> {
    if goal == Goal::Context {
        "IS the win"@
    } else {
        "is effectively unchanged ("@ + dec(base) + " → "@ + dec(value) + ")"@
    }
}

/// The paragraph on the winner, with its evidence.
pub open spec fn winner_text(
    goal: Goal,
    base: TrialResult,
    winner: Option<Seq<char>>,
    raced: Seq<(Seq<char>, TrialResult)>,
) -> Seq<char> {
    match winner {
        Some(w) => match lookup(raced, w) {
            Some(r) => match primary_of(goal, r) {
                Some(p) => {
                    let b = primary_of(goal, base)->0;
                    w + RECOMMENDED@ + metric_name(goal) + " — improved "@ + gain_text(goal, b, p)
                        + "% ("@ + fixed0_int(b, UNIT as nat) + " → "@ + fixed0_int(p, UNIT as nat)
                        + " "@ + unit_name(goal) + NOTHING_PAID@ + fixed1_int(
                        base.tg_novel->0 as int,
                        UNIT as nat,
                    ) + " → "@ + fixed1_int(figure_or_zero(r.tg_novel), UNIT as nat)
                        + "), context "@
                        + context_words_of(
                        goal,
                        base.settled_ctx->0 as nat,
                        or_zero(r.settled_ctx),
                    ) + QUALITY_HELD@
                },
                None => NO_CANDIDATE@,
            },
            None => NO_CANDIDATE@,
        },
        None => NO_CANDIDATE@,
    }
}

/// The first near miss of a label.
pub open spec fn miss_of(misses: Seq<NearMissView>, label: Seq<char>) -> Option<NearMissView>
    decreases misses.len(),
{
    if misses.len() == 0 {
        None
    } else if misses[0].label == label {
        Some(misses[0])
    } else {
        miss_of(misses.skip(1), label)
    }
}

/// Why a losing candidate lost.
pub open spec fn loser_text(
    goal: Goal,
    base: TrialResult,
    misses: Seq<NearMissView>,
    label: Seq<char>,
    r: TrialResult,
) -> Option<Seq<char>> {
    if r.error is Some {
        Some(label + " failed to run ("@ + r.error->0@ + ") — recorded, not retried blindly."@)
    } else if !complete(goal, r) {
        None
    } else {
        let (b, p) = (primary_of(goal, base)->0, primary_of(goal, r)->0);
        if !at_least(improvement_ratio(goal, b, p), 11, 10) {
            Some(
                label + " gained only "@ + gain_text(goal, b, p) + "% on "@ + metric_name(goal)
                    + UNDER_THE_BAR@,
            )
        } else {
            match miss_of(misses, label) {
                Some(nm) => Some(
                    label + " beat the goal — "@ + nm.gain + " — but costs "@ + nm.cost + OFFERED@,
                ),
                None => Some(
                    label + " qualified ("@ + gain_text(goal, b, p)
                        + "%) but the winner gained more."@,
                ),
            }
        }
    }
}

/// The paragraphs on the losing candidates.
pub open spec fn losers_text(
    goal: Goal,
    base: TrialResult,
    winner: Option<Seq<char>>,
    misses: Seq<NearMissView>,
    raced: Seq<(Seq<char>, TrialResult)>,
) -> Seq<Seq<char>>
    decreases raced.len(),
{
    if raced.len() == 0 {
        Seq::empty()
    } else {
        let sofar = losers_text(goal, base, winner, misses, raced.drop_last());
        let (label, r) = raced.last();
        if label == BASELINE@ || Some(label) == winner {
            sofar
        } else {
            match loser_text(goal, base, misses, label, r) {
                Some(t) => sofar.push(t),
                None => sofar,
            }
        }
    }
}

/// The label accepted more than the winner did and gained less.
pub open spec fn accepted_more(goal: Goal, wr: TrialResult, r: TrialResult) -> bool {
    r.accept_rewrite is Some && primary_of(goal, r) is Some && r.accept_rewrite->0
        > wr.accept_rewrite->0 + 50_000 && primary_of(goal, r)->0 < primary_of(goal, wr)->0
}

/// The first candidate from `from` on that accepted more and gained less.
pub open spec fn first_accepting(
    goal: Goal,
    w: Seq<char>,
    wr: TrialResult,
    raced: Seq<(Seq<char>, TrialResult)>,
    from: int,
) -> Option<int>
    decreases raced.len() - from,
{
    if from < 0 || from >= raced.len() {
        None
    } else if raced[from].0 != BASELINE@ && raced[from].0 != w && accepted_more(
        goal,
        wr,
        raced[from].1,
    ) {
        Some(from)
    } else {
        first_accepting(goal, w, wr, raced, from + 1)
    }
}

/// The recurring counterintuitive one: acceptance is not speed.
pub open spec fn acceptance_text(
    goal: Goal,
    winner: Option<Seq<char>>,
    raced: Seq<(Seq<char>, TrialResult)>,
) -> Seq<Seq<char>> {
    match winner {
        Some(w) => match lookup(raced, w) {
            Some(wr) => if wr.accept_rewrite is Some && primary_of(goal, wr) is Some {
                match first_accepting(goal, w, wr, raced, 0) {
                    Some(i) => seq![
                        COUNTERINTUITIVE@ + raced[i].0 + " had the HIGHER acceptance rate ("@
                            + fixed0(
                            raced[i].1.accept_rewrite->0 as nat * 100,
                            UNIT as nat,
                        ) + "% vs "@ + fixed0(
                            wr.accept_rewrite->0 as nat * 100,
                            UNIT as nat,
                        ) + NOT_PAYOFF@,
                    ],
                    None => Seq::empty(),
                }
            } else {
                Seq::empty()
            },
            None => Seq::empty(),
        },
        None => Seq::empty(),
    }
}

/// The verdict explained in plain language, paragraph by paragraph.
pub open spec fn explain_of(
    goal: Goal,
    winner: Option<Seq<char>>,
    misses: Seq<NearMissView>,
    raced: Seq<(Seq<char>, TrialResult)>,
) -> Seq<Seq<char>> {
    match lookup(raced, BASELINE@) {
        None => seq![COLUMNS@, NOTHING_TO_COMPARE@],
        Some(base) => if !complete(goal, base) {
            seq![COLUMNS@, BASELINE_INCOMPLETE@]
        } else {
            seq![COLUMNS@, winner_text(goal, base, winner, raced)] + losers_text(
                goal,
                base,
                winner,
                misses,
                raced,
            ) + acceptance_text(goal, winner, raced) + one_if(
                goal == Goal::RewriteTg && base.tg_rewrite->0 > 100 * UNIT,
                ALREADY_FAST@,
            ) + one_if(
                base.settled_ctx->0 < 2 * AGENT_MIN_CTX,
                SETTLES_AT@ + dec(base.settled_ctx->0 as nat) + ABOVE_THE_FLOOR@ + dec(
                    AGENT_MIN_CTX as nat,
                ) + FAST_HELPER@,
            )
        },
    }
}

pub open spec fn explain_report(r: TrialReport) -> Seq<Seq<char>> {
    explain_of(r.goal, opt_text(r.verdict.winner), miss_views(r.near_misses@), r.raced@)
}

fn winner_words(goal: Goal, base: &TrialResult, b: &Measured, w: &Option<String>, raced: &TextMap<
    TrialResult,
>) -> (t: String)
    requires
        complete(goal, *base),
        base.tg_novel == Some(b.novel) && base.settled_ctx == Some(b.ctx) && primary_of(
            goal,
            *base,
        ) == Some(b.metric as int) && metric_fits(b.metric as int),
    ensures
        t@ == winner_text(goal, *base, opt_text(*w), raced@),
{
    if let Some(w) = w {
        if let Some(r) = raced.get(w.as_str()) {
            if let Some(p) = primary(goal, r) {
                let mut s = w.clone();
                s.append(RECOMMENDED);
                s.append(metric(goal));
                s.append(" — improved ");
                s.append(gain_words(goal, b.metric, p).as_str());
                s.append("% (");
                s.append(fixed0_int_text(b.metric, UNIT as u128).as_str());
                s.append(" → ");
                s.append(fixed0_int_text(p, UNIT as u128).as_str());
                s.append(" ");
                s.append(unit(goal));
                s.append(NOTHING_PAID);
                s.append(fixed1_int_text(b.novel as i128, UNIT as u128).as_str());
                s.append(" → ");
                let novel: i64 = match r.tg_novel {
                    Some(v) => v,
                    None => 0,
                };
                s.append(fixed1_int_text(novel as i128, UNIT as u128).as_str());
                s.append("), context ");
                let ctx: u64 = match r.settled_ctx {
                    Some(v) => v,
                    None => 0,
                };
                let mut c = String::new();
                if goal == Goal::Context {
                    c = copy_text("IS the win");
                } else {
                    c = copy_text("is effectively unchanged (");
                    c.append(dec_text(b.ctx).as_str());
                    c.append(" → ");
                    c.append(dec_text(ctx).as_str());
                    c.append(")");
                }
                s.append(c.as_str());
                s.append(QUALITY_HELD);
                return s;
            }
        }
    }
    copy_text(NO_CANDIDATE)
}

fn find_miss<'a>(misses: &'a [NearMiss], label: &str) -> (r: Option<&'a NearMiss>)
    ensures
        match r {
            Some(nm) => miss_of(miss_views(misses@), label@) == Some(nm@),
            None => miss_of(miss_views(misses@), label@) is None,
        },
{
    let mut i: usize = 0;
    assert(miss_views(misses@).skip(0) =~= miss_views(misses@));
    while i < misses.len()
        invariant
            i <= misses.len(),
            miss_of(miss_views(misses@), label@) == miss_of(
                miss_views(misses@).skip(i as int),
                label@,
            ),
        decreases misses.len() - i,
    {
        if crate::text::same_text(misses[i].label.as_str(), label) {
            return Some(&misses[i]);
        }
        assert(miss_views(misses@).skip(i as int).skip(1) =~= miss_views(misses@).skip(i + 1));
        i += 1;
    }
    None
}

fn loser_words(
    goal: Goal,
    base: &TrialResult,
    b: &Measured,
    misses: &[NearMiss],
    label: &String,
    r: &TrialResult,
) -> (t: Option<String>)
    requires
        complete(goal, *base),
        primary_of(goal, *base) == Some(b.metric as int),
        metric_fits(b.metric as int),
    ensures
        opt_text(t) == loser_text(goal, *base, miss_views(misses@), label@, *r),
{
    if let Some(e) = &r.error {
        let mut s = label.clone();
        s.append(" failed to run (");
        s.append(e.as_str());
        s.append(") — recorded, not retried blindly.");
        return Some(s);
    }
    let m = match measured(goal, r) {
        Some(m) => m,
        None => {
            return None;
        },
    };
    let imp = improvement(goal, b.metric, m.metric);
    let mut s = label.clone();
    if !ratio_at_least(&imp, 11, 10) {
        s.append(" gained only ");
        s.append(gain_words(goal, b.metric, m.metric).as_str());
        s.append("% on ");
        s.append(metric(goal));
        s.append(UNDER_THE_BAR);
    } else if let Some(nm) = find_miss(misses, label.as_str()) {
        s.append(" beat the goal — ");
        s.append(nm.gain.as_str());
        s.append(" — but costs ");
        s.append(nm.cost.as_str());
        s.append(OFFERED);
    } else {
        s.append(" qualified (");
        s.append(gain_words(goal, b.metric, m.metric).as_str());
        s.append("%) but the winner gained more.");
    }
    Some(s)
}

fn is_label(o: &Option<String>, label: &str) -> (r: bool)
    ensures
        r == (Some(label@) == opt_text(*o)),
{
    match o {
        Some(s) => crate::text::same_text(s.as_str(), label),
        None => false,
    }
}

fn losers_words(
    goal: Goal,
    base: &TrialResult,
    b: &Measured,
    winner: &Option<String>,
    misses: &[NearMiss],
    raced: &TextMap<TrialResult>,
) -> (v: Vec<String>)
    requires
        complete(goal, *base),
        primary_of(goal, *base) == Some(b.metric as int),
        metric_fits(b.metric as int),
    ensures
        texts(v@) == losers_text(goal, *base, opt_text(*winner), miss_views(misses@), raced@),
{
    broadcast use crate::text::lemma_texts_push;

    let mut out: Vec<String> = Vec::new();
    assert(texts(out@) =~= Seq::<Seq<char>>::empty());
    let ghost s = raced@;
    let mut i: usize = 0;
    while i < raced.len()
        invariant
            i <= raced@.len(),
            s == raced@,
            complete(goal, *base),
            primary_of(goal, *base) == Some(b.metric as int),
            metric_fits(b.metric as int),
            texts(out@) == losers_text(
                goal,
                *base,
                opt_text(*winner),
                miss_views(misses@),
                s.take(i as int),
            ),
        decreases raced@.len() - i,
    {
        let ghost sofar = s.take(i + 1);
        assert(sofar.drop_last() =~= s.take(i as int));
        assert(sofar.last() == s[i as int]);
        let label = raced.key_at(i);
        if !crate::text::same_text(label.as_str(), BASELINE) && !is_label(winner, label.as_str()) {
            if let Some(t) = loser_words(goal, base, b, misses, label, raced.value_at(i)) {
                out.push(t);
            }
        }
        i += 1;
    }
    assert(s.take(i as int) =~= s);
    out
}

fn acceptance_words(goal: Goal, winner: &Option<String>, raced: &TextMap<TrialResult>) -> (r:
    Option<String>)
    ensures
        acceptance_text(goal, opt_text(*winner), raced@) == match r {
            Some(t) => seq![t@],
            None => Seq::empty(),
        },
{
    let w = match winner {
        Some(w) => w,
        None => {
            return None;
        },
    };
    let wr = match raced.get(w.as_str()) {
        Some(r) => r,
        None => {
            return None;
        },
    };
    let (w_acc, w_p) = match (wr.accept_rewrite, primary(goal, wr)) {
        (Some(a), Some(p)) => (a, p),
        _ => {
            return None;
        },
    };
    let mut i: usize = 0;
    while i < raced.len()
        invariant
            i <= raced@.len(),
            *winner == Some(*w),
            lookup(raced@, w@) == Some(*wr),
            wr.accept_rewrite == Some(w_acc),
            primary_of(goal, *wr) == Some(w_p as int),
            first_accepting(goal, w@, *wr, raced@, 0) == first_accepting(
                goal,
                w@,
                *wr,
                raced@,
                i as int,
            ),
        decreases raced@.len() - i,
    {
        let label = raced.key_at(i);
        let r = raced.value_at(i);
        if !crate::text::same_text(label.as_str(), BASELINE) && !crate::text::same_text(
            label.as_str(),
            w.as_str(),
        ) {
            if let (Some(acc), Some(p)) = (r.accept_rewrite, primary(goal, r)) {
                if acc as u128 > w_acc as u128 + 50_000 && p < w_p {
                    assert(accepted_more(goal, *wr, *r));
                    let mut s = copy_text(COUNTERINTUITIVE);
                    s.append(label.as_str());
                    s.append(" had the HIGHER acceptance rate (");
                    s.append(fixed0_text(acc as u128 * 100, UNIT as u128).as_str());
                    s.append("% vs ");
                    s.append(fixed0_text(w_acc as u128 * 100, UNIT as u128).as_str());
                    s.append(NOT_PAYOFF);
                    assert(first_accepting(goal, w@, *wr, raced@, 0) == Some(i as int));
                    return Some(s);
                }
            }
        }
        i += 1;
    }
    None
}

/// The verdict explained in plain language, derived entirely from the
/// measured table — the rules that pick the winner narrate their own
/// reasoning.
pub fn explain(report: &TrialReport) -> (v: Vec<String>)
    ensures
        texts(v@) == explain_report(*report),
{
    broadcast use crate::text::lemma_texts_push;

    let goal = report.goal;
    let mut out: Vec<String> = Vec::new();
    out.push(copy_text(COLUMNS));
    assert(texts(out@) =~= seq![COLUMNS@]);
    let base = match report.raced.get(BASELINE) {
        Some(b) => b,
        None => {
            out.push(copy_text(NOTHING_TO_COMPARE));
            assert(texts(out@) =~= seq![COLUMNS@, NOTHING_TO_COMPARE@]);
            return out;
        },
    };
    let b = match measured(goal, base) {
        Some(m) => m,
        None => {
            out.push(copy_text(BASELINE_INCOMPLETE));
            assert(texts(out@) =~= seq![COLUMNS@, BASELINE_INCOMPLETE@]);
            return out;
        },
    };
    let ghost winner = opt_text(report.verdict.winner);
    let ghost misses = miss_views(report.near_misses@);
    let ghost raced = report.raced@;
    out.push(winner_words(goal, base, &b, &report.verdict.winner, &report.raced));
    let ghost p1 = seq![COLUMNS@, winner_text(goal, *base, winner, raced)];
    assert(texts(out@) =~= p1);
    let mut losers = losers_words(
        goal,
        base,
        &b,
        &report.verdict.winner,
        &report.near_misses,
        &report.raced,
    );
    let ghost lt = texts(losers@);
    let ghost l0 = losers@;
    let ghost o0 = out@;
    out.append(&mut losers);
    assert(texts(out@) =~= p1 + lt) by {
        assert(out@ == o0 + l0);
    }
    let ghost p2 = p1 + lt;
    if let Some(t) = acceptance_words(goal, &report.verdict.winner, &report.raced) {
        out.push(t);
    }
    let ghost p3 = p2 + acceptance_text(goal, winner, raced);
    assert(texts(out@) =~= p3);
    if goal == Goal::RewriteTg && b.rewrite as i128 > 100 * UNIT as i128 {
        out.push(copy_text(ALREADY_FAST));
    }
    let ghost p4 = p3 + one_if(
        goal == Goal::RewriteTg && base.tg_rewrite->0 > 100 * UNIT,
        ALREADY_FAST@,
    );
    assert(texts(out@) =~= p4);
    if b.ctx < 2 * AGENT_MIN_CTX {
        let mut s = copy_text(SETTLES_AT);
        s.append(dec_text(b.ctx).as_str());
        s.append(ABOVE_THE_FLOOR);
        s.append(dec_text(AGENT_MIN_CTX).as_str());
        s.append(FAST_HELPER);
        out.push(s);
    }
    assert(texts(out@) =~= explain_report(*report));
    out
}

// -------------------------------------------------------------------- the laws

proof fn lemma_improves_more(goal: Goal, base: int, p: int, q: int)
    requires
        at_least(improvement_ratio(goal, base, p), 11, 10),
        at_least(improvement_ratio(goal, base, q), 11, 10),
    ensures
        improves_more(goal, base, p, q) == if lower_is_better(goal) {
            p < q
        } else {
            p > q
        },
{
    if lower_is_better(goal) {
        assert((base * q > base * p) == (q > p)) by (nonlinear_arith)
            requires
                base > 0,
        ;
    } else {
        assert((p * base > q * base) == (p > q)) by (nonlinear_arith)
            requires
                base > 0,
        ;
    }
}

/// The winner earned its place: it is one of the raced candidates and not
/// the baseline, it beat the goal by at least 10%, no guard rejects it, and
/// no other candidate that qualifies improved more.
pub proof fn winner_is_earned(goal: Goal, baseline: TrialResult, s: Seq<(Seq<char>, TrialResult)>)
    requires
        complete(goal, baseline),
    ensures
        match best_of(goal, baseline, s) {
            Some(w) => {
                &&& s.contains(w)
                &&& w.0 != BASELINE@
                &&& qualifies(goal, baseline, w.1)
                &&& forall|j: int|
                    0 <= j < s.len() && s[j].0 != BASELINE@ && qualifies(
                        goal,
                        baseline,
                        #[trigger] s[j].1,
                    ) ==> !improves_more(
                        goal,
                        primary_of(goal, baseline)->0,
                        primary_of(goal, s[j].1)->0,
                        primary_of(goal, w.1)->0,
                    )
            },
            None => forall|j: int|
                0 <= j < s.len() && s[j].0 != BASELINE@ ==> !qualifies(
                    goal,
                    baseline,
                    #[trigger] s[j].1,
                ),
        },
    decreases s.len(),
{
    if s.len() > 0 {
        let t = s.drop_last();
        winner_is_earned(goal, baseline, t);
        let base = primary_of(goal, baseline)->0;
        assert(forall|j: int| 0 <= j < t.len() ==> #[trigger] t[j] == s[j]);
        assert(s[s.len() - 1] == s.last());
        let best = best_of(goal, baseline, s);
        if let Some(o) = best_of(goal, baseline, t) {
            let k = t.index_of(o);
            assert(t.contains(o));
            assert(s[k] == o);
        }
        if let Some(w) = best {
            assert forall|j: int|
                0 <= j < s.len() && s[j].0 != BASELINE@ && qualifies(
                    goal,
                    baseline,
                    #[trigger] s[j].1,
                ) implies !improves_more(
                goal,
                base,
                primary_of(goal, s[j].1)->0,
                primary_of(goal, w.1)->0,
            ) by {
                let pj = primary_of(goal, s[j].1)->0;
                let pw = primary_of(goal, w.1)->0;
                lemma_improves_more(goal, base, pj, pw);
                if j < t.len() {
                    assert(qualifies(goal, baseline, t[j].1));
                    if let Some(o) = best_of(goal, baseline, t) {
                        let po = primary_of(goal, o.1)->0;
                        lemma_improves_more(goal, base, pj, po);
                        lemma_improves_more(goal, base, pw, po);
                    }
                } else if let Some(o) = best_of(goal, baseline, t) {
                    let po = primary_of(goal, o.1)->0;
                    lemma_improves_more(goal, base, pj, po);
                }
            }
        } else {
            assert forall|j: int| 0 <= j < s.len() && s[j].0 != BASELINE@ implies !qualifies(
                goal,
                baseline,
                #[trigger] s[j].1,
            ) by {
                if j < t.len() {
                    assert(!qualifies(goal, baseline, t[j].1));
                }
            }
        }
    }
}

/// The fidelity gate never relaxes: whatever the size of the win, a verdict
/// never crowns a candidate that lost more than 5 points of fidelity.
pub proof fn quality_is_not_a_currency(
    goal: Goal,
    baseline: TrialResult,
    s: Seq<(Seq<char>, TrialResult)>,
)
    requires
        sorted(s),
        verdict_of(goal, baseline, s).winner is Some,
    ensures
        exists|i: int|
            0 <= i < s.len() && #[trigger] s[i].0 == verdict_of(goal, baseline, s).winner->0
                && !fidelity_lost(baseline, s[i].1),
{
    winner_is_earned(goal, baseline, s);
    let w = best_of(goal, baseline, s)->0;
    let i = s.index_of(w);
    assert(s[i] == w);
}

/// The near misses are exactly the candidates that beat the goal and were
/// rejected by a guard, and the verdict counts as many.
pub proof fn misses_are_the_guarded(
    goal: Goal,
    baseline: TrialResult,
    s: Seq<(Seq<char>, TrialResult)>,
)
    requires
        complete(goal, baseline),
    ensures
        near_misses_of(goal, baseline, s).len() == rejected_count(goal, baseline, s),
        forall|i: int|
            0 <= i < s.len() && traded_off(goal, baseline, #[trigger] s[i]) ==> near_misses_of(
                goal,
                baseline,
                s,
            ).contains(near_miss_of(goal, baseline, s[i].0, s[i].1)),
        forall|k: int|
            0 <= k < near_misses_of(goal, baseline, s).len() ==> is_a_miss(
                goal,
                baseline,
                s,
                #[trigger] near_misses_of(goal, baseline, s)[k],
            ),
    decreases s.len(),
{
    if s.len() > 0 {
        let t = s.drop_last();
        misses_are_the_guarded(goal, baseline, t);
        let a = near_misses_of(goal, baseline, t);
        let b = near_misses_of(goal, baseline, s);
        let last = traded_off(goal, baseline, s.last());
        assert(b == if last {
            a.push(near_miss_of(goal, baseline, s.last().0, s.last().1))
        } else {
            a
        });
        assert forall|i: int| 0 <= i < s.len() && traded_off(goal, baseline, #[trigger] s[i]) implies b.contains(
            near_miss_of(goal, baseline, s[i].0, s[i].1),
        ) by {
            let nm = near_miss_of(goal, baseline, s[i].0, s[i].1);
            if i < t.len() {
                assert(t[i] == s[i]);
                assert(a.contains(nm));
                let k = a.index_of(nm);
                assert(b[k] == nm);
            } else {
                assert(b[a.len() as int] == nm);
            }
        }
        assert forall|k: int| 0 <= k < b.len() implies is_a_miss(
            goal,
            baseline,
            s,
            #[trigger] b[k],
        ) by {
            if k < a.len() {
                assert(a[k] == b[k]);
                assert(is_a_miss(goal, baseline, t, a[k]));
                let i = choose|i: int|
                    0 <= i < t.len() && traded_off(goal, baseline, #[trigger] t[i]) && a[k]
                        == near_miss_of(goal, baseline, t[i].0, t[i].1);
                assert(s[i] == t[i]);
            } else {
                assert(s[s.len() - 1] == s.last());
            }
        }
    }
}

/// `nm` is the tradeoff of some guard-rejected candidate of `s`.
pub open spec fn is_a_miss(
    goal: Goal,
    baseline: TrialResult,
    s: Seq<(Seq<char>, TrialResult)>,
    nm: NearMissView,
) -> bool {
    exists|i: int|
        0 <= i < s.len() && traded_off(goal, baseline, #[trigger] s[i]) && nm == near_miss_of(
            goal,
            baseline,
            s[i].0,
            s[i].1,
        )
}

/// A winner is never listed among the tradeoffs that the rules rejected.
pub proof fn winner_is_no_near_miss(
    goal: Goal,
    baseline: TrialResult,
    s: Seq<(Seq<char>, TrialResult)>,
    k: int,
)
    requires
        sorted(s),
        verdict_of(goal, baseline, s).winner is Some,
        0 <= k < near_misses_of(goal, baseline, s).len(),
    ensures
        near_misses_of(goal, baseline, s)[k].label != verdict_of(goal, baseline, s).winner->0,
{
    winner_is_earned(goal, baseline, s);
    misses_are_the_guarded(goal, baseline, s);
    let w = best_of(goal, baseline, s)->0;
    let j = s.index_of(w);
    assert(s[j] == w);
    let nm = near_misses_of(goal, baseline, s)[k];
    assert(is_a_miss(goal, baseline, s, nm));
    let i = choose|i: int|
        0 <= i < s.len() && traded_off(goal, baseline, #[trigger] s[i]) && nm == near_miss_of(
            goal,
            baseline,
            s[i].0,
            s[i].1,
        );
    assert(nm.label == s[i].0) by {
        reveal(near_miss_of);
    }
    if s[i].0 == s[j].0 && i != j {
        crate::text::lemma_text_lt_irreflexive(s[i].0);
        if i < j {
            assert(crate::text::text_lt(s[i].0, s[j].0));
        } else {
            assert(crate::text::text_lt(s[j].0, s[i].0));
        }
    }
}

/// How a result compares with the baseline on the goal, as the two figures
/// whose quotient is the improvement: where more is better, the result's and
/// the baseline's; where less is better, the baseline's and the result's.
pub open spec fn compared(goal: Goal, base: TrialResult, r: TrialResult) -> (int, int) {
    match goal {
        Goal::RewriteTg => (r.tg_rewrite->0 as int, base.tg_rewrite->0 as int),
        Goal::Prefill => (r.pp_prefill->0 as int, base.pp_prefill->0 as int),
        Goal::Context => (r.settled_ctx->0 as int, base.settled_ctx->0 as int),
        Goal::LoadTime => (base.load_secs->0 as int, r.load_secs->0 as int),
        Goal::AgentTurn => (base.turn2_prompt_ms->0 as int, r.turn2_prompt_ms->0 as int),
    }
}

/// Everything that is compared was measured.
pub open spec fn has_figures(goal: Goal, r: TrialResult) -> bool {
    &&& r.tg_novel is Some
    &&& r.tg_rewrite is Some
    &&& r.settled_ctx is Some
    &&& match goal {
        Goal::RewriteTg => true,
        Goal::Prefill => r.pp_prefill is Some,
        Goal::Context => true,
        Goal::LoadTime => r.load_secs is Some,
        Goal::AgentTurn => r.turn2_prompt_ms is Some,
    }
}

/// So many hundredths of the baseline's context, novel-code speed and rewrite
/// speed are kept.
pub open spec fn keeps(base: TrialResult, r: TrialResult, ctx: int, speed: int) -> bool {
    &&& r.settled_ctx->0 * 100 >= base.settled_ctx->0 * ctx
    &&& r.tg_novel->0 * 100 >= base.tg_novel->0 * speed
    &&& r.tg_rewrite->0 * 100 >= base.tg_rewrite->0 * speed
}

/// Fidelity was not lost by more than 5 points.
pub open spec fn stays_true(base: TrialResult, r: TrialResult) -> bool {
    base.fidelity is Some && r.fidelity is Some ==> r.fidelity->0 + 50_000 >= base.fidelity->0
}

/// At least a tenth better on the goal.
pub open spec fn wins(goal: Goal, base: TrialResult, r: TrialResult) -> bool {
    let (num, den) = compared(goal, base, r);
    den > 0 && num * 10 >= den * 11
}

/// The price of a win, in numbers: one of at least 2x may cost a tenth of the
/// context and of each speed; one of at least 1.25x 3% of the context and 5%
/// of each speed; a smaller one 2% and 3%. Fidelity is never for sale.
pub open spec fn affordable(goal: Goal, base: TrialResult, r: TrialResult) -> bool {
    let (num, den) = compared(goal, base, r);
    stays_true(base, r) && if num >= 2 * den {
        keeps(base, r, 90, 90)
    } else if num * 4 >= den * 5 {
        keeps(base, r, 97, 95)
    } else {
        keeps(base, r, 98, 97)
    }
}

proof fn lemma_complete(goal: Goal, r: TrialResult)
    ensures
        complete(goal, r) == has_figures(goal, r),
{
}

proof fn lemma_guards(goal: Goal, base: TrialResult, r: TrialResult)
    requires
        has_figures(goal, base),
        has_figures(goal, r),
    ensures
        beats_goal(goal, base, r) == wins(goal, base, r),
        wins(goal, base, r) ==> guarded(goal, base, r) == !affordable(goal, base, r),
{
    let (num, den) = compared(goal, base, r);
    if goal == Goal::Context {
        assert(primary_of(goal, r)->0 == num * 1_000_000);
        assert(primary_of(goal, base)->0 == den * 1_000_000);
    }
}

/// A win that is worth its price, in numbers.
pub open spec fn earned(goal: Goal, base: TrialResult, r: TrialResult) -> bool {
    let (num, den) = compared(goal, base, r);
    &&& den > 0
    &&& num * 10 >= den * 11
    &&& base.fidelity is Some && r.fidelity is Some ==> r.fidelity->0 + 50_000 >= base.fidelity->0
    &&& num >= 2 * den ==> keeps(base, r, 90, 90)
    &&& num < 2 * den && num * 4 >= den * 5 ==> keeps(base, r, 97, 95)
    &&& num * 4 < den * 5 ==> keeps(base, r, 98, 97)
    &&& base.tg_novel->0 >= 0 && base.tg_rewrite->0 >= 0 ==> keeps(base, r, 90, 90)
}

proof fn lemma_earned(goal: Goal, base: TrialResult, r: TrialResult)
    requires
        wins(goal, base, r),
        affordable(goal, base, r),
    ensures
        earned(goal, base, r),
{
}

/// Whatever is crowned is one of the raced, not the baseline, and earned it in
/// numbers: it is at least a tenth better on the goal, it lost no more than 5
/// points of fidelity, and of context, novel-code speed and rewrite speed it
/// keeps 98, 97 and 97 hundredths; from 1.25x on 97, 95 and 95; from 2x on 90
/// each. A baseline without its figures crowns nobody.
pub proof fn a_crown_costs_no_more_than_it_may(
    goal: Goal,
    base: TrialResult,
    s: Seq<(Seq<char>, TrialResult)>,
)
    requires
        verdict_of(goal, base, s).winner is Some,
    ensures
        has_figures(goal, base),
        exists|i: int|
            0 <= i < s.len() && (#[trigger] s[i]).0 == verdict_of(goal, base, s).winner->0 && s[i].0
                != "baseline"@ && has_figures(goal, s[i].1) && earned(goal, base, s[i].1),
{
    lemma_complete(goal, base);
    winner_is_earned(goal, base, s);
    let w = best_of(goal, base, s)->0;
    let i = s.index_of(w);
    assert(s[i] == w);
    lemma_complete(goal, w.1);
    lemma_guards(goal, base, w.1);
    lemma_earned(goal, base, w.1);
    assert(s[i].0 == verdict_of(goal, base, s).winner->0);
}

/// A win that no guard objects to is never passed over: somebody is crowned,
/// and nobody who may be is better on the goal than the one who is.
pub proof fn the_best_clean_win_is_crowned(
    goal: Goal,
    base: TrialResult,
    s: Seq<(Seq<char>, TrialResult)>,
    j: int,
)
    requires
        has_figures(goal, base),
        0 <= j < s.len(),
        s[j].0 != "baseline"@,
        has_figures(goal, s[j].1),
        wins(goal, base, s[j].1),
        affordable(goal, base, s[j].1),
    ensures
        verdict_of(goal, base, s).winner is Some,
        exists|i: int|
            0 <= i < s.len() && (#[trigger] s[i]).0 == verdict_of(goal, base, s).winner->0 && {
                let (num, den) = compared(goal, base, s[i].1);
                let (n, d) = compared(goal, base, s[j].1);
                num * d >= n * den
            },
{
    lemma_complete(goal, base);
    lemma_complete(goal, s[j].1);
    lemma_guards(goal, base, s[j].1);
    assert(qualifies(goal, base, s[j].1));
    winner_is_earned(goal, base, s);
    let w = best_of(goal, base, s)->0;
    let i = s.index_of(w);
    assert(s[i] == w);
    let (num, den) = compared(goal, base, s[i].1);
    let (n, d) = compared(goal, base, s[j].1);
    if goal == Goal::Context {
        assert(primary_of(goal, s[i].1)->0 == num * 1_000_000);
        assert(primary_of(goal, s[j].1)->0 == n * 1_000_000);
        assert(primary_of(goal, base)->0 == den * 1_000_000);
        let (x, y, z) = (num * 1_000_000, n * 1_000_000, den * 1_000_000);
        assert(x * z <= y * z || x * z > y * z);
        assert(!(y * z > x * z));
        assert(num * den >= n * den) by (nonlinear_arith)
            requires
                !(y * z > x * z),
                x == num * 1_000_000,
                y == n * 1_000_000,
                z == den * 1_000_000,
        ;
        assert(d == den);
    }
}

/// The tradeoffs offered are exactly the wins on the goal that cost too much:
/// whoever is at least a tenth better and breaks a guard in numbers is listed,
/// and nobody else is.
pub proof fn every_costly_win_is_offered(
    goal: Goal,
    base: TrialResult,
    s: Seq<(Seq<char>, TrialResult)>,
    j: int,
)
    requires
        sorted(s),
        has_figures(goal, base),
        0 <= j < s.len(),
    ensures
        (exists|k: int|
            0 <= k < near_misses_of(goal, base, s).len() && (#[trigger] near_misses_of(
                goal,
                base,
                s,
            )[k]).label == s[j].0) <==> s[j].0 != "baseline"@ && has_figures(goal, s[j].1) && wins(
            goal,
            base,
            s[j].1,
        ) && !affordable(goal, base, s[j].1),
{
    lemma_complete(goal, base);
    lemma_complete(goal, s[j].1);
    if has_figures(goal, s[j].1) {
        lemma_guards(goal, base, s[j].1);
    }
    misses_are_the_guarded(goal, base, s);
    let m = near_misses_of(goal, base, s);
    if traded_off(goal, base, s[j]) {
        let nm = near_miss_of(goal, base, s[j].0, s[j].1);
        assert(m.contains(nm));
        let k = m.index_of(nm);
        assert(m[k].label == s[j].0) by {
            reveal(near_miss_of);
        }
    }
    if exists|k: int| 0 <= k < m.len() && (#[trigger] m[k]).label == s[j].0 {
        let k = choose|k: int| 0 <= k < m.len() && (#[trigger] m[k]).label == s[j].0;
        assert(is_a_miss(goal, base, s, m[k]));
        let i = choose|i: int|
            0 <= i < s.len() && traded_off(goal, base, #[trigger] s[i]) && m[k] == near_miss_of(
                goal,
                base,
                s[i].0,
                s[i].1,
            );
        assert(m[k].label == s[i].0) by {
            reveal(near_miss_of);
        }
        if i != j {
            crate::text::lemma_text_lt_irreflexive(s[i].0);
            if i < j {
                assert(crate::text::text_lt(s[i].0, s[j].0));
            } else {
                assert(crate::text::text_lt(s[j].0, s[i].0));
            }
        }
    }
}

/// A tradeoff names each of its costs: one for every figure that fell further
/// than the win allows, and one for lost fidelity.
pub proof fn every_cost_is_named(goal: Goal, base: TrialResult, r: TrialResult)
    requires
        has_figures(goal, base),
        has_figures(goal, r),
        wins(goal, base, r),
    ensures
        ({
            let (num, den) = compared(goal, base, r);
            let (ctx, speed): (int, int) = if num >= 2 * den {
                (90, 90)
            } else if num * 4 >= den * 5 {
                (97, 95)
            } else {
                (98, 97)
            };
            let lost = |cond: bool|
                if cond {
                    1nat
                } else {
                    0nat
                };
            costs_of(goal, base, r).len() == lost(!stays_true(base, r)) + lost(
                r.tg_novel->0 * 100 < base.tg_novel->0 * speed,
            ) + lost(r.tg_rewrite->0 * 100 < base.tg_rewrite->0 * speed) + lost(
                r.settled_ctx->0 * 100 < base.settled_ctx->0 * ctx,
            )
        }),
{
    lemma_guards(goal, base, r);
    let (num, den) = compared(goal, base, r);
    if goal == Goal::Context {
        assert(primary_of(goal, r)->0 == num * 1_000_000);
        assert(primary_of(goal, base)->0 == den * 1_000_000);
    }
}

/// What is said of a candidate that did not win tells why: it failed, it gained less than a
/// tenth, it cost too much, or another gained more. Nothing is said of one that was not
/// measured.
pub proof fn a_loser_is_told_why(
    goal: Goal,
    base: TrialResult,
    misses: Seq<NearMissView>,
    label: Seq<char>,
    r: TrialResult,
)
    requires
        has_figures(goal, base),
    ensures
        ({
            let t = loser_text(goal, base, misses, label, r);
            &&& r.error is Some ==> t == Some(
                label + " failed to run ("@ + r.error->0@
                    + ") — recorded, not retried blindly."@,
            )
            &&& r.error is None && !has_figures(goal, r) ==> t is None
            &&& r.error is None && has_figures(goal, r) ==> t is Some
            &&& r.error is None && has_figures(goal, r) && !wins(goal, base, r)
                ==> crate::text::starts_with(t->0, label + " gained only "@)
            &&& r.error is None && has_figures(goal, r) && wins(goal, base, r) && miss_of(
                misses,
                label,
            ) is Some ==> crate::text::starts_with(t->0, label + " beat the goal — "@)
            &&& r.error is None && has_figures(goal, r) && wins(goal, base, r) && miss_of(
                misses,
                label,
            ) is None ==> crate::text::starts_with(t->0, label + " qualified ("@)
        }),
{
    lemma_complete(goal, r);
    lemma_complete(goal, base);
    let (b, p) = (primary_of(goal, base)->0, primary_of(goal, r)->0);
    if r.error is None && has_figures(goal, r) {
        assert(at_least(improvement_ratio(goal, b, p), 11, 10) == wins(goal, base, r));
        let t = loser_text(goal, base, misses, label, r)->0;
        if !wins(goal, base, r) {
            let n = label + " gained only "@;
            assert(t.subrange(0, n.len() as int) =~= n);
        } else if miss_of(misses, label) is Some {
            let n = label + " beat the goal — "@;
            assert(t.subrange(0, n.len() as int) =~= n);
        } else {
            let n = label + " qualified ("@;
            assert(t.subrange(0, n.len() as int) =~= n);
        }
    }
}

/// An explanation says what the columns are, who won, what became of the others, where a
/// candidate guessed right more often and yet was slower, and two things more: that a
/// rewrite of more than 100 tokens a second is fast already, and that a context below
/// 49152 is small.
pub proof fn an_explanation_is_complete(
    goal: Goal,
    winner: Option<Seq<char>>,
    misses: Seq<NearMissView>,
    raced: Seq<(Seq<char>, TrialResult)>,
)
    requires
        lookup(raced, "baseline"@) is Some,
        has_figures(goal, lookup(raced, "baseline"@)->0),
    ensures
        ({
            let base = lookup(raced, "baseline"@)->0;
            let e = explain_of(goal, winner, misses, raced);
            e.len() == 2 + losers_text(goal, base, winner, misses, raced).len() + acceptance_text(
                goal,
                winner,
                raced,
            ).len() + (if goal == Goal::RewriteTg && base.tg_rewrite->0 > 100_000_000 {
                1int
            } else {
                0
            }) + (if base.settled_ctx->0 < 49_152 {
                1int
            } else {
                0
            })
        }),
{
    lemma_complete(goal, lookup(raced, "baseline"@)->0);
}

/// Every candidate but the baseline and the winner is told of, as far as there is something
/// to tell.
pub proof fn every_loser_is_told_of(
    goal: Goal,
    base: TrialResult,
    winner: Option<Seq<char>>,
    misses: Seq<NearMissView>,
    raced: Seq<(Seq<char>, TrialResult)>,
    i: int,
)
    requires
        0 <= i < raced.len(),
        raced[i].0 != "baseline"@,
        Some(raced[i].0) != winner,
        loser_text(goal, base, misses, raced[i].0, raced[i].1) is Some,
    ensures
        losers_text(goal, base, winner, misses, raced).contains(
            loser_text(goal, base, misses, raced[i].0, raced[i].1)->0,
        ),
    decreases raced.len(),
{
    let s = raced.drop_last();
    let t = loser_text(goal, base, misses, raced[i].0, raced[i].1)->0;
    let before = losers_text(goal, base, winner, misses, s);
    let now = losers_text(goal, base, winner, misses, raced);
    if i < s.len() {
        assert(s[i] == raced[i]);
        every_loser_is_told_of(goal, base, winner, misses, s, i);
        let k = choose|k: int| 0 <= k < before.len() && before[k] == t;
        assert(now[k] == t);
    } else {
        assert(now[now.len() - 1] == t);
    }
}

/// A candidate is said to have guessed right more often where it did by more than five
/// hundredths, and was slower on the goal all the same.
pub proof fn five_hundredths_of_acceptance_are_told(
    goal: Goal,
    w: Seq<char>,
    raced: Seq<(Seq<char>, TrialResult)>,
    i: int,
)
    requires
        lookup(raced, w) is Some,
        lookup(raced, w)->0.accept_rewrite is Some,
        primary_of(goal, lookup(raced, w)->0) is Some,
        0 <= i < raced.len(),
        raced[i].0 != "baseline"@,
        raced[i].0 != w,
        raced[i].1.accept_rewrite is Some,
        primary_of(goal, raced[i].1) is Some,
        raced[i].1.accept_rewrite->0 > lookup(raced, w)->0.accept_rewrite->0 + 50_000,
        primary_of(goal, raced[i].1)->0 < primary_of(goal, lookup(raced, w)->0)->0,
    ensures
        acceptance_text(goal, Some(w), raced).len() == 1,
{
    lemma_accepting(goal, w, lookup(raced, w)->0, raced, 0, i);
}

proof fn lemma_accepting(
    goal: Goal,
    w: Seq<char>,
    wr: TrialResult,
    raced: Seq<(Seq<char>, TrialResult)>,
    from: int,
    i: int,
)
    requires
        0 <= from <= i < raced.len(),
        raced[i].0 != "baseline"@,
        raced[i].0 != w,
        accepted_more(goal, wr, raced[i].1),
    ensures
        first_accepting(goal, w, wr, raced, from) is Some,
    decreases i - from,
{
    if from < i {
        lemma_accepting(goal, w, wr, raced, from + 1, i);
    }
}

/// Where no candidate did, nothing is said of it.
pub proof fn less_acceptance_is_not_told(
    goal: Goal,
    w: Seq<char>,
    raced: Seq<(Seq<char>, TrialResult)>,
)
    requires
        lookup(raced, w) is Some,
        lookup(raced, w)->0.accept_rewrite is Some,
        forall|i: int|
            0 <= i < raced.len() && (#[trigger] raced[i]).1.accept_rewrite is Some
                ==> raced[i].1.accept_rewrite->0 <= lookup(raced, w)->0.accept_rewrite->0 + 50_000,
    ensures
        acceptance_text(goal, Some(w), raced).len() == 0,
{
    lemma_none_accepting(goal, w, lookup(raced, w)->0, raced, 0);
}

proof fn lemma_none_accepting(
    goal: Goal,
    w: Seq<char>,
    wr: TrialResult,
    raced: Seq<(Seq<char>, TrialResult)>,
    from: int,
)
    requires
        0 <= from <= raced.len(),
        forall|i: int|
            0 <= i < raced.len() && (#[trigger] raced[i]).1.accept_rewrite is Some
                ==> raced[i].1.accept_rewrite->0 <= wr.accept_rewrite->0 + 50_000,
    ensures
        first_accepting(goal, w, wr, raced, from) is None,
    decreases raced.len() - from,
{
    if from < raced.len() {
        assert(raced[from].1.accept_rewrite is Some || raced[from].1.accept_rewrite is None);
        lemma_none_accepting(goal, w, wr, raced, from + 1);
    }
}

} // verus!
