//! The trial campaign: baseline and each variant, measured in sequence, each
//! stored as soon as it is known, and judged at the end; and the
//! slot-persistence trial, which measures a workflow rather than a knob.
//!
//! Measured quantities are in millionths of their unit.
use crate::calibrate::{push_tag, tag};
use crate::num::{
    dec, dec_text, fixed0, fixed0_int, fixed0_int_text, fixed0_text, fixed1, fixed1_int,
    fixed1_int_text, fixed1_text, UNIT,
};
use crate::router::RouterState;
use crate::settings::{AppConfig, ModelOverrides, OverridesView};
use crate::text::{copy_text, debug_text, lemma_texts_push, opt_text, quote, texts};
use crate::textmap::{
    drop_key, drop_then_lookup, lemma_put_after_drop, lookup, put, put_then_lookup, sorted, TextMap,
};
use crate::trial::{figure_or_zero, Goal, NearMissView, TrialReport, TrialResult, BASELINE};
use crate::variants::{
    apply_variant, baseline_label, baseline_name, baseline_override, overrides_of, race_report,
    report_of, stripped, variant_views, with_variant, ReportView, Variant,
};
use crate::workload::{reuse_of, turn_reuse, GenStats, NO_PROMPT_MS, PROBE_MIN_CTX};
use vstd::prelude::*;
use vstd::string::*;

verus! {

// ------------------------------------------------------------ the stored trials

/// The stored trials: model id → variant label → result. "baseline" is a
/// label.
pub type Trials = TextMap<TextMap<TrialResult>>;

/// The stored table of a model.
pub open spec fn table_of(all: Seq<(Seq<char>, TextMap<TrialResult>)>, model: Seq<char>) -> Seq<
    (Seq<char>, TrialResult),
> {
    match lookup(all, model) {
        Some(t) => t@,
        None => Seq::empty(),
    }
}

/// The trials `after` are `before` with a model's table set.
pub open spec fn table_set(
    before: Seq<(Seq<char>, TextMap<TrialResult>)>,
    after: Seq<(Seq<char>, TextMap<TrialResult>)>,
    model: Seq<char>,
    table: Seq<(Seq<char>, TrialResult)>,
) -> bool {
    lookup(after, model) is Some && lookup(after, model)->0@ == table && after == put(
        before,
        model,
        lookup(after, model)->0,
    )
}

fn take_table(all: &mut Trials, model: &str) -> (r: TextMap<TrialResult>)
    ensures
        r@ == table_of(old(all)@, model@),
        sorted(old(all)@),
        final(all)@ == drop_key(old(all)@, model@),
{
    let _ = all.len();
    match all.remove(model) {
        Some(t) => t,
        None => {
            let t = TextMap::new();
            assert(t@ =~= Seq::<(Seq<char>, TrialResult)>::empty());
            t
        },
    }
}

/// Stores a result under a model's label.
pub fn record_trial(all: &mut Trials, model: &str, label: &str, r: TrialResult)
    ensures
        table_set(old(all)@, final(all)@, model@, put(table_of(old(all)@, model@), label@, r)),
{
    let ghost before = all@;
    let mut t = take_table(all, model);
    t.insert(copy_text(label), r);
    proof {
        lemma_put_after_drop(before, model@, t);
        put_then_lookup(before, model@, t, model@);
    }
    all.insert(copy_text(model), t);
}

/// Stores a campaign's baseline under its menu's own label, and retires the
/// model's shared row so that stale cross-menu reference points can't shadow
/// the scoped ones.
pub fn record_baseline(all: &mut Trials, model: &str, menu_name: &str, r: TrialResult)
    ensures
        table_set(
            old(all)@,
            final(all)@,
            model@,
            drop_key(put(table_of(old(all)@, model@), baseline_name(menu_name@), r), BASELINE@),
        ),
{
    let ghost before = all@;
    let mut t = take_table(all, model);
    let label = baseline_label(menu_name);
    t.insert(label, r);
    let _ = t.remove(BASELINE);
    proof {
        lemma_put_after_drop(before, model@, t);
        put_then_lookup(before, model@, t, model@);
    }
    all.insert(copy_text(model), t);
}

// ------------------------------------------------------------------ the refusal

/// How `{:?}` shows a state that holds no models.
pub open spec fn state_debug(s: RouterState) -> Seq<char> {
    match s {
        RouterState::Down => "Down"@,
        RouterState::External { detail } => "External { detail: "@ + debug_text(detail@) + " }"@,
        RouterState::Trouble { detail } => "Trouble { detail: "@ + debug_text(detail@) + " }"@,
        RouterState::Ours { .. } => "Ours"@,
    }
}

fn show_state(s: &RouterState) -> (r: String)
    ensures
        r@ == state_debug(*s),
{
    match s {
        RouterState::Down => copy_text("Down"),
        RouterState::External { detail } => {
            let mut t = copy_text("External { detail: ");
            t.append(quote(detail.as_str()).as_str());
            t.append(" }");
            t
        },
        RouterState::Trouble { detail } => {
            let mut t = copy_text("Trouble { detail: ");
            t.append(quote(detail.as_str()).as_str());
            t.append(" }");
            t
        },
        RouterState::Ours { .. } => copy_text("Ours"),
    }
}

/// A trial runs on our own router only. `what` is the trial that needs it.
pub fn require_ours(state: &RouterState, port: u16, what: &str) -> (r: Result<(), String>)
    ensures
        match *state {
            RouterState::Ours { .. } => r is Ok,
            _ => r is Err && r->Err_0@ == what@ + " our router running on port "@ + dec(
                port as nat,
            ) + "; state is "@ + state_debug(*state),
        },
{
    match state {
        RouterState::Ours { .. } => Ok(()),
        _ => {
            let mut s = copy_text(what);
            s.append(" our router running on port ");
            s.append(dec_text(port as u64).as_str());
            s.append("; state is ");
            s.append(show_state(state).as_str());
            Err(s)
        },
    }
}

pub const TRIALS_NEED: &'static str = "trials need";

pub const SLOT_TRIAL_NEEDS: &'static str = "the slot trial needs";

// --------------------------------------------------------------------- the race

/// A campaign that stands at its baseline, at a variant, or at its end.
pub struct Race {
    pub model: String,
    pub menu: String,
    pub variants: Vec<Variant>,
    pub goal: Goal,
    pub build: Option<u64>,
    /// How many rounds are done; the first is the baseline's.
    pub at: usize,
    pub baseline: TrialResult,
    /// Verdicts only compare what THIS run raced — stored results from other
    /// menus stay stored for display but can't win here.
    pub raced: TextMap<TrialResult>,
}

/// What a failed round is remembered as.
pub open spec fn failed_result(r: TrialResult, error: Seq<char>, build: Option<u64>) -> bool {
    &&& r.tg_novel is None
    &&& r.tg_rewrite is None
    &&& r.accept_rewrite is None
    &&& r.pp_prefill is None
    &&& r.fidelity is None
    &&& r.settled_ctx is None
    &&& r.load_secs is None
    &&& r.turn2_prompt_ms is None
    &&& r.turn2_reuse is None
    &&& opt_text(r.error) == Some(error)
    &&& r.build == build
}

/// A failure that is remembered.
pub fn failed_row(error: &str, build: Option<u64>) -> (r: TrialResult)
    ensures
        failed_result(r, error@, build),
{
    let mut r: TrialResult = Default::default();
    r.error = Some(copy_text(error));
    r.build = build;
    r
}

pub open spec fn or_zero(v: Option<u64>) -> nat {
    match v {
        Some(n) => n as nat,
        None => 0,
    }
}

/// What is said of a measured round.
pub open spec fn measured_line(r: TrialResult) -> Seq<char> {
    ": novel "@ + fixed1_int(figure_or_zero(r.tg_novel), UNIT as nat) + " t/s, rewrite "@
        + fixed1_int(figure_or_zero(r.tg_rewrite), UNIT as nat) + " t/s"@ + (match r.pp_prefill {
        Some(p) => ", prefill "@ + fixed0_int(p as int, UNIT as nat) + " t/s"@,
        None => ""@,
    }) + (match r.accept_rewrite {
        Some(a) => ", acceptance "@ + fixed0((a * 100) as nat, UNIT as nat) + "%"@,
        None => ""@,
    })
}

/// What is said of a candidate that the rules rejected.
pub open spec fn rejected_line(model: Seq<char>, m: NearMissView) -> Seq<char> {
    model + ": rules rejected "@ + m.label + " — "@ + m.gain + " for "@ + m.cost
        + " (your call)"@
}

/// What is said at the end of a campaign.
pub open spec fn closing_lines(model: Seq<char>, r: ReportView) -> Seq<Seq<char>> {
    seq![model + ": "@ + r.verdict.reason] + Seq::new(
        r.near_misses.len(),
        |i: int| rejected_line(model, r.near_misses[i]),
    )
}

pub const BUSY_WITH: &'static str = "the server is busy with ";

pub const NOTHING_RECORDED: &'static str = " — likely another session's \
                         request; nothing recorded. Re-run the trial when idle";

impl Race {
    pub open spec fn total(self) -> nat {
        (self.variants@.len() + 1) as nat
    }

    /// Rounds are left.
    pub open spec fn running(self) -> bool {
        self.at <= self.variants@.len()
    }

    /// The label of the round that the campaign stands at.
    pub open spec fn label(self) -> Seq<char> {
        if self.at == 0 {
            BASELINE@
        } else {
            self.variants@[self.at - 1].label@
        }
    }

    /// The head of what is said of the round.
    pub open spec fn head(self) -> Seq<char> {
        tag(self.at + 1, self.total()) + self.model@ + " · "@ + self.label()
    }

    /// The overrides to serve the model under in the round: the baseline's,
    /// with what the round's variant sets.
    pub open spec fn served(self, cfg: AppConfig) -> OverridesView {
        let base = stripped(
            overrides_of(cfg.overrides@, self.model@),
            variant_views(self.variants@),
        );
        if self.at == 0 {
            base
        } else {
            with_variant(base, self.variants@[self.at - 1]@)
        }
    }

    /// Nothing but the place, the baseline and the raced results differs.
    pub open spec fn same_campaign(self, other: Race) -> bool {
        &&& self.model == other.model
        &&& self.menu == other.menu
        &&& self.variants == other.variants
        &&& self.goal == other.goal
        &&& self.build == other.build
    }

    /// The campaign and the stored trials after a round's result: the
    /// baseline stands under its menu's own label, and retires the shared
    /// row; a variant's result stands under its label.
    pub open spec fn recorded(
        self,
        before: Seq<(Seq<char>, TextMap<TrialResult>)>,
        r: TrialResult,
        then_race: Race,
        after: Seq<(Seq<char>, TextMap<TrialResult>)>,
    ) -> bool {
        let table = table_of(before, self.model@);
        &&& then_race.same_campaign(self)
        &&& then_race.at == self.at + 1
        &&& if self.at == 0 {
            &&& then_race.baseline == r
            &&& then_race.raced == self.raced
            &&& table_set(
                before,
                after,
                self.model@,
                drop_key(put(table, baseline_name(self.menu@), r), BASELINE@),
            )
        } else {
            &&& then_race.baseline == self.baseline
            &&& then_race.raced@ == put(self.raced@, self.label(), r)
            &&& table_set(before, after, self.model@, put(table, self.label(), r))
        }
    }

    /// A campaign at its baseline.
    pub fn begin(
        model: &str,
        menu_name: &str,
        variants: Vec<Variant>,
        goal: Goal,
        build: Option<u64>,
    ) -> (r: Race)
        ensures
            r.model@ == model@,
            r.menu@ == menu_name@,
            r.variants == variants,
            r.goal == goal,
            r.build == build,
            r.at == 0,
            r.raced@.len() == 0,
            r.running(),
    {
        Race {
            model: copy_text(model),
            menu: copy_text(menu_name),
            variants,
            goal,
            build,
            at: 0,
            baseline: Default::default(),
            raced: TextMap::new(),
        }
    }

    fn head_text(&self) -> (r: String)
        requires
            self.running(),
            self.variants@.len() < usize::MAX,
        ensures
            r@ == self.head(),
    {
        let total = self.variants.len() + 1;
        let mut s = push_tag(self.at + 1, total);
        s.append(self.model.as_str());
        s.append(" · ");
        if self.at == 0 {
            s.append(BASELINE);
        } else {
            s.append(self.variants[self.at - 1].label.as_str());
        }
        s
    }

    /// What is said before a round, and the overrides to serve the model
    /// under in it: the baseline's, with what the round's variant sets.
    pub fn start(&self, cfg: &AppConfig) -> (r: (String, ModelOverrides))
        requires
            self.running(),
            self.variants@.len() < usize::MAX,
        ensures
            r.0@ == self.head() + ": applying config + loading…"@,
            r.1@ == self.served(*cfg),
    {
        let mut s = self.head_text();
        s.append(": applying config + loading…");
        let base = baseline_override(cfg, self.model.as_str(), &self.variants);
        let ov = if self.at == 0 {
            base
        } else {
            let v = &self.variants[self.at - 1];
            apply_variant(base, &v.extra, v.no_mmproj)
        };
        (s, ov)
    }

    /// What is said once the model is loaded.
    pub fn loaded(&self, load_secs: u64, ctx: u64) -> (r: String)
        requires
            self.running(),
            self.variants@.len() < usize::MAX,
        ensures
            r@ == self.head() + ": loaded in "@ + fixed1(load_secs as nat, UNIT as nat) + "s (ctx "@
                + dec(ctx as nat) + "), timing generations…"@,
    {
        let mut s = self.head_text();
        s.append(": loaded in ");
        s.append(fixed1_text(load_secs as u128, UNIT as u128).as_str());
        s.append("s (ctx ");
        s.append(dec_text(ctx).as_str());
        s.append("), timing generations…");
        s
    }

    /// The result of a round that was measured, with its load time and its
    /// build, and what is said of it.
    pub fn measured(&self, r: TrialResult, load_secs: u64) -> (out: (String, TrialResult))
        requires
            self.running(),
            self.variants@.len() < usize::MAX,
        ensures
            out.0@ == self.head() + measured_line(r),
            out.1 == (TrialResult { load_secs: Some(load_secs), build: self.build, ..r }),
    {
        let mut r = r;
        r.load_secs = Some(load_secs);
        r.build = self.build;
        let mut s = self.head_text();
        let mut line = copy_text(": novel ");
        let novel: i64 = match r.tg_novel {
            Some(v) => v,
            None => 0,
        };
        let rewrite: i64 = match r.tg_rewrite {
            Some(v) => v,
            None => 0,
        };
        line.append(fixed1_int_text(novel as i128, UNIT as u128).as_str());
        line.append(" t/s, rewrite ");
        line.append(fixed1_int_text(rewrite as i128, UNIT as u128).as_str());
        line.append(" t/s");
        match r.pp_prefill {
            Some(p) => {
                let mut t = copy_text(", prefill ");
                t.append(fixed0_int_text(p as i128, UNIT as u128).as_str());
                t.append(" t/s");
                line.append(t.as_str());
            },
            None => {
                line.append("");
            },
        }
        match r.accept_rewrite {
            Some(a) => {
                let mut t = copy_text(", acceptance ");
                t.append(fixed0_text(a as u128 * 100, UNIT as u128).as_str());
                t.append("%");
                line.append(t.as_str());
            },
            None => {
                line.append("");
            },
        }
        s.append(line.as_str());
        (s, r)
    }

    /// What a failed round comes to. A measurement taken while another
    /// session holds the server is noise, not data: the whole campaign is
    /// given up rather than record it. Any other failure is remembered.
    pub fn failed(&self, error: &str, busy_with: Option<&str>) -> (r: Result<
        (String, TrialResult),
        String,
    >)
        requires
            self.running(),
            self.variants@.len() < usize::MAX,
        ensures
            match busy_with {
                Some(other) => r is Err && r->Err_0@ == BUSY_WITH@ + other@ + NOTHING_RECORDED@,
                None => r is Ok && r->Ok_0.0@ == self.head() + ": FAILED — "@ + error@
                    && failed_result(r->Ok_0.1, error@, self.build),
            },
    {
        match busy_with {
            Some(other) => {
                let mut s = copy_text(BUSY_WITH);
                s.append(other);
                s.append(NOTHING_RECORDED);
                Err(s)
            },
            None => {
                let mut s = self.head_text();
                s.append(": FAILED — ");
                s.append(error);
                Ok((s, failed_row(error, self.build)))
            },
        }
    }

    /// Stores the result of the round and goes on to the next one.
    pub fn record(&mut self, all: &mut Trials, r: TrialResult)
        requires
            old(self).running(),
            old(self).variants@.len() < usize::MAX,
        ensures
            old(self).recorded(old(all)@, r, *final(self), final(all)@),
    {
        let n = self.variants.len();
        assert(self.at <= n);
        if self.at == 0 {
            self.baseline = r.copy();
            record_baseline(all, self.model.as_str(), self.menu.as_str(), r);
        } else {
            let label = self.variants[self.at - 1].label.clone();
            record_trial(all, self.model.as_str(), label.as_str(), r.copy());
            self.raced.insert(label, r);
        }
        self.at = self.at + 1;
    }

    /// The end of a campaign: its report, and what is said of it.
    pub fn finish(self) -> (r: (Vec<String>, TrialReport))
        ensures
            r.1@ == report_of(self.goal, self.baseline, self.raced@),
            texts(r.0@) == closing_lines(self.model@, r.1@),
    {
        let Race { model, goal, baseline, raced, .. } = self;
        let report = race_report(goal, baseline, raced);
        let mut out: Vec<String> = Vec::new();
        let mut s = model.clone();
        s.append(": ");
        s.append(report.verdict.reason.as_str());
        out.push(s);
        let ghost want = closing_lines(model@, report@);
        let mut i: usize = 0;
        assert(texts(out@) =~= want.take(1));
        while i < report.near_misses.len()
            invariant
                i <= report.near_misses@.len(),
                want == closing_lines(model@, report@),
                texts(out@) == want.take(i + 1),
            decreases report.near_misses.len() - i,
        {
            let m = &report.near_misses[i];
            let mut s = model.clone();
            s.append(": rules rejected ");
            s.append(m.label.as_str());
            s.append(" — ");
            s.append(m.gain.as_str());
            s.append(" for ");
            s.append(m.cost.as_str());
            s.append(" (your call)");
            assert(report@.near_misses[i as int] == m@);
            assert(s@ == rejected_line(model@, m@));
            proof {
                lemma_texts_push(out@, s);
            }
            out.push(s);
            assert(want.take(i + 2) =~= want.take(i + 1).push(want[i + 1]));
            i += 1;
        }
        assert(want.take(i + 1) =~= want);
        (out, report)
    }
}

// ---------------------------------------------------------- slot persistence

/// Labels the slot-persistence trial records under (kept out of the
/// menu/verdict system on purpose: it measures a WORKFLOW, not a config
/// knob — there is nothing to Apply).
pub const SLOT_COLD: &'static str = "slot-cold";

pub const SLOT_RESTORE: &'static str = "slot-restore";

/// The file that the trial's snapshot is kept in while it runs.
pub const SLOT_FILE: &'static str = "steward-slot-trial.bin";

/// What is said before a fresh reload.
pub fn reloading_line(model: &str) -> (r: String)
    ensures
        r@ == model@ + ": reloading (fresh process, empty cache)…"@,
{
    let mut s = copy_text(model);
    s.append(": reloading (fresh process, empty cache)…");
    s
}

/// The trial's prompt needs a context that holds it.
pub fn slot_ready(ctx: u64) -> (r: Result<(), String>)
    ensures
        ctx >= PROBE_MIN_CTX <==> r is Ok,
        r is Err ==> r->Err_0@ == "settled context "@ + dec(ctx as nat)
            + " is too small for the probe prompt — fix context before measuring slot persistence"@,
{
    if ctx >= PROBE_MIN_CTX {
        return Ok(());
    }
    let mut s = copy_text("settled context ");
    s.append(dec_text(ctx).as_str());
    s.append(" is too small for the probe prompt — fix context before measuring slot persistence");
    Err(s)
}

/// A stored pass of the slot trial.
pub open spec fn slot_row(
    r: TrialResult,
    ms: i64,
    reuse: Option<u64>,
    secs: Option<u64>,
    build: Option<u64>,
) -> bool {
    &&& r.tg_novel is None
    &&& r.tg_rewrite is None
    &&& r.accept_rewrite is None
    &&& r.pp_prefill is None
    &&& r.fidelity is None
    &&& r.settled_ctx is None
    &&& r.load_secs == secs
    &&& r.turn2_prompt_ms == Some(ms)
    &&& r.turn2_reuse == reuse
    &&& r.error is None
    &&& r.build == build
}

/// The cold pass: what a swap back costs today, and what is said of it.
pub fn cold_pass(model: &str, cold: &GenStats, build: Option<u64>) -> (r: Result<
    (String, TrialResult),
    String,
>)
    ensures
        match cold.prompt_ms {
            Some(ms) => r is Ok && slot_row(r->Ok_0.1, ms, Some(0u64), None, build)
                && r->Ok_0.0@ == model@ + ": cold swap-back turn: "@ + fixed0_int(
                ms as int,
                UNIT as nat,
            ) + " ms prefill ("@ + dec(or_zero(cold.prompt_n)) + " tokens reprocessed)"@,
            None => r is Err && r->Err_0@ == NO_PROMPT_MS@,
        },
{
    let ms = match cold.prompt_ms {
        Some(v) => v,
        None => {
            return Err(copy_text(NO_PROMPT_MS));
        },
    };
    let n: u64 = match cold.prompt_n {
        Some(v) => v,
        None => 0,
    };
    let mut s = copy_text(model);
    s.append(": cold swap-back turn: ");
    s.append(fixed0_int_text(ms as i128, UNIT as u128).as_str());
    s.append(" ms prefill (");
    s.append(dec_text(n).as_str());
    s.append(" tokens reprocessed)");
    let mut row: TrialResult = Default::default();
    row.turn2_prompt_ms = Some(ms);
    row.turn2_reuse = Some(0);
    row.build = build;
    Ok((s, row))
}

/// What is said of a saved snapshot.
pub open spec fn saved_text(model: Seq<char>, n_written: Option<u64>) -> Seq<char> {
    model + ": saved slot snapshot"@ + (match n_written {
        Some(b) => " ("@ + fixed0(b as nat, 1_048_576) + " MiB)"@,
        None => ""@,
    })
}

/// What is said of a saved snapshot of so many bytes.
pub fn saved_line(model: &str, n_written: Option<u64>) -> (r: String)
    ensures
        r@ == saved_text(model@, n_written),
{
    let mut s = copy_text(model);
    s.append(": saved slot snapshot");
    match n_written {
        Some(b) => {
            let mut t = copy_text(" (");
            t.append(fixed0_text(b as u128, 1_048_576).as_str());
            t.append(" MiB)");
            s.append(t.as_str());
        },
        None => {
            s.append("");
        },
    }
    s
}

/// The restored pass: `first` filled the cache, `warm` is the edited turn
/// behind the restore. The restore read itself is part of the price of the
/// workflow — it stands in the "getting ready" column.
pub fn restore_pass(first: &GenStats, warm: &GenStats, restore_secs: u64, build: Option<u64>) -> (r:
    Result<TrialResult, String>)
    ensures
        match warm.prompt_ms {
            Some(ms) => r is Ok && slot_row(
                r->Ok_0,
                ms,
                reuse_of(first.prompt_n, warm.prompt_n),
                Some(restore_secs),
                build,
            ),
            None => r is Err && r->Err_0@ == NO_PROMPT_MS@,
        },
{
    let ms = match warm.prompt_ms {
        Some(v) => v,
        None => {
            return Err(copy_text(NO_PROMPT_MS));
        },
    };
    let mut row: TrialResult = Default::default();
    row.turn2_prompt_ms = Some(ms);
    row.turn2_reuse = turn_reuse(first.prompt_n, warm.prompt_n);
    row.load_secs = Some(restore_secs);
    row.build = build;
    Ok(row)
}

pub const GROUNDWORK: &'static str = ". Groundwork only: nothing to \
         apply yet; a snapshot/resume workflow would build on this (roadmap).";

/// How many times faster the restored turn is.
pub open spec fn times_faster(cold: i64, warm: i64) -> Seq<char> {
    if warm > 0 {
        fixed1_int(cold as int, warm as nat)
    } else {
        fixed1(0, 1)
    }
}

/// The standing line for slot persistence.
pub open spec fn slot_text(table: Seq<(Seq<char>, TrialResult)>) -> Option<Seq<char>> {
    match lookup(table, SLOT_RESTORE@) {
        Some(restore) => match restore.error {
            Some(e) => Some("slot restore failed: "@ + e@),
            None => match (lookup(table, SLOT_COLD@), restore.turn2_prompt_ms) {
                (Some(cold), Some(warm_ms)) => match cold.turn2_prompt_ms {
                    Some(cold_ms) => Some(
                        "swap-back with a restored snapshot: "@ + fixed0_int(
                            warm_ms as int,
                            UNIT as nat,
                        ) + " ms vs "@ + fixed0_int(cold_ms as int, UNIT as nat) + " ms cold — "@
                            + times_faster(cold_ms, warm_ms) + "x faster"@ + (
                        match restore.load_secs {
                            Some(s) => " (+"@ + fixed1(s as nat, UNIT as nat)
                                + "s to read the snapshot)"@,
                            None => ""@,
                        }) + GROUNDWORK@,
                    ),
                    None => None,
                },
                _ => None,
            },
        },
        None => None,
    }
}

/// The standing line for slot persistence, recomputed from stored rows —
/// there is no verdict, because there is nothing to apply.
pub fn slot_summary(table: &TextMap<TrialResult>) -> (r: Option<String>)
    ensures
        opt_text(r) == slot_text(table@),
{
    let restore = match table.get(SLOT_RESTORE) {
        Some(t) => t,
        None => {
            return None;
        },
    };
    if let Some(e) = &restore.error {
        let mut s = copy_text("slot restore failed: ");
        s.append(e.as_str());
        return Some(s);
    }
    let cold = match table.get(SLOT_COLD) {
        Some(t) => t,
        None => {
            return None;
        },
    };
    let (cold_ms, warm_ms) = match (cold.turn2_prompt_ms, restore.turn2_prompt_ms) {
        (Some(c), Some(w)) => (c, w),
        _ => {
            return None;
        },
    };
    let ratio = if warm_ms > 0 {
        fixed1_int_text(cold_ms as i128, warm_ms as u128)
    } else {
        fixed1_text(0, 1)
    };
    let mut s = copy_text("swap-back with a restored snapshot: ");
    s.append(fixed0_int_text(warm_ms as i128, UNIT as u128).as_str());
    s.append(" ms vs ");
    s.append(fixed0_int_text(cold_ms as i128, UNIT as u128).as_str());
    s.append(" ms cold — ");
    s.append(ratio.as_str());
    s.append("x faster");
    match restore.load_secs {
        Some(t) => {
            let mut c = copy_text(" (+");
            c.append(fixed1_text(t as u128, UNIT as u128).as_str());
            c.append("s to read the snapshot)");
            s.append(c.as_str());
        },
        None => {
            s.append("");
        },
    }
    s.append(GROUNDWORK);
    Some(s)
}

// ------------------------------------------------------------------------ laws

/// A stored result touches its own label of its own model alone.
pub proof fn recording_touches_one_row(
    before: Seq<(Seq<char>, TextMap<TrialResult>)>,
    after: Seq<(Seq<char>, TextMap<TrialResult>)>,
    model: Seq<char>,
    label: Seq<char>,
    r: TrialResult,
    other_model: Seq<char>,
    other_label: Seq<char>,
)
    requires
        sorted(before),
        sorted(table_of(before, model)),
        table_set(before, after, model, put(table_of(before, model), label, r)),
    ensures
        lookup(table_of(after, model), label) == Some(r),
        other_label != label ==> lookup(table_of(after, model), other_label) == lookup(
            table_of(before, model),
            other_label,
        ),
        other_model != model ==> table_of(after, other_model) == table_of(before, other_model),
{
    put_then_lookup(before, model, lookup(after, model)->0, other_model);
    put_then_lookup(table_of(before, model), label, r, other_label);
}

proof fn lemma_baseline_names(a: Seq<char>, b: Seq<char>)
    ensures
        baseline_name(a) == baseline_name(b) ==> a == b,
        baseline_name(a) != BASELINE@,
{
    reveal_strlit("baseline (");
    reveal_strlit("baseline");
    let n = "baseline ("@.len();
    let x = baseline_name(a);
    let y = baseline_name(b);
    assert(x.len() == n + a.len() + ")"@.len());
    assert(n == 10);
    assert(BASELINE@.len() == 8);
    if x == y {
        assert(y.len() == n + b.len() + ")"@.len());
        assert forall|i: int| 0 <= i < a.len() implies a[i] == b[i] by {
            assert(x[n + i] == a[i]);
            assert(y[n + i] == b[i]);
        }
        assert(a =~= b);
    }
}

/// Each menu keeps its own reference point: a campaign's baseline is the one
/// that its own standing report uses, and no other menu's changes.
pub proof fn scoped_baselines_never_overwrite(
    table: Seq<(Seq<char>, TrialResult)>,
    menu: Seq<char>,
    other: Seq<char>,
    r: TrialResult,
)
    requires
        sorted(table),
        other != menu,
    ensures
        ({
            let after = drop_key(put(table, baseline_name(menu), r), BASELINE@);
            &&& crate::variants::stored_baseline(menu, after) == Some(r)
            &&& lookup(after, baseline_name(other)) == lookup(table, baseline_name(other))
            &&& lookup(after, BASELINE@) is None
        }),
{
    lemma_baseline_names(menu, other);
    lemma_baseline_names(other, menu);
    let mid = put(table, baseline_name(menu), r);
    put_then_lookup(table, baseline_name(menu), r, baseline_name(other));
    drop_then_lookup(mid, BASELINE@, baseline_name(menu));
    drop_then_lookup(mid, BASELINE@, baseline_name(other));
}

/// How many times faster a restored turn is, is told to the nearest tenth.
pub proof fn a_restore_is_told_in_tenths(cold: i64, warm: i64)
    requires
        cold >= 0,
        warm > 0,
    ensures
        exists|t: nat|
            #![trigger crate::num::dec(t / 10)]
            times_faster(cold, warm) == crate::num::dec(t / 10) + "."@ + crate::num::dec(t % 10) && 2
                * (t * warm - cold * 10) <= warm && 2 * (cold * 10 - t * warm) <= warm,
{
    crate::num::one_decimal_tells_the_tenths(cold as nat, warm as nat);
    let t = choose|t: nat|
        #![trigger crate::num::dec(t / 10)]
        fixed1(cold as nat, warm as nat) == crate::num::dec(t / 10) + "."@ + crate::num::dec(t % 10)
            && 2 * (t * (warm as nat) - (cold as nat) * 10) <= (warm as nat) && 2 * ((cold as nat) * 10
            - t * (warm as nat)) <= (warm as nat);
    assert(times_faster(cold, warm) == crate::num::dec(t / 10) + "."@ + crate::num::dec(t % 10));
}

} // verus!
