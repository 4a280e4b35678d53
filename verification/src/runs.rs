//! The long runs, step by step: what a run waits for, and what comes of what
//! happened. Whoever drives a run does what its stage says and tells it the
//! outcome; nothing is loaded, timed or written here.
use crate::bench::{
    refuse_tenant, resident_ids, start_text, tenant_text, to_unload, Baseline, Sweep,
    NOTHING_TO_BENCH,
};
use crate::campaign::{
    cold_pass, closing_lines, failed_result, failed_row, measured_line, or_zero, record_trial,
    restore_pass, saved_line, saved_text, slot_ready, slot_row, slot_summary, slot_text, table_of,
    table_set, Race, Trials, BUSY_WITH, NOTHING_RECORDED, SLOT_COLD, SLOT_RESTORE,
};
use crate::measurements::Measurements;
use crate::num::{dec, fixed0_int, fixed1, UNIT};
use crate::router::RouterState;
use crate::settings::{AppConfig, ModelOverrides};
use crate::text::{copy_text, opt_text, texts};
use crate::textmap::put;
use crate::trial::{TrialReport, TrialResult};
use crate::variants::report_of;
use crate::workload::{reuse_of, GenStats, NO_PROMPT_MS, PROBE_MIN_CTX};
use vstd::prelude::*;
use vstd::string::*;

verus! {

// --------------------------------------------------------------- the campaign

/// What a campaign waits for.
pub enum Stage {
    /// Leave to go on, or word that it was cancelled.
    Asking,
    /// The round's config to be in the preset, and the router to have read it.
    Applying,
    /// The model to be loaded.
    Loading,
    /// The timings of the model, which took so long to load.
    Timing { load_secs: u64, ctx: u64 },
    /// The model to be gone from the server; only then the round counts.
    Leaving { result: Result<(TrialResult, u64), String> },
    /// Word of what else the server holds, after a failure.
    Looking { error: String },
    /// The stored trials to be written.
    Storing,
    /// The real config's preset to be put back, whatever happened.
    Restoring { end: Result<TrialReport, String> },
    Over { end: Result<TrialReport, String> },
}

/// One campaign over a model: the baseline, then each variant.
pub struct TrialRun {
    pub race: Race,
    pub trials: Trials,
    pub stage: Stage,
}

/// A campaign goes from the one stage to the other.
pub open spec fn leads(a: Stage, b: Stage) -> bool {
    match a {
        Stage::Asking => b is Applying || b is Restoring,
        Stage::Applying => b is Loading || b is Leaving,
        Stage::Loading => b is Timing || b is Leaving,
        Stage::Timing { .. } => b is Leaving,
        Stage::Leaving { .. } => b is Storing || b is Looking,
        Stage::Looking { .. } => b is Storing || b is Restoring,
        Stage::Storing => b is Asking || b is Restoring,
        Stage::Restoring { .. } => b is Over,
        Stage::Over { .. } => false,
    }
}

/// What is left of a race that was judged: what it was about, and nothing to
/// run.
pub open spec fn spent(race: Race, left: Race) -> bool {
    &&& left.model@ == race.model@
    &&& left.menu == race.menu
    &&& left.goal == race.goal
    &&& left.build == race.build
    &&& left.at == race.at
    &&& left.variants@.len() == 0
    &&& left.raced@.len() == 0
}

/// A failed step ends the round, not the campaign.
pub open spec fn round_failed(b: Stage, e: String) -> bool {
    b == (Stage::Leaving { result: Err::<(TrialResult, u64), String>(e) })
}

/// The campaign is given up.
pub open spec fn given_up(b: Stage, e: Seq<char>) -> bool {
    b matches Stage::Restoring { end: Err(f) } && f@ == e
}

impl TrialRun {
    /// A round is left wherever one is asked for or under way.
    pub open spec fn valid(self) -> bool {
        &&& self.race.variants@.len() < usize::MAX
        &&& match self.stage {
            Stage::Storing | Stage::Restoring { .. } | Stage::Over { .. } => true,
            _ => self.race.running(),
        }
    }

    /// A run about to ask for leave to measure the baseline.
    pub fn begin(race: Race, trials: Trials) -> (r: TrialRun)
        requires
            race.running(),
            race.variants@.len() < usize::MAX,
        ensures
            r.race == race,
            r.trials == trials,
            r.stage is Asking,
            r.valid(),
    {
        TrialRun { race, trials, stage: Stage::Asking }
    }

    /// With leave, the round begins: what is said, and the overrides to serve
    /// the model under.
    pub fn go_on(self, cfg: &AppConfig, leave: Result<(), String>) -> (r: (
        TrialRun,
        Option<(String, ModelOverrides)>,
    ))
        requires
            self.valid(),
            self.stage is Asking,
        ensures
            r.0.valid(),
            leads(self.stage, r.0.stage),
            r.0.race == self.race && r.0.trials == self.trials,
            match leave {
                Ok(_) => {
                    &&& r.0.stage is Applying
                    &&& r.1 is Some
                    &&& (r.1->0).0@ == self.race.head() + ": applying config + loading…"@
                    &&& (r.1->0).1@ == self.race.served(*cfg)
                },
                Err(e) => given_up(r.0.stage, e@) && r.1 is None,
            },
    {
        let TrialRun { race, trials, .. } = self;
        match leave {
            Ok(_) => {
                let begun = race.start(cfg);
                (TrialRun { race, trials, stage: Stage::Applying }, Some(begun))
            },
            Err(e) => (TrialRun { race, trials, stage: Stage::Restoring { end: Err(e) } }, None),
        }
    }

    /// The config is served, or could not be.
    pub fn applied(self, done: Result<(), String>) -> (r: TrialRun)
        requires
            self.valid(),
            self.stage is Applying,
        ensures
            r.valid(),
            leads(self.stage, r.stage),
            r.race == self.race && r.trials == self.trials,
            match done {
                Ok(_) => r.stage is Loading,
                Err(e) => round_failed(r.stage, e),
            },
    {
        let TrialRun { race, trials, .. } = self;
        match done {
            Ok(_) => TrialRun { race, trials, stage: Stage::Loading },
            Err(e) => TrialRun { race, trials, stage: Stage::Leaving { result: Err(e) } },
        }
    }

    /// The model is loaded, after so long and with such a context, or is not.
    pub fn loaded(self, done: Result<(u64, u64), String>) -> (r: (TrialRun, Option<String>))
        requires
            self.valid(),
            self.stage is Loading,
        ensures
            r.0.valid(),
            leads(self.stage, r.0.stage),
            r.0.race == self.race && r.0.trials == self.trials,
            match done {
                Ok((load_secs, ctx)) => {
                    &&& r.0.stage == (Stage::Timing { load_secs, ctx })
                    &&& opt_text(r.1) == Some(
                        self.race.head() + ": loaded in "@ + fixed1(load_secs as nat, UNIT as nat)
                            + "s (ctx "@ + dec(ctx as nat) + "), timing generations…"@,
                    )
                },
                Err(e) => round_failed(r.0.stage, e) && r.1 is None,
            },
    {
        let TrialRun { race, trials, .. } = self;
        match done {
            Ok((load_secs, ctx)) => {
                let said = race.loaded(load_secs, ctx);
                (TrialRun { race, trials, stage: Stage::Timing { load_secs, ctx } }, Some(said))
            },
            Err(e) => (TrialRun { race, trials, stage: Stage::Leaving { result: Err(e) } }, None),
        }
    }

    /// The model is timed, or could not be.
    pub fn timed(self, done: Result<TrialResult, String>) -> (r: TrialRun)
        requires
            self.valid(),
            self.stage is Timing,
        ensures
            r.valid(),
            leads(self.stage, r.stage),
            r.race == self.race && r.trials == self.trials,
            match done {
                Ok(t) => r.stage == (Stage::Leaving {
                    result: Ok::<(TrialResult, u64), String>((t, self.stage->load_secs)),
                }),
                Err(e) => round_failed(r.stage, e),
            },
    {
        let TrialRun { race, trials, stage } = self;
        let secs: u64 = match stage {
            Stage::Timing { load_secs, .. } => load_secs,
            _ => 0,
        };
        let result = match done {
            Ok(t) => Ok((t, secs)),
            Err(e) => Err(e),
        };
        TrialRun { race, trials, stage: Stage::Leaving { result } }
    }

    /// The model is gone. A measured round is recorded; a failed one is
    /// looked into first.
    pub fn left(self) -> (r: (TrialRun, Option<String>))
        requires
            self.valid(),
            self.stage is Leaving,
        ensures
            r.0.valid(),
            leads(self.stage, r.0.stage),
            match self.stage->result {
                Ok((t, load_secs)) => {
                    &&& r.0.stage is Storing
                    &&& opt_text(r.1) == Some(self.race.head() + measured_line(t))
                    &&& self.race.recorded(
                        self.trials@,
                        (TrialResult { load_secs: Some(load_secs), build: self.race.build, ..t }),
                        r.0.race,
                        r.0.trials@,
                    )
                },
                Err(e) => {
                    &&& r.0.stage == (Stage::Looking { error: e })
                    &&& r.0.race == self.race && r.0.trials == self.trials
                    &&& r.1 is None
                },
            },
    {
        let TrialRun { race, trials, stage } = self;
        let mut race = race;
        let mut trials = trials;
        match stage {
            Stage::Leaving { result: Ok((t, secs)) } => {
                let (said, row) = race.measured(t, secs);
                race.record(&mut trials, row);
                (TrialRun { race, trials, stage: Stage::Storing }, Some(said))
            },
            Stage::Leaving { result: Err(error) } => (
                TrialRun { race, trials, stage: Stage::Looking { error } },
                None,
            ),
            other => (TrialRun { race, trials, stage: other }, None),
        }
    }

    /// What else the server holds is known. Where another session holds it,
    /// nothing of the round is recorded and the campaign is given up; else
    /// the failure is recorded.
    pub fn looked(self, busy_with: Option<&str>) -> (r: (TrialRun, Option<String>))
        requires
            self.valid(),
            self.stage is Looking,
        ensures
            r.0.valid(),
            leads(self.stage, r.0.stage),
            match busy_with {
                Some(other) => {
                    &&& given_up(r.0.stage, BUSY_WITH@ + other@ + NOTHING_RECORDED@)
                    &&& r.0.race == self.race && r.0.trials == self.trials
                    &&& r.1 is None
                },
                None => {
                    &&& r.0.stage is Storing
                    &&& opt_text(r.1) == Some(self.race.head() + ": FAILED — "@ + self.stage->error@)
                    &&& exists|row: TrialResult|
                        failed_result(row, self.stage->error@, self.race.build)
                            && #[trigger] self.race.recorded(
                            self.trials@,
                            row,
                            r.0.race,
                            r.0.trials@,
                        )
                },
            },
    {
        let TrialRun { race, trials, stage } = self;
        let mut race = race;
        let mut trials = trials;
        let error = match stage {
            Stage::Looking { error } => error,
            _ => String::new(),
        };
        match race.failed(error.as_str(), busy_with) {
            Ok((said, row)) => {
                let ghost g = row;
                race.record(&mut trials, row);
                let out = (TrialRun { race, trials, stage: Stage::Storing }, Some(said));
                assert(self.race.recorded(self.trials@, g, out.0.race, out.0.trials@));
                assert(failed_result(g, self.stage->error@, self.race.build));
                out
            },
            Err(e) => (TrialRun { race, trials, stage: Stage::Restoring { end: Err(e) } }, None),
        }
    }

    /// The trials are written, or could not be. After the last round the
    /// campaign is judged.
    pub fn stored(self, done: Result<(), String>) -> (r: (TrialRun, Vec<String>))
        requires
            self.valid(),
            self.stage is Storing,
        ensures
            r.0.valid(),
            leads(self.stage, r.0.stage),
            r.0.trials == self.trials,
            match done {
                Err(e) => {
                    &&& given_up(r.0.stage, e@)
                    &&& r.0.race == self.race
                    &&& r.1@.len() == 0
                },
                Ok(_) => if self.race.running() {
                    &&& r.0.stage is Asking
                    &&& r.0.race == self.race
                    &&& r.1@.len() == 0
                } else {
                    &&& r.0.stage matches Stage::Restoring { end: Ok(report) }
                    &&& report@ == report_of(self.race.goal, self.race.baseline, self.race.raced@)
                    &&& texts(r.1@) == closing_lines(self.race.model@, report@)
                    &&& spent(self.race, r.0.race)
                },
            },
    {
        let TrialRun { race, trials, .. } = self;
        match done {
            Err(e) => (
                TrialRun { race, trials, stage: Stage::Restoring { end: Err(e) } },
                Vec::new(),
            ),
            Ok(_) => if race.at <= race.variants.len() {
                (TrialRun { race, trials, stage: Stage::Asking }, Vec::new())
            } else {
                let Race { model, menu, variants, goal, build, at, baseline, raced } = race;
                let kept = Race {
                    model: model.clone(),
                    menu,
                    variants: Vec::new(),
                    goal,
                    build,
                    at,
                    baseline: baseline.copy(),
                    raced: crate::textmap::TextMap::new(),
                };
                let (said, report) = Race {
                    model,
                    menu: String::new(),
                    variants,
                    goal,
                    build,
                    at,
                    baseline,
                    raced,
                }.finish();
                (
                    TrialRun { race: kept, trials, stage: Stage::Restoring { end: Ok(report) } },
                    said,
                )
            },
        }
    }

    /// The real preset is back, or could not be written, which is then the
    /// campaign's end.
    pub fn put_back(self, done: Result<(), String>) -> (r: TrialRun)
        requires
            self.valid(),
            self.stage is Restoring,
        ensures
            r.valid(),
            leads(self.stage, r.stage),
            r.race == self.race && r.trials == self.trials,
            r.stage == (Stage::Over {
                end: match done {
                    Ok(_) => self.stage->Restoring_end,
                    Err(e) => Err::<TrialReport, String>(e),
                },
            }),
    {
        let TrialRun { race, trials, stage } = self;
        let end = match (done, stage) {
            (Err(e), _) => Err(e),
            (Ok(_), Stage::Restoring { end }) => end,
            (Ok(_), _) => Err(String::new()),
        };
        TrialRun { race, trials, stage: Stage::Over { end } }
    }
}

/// No campaign ends before the real preset was put back: the last thing any
/// run waits for is that.
pub proof fn every_run_puts_the_preset_back(run: Seq<Stage>)
    requires
        run.len() > 1,
        forall|i: int| 0 <= i < run.len() - 1 ==> leads(#[trigger] run[i], run[i + 1]),
        run.last() is Over,
    ensures
        run[run.len() - 2] is Restoring,
{
    assert(leads(run[run.len() - 2], run[run.len() - 2 + 1]));
}

/// A model that a run loads is gone again before the run ends.
pub proof fn every_loaded_model_leaves(run: Seq<Stage>, i: int) -> (k: int)
    requires
        forall|i: int| 0 <= i < run.len() - 1 ==> leads(#[trigger] run[i], run[i + 1]),
        0 <= i < run.len(),
        run[i] is Loading,
        run.last() is Over,
    ensures
        i < k < run.len(),
        run[k] is Leaving,
{
    assert(leads(run[i], run[i + 1]));
    if run[i + 1] is Leaving {
        i + 1
    } else {
        assert(leads(run[i + 1], run[i + 1 + 1]));
        i + 2
    }
}

// ------------------------------------------------------------- the slot trial

/// Which of the three fresh processes is under way. The last one is to serve
/// the turn behind the restore.
pub enum Pass {
    Cold,
    First,
    Warm { first: GenStats },
}

/// What a slot trial waits for.
pub enum SlotStage {
    /// Leave to go on, before the cold pass and before the other.
    Asking { warm: bool },
    /// A fresh process with an empty cache, and its settled context.
    Reloading { pass: Pass },
    /// The edited turn on an empty cache: what a swap back costs today.
    ColdTurn,
    /// The turn that fills the cache.
    FirstTurn,
    /// The snapshot to be saved.
    Saving { first: GenStats },
    /// The snapshot to be read back.
    Restoring { first: GenStats },
    /// The edited turn behind the restore.
    WarmTurn { first: GenStats, restore_secs: u64 },
    /// The stored trials to be written, as far as they can be.
    Storing { end: Option<String> },
    /// The snapshot to be deleted and the model unloaded, whatever happened:
    /// the snapshot can be huge.
    Cleaning { end: Result<String, String> },
    /// The remembered failure to be written, as far as it can be.
    StoringFailure { error: String },
    Over { end: Result<String, String> },
}

/// What a save, a swap away and a restore would buy: two passes over one
/// conversation, both across a full reload.
pub struct SlotRun {
    pub model: String,
    pub build: Option<u64>,
    pub trials: Trials,
    pub stage: SlotStage,
}

/// A slot trial goes from the one stage to the other.
pub open spec fn slot_leads(a: SlotStage, b: SlotStage) -> bool {
    match a {
        SlotStage::Asking { warm } => b is Cleaning || (b matches SlotStage::Reloading { pass } && (
        if warm {
            pass is First
        } else {
            pass is Cold
        })),
        SlotStage::Reloading { pass } => b is Cleaning || match pass {
            Pass::Cold => b is ColdTurn,
            Pass::First => b is FirstTurn,
            Pass::Warm { .. } => b is Restoring,
        },
        SlotStage::ColdTurn => b is Storing || b is Cleaning,
        SlotStage::FirstTurn => b is Saving || b is Cleaning,
        SlotStage::Saving { .. } => b is Cleaning || (b matches SlotStage::Reloading { pass }
            && pass is Warm),
        SlotStage::Restoring { .. } => b is WarmTurn || b is Cleaning,
        SlotStage::WarmTurn { .. } => b is Storing || b is Cleaning,
        SlotStage::Storing { end } => match end {
            None => b is Asking,
            Some(_) => b is Cleaning,
        },
        SlotStage::Cleaning { end } => match end {
            Ok(_) => b is Over,
            Err(_) => b is StoringFailure,
        },
        SlotStage::StoringFailure { .. } => b is Over,
        SlotStage::Over { .. } => false,
    }
}

/// The trial has failed, and is about to clean up.
pub open spec fn slot_failed(b: SlotStage, e: Seq<char>) -> bool {
    b matches SlotStage::Cleaning { end: Err(f) } && f@ == e
}

/// A row is stored under a label of the model.
pub open spec fn stored_row(before: SlotRun, after: SlotRun, label: Seq<char>, row: TrialResult) -> bool {
    table_set(
        before.trials@,
        after.trials@,
        before.model@,
        put(table_of(before.trials@, before.model@), label, row),
    )
}

/// What is said of a context that is too small for the probe.
pub open spec fn too_small(ctx: u64) -> Seq<char> {
    "settled context "@ + dec(ctx as nat)
        + " is too small for the probe prompt — fix context before measuring slot persistence"@
}

impl SlotRun {
    /// Nothing but the stage differs.
    pub open spec fn same_but_stage(self, other: SlotRun) -> bool {
        self.same_trial(other) && self.trials == other.trials
    }

    /// It is the same trial of the same model.
    pub open spec fn same_trial(self, other: SlotRun) -> bool {
        self.model == other.model && self.build == other.build
    }

    pub fn begin(model: &str, build: Option<u64>, trials: Trials) -> (r: SlotRun)
        ensures
            r.model@ == model@,
            r.build == build,
            r.trials == trials,
            r.stage == (SlotStage::Asking { warm: false }),
    {
        SlotRun { model: copy_text(model), build, trials, stage: SlotStage::Asking { warm: false } }
    }

    fn at(self, stage: SlotStage) -> (r: SlotRun)
        ensures
            r.same_but_stage(self),
            r.stage == stage,
    {
        let SlotRun { model, build, trials, .. } = self;
        SlotRun { model, build, trials, stage }
    }

    fn give_up(self, e: String) -> (r: SlotRun)
        ensures
            r.same_but_stage(self),
            slot_failed(r.stage, e@),
    {
        self.at(SlotStage::Cleaning { end: Err(e) })
    }

    /// With leave, a pass begins with a fresh process.
    pub fn go_on(self, leave: Result<(), String>) -> (r: SlotRun)
        requires
            self.stage is Asking,
        ensures
            slot_leads(self.stage, r.stage),
            r.same_but_stage(self),
            match leave {
                Ok(_) => r.stage == (SlotStage::Reloading {
                    pass: if self.stage->warm {
                        Pass::First
                    } else {
                        Pass::Cold
                    },
                }),
                Err(e) => slot_failed(r.stage, e@),
            },
    {
        let warm = match &self.stage {
            SlotStage::Asking { warm } => *warm,
            _ => false,
        };
        match leave {
            Ok(_) => if warm {
                self.at(SlotStage::Reloading { pass: Pass::First })
            } else {
                self.at(SlotStage::Reloading { pass: Pass::Cold })
            },
            Err(e) => self.give_up(e),
        }
    }

    /// A fresh process is there, with such a context. The cold pass needs one
    /// that holds the probe's prompt.
    pub fn reloaded(self, done: Result<u64, String>) -> (r: SlotRun)
        requires
            self.stage is Reloading,
        ensures
            slot_leads(self.stage, r.stage),
            r.same_but_stage(self),
            match done {
                Ok(ctx) => match self.stage->pass {
                    Pass::Cold => if ctx >= PROBE_MIN_CTX {
                        r.stage is ColdTurn
                    } else {
                        slot_failed(r.stage, too_small(ctx))
                    },
                    Pass::First => r.stage is FirstTurn,
                    Pass::Warm { first } => r.stage == (SlotStage::Restoring { first }),
                },
                Err(e) => slot_failed(r.stage, e@),
            },
    {
        let ctx = match done {
            Ok(c) => c,
            Err(e) => {
                return self.give_up(e);
            },
        };
        let SlotRun { model, build, trials, stage } = self;
        let stage = match stage {
            SlotStage::Reloading { pass: Pass::Cold } => match slot_ready(ctx) {
                Ok(_) => SlotStage::ColdTurn,
                Err(e) => SlotStage::Cleaning { end: Err(e) },
            },
            SlotStage::Reloading { pass: Pass::First } => SlotStage::FirstTurn,
            SlotStage::Reloading { pass: Pass::Warm { first } } => SlotStage::Restoring { first },
            other => other,
        };
        SlotRun { model, build, trials, stage }
    }

    /// The cold turn is timed: it is stored, and told.
    pub fn cold_timed(self, done: Result<GenStats, String>) -> (r: (SlotRun, Option<String>))
        requires
            self.stage is ColdTurn,
        ensures
            slot_leads(self.stage, r.0.stage),
            r.0.same_trial(self),
            match done {
                Ok(cold) => match cold.prompt_ms {
                    Some(ms) => {
                        &&& r.0.stage == (SlotStage::Storing { end: None })
                        &&& opt_text(r.1) == Some(
                            self.model@ + ": cold swap-back turn: "@ + fixed0_int(
                                ms as int,
                                UNIT as nat,
                            ) + " ms prefill ("@ + dec(or_zero(cold.prompt_n))
                                + " tokens reprocessed)"@,
                        )
                        &&& exists|row: TrialResult|
                            slot_row(row, ms, Some(0u64), None, self.build) && #[trigger] stored_row(
                                self,
                                r.0,
                                SLOT_COLD@,
                                row,
                            )
                    },
                    None => {
                        &&& slot_failed(r.0.stage, NO_PROMPT_MS@)
                        &&& r.0.trials == self.trials
                        &&& r.1 is None
                    },
                },
                Err(e) => {
                    &&& slot_failed(r.0.stage, e@)
                    &&& r.0.trials == self.trials
                    &&& r.1 is None
                },
            },
    {
        let cold = match done {
            Ok(c) => c,
            Err(e) => {
                return (self.give_up(e), None);
            },
        };
        match cold_pass(self.model.as_str(), &cold, self.build) {
            Ok((said, row)) => {
                let ghost g = row;
                let SlotRun { model, build, trials, .. } = self;
                let mut trials = trials;
                record_trial(&mut trials, model.as_str(), SLOT_COLD, row);
                let out = SlotRun { model, build, trials, stage: SlotStage::Storing { end: None } };
                assert(stored_row(self, out, SLOT_COLD@, g));
                (out, Some(said))
            },
            Err(e) => (self.give_up(e), None),
        }
    }

    /// The first turn has filled the cache.
    pub fn first_timed(self, done: Result<GenStats, String>) -> (r: SlotRun)
        requires
            self.stage is FirstTurn,
        ensures
            slot_leads(self.stage, r.stage),
            r.same_but_stage(self),
            match done {
                Ok(first) => r.stage == (SlotStage::Saving { first }),
                Err(e) => slot_failed(r.stage, e@),
            },
    {
        match done {
            Ok(first) => self.at(SlotStage::Saving { first }),
            Err(e) => self.give_up(e),
        }
    }

    /// The snapshot is saved, in so many bytes where they are known.
    pub fn saved(self, done: Result<Option<u64>, String>) -> (r: (SlotRun, Option<String>))
        requires
            self.stage is Saving,
        ensures
            slot_leads(self.stage, r.0.stage),
            r.0.same_but_stage(self),
            match done {
                Ok(n) => {
                    &&& r.0.stage == (SlotStage::Reloading {
                        pass: Pass::Warm { first: self.stage->Saving_first },
                    })
                    &&& opt_text(r.1) == Some(saved_text(self.model@, n))
                },
                Err(e) => slot_failed(r.0.stage, e@) && r.1 is None,
            },
    {
        let n = match done {
            Ok(n) => n,
            Err(e) => {
                return (self.give_up(e), None);
            },
        };
        let said = saved_line(self.model.as_str(), n);
        let SlotRun { model, build, trials, stage } = self;
        let stage = match stage {
            SlotStage::Saving { first } => SlotStage::Reloading { pass: Pass::Warm { first } },
            other => other,
        };
        (SlotRun { model, build, trials, stage }, Some(said))
    }

    /// The snapshot is read back, which took so long.
    pub fn restored(self, done: Result<u64, String>) -> (r: SlotRun)
        requires
            self.stage is Restoring,
        ensures
            slot_leads(self.stage, r.stage),
            r.same_but_stage(self),
            match done {
                Ok(restore_secs) => r.stage == (SlotStage::WarmTurn {
                    first: self.stage->Restoring_first,
                    restore_secs,
                }),
                Err(e) => slot_failed(r.stage, e@),
            },
    {
        let restore_secs = match done {
            Ok(n) => n,
            Err(e) => {
                return self.give_up(e);
            },
        };
        let SlotRun { model, build, trials, stage } = self;
        let stage = match stage {
            SlotStage::Restoring { first } => SlotStage::WarmTurn { first, restore_secs },
            other => other,
        };
        SlotRun { model, build, trials, stage }
    }

    /// The turn behind the restore is timed: it is stored beside the cold
    /// one, and the two are told.
    pub fn warm_timed(self, done: Result<GenStats, String>) -> (r: (SlotRun, Option<String>))
        requires
            self.stage is WarmTurn,
        ensures
            slot_leads(self.stage, r.0.stage),
            r.0.same_trial(self),
            match done {
                Ok(warm) => match warm.prompt_ms {
                    Some(ms) => {
                        &&& r.0.stage matches SlotStage::Storing { end: Some(summary) }
                        &&& summary@ == (match slot_text(table_of(r.0.trials@, self.model@)) {
                            Some(t) => t,
                            None => "slot trial recorded"@,
                        })
                        &&& opt_text(r.1) == Some(self.model@ + ": "@ + summary@)
                        &&& exists|row: TrialResult|
                            slot_row(
                                row,
                                ms,
                                reuse_of(self.stage->WarmTurn_first.prompt_n, warm.prompt_n),
                                Some(self.stage->restore_secs),
                                self.build,
                            ) && #[trigger] stored_row(self, r.0, SLOT_RESTORE@, row)
                    },
                    None => {
                        &&& slot_failed(r.0.stage, NO_PROMPT_MS@)
                        &&& r.0.trials == self.trials
                        &&& r.1 is None
                    },
                },
                Err(e) => {
                    &&& slot_failed(r.0.stage, e@)
                    &&& r.0.trials == self.trials
                    &&& r.1 is None
                },
            },
    {
        let warm = match done {
            Ok(w) => w,
            Err(e) => {
                return (self.give_up(e), None);
            },
        };
        let passed = match &self.stage {
            SlotStage::WarmTurn { first, restore_secs } => restore_pass(
                first,
                &warm,
                *restore_secs,
                self.build,
            ),
            _ => Err(String::new()),
        };
        match passed {
            Ok(row) => {
                let ghost g = row;
                let SlotRun { model, build, trials, .. } = self;
                let mut trials = trials;
                record_trial(&mut trials, model.as_str(), SLOT_RESTORE, row);
                let known = match trials.get(model.as_str()) {
                    Some(t) => slot_summary(t),
                    None => None,
                };
                let summary = match known {
                    Some(t) => t,
                    None => copy_text("slot trial recorded"),
                };
                let mut said = model.clone();
                said.append(": ");
                said.append(summary.as_str());
                let out = SlotRun {
                    model,
                    build,
                    trials,
                    stage: SlotStage::Storing { end: Some(summary) },
                };
                assert(stored_row(self, out, SLOT_RESTORE@, g));
                (out, Some(said))
            },
            Err(e) => (self.give_up(e), None),
        }
    }

    /// The trials were written, or could not be, which stops nothing.
    pub fn written(self) -> (r: SlotRun)
        requires
            self.stage is Storing,
        ensures
            slot_leads(self.stage, r.stage),
            r.same_but_stage(self),
            r.stage == (match self.stage->Storing_end {
                None => SlotStage::Asking { warm: true },
                Some(s) => SlotStage::Cleaning { end: Ok::<String, String>(s) },
            }),
    {
        let SlotRun { model, build, trials, stage } = self;
        let stage = match stage {
            SlotStage::Storing { end: None } => SlotStage::Asking { warm: true },
            SlotStage::Storing { end: Some(s) } => SlotStage::Cleaning { end: Ok(s) },
            other => other,
        };
        SlotRun { model, build, trials, stage }
    }

    /// The snapshot is gone and the model unloaded. A failure is remembered.
    pub fn cleaned(self) -> (r: SlotRun)
        requires
            self.stage is Cleaning,
        ensures
            slot_leads(self.stage, r.stage),
            r.same_trial(self),
            match self.stage->Cleaning_end {
                Ok(s) => r.stage == (SlotStage::Over { end: Ok::<String, String>(s) }) && r.trials
                    == self.trials,
                Err(e) => {
                    &&& r.stage == (SlotStage::StoringFailure { error: e })
                    &&& exists|row: TrialResult|
                        failed_result(row, e@, self.build) && #[trigger] stored_row(
                            self,
                            r,
                            SLOT_RESTORE@,
                            row,
                        )
                },
            },
    {
        let SlotRun { model, build, trials, stage } = self;
        match stage {
            SlotStage::Cleaning { end: Err(error) } => {
                let row = failed_row(error.as_str(), build);
                let ghost g = row;
                let mut trials = trials;
                record_trial(&mut trials, model.as_str(), SLOT_RESTORE, row);
                let out = SlotRun {
                    model,
                    build,
                    trials,
                    stage: SlotStage::StoringFailure { error },
                };
                assert(stored_row(self, out, SLOT_RESTORE@, g));
                out
            },
            SlotStage::Cleaning { end: Ok(s) } => SlotRun {
                model,
                build,
                trials,
                stage: SlotStage::Over { end: Ok(s) },
            },
            other => SlotRun { model, build, trials, stage: other },
        }
    }

    /// The failure was written, or could not be.
    pub fn failure_written(self) -> (r: SlotRun)
        requires
            self.stage is StoringFailure,
        ensures
            slot_leads(self.stage, r.stage),
            r.same_but_stage(self),
            r.stage == (SlotStage::Over { end: Err::<String, String>(self.stage->error) }),
    {
        let SlotRun { model, build, trials, stage } = self;
        let stage = match stage {
            SlotStage::StoringFailure { error } => SlotStage::Over { end: Err(error) },
            other => other,
        };
        SlotRun { model, build, trials, stage }
    }
}

/// No slot trial leaves its snapshot behind: what a run waits for last is
/// that it is cleaned up, or that its failure is written after that.
pub proof fn every_slot_trial_cleans_up(run: Seq<SlotStage>) -> (k: int)
    requires
        run.len() > 1,
        run[0] is Asking,
        forall|i: int| 0 <= i < run.len() - 1 ==> slot_leads(#[trigger] run[i], run[i + 1]),
        run.last() is Over,
    ensures
        run.len() - 3 <= k < run.len() - 1,
        0 <= k,
        run[k] is Cleaning,
{
    let n = run.len() as int;
    assert(slot_leads(run[n - 2], run[n - 2 + 1]));
    if run[n - 2] is Cleaning {
        n - 2
    } else {
        assert(run[n - 2] is StoringFailure);
        assert(slot_leads(run[n - 3], run[n - 3 + 1]));
        n - 3
    }
}

/// A snapshot is saved before it is read back, and nothing but a fresh
/// process stands between the two.
pub proof fn a_restore_follows_a_save(run: Seq<SlotStage>, i: int)
    requires
        run[0] is Asking,
        forall|i: int| 0 <= i < run.len() - 1 ==> slot_leads(#[trigger] run[i], run[i + 1]),
        0 <= i < run.len(),
        run[i] is Restoring,
    ensures
        i >= 2,
        run[i - 1] is Reloading,
        run[i - 2] is Saving,
{
    assert(slot_leads(run[i - 1], run[i - 1 + 1]));
    assert(slot_leads(run[i - 2], run[i - 2 + 1]));
}

// ------------------------------------------------------------------- the sweep

/// What a baseline sweep waits for.
pub enum BenchStage {
    /// Word of what stands on the router's port.
    Looking,
    /// The model at `next` to be unloaded.
    Freeing { ids: Vec<String>, next: usize },
    /// Word of the GPU's free memory and of who else holds it.
    Sensing,
    /// Leave to go on.
    Asking,
    /// The baseline of the model at hand, at such a depth.
    Benching { depth: u64 },
    /// The store to be written, with the new baseline in it.
    Storing { baseline: Baseline },
    Over { end: Result<(usize, usize), String> },
}

/// One baseline sweep: the GPU is freed and looked at, then the targets are
/// benched one by one.
pub struct BenchRun {
    pub port: u16,
    pub sweep: Sweep,
    pub stage: BenchStage,
}

/// A sweep goes from the one stage to the other.
pub open spec fn bench_leads(a: BenchStage, b: BenchStage) -> bool {
    match a {
        BenchStage::Looking => b is Freeing || b is Sensing || b is Over,
        BenchStage::Freeing { .. } => b is Freeing || b is Sensing || b is Over,
        BenchStage::Sensing => b is Asking || b is Over,
        BenchStage::Asking => b is Benching || b is Over,
        BenchStage::Benching { .. } => b is Storing || b is Asking || b is Over,
        BenchStage::Storing { .. } => b is Asking || b is Over,
        BenchStage::Over { .. } => false,
    }
}

/// The sweep is given up.
pub open spec fn bench_failed(b: BenchStage, e: Seq<char>) -> bool {
    b matches BenchStage::Over { end: Err(f) } && f@ == e
}

/// The sweep goes on with the next model, or is over with its counts.
pub open spec fn bench_next(r: BenchRun) -> bool {
    if r.sweep.running() {
        r.stage is Asking
    } else {
        r.stage == (BenchStage::Over {
            end: Ok::<(usize, usize), String>((r.sweep.benched, r.sweep.failed)),
        })
    }
}

impl BenchRun {
    /// A model is left wherever one is asked for or under way.
    pub open spec fn valid(self) -> bool {
        &&& self.sweep.counted()
        &&& match self.stage {
            BenchStage::Storing { .. } | BenchStage::Over { .. } => true,
            BenchStage::Freeing { ids, next } => next < ids@.len() && self.sweep.running(),
            _ => self.sweep.running(),
        }
    }

    /// A sweep over the targets. Where there are none, nothing is touched.
    pub fn begin(port: u16, targets: Vec<String>, store: Measurements) -> (r: (
        BenchRun,
        Option<&'static str>,
    ))
        ensures
            r.0.valid(),
            r.0.port == port,
            r.0.sweep.targets == targets,
            r.0.sweep.store == store,
            r.0.sweep.at == 0 && r.0.sweep.benched == 0 && r.0.sweep.failed == 0,
            if targets@.len() == 0 {
                &&& r.0.stage == (BenchStage::Over { end: Ok::<(usize, usize), String>((0, 0)) })
                &&& r.1 is Some && r.1->0@ == NOTHING_TO_BENCH@
            } else {
                r.0.stage is Looking && r.1 is None
            },
    {
        let none = targets.len() == 0;
        let sweep = Sweep::begin(targets, None, store);
        if none {
            let stage = BenchStage::Over { end: Ok((0, 0)) };
            (BenchRun { port, sweep, stage }, Some(NOTHING_TO_BENCH))
        } else {
            (BenchRun { port, sweep, stage: BenchStage::Looking }, None)
        }
    }

    /// What stands on the port is known: our router's resident models are to
    /// be unloaded; a server that we did not start ends the sweep.
    pub fn found(self, state: &RouterState) -> (r: BenchRun)
        requires
            self.valid(),
            self.stage is Looking,
        ensures
            r.valid(),
            bench_leads(self.stage, r.stage),
            r.port == self.port && r.sweep == self.sweep,
            match *state {
                RouterState::Down => r.stage is Sensing,
                RouterState::Ours { models } => if resident_ids(models@).len() == 0 {
                    r.stage is Sensing
                } else {
                    r.stage matches BenchStage::Freeing { ids, next } && next == 0 && texts(ids@)
                        == resident_ids(models@)
                },
                _ => bench_failed(
                    r.stage,
                    "port "@ + dec(self.port as nat)
                        + " is running a server this app doesn't own ("@ + state.text()
                        + "); benching needs the GPU free, and that server is not ours to unload"@,
                ),
            },
    {
        let BenchRun { port, sweep, .. } = self;
        let stage = match to_unload(state, port) {
            Ok(ids) => {
                assert(texts(ids@).len() == ids@.len());
                if ids.len() == 0 {
                    BenchStage::Sensing
                } else {
                    BenchStage::Freeing { ids, next: 0 }
                }
            },
            Err(e) => BenchStage::Over { end: Err(e) },
        };
        BenchRun { port, sweep, stage }
    }

    /// The model at hand is gone, or would not go, which ends the sweep.
    pub fn freed(self, done: Result<(), String>) -> (r: BenchRun)
        requires
            self.valid(),
            self.stage is Freeing,
        ensures
            r.valid(),
            bench_leads(self.stage, r.stage),
            r.port == self.port && r.sweep == self.sweep,
            match done {
                Err(e) => bench_failed(r.stage, e@),
                Ok(_) => if self.stage->next + 1 < self.stage->ids@.len() {
                    r.stage == (BenchStage::Freeing {
                        ids: self.stage->ids,
                        next: (self.stage->next + 1) as usize,
                    })
                } else {
                    r.stage is Sensing
                },
            },
    {
        let BenchRun { port, sweep, stage } = self;
        let stage = match (done, stage) {
            (Err(e), _) => BenchStage::Over { end: Err(e) },
            (Ok(_), BenchStage::Freeing { ids, next }) => if ids.len() - next > 1 {
                BenchStage::Freeing { ids, next: next + 1 }
            } else {
                BenchStage::Sensing
            },
            (Ok(_), other) => other,
        };
        BenchRun { port, sweep, stage }
    }

    /// The GPU is known. Another tenant ends the sweep: what would be
    /// measured then is the contention, not the model.
    pub fn sensed(self, free_vram_mib: Option<u64>, tenant: Option<&str>) -> (r: BenchRun)
        requires
            self.valid(),
            self.stage is Sensing,
        ensures
            r.valid(),
            bench_leads(self.stage, r.stage),
            r.port == self.port,
            match tenant {
                Some(t) => bench_failed(r.stage, tenant_text(t@)) && r.sweep == self.sweep,
                None => r.stage is Asking && r.sweep == (Sweep { free_vram_mib, ..self.sweep }),
            },
    {
        let BenchRun { port, sweep, .. } = self;
        match refuse_tenant(tenant) {
            Ok(_) => {
                let mut sweep = sweep;
                sweep.free_vram_mib = free_vram_mib;
                BenchRun { port, sweep, stage: BenchStage::Asking }
            },
            Err(e) => BenchRun { port, sweep, stage: BenchStage::Over { end: Err(e) } },
        }
    }

    /// With leave, the model at hand is benched; what is said of it.
    pub fn go_on(self, leave: Result<(), String>) -> (r: (BenchRun, Option<String>))
        requires
            self.valid(),
            self.stage is Asking,
        ensures
            r.0.valid(),
            bench_leads(self.stage, r.0.stage),
            r.0.port == self.port && r.0.sweep == self.sweep,
            match leave {
                Ok(_) => {
                    &&& r.0.stage matches BenchStage::Benching { depth }
                    &&& depth == self.sweep.depth()
                    &&& opt_text(r.1) == Some(
                        start_text(
                            self.sweep.at + 1,
                            self.sweep.targets@.len(),
                            self.sweep.id(),
                            depth,
                        ),
                    )
                },
                Err(e) => bench_failed(r.0.stage, e@) && r.1 is None,
            },
    {
        let BenchRun { port, sweep, .. } = self;
        match leave {
            Ok(_) => {
                let (depth, said) = sweep.start();
                (BenchRun { port, sweep, stage: BenchStage::Benching { depth } }, Some(said))
            },
            Err(e) => (BenchRun { port, sweep, stage: BenchStage::Over { end: Err(e) } }, None),
        }
    }

    /// The model at hand is benched, or could not be, which is told and
    /// stops nothing.
    pub fn benched(self, result: Result<Baseline, String>) -> (r: (BenchRun, String))
        requires
            self.valid(),
            self.stage is Benching,
        ensures
            r.0.valid(),
            bench_leads(self.stage, r.0.stage),
            r.0.port == self.port,
            self.sweep.finished(result, r.0.sweep, r.1@),
            match result {
                Ok(baseline) => r.0.stage == (BenchStage::Storing { baseline }),
                Err(_) => bench_next(r.0),
            },
    {
        let BenchRun { port, sweep, .. } = self;
        let mut sweep = sweep;
        let done = match &result {
            Ok(b) => Some(*b),
            Err(_) => None,
        };
        let said = sweep.finish(result);
        let stage = match done {
            Some(baseline) => BenchStage::Storing { baseline },
            None => next_stage(&sweep),
        };
        (BenchRun { port, sweep, stage }, said)
    }

    /// The store is written, or could not be, which ends the sweep.
    pub fn stored(self, done: Result<(), String>) -> (r: BenchRun)
        requires
            self.valid(),
            self.stage is Storing,
        ensures
            r.valid(),
            bench_leads(self.stage, r.stage),
            r.port == self.port && r.sweep == self.sweep,
            match done {
                Ok(_) => bench_next(r),
                Err(e) => bench_failed(r.stage, e@),
            },
    {
        let BenchRun { port, sweep, .. } = self;
        let stage = match done {
            Ok(_) => next_stage(&sweep),
            Err(e) => BenchStage::Over { end: Err(e) },
        };
        BenchRun { port, sweep, stage }
    }
}

fn next_stage(sweep: &Sweep) -> (r: BenchStage)
    ensures
        sweep.running() ==> r is Asking,
        !sweep.running() ==> r == (BenchStage::Over {
            end: Ok::<(usize, usize), String>((sweep.benched, sweep.failed)),
        }),
{
    if sweep.at < sweep.targets.len() {
        BenchStage::Asking
    } else {
        BenchStage::Over { end: Ok((sweep.benched, sweep.failed)) }
    }
}

/// What is said before a model is unloaded for a sweep.
pub fn freeing_line(id: &str) -> (r: String)
    ensures
        r@ == "unloading "@ + id@ + " to free the GPU for benching…"@,
{
    let mut s = copy_text("unloading ");
    s.append(id);
    s.append(" to free the GPU for benching…");
    s
}

/// No model is benched before the GPU was looked at, once the sweep had seen
/// what stands on the port.
pub proof fn every_bench_follows_a_look_at_the_gpu(run: Seq<BenchStage>, i: int) -> (k: int)
    requires
        run[0] is Looking,
        forall|i: int| 0 <= i < run.len() - 1 ==> bench_leads(#[trigger] run[i], run[i + 1]),
        0 <= i < run.len(),
        run[i] is Benching || run[i] is Asking || run[i] is Storing,
    ensures
        0 < k < i,
        run[k] is Sensing,
    decreases i,
{
    assert(bench_leads(run[i - 1], run[i - 1 + 1]));
    if run[i - 1] is Sensing {
        i - 1
    } else {
        every_bench_follows_a_look_at_the_gpu(run, i - 1)
    }
}

} // verus!
