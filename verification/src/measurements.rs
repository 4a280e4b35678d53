//! The measurement store: what each model actually got on this machine.
//!
//! The context a model *actually* gets is decided by `--fit` at load time and
//! is only knowable by loading the model. Results are keyed by alias; opencode
//! sync refuses to guess and only writes measured numbers. Throughputs and
//! scores are in millionths.
use crate::diagnose::{cause_of, classify, Cause};
use crate::safefs::Loaded;
use crate::text::{copy_opt, copy_text, lowercase, opt_str, opt_text, same_text};
use crate::textmap::{
    drop_key, drop_then_lookup, has_key, lookup, put, put_then_lookup, sorted, TextMap,
};
use vstd::prelude::*;
use vstd::string::*;

verus! {

/// One calibration result — success (`n_ctx` measured) or remembered
/// failure (`error`), stamped with fingerprints so staleness is detectable.
/// Missing fingerprints read as "stale", which re-measures — the right thing.
#[derive(Debug, Clone)]
pub struct Measurement {
    /// The context `--fit` settled on. `None` = the load failed.
    pub n_ctx: Option<u64>,
    /// Whether the model produced a well-formed tool call when probed —
    /// measured, like everything else. `None` = probe not run / inconclusive.
    pub tool_call: Option<bool>,
    /// Why the load failed, when it did.
    pub error: Option<String>,
    /// Fingerprint of the model's effective launch args at measurement time.
    pub args_fp: Option<String>,
    /// Fingerprint of the environment (server build + devices).
    pub env_fp: Option<String>,
    /// Baseline prompt-processing tokens/sec (llama-bench pp512).
    pub pp_tps: Option<i64>,
    /// Baseline generation tokens/sec (llama-bench tg128).
    pub tg_tps: Option<i64>,
    /// Generation tokens/sec with `tg_depth` tokens already in the cache.
    pub tg_deep_tps: Option<i64>,
    pub tg_depth: Option<u64>,
    /// llama.cpp build the bench numbers came from — a rebuild shifts
    /// throughput without touching any model file, so this is the bench
    /// half's staleness signal.
    pub bench_build: Option<u64>,
    /// How much VRAM was free when the bench ran.
    pub free_vram_mib: Option<u64>,
    /// Fraction of the fixed eval battery answered correctly, and N-shot
    /// tool-call reliability, measured on demand.
    pub eval_score: Option<u64>,
    pub tool_reliability: Option<u64>,
    /// Multi-hop agent-loop completion rate: a model can ace single tool
    /// calls yet quit mid-loop.
    pub loop_reliability: Option<u64>,
}

/// A measurement that says nothing.
pub open spec fn says_nothing(m: Measurement) -> bool {
    &&& m.n_ctx is None
    &&& m.tool_call is None
    &&& m.error is None
    &&& m.args_fp is None
    &&& m.env_fp is None
    &&& m.pp_tps is None
    &&& m.tg_tps is None
    &&& m.tg_deep_tps is None
    &&& m.tg_depth is None
    &&& m.bench_build is None
    &&& m.free_vram_mib is None
    &&& m.eval_score is None
    &&& m.tool_reliability is None
    &&& m.loop_reliability is None
}

impl Default for Measurement {
    fn default() -> (r: Measurement)
        ensures
            says_nothing(r),
    {
        Measurement {
            n_ctx: None,
            tool_call: None,
            error: None,
            args_fp: None,
            env_fp: None,
            pp_tps: None,
            tg_tps: None,
            tg_deep_tps: None,
            tg_depth: None,
            bench_build: None,
            free_vram_mib: None,
            eval_score: None,
            tool_reliability: None,
            loop_reliability: None,
        }
    }
}

/// The store: router id → measurement.
pub type Measurements = TextMap<Measurement>;

/// The measurement was taken (or failed) under exactly this config and
/// environment, it is complete, and its failure is no transient one. `cause`
/// is what its error was classified as.
pub open spec fn fresh(m: Measurement, cause: Option<Cause>, args: Option<Seq<char>>, env: Seq<char>) -> bool {
    &&& cause != Some(Cause::ServerBusy)
    &&& (m.error is Some || (m.n_ctx is Some && m.tool_call is Some))
    &&& opt_text(m.env_fp) == Some(env)
    &&& opt_text(m.args_fp) == args
    &&& args is Some
}

/// What a measurement's error is classified as.
pub open spec fn error_cause(m: Measurement) -> Option<Cause> {
    match m.error {
        Some(e) => Some(cause_of(lowercase(e@))),
        None => None,
    }
}

impl Measurement {
    /// The same measurement once more.
    pub fn copy(&self) -> (r: Measurement)
        ensures
            r == *self,
    {
        Measurement {
            n_ctx: self.n_ctx,
            tool_call: self.tool_call,
            error: copy_opt(&self.error),
            args_fp: copy_opt(&self.args_fp),
            env_fp: copy_opt(&self.env_fp),
            pp_tps: self.pp_tps,
            tg_tps: self.tg_tps,
            tg_deep_tps: self.tg_deep_tps,
            tg_depth: self.tg_depth,
            bench_build: self.bench_build,
            free_vram_mib: self.free_vram_mib,
            eval_score: self.eval_score,
            tool_reliability: self.tool_reliability,
            loop_reliability: self.loop_reliability,
        }
    }

    /// Freshness where the cause of the error is known.
    pub fn is_fresh_given(
        &self,
        cause: Option<Cause>,
        current_args_fp: Option<&str>,
        env_fp: &str,
    ) -> (r: bool)
        ensures
            r == fresh(*self, cause, opt_str(current_args_fp), env_fp@),
    {
        let transient = match cause {
            Some(Cause::ServerBusy) => true,
            _ => false,
        };
        let complete = self.error.is_some() || (self.n_ctx.is_some() && self.tool_call.is_some());
        let env_same = match &self.env_fp {
            Some(e) => same_text(e.as_str(), env_fp),
            None => false,
        };
        let args_same = match (&self.args_fp, current_args_fp) {
            (Some(a), Some(b)) => same_text(a.as_str(), b),
            _ => false,
        };
        !transient && complete && env_same && args_same
    }

    /// Fresh = measured (or failed) under exactly this config + environment.
    /// A success without a tool-call verdict counts as stale so the next
    /// calibration upgrades it. A failure diagnosed as TRANSIENT (the server
    /// was busy) is never fresh: its own advice says "re-measure when idle".
    /// Permanent failures stay fresh so a broken conversion isn't re-loaded
    /// every run.
    pub fn is_fresh(&self, current_args_fp: Option<&str>, env_fp: &str) -> (r: bool)
        ensures
            r == fresh(*self, error_cause(*self), opt_str(current_args_fp), env_fp@),
    {
        let cause = match &self.error {
            Some(e) => Some(classify(e.as_str())),
            None => None,
        };
        self.is_fresh_given(cause, current_args_fp, env_fp)
    }
}

/// The measurement with its fingerprints cleared.
pub open spec fn unstamped(m: Measurement) -> Measurement {
    Measurement { args_fp: None, env_fp: None, ..m }
}

/// The store after a file changed its identity.
pub open spec fn migrated(
    all: Seq<(Seq<char>, Measurement)>,
    old_id: Seq<char>,
    new_id: Seq<char>,
) -> Seq<(Seq<char>, Measurement)> {
    if old_id == new_id || has_key(all, new_id) {
        all
    } else {
        match lookup(all, old_id) {
            Some(m) => put(drop_key(all, old_id), new_id, unstamped(m)),
            None => all,
        }
    }
}

/// The words on a damaged store.
pub open spec fn damage_note(path: Seq<char>, why: Seq<char>, saved: Option<Seq<char>>) -> Seq<char> {
    path + " is damaged ("@ + why + ") — starting from empty"@ + (match saved {
        Some(p) => "; the damaged file is preserved as "@ + p,
        None => ""@,
    }) + ". Nothing was silently discarded; re-measure to rebuild."@
}

/// The store as it was read, and what to say of the damage where there is
/// any. A damaged file has been rescued aside — to `saved`, where that worked
/// — so that the next save cannot write emptiness over it.
pub fn read_measurements_checked(path: &str, read: Loaded<Measurements>, saved: Option<&str>) -> (r:
    (Measurements, Option<String>))
    ensures
        match read {
            Loaded::Parsed(m) => r.0 == m && r.1 is None,
            Loaded::Missing => r.0@.len() == 0 && r.1 is None,
            Loaded::Damaged(why) => r.0@.len() == 0 && r.1 is Some && r.1->0@ == damage_note(
                path@,
                why@,
                opt_str(saved),
            ),
        },
{
    match read {
        Loaded::Parsed(m) => (m, None),
        Loaded::Missing => (TextMap::new(), None),
        Loaded::Damaged(why) => {
            let mut note = copy_text(path);
            note.append(" is damaged (");
            note.append(why.as_str());
            note.append(") — starting from empty");
            let mut kept = copy_text("");
            if let Some(p) = saved {
                kept = copy_text("; the damaged file is preserved as ");
                kept.append(p);
            }
            note.append(kept.as_str());
            note.append(". Nothing was silently discarded; re-measure to rebuild.");
            (TextMap::new(), Some(note))
        },
    }
}

/// The store as it was read; a damaged one is empty.
pub fn read_measurements(read: Loaded<Measurements>) -> (r: Measurements)
    ensures
        match read {
            Loaded::Parsed(m) => r == m,
            _ => r@.len() == 0,
        },
{
    match read {
        Loaded::Parsed(m) => m,
        _ => TextMap::new(),
    }
}

/// Carry a model's measurement to its new alias when a file changes
/// identity (archiving a cache model gives it a preset alias). Fingerprints
/// are CLEARED — the serving args changed, so the next calibrate re-measures
/// — while bench numbers keep their build stamp. The old key is removed; an
/// existing entry under the new id is never clobbered.
pub fn migrate_measurement(all: &mut Measurements, old_id: &str, new_id: &str)
    ensures
        final(all)@ == migrated(old(all)@, old_id@, new_id@),
{
    if same_text(old_id, new_id) || all.contains_key(new_id) {
        return;
    }
    if let Some(m) = all.remove(old_id) {
        let mut m = m;
        m.args_fp = None;
        m.env_fp = None;
        all.insert(copy_text(new_id), m);
    }
}

/// The new measurement with the baselines of an old one.
pub open spec fn with_baselines(m: Measurement, old_m: Measurement) -> Measurement {
    Measurement {
        pp_tps: old_m.pp_tps,
        tg_tps: old_m.tg_tps,
        tg_deep_tps: old_m.tg_deep_tps,
        tg_depth: old_m.tg_depth,
        bench_build: old_m.bench_build,
        free_vram_mib: old_m.free_vram_mib,
        eval_score: old_m.eval_score,
        tool_reliability: old_m.tool_reliability,
        loop_reliability: old_m.loop_reliability,
        ..m
    }
}

/// The two were taken under the same config and environment.
pub open spec fn same_setup(a: Measurement, b: Measurement) -> bool {
    opt_text(a.args_fp) == opt_text(b.args_fp) && opt_text(a.env_fp) == opt_text(b.env_fp)
}

/// What a (re)measurement is stored as.
pub open spec fn merged(all: Seq<(Seq<char>, Measurement)>, id: Seq<char>, m: Measurement) -> Measurement {
    match lookup(all, id) {
        Some(o) => if same_setup(o, m) {
            with_baselines(m, o)
        } else {
            m
        },
        None => m,
    }
}

fn same_opt(a: &Option<String>, b: &Option<String>) -> (r: bool)
    ensures
        r == (opt_text(*a) == opt_text(*b)),
{
    match (a, b) {
        (Some(x), Some(y)) => same_text(x.as_str(), y.as_str()),
        (None, None) => true,
        _ => false,
    }
}

/// Insert a (re)measurement, carrying over bench baselines taken under the
/// same config + environment — re-measuring ctx must not wipe them. A
/// changed fingerprint means the old numbers describe a different setup,
/// so they drop with it.
pub fn upsert_measurement(all: &mut Measurements, id: &str, m: Measurement)
    ensures
        final(all)@ == put(old(all)@, id@, merged(old(all)@, id@, m)),
{
    let mut m = m;
    if let Some(o) = all.get(id) {
        if same_opt(&o.args_fp, &m.args_fp) && same_opt(&o.env_fp, &m.env_fp) {
            m.pp_tps = o.pp_tps;
            m.tg_tps = o.tg_tps;
            m.tg_deep_tps = o.tg_deep_tps;
            m.tg_depth = o.tg_depth;
            m.bench_build = o.bench_build;
            m.free_vram_mib = o.free_vram_mib;
            m.eval_score = o.eval_score;
            m.tool_reliability = o.tool_reliability;
            m.loop_reliability = o.loop_reliability;
        }
    }
    all.insert(copy_text(id), m);
}

/// Migrating loses nothing: every model but the two ids keeps its
/// measurement, an entry under the new id is never clobbered, and what moved
/// is the old entry, stale under any configuration.
pub proof fn migration_never_clobbers(
    all: Seq<(Seq<char>, Measurement)>,
    old_id: Seq<char>,
    new_id: Seq<char>,
    other: Seq<char>,
)
    requires
        sorted(all),
        old_id != new_id,
    ensures
        other != old_id && other != new_id ==> lookup(migrated(all, old_id, new_id), other)
            == lookup(all, other),
        has_key(all, new_id) ==> migrated(all, old_id, new_id) == all,
        !has_key(all, new_id) && lookup(all, old_id) is Some ==> {
            &&& lookup(migrated(all, old_id, new_id), new_id) == Some(
                unstamped(lookup(all, old_id)->0),
            )
            &&& lookup(migrated(all, old_id, new_id), old_id) is None
            &&& forall|c: Option<Cause>, a: Option<Seq<char>>, e: Seq<char>|
                !#[trigger] fresh(lookup(migrated(all, old_id, new_id), new_id)->0, c, a, e)
        },
{
    if !has_key(all, new_id) {
        if let Some(m) = lookup(all, old_id) {
            let mid = drop_key(all, old_id);
            drop_then_lookup(all, old_id, other);
            drop_then_lookup(all, old_id, new_id);
            drop_then_lookup(all, old_id, old_id);
            put_then_lookup(mid, new_id, unstamped(m), other);
            put_then_lookup(mid, new_id, unstamped(m), old_id);
        }
    }
}

/// Re-measuring a model touches no other model's entry, and keeps its
/// baselines where the setup is the same.
pub proof fn remeasuring_keeps_baselines(
    all: Seq<(Seq<char>, Measurement)>,
    id: Seq<char>,
    m: Measurement,
    other: Seq<char>,
)
    requires
        sorted(all),
    ensures
        other != id ==> lookup(put(all, id, merged(all, id, m)), other) == lookup(all, other),
        match lookup(all, id) {
            Some(o) => same_setup(o, m) ==> {
                let n = lookup(put(all, id, merged(all, id, m)), id)->0;
                n.pp_tps == o.pp_tps && n.tg_tps == o.tg_tps && n.bench_build == o.bench_build
                    && n.eval_score == o.eval_score && n.n_ctx == m.n_ctx && n.tool_call
                    == m.tool_call
            },
            None => lookup(put(all, id, merged(all, id, m)), id) == Some(m),
        },
{
    put_then_lookup(all, id, merged(all, id, m), other);
}

/// A failure of a busy server is never fresh, so the promised re-measure
/// happens; a permanent failure under the same fingerprints is.
pub proof fn transient_failures_are_retried(m: Measurement, args: Seq<char>, env: Seq<char>)
    requires
        m.error is Some,
        opt_text(m.args_fp) == Some(args),
        opt_text(m.env_fp) == Some(env),
    ensures
        fresh(m, error_cause(m), Some(args), env) <==> cause_of(lowercase(m.error->0@))
            != Cause::ServerBusy,
{
}

/// A measurement counts for a model as long as its arguments and the environment are those
/// it was taken under, and it came to something: a failure, or a context and a tool verdict.
pub proof fn a_measurement_counts_while_nothing_changes(
    m: Measurement,
    cause: Option<Cause>,
    args: Option<Seq<char>>,
    env: Seq<char>,
)
    ensures
        m.args_fp is None || args is None || m.args_fp->0@ != args->0 ==> !fresh(
            m,
            cause,
            args,
            env,
        ),
        m.env_fp is None || m.env_fp->0@ != env ==> !fresh(m, cause, args, env),
        m.error is None && (m.n_ctx is None || m.tool_call is None) ==> !fresh(m, cause, args, env),
        m.error is None && cause is None && m.n_ctx is Some && m.tool_call is Some && m.args_fp is Some
            && args == Some(m.args_fp->0@) && m.env_fp is Some && m.env_fp->0@ == env ==> fresh(
            m,
            cause,
            args,
            env,
        ),
{
}

/// A measurement under the same arguments and environment keeps every baseline that was
/// taken before; under others it keeps none. What it measured itself it always keeps.
pub proof fn baselines_live_as_long_as_their_setup(
    all: Seq<(Seq<char>, Measurement)>,
    id: Seq<char>,
    m: Measurement,
)
    ensures
        ({
            let n = merged(all, id, m);
            &&& n.n_ctx == m.n_ctx && n.tool_call == m.tool_call && n.error == m.error
            &&& n.args_fp == m.args_fp && n.env_fp == m.env_fp
            &&& match lookup(all, id) {
                Some(o) => {
                    let same = opt_text(o.args_fp) == opt_text(m.args_fp) && opt_text(o.env_fp)
                        == opt_text(m.env_fp);
                    let from = if same {
                        o
                    } else {
                        m
                    };
                    &&& n.pp_tps == from.pp_tps && n.tg_tps == from.tg_tps
                    &&& n.tg_deep_tps == from.tg_deep_tps && n.tg_depth == from.tg_depth
                    &&& n.bench_build == from.bench_build && n.free_vram_mib == from.free_vram_mib
                    &&& n.eval_score == from.eval_score
                    &&& n.tool_reliability == from.tool_reliability
                    &&& n.loop_reliability == from.loop_reliability
                },
                None => n == m,
            }
        }),
{
}

} // verus!
