//! Append-only measurement journal: every context measurement and bench
//! result also lands here, so build-over-build comparisons are a query
//! instead of archaeology. The journal is a side effect of writing the
//! current-truth files, never a source the app reasons from directly.
//!
//! Throughputs and scores are in millionths.
use crate::measurements::Measurement;
use crate::num::{dec, dec_len, dec_text, signed0, signed0_text};
use crate::preset::TextSet;
use crate::ratios::{all_based, all_bounded, mean_percent, mean_percent_text};
use crate::text::{
    before, chars_of, copy_opt, copy_text, join, join_texts, lemma_texts_push, opt_text, same_text,
    text_lt, texts,
};
use crate::textmap::{put, TextMap};
use vstd::prelude::*;
use vstd::string::*;

verus! {

/// One journal event. Context measurements carry `n_ctx`/`error`; bench
/// results carry `pp_tps`/`tg_tps`. `build` is the llama.cpp build that
/// produced the numbers — the axis most comparisons care about.
#[derive(Debug, Clone, PartialEq)]
pub struct Entry {
    pub when: u64,
    pub model: String,
    pub build: Option<u64>,
    pub args_fp: Option<String>,
    pub n_ctx: Option<u64>,
    pub pp_tps: Option<i64>,
    pub tg_tps: Option<i64>,
    pub eval_score: Option<u64>,
    pub tool_reliability: Option<u64>,
    pub loop_reliability: Option<u64>,
    pub error: Option<String>,
}

impl Default for Entry {
    fn default() -> (r: Entry)
        ensures
            r.when == 0,
            r.model@.len() == 0,
            r.build is None,
            r.args_fp is None,
            r.n_ctx is None,
            r.pp_tps is None,
            r.tg_tps is None,
            r.eval_score is None,
            r.tool_reliability is None,
            r.loop_reliability is None,
            r.error is None,
    {
        Entry {
            when: 0,
            model: String::new(),
            build: None,
            args_fp: None,
            n_ctx: None,
            pp_tps: None,
            tg_tps: None,
            eval_score: None,
            tool_reliability: None,
            loop_reliability: None,
            error: None,
        }
    }
}

/// The event that a calibration of a model is.
pub fn calibration_entry(when: u64, model: &str, build: Option<u64>, m: &Measurement) -> (r: Entry)
    ensures
        r.when == when,
        r.model@ == model@,
        r.build == build,
        r.args_fp == m.args_fp,
        r.n_ctx == m.n_ctx,
        r.error == m.error,
        r.pp_tps is None,
        r.tg_tps is None,
        r.eval_score is None,
        r.tool_reliability is None,
        r.loop_reliability is None,
{
    let mut e = Entry::default();
    e.when = when;
    e.model = copy_text(model);
    e.build = build;
    e.args_fp = copy_opt(&m.args_fp);
    e.n_ctx = m.n_ctx;
    e.error = copy_opt(&m.error);
    e
}

/// The event that a bench of a model is.
pub fn bench_entry(
    when: u64,
    model: &str,
    build: Option<u64>,
    pp_tps: Option<i64>,
    tg_tps: Option<i64>,
) -> (r: Entry)
    ensures
        r.when == when,
        r.model@ == model@,
        r.build == build,
        r.pp_tps == pp_tps,
        r.tg_tps == tg_tps,
        r.args_fp is None,
        r.n_ctx is None,
        r.error is None,
        r.eval_score is None,
        r.tool_reliability is None,
        r.loop_reliability is None,
{
    let mut e = Entry::default();
    e.when = when;
    e.model = copy_text(model);
    e.build = build;
    e.pp_tps = pp_tps;
    e.tg_tps = tg_tps;
    e
}

/// Newest entries kept per model when pruning.
pub const KEEP_PER_MODEL: usize = 50;

/// Total-line threshold that triggers a prune pass.
pub const PRUNE_AT: usize = 2000;

/// Whether a journal of so many lines is to be pruned.
pub fn needs_prune(lines: usize) -> (r: bool)
    ensures
        r == (lines > PRUNE_AT),
{
    lines > PRUNE_AT
}

// ----------------------------------------------------------------------- pruning

/// How many entries behind the `i`th are of its model.
pub open spec fn later(all: Seq<Entry>, i: int, to: int) -> nat
    decreases to - i,
{
    if to <= i + 1 || to > all.len() {
        0
    } else {
        later(all, i, to - 1) + if all[to - 1].model@ == all[i].model@ {
            1nat
        } else {
            0nat
        }
    }
}

/// The entry is among the newest of its model.
pub open spec fn kept(all: Seq<Entry>, i: int) -> bool {
    later(all, i, all.len() as int) < KEEP_PER_MODEL
}

/// The order of the pruned journal: by time; of one time by model, and of one
/// model the newer entry first.
pub open spec fn goes_before(all: Seq<Entry>, i: int, j: int) -> bool {
    let a = all[i];
    let b = all[j];
    a.when < b.when || (a.when == b.when && (text_lt(a.model@, b.model@) || (a.model@ == b.model@
        && i > j)))
}

/// The place of an entry among others that are in order.
pub open spec fn slot(all: Seq<Entry>, s: Seq<int>, i: int) -> int
    decreases s.len(),
{
    if s.len() > 0 && goes_before(all, i, s.last()) {
        slot(all, s.drop_last(), i)
    } else {
        s.len() as int
    }
}

/// The places of the entries that a prune keeps, of the first `n`, in the
/// order of the pruned journal.
pub open spec fn pruned(all: Seq<Entry>, n: int) -> Seq<int>
    decreases n,
{
    if n <= 0 || n > all.len() {
        Seq::empty()
    } else {
        let before = pruned(all, n - 1);
        if kept(all, n - 1) {
            before.insert(slot(all, before, n - 1), n - 1)
        } else {
            before
        }
    }
}

proof fn lemma_slot(all: Seq<Entry>, s: Seq<int>, i: int)
    ensures
        0 <= slot(all, s, i) <= s.len(),
    decreases s.len(),
{
    if s.len() > 0 && goes_before(all, i, s.last()) {
        lemma_slot(all, s.drop_last(), i);
    }
}

fn is_kept(all: &[Entry], i: usize) -> (r: bool)
    requires
        i < all.len(),
    ensures
        r == kept(all@, i as int),
{
    let mut n: usize = 0;
    let mut k: usize = i + 1;
    while k < all.len()
        invariant
            i < k <= all.len(),
            n < k,
            n as nat == later(all@, i as int, k as int),
        decreases all.len() - k,
    {
        if same_text(all[k].model.as_str(), all[i].model.as_str()) {
            n += 1;
        }
        k += 1;
    }
    n < KEEP_PER_MODEL
}

fn comes_before(all: &[Entry], i: usize, j: usize) -> (r: bool)
    requires
        i < all.len(),
        j < all.len(),
    ensures
        r == goes_before(all@, i as int, j as int),
{
    let a = &all[i];
    let b = &all[j];
    if a.when != b.when {
        return a.when < b.when;
    }
    let x = chars_of(a.model.as_str());
    let y = chars_of(b.model.as_str());
    before(&x, &y) || (same_text(a.model.as_str(), b.model.as_str()) && i > j)
}

fn slot_of(all: &[Entry], places: &[usize], i: usize) -> (r: usize)
    requires
        i < all.len(),
        forall|k: int| 0 <= k < places@.len() ==> (#[trigger] places@[k]) < all.len(),
    ensures
        r as int == slot(all@, ints(places@), i as int),
        r <= places.len(),
{
    let ghost s = ints(places@);
    let mut at: usize = places.len();
    assert(s.take(at as int) =~= s);
    while at > 0 && comes_before(all, i, places[at - 1])
        invariant
            i < all.len(),
            at <= places.len(),
            s == ints(places@),
            forall|k: int| 0 <= k < places@.len() ==> (#[trigger] places@[k]) < all.len(),
            slot(all@, s, i as int) == slot(all@, s.take(at as int), i as int),
        decreases at,
    {
        assert(s.take(at as int).last() == places@[at - 1]);
        assert(s.take(at as int).drop_last() =~= s.take(at - 1));
        at -= 1;
    }
    if at > 0 {
        assert(s.take(at as int).last() == places@[at - 1]);
    }
    at
}

pub open spec fn ints(v: Seq<usize>) -> Seq<int> {
    Seq::new(v.len(), |i: int| v[i] as int)
}

fn prune_places(all: &[Entry]) -> (r: Vec<usize>)
    ensures
        ints(r@) == pruned(all@, all@.len() as int),
        forall|k: int| 0 <= k < r@.len() ==> (#[trigger] r@[k]) < all.len(),
{
    let mut places: Vec<usize> = Vec::new();
    let mut n: usize = 0;
    assert(ints(places@) =~= Seq::empty());
    while n < all.len()
        invariant
            n <= all.len(),
            ints(places@) == pruned(all@, n as int),
            forall|k: int| 0 <= k < places@.len() ==> (#[trigger] places@[k]) < all.len(),
        decreases all.len() - n,
    {
        if is_kept(all, n) {
            let at = slot_of(all, &places, n);
            let ghost sofar = places@;
            places.insert(at, n);
            assert(ints(places@) =~= ints(sofar).insert(at as int, n as int));
        }
        n += 1;
    }
    places
}

pub open spec fn pointed(v: Seq<&Entry>) -> Seq<Entry> {
    Seq::new(v.len(), |i: int| *v[i])
}

/// The entries at these places.
pub open spec fn picked(all: Seq<Entry>, places: Seq<int>) -> Seq<Entry> {
    Seq::new(places.len(), |i: int| all[places[i]])
}

/// The entries that a prune keeps: the newest of each model, in the order of
/// time.
pub fn prune<'a>(all: &'a [Entry]) -> (r: Vec<&'a Entry>)
    ensures
        pointed(r@) == picked(all@, pruned(all@, all@.len() as int)),
{
    let places = prune_places(all);
    let ghost want = pruned(all@, all@.len() as int);
    let mut out: Vec<&'a Entry> = Vec::new();
    let mut i: usize = 0;
    while i < places.len()
        invariant
            i <= places.len(),
            ints(places@) == want,
            forall|k: int| 0 <= k < places@.len() ==> (#[trigger] places@[k]) < all.len(),
            pointed(out@) == picked(all@, want).take(i as int),
        decreases places.len() - i,
    {
        let ghost sofar = pointed(out@);
        let e: &'a Entry = &all[places[i]];
        assert(want[i as int] == places@[i as int]);
        assert(*e == picked(all@, want)[i as int]);
        out.push(e);
        assert(pointed(out@) =~= sofar.push(*e));
        i += 1;
        assert(pointed(out@) =~= picked(all@, want).take(i as int));
    }
    assert(picked(all@, want).take(i as int) =~= picked(all@, want));
    out
}

/// A model's entries, newest first.
pub open spec fn newest_first(all: Seq<Entry>, model: Seq<char>) -> Seq<Entry>
    decreases all.len(),
{
    if all.len() == 0 {
        Seq::empty()
    } else {
        let before = newest_first(all.drop_last(), model);
        if all.last().model@ == model {
            seq![all.last()] + before
        } else {
            before
        }
    }
}

/// A model's entries, newest first — what the hover trails render.
pub fn for_model<'a>(all: &'a [Entry], model: &str) -> (r: Vec<&'a Entry>)
    ensures
        pointed(r@) == newest_first(all@, model@),
{
    let mut out: Vec<&'a Entry> = Vec::new();
    let mut i: usize = all.len();
    assert(all@.take(i as int) =~= all@);
    assert(pointed(out@) + newest_first(all@, model@) =~= newest_first(all@, model@));
    while i > 0
        invariant
            i <= all.len(),
            pointed(out@) + newest_first(all@.take(i as int), model@) == newest_first(
                all@,
                model@,
            ),
        decreases i,
    {
        let ghost t = all@.take(i as int);
        assert(t.drop_last() =~= all@.take(i - 1));
        assert(t.last() == all@[i - 1]);
        i -= 1;
        if same_text(all[i].model.as_str(), model) {
            let ghost sofar = pointed(out@);
            out.push(&all[i]);
            assert(pointed(out@) =~= sofar.push(all@[i as int]));
            assert(pointed(out@) + newest_first(all@.take(i as int), model@) =~= sofar + (seq![
                all@[i as int],
            ] + newest_first(all@.take(i as int), model@)));
        }
    }
    assert(all@.take(0) =~= Seq::empty());
    assert(pointed(out@) + newest_first(all@.take(0), model@) =~= pointed(out@));
    out
}

// ---------------------------------------------------------------- builds compared

/// One model's numbers on the current build vs the build before it —
/// the journal answering "what did the last rebuild actually do here?".
#[derive(Debug, Clone, PartialEq)]
pub struct BuildDelta {
    pub model: String,
    pub prev_build: u64,
    pub cur_build: u64,
    /// (previous, current) measured context — only when both builds were
    /// measured under the SAME args fingerprint (a config change between
    /// builds would confound the comparison; those models are skipped).
    pub ctx: Option<(u64, u64)>,
    /// (previous, current) llama-bench tg t/s — config-independent
    /// baselines, so no fingerprint gate.
    pub tg: Option<(i64, i64)>,
}

pub struct DeltaView {
    pub model: Seq<char>,
    pub prev_build: u64,
    pub cur_build: u64,
    pub ctx: Option<(u64, u64)>,
    pub tg: Option<(i64, i64)>,
}

impl View for BuildDelta {
    type V = DeltaView;

    open spec fn view(&self) -> DeltaView {
        DeltaView {
            model: self.model@,
            prev_build: self.prev_build,
            cur_build: self.cur_build,
            ctx: self.ctx,
            tg: self.tg,
        }
    }
}

pub open spec fn delta_views(v: Seq<BuildDelta>) -> Seq<DeltaView> {
    Seq::new(v.len(), |i: int| v[i]@)
}

/// The newest build in the journal.
pub open spec fn newest_build(all: Seq<Entry>) -> Option<u64>
    decreases all.len(),
{
    if all.len() == 0 {
        None
    } else {
        larger(newest_build(all.drop_last()), all.last().build)
    }
}

/// The larger of two numbers that may not be there.
pub open spec fn larger(a: Option<u64>, b: Option<u64>) -> Option<u64> {
    match (a, b) {
        (Some(x), Some(y)) => if x <= y {
            Some(y)
        } else {
            Some(x)
        },
        (Some(x), None) => Some(x),
        (None, b) => b,
    }
}

/// The entry tells of the model on a build, without an error.
pub open spec fn tells_of(e: Entry, model: Seq<char>) -> bool {
    e.model@ == model && e.build is Some && e.error is None
}

/// The newest build before `cur` that tells of the model.
pub open spec fn build_before(all: Seq<Entry>, model: Seq<char>, cur: u64) -> Option<u64>
    decreases all.len(),
{
    if all.len() == 0 {
        None
    } else {
        let e = all.last();
        larger(
            build_before(all.drop_last(), model, cur),
            if tells_of(e, model) && e.build->0 < cur {
                e.build
            } else {
                None
            },
        )
    }
}

/// The entry holds what is compared: a context, or a generation speed.
pub open spec fn holds(e: Entry, ctx: bool) -> bool {
    if ctx {
        e.n_ctx is Some
    } else {
        e.tg_tps is Some
    }
}

/// The newest entry of a model on a build that holds what is compared; of one
/// time the last.
pub open spec fn latest(all: Seq<Entry>, model: Seq<char>, build: u64, ctx: bool) -> Option<Entry>
    decreases all.len(),
{
    if all.len() == 0 {
        None
    } else {
        let e = all.last();
        let before = latest(all.drop_last(), model, build, ctx);
        if tells_of(e, model) && e.build == Some(build) && holds(e, ctx) && match before {
            Some(b) => e.when >= b.when,
            None => true,
        } {
            Some(e)
        } else {
            before
        }
    }
}

/// What the two builds say of a model's context, under one configuration.
pub open spec fn ctx_pair(all: Seq<Entry>, model: Seq<char>, prev: u64, cur: u64) -> Option<
    (u64, u64),
> {
    match (latest(all, model, prev, true), latest(all, model, cur, true)) {
        (Some(p), Some(c)) => if opt_text(p.args_fp) == opt_text(c.args_fp) && p.args_fp is Some {
            Some((p.n_ctx->0, c.n_ctx->0))
        } else {
            None
        },
        _ => None,
    }
}

/// What the two builds say of a model's generation speed.
pub open spec fn tg_pair(all: Seq<Entry>, model: Seq<char>, prev: u64, cur: u64) -> Option<
    (i64, i64),
> {
    match (latest(all, model, prev, false), latest(all, model, cur, false)) {
        (Some(p), Some(c)) => Some((p.tg_tps->0, c.tg_tps->0)),
        _ => None,
    }
}

/// How a model did on the newest build against the one before; nothing where
/// the two share no evidence.
pub open spec fn delta_of(all: Seq<Entry>, model: Seq<char>, cur: u64) -> Option<DeltaView> {
    match build_before(all, model, cur) {
        Some(prev) => {
            let ctx = ctx_pair(all, model, prev, cur);
            let tg = tg_pair(all, model, prev, cur);
            if ctx is Some || tg is Some {
                Some(DeltaView { model, prev_build: prev, cur_build: cur, ctx, tg })
            } else {
                None
            }
        },
        None => None,
    }
}

/// The models of the journal, in order, each once.
pub open spec fn models_in(all: Seq<Entry>) -> Seq<(Seq<char>, ())>
    decreases all.len(),
{
    if all.len() == 0 {
        Seq::empty()
    } else {
        put(models_in(all.drop_last()), all.last().model@, ())
    }
}

pub open spec fn deltas_among(all: Seq<Entry>, models: Seq<(Seq<char>, ())>, cur: u64) -> Seq<DeltaView>
    decreases models.len(),
{
    if models.len() == 0 {
        Seq::empty()
    } else {
        let before = deltas_among(all, models.drop_last(), cur);
        match delta_of(all, models.last().0, cur) {
            Some(d) => before.push(d),
            None => before,
        }
    }
}

pub open spec fn deltas_of(all: Seq<Entry>) -> Seq<DeltaView> {
    match newest_build(all) {
        Some(cur) => deltas_among(all, models_in(all), cur),
        None => Seq::empty(),
    }
}

fn max_of(a: Option<u64>, b: Option<u64>) -> (r: Option<u64>)
    ensures
        r == larger(a, b),
{
    match (a, b) {
        (Some(x), Some(y)) => if x <= y {
            Some(y)
        } else {
            Some(x)
        },
        (Some(x), None) => Some(x),
        (None, b) => b,
    }
}

fn find_newest_build(all: &[Entry]) -> (r: Option<u64>)
    ensures
        r == newest_build(all@),
{
    let mut best: Option<u64> = None;
    let mut i: usize = 0;
    while i < all.len()
        invariant
            i <= all.len(),
            best == newest_build(all@.take(i as int)),
        decreases all.len() - i,
    {
        assert(all@.take(i + 1).drop_last() =~= all@.take(i as int));
        assert(all@.take(i + 1).last() == all@[i as int]);
        best = max_of(best, all[i].build);
        i += 1;
    }
    assert(all@.take(i as int) =~= all@);
    best
}

fn speaks_of(e: &Entry, model: &str) -> (r: bool)
    ensures
        r == tells_of(*e, model@),
{
    same_text(e.model.as_str(), model) && e.build.is_some() && e.error.is_none()
}

fn find_build_before(all: &[Entry], model: &str, cur: u64) -> (r: Option<u64>)
    ensures
        r == build_before(all@, model@, cur),
{
    let mut best: Option<u64> = None;
    let mut i: usize = 0;
    while i < all.len()
        invariant
            i <= all.len(),
            best == build_before(all@.take(i as int), model@, cur),
        decreases all.len() - i,
    {
        assert(all@.take(i + 1).drop_last() =~= all@.take(i as int));
        assert(all@.take(i + 1).last() == all@[i as int]);
        if speaks_of(&all[i], model) {
            if let Some(b) = all[i].build {
                if b < cur {
                    best = max_of(best, Some(b));
                }
            }
        }
        i += 1;
    }
    assert(all@.take(i as int) =~= all@);
    best
}

fn find_latest<'a>(all: &'a [Entry], model: &str, build: u64, ctx: bool) -> (r: Option<&'a Entry>)
    ensures
        match r {
            Some(e) => latest(all@, model@, build, ctx) == Some(*e),
            None => latest(all@, model@, build, ctx) is None,
        },
{
    let mut best: Option<&'a Entry> = None;
    let mut i: usize = 0;
    while i < all.len()
        invariant
            i <= all.len(),
            match best {
                Some(e) => latest(all@.take(i as int), model@, build, ctx) == Some(*e),
                None => latest(all@.take(i as int), model@, build, ctx) is None,
            },
        decreases all.len() - i,
    {
        assert(all@.take(i + 1).drop_last() =~= all@.take(i as int));
        assert(all@.take(i + 1).last() == all@[i as int]);
        let e = &all[i];
        let here = match e.build {
            Some(b) => b == build,
            None => false,
        };
        let has = if ctx {
            e.n_ctx.is_some()
        } else {
            e.tg_tps.is_some()
        };
        let newer = match best {
            Some(b) => e.when >= b.when,
            None => true,
        };
        if speaks_of(e, model) && here && has && newer {
            best = Some(e);
        }
        i += 1;
    }
    assert(all@.take(i as int) =~= all@);
    best
}

proof fn lemma_latest(all: Seq<Entry>, model: Seq<char>, build: u64, ctx: bool)
    ensures
        match latest(all, model, build, ctx) {
            Some(e) => holds(e, ctx),
            None => true,
        },
    decreases all.len(),
{
    if all.len() > 0 {
        lemma_latest(all.drop_last(), model, build, ctx);
    }
}

fn compare_builds(all: &[Entry], model: &str, cur: u64) -> (r: Option<BuildDelta>)
    ensures
        match r {
            Some(d) => delta_of(all@, model@, cur) == Some(d@),
            None => delta_of(all@, model@, cur) is None,
        },
{
    let prev = match find_build_before(all, model, cur) {
        Some(b) => b,
        None => {
            return None;
        },
    };
    proof {
        lemma_latest(all@, model@, prev, true);
        lemma_latest(all@, model@, cur, true);
        lemma_latest(all@, model@, prev, false);
        lemma_latest(all@, model@, cur, false);
    }
    let ctx = match (find_latest(all, model, prev, true), find_latest(all, model, cur, true)) {
        (Some(p), Some(c)) => {
            let same = match (&p.args_fp, &c.args_fp) {
                (Some(x), Some(y)) => same_text(x.as_str(), y.as_str()),
                _ => false,
            };
            match (same, p.n_ctx, c.n_ctx) {
                (true, Some(x), Some(y)) => Some((x, y)),
                _ => None,
            }
        },
        _ => None,
    };
    let tg = match (find_latest(all, model, prev, false), find_latest(all, model, cur, false)) {
        (Some(p), Some(c)) => match (p.tg_tps, c.tg_tps) {
            (Some(x), Some(y)) => Some((x, y)),
            _ => None,
        },
        _ => None,
    };
    assert(ctx == ctx_pair(all@, model@, prev, cur));
    assert(tg == tg_pair(all@, model@, prev, cur));
    if ctx.is_some() || tg.is_some() {
        Some(BuildDelta { model: copy_text(model), prev_build: prev, cur_build: cur, ctx, tg })
    } else {
        None
    }
}

fn list_models(all: &[Entry]) -> (r: TextSet)
    ensures
        r@ == models_in(all@),
{
    let mut out: TextSet = TextMap::new();
    let mut i: usize = 0;
    while i < all.len()
        invariant
            i <= all.len(),
            out@ == models_in(all@.take(i as int)),
        decreases all.len() - i,
    {
        assert(all@.take(i + 1).drop_last() =~= all@.take(i as int));
        assert(all@.take(i + 1).last() == all@[i as int]);
        out.insert(all[i].model.clone(), ());
        i += 1;
    }
    assert(all@.take(i as int) =~= all@);
    out
}

/// Compare each model's newest numbers on the newest build in the journal
/// against its newest numbers on the build seen just before it. Models
/// measured on only one build produce nothing — advice never extrapolates.
pub fn build_deltas(all: &[Entry]) -> (r: Vec<BuildDelta>)
    ensures
        delta_views(r@) == deltas_of(all@),
{
    let mut out: Vec<BuildDelta> = Vec::new();
    assert(delta_views(out@) =~= Seq::empty());
    let cur = match find_newest_build(all) {
        Some(b) => b,
        None => {
            return out;
        },
    };
    let models = list_models(all);
    let ghost names = models_in(all@);
    let mut i: usize = 0;
    assert(names.take(0) =~= Seq::empty());
    while i < models.len()
        invariant
            i <= models@.len(),
            models@ == names,
            delta_views(out@) == deltas_among(all@, names.take(i as int), cur),
        decreases models@.len() - i,
    {
        assert(names.take(i + 1).drop_last() =~= names.take(i as int));
        assert(names.take(i + 1).last() == names[i as int]);
        if let Some(d) = compare_builds(all, models.key_at(i).as_str(), cur) {
            let ghost sofar = delta_views(out@);
            out.push(d);
            assert(delta_views(out@) =~= sofar.push(d@));
        }
        i += 1;
    }
    assert(names.take(i as int) =~= names);
    out
}

// ------------------------------------------------------------------ the advisory

/// How many comparisons are against a build.
pub open spec fn count_prev(ds: Seq<DeltaView>, prev: u64) -> nat
    decreases ds.len(),
{
    if ds.len() == 0 {
        0
    } else {
        count_prev(ds.drop_last(), prev) + if ds.last().prev_build == prev {
            1nat
        } else {
            0nat
        }
    }
}

/// The build is compared against more often; as often, it is the newer one.
pub open spec fn leads(ds: Seq<DeltaView>, a: u64, b: u64) -> bool {
    count_prev(ds, a) > count_prev(ds, b) || (count_prev(ds, a) == count_prev(ds, b) && a >= b)
}

/// The build that is compared against most often, of those of the first `k`
/// comparisons.
pub open spec fn lead_of(ds: Seq<DeltaView>, k: int) -> Option<u64>
    decreases k,
{
    if k <= 0 || k > ds.len() {
        None
    } else {
        let p = ds[k - 1].prev_build;
        match lead_of(ds, k - 1) {
            Some(b) => if leads(ds, p, b) {
                Some(p)
            } else {
                Some(b)
            },
            None => Some(p),
        }
    }
}

/// The comparisons against a build.
pub open spec fn against(ds: Seq<DeltaView>, prev: u64) -> Seq<DeltaView>
    decreases ds.len(),
{
    if ds.len() == 0 {
        Seq::empty()
    } else {
        let before = against(ds.drop_last(), prev);
        if ds.last().prev_build == prev {
            before.push(ds.last())
        } else {
            before
        }
    }
}

/// The pair that is compared: contexts, or generation speeds.
pub open spec fn pair_of(d: DeltaView, ctx: bool) -> Option<(i128, i128)> {
    if ctx {
        match d.ctx {
            Some((p, c)) => Some((p as i128, c as i128)),
            None => None,
        }
    } else {
        match d.tg {
            Some((p, c)) => Some((p as i128, c as i128)),
            None => None,
        }
    }
}

/// The pairs that the comparisons tell, as far as there is a ratio.
pub open spec fn told_pairs(ds: Seq<DeltaView>, ctx: bool) -> Seq<(i128, i128)>
    decreases ds.len(),
{
    if ds.len() == 0 {
        Seq::empty()
    } else {
        let before = told_pairs(ds.drop_last(), ctx);
        match pair_of(ds.last(), ctx) {
            Some(p) => if p.0 > 0 {
                before.push(p)
            } else {
                before
            },
            None => before,
        }
    }
}

/// The average change in words.
pub open spec fn average_text(label: Seq<char>, v: Seq<(i128, i128)>) -> Seq<char> {
    label + mean_percent(v) + "% avg ("@ + dec(v.len())
        + " model"@ + (if v.len() == 1 {
        ""@
    } else {
        "s"@
    }) + ")"@
}

/// The first pair lost more of what it was than the second.
pub open spec fn lost_more(a: (u64, u64), b: (u64, u64)) -> bool {
    a.1 * b.0 < b.1 * a.0
}

/// The comparison with the largest loss of context; of equal ones the first.
pub open spec fn worst_of(ds: Seq<DeltaView>) -> Option<(Seq<char>, (u64, u64))>
    decreases ds.len(),
{
    if ds.len() == 0 {
        None
    } else {
        let before = worst_of(ds.drop_last());
        match ds.last().ctx {
            Some(p) => if p.0 > 0 && match before {
                Some(b) => lost_more(p, b.1),
                None => true,
            } {
                Some((ds.last().model, p))
            } else {
                before
            },
            None => before,
        }
    }
}

/// What is said of the worst loss, where it is at least 5%.
pub open spec fn worst_text(ds: Seq<DeltaView>) -> Seq<char> {
    match worst_of(ds) {
        Some((model, (p, c))) => if c * 100 <= p * 95 {
            "; worst: "@ + model + " "@ + signed0((c - p) * 100, p as nat) + "% context"@
        } else {
            ""@
        },
        None => ""@,
    }
}

/// What the comparisons against one build come to.
pub open spec fn advisory_against(ds: Seq<DeltaView>) -> Option<Seq<char>> {
    let ctx = told_pairs(ds, true);
    let tg = told_pairs(ds, false);
    if ctx.len() == 0 && tg.len() == 0 {
        None
    } else {
        let parts = (if ctx.len() > 0 {
            seq![average_text("context "@, ctx)]
        } else {
            Seq::empty()
        }) + (if tg.len() > 0 {
            seq![average_text("generation "@, tg)]
        } else {
            Seq::empty()
        });
        Some(
            "b"@ + dec(ds[0].cur_build as nat) + " vs b"@ + dec(ds[0].prev_build as nat) + ": "@
                + join(parts, ", "@) + worst_text(ds),
        )
    }
}

/// Only comparisons that share ONE pair of builds are averaged — a model
/// whose previous build differs would fold multi-release drift into a line
/// labeled as a single rebuild. The most-observed pair wins the headline.
pub open spec fn advisory_of(ds: Seq<DeltaView>) -> Option<Seq<char>> {
    match lead_of(ds, ds.len() as int) {
        Some(p) => advisory_against(against(ds, p)),
        None => None,
    }
}

fn count_against(ds: &[BuildDelta], prev: u64) -> (r: usize)
    ensures
        r as nat == count_prev(delta_views(ds@), prev),
{
    let ghost all = delta_views(ds@);
    let mut n: usize = 0;
    let mut i: usize = 0;
    assert(all.take(0) =~= Seq::empty());
    while i < ds.len()
        invariant
            i <= ds.len(),
            n <= i,
            all == delta_views(ds@),
            n as nat == count_prev(all.take(i as int), prev),
        decreases ds.len() - i,
    {
        assert(all.take(i + 1).drop_last() =~= all.take(i as int));
        assert(all.take(i + 1).last() == ds@[i as int]@);
        if ds[i].prev_build == prev {
            n += 1;
        }
        i += 1;
    }
    assert(all.take(i as int) =~= all);
    n
}

fn find_lead(ds: &[BuildDelta]) -> (r: Option<u64>)
    ensures
        r == lead_of(delta_views(ds@), ds@.len() as int),
{
    let ghost all = delta_views(ds@);
    let mut best: Option<u64> = None;
    let mut i: usize = 0;
    while i < ds.len()
        invariant
            i <= ds.len(),
            all == delta_views(ds@),
            best == lead_of(all, i as int),
        decreases ds.len() - i,
    {
        assert(all[i as int] == ds@[i as int]@);
        let p = ds[i].prev_build;
        best = match best {
            Some(b) => {
                let x = count_against(ds, p);
                let y = count_against(ds, b);
                if x > y || (x == y && p >= b) {
                    Some(p)
                } else {
                    Some(b)
                }
            },
            None => Some(p),
        };
        i += 1;
    }
    best
}

fn copy_delta(d: &BuildDelta) -> (r: BuildDelta)
    ensures
        r@ == d@,
{
    BuildDelta {
        model: d.model.clone(),
        prev_build: d.prev_build,
        cur_build: d.cur_build,
        ctx: d.ctx,
        tg: d.tg,
    }
}

fn keep_against(ds: &[BuildDelta], prev: u64) -> (r: Vec<BuildDelta>)
    ensures
        delta_views(r@) == against(delta_views(ds@), prev),
{
    let ghost all = delta_views(ds@);
    let mut out: Vec<BuildDelta> = Vec::new();
    let mut i: usize = 0;
    assert(all.take(0) =~= Seq::empty());
    assert(delta_views(out@) =~= Seq::empty());
    while i < ds.len()
        invariant
            i <= ds.len(),
            all == delta_views(ds@),
            delta_views(out@) == against(all.take(i as int), prev),
        decreases ds.len() - i,
    {
        assert(all.take(i + 1).drop_last() =~= all.take(i as int));
        assert(all.take(i + 1).last() == ds@[i as int]@);
        if ds[i].prev_build == prev {
            let ghost sofar = delta_views(out@);
            let d = copy_delta(&ds[i]);
            out.push(d);
            assert(delta_views(out@) =~= sofar.push(d@));
        }
        i += 1;
    }
    assert(all.take(i as int) =~= all);
    out
}

/// The pairs that the comparisons tell, as far as there is a ratio.
fn collect_pairs(ds: &[BuildDelta], ctx: bool) -> (r: Vec<(i128, i128)>)
    ensures
        r@ == told_pairs(delta_views(ds@), ctx),
        all_based(r@),
        all_bounded(r@),
{
    let ghost all = delta_views(ds@);
    let mut out: Vec<(i128, i128)> = Vec::new();
    let mut i: usize = 0;
    assert(all.take(0) =~= Seq::empty());
    while i < ds.len()
        invariant
            i <= ds.len(),
            all == delta_views(ds@),
            out@ == told_pairs(all.take(i as int), ctx),
            all_based(out@),
            all_bounded(out@),
        decreases ds.len() - i,
    {
        assert(all.take(i + 1).drop_last() =~= all.take(i as int));
        assert(all.take(i + 1).last() == ds@[i as int]@);
        let pair: Option<(i128, i128)> = if ctx {
            match ds[i].ctx {
                Some((p, c)) => Some((p as i128, c as i128)),
                None => None,
            }
        } else {
            match ds[i].tg {
                Some((p, c)) => Some((p as i128, c as i128)),
                None => None,
            }
        };
        if let Some(p) = pair {
            if p.0 > 0 {
                out.push(p);
            }
        }
        i += 1;
    }
    assert(all.take(i as int) =~= all);
    out
}

fn say_average(label: &str, v: &[(i128, i128)]) -> (r: String)
    requires
        v@.len() > 0,
        all_based(v@),
        all_bounded(v@),
    ensures
        r@ == average_text(label@, v@),
{
    let mut s = copy_text(label);
    s.append(mean_percent_text(v).as_str());
    s.append("% avg (");
    s.append(dec_len(v.len()).as_str());
    s.append(" model");
    if v.len() == 1 {
        s.append("");
    } else {
        s.append("s");
    }
    s.append(")");
    s
}

fn loses_more(a: (u64, u64), b: (u64, u64)) -> (r: bool)
    ensures
        r == lost_more(a, b),
{
    assert(a.1 * b.0 <= 0xffff_ffff_ffff_ffff * 0xffff_ffff_ffff_ffff && b.1 * a.0
        <= 0xffff_ffff_ffff_ffff * 0xffff_ffff_ffff_ffff) by (nonlinear_arith)
        requires
            a.0 <= u64::MAX,
            a.1 <= u64::MAX,
            b.0 <= u64::MAX,
            b.1 <= u64::MAX,
    ;
    (a.1 as u128 * b.0 as u128) < (b.1 as u128 * a.0 as u128)
}

fn find_worst(ds: &[BuildDelta]) -> (r: Option<(String, (u64, u64))>)
    ensures
        match r {
            Some(w) => worst_of(delta_views(ds@)) == Some((w.0@, w.1)) && w.1.0 > 0,
            None => worst_of(delta_views(ds@)) is None,
        },
{
    let ghost all = delta_views(ds@);
    let mut best: Option<(String, (u64, u64))> = None;
    let mut i: usize = 0;
    assert(all.take(0) =~= Seq::empty());
    while i < ds.len()
        invariant
            i <= ds.len(),
            all == delta_views(ds@),
            match best {
                Some(w) => worst_of(all.take(i as int)) == Some((w.0@, w.1)) && w.1.0 > 0,
                None => worst_of(all.take(i as int)) is None,
            },
        decreases ds.len() - i,
    {
        assert(all.take(i + 1).drop_last() =~= all.take(i as int));
        assert(all.take(i + 1).last() == ds@[i as int]@);
        if let Some(p) = ds[i].ctx {
            if p.0 > 0 {
                let worse = match &best {
                    Some(b) => loses_more(p, b.1),
                    None => true,
                };
                if worse {
                    best = Some((ds[i].model.clone(), p));
                }
            }
        }
        i += 1;
    }
    assert(all.take(i as int) =~= all);
    best
}

/// The advisory of comparisons against one build.
fn advise_against(ds: &[BuildDelta]) -> (r: Option<String>)
    ensures
        opt_text(r) == advisory_against(delta_views(ds@)),
{
    let ghost v = delta_views(ds@);
    let ctx = collect_pairs(ds, true);
    let tg = collect_pairs(ds, false);
    if ctx.len() == 0 && tg.len() == 0 {
        return None;
    }
    assert(v[0] == ds@[0]@);
    let ghost first: Seq<Seq<char>> = if ctx.len() > 0 {
        seq![average_text("context "@, ctx@)]
    } else {
        Seq::empty()
    };
    let ghost second: Seq<Seq<char>> = if tg.len() > 0 {
        seq![average_text("generation "@, tg@)]
    } else {
        Seq::empty()
    };
    let mut parts: Vec<String> = Vec::new();
    assert(texts(parts@) =~= Seq::empty());
    if ctx.len() > 0 {
        parts.push(say_average("context ", &ctx));
    }
    assert(texts(parts@) =~= first);
    if tg.len() > 0 {
        let ghost sofar = parts@;
        let t = say_average("generation ", &tg);
        parts.push(t);
        proof {
            lemma_texts_push(sofar, t);
        }
    }
    assert(texts(parts@) =~= first + second);
    let mut worst = String::new();
    assert(worst@ =~= ""@) by {
        reveal_strlit("");
    }
    if let Some(w) = find_worst(ds) {
        let (p, c) = w.1;
        if c as u128 * 100 <= p as u128 * 95 {
            worst = copy_text("; worst: ");
            worst.append(w.0.as_str());
            worst.append(" ");
            worst.append(signed0_text((c as i128 - p as i128) * 100, p as u128).as_str());
            worst.append("% context");
        }
    }
    assert(worst@ == worst_text(v));
    let mut s = copy_text("b");
    s.append(dec_text(ds[0].cur_build).as_str());
    s.append(" vs b");
    s.append(dec_text(ds[0].prev_build).as_str());
    s.append(": ");
    s.append(join_texts(&parts, ", ").as_str());
    s.append(worst.as_str());
    Some(s)
}

/// The fleet-level one-liner for the Server tab and findings report:
/// what the newest build cost or bought vs the one before, averaged over
/// the models measured on both. None until two builds share evidence.
pub fn build_advisory(all: &[Entry]) -> (r: Option<String>)
    ensures
        opt_text(r) == advisory_of(deltas_of(all@)),
{
    let ds = build_deltas(all);
    let p = match find_lead(&ds) {
        Some(p) => p,
        None => {
            return None;
        },
    };
    let same = keep_against(&ds, p);
    advise_against(&same)
}

// ------------------------------------------------------------------------- laws

/// A comparison never extrapolates: it is between the newest build and an
/// older one, and its contexts were measured under one configuration.
pub proof fn comparisons_share_their_evidence(all: Seq<Entry>, model: Seq<char>, cur: u64)
    requires
        delta_of(all, model, cur) is Some,
    ensures
        ({
            let d = delta_of(all, model, cur)->0;
            &&& d.cur_build == cur
            &&& d.prev_build < cur
            &&& d.ctx is Some ==> {
                let p = latest(all, model, d.prev_build, true);
                let c = latest(all, model, cur, true);
                &&& p is Some && c is Some
                &&& p->0.args_fp is Some
                &&& opt_text(p->0.args_fp) == opt_text(c->0.args_fp)
            }
        }),
{
    lemma_build_before(all, model, cur);
}

proof fn lemma_build_before(all: Seq<Entry>, model: Seq<char>, cur: u64)
    ensures
        match build_before(all, model, cur) {
            Some(b) => b < cur,
            None => true,
        },
    decreases all.len(),
{
    if all.len() > 0 {
        lemma_build_before(all.drop_last(), model, cur);
    }
}

/// A prune keeps the newest entry of every model.
pub proof fn pruning_keeps_the_newest(all: Seq<Entry>, i: int)
    requires
        0 <= i < all.len(),
        forall|k: int| i < k < all.len() ==> (#[trigger] all[k]).model@ != all[i].model@,
    ensures
        kept(all, i),
        pruned(all, all.len() as int).contains(i),
{
    lemma_none_later(all, i, all.len() as int);
    pruning_keeps_exactly_the_newest_of_each_model(all, all.len() as int, i);
}

proof fn lemma_none_later(all: Seq<Entry>, i: int, to: int)
    requires
        0 <= i < to <= all.len(),
        forall|k: int| i < k < all.len() ==> (#[trigger] all[k]).model@ != all[i].model@,
    ensures
        later(all, i, to) == 0,
    decreases to - i,
{
    if to > i + 1 {
        lemma_none_later(all, i, to - 1);
        assert(all[to - 1].model@ != all[i].model@);
    }
}

/// The pruned journal holds exactly the entries that are among the newest of
/// their model.
pub proof fn pruning_keeps_exactly_the_newest_of_each_model(all: Seq<Entry>, n: int, i: int)
    requires
        0 <= n <= all.len(),
    ensures
        pruned(all, n).contains(i) <==> 0 <= i < n && kept(all, i),
    decreases n,
{
    if n > 0 {
        pruning_keeps_exactly_the_newest_of_each_model(all, n - 1, i);
        let before = pruned(all, n - 1);
        let now = pruned(all, n);
        if kept(all, n - 1) {
            let at = slot(all, before, n - 1);
            lemma_slot(all, before, n - 1);
            assert(now == before.insert(at, n - 1));
            assert(now[at] == n - 1);
            if before.contains(i) {
                let k = before.index_of(i);
                assert(before[k] == i);
                if k < at {
                    assert(now[k] == i);
                } else {
                    assert(now[k + 1] == i);
                }
            }
            if now.contains(i) {
                let k = now.index_of(i);
                assert(now[k] == i);
                if k < at {
                    assert(before[k] == i);
                } else if k > at {
                    assert(before[k - 1] == i);
                }
            }
        }
    }
}

/// How many entries are of a model.
pub open spec fn entries_of(all: Seq<Entry>, model: Seq<char>) -> nat
    decreases all.len(),
{
    if all.len() == 0 {
        0
    } else {
        entries_of(all.drop_last(), model) + if all.last().model@ == model {
            1nat
        } else {
            0nat
        }
    }
}

/// A prune keeps an entry just where fewer than fifty newer ones are of its model.
pub proof fn fifty_entries_of_a_model_are_kept(all: Seq<Entry>, i: int)
    requires
        0 <= i < all.len(),
    ensures
        pruned(all, all.len() as int).contains(i) <==> entries_of(all.skip(i + 1), all[i].model@)
            < 50,
{
    pruning_keeps_exactly_the_newest_of_each_model(all, all.len() as int, i);
    lemma_later_ones(all, i, all.len() as int);
    assert(all.subrange(i + 1, all.len() as int) =~= all.skip(i + 1));
}

proof fn lemma_later_ones(all: Seq<Entry>, i: int, to: int)
    requires
        0 <= i < to <= all.len(),
    ensures
        later(all, i, to) == entries_of(all.subrange(i + 1, to), all[i].model@),
    decreases to - i,
{
    let s = all.subrange(i + 1, to);
    if to > i + 1 {
        lemma_later_ones(all, i, to - 1);
        assert(s.drop_last() =~= all.subrange(i + 1, to - 1));
        assert(s.last() == all[to - 1]);
    }
}

/// A model's entries are those of the journal that are of it, the last one first.
pub proof fn the_newest_entry_comes_first(all: Seq<Entry>, model: Seq<char>)
    ensures
        newest_first(all, model) == all.filter(|e: Entry| e.model@ == model).reverse(),
    decreases all.len(),
{
    let f = |e: Entry| e.model@ == model;
    reveal(Seq::filter);
    if all.len() > 0 {
        the_newest_entry_comes_first(all.drop_last(), model);
        let before = all.drop_last().filter(f);
        if f(all.last()) {
            assert(all.filter(f) == before.push(all.last()));
            assert(before.push(all.last()).reverse() =~= seq![all.last()] + before.reverse());
        }
    }
}

/// The newest build is in the journal, and no entry is of a newer one.
pub proof fn no_build_is_newer_than_the_newest(all: Seq<Entry>)
    ensures
        match newest_build(all) {
            Some(b) => {
                &&& exists|i: int| 0 <= i < all.len() && (#[trigger] all[i]).build == Some(b)
                &&& forall|i: int|
                    0 <= i < all.len() && (#[trigger] all[i]).build is Some ==> all[i].build->0 <= b
            },
            None => forall|i: int| 0 <= i < all.len() ==> (#[trigger] all[i]).build is None,
        },
    decreases all.len(),
{
    if all.len() > 0 {
        let s = all.drop_last();
        no_build_is_newer_than_the_newest(s);
        assert(all[all.len() - 1] == all.last());
        if newest_build(s) is Some {
            let b = newest_build(s)->0;
            let i = choose|i: int| 0 <= i < s.len() && (#[trigger] s[i]).build == Some(b);
            assert(all[i].build == Some(b));
        }
        assert forall|i: int| 0 <= i < all.len() && (#[trigger] all[i]).build is Some implies
            newest_build(all) is Some && all[i].build->0 <= newest_build(all)->0 by {
            if i < s.len() {
                assert(s[i] == all[i]);
            }
        }
    }
}

/// The entry tells of the model without an error, on a build before `cur`.
pub open spec fn tells_before(e: Entry, model: Seq<char>, cur: u64) -> bool {
    e.model@ == model && e.error is None && e.build is Some && e.build->0 < cur
}

/// A build is compared with the newest one before it that tells of the model; entries with
/// an error, and other models' entries, are not compared with.
pub proof fn the_build_before_is_the_nearest(all: Seq<Entry>, model: Seq<char>, cur: u64)
    ensures
        match build_before(all, model, cur) {
            Some(b) => {
                &&& exists|i: int|
                    0 <= i < all.len() && tells_before(#[trigger] all[i], model, cur)
                        && all[i].build == Some(b)
                &&& forall|i: int|
                    0 <= i < all.len() && tells_before(#[trigger] all[i], model, cur)
                        ==> all[i].build->0 <= b
            },
            None => forall|i: int|
                0 <= i < all.len() ==> !tells_before(#[trigger] all[i], model, cur),
        },
    decreases all.len(),
{
    if all.len() > 0 {
        let s = all.drop_last();
        the_build_before_is_the_nearest(s, model, cur);
        assert(all[all.len() - 1] == all.last());
        if build_before(s, model, cur) is Some {
            let b = build_before(s, model, cur)->0;
            let i = choose|i: int|
                0 <= i < s.len() && tells_before(#[trigger] s[i], model, cur) && s[i].build
                    == Some(b);
            assert(tells_before(all[i], model, cur) && all[i].build == Some(b));
        }
        assert forall|i: int| 0 <= i < all.len() && tells_before(#[trigger] all[i], model, cur) implies
            build_before(all, model, cur) is Some && all[i].build->0 <= build_before(
            all,
            model,
            cur,
        )->0 by {
            if i < s.len() {
                assert(s[i] == all[i]);
            }
        }
    }
}

/// The entry tells of the model on a build without an error, and of its context or its
/// generation speed.
pub open spec fn tells_figure(e: Entry, model: Seq<char>, build: u64, ctx: bool) -> bool {
    &&& e.model@ == model
    &&& e.error is None
    &&& e.build == Some(build)
    &&& ctx ==> e.n_ctx is Some
    &&& !ctx ==> e.tg_tps is Some
}

/// What a build says of a model is what its newest entry without an error says, and of
/// those with one time the last.
pub proof fn the_latest_entry_speaks(all: Seq<Entry>, model: Seq<char>, build: u64, ctx: bool)
    ensures
        match latest(all, model, build, ctx) {
            Some(e) => exists|i: int|
                0 <= i < all.len() && #[trigger] all[i] == e && tells_figure(e, model, build, ctx) && (
                forall|k: int|
                    0 <= k < all.len() && tells_figure(#[trigger] all[k], model, build, ctx) ==> (
                    all[k].when < e.when || all[k].when == e.when && k <= i)),
            None => forall|k: int|
                0 <= k < all.len() ==> !tells_figure(#[trigger] all[k], model, build, ctx),
        },
    decreases all.len(),
{
    if all.len() > 0 {
        let s = all.drop_last();
        let n = all.len() - 1;
        the_latest_entry_speaks(s, model, build, ctx);
        assert(all[n] == all.last());
        let before = latest(s, model, build, ctx);
        let now = latest(all, model, build, ctx);
        if before is Some {
            let e = before->0;
            let i = choose|i: int|
                0 <= i < s.len() && #[trigger] s[i] == e && tells_figure(e, model, build, ctx) && (
                forall|k: int|
                    0 <= k < s.len() && tells_figure(#[trigger] s[k], model, build, ctx) ==> (
                    s[k].when < e.when || s[k].when == e.when && k <= i));
            assert(all[i] == e);
            assert forall|k: int|
                0 <= k < all.len() && tells_figure(#[trigger] all[k], model, build, ctx) implies (
            if now == Some(e) && all[n] != e {
                all[k].when < e.when || all[k].when == e.when && k <= i
            } else {
                true
            }) by {
                if k < n {
                    assert(s[k] == all[k]);
                }
            }
            if tells_figure(all[n], model, build, ctx) && all[n].when >= e.when {
                assert forall|k: int|
                    0 <= k < all.len() && tells_figure(#[trigger] all[k], model, build, ctx) implies (
                all[k].when < all[n].when || all[k].when == all[n].when && k <= n) by {
                    if k < n {
                        assert(s[k] == all[k]);
                    }
                }
            } else {
                assert(now == Some(e));
                assert forall|k: int|
                    0 <= k < all.len() && tells_figure(#[trigger] all[k], model, build, ctx) implies (
                all[k].when < e.when || all[k].when == e.when && k <= i) by {
                    if k < n {
                        assert(s[k] == all[k]);
                    }
                }
            }
        } else {
            assert forall|k: int| 0 <= k < n implies !tells_figure(
                #[trigger] all[k],
                model,
                build,
                ctx,
            ) by {
                assert(s[k] == all[k]);
            }
        }
    }
}

/// The context that a comparison starts from, and the one that it comes to.
pub open spec fn context_was(d: DeltaView) -> int {
    match d.ctx {
        Some((p, _)) => p as int,
        None => 0,
    }
}

pub open spec fn context_is(d: DeltaView) -> int {
    match d.ctx {
        Some((_, c)) => c as int,
        None => 0,
    }
}

spec fn lost(ds: Seq<DeltaView>) -> (int, int) {
    match worst_of(ds) {
        Some((_, (p, c))) => (p as int, c as int),
        None => (0, 0),
    }
}

/// The worst loss is one of those compared, and none lost more of what it was.
pub proof fn nothing_lost_more_than_the_worst(ds: Seq<DeltaView>)
    ensures
        match worst_of(ds) {
            Some((model, (p, c))) => {
                &&& p > 0
                &&& exists|i: int|
                    0 <= i < ds.len() && (#[trigger] ds[i]).model == model && ds[i].ctx == Some((p, c))
                &&& forall|i: int|
                    0 <= i < ds.len() && (#[trigger] ds[i]).ctx is Some && context_was(ds[i]) > 0 ==> c
                        * context_was(ds[i]) <= context_is(ds[i]) * p
            },
            None => forall|i: int|
                0 <= i < ds.len() && (#[trigger] ds[i]).ctx is Some ==> context_was(ds[i]) == 0,
        },
    decreases ds.len(),
{
    if ds.len() > 0 {
        let s = ds.drop_last();
        let n = ds.len() - 1;
        nothing_lost_more_than_the_worst(s);
        assert(ds[n] == ds.last());
        let before = worst_of(s);
        let now = worst_of(ds);
        if before is Some {
            let (model, (p, c)) = before->0;
            let i = choose|i: int|
                0 <= i < s.len() && (#[trigger] s[i]).model == model && s[i].ctx == Some((p, c));
            assert(ds[i].model == model && ds[i].ctx == Some((p, c)));
        }
        assert forall|i: int|
            0 <= i < ds.len() && (#[trigger] ds[i]).ctx is Some && context_was(ds[i]) > 0 implies now is Some
            && lost(ds).1 * context_was(ds[i]) <= context_is(ds[i]) * lost(ds).0 by {
            let x = (context_was(ds[i]), context_is(ds[i]));
            if i < n {
                assert(s[i] == ds[i]);
                let b = lost(s);
                let l = lost(ds);
                if now != before {
                    assert(l.1 * x.0 <= x.1 * l.0) by (nonlinear_arith)
                        requires
                            b.1 * x.0 <= x.1 * b.0,
                            l.1 * b.0 < b.1 * l.0,
                            b.0 > 0,
                            x.0 > 0,
                            l.0 > 0,
                            x.1 >= 0,
                            l.1 >= 0,
                            b.1 >= 0,
                    ;
                }
            } else if now == before {
                let b = lost(s);
                assert(b.1 * x.0 <= x.1 * b.0);
            } else {
                assert(x.1 * x.0 == x.1 * x.0);
            }
        }
    }
}

/// A loss is told as the worst just where some model lost at least five hundredths of its
/// context.
pub proof fn a_twentieth_lost_is_told(ds: Seq<DeltaView>)
    ensures
        worst_text(ds).len() > 0 <==> exists|i: int|
            0 <= i < ds.len() && (#[trigger] ds[i]).ctx is Some && context_was(ds[i]) > 0
                && context_is(ds[i]) * 100 <= context_was(ds[i]) * 95,
{
    nothing_lost_more_than_the_worst(ds);
    reveal_strlit("; worst: ");
    reveal_strlit("");
    match worst_of(ds) {
        Some((model, (p, c))) => {
            if c * 100 <= p * 95 {
                let i = choose|i: int|
                    0 <= i < ds.len() && (#[trigger] ds[i]).model == model && ds[i].ctx == Some(
                        (p, c),
                    );
                assert(ds[i].ctx->0 == (p, c));
            } else {
                assert forall|i: int|
                    0 <= i < ds.len() && (#[trigger] ds[i]).ctx is Some && context_was(ds[i])
                        > 0 implies context_is(ds[i]) * 100 > context_was(ds[i]) * 95 by {
                    let x = (context_was(ds[i]), context_is(ds[i]));
                    assert(x.1 * 100 > x.0 * 95) by (nonlinear_arith)
                        requires
                            c * x.0 <= x.1 * p,
                            c * 100 > p * 95,
                            p > 0,
                            x.0 > 0,
                    ;
                }
            }
        },
        None => {},
    }
}

/// The comparison that makes the headline is against a build that as many comparisons are
/// against as any other.
pub proof fn the_headline_is_the_most_compared(ds: Seq<DeltaView>, k: int)
    requires
        0 <= k <= ds.len(),
    ensures
        match lead_of(ds, k) {
            Some(b) => {
                &&& exists|i: int| 0 <= i < k && (#[trigger] ds[i]).prev_build == b
                &&& forall|i: int|
                    0 <= i < k ==> count_prev(ds, (#[trigger] ds[i]).prev_build) < count_prev(ds, b)
                        || count_prev(ds, ds[i].prev_build) == count_prev(ds, b)
                        && ds[i].prev_build <= b
            },
            None => k == 0,
        },
    decreases k,
{
    if k > 0 {
        the_headline_is_the_most_compared(ds, k - 1);
        assert(ds[k - 1].prev_build == ds[k - 1].prev_build);
        if lead_of(ds, k - 1) is Some {
            let b = lead_of(ds, k - 1)->0;
            let i = choose|i: int| 0 <= i < k - 1 && (#[trigger] ds[i]).prev_build == b;
            assert(ds[i].prev_build == b);
        }
    }
}

/// Only comparisons against the one build are put together, and all of them.
pub proof fn only_one_build_is_compared_against(ds: Seq<DeltaView>, prev: u64)
    ensures
        against(ds, prev) == ds.filter(|d: DeltaView| d.prev_build == prev),
        against(ds, prev).len() == count_prev(ds, prev),
    decreases ds.len(),
{
    reveal(Seq::filter);
    if ds.len() > 0 {
        only_one_build_is_compared_against(ds.drop_last(), prev);
    }
}

/// Two builds that both tell of a model's context under the same arguments are compared by
/// it, and by the speeds that both tell of.
pub proof fn what_both_builds_tell_is_compared(
    all: Seq<Entry>,
    model: Seq<char>,
    cur: u64,
    prev: u64,
    p: Entry,
    c: Entry,
)
    requires
        build_before(all, model, cur) == Some(prev),
    ensures
        latest(all, model, prev, true) == Some(p) && latest(all, model, cur, true) == Some(c)
            && p.args_fp is Some && c.args_fp is Some && p.args_fp->0@ == c.args_fp->0@ ==> delta_of(
            all,
            model,
            cur,
        ) is Some && delta_of(all, model, cur)->0.ctx == Some((p.n_ctx->0, c.n_ctx->0)),
        latest(all, model, prev, false) == Some(p) && latest(all, model, cur, false) == Some(c)
            ==> delta_of(all, model, cur) is Some && delta_of(all, model, cur)->0.tg == Some(
            (p.tg_tps->0, c.tg_tps->0),
        ),
        delta_of(all, model, cur) is Some ==> delta_of(all, model, cur)->0.prev_build == prev
            && delta_of(all, model, cur)->0.cur_build == cur,
{
}

/// Every model of the journal that can be compared is.
pub proof fn every_model_is_compared(
    all: Seq<Entry>,
    models: Seq<(Seq<char>, ())>,
    cur: u64,
    i: int,
)
    requires
        0 <= i < models.len(),
        delta_of(all, models[i].0, cur) is Some,
    ensures
        deltas_among(all, models, cur).contains(delta_of(all, models[i].0, cur)->0),
    decreases models.len(),
{
    let s = models.drop_last();
    let d = delta_of(all, models[i].0, cur)->0;
    let before = deltas_among(all, s, cur);
    let now = deltas_among(all, models, cur);
    if i < s.len() {
        assert(s[i] == models[i]);
        every_model_is_compared(all, s, cur, i);
        let k = choose|k: int| 0 <= k < before.len() && before[k] == d;
        assert(now[k] == d);
    } else {
        assert(now[now.len() - 1] == d);
    }
}

} // verus!
