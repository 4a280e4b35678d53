//! The trial menus: which configuration deltas are raced, how each menu is
//! judged, what a stored race recommends, and how a winner is kept.
//!
//! The baseline is the model's current config MINUS every key the menu's
//! variants set — an already-adopted winner re-competes fairly instead of
//! being compared against itself.
use crate::measurements::{says_nothing, unstamped, Measurement, Measurements};
use crate::settings::{
    has_pair, holds_pair, lemma_pairs_push, no_overrides, pairs, AppConfig, ModelOverrides,
    OverridesView,
};
use crate::text::{copy_text, debug_text, quote, same_text};
use crate::textmap::{drop_key, has_key, lookup, put, put_then_lookup, sorted, TextMap};
use crate::trial::{
    miss_views, near_misses, near_misses_of, verdict, verdict_of, Goal, TrialReport, TrialResult,
    BASELINE,
};
use vstd::prelude::*;
use vstd::string::*;

verus! {

/// One candidate configuration delta: extra preset keys for the model's
/// section. The label is the identity trials are stored under.
#[derive(Debug, Clone)]
pub struct Variant {
    pub label: String,
    pub extra: Vec<(String, String)>,
    /// Vision toggle: `Some(true)` serves text-only — not expressible as a
    /// preset key.
    pub no_mmproj: Option<bool>,
}

pub struct VariantView {
    pub label: Seq<char>,
    pub extra: Seq<(Seq<char>, Seq<char>)>,
    pub no_mmproj: Option<bool>,
}

impl View for Variant {
    type V = VariantView;

    open spec fn view(&self) -> VariantView {
        VariantView {
            label: self.label@,
            extra: pairs(self.extra@),
            no_mmproj: self.no_mmproj,
        }
    }
}

impl Default for Variant {
    fn default() -> (r: Variant)
        ensures
            r@ == knobs(Seq::empty(), Seq::empty()),
    {
        let r = Variant { label: String::new(), extra: Vec::new(), no_mmproj: None };
        assert(r.label@ =~= Seq::empty());
        assert(pairs(r.extra@) =~= Seq::empty());
        r
    }
}

pub open spec fn variant_views(v: Seq<Variant>) -> Seq<VariantView> {
    Seq::new(v.len(), |i: int| v[i]@)
}

// ------------------------------------------------------------------ the menus

/// A variant that sets preset keys.
pub open spec fn knobs(label: Seq<char>, extra: Seq<(Seq<char>, Seq<char>)>) -> VariantView {
    VariantView { label, extra, no_mmproj: None }
}

/// A variant that sets one preset key.
pub open spec fn knob(label: Seq<char>, key: Seq<char>, value: Seq<char>) -> VariantView {
    knobs(label, seq![(key, value)])
}

/// A variant that sets two preset keys.
pub open spec fn two_knobs(
    label: Seq<char>,
    key: Seq<char>,
    value: Seq<char>,
    key2: Seq<char>,
    value2: Seq<char>,
) -> VariantView {
    knobs(label, seq![(key, value), (key2, value2)])
}

fn one(label: &str, key: &str, value: &str) -> (r: Variant)
    ensures
        r@ == knob(label@, key@, value@),
{
    let extra: Vec<(String, String)> = vec![(copy_text(key), copy_text(value))];
    assert(pairs(extra@) =~= seq![(key@, value@)]);
    Variant { label: copy_text(label), extra, no_mmproj: None }
}

fn two(label: &str, key: &str, value: &str, key2: &str, value2: &str) -> (r: Variant)
    ensures
        r@ == two_knobs(label@, key@, value@, key2@, value2@),
{
    let extra: Vec<(String, String)> = vec![
        (copy_text(key), copy_text(value)),
        (copy_text(key2), copy_text(value2)),
    ];
    assert(pairs(extra@) =~= seq![(key@, value@), (key2@, value2@)]);
    Variant { label: copy_text(label), extra, no_mmproj: None }
}

pub open spec fn spec_decode_menu() -> Seq<VariantView> {
    seq![
        knob("ngram-simple"@, "spec-type"@, "ngram-simple"@),
        knob("ngram-map-k"@, "spec-type"@, "ngram-map-k"@),
        knob("ngram-map-k4v"@, "spec-type"@, "ngram-map-k4v"@),
        knob("ngram-mod"@, "spec-type"@, "ngram-mod"@),
        knob("ngram-cache"@, "spec-type"@, "ngram-cache"@),
    ]
}

/// The speculative-decoding menu: the full model-free ngram family, which
/// costs zero VRAM. ngram-cache builds its lookup cache during the session —
/// no static cache file needed to race it.
pub fn spec_decode_variants() -> (r: Vec<Variant>)
    ensures
        variant_views(r@) == spec_decode_menu(),
{
    let r: Vec<Variant> = vec![
        one("ngram-simple", "spec-type", "ngram-simple"),
        one("ngram-map-k", "spec-type", "ngram-map-k"),
        one("ngram-map-k4v", "spec-type", "ngram-map-k4v"),
        one("ngram-mod", "spec-type", "ngram-mod"),
        one("ngram-cache", "spec-type", "ngram-cache"),
    ];
    assert(variant_views(r@) =~= spec_decode_menu());
    r
}

pub open spec fn ubatch_menu() -> Seq<VariantView> {
    seq![
        knob("ub-1024"@, "ubatch-size"@, "1024"@),
        knob("ub-2048"@, "ubatch-size"@, "2048"@),
    ]
}

/// The physical-batch menu: larger `-ub` speeds prefill at a VRAM (and
/// therefore context) cost — measured, the verdict decides if the trade
/// pays. Judged by the Prefill goal.
pub fn ubatch_variants() -> (r: Vec<Variant>)
    ensures
        variant_views(r@) == ubatch_menu(),
{
    let r: Vec<Variant> = vec![
        one("ub-1024", "ubatch-size", "1024"),
        one("ub-2048", "ubatch-size", "2048"),
    ];
    assert(variant_views(r@) =~= ubatch_menu());
    r
}

pub open spec fn kv_menu() -> Seq<VariantView> {
    seq![knob("ctv-q4_0"@, "cache-type-v"@, "q4_0"@)]
}

/// The KV-precision menu: quantizing the V cache to q4_0 shrinks every
/// token's cache footprint, so `--fit` affords more context — IF quality
/// holds, which is exactly what the fidelity gate checks. Judged by the
/// Context goal.
pub fn kv_variants() -> (r: Vec<Variant>)
    ensures
        variant_views(r@) == kv_menu(),
{
    let r: Vec<Variant> = vec![one("ctv-q4_0", "cache-type-v", "q4_0")];
    assert(variant_views(r@) =~= kv_menu());
    r
}

pub open spec fn load_mode_menu() -> Seq<VariantView> {
    seq![knob("load-dio"@, "load-mode"@, "dio"@), knob("load-mlock"@, "load-mode"@, "mlock"@)]
}

/// The load-mode menu: how model bytes reach memory. Direct IO can cut
/// the multi-second hot-swap; mlock pins pages (needs RLIMIT_MEMLOCK —
/// a failing variant is recorded, not fatal). Judged by LoadTime.
pub fn load_mode_variants() -> (r: Vec<Variant>)
    ensures
        variant_views(r@) == load_mode_menu(),
{
    let r: Vec<Variant> = vec![
        one("load-dio", "load-mode", "dio"),
        one("load-mlock", "load-mode", "mlock"),
    ];
    assert(variant_views(r@) =~= load_mode_menu());
    r
}

pub open spec fn spec_dial_menu() -> Seq<VariantView> {
    seq![
        knob("ngram-default"@, "spec-type"@, "ngram-simple"@),
        knobs(
            "ngram-n8-m64"@,
            seq![
                ("spec-type"@, "ngram-simple"@),
                ("spec-ngram-simple-size-n"@, "8"@),
                ("spec-ngram-simple-size-m"@, "64"@),
            ],
        ),
        knobs(
            "ngram-n16-m32"@,
            seq![
                ("spec-type"@, "ngram-simple"@),
                ("spec-ngram-simple-size-n"@, "16"@),
                ("spec-ngram-simple-size-m"@, "32"@),
            ],
        ),
        two_knobs("ngram-m96"@, "spec-type"@, "ngram-simple"@, "spec-ngram-simple-size-m"@, "96"@),
    ]
}

fn dials(label: &str, n: &str, m: &str) -> (r: Variant)
    ensures
        r@ == knobs(
            label@,
            seq![
                ("spec-type"@, "ngram-simple"@),
                ("spec-ngram-simple-size-n"@, n@),
                ("spec-ngram-simple-size-m"@, m@),
            ],
        ),
{
    let extra: Vec<(String, String)> = vec![
        (copy_text("spec-type"), copy_text("ngram-simple")),
        (copy_text("spec-ngram-simple-size-n"), copy_text(n)),
        (copy_text("spec-ngram-simple-size-m"), copy_text(m)),
    ];
    assert(pairs(extra@) =~= seq![
        ("spec-type"@, "ngram-simple"@),
        ("spec-ngram-simple-size-n"@, n@),
        ("spec-ngram-simple-size-m"@, m@),
    ]);
    Variant { label: copy_text(label), extra, no_mmproj: None }
}

/// The speculation-dial menu: ngram-simple has two dials — lookup length
/// (size-n, default 12) and draft length (size-m, default 48). Every variant
/// sets spec-type too, so a kept winner is self-contained; the default-dial
/// config races as its own candidate. Judged like speculation: rewrite
/// generation.
pub fn spec_dial_variants() -> (r: Vec<Variant>)
    ensures
        variant_views(r@) == spec_dial_menu(),
{
    let r: Vec<Variant> = vec![
        one("ngram-default", "spec-type", "ngram-simple"),
        dials("ngram-n8-m64", "8", "64"),
        dials("ngram-n16-m32", "16", "32"),
        two("ngram-m96", "spec-type", "ngram-simple", "spec-ngram-simple-size-m", "96"),
    ];
    assert(variant_views(r@) =~= spec_dial_menu());
    r
}

pub open spec fn moe_menu() -> Seq<VariantView> {
    seq![
        knob("cpu-moe"@, "cpu-moe"@, "true"@),
        two_knobs("cpu-moe-t8"@, "cpu-moe"@, "true"@, "threads"@, "8"@),
        two_knobs("cpu-moe-t24"@, "cpu-moe"@, "true"@, "threads"@, "24"@),
        knob("ncpu-moe-40"@, "n-cpu-moe"@, "40"@),
        knob("ncpu-moe-32"@, "n-cpu-moe"@, "32"@),
        knob("ncpu-moe-24"@, "n-cpu-moe"@, "24"@),
    ]
}

/// The MoE-offload menu: for a MoE model bigger than VRAM, `--cpu-moe` keeps
/// attention on the GPU and expert weights in RAM. Judged by CONTEXT, not
/// speed: default placement can crush the context while generating at the
/// same speed. Speed and fidelity remain guards. Thread count folds in here
/// (threads only matter once experts live on CPU).
///
/// PARTIAL offload: `--n-cpu-moe N` keeps only the first N layers' experts
/// on CPU and gives the rest to the GPU — every layer pulled back is
/// generation speed reclaimed, until VRAM runs out. One that over-commits
/// VRAM fails its round and the table says so — that's data, not a bug.
pub fn moe_variants() -> (r: Vec<Variant>)
    ensures
        variant_views(r@) == moe_menu(),
{
    let r: Vec<Variant> = vec![
        one("cpu-moe", "cpu-moe", "true"),
        two("cpu-moe-t8", "cpu-moe", "true", "threads", "8"),
        two("cpu-moe-t24", "cpu-moe", "true", "threads", "24"),
        one("ncpu-moe-40", "n-cpu-moe", "40"),
        one("ncpu-moe-32", "n-cpu-moe", "32"),
        one("ncpu-moe-24", "n-cpu-moe", "24"),
    ];
    assert(variant_views(r@) =~= moe_menu());
    r
}

pub open spec fn vision_menu() -> Seq<VariantView> {
    seq![(VariantView { label: "text-only"@, extra: Seq::empty(), no_mmproj: Some(true) })]
}

/// The vision menu: serve WITHOUT the projector. llama.cpp disables
/// prompt-cache reuse for multimodal serving, so vision quietly costs
/// every agent turn a full reprocess — this trial PRICES that cost with
/// the agent-turn probe. Only meaningful for models that have a projector.
pub fn vision_variants() -> (r: Vec<Variant>)
    ensures
        variant_views(r@) == vision_menu(),
{
    let v = Variant { label: copy_text("text-only"), extra: Vec::new(), no_mmproj: Some(true) };
    assert(pairs(v.extra@) =~= Seq::empty());
    let r: Vec<Variant> = vec![v];
    assert(variant_views(r@) =~= vision_menu());
    r
}

pub open spec fn cache_reuse_menu() -> Seq<VariantView> {
    seq![
        knob("cache-reuse-0"@, "cache-reuse"@, "0"@),
        knob("cache-reuse-1024"@, "cache-reuse"@, "1024"@),
    ]
}

/// The cache-reuse sweep: 0 = off, 1024 = deeper reuse vs the shipped 256
/// default.
pub fn cache_reuse_variants() -> (r: Vec<Variant>)
    ensures
        variant_views(r@) == cache_reuse_menu(),
{
    let r: Vec<Variant> = vec![
        one("cache-reuse-0", "cache-reuse", "0"),
        one("cache-reuse-1024", "cache-reuse", "1024"),
    ];
    assert(variant_views(r@) =~= cache_reuse_menu());
    r
}

/// What a menu's name stands for.
pub open spec fn menu_of(name: Seq<char>) -> Option<(Seq<VariantView>, Goal)> {
    if name == "spec"@ {
        Some((spec_decode_menu(), Goal::RewriteTg))
    } else if name == "ub"@ {
        Some((ubatch_menu(), Goal::Prefill))
    } else if name == "kv"@ {
        Some((kv_menu(), Goal::Context))
    } else if name == "load"@ {
        Some((load_mode_menu(), Goal::LoadTime))
    } else if name == "dials"@ {
        Some((spec_dial_menu(), Goal::RewriteTg))
    } else if name == "moe"@ {
        Some((moe_menu(), Goal::Context))
    } else if name == "vision"@ {
        Some((vision_menu(), Goal::AgentTurn))
    } else if name == "cache"@ {
        Some((cache_reuse_menu(), Goal::AgentTurn))
    } else {
        None
    }
}

/// A named menu: which variants to race and how to judge them.
pub fn menu(name: &str) -> (r: Option<(Vec<Variant>, Goal)>)
    ensures
        match r {
            Some((v, g)) => menu_of(name@) == Some((variant_views(v@), g)),
            None => menu_of(name@) is None,
        },
{
    if same_text(name, "spec") {
        Some((spec_decode_variants(), Goal::RewriteTg))
    } else if same_text(name, "ub") {
        Some((ubatch_variants(), Goal::Prefill))
    } else if same_text(name, "kv") {
        Some((kv_variants(), Goal::Context))
    } else if same_text(name, "load") {
        Some((load_mode_variants(), Goal::LoadTime))
    } else if same_text(name, "dials") {
        Some((spec_dial_variants(), Goal::RewriteTg))
    } else if same_text(name, "moe") {
        Some((moe_variants(), Goal::Context))
    } else if same_text(name, "vision") {
        Some((vision_variants(), Goal::AgentTurn))
    } else if same_text(name, "cache") {
        Some((cache_reuse_variants(), Goal::AgentTurn))
    } else {
        None
    }
}

// ------------------------------------------------------------- stored results

/// The label a menu's baseline is stored under.
pub open spec fn baseline_name(menu: Seq<char>) -> Seq<char> {
    "baseline ("@ + menu + ")"@
}

/// Each menu's baseline is stored under its own label: menus strip only
/// their OWN knob keys, so their baselines are DIFFERENT configs, and a
/// shared row would let the last campaign overwrite the others' reference
/// point.
pub fn baseline_label(menu_name: &str) -> (r: String)
    ensures
        r@ == baseline_name(menu_name@),
{
    let mut out = copy_text("baseline (");
    out.append(menu_name);
    out.append(")");
    out
}

/// What a report says.
pub struct ReportView {
    pub goal: Goal,
    pub verdict: crate::trial::VerdictView,
    pub near_misses: Seq<crate::trial::NearMissView>,
    pub raced: Seq<(Seq<char>, TrialResult)>,
}

impl View for TrialReport {
    type V = ReportView;

    open spec fn view(&self) -> ReportView {
        ReportView {
            goal: self.goal,
            verdict: self.verdict@,
            near_misses: miss_views(self.near_misses@),
            raced: self.raced@,
        }
    }
}

/// The report of a race: the verdict over the candidates, and the table with
/// the baseline in it.
pub open spec fn report_of(
    goal: Goal,
    baseline: TrialResult,
    raced: Seq<(Seq<char>, TrialResult)>,
) -> ReportView {
    ReportView {
        goal,
        verdict: verdict_of(goal, baseline, raced),
        near_misses: near_misses_of(goal, baseline, raced),
        raced: put(raced, BASELINE@, baseline),
    }
}

/// The stored results of the variants.
pub open spec fn stored_of(variants: Seq<VariantView>, table: Seq<(Seq<char>, TrialResult)>) -> Seq<
    (Seq<char>, TrialResult),
>
    decreases variants.len(),
{
    if variants.len() == 0 {
        Seq::empty()
    } else {
        let sofar = stored_of(variants.drop_last(), table);
        match lookup(table, variants.last().label) {
            Some(r) => put(sofar, variants.last().label, r),
            None => sofar,
        }
    }
}

/// A menu's baseline: the row under its own label, else the shared row of
/// older data.
pub open spec fn stored_baseline(menu: Seq<char>, table: Seq<(Seq<char>, TrialResult)>) -> Option<
    TrialResult,
> {
    match lookup(table, baseline_name(menu)) {
        Some(r) => Some(r),
        None => lookup(table, BASELINE@),
    }
}

/// What the stored results of a menu recommend, where there are any.
pub open spec fn standing_report(menu: Seq<char>, table: Seq<(Seq<char>, TrialResult)>) -> Option<
    ReportView,
> {
    match (menu_of(menu), stored_baseline(menu, table)) {
        (Some((variants, goal)), Some(baseline)) => {
            let raced = stored_of(variants, table);
            if raced.len() == 0 {
                None
            } else {
                Some(report_of(goal, baseline, raced))
            }
        },
        _ => None,
    }
}

/// The report over what a race measured.
pub fn race_report(goal: Goal, baseline: TrialResult, raced: TextMap<TrialResult>) -> (r:
    TrialReport)
    ensures
        r@ == report_of(goal, baseline, raced@),
{
    let v = verdict(goal, &baseline, &raced);
    let near = near_misses(goal, &baseline, &raced);
    let mut raced = raced;
    raced.insert(copy_text(BASELINE), baseline);
    TrialReport { goal, verdict: v, near_misses: near, raced }
}

/// Rebuild a report from STORED results for one menu — so a standing
/// recommendation can be applied long after the run's dialog closed. Filters
/// the model's stored table down to the baseline and this menu's variants;
/// `None` until both exist.
pub fn stored_report(menu_name: &str, table: &TextMap<TrialResult>) -> (r: Option<TrialReport>)
    ensures
        match r {
            Some(rep) => standing_report(menu_name@, table@) == Some(rep@),
            None => standing_report(menu_name@, table@) is None,
        },
{
    let (variants, goal) = match menu(menu_name) {
        Some(m) => m,
        None => {
            return None;
        },
    };
    let label = baseline_label(menu_name);
    let baseline = match table.get(label.as_str()) {
        Some(b) => b.copy(),
        None => match table.get(BASELINE) {
            Some(b) => b.copy(),
            None => {
                return None;
            },
        },
    };
    let ghost all = variant_views(variants@);
    let mut raced: TextMap<TrialResult> = TextMap::new();
    let mut i: usize = 0;
    assert(raced@ =~= stored_of(all.take(0), table@));
    while i < variants.len()
        invariant
            i <= variants.len(),
            all == variant_views(variants@),
            raced@ == stored_of(all.take(i as int), table@),
        decreases variants.len() - i,
    {
        assert(all.take(i + 1).drop_last() =~= all.take(i as int));
        assert(all.take(i + 1).last() == variants@[i as int]@);
        if let Some(r) = table.get(variants[i].label.as_str()) {
            raced.insert(variants[i].label.clone(), r.copy());
        }
        i += 1;
    }
    assert(all.take(i as int) =~= all);
    if raced.is_empty() {
        return None;
    }
    Some(race_report(goal, baseline, raced))
}

// ---------------------------------------------------------------- what is kept

/// Some variant sets the key.
pub open spec fn sets_key(variants: Seq<VariantView>, k: Seq<char>) -> bool {
    exists|i: int| 0 <= i < variants.len() && has_pair(#[trigger] variants[i].extra, k)
}

/// Some variant sets the vision toggle.
pub open spec fn touches_vision(variants: Seq<VariantView>) -> bool {
    exists|i: int| 0 <= i < variants.len() && (#[trigger] variants[i]).no_mmproj is Some
}

/// The pairs whose keys the variants set, or those that they do not set.
pub open spec fn parted(
    extra: Seq<(Seq<char>, Seq<char>)>,
    variants: Seq<VariantView>,
    set: bool,
) -> Seq<(Seq<char>, Seq<char>)>
    decreases extra.len(),
{
    if extra.len() == 0 {
        Seq::empty()
    } else {
        let sofar = parted(extra.drop_last(), variants, set);
        if sets_key(variants, extra.last().0) == set {
            sofar.push(extra.last())
        } else {
            sofar
        }
    }
}

/// What a model's overrides are.
pub open spec fn overrides_of(all: Seq<(Seq<char>, ModelOverrides)>, model: Seq<char>) -> OverridesView {
    match lookup(all, model) {
        Some(ov) => ov@,
        None => no_overrides(),
    }
}

/// The overrides without what the variants set.
pub open spec fn stripped(ov: OverridesView, variants: Seq<VariantView>) -> OverridesView {
    OverridesView {
        extra: parted(ov.extra, variants, false),
        no_mmproj: ov.no_mmproj && !touches_vision(variants),
        ..ov
    }
}

/// The overrides with what a variant sets.
pub open spec fn with_variant(ov: OverridesView, v: VariantView) -> OverridesView {
    OverridesView {
        extra: ov.extra + v.extra,
        no_mmproj: match v.no_mmproj {
            Some(b) => b,
            None => ov.no_mmproj,
        },
        ..ov
    }
}

fn sets(variants: &[Variant], k: &str) -> (r: bool)
    ensures
        r == sets_key(variant_views(variants@), k@),
{
    let ghost all = variant_views(variants@);
    let mut i: usize = 0;
    while i < variants.len()
        invariant
            i <= variants.len(),
            all == variant_views(variants@),
            forall|j: int| 0 <= j < i ==> !has_pair(#[trigger] all[j].extra, k@),
        decreases variants.len() - i,
    {
        if holds_pair(&variants[i].extra, k) {
            assert(has_pair(all[i as int].extra, k@));
            return true;
        }
        i += 1;
    }
    false
}

fn toggles_vision(variants: &[Variant]) -> (r: bool)
    ensures
        r == touches_vision(variant_views(variants@)),
{
    let ghost all = variant_views(variants@);
    let mut i: usize = 0;
    while i < variants.len()
        invariant
            i <= variants.len(),
            all == variant_views(variants@),
            forall|j: int| 0 <= j < i ==> (#[trigger] all[j]).no_mmproj is None,
        decreases variants.len() - i,
    {
        if variants[i].no_mmproj.is_some() {
            assert(all[i as int].no_mmproj is Some);
            return true;
        }
        i += 1;
    }
    false
}

fn part(extra: &[(String, String)], variants: &[Variant], set: bool) -> (r: Vec<(String, String)>)
    ensures
        pairs(r@) == parted(pairs(extra@), variant_views(variants@), set),
{
    let ghost all = pairs(extra@);
    let mut out: Vec<(String, String)> = Vec::new();
    let mut i: usize = 0;
    assert(pairs(out@) =~= parted(all.take(0), variant_views(variants@), set));
    while i < extra.len()
        invariant
            i <= extra.len(),
            all == pairs(extra@),
            pairs(out@) == parted(all.take(i as int), variant_views(variants@), set),
        decreases extra.len() - i,
    {
        assert(all.take(i + 1).drop_last() =~= all.take(i as int));
        assert(all.take(i + 1).last() == (extra@[i as int].0@, extra@[i as int].1@));
        if sets(variants, extra[i].0.as_str()) == set {
            let p = (extra[i].0.clone(), extra[i].1.clone());
            proof {
                lemma_pairs_push(out@, p);
            }
            out.push(p);
        }
        i += 1;
    }
    assert(all.take(i as int) =~= all);
    out
}

/// The knob keys a menu's variants set that the model's override carries —
/// "what is applied right now"; the vision toggle shows as a key of its own.
pub open spec fn applied_of(ov: OverridesView, variants: Seq<VariantView>) -> Seq<
    (Seq<char>, Seq<char>),
> {
    let keys = parted(ov.extra, variants, true);
    if touches_vision(variants) && ov.no_mmproj {
        keys.push(("no-mmproj"@, "true"@))
    } else {
        keys
    }
}

/// The knob keys a menu's variants set that the model's override currently
/// carries, for display next to Apply.
pub fn applied_keys(cfg: &AppConfig, model: &str, menu_name: &str) -> (r: Vec<(String, String)>)
    ensures
        pairs(r@) == match menu_of(menu_name@) {
            Some((variants, _)) => applied_of(overrides_of(cfg.overrides@, model@), variants),
            None => Seq::empty(),
        },
{
    let none: Vec<(String, String)> = Vec::new();
    assert(pairs(none@) =~= Seq::empty());
    let variants = match menu(menu_name) {
        Some((v, _)) => v,
        None => {
            return none;
        },
    };
    match cfg.overrides.get(model) {
        Some(ov) => {
            let mut keys = part(&ov.extra, &variants, true);
            if toggles_vision(&variants) && ov.no_mmproj {
                let p = (copy_text("no-mmproj"), copy_text("true"));
                proof {
                    lemma_pairs_push(keys@, p);
                }
                keys.push(p);
            }
            keys
        },
        None => none,
    }
}

/// The model's override with every key any variant sets stripped — the
/// fair baseline (an adopted winner re-competes instead of racing itself).
pub fn baseline_override(cfg: &AppConfig, model: &str, variants: &[Variant]) -> (r: ModelOverrides)
    ensures
        r@ == stripped(overrides_of(cfg.overrides@, model@), variant_views(variants@)),
{
    let ov = match cfg.overrides.get(model) {
        Some(ov) => ov.copy(),
        None => Default::default(),
    };
    ModelOverrides {
        cache_type_kv: ov.cache_type_kv,
        ctx: ov.ctx,
        extra: part(&ov.extra, variants, false),
        no_mmproj: ov.no_mmproj && !toggles_vision(variants),
    }
}

/// The overrides with what a variant sets.
pub fn apply_variant(ov: ModelOverrides, extra: &[(String, String)], no_mmproj: Option<bool>) -> (r:
    ModelOverrides)
    ensures
        r@ == with_variant(
            ov@,
            VariantView { label: Seq::empty(), extra: pairs(extra@), no_mmproj },
        ),
{
    let ModelOverrides { cache_type_kv, ctx, extra: kept, no_mmproj: text_only } = ov;
    let mut all = kept;
    let ghost before = pairs(kept@);
    let mut i: usize = 0;
    assert(pairs(all@) =~= before + pairs(extra@).take(0));
    while i < extra.len()
        invariant
            i <= extra.len(),
            pairs(all@) == before + pairs(extra@).take(i as int),
        decreases extra.len() - i,
    {
        let p = (extra[i].0.clone(), extra[i].1.clone());
        proof {
            lemma_pairs_push(all@, p);
        }
        assert((before + pairs(extra@).take(i as int)).push((p.0@, p.1@)) =~= before + pairs(
            extra@,
        ).take(i + 1));
        all.push(p);
        i += 1;
    }
    assert(pairs(extra@).take(i as int) =~= pairs(extra@));
    ModelOverrides {
        cache_type_kv,
        ctx,
        extra: all,
        no_mmproj: match no_mmproj {
            Some(b) => b,
            None => text_only,
        },
    }
}

/// The first variant with the label, from `from` on.
pub open spec fn labelled_from(variants: Seq<VariantView>, label: Seq<char>, from: int) -> Option<
    int,
>
    decreases variants.len() - from,
{
    if from < 0 || from >= variants.len() {
        None
    } else if variants[from].label == label {
        Some(from)
    } else {
        labelled_from(variants, label, from + 1)
    }
}

fn find_label(variants: &[Variant], label: &str) -> (r: Option<usize>)
    ensures
        match r {
            Some(i) => i < variants.len() && labelled_from(variant_views(variants@), label@, 0)
                == Some(i as int),
            None => labelled_from(variant_views(variants@), label@, 0) is None,
        },
{
    let ghost all = variant_views(variants@);
    let mut i: usize = 0;
    while i < variants.len()
        invariant
            i <= variants.len(),
            all == variant_views(variants@),
            labelled_from(all, label@, 0) == labelled_from(all, label@, i as int),
        decreases variants.len() - i,
    {
        assert(all[i as int].label == variants@[i as int].label@);
        if same_text(variants[i].label.as_str(), label) {
            return Some(i);
        }
        i += 1;
    }
    None
}

/// The overrides that keeping a label leads to: the competing keys stripped,
/// then the winner's set; `None` where no variant has the label.
pub open spec fn kept_overrides(
    ov: OverridesView,
    variants: Seq<VariantView>,
    label: Seq<char>,
) -> Option<OverridesView> {
    if label == BASELINE@ {
        Some(stripped(ov, variants))
    } else {
        match labelled_from(variants, label, 0) {
            Some(i) => Some(with_variant(stripped(ov, variants), variants[i])),
            None => None,
        }
    }
}

/// The two configurations agree but for the overrides.
pub open spec fn same_but_overrides(a: AppConfig, b: AppConfig) -> bool {
    &&& a.scan_dirs == b.scan_dirs
    &&& a.port == b.port
    &&& a.server_bin == b.server_bin
    &&& a.ollama_port == b.ollama_port
    &&& a.models_max == b.models_max
    &&& a.checkouts == b.checkouts
    &&& a.advisor_model == b.advisor_model
    &&& a.kwh_price_usd == b.kwh_price_usd
    &&& a.cloud_price_per_mtok == b.cloud_price_per_mtok
    &&& a.disabled == b.disabled
    &&& a.managed_auto_build == b.managed_auto_build
    &&& a.archives_keep == b.archives_keep
}

/// The overrides `after` are `before` with those of `model` set to `ov`;
/// overrides that say nothing are dropped.
pub open spec fn overrides_set(
    before: Seq<(Seq<char>, ModelOverrides)>,
    after: Seq<(Seq<char>, ModelOverrides)>,
    model: Seq<char>,
    ov: OverridesView,
) -> bool {
    if ov == no_overrides() {
        after == drop_key(before, model)
    } else {
        lookup(after, model) is Some && lookup(after, model)->0@ == ov && after == put(
            before,
            model,
            lookup(after, model)->0,
        )
    }
}

/// Sets a model's overrides; overrides that say nothing are dropped.
pub fn set_override(all: &mut TextMap<ModelOverrides>, model: &str, ov: ModelOverrides)
    ensures
        overrides_set(old(all)@, final(all)@, model@, ov@),
{
    let _ = all.len();
    if ov.is_default() {
        let _ = all.remove(model);
    } else {
        proof {
            put_then_lookup(all@, model@, ov, model@);
        }
        all.insert(copy_text(model), ov);
    }
}

/// Persist a trial winner: merge its keys into the model's override in the
/// configuration (stripping competing knob keys first).
pub fn keep_variant(cfg: &mut AppConfig, model: &str, variants: &[Variant], label: &str) -> (r:
    Result<(), String>)
    ensures
        same_but_overrides(*final(cfg), *old(cfg)),
        match kept_overrides(
            overrides_of(old(cfg).overrides@, model@),
            variant_views(variants@),
            label@,
        ) {
            Some(ov) => r is Ok && overrides_set(
                old(cfg).overrides@,
                final(cfg).overrides@,
                model@,
                ov,
            ),
            None => r is Err && r->Err_0@ == "unknown variant "@ + debug_text(label@) && final(cfg).overrides@
                == old(cfg).overrides@,
        },
{
    let base = baseline_override(&*cfg, model, variants);
    let ghost all = variant_views(variants@);
    let ov = if same_text(label, BASELINE) {
        base
    } else {
        match find_label(variants, label) {
            Some(i) => {
                assert(all[i as int] == variants@[i as int]@);
                apply_variant(base, &variants[i].extra, variants[i].no_mmproj)
            },
            None => {
                let mut e = copy_text("unknown variant ");
                let q = quote(label);
                e.append(q.as_str());
                return Err(e);
            },
        }
    };
    set_override(&mut cfg.overrides, model, ov);
    Ok(())
}

/// A measurement that carries a trial's settled context.
pub open spec fn carries(before: Option<Measurement>, r: TrialResult, after: Measurement) -> bool {
    match before {
        Some(m) => after == (Measurement { n_ctx: r.settled_ctx, error: None, ..unstamped(m) }),
        None => after.n_ctx == r.settled_ctx && says_nothing(Measurement { n_ctx: None, ..after }),
    }
}

/// The kept config changes what `--fit` settles on, and the trial already
/// measured exactly that: carry its settled context into the measurement
/// (fingerprints cleared, so that the next calibration verifies it) and synced
/// limits stay honest without waiting for a re-measure. Returns whether there
/// was a context to carry.
pub fn carry_settled(all: &mut Measurements, model: &str, kept: Option<&TrialResult>) -> (r: bool)
    ensures
        match kept {
            Some(t) => if t.settled_ctx is Some {
                &&& r
                &&& lookup(final(all)@, model@) is Some
                &&& carries(lookup(old(all)@, model@), *t, lookup(final(all)@, model@)->0)
                &&& final(all)@ == put(old(all)@, model@, lookup(final(all)@, model@)->0)
            } else {
                !r && final(all)@ == old(all)@
            },
            None => !r && final(all)@ == old(all)@,
        },
{
    let t = match kept {
        Some(t) => t,
        None => {
            return false;
        },
    };
    if t.settled_ctx.is_none() {
        return false;
    }
    let mut m = match all.get(model) {
        Some(m) => m.copy(),
        None => Default::default(),
    };
    m.n_ctx = t.settled_ctx;
    m.error = None;
    m.args_fp = None;
    m.env_fp = None;
    proof {
        put_then_lookup(all@, model@, m, model@);
    }
    all.insert(copy_text(model), m);
    true
}

// ------------------------------------------------------------------------ laws

proof fn lemma_parted_none(
    extra: Seq<(Seq<char>, Seq<char>)>,
    variants: Seq<VariantView>,
    set: bool,
)
    ensures
        forall|i: int|
            0 <= i < parted(extra, variants, set).len() ==> sets_key(
                variants,
                #[trigger] parted(extra, variants, set)[i].0,
            ) == set,
    decreases extra.len(),
{
    if extra.len() > 0 {
        lemma_parted_none(extra.drop_last(), variants, set);
        let sofar = parted(extra.drop_last(), variants, set);
        let out = parted(extra, variants, set);
        assert forall|i: int| 0 <= i < out.len() implies sets_key(variants, #[trigger] out[i].0)
            == set by {
            if i < sofar.len() {
                assert(out[i] == sofar[i]);
                assert(sets_key(variants, sofar[i].0) == set);
            } else {
                assert(out[i] == extra.last());
            }
        }
    }
}

proof fn lemma_parted_add(
    a: Seq<(Seq<char>, Seq<char>)>,
    b: Seq<(Seq<char>, Seq<char>)>,
    variants: Seq<VariantView>,
    set: bool,
)
    requires
        forall|i: int| 0 <= i < b.len() ==> sets_key(variants, #[trigger] b[i].0) != set,
    ensures
        parted(a + b, variants, set) == parted(a, variants, set),
    decreases b.len(),
{
    if b.len() > 0 {
        assert((a + b).drop_last() =~= a + b.drop_last());
        assert((a + b).last() == b.last());
        assert(b.last() == b[b.len() - 1]);
        assert forall|i: int| 0 <= i < b.drop_last().len() implies sets_key(
            variants,
            #[trigger] b.drop_last()[i].0,
        ) != set by {
            assert(b.drop_last()[i] == b[i]);
        }
        lemma_parted_add(a, b.drop_last(), variants, set);
    } else {
        assert(a + b =~= a);
    }
}

proof fn lemma_parted_twice(extra: Seq<(Seq<char>, Seq<char>)>, variants: Seq<VariantView>, set: bool)
    ensures
        parted(parted(extra, variants, set), variants, set) == parted(extra, variants, set),
    decreases extra.len(),
{
    if extra.len() > 0 {
        let sofar = parted(extra.drop_last(), variants, set);
        lemma_parted_twice(extra.drop_last(), variants, set);
        if sets_key(variants, extra.last().0) == set {
            assert(sofar.push(extra.last()).drop_last() =~= sofar);
        }
    }
}

/// A baseline carries no key that a variant sets, and serves with the
/// projector where the menu toggles vision.
pub proof fn a_baseline_carries_no_knob(ov: OverridesView, variants: Seq<VariantView>, k: Seq<char>)
    requires
        sets_key(variants, k),
    ensures
        !has_pair(stripped(ov, variants).extra, k),
        touches_vision(variants) ==> !stripped(ov, variants).no_mmproj,
{
    lemma_parted_none(ov.extra, variants, false);
    let s = stripped(ov, variants).extra;
    if has_pair(s, k) {
        let i = choose|i: int| 0 <= i < s.len() && #[trigger] s[i].0 == k;
        assert(sets_key(variants, s[i].0));
    }
}

/// An adopted winner re-competes fairly: whatever label was kept, the
/// baseline of the next race is the same as before.
pub proof fn a_kept_winner_recompetes_fairly(
    ov: OverridesView,
    variants: Seq<VariantView>,
    label: Seq<char>,
)
    requires
        kept_overrides(ov, variants, label) is Some,
    ensures
        stripped(kept_overrides(ov, variants, label)->0, variants) == stripped(ov, variants),
{
    let base = stripped(ov, variants);
    lemma_parted_twice(ov.extra, variants, false);
    if label != BASELINE@ {
        let i = labelled_from(variants, label, 0)->0;
        lemma_labelled(variants, label, 0);
        let v = variants[i];
        assert forall|j: int| 0 <= j < v.extra.len() implies sets_key(
            variants,
            #[trigger] v.extra[j].0,
        ) != false by {
            assert(has_pair(variants[i].extra, v.extra[j].0));
        }
        lemma_parted_add(base.extra, v.extra, variants, false);
    }
}

proof fn lemma_labelled(variants: Seq<VariantView>, label: Seq<char>, from: int)
    ensures
        match labelled_from(variants, label, from) {
            Some(i) => from <= i < variants.len() && 0 <= i && variants[i].label == label,
            None => true,
        },
    decreases variants.len() - from,
{
    if 0 <= from < variants.len() && variants[from].label != label {
        lemma_labelled(variants, label, from + 1);
    }
}

/// A kept winner is what is applied: every key it sets is among the keys
/// that the override carries of the menu's own.
pub proof fn a_kept_winner_is_applied(
    ov: OverridesView,
    variants: Seq<VariantView>,
    label: Seq<char>,
    k: Seq<char>,
)
    requires
        label != BASELINE@,
        labelled_from(variants, label, 0) is Some,
        has_pair(variants[labelled_from(variants, label, 0)->0].extra, k),
    ensures
        has_pair(applied_of(kept_overrides(ov, variants, label)->0, variants), k),
{
    let i = labelled_from(variants, label, 0)->0;
    lemma_labelled(variants, label, 0);
    let v = variants[i];
    let kept = kept_overrides(ov, variants, label)->0;
    let j = choose|j: int| 0 <= j < v.extra.len() && #[trigger] v.extra[j].0 == k;
    let base = stripped(ov, variants).extra;
    assert(kept.extra[base.len() + j].0 == k);
    assert(sets_key(variants, k));
    lemma_parted_holds(kept.extra, variants, base.len() + j);
    let keys = parted(kept.extra, variants, true);
    let n = choose|n: int| 0 <= n < keys.len() && #[trigger] keys[n].0 == k;
    assert(applied_of(kept, variants)[n].0 == k);
}

proof fn lemma_parted_holds(
    extra: Seq<(Seq<char>, Seq<char>)>,
    variants: Seq<VariantView>,
    i: int,
)
    requires
        0 <= i < extra.len(),
        sets_key(variants, extra[i].0),
    ensures
        has_pair(parted(extra, variants, true), extra[i].0),
    decreases extra.len(),
{
    let out = parted(extra, variants, true);
    if i == extra.len() - 1 {
        assert(out.last() == extra.last());
        assert(out[out.len() - 1].0 == extra[i].0);
    } else {
        lemma_parted_holds(extra.drop_last(), variants, i);
        let sofar = parted(extra.drop_last(), variants, true);
        let n = choose|n: int| 0 <= n < sofar.len() && #[trigger] sofar[n].0 == extra[i].0;
        assert(out[n] == sofar[n]);
    }
}

/// Menus never cross-race: the table of a standing report holds the baseline
/// and the menu's own variants, and nothing else.
pub proof fn menus_never_cross_race(
    menu: Seq<char>,
    table: Seq<(Seq<char>, TrialResult)>,
    label: Seq<char>,
)
    requires
        sorted(table),
        standing_report(menu, table) is Some,
        label != BASELINE@,
    ensures
        has_key(standing_report(menu, table)->0.raced, label) ==> exists|i: int|
            0 <= i < (menu_of(menu)->0).0.len() && (#[trigger] (menu_of(menu)->0).0[i]).label == label
                && lookup(table, label) is Some,
{
    let variants = (menu_of(menu)->0).0;
    let raced = stored_of(variants, table);
    let baseline = stored_baseline(menu, table)->0;
    lemma_stored(variants, table, label);
    put_then_lookup(raced, BASELINE@, baseline, label);
}

proof fn lemma_stored(
    variants: Seq<VariantView>,
    table: Seq<(Seq<char>, TrialResult)>,
    label: Seq<char>,
)
    ensures
        sorted(stored_of(variants, table)),
        has_key(stored_of(variants, table), label) ==> exists|i: int|
            0 <= i < variants.len() && (#[trigger] variants[i]).label == label && lookup(
                table,
                label,
            ) is Some,
    decreases variants.len(),
{
    if variants.len() > 0 {
        let rest = variants.drop_last();
        lemma_stored(rest, table, label);
        let sofar = stored_of(rest, table);
        if let Some(r) = lookup(table, variants.last().label) {
            put_then_lookup(sofar, variants.last().label, r, label);
        }
        if has_key(stored_of(variants, table), label) {
            if variants.last().label == label && lookup(table, label) is Some {
                assert(variants[variants.len() - 1].label == label);
            } else {
                let i = choose|i: int|
                    0 <= i < rest.len() && (#[trigger] rest[i]).label == label && lookup(
                        table,
                        label,
                    ) is Some;
                assert(variants[i] == rest[i]);
            }
        }
    }
}

/// The variant sets one preset key, and its label tells what to.
pub open spec fn tells_its_value(v: VariantView, mark: Seq<char>, key: Seq<char>) -> bool {
    v.no_mmproj is None && exists|value: Seq<char>|
        #![trigger mark + value]
        v.label == mark + value && v.extra == seq![(key, value)]
}

/// Each menu varies one thing: the way of guessing ahead, the batch, the values' cache, the
/// way of loading, the projector or the reuse, and is judged by what that is for.
pub proof fn each_menu_varies_one_thing()
    ensures
        forall|i: int|
            0 <= i < spec_decode_menu().len() ==> tells_its_value(
                #[trigger] spec_decode_menu()[i],
                ""@,
                "spec-type"@,
            ),
        forall|i: int|
            0 <= i < ubatch_menu().len() ==> tells_its_value(
                #[trigger] ubatch_menu()[i],
                "ub-"@,
                "ubatch-size"@,
            ),
        forall|i: int|
            0 <= i < kv_menu().len() ==> tells_its_value(
                #[trigger] kv_menu()[i],
                "ctv-"@,
                "cache-type-v"@,
            ),
        forall|i: int|
            0 <= i < load_mode_menu().len() ==> tells_its_value(
                #[trigger] load_mode_menu()[i],
                "load-"@,
                "load-mode"@,
            ),
        forall|i: int|
            0 <= i < cache_reuse_menu().len() ==> tells_its_value(
                #[trigger] cache_reuse_menu()[i],
                "cache-reuse-"@,
                "cache-reuse"@,
            ),
        forall|i: int|
            0 <= i < vision_menu().len() ==> (#[trigger] vision_menu()[i]).no_mmproj == Some(true)
                && vision_menu()[i].extra.len() == 0,
        forall|i: int|
            0 <= i < moe_menu().len() ==> (#[trigger] moe_menu()[i]).no_mmproj is None && (has_pair(
                moe_menu()[i].extra,
                "cpu-moe"@,
            ) || has_pair(moe_menu()[i].extra, "n-cpu-moe"@)),
        forall|i: int|
            0 <= i < spec_dial_menu().len() ==> (#[trigger] spec_dial_menu()[i]).extra.contains(
                ("spec-type"@, "ngram-simple"@),
            ),
{
    let a = spec_decode_menu();
    reveal_strlit("");
    assert forall|i: int| 0 <= i < a.len() implies tells_its_value(
        #[trigger] a[i],
        ""@,
        "spec-type"@,
    ) by {
        let v = a[i].label;
        assert(""@ + v =~= v);
    }
    let b = ubatch_menu();
    reveal_strlit("ub-");
    reveal_strlit("ub-1024");
    reveal_strlit("1024");
    reveal_strlit("ub-2048");
    reveal_strlit("2048");
    assert("ub-"@ + "1024"@ =~= "ub-1024"@);
    assert("ub-"@ + "2048"@ =~= "ub-2048"@);
    assert(tells_its_value(b[0], "ub-"@, "ubatch-size"@));
    assert(tells_its_value(b[1], "ub-"@, "ubatch-size"@));
    let c = kv_menu();
    reveal_strlit("ctv-");
    reveal_strlit("q4_0");
    reveal_strlit("ctv-q4_0");
    assert("ctv-"@ + "q4_0"@ =~= "ctv-q4_0"@);
    assert(tells_its_value(c[0], "ctv-"@, "cache-type-v"@));
    let d = load_mode_menu();
    reveal_strlit("load-");
    reveal_strlit("dio");
    reveal_strlit("load-dio");
    reveal_strlit("mlock");
    reveal_strlit("load-mlock");
    assert("load-"@ + "dio"@ =~= "load-dio"@);
    assert("load-"@ + "mlock"@ =~= "load-mlock"@);
    assert(tells_its_value(d[0], "load-"@, "load-mode"@));
    assert(tells_its_value(d[1], "load-"@, "load-mode"@));
    let e = cache_reuse_menu();
    reveal_strlit("cache-reuse-");
    reveal_strlit("0");
    reveal_strlit("cache-reuse-0");
    reveal_strlit("cache-reuse-1024");
    assert("cache-reuse-"@ + "0"@ =~= "cache-reuse-0"@);
    assert("cache-reuse-"@ + "1024"@ =~= "cache-reuse-1024"@);
    assert(tells_its_value(e[0], "cache-reuse-"@, "cache-reuse"@));
    assert(tells_its_value(e[1], "cache-reuse-"@, "cache-reuse"@));
    let m = moe_menu();
    assert forall|i: int| 0 <= i < m.len() implies has_pair((#[trigger] m[i]).extra, "cpu-moe"@)
        || has_pair(m[i].extra, "n-cpu-moe"@) by {
        assert(m[i].extra[0].0 == "cpu-moe"@ || m[i].extra[0].0 == "n-cpu-moe"@);
    }
    let s = spec_dial_menu();
    assert forall|i: int| 0 <= i < s.len() implies (#[trigger] s[i]).extra.contains(
        ("spec-type"@, "ngram-simple"@),
    ) by {
        assert(s[i].extra[0] == ("spec-type"@, "ngram-simple"@));
    }
}

/// A baseline is the overrides without the pairs whose keys a variant sets, and what is
/// applied are just those pairs: together they are all of them, each in its order.
pub proof fn a_knob_is_either_applied_or_kept(
    extra: Seq<(Seq<char>, Seq<char>)>,
    variants: Seq<VariantView>,
)
    ensures
        parted(extra, variants, true) == extra.filter(
            |p: (Seq<char>, Seq<char>)| sets_key(variants, p.0),
        ),
        parted(extra, variants, false) == extra.filter(
            |p: (Seq<char>, Seq<char>)| !sets_key(variants, p.0),
        ),
    decreases extra.len(),
{
    reveal(Seq::filter);
    if extra.len() > 0 {
        a_knob_is_either_applied_or_kept(extra.drop_last(), variants);
    }
}

/// Every stored result of a menu's variants stands in its race, and the baseline with them.
pub proof fn every_stored_result_races(
    variants: Seq<VariantView>,
    table: Seq<(Seq<char>, TrialResult)>,
    i: int,
)
    requires
        0 <= i < variants.len(),
        lookup(table, variants[i].label) is Some,
    ensures
        sorted(stored_of(variants, table)),
        lookup(stored_of(variants, table), variants[i].label) == lookup(table, variants[i].label),
    decreases variants.len(),
{
    let s = variants.drop_last();
    lemma_stored_sorted(s, table);
    let sofar = stored_of(s, table);
    let last = variants.last().label;
    if i < s.len() {
        assert(s[i] == variants[i]);
        every_stored_result_races(s, table, i);
    }
    if lookup(table, last) is Some {
        put_then_lookup(sofar, last, lookup(table, last)->0, variants[i].label);
    }
}

proof fn lemma_stored_sorted(variants: Seq<VariantView>, table: Seq<(Seq<char>, TrialResult)>)
    ensures
        sorted(stored_of(variants, table)),
    decreases variants.len(),
{
    if variants.len() > 0 {
        lemma_stored_sorted(variants.drop_last(), table);
        let last = variants.last().label;
        if lookup(table, last) is Some {
            put_then_lookup(
                stored_of(variants.drop_last(), table),
                last,
                lookup(table, last)->0,
                last,
            );
        }
    }
}

/// A menu's own baseline is raced against; a baseline of no menu only where it has none.
pub proof fn a_menu_races_against_its_own_baseline(
    menu: Seq<char>,
    table: Seq<(Seq<char>, TrialResult)>,
)
    ensures
        ({
            let own = lookup(table, "baseline ("@ + menu + ")"@);
            let any = lookup(table, "baseline"@);
            stored_baseline(menu, table) == (if own is Some {
                own
            } else {
                any
            })
        }),
{
}

} // verus!
