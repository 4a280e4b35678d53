//! Build Advisor: is the installed llama.cpp the one this machine and this
//! model collection deserve? Deterministic rules over what was probed — the
//! AI layer explains and diagnoses but never invents flags.
//!
//! Verdicts speak outcomes ("rebuilding would unlock 3 models you own"),
//! not flags; the exact commands live in an advanced section.
use crate::diagnose::{cause_of, classify, Cause};
use crate::measurements::{Measurement, Measurements};
use crate::num::{
    dec, dec_len, dec_text, parse_number, parse_number32, parse_u32, parse_u64,
};
use crate::path::{parent, parent_of, same_path};
use crate::preset::{text_behind, LOAD_ERROR};
use crate::ratios::{
    all_based, all_bounded, is_mean_within, mean_percent, mean_percent_text, mean_within,
};
use crate::settings::{pairs, lemma_pairs_push};
use crate::text::{
    before_any, begins, chars_of, contains, copy_text, cut_once, find, find_text, has, has_text,
    head, join, join_texts, join_views, lines, lines_of, lowercase, opt_str, opt_text,
    part_before_any, same, same_text, split_once, starts_with, strip_prefix, tail, text_of, texts,
    trim, trimmed, views, without_prefix, words, words_of,
};
use crate::textmap::{lookup, put, put_then_lookup, sorted, TextMap};
use vstd::prelude::*;
use vstd::string::*;

verus! {

/// What was found of the installed llama.cpp and of this machine.
#[derive(Debug, Clone)]
pub struct BuildCheck {
    /// The llama-server binary this app runs.
    pub server_bin: Option<String>,
    /// Git checkout the binary was built from, when we can find it.
    pub repo: Option<String>,
    pub current_build: Option<u64>,
    /// Build tag of the checked-out SOURCE (git describe HEAD). When this
    /// is newer than `current_build`, the user pulled but never rebuilt —
    /// the fix is a rebuild alone, no network needed.
    pub source_build: Option<u64>,
    /// Latest upstream build tag (e.g. 10366 from "b10366"); None = fetch
    /// failed (offline) or no repo.
    pub upstream_build: Option<u64>,
    /// Commits behind upstream master; None when unknown.
    pub behind: Option<u64>,
    /// Uncommitted changes in the checkout (a pull would be risky).
    pub dirty: Option<bool>,
    /// Checkout is on a detached HEAD (tag-pinned — branch-style
    /// `pull --ff-only` cannot apply).
    pub detached: Option<bool>,
    /// e.g. "86" for compute capability 8.6.
    pub cuda_arch: Option<String>,
    pub nvcc: Option<String>,
    /// Vulkan shader compiler (glslc) — required to BUILD the Vulkan
    /// backend (a runtime alone isn't enough).
    pub glslc: bool,
    /// Vulkan runtime present (vulkaninfo answers) — devices could use a
    /// Vulkan build even without the build toolchain installed.
    pub vulkan_runtime: bool,
    /// ROCm compiler (hipcc) version line, when installed.
    pub hipcc: Option<String>,
    /// AMD GPU target from rocminfo, e.g. "gfx1100".
    pub rocm_gfx: Option<String>,
    pub cmake: bool,
    /// NVIDIA driver persistence mode: Some(false) = off, which adds
    /// driver-init latency to every model load. None = not an NVIDIA box
    /// or nvidia-smi absent.
    pub persistence_mode: Option<bool>,
    /// The tailored make-it-stick command when we can derive one from
    /// how nvidia-persistenced is actually launched on THIS machine.
    pub persistence_fix: Option<String>,
    /// Models whose stored failure looks like "needs a newer build".
    pub locked_models: Vec<String>,
}

impl Default for BuildCheck {
    fn default() -> (r: BuildCheck)
        ensures
            r.server_bin is None,
            r.repo is None,
            r.current_build is None,
            r.source_build is None,
            r.upstream_build is None,
            r.behind is None,
            r.dirty is None,
            r.detached is None,
            r.cuda_arch is None,
            r.nvcc is None,
            !r.glslc,
            !r.vulkan_runtime,
            r.hipcc is None,
            r.rocm_gfx is None,
            !r.cmake,
            r.persistence_mode is None,
            r.persistence_fix is None,
            r.locked_models@.len() == 0,
    {
        BuildCheck {
            server_bin: None,
            repo: None,
            current_build: None,
            source_build: None,
            upstream_build: None,
            behind: None,
            dirty: None,
            detached: None,
            cuda_arch: None,
            nvcc: None,
            glslc: false,
            vulkan_runtime: false,
            hipcc: None,
            rocm_gfx: None,
            cmake: false,
            persistence_mode: None,
            persistence_fix: None,
            locked_models: Vec::new(),
        }
    }
}

/// Which backends a rebuild should enable. Defaults come from detection;
/// the Build Advisor window exposes them as checkboxes.
#[derive(Debug, Clone, Copy, PartialEq, Eq, Structural)]
pub struct BackendSelection {
    pub cuda: bool,
    pub vulkan: bool,
    pub hip: bool,
}

pub open spec fn backends_of(c: BuildCheck) -> BackendSelection {
    BackendSelection {
        cuda: c.cuda_arch is Some && c.nvcc is Some,
        vulkan: c.glslc,
        hip: c.hipcc is Some && c.rocm_gfx is Some,
    }
}

/// Sane defaults: every backend whose build toolchain AND hardware signal
/// are present. Vulkan is the universal fallback — it only needs glslc.
pub fn default_backends(c: &BuildCheck) -> (r: BackendSelection)
    ensures
        r == backends_of(*c),
{
    BackendSelection {
        cuda: c.cuda_arch.is_some() && c.nvcc.is_some(),
        vulkan: c.glslc,
        hip: c.hipcc.is_some() && c.rocm_gfx.is_some(),
    }
}

// ------------------------------------------------------------------- the cards

pub const UPDATED_NOT_REBUILT: &'static str = "Someone updated the checkout without rebuilding — a rebuild alone (no \
             download needed) brings the binary up to date.";

pub const NEWER_BUILDS: &'static str = " commit(s) behind the remote. Newer builds \
                 add model-format support and performance work.";

pub const NO_REBUILD: &'static str = "No rebuild needed for freshness.";

pub const NO_REMOTE: &'static str = "Couldn't contact the git remote — offline, or this binary has no \
             git checkout to fetch from — freshness unknown.";

pub const NO_VERSION: &'static str = "Couldn't determine your llama.cpp version";

pub const SET_THE_BINARY: &'static str = "Set the llama-server binary in Settings, or point it at a git checkout's build.";

pub const EVEN_NEWEST: &'static str = " model(s) fail with format errors even on the newest build";

pub const OTHER_TOOL: &'static str = " — these conversions appear specific to another tool (usually \
                     Ollama). They still run through Ollama; for llama.cpp, download \
                     llama.cpp-native GGUFs of the same models.";

pub const NO_CMAKE: &'static str = "cmake not found";

pub const INSTALL_CMAKE: &'static str = "Install cmake to rebuild llama.cpp.";

pub const NO_TOOLCHAIN: &'static str = "No GPU build toolchain found — CPU-only build possible";

pub const INSTALL_TOOLCHAIN: &'static str = "Install the CUDA toolkit (NVIDIA), ROCm (AMD), or the Vulkan SDK \
                 with glslc (any GPU) to build with acceleration.";

pub const SELECTABLE: &'static str = "Backends are selectable below; defaults match your detected \
                 hardware and toolchains.";

pub const NO_NVCC: &'static str = "NVIDIA GPU found, but the CUDA compiler (nvcc) is missing";

pub const INSTALL_CUDA: &'static str = "Install the CUDA toolkit for the fastest backend on this card — \
                 or build Vulkan, which works without it.";

pub const NO_GLSLC: &'static str = "Vulkan runtime present, but the shader compiler (glslc) is missing";

pub const INSTALL_SHADERC: &'static str = "Install shaderc / the Vulkan SDK to include the Vulkan backend.";

pub const NO_HIPCC: &'static str = "AMD GPU found, but the ROCm compiler (hipcc) is missing";

pub const INSTALL_ROCM: &'static str = "Install ROCm for the native AMD backend — or build Vulkan instead.";

pub const PERSISTENCE_OFF: &'static str = "GPU persistence mode is off";

pub const ENABLE_NOW: &'static str = "The driver re-initializes on every model load, adding latency. \
                 Enable now with: sudo nvidia-smi -pm 1 (holds until reboot). \
                 To survive reboots: ";

pub const GENERIC_STICK: &'static str = "a udev rule or the nvidia-persistenced service makes it stick";

pub const RAPL_LOCKED: &'static str = "CPU energy counters are root-locked (RAPL)";

pub const RAPL_UNLOCK: &'static str = "The Lab's J/token column measures GPU energy only until the kernel \
             lets us read the CPU package counter. Unlock once with: sudo chmod \
             a+r /sys/class/powercap/intel-rapl:0/energy_uj (resets on reboot; a \
             udev rule makes it stick). Nothing is estimated in its absence.";

pub const LOCAL_CHANGES: &'static str = "Your llama.cpp checkout has local changes";

pub const FAST_FORWARD_ONLY: &'static str = "The updater uses a fast-forward pull only and will refuse rather than touch \
             your changes.";

/// A card: a headline and a detail.
pub type Card = (Seq<char>, Seq<char>);

pub open spec fn card_if(cond: bool, headline: Seq<char>, detail: Seq<char>) -> Seq<Card> {
    if cond {
        seq![(headline, detail)]
    } else {
        Seq::empty()
    }
}

/// The source is newer than the binary that was built from it.
pub open spec fn source_cards(c: BuildCheck) -> Seq<Card> {
    match (c.current_build, c.source_build) {
        (Some(cur), Some(src)) => card_if(
            src > cur,
            "Your source is b"@ + dec(src as nat) + " but the built binary is b"@ + dec(cur as nat),
            UPDATED_NOT_REBUILT@,
        ),
        _ => Seq::empty(),
    }
}

/// How fresh the binary is.
pub open spec fn freshness_card(c: BuildCheck) -> Card {
    match c.current_build {
        None => (NO_VERSION@, SET_THE_BINARY@),
        Some(cur) => match c.upstream_build {
            None => (
                "Your llama.cpp is b"@ + dec(cur as nat) + "; upstream unreachable"@,
                NO_REMOTE@,
            ),
            Some(up) => if c.behind is Some && up > cur {
                (
                    "Your llama.cpp binary is "@ + dec((up - cur) as nat)
                        + " builds behind upstream (b"@ + dec(cur as nat) + " -> b"@ + dec(
                        up as nat,
                    ) + ")"@,
                    "The checkout itself is "@ + dec(c.behind->0 as nat) + NEWER_BUILDS@,
                )
            } else {
                ("Your llama.cpp (b"@ + dec(cur as nat) + ") is up to date"@, NO_REBUILD@)
            },
        },
    }
}

/// The binary is known to be as new as upstream.
pub open spec fn up_to_date(c: BuildCheck) -> bool {
    match (c.current_build, c.upstream_build) {
        (Some(cur), Some(up)) => cur >= up,
        _ => false,
    }
}

/// The models that fail with format errors.
pub open spec fn locked_cards(c: BuildCheck) -> Seq<Card> {
    let n = c.locked_models@.len();
    let names = join(texts(c.locked_models@), ", "@);
    if n == 0 {
        Seq::empty()
    } else if up_to_date(c) {
        seq![(dec(n) + EVEN_NEWEST@, names + OTHER_TOOL@)]
    } else {
        seq![("Rebuilding would likely unlock "@ + dec(n) + " model(s) you own"@, names)]
    }
}

pub open spec fn or_unknown(o: Option<String>) -> Seq<char> {
    match o {
        Some(s) => s@,
        None => "?"@,
    }
}

pub open spec fn text_if(cond: bool, t: Seq<char>) -> Seq<Seq<char>> {
    if cond {
        seq![t]
    } else {
        Seq::empty()
    }
}

/// The backends that are ready to build.
pub open spec fn ready_backends(c: BuildCheck) -> Seq<Seq<char>> {
    let sel = backends_of(c);
    text_if(sel.cuda, "CUDA (compute capability "@ + or_unknown(c.cuda_arch) + ")"@) + text_if(
        sel.vulkan,
        "Vulkan (NVIDIA/AMD/Intel)"@,
    ) + text_if(sel.hip, "ROCm ("@ + or_unknown(c.rocm_gfx) + ")"@)
}

/// What can be built, and near-misses a novice would never spot.
pub open spec fn toolchain_cards(c: BuildCheck) -> Seq<Card> {
    if !c.cmake {
        seq![(NO_CMAKE@, INSTALL_CMAKE@)]
    } else {
        (if ready_backends(c).len() == 0 {
            seq![(NO_TOOLCHAIN@, INSTALL_TOOLCHAIN@)]
        } else {
            seq![("Ready to build with: "@ + join(ready_backends(c), " + "@), SELECTABLE@)]
        }) + card_if(c.cuda_arch is Some && c.nvcc is None, NO_NVCC@, INSTALL_CUDA@) + card_if(
            c.vulkan_runtime && !c.glslc,
            NO_GLSLC@,
            INSTALL_SHADERC@,
        ) + card_if(c.rocm_gfx is Some && c.hipcc is None, NO_HIPCC@, INSTALL_ROCM@)
    }
}

/// The driver's persistence mode, the energy counters and local changes.
pub open spec fn machine_cards(c: BuildCheck, rapl_readable: bool) -> Seq<Card> {
    card_if(
        c.persistence_mode == Some(false),
        PERSISTENCE_OFF@,
        ENABLE_NOW@ + match c.persistence_fix {
            Some(f) => f@,
            None => GENERIC_STICK@,
        },
    ) + card_if(!rapl_readable, RAPL_LOCKED@, RAPL_UNLOCK@) + card_if(
        c.dirty == Some(true),
        LOCAL_CHANGES@,
        FAST_FORWARD_ONLY@,
    )
}

/// All cards, in the order in which they are shown.
pub open spec fn cards_of(c: BuildCheck, rapl_readable: bool) -> Seq<Card> {
    source_cards(c) + seq![freshness_card(c)] + locked_cards(c) + toolchain_cards(c)
        + machine_cards(c, rapl_readable)
}

fn push_card(out: &mut Vec<(String, String)>, headline: String, detail: &str)
    ensures
        pairs(final(out)@) == pairs(old(out)@).push((headline@, detail@)),
{
    broadcast use lemma_pairs_push;

    out.push((headline, copy_text(detail)));
}

fn push_source(out: &mut Vec<(String, String)>, c: &BuildCheck)
    ensures
        pairs(final(out)@) == pairs(old(out)@) + source_cards(*c),
{
    let ghost before = pairs(out@);
    if let (Some(cur), Some(src)) = (c.current_build, c.source_build) {
        if src > cur {
            let mut h = copy_text("Your source is b");
            h.append(dec_text(src).as_str());
            h.append(" but the built binary is b");
            h.append(dec_text(cur).as_str());
            push_card(out, h, UPDATED_NOT_REBUILT);
        }
    }
    assert(pairs(out@) =~= before + source_cards(*c));
}

fn push_freshness(out: &mut Vec<(String, String)>, c: &BuildCheck)
    ensures
        pairs(final(out)@) == pairs(old(out)@) + seq![freshness_card(*c)],
{
    let ghost before = pairs(out@);
    match c.current_build {
        None => push_card(out, copy_text(NO_VERSION), SET_THE_BINARY),
        Some(cur) => match c.upstream_build {
            None => {
                let mut h = copy_text("Your llama.cpp is b");
                h.append(dec_text(cur).as_str());
                h.append("; upstream unreachable");
                push_card(out, h, NO_REMOTE);
            },
            Some(up) => {
                let mut told = false;
                if let Some(behind) = c.behind {
                    if up > cur {
                        let mut h = copy_text("Your llama.cpp binary is ");
                        h.append(dec_text(up - cur).as_str());
                        h.append(" builds behind upstream (b");
                        h.append(dec_text(cur).as_str());
                        h.append(" -> b");
                        h.append(dec_text(up).as_str());
                        h.append(")");
                        let mut d = copy_text("The checkout itself is ");
                        d.append(dec_text(behind).as_str());
                        d.append(NEWER_BUILDS);
                        push_card(out, h, d.as_str());
                        told = true;
                    }
                }
                if !told {
                    let mut h = copy_text("Your llama.cpp (b");
                    h.append(dec_text(cur).as_str());
                    h.append(") is up to date");
                    push_card(out, h, NO_REBUILD);
                }
            },
        },
    }
    assert(pairs(out@) =~= before + seq![freshness_card(*c)]);
}

fn push_locked(out: &mut Vec<(String, String)>, c: &BuildCheck)
    ensures
        pairs(final(out)@) == pairs(old(out)@) + locked_cards(*c),
{
    let ghost before = pairs(out@);
    if c.locked_models.len() > 0 {
        let newest = match (c.current_build, c.upstream_build) {
            (Some(cur), Some(up)) => cur >= up,
            _ => false,
        };
        let mut names = join_texts(&c.locked_models, ", ");
        if newest {
            let mut h = dec_len(c.locked_models.len());
            h.append(EVEN_NEWEST);
            names.append(OTHER_TOOL);
            push_card(out, h, names.as_str());
        } else {
            let mut h = copy_text("Rebuilding would likely unlock ");
            h.append(dec_len(c.locked_models.len()).as_str());
            h.append(" model(s) you own");
            push_card(out, h, names.as_str());
        }
    }
    assert(pairs(out@) =~= before + locked_cards(*c));
}

fn unknown_or(o: &Option<String>) -> (r: String)
    ensures
        r@ == or_unknown(*o),
{
    match o {
        Some(s) => s.clone(),
        None => copy_text("?"),
    }
}

fn ready(c: &BuildCheck) -> (r: Vec<String>)
    ensures
        texts(r@) == ready_backends(*c),
{
    broadcast use crate::text::lemma_texts_push;

    let sel = default_backends(c);
    let mut v: Vec<String> = Vec::new();
    assert(texts(v@) =~= Seq::<Seq<char>>::empty());
    if sel.cuda {
        let mut s = copy_text("CUDA (compute capability ");
        s.append(unknown_or(&c.cuda_arch).as_str());
        s.append(")");
        v.push(s);
    }
    let ghost p1 = text_if(
        sel.cuda,
        "CUDA (compute capability "@ + or_unknown(c.cuda_arch) + ")"@,
    );
    assert(texts(v@) =~= p1);
    if sel.vulkan {
        v.push(copy_text("Vulkan (NVIDIA/AMD/Intel)"));
    }
    let ghost p2 = p1 + text_if(sel.vulkan, "Vulkan (NVIDIA/AMD/Intel)"@);
    assert(texts(v@) =~= p2);
    if sel.hip {
        let mut s = copy_text("ROCm (");
        s.append(unknown_or(&c.rocm_gfx).as_str());
        s.append(")");
        v.push(s);
    }
    assert(texts(v@) =~= ready_backends(*c));
    v
}

fn push_toolchain(out: &mut Vec<(String, String)>, c: &BuildCheck)
    ensures
        pairs(final(out)@) == pairs(old(out)@) + toolchain_cards(*c),
{
    let ghost before = pairs(out@);
    if !c.cmake {
        push_card(out, copy_text(NO_CMAKE), INSTALL_CMAKE);
        assert(pairs(out@) =~= before + toolchain_cards(*c));
        return;
    }
    let r = ready(c);
    assert(texts(r@).len() == r@.len());
    if r.len() == 0 {
        push_card(out, copy_text(NO_TOOLCHAIN), INSTALL_TOOLCHAIN);
    } else {
        let mut h = copy_text("Ready to build with: ");
        h.append(join_texts(&r, " + ").as_str());
        push_card(out, h, SELECTABLE);
    }
    if c.cuda_arch.is_some() && c.nvcc.is_none() {
        push_card(out, copy_text(NO_NVCC), INSTALL_CUDA);
    }
    if c.vulkan_runtime && !c.glslc {
        push_card(out, copy_text(NO_GLSLC), INSTALL_SHADERC);
    }
    if c.rocm_gfx.is_some() && c.hipcc.is_none() {
        push_card(out, copy_text(NO_HIPCC), INSTALL_ROCM);
    }
    assert(pairs(out@) =~= before + toolchain_cards(*c));
}

fn is_on(o: Option<bool>, want: bool) -> (r: bool)
    ensures
        r == (o == Some(want)),
{
    match o {
        Some(b) => b == want,
        None => false,
    }
}

fn push_machine(out: &mut Vec<(String, String)>, c: &BuildCheck, rapl_readable: bool)
    ensures
        pairs(final(out)@) == pairs(old(out)@) + machine_cards(*c, rapl_readable),
{
    let ghost before = pairs(out@);
    if is_on(c.persistence_mode, false) {
        let mut d = copy_text(ENABLE_NOW);
        match &c.persistence_fix {
            Some(f) => d.append(f.as_str()),
            None => d.append(GENERIC_STICK),
        }
        push_card(out, copy_text(PERSISTENCE_OFF), d.as_str());
    }
    if !rapl_readable {
        push_card(out, copy_text(RAPL_LOCKED), RAPL_UNLOCK);
    }
    if is_on(c.dirty, true) {
        push_card(out, copy_text(LOCAL_CHANGES), FAST_FORWARD_ONLY);
    }
    assert(pairs(out@) =~= before + machine_cards(*c, rapl_readable));
}

/// The verdict cards, novice-first. Each is (headline, detail).
/// `rapl_readable` says whether the CPU's energy counters can be read.
pub fn verdicts(c: &BuildCheck, rapl_readable: bool) -> (r: Vec<(String, String)>)
    ensures
        pairs(r@) == cards_of(*c, rapl_readable),
{
    let mut out: Vec<(String, String)> = Vec::new();
    assert(pairs(out@) =~= Seq::<Card>::empty());
    push_source(&mut out, c);
    assert(pairs(out@) =~= source_cards(*c));
    push_freshness(&mut out, c);
    push_locked(&mut out, c);
    push_toolchain(&mut out, c);
    push_machine(&mut out, c, rapl_readable);
    out
}

// --------------------------------------------------------- what a rebuild did

/// What a rebuild actually changed, measured — the honest answer to "did
/// that rebuild help?". Computed from before/after measurement snapshots.
#[derive(Debug, Clone)]
pub struct VerifyReport {
    /// Errored before, measured now — the rebuild's wins.
    pub unlocked: Vec<String>,
    /// Errored before and after — confirmed not-a-build-problem.
    pub still_locked: Vec<String>,
    /// Measured before, errored now — a rebuild REGRESSION, lead with it.
    pub newly_locked: Vec<String>,
    /// (id, ctx_before, ctx_after) where both measured and differ — new
    /// builds shift VRAM use, and synced limits follow the measurement.
    pub ctx_shifts: Vec<(String, u64, u64)>,
}

pub struct VerifyView {
    pub unlocked: Seq<Seq<char>>,
    pub still_locked: Seq<Seq<char>>,
    pub newly_locked: Seq<Seq<char>>,
    pub ctx_shifts: Seq<(Seq<char>, u64, u64)>,
}

pub open spec fn shift_views(v: Seq<(String, u64, u64)>) -> Seq<(Seq<char>, u64, u64)> {
    Seq::new(v.len(), |i: int| (v[i].0@, v[i].1, v[i].2))
}

impl View for VerifyReport {
    type V = VerifyView;

    open spec fn view(&self) -> VerifyView {
        VerifyView {
            unlocked: texts(self.unlocked@),
            still_locked: texts(self.still_locked@),
            newly_locked: texts(self.newly_locked@),
            ctx_shifts: shift_views(self.ctx_shifts@),
        }
    }
}

/// What one model's two measurements say.
pub open spec fn outcome_with(v: VerifyView, id: Seq<char>, b: Measurement, a: Measurement) -> VerifyView {
    VerifyView {
        unlocked: if b.error is Some && a.error is None && a.n_ctx is Some {
            v.unlocked.push(id)
        } else {
            v.unlocked
        },
        still_locked: if b.error is Some && a.error is Some {
            v.still_locked.push(id)
        } else {
            v.still_locked
        },
        newly_locked: if b.error is None && a.error is Some {
            v.newly_locked.push(id)
        } else {
            v.newly_locked
        },
        ctx_shifts: match (b.n_ctx, a.n_ctx) {
            (Some(bc), Some(ac)) => if bc != ac {
                v.ctx_shifts.push((id, bc, ac))
            } else {
                v.ctx_shifts
            },
            _ => v.ctx_shifts,
        },
    }
}

/// What changed between two snapshots, over the models in both.
pub open spec fn outcome_of(
    before: Seq<(Seq<char>, Measurement)>,
    after: Seq<(Seq<char>, Measurement)>,
) -> VerifyView
    decreases before.len(),
{
    if before.len() == 0 {
        VerifyView {
            unlocked: Seq::empty(),
            still_locked: Seq::empty(),
            newly_locked: Seq::empty(),
            ctx_shifts: Seq::empty(),
        }
    } else {
        let v = outcome_of(before.drop_last(), after);
        let (id, b) = before.last();
        match lookup(after, id) {
            Some(a) => outcome_with(v, id, b, a),
            None => v,
        }
    }
}

/// Compares the measurements before and after a rebuild.
pub fn verify_outcome(before: &Measurements, after: &Measurements) -> (r: VerifyReport)
    ensures
        r@ == outcome_of(before@, after@),
{
    broadcast use crate::text::lemma_texts_push;

    let mut r = VerifyReport {
        unlocked: Vec::new(),
        still_locked: Vec::new(),
        newly_locked: Vec::new(),
        ctx_shifts: Vec::new(),
    };
    let ghost all = before@;
    let mut i: usize = 0;
    assert(texts(r.unlocked@) =~= Seq::empty());
    assert(texts(r.still_locked@) =~= Seq::empty());
    assert(texts(r.newly_locked@) =~= Seq::empty());
    assert(shift_views(r.ctx_shifts@) =~= Seq::empty());
    while i < before.len()
        invariant
            i <= before@.len(),
            all == before@,
            r@ == outcome_of(all.take(i as int), after@),
        decreases before@.len() - i,
    {
        let ghost sofar = all.take(i + 1);
        assert(sofar.drop_last() =~= all.take(i as int));
        assert(sofar.last() == all[i as int]);
        let id = before.key_at(i);
        let b = before.value_at(i);
        if let Some(a) = after.get(id.as_str()) {
            let ghost old_r = r@;
            if b.error.is_some() {
                if a.error.is_some() {
                    r.still_locked.push(id.clone());
                } else if a.n_ctx.is_some() {
                    r.unlocked.push(id.clone());
                }
            } else if a.error.is_some() {
                r.newly_locked.push(id.clone());
            }
            if let (Some(bc), Some(ac)) = (b.n_ctx, a.n_ctx) {
                if bc != ac {
                    let ghost prior = shift_views(r.ctx_shifts@);
                    r.ctx_shifts.push((id.clone(), bc, ac));
                    assert(shift_views(r.ctx_shifts@) =~= prior.push((id@, bc, ac)));
                }
            }
            let ghost want = outcome_with(old_r, id@, *b, *a);
            assert(r@.unlocked == want.unlocked);
            assert(r@.still_locked == want.still_locked);
            assert(r@.newly_locked == want.newly_locked);
            assert(r@.ctx_shifts == want.ctx_shifts);
        }
        i += 1;
    }
    assert(all.take(i as int) =~= all);
    r
}

/// The contexts before and after.
pub open spec fn context_pairs(v: Seq<(Seq<char>, u64, u64)>) -> Seq<(i128, i128)> {
    Seq::new(v.len(), |i: int| (v[i].1 as i128, v[i].2 as i128))
}

/// The mean change is at least as bad as a loss of 5%. A context that was
/// nothing before has no ratio to it that is a number.
pub open spec fn mean_fell(v: Seq<(Seq<char>, u64, u64)>) -> bool {
    v.len() > 0 && all_based(context_pairs(v)) && mean_within(context_pairs(v), 95)
}

/// A context that was nothing is nothing still.
pub open spec fn some_stays_nothing(v: Seq<(i128, i128)>) -> bool {
    exists|i: int| 0 <= i < v.len() && #[trigger] v[i] == (0i128, 0i128)
}

/// The mean change in percent, with its sign. Growth from nothing has no
/// bound, and nothing from nothing is no number.
pub open spec fn mean_change(v: Seq<(Seq<char>, u64, u64)>) -> Seq<char> {
    let c = context_pairs(v);
    if some_stays_nothing(c) {
        "NaN"@
    } else if !all_based(c) {
        "+inf"@
    } else {
        mean_percent(c)
    }
}

pub const FAIL_NOW: &'static str = " loaded before this rebuild but fail now — consider \
             rebuilding an older tag: ";

pub const SEE_WHY: &'static str = " — see each row's Why? (a current build that \
             still rejects a file usually means an Ollama-only conversion)";

pub const LIMITS_FOLLOW: &'static str = "%) — synced \
             limits already follow the new measurements";

pub const NO_CHANGES: &'static str = "no measured changes — same locks, same contexts";

pub const WORTH_REPORTING: &'static str = "this looks worth reporting upstream — Tools -> Export Findings Report \
             (or `--report`) writes a sanitized summary you can review and post";

/// The report's findings, each in a sentence.
pub open spec fn findings_of(r: VerifyView) -> Seq<Seq<char>> {
    text_if(
        r.newly_locked.len() > 0,
        "⚠ REGRESSION: "@ + dec(r.newly_locked.len()) + FAIL_NOW@ + join(r.newly_locked, ", "@),
    ) + text_if(
        r.unlocked.len() > 0,
        dec(r.unlocked.len()) + " model(s) unlocked ✔: "@ + join(r.unlocked, ", "@),
    ) + text_if(
        r.still_locked.len() > 0,
        "still locked ("@ + dec(r.still_locked.len()) + "): "@ + join(r.still_locked, ", "@)
            + SEE_WHY@,
    ) + text_if(
        r.ctx_shifts.len() > 0,
        "measured context shifted on "@ + dec(r.ctx_shifts.len()) + " model(s) (mean "@
            + mean_change(r.ctx_shifts) + LIMITS_FOLLOW@,
    )
}

/// The report in sentences, with a nudge where a maintainer would want to
/// hear about it.
pub open spec fn summary_of(r: VerifyView) -> Seq<Seq<char>> {
    let f = findings_of(r);
    (if f.len() == 0 {
        seq![NO_CHANGES@]
    } else {
        f
    }) + text_if(r.newly_locked.len() > 0 || mean_fell(r.ctx_shifts), WORTH_REPORTING@)
}

/// The mean change of the contexts in percent, and whether it is at least as
/// bad as a loss of 5%.
fn mean_of(v: &[(String, u64, u64)]) -> (r: (String, bool))
    requires
        v@.len() > 0,
    ensures
        r.0@ == mean_change(shift_views(v@)),
        r.1 == mean_fell(shift_views(v@)),
{
    let ghost all = context_pairs(shift_views(v@));
    let mut both: Vec<(i128, i128)> = Vec::new();
    let mut based = true;
    let mut stays = false;
    let mut i: usize = 0;
    while i < v.len()
        invariant
            i <= v.len(),
            all == context_pairs(shift_views(v@)),
            both@ == all.take(i as int),
            based == all_based(both@),
            all_bounded(both@),
            stays == some_stays_nothing(both@),
        decreases v.len() - i,
    {
        let ghost sofar = both@;
        let p: (i128, i128) = (v[i].1 as i128, v[i].2 as i128);
        both.push(p);
        proof {
            assert(all[i as int] == p);
            assert(both@ =~= all.take(i + 1));
            assert(both@[i as int] == p);
            assert forall|k: int| 0 <= k < i implies #[trigger] both@[k] == sofar[k] by {}
            if some_stays_nothing(sofar) {
                let k = choose|k: int| 0 <= k < sofar.len() && #[trigger] sofar[k] == (0i128, 0i128);
                assert(both@[k] == (0i128, 0i128));
            }
            if all_based(both@) {
                assert forall|k: int| 0 <= k < sofar.len() implies (#[trigger] sofar[k]).0 > 0 by {
                    assert(both@[k].0 > 0);
                }
            }
        }
        if p.0 == 0 {
            based = false;
            if p.1 == 0 {
                stays = true;
            }
        }
        i += 1;
    }
    assert(both@ =~= all);
    if stays {
        assert(!all_based(all));
        return (copy_text("NaN"), false);
    }
    if !based {
        return (copy_text("+inf"), false);
    }
    (mean_percent_text(&both), is_mean_within(&both, 95))
}

fn push_if(out: &mut Vec<String>, cond: bool, t: String)
    ensures
        texts(final(out)@) == texts(old(out)@) + text_if(cond, t@),
{
    broadcast use crate::text::lemma_texts_push;

    let ghost before = texts(out@);
    if cond {
        out.push(t);
    }
    assert(texts(out@) =~= before + text_if(cond, t@));
}

/// The report in sentences (shared by CLI and GUI log lines).
pub fn verify_summary(r: &VerifyReport) -> (v: Vec<String>)
    ensures
        texts(v@) == summary_of(r@),
{
    broadcast use crate::text::lemma_texts_push;

    let mut out: Vec<String> = Vec::new();
    let ghost w = r@;
    assert(texts(out@) =~= Seq::<Seq<char>>::empty());
    let mut a = copy_text("⚠ REGRESSION: ");
    a.append(dec_len(r.newly_locked.len()).as_str());
    a.append(FAIL_NOW);
    a.append(join_texts(&r.newly_locked, ", ").as_str());
    push_if(&mut out, r.newly_locked.len() > 0, a);
    let mut b = dec_len(r.unlocked.len());
    b.append(" model(s) unlocked ✔: ");
    b.append(join_texts(&r.unlocked, ", ").as_str());
    push_if(&mut out, r.unlocked.len() > 0, b);
    let mut c = copy_text("still locked (");
    c.append(dec_len(r.still_locked.len()).as_str());
    c.append("): ");
    c.append(join_texts(&r.still_locked, ", ").as_str());
    c.append(SEE_WHY);
    push_if(&mut out, r.still_locked.len() > 0, c);
    let n = r.ctx_shifts.len();
    let mut fell = false;
    if n > 0 {
        let (mean, big_loss) = mean_of(&r.ctx_shifts);
        let mut d = copy_text("measured context shifted on ");
        d.append(dec_len(n).as_str());
        d.append(" model(s) (mean ");
        d.append(mean.as_str());
        d.append(LIMITS_FOLLOW);
        push_if(&mut out, true, d);
        fell = big_loss;
    }
    assert(texts(out@) =~= findings_of(w));
    assert(fell == mean_fell(w.ctx_shifts));
    assert(texts(out@).len() == out@.len());
    if out.len() == 0 {
        out.push(copy_text(NO_CHANGES));
        assert(texts(out@) =~= seq![NO_CHANGES@]);
    }
    push_if(&mut out, r.newly_locked.len() > 0 || fell, copy_text(WORTH_REPORTING));
    out
}

// ---------------------------------------------------------- what probes say

/// The build number of a tag: "b10366" or "b10366-14-gabc" -> 10366.
pub open spec fn build_tag(tag: Seq<char>) -> Option<u64> {
    match strip_prefix(trim(tag), "b"@) {
        Some(rest) => parse_u64(before_any(rest, seq!['-', '.'])),
        None => None,
    }
}

/// "b10366" or "b10366-14-gabc" -> 10366.
pub fn parse_build_tag(tag: &str) -> (r: Option<u64>)
    ensures
        r == build_tag(tag@),
{
    let c = chars_of(tag);
    let seps: [char; 2] = ['-', '.'];
    assert(seps@ =~= seq!['-', '.']);
    match without_prefix(trimmed(&c), "b") {
        Some(rest) => parse_number(part_before_any(rest, &seps)),
        None => None,
    }
}

pub const NO_PERSISTENCE: &'static str = "--no-persistence-mode";

pub const STICK_HEAD: &'static str = "your persistence daemon is RUNNING but launched with \
         --no-persistence-mode (your distro's default), and its unit is \
         static — `systemctl enable` refuses it. Permanent fix: \
         sudo systemctl edit nvidia-persistenced   and add:\n\
         [Service]\nExecStart=\nExecStart=";

pub const STICK_TAIL: &'static str = "\nthen: sudo systemctl restart nvidia-persistenced";

/// The part before the first `sep`, or the whole.
pub open spec fn before_first(s: Seq<char>, sep: Seq<char>) -> Seq<char> {
    match split_once(s, sep) {
        Some(p) => p.0,
        None => s,
    }
}

/// The command line that a unit's ExecStart states: what stands behind the
/// first `argv[]=`, up to the next one and to the first separator.
pub open spec fn exec_argv(show: Seq<char>) -> Option<Seq<char>> {
    match split_once(show, "argv[]="@) {
        Some(p) => Some(trim(before_first(before_first(p.1, "argv[]="@), " ; "@))),
        None => None,
    }
}

/// The words without the flag.
pub open spec fn without_flag(w: Seq<Seq<char>>, flag: Seq<char>) -> Seq<Seq<char>>
    decreases w.len(),
{
    if w.len() == 0 {
        Seq::empty()
    } else if w.last() == flag {
        without_flag(w.drop_last(), flag)
    } else {
        without_flag(w.drop_last(), flag).push(w.last())
    }
}

/// The permanent fix for a daemon that is launched to do nothing.
pub open spec fn persistence_fix(show: Seq<char>) -> Option<Seq<char>> {
    match exec_argv(show) {
        Some(argv) => if contains(argv, NO_PERSISTENCE@) {
            Some(
                STICK_HEAD@ + join(without_flag(words(argv), NO_PERSISTENCE@), " "@) + STICK_TAIL@,
            )
        } else {
            None
        },
        None => None,
    }
}

fn part_before<'a>(s: &'a [char], sep: &str) -> (r: &'a [char])
    ensures
        r@ == before_first(s@, sep@),
{
    match cut_once(s, sep) {
        Some(p) => p.0,
        None => s,
    }
}

/// From `systemctl show nvidia-persistenced -p ExecStart` output, derive the
/// exact permanent fix — or None when the generic advice applies.
pub fn persistence_fix_from_execstart(show: &str) -> (r: Option<String>)
    ensures
        opt_text(r) == persistence_fix(show@),
{
    broadcast use crate::text::lemma_views_push;

    let c = chars_of(show);
    let rest = match cut_once(&c, "argv[]=") {
        Some(p) => p.1,
        None => {
            return None;
        },
    };
    let argv = trimmed(part_before(part_before(rest, "argv[]="), " ; "));
    if !has_text(argv, NO_PERSISTENCE) {
        return None;
    }
    let flag = chars_of(NO_PERSISTENCE);
    let w = words_of(argv);
    let ghost all = views(w@);
    let mut kept: Vec<&[char]> = Vec::new();
    let mut i: usize = 0;
    assert(views(kept@) =~= without_flag(all.take(0), flag@));
    while i < w.len()
        invariant
            i <= w.len(),
            all == views(w@),
            flag@ == NO_PERSISTENCE@,
            views(kept@) == without_flag(all.take(i as int), flag@),
        decreases w.len() - i,
    {
        let ghost sofar = all.take(i + 1);
        assert(sofar.drop_last() =~= all.take(i as int));
        assert(sofar.last() == w@[i as int]@);
        if !same(w[i], &flag) {
            kept.push(w[i]);
        }
        i += 1;
    }
    assert(all.take(i as int) =~= all);
    let mut s = copy_text(STICK_HEAD);
    s.append(join_views(&kept, " ").as_str());
    s.append(STICK_TAIL);
    Some(s)
}

/// The first line without whitespace around it.
pub open spec fn first_line(s: Seq<char>) -> Option<Seq<char>> {
    if lines(s).len() > 0 {
        Some(trim(lines(s)[0]))
    } else {
        None
    }
}

/// nvidia-smi persistence_mode line -> Some(enabled).
pub fn parse_persistence_mode(s: &str) -> (r: Option<bool>)
    ensures
        r == match first_line(s@) {
            Some(t) => if t == "Enabled"@ {
                Some(true)
            } else if t == "Disabled"@ {
                Some(false)
            } else {
                None
            },
            None => None,
        },
{
    let c = chars_of(s);
    let l = lines_of(&c);
    assert(views(l@).len() == l@.len());
    if l.len() == 0 {
        return None;
    }
    assert(views(l@)[0] == l@[0]@);
    let t = text_of(trimmed(l[0]));
    if same_text(t.as_str(), "Enabled") {
        Some(true)
    } else if same_text(t.as_str(), "Disabled") {
        Some(false)
    } else {
        None
    }
}

/// nvidia-smi compute_cap "8.6" -> cmake arch "86".
pub open spec fn compute_cap(s: Seq<char>) -> Option<Seq<char>> {
    match first_line(s) {
        Some(t) => match split_once(t, "."@) {
            Some(p) => match (parse_u32(trim(p.0)), parse_u32(trim(p.1))) {
                (Some(a), Some(b)) => Some(dec(a as nat) + dec(b as nat)),
                _ => None,
            },
            None => None,
        },
        None => None,
    }
}

/// nvidia-smi compute_cap "8.6" -> cmake arch "86".
pub fn parse_compute_cap(s: &str) -> (r: Option<String>)
    ensures
        opt_text(r) == compute_cap(s@),
{
    let c = chars_of(s);
    let l = lines_of(&c);
    assert(views(l@).len() == l@.len());
    if l.len() == 0 {
        return None;
    }
    assert(views(l@)[0] == l@[0]@);
    match cut_once(trimmed(l[0]), ".") {
        Some(p) => match (parse_number32(trimmed(p.0)), parse_number32(trimmed(p.1))) {
            (Some(a), Some(b)) => {
                let mut t = dec_text(a as u64);
                t.append(dec_text(b as u64).as_str());
                Some(t)
            },
            _ => None,
        },
        None => None,
    }
}

/// The AMD target that a rocminfo line names.
pub open spec fn gfx_name(line: Seq<char>) -> Option<Seq<char>> {
    match strip_prefix(trim(line), "Name:"@) {
        Some(rest) => if starts_with(trim(rest), "gfx"@) {
            Some(trim(rest))
        } else {
            None
        },
        None => None,
    }
}

pub open spec fn first_gfx(l: Seq<Seq<char>>, from: int) -> Option<Seq<char>>
    decreases l.len() - from,
{
    if from < 0 || from >= l.len() {
        None
    } else {
        match gfx_name(l[from]) {
            Some(n) => Some(n),
            None => first_gfx(l, from + 1),
        }
    }
}

/// First AMD "gfx…" target in rocminfo output.
pub fn parse_gfx_target(out: &str) -> (r: Option<String>)
    ensures
        opt_text(r) == first_gfx(lines(out@), 0),
{
    let c = chars_of(out);
    let l = lines_of(&c);
    let ghost all = views(l@);
    let mut i: usize = 0;
    while i < l.len()
        invariant
            i <= l.len(),
            all == views(l@),
            all == lines(out@),
            first_gfx(all, 0) == first_gfx(all, i as int),
        decreases l.len() - i,
    {
        assert(all[i as int] == l@[i as int]@);
        if let Some(rest) = without_prefix(trimmed(l[i]), "Name:") {
            let name = trimmed(rest);
            if begins(name, "gfx") {
                return Some(text_of(name));
            }
        }
        i += 1;
    }
    None
}

// --------------------------------------------------------------- mined failures

/// The model that a line says failed to load.
pub open spec fn failed_name(line: Seq<char>) -> Option<Seq<char>> {
    match find(line, "name="@) {
        Some(i) => {
            let rest = line.skip(i + "name="@.len());
            match find(rest, " failed to load"@) {
                Some(k) => Some(rest.take(k)),
                None => None,
            }
        },
        None => None,
    }
}

/// The last load error among the lines.
pub open spec fn pending_error(l: Seq<Seq<char>>) -> Option<Seq<char>> {
    crate::preset::last_load_error(l)
}

/// The last load error before each model's failure.
pub open spec fn failures_of(l: Seq<Seq<char>>) -> Seq<(Seq<char>, Seq<char>)>
    decreases l.len(),
{
    if l.len() == 0 {
        Seq::empty()
    } else {
        let before = failures_of(l.drop_last());
        match (failed_name(l.last()), pending_error(l)) {
            (Some(name), Some(err)) => put(before, name, err),
            _ => before,
        }
    }
}

proof fn lemma_failures_sorted(l: Seq<Seq<char>>)
    ensures
        sorted(failures_of(l)),
    decreases l.len(),
{
    if l.len() > 0 {
        lemma_failures_sorted(l.drop_last());
        if let (Some(name), Some(err)) = (failed_name(l.last()), pending_error(l)) {
            put_then_lookup(failures_of(l.drop_last()), name, err, name);
        }
    }
}

fn failed_model(line: &[char]) -> (r: Option<String>)
    ensures
        opt_text(r) == failed_name(line@),
{
    let key = chars_of("name=");
    let mark = chars_of(" failed to load");
    assert(line@.len() == line.len());
    match find_text(line, &key) {
        Some(i) => {
            let rest = tail(line, i + key.len());
            match find_text(rest, &mark) {
                Some(k) => Some(text_of(head(rest, k))),
                None => None,
            }
        },
        None => None,
    }
}

/// Per-model load errors mined from a router log: the last
/// "error loading model:" line before each "name=<id> failed to load".
/// Rescues failures stored before log-mining existed ("failed(1)" says
/// nothing) — and feeds the "Why?" panel richer evidence.
pub fn mine_failures(log: &str) -> (r: TextMap<String>)
    ensures
        forall|k: Seq<char>|
            opt_text(#[trigger] lookup(r@, k)) == lookup(failures_of(lines(log@)), k),
{
    let c = chars_of(log);
    let l = lines_of(&c);
    let ghost all = views(l@);
    let mut out: TextMap<String> = TextMap::new();
    let mut last: Option<String> = None;
    let mut i: usize = 0;
    assert forall|k: Seq<char>| opt_text(#[trigger] lookup(out@, k)) == lookup(
        failures_of(all.take(0)),
        k,
    ) by {}
    while i < l.len()
        invariant
            i <= l.len(),
            all == views(l@),
            sorted(out@),
            opt_text(last) == pending_error(all.take(i as int)),
            forall|k: Seq<char>|
                opt_text(#[trigger] lookup(out@, k)) == lookup(
                    failures_of(all.take(i as int)),
                    k,
                ),
        decreases l.len() - i,
    {
        let ghost sofar = all.take(i + 1);
        let ghost prior = failures_of(all.take(i as int));
        let ghost before = out@;
        assert(sofar.drop_last() =~= all.take(i as int));
        assert(sofar.last() == l@[i as int]@);
        if let Some(e) = text_behind(l[i], LOAD_ERROR) {
            last = Some(e);
        }
        let name = failed_model(l[i]);
        if let (Some(name), Some(err)) = (name, &last) {
            let ghost n = name@;
            let value = err.clone();
            out.insert(name, value);
            assert forall|k: Seq<char>| opt_text(#[trigger] lookup(out@, k)) == lookup(
                failures_of(sofar),
                k,
            ) by {
                lemma_failures_sorted(all.take(i as int));
                put_then_lookup(before, n, value, k);
                put_then_lookup(prior, n, value@, k);
                assert(opt_text(lookup(before, k)) == lookup(prior, k));
            }
        } else {
            assert forall|k: Seq<char>| opt_text(#[trigger] lookup(out@, k)) == lookup(
                failures_of(sofar),
                k,
            ) by {
                assert(opt_text(lookup(before, k)) == lookup(prior, k));
            }
        }
        i += 1;
    }
    assert(all.take(i as int) =~= all);
    out
}

/// A newer build would likely fix the failure: its stored error says so, or
/// says nothing and the mined log does.
pub open spec fn is_locked(m: Measurement, mined: Option<Seq<char>>) -> bool {
    match m.error {
        None => false,
        Some(e) => match cause_of(lowercase(e@)) {
            Cause::NeedsNewerBuild => true,
            Cause::Unknown => match mined {
                Some(t) => cause_of(lowercase(t)) == Cause::NeedsNewerBuild,
                None => false,
            },
            _ => false,
        },
    }
}

pub open spec fn mined_of(log: Option<Seq<char>>) -> Seq<(Seq<char>, Seq<char>)> {
    match log {
        Some(t) => failures_of(lines(t)),
        None => Seq::empty(),
    }
}

/// The models that a newer build would likely unlock, in their order.
pub open spec fn locked_of(
    all: Seq<(Seq<char>, Measurement)>,
    mined: Seq<(Seq<char>, Seq<char>)>,
) -> Seq<Seq<char>>
    decreases all.len(),
{
    if all.len() == 0 {
        Seq::empty()
    } else {
        let before = locked_of(all.drop_last(), mined);
        let (id, m) = all.last();
        if is_locked(m, lookup(mined, id)) {
            before.push(id)
        } else {
            before
        }
    }
}

/// Which failures a newer build would likely fix. Stored errors are
/// classified directly; unclassifiable ones ("failed(1)") get a second
/// chance via the mined router log.
pub fn locked_models(measurements: &Measurements, log: Option<&str>) -> (r: Vec<String>)
    ensures
        texts(r@) == locked_of(measurements@, mined_of(opt_str(log))),
{
    broadcast use crate::text::lemma_texts_push;

    let mined: TextMap<String> = match log {
        Some(t) => mine_failures(t),
        None => TextMap::new(),
    };
    let ghost found = mined_of(opt_str(log));
    assert forall|k: Seq<char>| opt_text(#[trigger] lookup(mined@, k)) == lookup(found, k) by {}
    let ghost all = measurements@;
    let mut out: Vec<String> = Vec::new();
    let mut i: usize = 0;
    assert(texts(out@) =~= locked_of(all.take(0), found));
    while i < measurements.len()
        invariant
            i <= measurements@.len(),
            all == measurements@,
            forall|k: Seq<char>| opt_text(#[trigger] lookup(mined@, k)) == lookup(found, k),
            texts(out@) == locked_of(all.take(i as int), found),
        decreases measurements@.len() - i,
    {
        let ghost sofar = all.take(i + 1);
        assert(sofar.drop_last() =~= all.take(i as int));
        assert(sofar.last() == all[i as int]);
        let id = measurements.key_at(i);
        let m = measurements.value_at(i);
        let mut locked = false;
        if let Some(e) = &m.error {
            match classify(e.as_str()) {
                Cause::NeedsNewerBuild => {
                    locked = true;
                },
                Cause::Unknown => {
                    if let Some(t) = mined.get(id.as_str()) {
                        locked = classify(t.as_str()) == Cause::NeedsNewerBuild;
                    }
                },
                _ => {},
            }
        }
        if locked {
            out.push(id.clone());
        }
        i += 1;
    }
    assert(all.take(i as int) =~= all);
    out
}

// ---------------------------------------------------------------- the commands

/// A command and its arguments.
pub type Step = (Seq<char>, Seq<Seq<char>>);

pub open spec fn step_views(v: Seq<(String, Vec<String>)>) -> Seq<Step> {
    Seq::new(v.len(), |i: int| (v[i].0@, texts(v[i].1@)))
}

pub open spec fn on_off(b: bool) -> Seq<char> {
    if b {
        "ON"@
    } else {
        "OFF"@
    }
}

/// The arguments of cmake's configure step: every backend is stated, on or
/// off, because the cmake cache remembers old options.
pub open spec fn configure_args(repo: Seq<char>, c: BuildCheck, sel: BackendSelection) -> Seq<
    Seq<char>,
> {
    seq![
        "-S"@,
        repo,
        "-B"@,
        repo + "/build"@,
        "-DGGML_CUDA="@ + on_off(sel.cuda),
    ] + text_if(
        sel.cuda && c.cuda_arch is Some,
        "-DCMAKE_CUDA_ARCHITECTURES="@ + c.cuda_arch->0@,
    ) + seq!["-DGGML_VULKAN="@ + on_off(sel.vulkan), "-DGGML_HIP="@ + on_off(sel.hip)] + text_if(
        sel.hip && c.rocm_gfx is Some,
        "-DAMDGPU_TARGETS="@ + c.rocm_gfx->0@,
    )
}

/// The cmake configure and build steps.
pub open spec fn build_steps(repo: Seq<char>, c: BuildCheck, sel: BackendSelection) -> Seq<Step> {
    seq![
        ("cmake"@, configure_args(repo, c, sel)),
        (
            "cmake"@,
            seq!["--build"@, repo + "/build"@, "--config"@, "Release"@, "-j"@],
        ),
    ]
}

pub open spec fn repo_text(c: BuildCheck) -> Seq<char> {
    match c.repo {
        Some(r) => r@,
        None => Seq::empty(),
    }
}

/// The steps of a rebuild: a pull that only fast-forwards, then the build.
pub open spec fn rebuild_steps(c: BuildCheck, sel: BackendSelection) -> Seq<Step> {
    seq![("git"@, seq!["-C"@, repo_text(c), "pull"@, "--ff-only"@])] + build_steps(
        repo_text(c),
        c,
        sel,
    )
}

fn option(name: &str, on: bool) -> (r: String)
    ensures
        r@ == name@ + on_off(on),
{
    let mut s = copy_text(name);
    s.append(
        if on {
            "ON"
        } else {
            "OFF"
        },
    );
    s
}

fn under(repo: &str, rel: &str) -> (r: String)
    ensures
        r@ == repo@ + rel@,
{
    let mut s = copy_text(repo);
    s.append(rel);
    s
}

/// The cmake configure+build steps alone (no git) — shared with the
/// managed checkout, whose git state is tag-pinned (a `pull --ff-only`
/// on a detached HEAD would fail).
pub fn build_commands(repo: &str, c: &BuildCheck, sel: BackendSelection) -> (r: Vec<
    (String, Vec<String>),
>)
    ensures
        step_views(r@) == build_steps(repo@, *c, sel),
{
    broadcast use crate::text::lemma_texts_push;

    let mut cfg: Vec<String> = vec![
        copy_text("-S"),
        copy_text(repo),
        copy_text("-B"),
        under(repo, "/build"),
        option("-DGGML_CUDA=", sel.cuda),
    ];
    let ghost p0 = seq![
        "-S"@,
        repo@,
        "-B"@,
        repo@ + "/build"@,
        "-DGGML_CUDA="@ + on_off(sel.cuda),
    ];
    assert(texts(cfg@) =~= p0);
    if sel.cuda {
        if let Some(arch) = &c.cuda_arch {
            cfg.push(under("-DCMAKE_CUDA_ARCHITECTURES=", arch.as_str()));
        }
    }
    let ghost p1 = p0 + text_if(
        sel.cuda && c.cuda_arch is Some,
        "-DCMAKE_CUDA_ARCHITECTURES="@ + c.cuda_arch->0@,
    );
    assert(texts(cfg@) =~= p1);
    cfg.push(option("-DGGML_VULKAN=", sel.vulkan));
    cfg.push(option("-DGGML_HIP=", sel.hip));
    let ghost p2 = p1 + seq!["-DGGML_VULKAN="@ + on_off(sel.vulkan), "-DGGML_HIP="@ + on_off(
        sel.hip,
    )];
    assert(texts(cfg@) =~= p2);
    if sel.hip {
        if let Some(gfx) = &c.rocm_gfx {
            cfg.push(under("-DAMDGPU_TARGETS=", gfx.as_str()));
        }
    }
    assert(texts(cfg@) =~= configure_args(repo@, *c, sel));
    let build: Vec<String> = vec![
        copy_text("--build"),
        under(repo, "/build"),
        copy_text("--config"),
        copy_text("Release"),
        copy_text("-j"),
    ];
    assert(texts(build@) =~= seq![
        "--build"@,
        repo@ + "/build"@,
        "--config"@,
        "Release"@,
        "-j"@,
    ]);
    let v: Vec<(String, Vec<String>)> = vec![
        (copy_text("cmake"), cfg),
        (copy_text("cmake"), build),
    ];
    assert(step_views(v@) =~= build_steps(repo@, *c, sel));
    v
}

/// The exact commands the rebuild runs — also shown in the advanced
/// section so nothing is hidden. Pure over the check + selection; no
/// backend selected = a CPU-only build (valid, if slow).
pub fn rebuild_commands(c: &BuildCheck, sel: BackendSelection) -> (r: Vec<(String, Vec<String>)>)
    ensures
        step_views(r@) == rebuild_steps(*c, sel),
{
    let repo = match &c.repo {
        Some(r) => r.clone(),
        None => String::new(),
    };
    let pull: Vec<String> = vec![
        copy_text("-C"),
        repo.clone(),
        copy_text("pull"),
        copy_text("--ff-only"),
    ];
    assert(texts(pull@) =~= seq!["-C"@, repo@, "pull"@, "--ff-only"@]);
    let mut v: Vec<(String, Vec<String>)> = vec![(copy_text("git"), pull)];
    assert(step_views(v@) =~= seq![("git"@, seq!["-C"@, repo@, "pull"@, "--ff-only"@])]);
    let ghost first = v@;
    let mut more = build_commands(repo.as_str(), c, sel);
    let ghost rest = more@;
    v.append(&mut more);
    assert(v@ == first + rest);
    assert(step_views(v@) =~= step_views(first) + step_views(rest));
    v
}

/// The commands of a rebuild, refused without a checkout to rebuild.
pub fn rebuild_plan(c: &BuildCheck, sel: BackendSelection) -> (r: Result<
    Vec<(String, Vec<String>)>,
    String,
>)
    ensures
        match r {
            Ok(v) => c.repo is Some && step_views(v@) == rebuild_steps(*c, sel),
            Err(e) => c.repo is None && e@ == "no git checkout to rebuild"@,
        },
{
    if c.repo.is_none() {
        return Err(copy_text("no git checkout to rebuild"));
    }
    Ok(rebuild_commands(c, sel))
}

/// The updater never clobbers local work, and every backend is stated on or
/// off, so none is inherited from an earlier configure.
pub proof fn rebuilds_are_explicit(c: BuildCheck, sel: BackendSelection)
    ensures
        rebuild_steps(c, sel).len() == 3,
        rebuild_steps(c, sel)[0].0 == "git"@,
        rebuild_steps(c, sel)[0].1.contains("--ff-only"@),
        rebuild_steps(c, sel)[1].1.contains("-DGGML_CUDA="@ + on_off(sel.cuda)),
        rebuild_steps(c, sel)[1].1.contains("-DGGML_VULKAN="@ + on_off(sel.vulkan)),
        rebuild_steps(c, sel)[1].1.contains("-DGGML_HIP="@ + on_off(sel.hip)),
{
    let s = rebuild_steps(c, sel);
    assert(s[0].1[3] == "--ff-only"@);
    let a = configure_args(repo_text(c), c, sel);
    assert(s[1].1 == a);
    assert(a[4] == "-DGGML_CUDA="@ + on_off(sel.cuda));
    let k: int = if sel.cuda && c.cuda_arch is Some {
        6
    } else {
        5
    };
    assert(a[k] == "-DGGML_VULKAN="@ + on_off(sel.vulkan));
    assert(a[k + 1] == "-DGGML_HIP="@ + on_off(sel.hip));
}

/// A step as it is announced.
pub fn step_line(cmd: &str, args: &[String]) -> (r: String)
    ensures
        r@ == "$ "@ + cmd@ + " "@ + join(texts(args@), " "@),
{
    let mut s = copy_text("$ ");
    s.append(cmd);
    s.append(" ");
    s.append(join_texts(args, " ").as_str());
    s
}

/// Whether the `n`th line of a build is narrated: builds emit thousands of
/// lines; the interesting ones and a heartbeat for the rest are enough.
pub fn is_narrated(line: &str, n: u64) -> (r: bool)
    ensures
        r == (contains(line@, "%"@) || contains(line@, "Building"@) || n % 50 == 0),
{
    let c = chars_of(line);
    has_text(&c, "%") || has_text(&c, "Building") || n % 50 == 0
}

/// How much of a failing step's error output is kept.
pub const ERROR_TAIL: usize = 30;

/// Appends a line to an output's tail, of which no more than the last lines
/// are kept.
pub fn keep_tail(kept: &mut Vec<String>, line: String)
    requires
        old(kept).len() <= ERROR_TAIL,
    ensures
        final(kept)@ == if old(kept)@.len() < ERROR_TAIL {
            old(kept)@.push(line)
        } else {
            old(kept)@.push(line).skip(1)
        },
        final(kept).len() <= ERROR_TAIL,
{
    let ghost before = kept@;
    kept.push(line);
    if kept.len() > ERROR_TAIL {
        let _ = kept.remove(0);
        assert(kept@ =~= before.push(line).skip(1));
    }
}

// ------------------------------------------------------------- the full check

/// What the machine's tools answered; `None` where one is absent or failed.
#[derive(Debug, Clone)]
pub struct MachineProbe {
    /// `nvidia-smi --query-gpu=compute_cap`.
    pub compute_cap: Option<String>,
    /// `nvcc --version`.
    pub nvcc: Option<String>,
    /// `glslc --version`.
    pub glslc: Option<String>,
    /// `vulkaninfo --summary`.
    pub vulkaninfo: Option<String>,
    /// `hipcc --version`.
    pub hipcc: Option<String>,
    /// `rocminfo`.
    pub rocminfo: Option<String>,
    /// `cmake --version`.
    pub cmake: Option<String>,
    /// `nvidia-smi --query-gpu=persistence_mode`.
    pub persistence_mode: Option<String>,
    /// `systemctl show nvidia-persistenced -p ExecStart`.
    pub exec_start: Option<String>,
}

/// What git answered of the checkout.
#[derive(Debug, Clone)]
pub struct RepoProbe {
    pub repo: String,
    /// `git describe --tags --abbrev=0 HEAD`.
    pub describe_head: Option<String>,
    /// `git status --porcelain`.
    pub porcelain: Option<String>,
    /// `git symbolic-ref -q HEAD`: answers only on a branch.
    pub symbolic_ref: Option<String>,
    /// Whether the fetch — the only network step — succeeded.
    pub fetched: bool,
    /// `git describe --tags --abbrev=0 origin/master`.
    pub describe_upstream: Option<String>,
    /// `git rev-list --count HEAD..origin/master`.
    pub behind: Option<String>,
}

/// The first line from `from` on that contains `mark`.
pub open spec fn line_with(l: Seq<Seq<char>>, mark: Seq<char>, from: int) -> Option<Seq<char>>
    decreases l.len() - from,
{
    if from < 0 || from >= l.len() {
        None
    } else if contains(l[from], mark) {
        Some(l[from])
    } else {
        line_with(l, mark, from + 1)
    }
}

/// The compiler's release line.
pub open spec fn release_line(v: Seq<char>) -> Seq<char> {
    trim(
        match line_with(lines(v), "release"@, 0) {
            Some(l) => l,
            None => "present"@,
        },
    )
}

/// The compiler's first line.
pub open spec fn version_line(v: Seq<char>) -> Seq<char> {
    trim(
        if lines(v).len() > 0 {
            lines(v)[0]
        } else {
            "present"@
        },
    )
}

fn release(v: &str) -> (r: String)
    ensures
        r@ == release_line(v@),
{
    let c = chars_of(v);
    let l = lines_of(&c);
    let ghost all = views(l@);
    let present = chars_of("present");
    let mut i: usize = 0;
    while i < l.len()
        invariant
            i <= l.len(),
            all == views(l@),
            all == lines(v@),
            line_with(all, "release"@, 0) == line_with(all, "release"@, i as int),
        decreases l.len() - i,
    {
        assert(all[i as int] == l@[i as int]@);
        if has_text(l[i], "release") {
            return text_of(trimmed(l[i]));
        }
        i += 1;
    }
    text_of(trimmed(&present))
}

fn version(v: &str) -> (r: String)
    ensures
        r@ == version_line(v@),
{
    let c = chars_of(v);
    let l = lines_of(&c);
    let present = chars_of("present");
    assert(views(l@).len() == l@.len());
    if l.len() > 0 {
        assert(views(l@)[0] == l@[0]@);
        text_of(trimmed(l[0]))
    } else {
        text_of(trimmed(&present))
    }
}

/// What the check says, field by field, of what was probed.
pub open spec fn checked(
    c: BuildCheck,
    server_bin: Option<Seq<char>>,
    current_build: Option<u64>,
    locked: Seq<Seq<char>>,
    m: MachineProbe,
    r: Option<RepoProbe>,
) -> bool {
    &&& opt_text(c.server_bin) == server_bin
    &&& c.current_build == current_build
    &&& texts(c.locked_models@) == locked
    &&& opt_text(c.cuda_arch) == match m.compute_cap {
        Some(t) => compute_cap(t@),
        None => None,
    }
    &&& opt_text(c.nvcc) == match m.nvcc {
        Some(t) => Some(release_line(t@)),
        None => None,
    }
    &&& c.glslc == (m.glslc is Some)
    &&& c.vulkan_runtime == (m.vulkaninfo is Some)
    &&& opt_text(c.hipcc) == match m.hipcc {
        Some(t) => Some(version_line(t@)),
        None => None,
    }
    &&& opt_text(c.rocm_gfx) == match m.rocminfo {
        Some(t) => first_gfx(lines(t@), 0),
        None => None,
    }
    &&& c.cmake == (m.cmake is Some)
    &&& c.persistence_mode == match m.persistence_mode {
        Some(t) => match first_line(t@) {
            Some(l) => if l == "Enabled"@ {
                Some(true)
            } else if l == "Disabled"@ {
                Some(false)
            } else {
                None
            },
            None => None,
        },
        None => None,
    }
    &&& opt_text(c.persistence_fix) == match m.exec_start {
        Some(t) => persistence_fix(t@),
        None => None,
    }
    &&& repo_checked(c, r)
}

/// What the check says of the checkout: nothing where there is none, and
/// nothing of upstream where the fetch failed.
pub open spec fn repo_checked(c: BuildCheck, r: Option<RepoProbe>) -> bool {
    match r {
        None => c.repo is None && c.source_build is None && c.dirty is None && c.detached is None
            && c.upstream_build is None && c.behind is None,
        Some(p) => {
            &&& opt_text(c.repo) == Some(p.repo@)
            &&& c.source_build == match p.describe_head {
                Some(t) => build_tag(t@),
                None => None,
            }
            &&& c.dirty == match p.porcelain {
                Some(t) => Some(t@.len() > 0),
                None => None,
            }
            &&& c.detached == Some(p.symbolic_ref is None)
            &&& c.upstream_build == upstream_tag(p)
            &&& c.behind == upstream_behind(p)
        },
    }
}

pub open spec fn upstream_tag(p: RepoProbe) -> Option<u64> {
    if p.fetched {
        match p.describe_upstream {
            Some(t) => build_tag(t@),
            None => None,
        }
    } else {
        None
    }
}

pub open spec fn upstream_behind(p: RepoProbe) -> Option<u64> {
    if p.fetched {
        match p.behind {
            Some(t) => parse_u64(t@),
            None => None,
        }
    } else {
        None
    }
}

fn tag_of(o: &Option<String>) -> (r: Option<u64>)
    ensures
        r == match *o {
            Some(t) => build_tag(t@),
            None => None,
        },
{
    match o {
        Some(t) => parse_build_tag(t.as_str()),
        None => None,
    }
}

fn count_of(o: &Option<String>) -> (r: Option<u64>)
    ensures
        r == match *o {
            Some(t) => parse_u64(t@),
            None => None,
        },
{
    match o {
        Some(t) => {
            let c = chars_of(t.as_str());
            parse_number(&c)
        },
        None => None,
    }
}

/// The full check, from what the machine's tools and git answered. A failed
/// fetch leaves the upstream fields unknown.
pub fn check(
    server_bin: Option<&str>,
    current_build: Option<u64>,
    measurements: &Measurements,
    router_log: Option<&str>,
    m: &MachineProbe,
    r: Option<&RepoProbe>,
) -> (c: BuildCheck)
    ensures
        checked(
            c,
            opt_str(server_bin),
            current_build,
            locked_of(measurements@, mined_of(opt_str(router_log))),
            *m,
            match r {
                Some(p) => Some(*p),
                None => None,
            },
        ),
{
    let mut c = BuildCheck {
        server_bin: match server_bin {
            Some(s) => Some(copy_text(s)),
            None => None,
        },
        repo: None,
        current_build,
        source_build: None,
        upstream_build: None,
        behind: None,
        dirty: None,
        detached: None,
        cuda_arch: match &m.compute_cap {
            Some(t) => parse_compute_cap(t.as_str()),
            None => None,
        },
        nvcc: match &m.nvcc {
            Some(t) => Some(release(t.as_str())),
            None => None,
        },
        glslc: m.glslc.is_some(),
        vulkan_runtime: m.vulkaninfo.is_some(),
        hipcc: match &m.hipcc {
            Some(t) => Some(version(t.as_str())),
            None => None,
        },
        rocm_gfx: match &m.rocminfo {
            Some(t) => parse_gfx_target(t.as_str()),
            None => None,
        },
        cmake: m.cmake.is_some(),
        persistence_mode: match &m.persistence_mode {
            Some(t) => parse_persistence_mode(t.as_str()),
            None => None,
        },
        persistence_fix: match &m.exec_start {
            Some(t) => persistence_fix_from_execstart(t.as_str()),
            None => None,
        },
        locked_models: locked_models(measurements, router_log),
    };
    if let Some(p) = r {
        c.repo = Some(p.repo.clone());
        c.source_build = tag_of(&p.describe_head);
        c.dirty = match &p.porcelain {
            Some(t) => Some(!t.as_str().is_empty()),
            None => None,
        };
        c.detached = Some(p.symbolic_ref.is_none());
        if p.fetched {
            c.upstream_build = tag_of(&p.describe_upstream);
            c.behind = count_of(&p.behind);
        }
    }
    c
}

/// The daily upstream freshness probe, persisted so app restarts don't
/// refetch inside the interval.
#[derive(Debug, Clone)]
pub struct UpstreamStatus {
    /// Unix seconds when the probe ran.
    pub checked_epoch: u64,
    /// Binary build at probe time (staleness comparisons stay honest even
    /// if the binary changes later).
    pub current_build: Option<u64>,
    pub upstream_build: Option<u64>,
    /// Commits between the checkout's HEAD and origin/master.
    pub behind: Option<u64>,
    /// false = fetch failed (offline) — freshness is UNKNOWN, not "fine".
    pub reachable: bool,
}

pub const UPSTREAM_CHECK_INTERVAL_SECS: u64 = 86_400;

/// The probe's result, from what git answered of the checkout.
pub fn upstream_probe(now: u64, current_build: Option<u64>, r: Option<&RepoProbe>) -> (s:
    UpstreamStatus)
    ensures
        s.checked_epoch == now,
        s.current_build == current_build,
        match r {
            Some(p) => s.reachable == p.fetched && s.upstream_build == upstream_tag(*p) && s.behind
                == upstream_behind(*p),
            None => !s.reachable && s.upstream_build is None && s.behind is None,
        },
{
    let mut s = UpstreamStatus {
        checked_epoch: now,
        current_build,
        upstream_build: None,
        behind: None,
        reachable: false,
    };
    if let Some(p) = r {
        s.reachable = p.fetched;
        if p.fetched {
            s.upstream_build = tag_of(&p.describe_upstream);
            s.behind = count_of(&p.behind);
        }
    }
    s
}

/// A failed fetch says nothing of upstream: freshness is unknown, not fine.
pub proof fn offline_is_unknown(p: RepoProbe)
    requires
        !p.fetched,
    ensures
        upstream_tag(p) is None,
        upstream_behind(p) is None,
{
}

// ------------------------------------------------------------- the checkout

/// Where the checkout of a `<repo>/build/bin/llama-server` would be.
pub open spec fn repo_place(server_bin: Seq<char>) -> Option<Seq<char>> {
    match parent(server_bin) {
        Some(bin) => match parent(bin) {
            Some(build) => parent(build),
            None => None,
        },
        None => None,
    }
}

/// Where the checkout of a `<repo>/build/bin/llama-server` would be.
pub fn repo_candidate(server_bin: &str) -> (r: Option<String>)
    ensures
        opt_text(r) == repo_place(server_bin@),
{
    match parent_of(server_bin) {
        Some(bin) => match parent_of(bin.as_str()) {
            Some(build) => parent_of(build.as_str()),
            None => None,
        },
        None => None,
    }
}

/// The git checkout of a llama-server. A PINNED ARCHIVE binary has no
/// checkout above it — its source is the managed clone. `has_git` says
/// whether the candidate is a checkout, `managed` names the managed clone
/// where the binary lives in the app's data dir and the clone is there.
pub fn repo_of(server_bin: &str, has_git: bool, managed: Option<&str>) -> (r: Option<String>)
    ensures
        opt_text(r) == match repo_place(server_bin@) {
            Some(p) => if has_git {
                Some(p)
            } else {
                opt_str(managed)
            },
            None => None,
        },
{
    match repo_candidate(server_bin) {
        Some(p) => if has_git {
            Some(p)
        } else {
            match managed {
                Some(m) => Some(copy_text(m)),
                None => None,
            }
        },
        None => None,
    }
}

pub const CMAKE_HOME: &'static str = "CMAKE_HOME_DIRECTORY:INTERNAL=";

pub open spec fn home_line(l: Seq<Seq<char>>, from: int) -> Option<Seq<char>>
    decreases l.len() - from,
{
    if from < 0 || from >= l.len() {
        None
    } else {
        match strip_prefix(l[from], CMAKE_HOME@) {
            Some(h) => Some(trim(h)),
            None => home_line(l, from + 1),
        }
    }
}

/// The source directory that a CMakeCache.txt records.
pub fn recorded_source(cache: &str) -> (r: Option<String>)
    ensures
        opt_text(r) == home_line(lines(cache@), 0),
{
    let c = chars_of(cache);
    let l = lines_of(&c);
    let ghost all = views(l@);
    let mut i: usize = 0;
    while i < l.len()
        invariant
            i <= l.len(),
            all == views(l@),
            all == lines(cache@),
            home_line(all, 0) == home_line(all, i as int),
        decreases l.len() - i,
    {
        assert(all[i as int] == l@[i as int]@);
        if let Some(h) = without_prefix(l[i], CMAKE_HOME) {
            return Some(text_of(trimmed(h)));
        }
        i += 1;
    }
    None
}

pub const MOVED: &'static str = " — checkout has moved; clearing the \
             cmake cache for a fresh configure (built binaries kept until the \
             new build succeeds)";

/// What is said where a build cache was created for another source: cmake
/// refuses a cache whose recorded source dir no longer matches, and its
/// configure state is pure machine-generated artifact. The resolved paths
/// are compared where both resolve; a recorded path that is gone is stale
/// unless it is the checkout's own.
pub fn stale_cache(
    recorded: &str,
    recorded_real: Option<&str>,
    repo: &str,
    repo_real: Option<&str>,
) -> (r: Option<String>)
    ensures
        ({
            let same = match (recorded_real, repo_real) {
                (Some(a), Some(b)) => crate::path::components(a@) == crate::path::components(b@),
                _ => crate::path::components(recorded@) == crate::path::components(repo@),
            };
            opt_text(r) == if same {
                None
            } else {
                Some("build cache was created at "@ + recorded@ + MOVED@)
            }
        }),
{
    let same = match (recorded_real, repo_real) {
        (Some(a), Some(b)) => same_path(a, b),
        _ => same_path(recorded, repo),
    };
    if same {
        return None;
    }
    let mut s = copy_text("build cache was created at ");
    s.append(recorded);
    s.append(MOVED);
    Some(s)
}

/// The number in a text begins it with a digit.
proof fn lemma_dec_first(n: nat)
    ensures
        dec(n).len() > 0,
        crate::text::is_digit(dec(n)[0]),
{
    crate::num::lemma_dec_parses(n);
}

/// A summary is never empty. It begins with the regression where there is
/// one, says that nothing changed where nothing did, and ends with the nudge
/// to report upstream where a model stopped loading or the contexts shrank by
/// 5% or more on average, and only there.
pub proof fn a_summary_says_what_changed(r: VerifyView)
    ensures
        summary_of(r).len() > 0,
        r.newly_locked.len() > 0 <==> starts_with(summary_of(r)[0], "⚠ REGRESSION"@),
        r.newly_locked.len() == 0 && r.unlocked.len() == 0 && r.still_locked.len() == 0
            && r.ctx_shifts.len() == 0 <==> summary_of(r) == seq![NO_CHANGES@],
        r.newly_locked.len() > 0 || mean_fell(r.ctx_shifts) <==> summary_of(r).last()
            == WORTH_REPORTING@,
{
    reveal_strlit("⚠ REGRESSION");
    reveal_strlit("⚠ REGRESSION: ");
    reveal_strlit("still locked (");
    reveal_strlit("measured context shifted on ");
    reveal_strlit("no measured changes — same locks, same contexts");
    reveal_strlit(
        "this looks worth reporting upstream — Tools -> Export Findings Report \
             (or `--report`) writes a sanitized summary you can review and post",
    );
    lemma_dec_first(r.unlocked.len());
    let all = summary_of(r);
    let f = findings_of(r);
    if r.newly_locked.len() > 0 {
        let head = "⚠ REGRESSION"@;
        assert(f[0] == "⚠ REGRESSION: "@ + dec(r.newly_locked.len()) + FAIL_NOW@ + join(
            r.newly_locked,
            ", "@,
        ));
        assert(all[0] == f[0]);
        assert(f[0].subrange(0, head.len() as int) =~= head);
    } else {
        assert(all[0][0] != '⚠');
        if starts_with(all[0], "⚠ REGRESSION"@) {
            assert(all[0].subrange(0, "⚠ REGRESSION"@.len() as int)[0] == '⚠');
        }
    }
    assert(all.last()[0] == 't' <==> r.newly_locked.len() > 0 || mean_fell(r.ctx_shifts));
}

/// What a rebuild did to each model that was measured before and after it: unlocked where
/// an error went and a context came, locked still where an error stayed, newly locked where
/// one came, and shifted where the context became another.
pub proof fn a_rebuild_is_told_model_by_model(
    before: Seq<(Seq<char>, Measurement)>,
    after: Seq<(Seq<char>, Measurement)>,
    i: int,
)
    requires
        0 <= i < before.len(),
        lookup(after, before[i].0) is Some,
    ensures
        ({
            let id = before[i].0;
            let b = before[i].1;
            let a = lookup(after, id)->0;
            let r = outcome_of(before, after);
            &&& b.error is Some && a.error is None && a.n_ctx is Some ==> r.unlocked.contains(id)
            &&& b.error is Some && a.error is Some ==> r.still_locked.contains(id)
            &&& b.error is None && a.error is Some ==> r.newly_locked.contains(id)
            &&& b.n_ctx is Some && a.n_ctx is Some && b.n_ctx != a.n_ctx ==> r.ctx_shifts.contains(
                (id, b.n_ctx->0, a.n_ctx->0),
            )
        }),
    decreases before.len(),
{
    let s = before.drop_last();
    let id = before[i].0;
    let was = outcome_of(s, after);
    let r = outcome_of(before, after);
    if i < s.len() {
        assert(s[i] == before[i]);
        a_rebuild_is_told_model_by_model(s, after, i);
        lemma_more_text(was.unlocked, r.unlocked, id);
        lemma_more_text(was.still_locked, r.still_locked, id);
        lemma_more_text(was.newly_locked, r.newly_locked, id);
        let b = before[i].1;
        let a = lookup(after, id)->0;
        if b.n_ctx is Some && a.n_ctx is Some && b.n_ctx != a.n_ctx {
            let x = (id, b.n_ctx->0, a.n_ctx->0);
            let k = choose|k: int| 0 <= k < was.ctx_shifts.len() && was.ctx_shifts[k] == x;
            assert(r.ctx_shifts[k] == x);
        }
    } else {
        if r.unlocked.len() > was.unlocked.len() {
            assert(r.unlocked[r.unlocked.len() - 1] == id);
        }
        if r.still_locked.len() > was.still_locked.len() {
            assert(r.still_locked[r.still_locked.len() - 1] == id);
        }
        if r.newly_locked.len() > was.newly_locked.len() {
            assert(r.newly_locked[r.newly_locked.len() - 1] == id);
        }
        if r.ctx_shifts.len() > was.ctx_shifts.len() {
            let x = r.ctx_shifts[r.ctx_shifts.len() - 1];
            assert(r.ctx_shifts.contains(x));
        }
    }
}

proof fn lemma_more_text(before: Seq<Seq<char>>, now: Seq<Seq<char>>, t: Seq<char>)
    requires
        before.len() <= now.len(),
        forall|k: int| 0 <= k < before.len() ==> #[trigger] now[k] == before[k],
    ensures
        before.contains(t) ==> now.contains(t),
{
    if before.contains(t) {
        let k = choose|k: int| 0 <= k < before.len() && before[k] == t;
        assert(now[k] == t);
    }
}

/// Nothing is told of a rebuild that the two measurements do not show.
pub proof fn a_rebuild_is_told_nothing_else(
    before: Seq<(Seq<char>, Measurement)>,
    after: Seq<(Seq<char>, Measurement)>,
    id: Seq<char>,
)
    requires
        sorted(before),
    ensures
        ({
            let r = outcome_of(before, after);
            let b = lookup(before, id);
            let a = lookup(after, id);
            &&& r.unlocked.contains(id) ==> b is Some && a is Some && b->0.error is Some
                && a->0.error is None && a->0.n_ctx is Some
            &&& r.still_locked.contains(id) ==> b is Some && a is Some && b->0.error is Some
                && a->0.error is Some
            &&& r.newly_locked.contains(id) ==> b is Some && a is Some && b->0.error is None
                && a->0.error is Some
            &&& forall|x: u64, y: u64| #[trigger]
                r.ctx_shifts.contains((id, x, y)) ==> b is Some && a is Some && b->0.n_ctx == Some(x)
                    && a->0.n_ctx == Some(y) && x != y
        }),
{
    lemma_told_of(before, after, id);
    let r = outcome_of(before, after);
    if exists|i: int| #[trigger] is_told_of(before, id, i) {
        let i = choose|i: int| #[trigger] is_told_of(before, id, i);
        crate::textmap::lemma_lookup_at(before, i);
    }
    assert forall|i: int| #[trigger] is_told_of(before, id, i) implies lookup(before, id) == Some(
        before[i].1,
    ) by {
        crate::textmap::lemma_lookup_at(before, i);
    }
}

spec fn is_told_of(before: Seq<(Seq<char>, Measurement)>, id: Seq<char>, i: int) -> bool {
    0 <= i < before.len() && before[i].0 == id
}

proof fn lemma_told_of(
    before: Seq<(Seq<char>, Measurement)>,
    after: Seq<(Seq<char>, Measurement)>,
    id: Seq<char>,
)
    ensures
        ({
            let r = outcome_of(before, after);
            let a = lookup(after, id);
            &&& r.unlocked.contains(id) ==> exists|i: int| #[trigger]
                is_told_of(before, id, i) && a is Some && before[i].1.error is Some
                    && a->0.error is None && a->0.n_ctx is Some
            &&& r.still_locked.contains(id) ==> exists|i: int| #[trigger]
                is_told_of(before, id, i) && a is Some && before[i].1.error is Some
                    && a->0.error is Some
            &&& r.newly_locked.contains(id) ==> exists|i: int| #[trigger]
                is_told_of(before, id, i) && a is Some && before[i].1.error is None
                    && a->0.error is Some
            &&& forall|x: u64, y: u64| #[trigger]
                r.ctx_shifts.contains((id, x, y)) ==> exists|i: int| #[trigger]
                    is_told_of(before, id, i) && a is Some && before[i].1.n_ctx == Some(x)
                        && a->0.n_ctx == Some(y) && x != y
        }),
    decreases before.len(),
{
    if before.len() > 0 {
        let s = before.drop_last();
        let n = before.len() - 1;
        lemma_told_of(s, after, id);
        assert forall|i: int| #[trigger] is_told_of(s, id, i) implies is_told_of(before, id, i)
            && before[i] == s[i] by {}
        let was = outcome_of(s, after);
        let r = outcome_of(before, after);
        let a = lookup(after, id);
        assert(before[n].0 == id ==> is_told_of(before, id, n));
        if r.unlocked.contains(id) && !was.unlocked.contains(id) {
            let k = choose|k: int| 0 <= k < r.unlocked.len() && r.unlocked[k] == id;
            assert(k == was.unlocked.len() || was.unlocked[k] == id);
            assert(is_told_of(before, id, n));
        }
        if r.still_locked.contains(id) && !was.still_locked.contains(id) {
            let k = choose|k: int| 0 <= k < r.still_locked.len() && r.still_locked[k] == id;
            assert(k == was.still_locked.len() || was.still_locked[k] == id);
            assert(is_told_of(before, id, n));
        }
        if r.newly_locked.contains(id) && !was.newly_locked.contains(id) {
            let k = choose|k: int| 0 <= k < r.newly_locked.len() && r.newly_locked[k] == id;
            assert(k == was.newly_locked.len() || was.newly_locked[k] == id);
            assert(is_told_of(before, id, n));
        }
        if was.unlocked.contains(id) {
            let i = choose|i: int| #[trigger]
                is_told_of(s, id, i) && a is Some && s[i].1.error is Some && a->0.error is None
                    && a->0.n_ctx is Some;
            assert(is_told_of(before, id, i));
        }
        if was.still_locked.contains(id) {
            let i = choose|i: int| #[trigger]
                is_told_of(s, id, i) && a is Some && s[i].1.error is Some && a->0.error is Some;
            assert(is_told_of(before, id, i));
        }
        if was.newly_locked.contains(id) {
            let i = choose|i: int| #[trigger]
                is_told_of(s, id, i) && a is Some && s[i].1.error is None && a->0.error is Some;
            assert(is_told_of(before, id, i));
        }
        assert forall|x: u64, y: u64| #[trigger] r.ctx_shifts.contains((id, x, y)) implies exists|
            i: int,
        | #[trigger]
            is_told_of(before, id, i) && a is Some && before[i].1.n_ctx == Some(x) && a->0.n_ctx
                == Some(y) && x != y by {
            if was.ctx_shifts.contains((id, x, y)) {
                let i = choose|i: int| #[trigger]
                    is_told_of(s, id, i) && a is Some && s[i].1.n_ctx == Some(x) && a->0.n_ctx
                        == Some(y) && x != y;
                assert(is_told_of(before, id, i));
            } else {
                let k = choose|k: int| 0 <= k < r.ctx_shifts.len() && r.ctx_shifts[k] == (id, x, y);
                assert(k == was.ctx_shifts.len() || was.ctx_shifts[k] == (id, x, y));
                assert(is_told_of(before, id, n));
            }
        }
    }
}

/// A backend is chosen where both its card and its compiler are there; Vulkan needs its
/// shader compiler alone.
pub proof fn a_backend_needs_card_and_compiler(c: BuildCheck)
    ensures
        backends_of(c).cuda <==> c.cuda_arch is Some && c.nvcc is Some,
        backends_of(c).vulkan <==> c.glslc,
        backends_of(c).hip <==> c.hipcc is Some && c.rocm_gfx is Some,
        !c.cmake ==> toolchain_cards(c).len() == 1,
        c.cmake ==> toolchain_cards(c).len() == 1 + (if c.cuda_arch is Some && c.nvcc is None {
            1int
        } else {
            0
        }) + (if c.vulkan_runtime && !c.glslc {
            1int
        } else {
            0
        }) + (if c.rocm_gfx is Some && c.hipcc is None {
            1int
        } else {
            0
        }),
{
}

/// A binary is behind just where upstream's build is the later one, and is told by how many
/// builds; one without an upstream is never told to be up to date.
pub proof fn a_binary_is_behind_where_upstream_is_later(c: BuildCheck, cur: u64)
    requires
        c.current_build == Some(cur),
    ensures
        c.upstream_build is None ==> !up_to_date(c),
        c.upstream_build is Some ==> (up_to_date(c) <==> c.upstream_build->0 <= cur),
        c.upstream_build is Some && c.upstream_build->0 > cur && c.behind is Some
            ==> freshness_card(c).0 == "Your llama.cpp binary is "@ + dec(
            (c.upstream_build->0 - cur) as nat,
        ) + " builds behind upstream (b"@ + dec(cur as nat) + " -> b"@ + dec(
            c.upstream_build->0 as nat,
        ) + ")"@,
        c.source_build is Some && c.source_build->0 > cur <==> source_cards(c).len() == 1,
{
}

/// A model counts as locked for its format alone: by its own error, or by the log's where
/// its own says nothing.
pub proof fn only_formats_lock(m: Measurement, mined: Option<Seq<char>>)
    ensures
        m.error is None ==> !is_locked(m, mined),
        m.error is Some && cause_of(lowercase(m.error->0@)) == Cause::NeedsNewerBuild ==> is_locked(
            m,
            mined,
        ),
        m.error is Some && cause_of(lowercase(m.error->0@)) == Cause::Unknown && mined is Some ==> (
        is_locked(m, mined) <==> cause_of(lowercase(mined->0)) == Cause::NeedsNewerBuild),
        m.error is Some && (cause_of(lowercase(m.error->0@)) == Cause::OutOfMemory || cause_of(
            lowercase(m.error->0@),
        ) == Cause::BadBlob || cause_of(lowercase(m.error->0@)) == Cause::ServerBusy) ==> !is_locked(
            m,
            mined,
        ),
{
}

/// Some measurement under this id is that of a locked model.
pub open spec fn locks(
    all: Seq<(Seq<char>, Measurement)>,
    mined: Seq<(Seq<char>, Seq<char>)>,
    id: Seq<char>,
) -> bool {
    exists|j: int|
        0 <= j < all.len() && (#[trigger] all[j]).0 == id && is_locked(
            all[j].1,
            lookup(mined, all[j].0),
        )
}

/// Every model that is locked is listed, and no other.
pub proof fn every_locked_model_is_listed(
    all: Seq<(Seq<char>, Measurement)>,
    mined: Seq<(Seq<char>, Seq<char>)>,
    i: int,
)
    requires
        0 <= i < all.len(),
    ensures
        is_locked(all[i].1, lookup(mined, all[i].0)) ==> locked_of(all, mined).contains(all[i].0),
        forall|k: int|
            0 <= k < locked_of(all, mined).len() ==> locks(
                all,
                mined,
                #[trigger] locked_of(all, mined)[k],
            ),
    decreases all.len(),
{
    let s = all.drop_last();
    let before = locked_of(s, mined);
    let now = locked_of(all, mined);
    if s.len() > 0 {
        every_locked_model_is_listed(s, mined, if i < s.len() { i } else { 0 });
    }
    if i < s.len() {
        assert(s[i] == all[i]);
        lemma_more_text(before, now, all[i].0);
    } else if now.len() > before.len() {
        assert(now[now.len() - 1] == all[i].0);
    }
    assert forall|k: int| 0 <= k < now.len() implies locks(all, mined, #[trigger] now[k]) by {
        if k < before.len() {
            assert(before[k] == now[k]);
            let j = choose|j: int|
                0 <= j < s.len() && (#[trigger] s[j]).0 == before[k] && is_locked(
                    s[j].1,
                    lookup(mined, s[j].0),
                );
            assert(all[j] == s[j]);
        } else {
            assert(all[all.len() - 1].0 == now[k]);
        }
    }
}

/// A tag is read back as its build's number, with or without what git puts behind it.
pub proof fn a_tag_is_its_number(n: u64, behind: Seq<char>)
    requires
        behind.len() == 0 || behind[0] == '-',
        trim("b"@ + dec(n as nat) + behind) == "b"@ + dec(n as nat) + behind,
    ensures
        build_tag("b"@ + dec(n as nat) + behind) == Some(n),
{
    reveal_strlit("b");
    let d = dec(n as nat);
    let t = "b"@ + d + behind;
    crate::num::lemma_dec_parses(n as nat);
    crate::num::decimal_round_trip(n);
    assert(t.subrange(0, 1) =~= "b"@);
    let rest = t.skip(1);
    assert(rest =~= d + behind);
    let set = seq!['-', '.'];
    crate::text::lemma_next_of(rest, set, 0);
    let k = crate::text::next_of(rest, set, 0);
    assert(set[0] == '-' && set[1] == '.');
    if k < d.len() {
        assert(crate::text::is_digit(d[k]));
        assert(rest[k] == d[k]);
        assert(set.contains(rest[k]));
    }
    if behind.len() > 0 && k > d.len() {
        assert(rest[d.len() as int] == '-');
        assert(set.contains(rest[d.len() as int]));
    }
    assert(rest.take(k) =~= d);
}

} // verus!
