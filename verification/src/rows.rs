//! One row per model, joined from every truth source: disk (library),
//! the running router (server status), measurements, and opencode.json.
//! This is what the Library tab renders — a model's whole story in one line.
use crate::diagnose::{cause_hint, cause_of, classify, hint_of, short_hint, Cause};
use crate::gguf::GgufMeta;
use crate::library::{
    cache_id, display_of, embeds, is_embedding, quant_token, quant_token_from_filename, ModelFile,
    Source,
};
use crate::measurements::{Measurement, Measurements};
use crate::num::{dec, dec_text, fixed0, fixed0_text, parse_number, parse_u64};
use crate::path::{
    at_path, components, file_name, file_name_of, file_stem, file_stem_of, keep_then_find, PathMap,
};
use crate::router::{aliases_of, default_entries, RouterModel};
use crate::text::{
    chars_of, contains, copy_opt, copy_text, has_text, holds_text, is_ascii, lines, lines_of,
    lowercase, lowered, opt_str, opt_text, rcut_once, rsplit_once, same_text, starts_with,
    strip_prefix, strip_suffix, text_of, texts, to_upper, trim, trimmed, uppercase, views,
    without_prefix, without_suffix,
};
use crate::textmap::lookup;
use vstd::prelude::*;
use vstd::string::*;

verus! {

#[derive(Debug, Clone, Copy, PartialEq, Eq, Structural)]
pub enum AdviceLevel {
    /// Fine as-is.
    Good,
    /// Usable with caveats worth knowing.
    Warn,
    /// Not usable on this machine / this build.
    Bad,
    /// We simply don't know yet.
    Unknown,
}

#[derive(Debug, Clone)]
pub struct Row {
    /// Human name (file/ollama/repo based).
    pub display: String,
    /// The id the router serves this model under (preset alias or cache
    /// id). `None` when we can't predict it (then it can't be loaded from
    /// the Library row either).
    pub router_id: Option<String>,
    pub source: String,
    pub size_bytes: u64,
    pub quant: String,
    /// Set when the filename and header disagree about the quant — the
    /// column shows the filename's (more truthful for dynamic quants);
    /// this holds the header's stamp for the tooltip.
    pub quant_header_disagrees: Option<String>,
    pub train_ctx: Option<u64>,
    /// Measured settled context, when calibrated on this machine.
    pub measured_ctx: Option<u64>,
    pub failure: Option<String>,
    /// Live router status ("loaded"/"unloaded"/…), when the router is up
    /// and offers this model.
    pub server_status: Option<String>,
    pub in_opencode: bool,
    pub advice_level: AdviceLevel,
    pub advice: String,
    /// Disk path when this row came from a scanned file (router-only rows
    /// have none). Drives the Archive action.
    pub path: Option<String>,
    /// Archivable = lives in a store some other tool owns/prunes.
    pub archivable: bool,
    /// Feature badges: vision projector paired, MTP tensors present,
    /// embedding architecture.
    pub vision: bool,
    pub mtp: bool,
    pub embedding: bool,
    /// Baseline throughput (llama-bench): prompt-processing and generation
    /// tokens/sec in millionths, when benched on this machine.
    pub pp_tps: Option<i64>,
    pub tg_tps: Option<i64>,
}

pub struct RowView {
    pub display: Seq<char>,
    pub router_id: Option<Seq<char>>,
    pub source: Seq<char>,
    pub size_bytes: u64,
    pub quant: Seq<char>,
    pub quant_header_disagrees: Option<Seq<char>>,
    pub train_ctx: Option<u64>,
    pub measured_ctx: Option<u64>,
    pub failure: Option<Seq<char>>,
    pub server_status: Option<Seq<char>>,
    pub in_opencode: bool,
    pub advice_level: AdviceLevel,
    pub advice: Seq<char>,
    pub path: Option<Seq<char>>,
    pub archivable: bool,
    pub vision: bool,
    pub mtp: bool,
    pub embedding: bool,
    pub pp_tps: Option<i64>,
    pub tg_tps: Option<i64>,
}

impl View for Row {
    type V = RowView;

    open spec fn view(&self) -> RowView {
        RowView {
            display: self.display@,
            router_id: opt_text(self.router_id),
            source: self.source@,
            size_bytes: self.size_bytes,
            quant: self.quant@,
            quant_header_disagrees: opt_text(self.quant_header_disagrees),
            train_ctx: self.train_ctx,
            measured_ctx: self.measured_ctx,
            failure: opt_text(self.failure),
            server_status: opt_text(self.server_status),
            in_opencode: self.in_opencode,
            advice_level: self.advice_level,
            advice: self.advice@,
            path: opt_text(self.path),
            archivable: self.archivable,
            vision: self.vision,
            mtp: self.mtp,
            embedding: self.embedding,
            pp_tps: self.pp_tps,
            tg_tps: self.tg_tps,
        }
    }
}

pub open spec fn row_views(v: Seq<Row>) -> Seq<RowView> {
    Seq::new(v.len(), |i: int| v[i]@)
}

/// Hardware picture for advice. `vram_mib` is the largest single device
/// (models load onto one card until told otherwise); `ram_mib` total system.
#[derive(Debug, Clone, Copy)]
pub struct Hardware {
    pub vram_mib: u64,
    pub ram_mib: u64,
}

/// Context below which agentic coding gets painful: OpenCode's system
/// prompt + tool schemas + a few modest files already approach this.
pub const AGENT_MIN_CTX: u64 = 24_576;

/// The total that a line of /proc/meminfo states, in kB.
pub open spec fn mem_total_kb(line: Seq<char>) -> Option<u64> {
    match strip_prefix(line, "MemTotal:"@) {
        Some(rest) => match strip_suffix(trim(rest), " kB"@) {
            Some(n) => parse_u64(n),
            None => None,
        },
        None => None,
    }
}

/// The first total that the lines from `from` on state.
pub open spec fn first_total(l: Seq<Seq<char>>, from: int) -> Option<u64>
    decreases l.len() - from,
{
    if from < 0 || from >= l.len() {
        None
    } else {
        match mem_total_kb(l[from]) {
            Some(n) => Some(n),
            None => first_total(l, from + 1),
        }
    }
}

/// The system's memory in MiB, from the text of /proc/meminfo; 0 where it
/// does not say.
pub fn read_ram_mib(meminfo: &str) -> (r: u64)
    ensures
        r == match first_total(lines(meminfo@), 0) {
            Some(kb) => kb / 1024,
            None => 0,
        },
{
    let c = chars_of(meminfo);
    let l = lines_of(&c);
    let ghost all = views(l@);
    let mut i: usize = 0;
    while i < l.len()
        invariant
            i <= l.len(),
            all == views(l@),
            all == lines(meminfo@),
            first_total(all, 0) == first_total(all, i as int),
        decreases l.len() - i,
    {
        assert(all[i as int] == l@[i as int]@);
        if let Some(rest) = without_prefix(l[i], "MemTotal:") {
            if let Some(n) = without_suffix(trimmed(rest), " kB") {
                if let Some(kb) = parse_number(n) {
                    return kb / 1024;
                }
            }
        }
        i += 1;
    }
    0
}

/// Turn a stored load-failure string into something a user can act on.
pub fn failure_hint(error: &str) -> (r: String)
    ensures
        r@ == hint_of(cause_of(lowercase(error@))),
        is_ascii(error@) ==> r@ == hint_of(cause_of(lowered(error@))),
{
    short_hint(error)
}

// ---------------------------------------------------------------------- advice

pub const NO_TOOL_CALL: &'static str = " context, but produced NO tool call when probed — of limited use to OpenCode agents";

pub const SMALL_CONTEXT: &'static str = ") is small for agentic coding — consider a smaller quant";

pub const UNREADABLE: &'static str = "unreadable GGUF header — file may be corrupt or partial";

pub const PARTLY_CPU: &'static str = " GB VRAM — will run partly on CPU (slow); Load to measure what you actually get";

pub const NOT_MEASURED_YET: &'static str = "not measured yet — Load it (or Set Up Everything) for real numbers";

/// What a measured context is worth.
pub open spec fn measured_advice(ctx: u64, tool_call: Option<bool>) -> (AdviceLevel, Seq<char>) {
    if tool_call == Some(false) {
        (AdviceLevel::Warn, "measured "@ + dec(ctx as nat) + NO_TOOL_CALL@)
    } else if ctx < AGENT_MIN_CTX {
        (
            AdviceLevel::Warn,
            "runs, but the measured context ("@ + dec(ctx as nat) + SMALL_CONTEXT@,
        )
    } else {
        (
            AdviceLevel::Good,
            "measured: "@ + dec(ctx as nat) + " context"@ + (if tool_call == Some(true) {
                ", tool calls work"@
            } else {
                ""@
            }) + " on this machine"@,
        )
    }
}

/// What sizes alone predict. Weights + KV need headroom; a file near/above
/// VRAM spills to CPU (slow), near RAM+VRAM won't run at all.
pub open spec fn predicted_advice(readable: bool, size_bytes: u64, hw: Hardware) -> (
    AdviceLevel,
    Seq<char>,
) {
    let size = size_bytes / 1_048_576;
    let spare = if hw.ram_mib > 8192 {
        hw.ram_mib - 8192
    } else {
        0
    };
    let room = if hw.vram_mib > 1024 {
        hw.vram_mib - 1024
    } else {
        0
    };
    if !readable {
        (AdviceLevel::Bad, UNREADABLE@)
    } else if hw.vram_mib > 0 && size > hw.vram_mib + spare {
        (
            AdviceLevel::Bad,
            "too large for this machine ("@ + fixed0(size as nat, 1024) + " GB file vs "@ + fixed0(
                hw.vram_mib as nat,
                1024,
            ) + " GB VRAM + "@ + fixed0(hw.ram_mib as nat, 1024) + " GB RAM)"@,
        )
    } else if hw.vram_mib > 0 && size > room {
        (
            AdviceLevel::Warn,
            "bigger than your "@ + fixed0(hw.vram_mib as nat, 1024) + PARTLY_CPU@,
        )
    } else {
        (AdviceLevel::Unknown, NOT_MEASURED_YET@)
    }
}

/// Advice for a model: a failure dominates, then what was measured, then
/// what its size predicts. `failure` is the cause of a failed load.
pub open spec fn advice_of(
    readable: bool,
    size_bytes: u64,
    measured: Option<u64>,
    tool_call: Option<bool>,
    failure: Option<Cause>,
    hw: Hardware,
) -> (AdviceLevel, Seq<char>) {
    match failure {
        Some(cause) => (AdviceLevel::Bad, hint_of(cause)),
        None => match measured {
            Some(ctx) => measured_advice(ctx, tool_call),
            None => predicted_advice(readable, size_bytes, hw),
        },
    }
}

pub open spec fn error_cause(e: Option<Seq<char>>) -> Option<Cause> {
    match e {
        Some(t) => Some(cause_of(lowercase(t))),
        None => None,
    }
}

fn measured_words(ctx: u64, tool_call: Option<bool>) -> (r: (AdviceLevel, String))
    ensures
        (r.0, r.1@) == measured_advice(ctx, tool_call),
{
    let works = match tool_call {
        Some(b) => b,
        None => false,
    };
    let fails = match tool_call {
        Some(b) => !b,
        None => false,
    };
    if fails {
        let mut s = copy_text("measured ");
        s.append(dec_text(ctx).as_str());
        s.append(NO_TOOL_CALL);
        (AdviceLevel::Warn, s)
    } else if ctx < AGENT_MIN_CTX {
        let mut s = copy_text("runs, but the measured context (");
        s.append(dec_text(ctx).as_str());
        s.append(SMALL_CONTEXT);
        (AdviceLevel::Warn, s)
    } else {
        let mut s = copy_text("measured: ");
        s.append(dec_text(ctx).as_str());
        s.append(" context");
        s.append(
            if works {
                ", tool calls work"
            } else {
                ""
            },
        );
        s.append(" on this machine");
        (AdviceLevel::Good, s)
    }
}

fn predicted_words(readable: bool, size_bytes: u64, hw: Hardware) -> (r: (AdviceLevel, String))
    ensures
        (r.0, r.1@) == predicted_advice(readable, size_bytes, hw),
{
    let size = size_bytes / 1_048_576;
    let spare = if hw.ram_mib > 8192 {
        hw.ram_mib - 8192
    } else {
        0
    };
    let room = if hw.vram_mib > 1024 {
        hw.vram_mib - 1024
    } else {
        0
    };
    if !readable {
        (AdviceLevel::Bad, copy_text(UNREADABLE))
    } else if hw.vram_mib > 0 && size as u128 > hw.vram_mib as u128 + spare as u128 {
        let mut s = copy_text("too large for this machine (");
        s.append(fixed0_text(size as u128, 1024).as_str());
        s.append(" GB file vs ");
        s.append(fixed0_text(hw.vram_mib as u128, 1024).as_str());
        s.append(" GB VRAM + ");
        s.append(fixed0_text(hw.ram_mib as u128, 1024).as_str());
        s.append(" GB RAM)");
        (AdviceLevel::Bad, s)
    } else if hw.vram_mib > 0 && size > room {
        let mut s = copy_text("bigger than your ");
        s.append(fixed0_text(hw.vram_mib as u128, 1024).as_str());
        s.append(PARTLY_CPU);
        (AdviceLevel::Warn, s)
    } else {
        (AdviceLevel::Unknown, copy_text(NOT_MEASURED_YET))
    }
}

/// Advice where the cause of a failure is known.
pub fn advice_given(
    readable: bool,
    size_bytes: u64,
    measured: Option<u64>,
    tool_call: Option<bool>,
    failure: Option<Cause>,
    hw: Hardware,
) -> (r: (AdviceLevel, String))
    ensures
        (r.0, r.1@) == advice_of(readable, size_bytes, measured, tool_call, failure, hw),
{
    if let Some(cause) = failure {
        return (AdviceLevel::Bad, cause_hint(cause));
    }
    match measured {
        Some(ctx) => measured_words(ctx, tool_call),
        None => predicted_words(readable, size_bytes, hw),
    }
}

/// Advice for a model from what is known of it.
pub fn advice_for(
    meta: Option<&GgufMeta>,
    size_bytes: u64,
    measured: Option<u64>,
    tool_call: Option<bool>,
    failure: Option<&str>,
    hw: Hardware,
) -> (r: (AdviceLevel, String))
    ensures
        (r.0, r.1@) == advice_of(
            meta is Some,
            size_bytes,
            measured,
            tool_call,
            error_cause(opt_str(failure)),
            hw,
        ),
{
    let cause = match failure {
        Some(e) => Some(classify(e)),
        None => None,
    };
    advice_given(meta.is_some(), size_bytes, measured, tool_call, cause, hw)
}

// ------------------------------------------------------------------ identities

/// The cache id of the last hub file at `path`, however that is spelled.
pub open spec fn hub_id(models: Seq<ModelFile>, path: Seq<char>) -> Option<Seq<char>>
    decreases models.len(),
{
    if models.len() == 0 {
        None
    } else if components(models.last().path@) == components(path) && cache_id(models.last()) is Some {
        cache_id(models.last())
    } else {
        hub_id(models.drop_last(), path)
    }
}

/// The last alias of a file at `path`.
pub open spec fn alias_at(
    models: Seq<ModelFile>,
    aliases: Seq<(Seq<char>, int)>,
    path: Seq<char>,
) -> Option<Seq<char>>
    decreases aliases.len(),
{
    if aliases.len() == 0 {
        None
    } else if components(models[aliases.last().1].path@) == components(path) {
        Some(aliases.last().0)
    } else {
        alias_at(models, aliases.drop_last(), path)
    }
}

/// The id under which the router serves the file at `path`: its cache id
/// where it is a hub file that has one, else its preset alias.
pub open spec fn id_of_path(models: Seq<ModelFile>, path: Seq<char>) -> Option<Seq<char>> {
    match hub_id(models, path) {
        Some(id) => Some(id),
        None => alias_at(models, aliases_of(models), path),
    }
}

/// Router ids for library files, computed with the SAME logic the preset
/// generator uses — including duplicate-alias suffixing ("-2").
pub fn router_ids_by_path(models: &[ModelFile]) -> (r: PathMap)
    ensures
        forall|p: Seq<char>| (#[trigger] at_path(r@, p)) == id_of_path(models@, p),
{
    let mut out = PathMap::new();
    let entries = default_entries(models);
    let ghost a = aliases_of(models@);
    proof {
        crate::router::lemma_alias_places(models@);
    }
    let mut i: usize = 0;
    while i < entries.len()
        invariant
            i <= entries.len(),
            a == aliases_of(models@),
            entries@.len() == a.len(),
            forall|k: int| 0 <= k < a.len() ==> 0 <= (#[trigger] a[k]).1 < models@.len(),
            forall|k: int| 0 <= k < entries@.len() ==> (#[trigger] entries@[k]).0@ == a[k].0,
            forall|k: int|
                0 <= k < entries@.len() ==> *(#[trigger] entries@[k]).1 == models@[a[k].1],
            forall|p: Seq<char>|
                (#[trigger] at_path(out@, p)) == alias_at(models@, a.take(i as int), p),
        decreases entries.len() - i,
    {
        let ghost before = out@;
        assert(a.take(i + 1).drop_last() =~= a.take(i as int));
        assert(a.take(i + 1).last() == a[i as int]);
        let e = &entries[i];
        let id = e.0.clone();
        out.insert(e.1.path.clone(), id);
        assert forall|p: Seq<char>| (#[trigger] at_path(out@, p)) == alias_at(
            models@,
            a.take(i + 1),
            p,
        ) by {
            keep_then_find(before, e.1.path@, id@, p);
            assert(at_path(before, p) == alias_at(models@, a.take(i as int), p));
        }
        i += 1;
    }
    assert(a.take(i as int) =~= a);
    let mut j: usize = 0;
    while j < models.len()
        invariant
            j <= models.len(),
            a == aliases_of(models@),
            forall|p: Seq<char>|
                (#[trigger] at_path(out@, p)) == match hub_id(models@.take(j as int), p) {
                    Some(id) => Some(id),
                    None => alias_at(models@, a, p),
                },
        decreases models.len() - j,
    {
        let ghost before = out@;
        let ghost sofar = models@.take(j + 1);
        assert(sofar.drop_last() =~= models@.take(j as int));
        assert(sofar.last() == models@[j as int]);
        if let Some(id) = models[j].router_cache_id() {
            let ghost gid = id;
            out.insert(models[j].path.clone(), id);
            assert forall|p: Seq<char>| (#[trigger] at_path(out@, p)) == match hub_id(
                sofar,
                p,
            ) {
                Some(id) => Some(id),
                None => alias_at(models@, a, p),
            } by {
                keep_then_find(before, models@[j as int].path@, gid@, p);
                assert(at_path(before, p) == match hub_id(models@.take(j as int), p) {
                    Some(id) => Some(id),
                    None => alias_at(models@, a, p),
                });
            }
        } else {
            assert forall|p: Seq<char>| (#[trigger] at_path(out@, p)) == match hub_id(
                sofar,
                p,
            ) {
                Some(id) => Some(id),
                None => alias_at(models@, a, p),
            } by {
                assert(at_path(before, p) == match hub_id(models@.take(j as int), p) {
                    Some(id) => Some(id),
                    None => alias_at(models@, a, p),
                });
            }
        }
        j += 1;
    }
    assert(models@.take(j as int) =~= models@);
    out
}

/// The base name of a repository, in upper case and without its suffix.
pub open spec fn repo_base(upper: Seq<char>) -> Seq<char> {
    match strip_suffix(upper, "-GGUF"@) {
        Some(b) => b,
        None => upper,
    }
}

/// What stands behind the last slash.
pub open spec fn last_part(repo: Seq<char>) -> Seq<char> {
    match rsplit_once(repo, "/"@) {
        Some(p) => p.1,
        None => repo,
    }
}

/// The file carries the model that a cache entry names: a hub file of the
/// same repository, or any file whose name contains the repository's base
/// name — same quant tag either way.
pub open spec fn is_twin(m: ModelFile, repo: Seq<char>, tag: Seq<char>, base: Seq<char>) -> bool {
    quant_token(m.path@) == Some(tag) && match m.source {
        Source::HfHub { repo: r } => r@ == repo,
        _ => base.len() > 0 && contains(
            uppercase(
                match file_stem(m.path@) {
                    Some(s) => s,
                    None => Seq::empty(),
                },
            ),
            base,
        ),
    }
}

pub open spec fn twin_from(
    models: Seq<ModelFile>,
    repo: Seq<char>,
    tag: Seq<char>,
    base: Seq<char>,
    from: int,
) -> Option<int>
    decreases models.len() - from,
{
    if from < 0 || from >= models.len() {
        None
    } else if is_twin(models[from], repo, tag, base) {
        Some(from)
    } else {
        twin_from(models, repo, tag, base, from + 1)
    }
}

/// The first file that carries the model of a cache entry ("org/repo:TAG").
pub open spec fn twin_of(models: Seq<ModelFile>, id: Seq<char>) -> Option<int> {
    match rsplit_once(id, ":"@) {
        Some((repo, tag)) => twin_from(
            models,
            repo,
            uppercase(tag),
            repo_base(uppercase(last_part(repo))),
            0,
        ),
        None => None,
    }
}

/// For a router cache entry ("org/repo:TAG") no scanned file claimed, find a
/// scanned file that carries the same model. Loading the cache entry
/// downloads from HuggingFace; a match here means those bytes (or a prior
/// revision of them) are already on disk.
fn local_equivalent<'a>(models: &'a [ModelFile], cache_id: &str) -> (r: Option<&'a ModelFile>)
    ensures
        match twin_of(models@, cache_id@) {
            Some(i) => 0 <= i < models@.len() && r is Some && *r->0 == models@[i],
            None => r is None,
        },
{
    let c = chars_of(cache_id);
    let (repo, tag) = match rcut_once(&c, ":") {
        Some(p) => p,
        None => {
            return None;
        },
    };
    let repo_text = text_of(repo);
    let tag = to_upper(text_of(tag).as_str());
    let last = match rcut_once(repo, "/") {
        Some(p) => text_of(p.1),
        None => text_of(repo),
    };
    let upper = to_upper(last.as_str());
    let u = chars_of(upper.as_str());
    let base = match without_suffix(&u, "-GGUF") {
        Some(b) => text_of(b),
        None => text_of(&u),
    };
    let mut i: usize = 0;
    while i < models.len()
        invariant
            i <= models.len(),
            twin_of(models@, cache_id@) == twin_from(
                models@,
                repo_text@,
                tag@,
                base@,
                i as int,
            ),
        decreases models.len() - i,
    {
        let m = &models[i];
        let same_tag = match quant_token_from_filename(m.path.as_str()) {
            Some(t) => same_text(t.as_str(), tag.as_str()),
            None => false,
        };
        if same_tag {
            let hit = match &m.source {
                Source::HfHub { repo: r } => same_text(r.as_str(), repo_text.as_str()),
                _ => {
                    let stem = match file_stem_of(m.path.as_str()) {
                        Some(s) => s,
                        None => String::new(),
                    };
                    let up = to_upper(stem.as_str());
                    let uc = chars_of(up.as_str());
                    !base.as_str().is_empty() && has_text(&uc, base.as_str())
                },
            };
            if hit {
                return Some(m);
            }
        }
        i += 1;
    }
    None
}

// -------------------------------------------------------------------- the join

/// The first router entry from `from` on with the id.
pub open spec fn entry_from(rms: Seq<RouterModel>, id: Seq<char>, from: int) -> Option<int>
    decreases rms.len() - from,
{
    if from < 0 || from >= rms.len() {
        None
    } else if rms[from].id@ == id {
        Some(from)
    } else {
        entry_from(rms, id, from + 1)
    }
}

/// The router offers the id.
pub open spec fn offered(rms: Seq<RouterModel>, id: Seq<char>) -> bool {
    entry_from(rms, id, 0) is Some
}

/// The offered ids that the first `n` files claim exactly.
pub open spec fn claimed(models: Seq<ModelFile>, rms: Seq<RouterModel>, n: nat) -> Seq<Seq<char>>
    decreases n,
{
    if n == 0 || n > models.len() {
        Seq::empty()
    } else {
        let before = claimed(models, rms, (n - 1) as nat);
        match id_of_path(models, models[n - 1].path@) {
            Some(id) => if offered(rms, id) {
                before.push(id)
            } else {
                before
            },
            None => before,
        }
    }
}

/// The router's entries of a repository that no row has claimed.
pub open spec fn unclaimed_of(rms: Seq<RouterModel>, prefix: Seq<char>, used: Seq<Seq<char>>) -> Seq<
    int,
>
    decreases rms.len(),
{
    if rms.len() == 0 {
        Seq::empty()
    } else {
        let before = unclaimed_of(rms.drop_last(), prefix, used);
        if starts_with(rms.last().id@, prefix) && !used.contains(rms.last().id@) {
            before.push(rms.len() - 1)
        } else {
            before
        }
    }
}

/// What a file is served as: its id, its live status, and the ids that are
/// claimed behind it.
pub struct Identity {
    pub id: Option<Seq<char>>,
    pub status: Option<Seq<char>>,
    pub used: Seq<Seq<char>>,
}

/// A file's identity. Exact ids claim first; the unique-repo fallback is only
/// for files whose id cannot be predicted at all, and only onto an entry that
/// is still unclaimed.
pub open spec fn identity_of(
    models: Seq<ModelFile>,
    rms: Seq<RouterModel>,
    used: Seq<Seq<char>>,
    m: ModelFile,
) -> Identity {
    match id_of_path(models, m.path@) {
        Some(id) => Identity {
            id: Some(id),
            status: match entry_from(rms, id, 0) {
                Some(i) => Some(rms[i].status@),
                None => None,
            },
            used,
        },
        None => match m.source {
            Source::HfHub { repo } => {
                let c = unclaimed_of(rms, repo@ + ":"@, used);
                if c.len() == 1 {
                    Identity {
                        id: Some(rms[c[0]].id@),
                        status: Some(rms[c[0]].status@),
                        used: used.push(rms[c[0]].id@),
                    }
                } else {
                    Identity { id: None, status: None, used }
                }
            },
            _ => Identity { id: None, status: None, used },
        },
    }
}

/// The ids that are claimed before the `n`th file is joined.
pub open spec fn used_before(models: Seq<ModelFile>, rms: Seq<RouterModel>, n: nat) -> Seq<
    Seq<char>,
>
    decreases n,
{
    if n == 0 || n > models.len() {
        claimed(models, rms, models.len())
    } else {
        identity_of(
            models,
            rms,
            used_before(models, rms, (n - 1) as nat),
            models[n - 1],
        ).used
    }
}

pub const VARIANT_NOT_OFFERED: &'static str = "on disk, but the router doesn't currently offer this variant";

pub const EMBEDDING_MODEL: &'static str = "embedding model — serves /v1/embeddings for RAG/search (e.g. a notes app)";

pub const NOT_CHAT: &'static str = "; not a chat/agent model";

pub const STORED_TWICE: &'static str = "; note: another copy with the same name + size exists — likely the same model stored twice";

/// How many files have this name and size.
pub open spec fn copies(models: Seq<ModelFile>, name: Seq<char>, size: u64) -> nat
    decreases models.len(),
{
    if models.len() == 0 {
        0
    } else {
        copies(models.drop_last(), name, size) + if file_name(models.last().path@) == Some(name)
            && models.last().file_size == size {
            1nat
        } else {
            0nat
        }
    }
}

/// Another file has the same name and size: almost certainly the same bytes
/// stored twice.
pub open spec fn is_duplicate(models: Seq<ModelFile>, m: ModelFile) -> bool {
    match file_name(m.path@) {
        Some(n) => copies(models, n, m.file_size) > 1,
        None => false,
    }
}

pub open spec fn header_quant(m: ModelFile) -> Option<Seq<char>> {
    match m.meta {
        Some(x) => opt_text(x.quantization),
        None => None,
    }
}

pub open spec fn source_name(s: Source) -> Seq<char> {
    match s {
        Source::Shelf => "shelf"@,
        Source::Ollama { .. } => "ollama"@,
        Source::HfHub { .. } => "hf cache"@,
    }
}

/// What is measured of an id.
pub open spec fn measured_of(meas: Seq<(Seq<char>, Measurement)>, id: Option<Seq<char>>) -> Option<
    Measurement,
> {
    match id {
        Some(i) => lookup(meas, i),
        None => None,
    }
}

/// A file's advice before notes are added.
pub open spec fn base_advice(
    m: ModelFile,
    any_router: bool,
    id: Identity,
    mm: Option<Measurement>,
    hw: Hardware,
) -> (AdviceLevel, Seq<char>) {
    let ctx = match mm {
        Some(x) => x.n_ctx,
        None => None,
    };
    let failure = match mm {
        Some(x) => opt_text(x.error),
        None => None,
    };
    let tool_call = match mm {
        Some(x) => x.tool_call,
        None => None,
    };
    if embeds(m.meta) {
        (
            AdviceLevel::Good,
            EMBEDDING_MODEL@ + (match ctx {
                Some(c) => ", measured "@ + dec(c as nat) + " ctx"@,
                None => ""@,
            }) + NOT_CHAT@,
        )
    } else if any_router && id.id is Some && id.status is None && ctx is None && failure is None {
        (AdviceLevel::Unknown, VARIANT_NOT_OFFERED@)
    } else {
        advice_of(m.meta is Some, m.file_size, ctx, tool_call, error_cause(failure), hw)
    }
}

/// The row of a file with this identity.
#[verifier::opaque]
pub open spec fn row_of(
    models: Seq<ModelFile>,
    rms: Seq<RouterModel>,
    meas: Seq<(Seq<char>, Measurement)>,
    opencode: Seq<Seq<char>>,
    hw: Hardware,
    m: ModelFile,
    id: Identity,
) -> RowView {
    let mm = measured_of(meas, id.id);
    let advice = base_advice(m, rms.len() > 0, id, mm, hw);
    RowView {
        display: display_of(m),
        router_id: id.id,
        source: source_name(m.source),
        size_bytes: m.file_size,
        quant: match quant_token(m.path@) {
            Some(q) => q,
            None => match header_quant(m) {
                Some(q) => q,
                None => Seq::empty(),
            },
        },
        quant_header_disagrees: match (quant_token(m.path@), header_quant(m)) {
            (Some(f), Some(h)) => if f != h {
                Some(h)
            } else {
                None
            },
            _ => None,
        },
        train_ctx: match m.meta {
            Some(x) => x.context_length,
            None => None,
        },
        measured_ctx: match mm {
            Some(x) => x.n_ctx,
            None => None,
        },
        failure: match mm {
            Some(x) => opt_text(x.error),
            None => None,
        },
        server_status: id.status,
        in_opencode: match id.id {
            Some(i) => opencode.contains(i),
            None => false,
        },
        advice_level: advice.0,
        advice: advice.1 + (if is_duplicate(models, m) {
            STORED_TWICE@
        } else {
            ""@
        }),
        path: Some(m.path@),
        archivable: !(m.source is Shelf),
        vision: m.mmproj is Some,
        mtp: match m.meta {
            Some(x) => x.has_mtp,
            None => false,
        },
        embedding: embeds(m.meta),
        pp_tps: match mm {
            Some(x) => x.pp_tps,
            None => None,
        },
        tg_tps: match mm {
            Some(x) => x.tg_tps,
            None => None,
        },
    }
}

pub const SMALL_MEASURED: &'static str = ") is small for agentic coding";

pub const DOWNLOADS: &'static str = "no file on disk matches this entry — Load downloads it from HuggingFace \
                 first (20GB-class models take many minutes)";

pub const LOCATION_UNKNOWN: &'static str = "offered by the router (file location unknown) — Load to measure";

pub const PREFER_THAT_ROW: &'static str = "' looks like the same model already on disk — prefer that row to avoid the download";

/// The entry is one that Load would fetch from HuggingFace first.
pub open spec fn is_fetch(rm: RouterModel) -> bool {
    opt_text(rm.source) == Some("cache"@)
}

/// The advice on a router entry that no file claimed.
pub open spec fn entry_advice(rm: RouterModel, mm: Option<Measurement>) -> (AdviceLevel, Seq<char>) {
    let ctx = match mm {
        Some(x) => x.n_ctx,
        None => None,
    };
    let failure = match mm {
        Some(x) => opt_text(x.error),
        None => None,
    };
    match ctx {
        Some(c) => if c >= AGENT_MIN_CTX {
            (
                AdviceLevel::Good,
                "measured: "@ + dec(c as nat) + " context on this machine"@,
            )
        } else {
            (
                AdviceLevel::Warn,
                "runs, but measured context ("@ + dec(c as nat) + SMALL_MEASURED@,
            )
        },
        None => match error_cause(failure) {
            Some(cause) => (AdviceLevel::Bad, hint_of(cause)),
            None => if is_fetch(rm) {
                (AdviceLevel::Warn, DOWNLOADS@)
            } else {
                (AdviceLevel::Unknown, LOCATION_UNKNOWN@)
            },
        },
    }
}

/// The note that names a file on disk with the same model.
pub open spec fn twin_note(models: Seq<ModelFile>, rm: RouterModel) -> Seq<char> {
    if is_fetch(rm) {
        match twin_of(models, rm.id@) {
            Some(i) => "; '"@ + display_of(models[i]) + PREFER_THAT_ROW@,
            None => ""@,
        }
    } else {
        ""@
    }
}

/// The row of a router entry that no file claimed.
#[verifier::opaque]
pub open spec fn entry_row(
    models: Seq<ModelFile>,
    meas: Seq<(Seq<char>, Measurement)>,
    opencode: Seq<Seq<char>>,
    rm: RouterModel,
) -> RowView {
    let mm = lookup(meas, rm.id@);
    let advice = entry_advice(rm, mm);
    RowView {
        display: rm.id@,
        router_id: Some(rm.id@),
        source: match rm.source {
            Some(s) => s@,
            None => "router"@,
        },
        size_bytes: 0,
        quant: Seq::empty(),
        quant_header_disagrees: None,
        train_ctx: None,
        measured_ctx: match mm {
            Some(x) => x.n_ctx,
            None => None,
        },
        failure: match mm {
            Some(x) => opt_text(x.error),
            None => None,
        },
        server_status: Some(rm.status@),
        in_opencode: opencode.contains(rm.id@),
        advice_level: advice.0,
        advice: advice.1 + twin_note(models, rm),
        path: None,
        archivable: false,
        vision: false,
        mtp: false,
        embedding: false,
        pp_tps: match mm {
            Some(x) => x.pp_tps,
            None => None,
        },
        tg_tps: match mm {
            Some(x) => x.tg_tps,
            None => None,
        },
    }
}

/// The rows of the files, in their order.
pub open spec fn file_rows(
    models: Seq<ModelFile>,
    rms: Seq<RouterModel>,
    meas: Seq<(Seq<char>, Measurement)>,
    opencode: Seq<Seq<char>>,
    hw: Hardware,
) -> Seq<RowView> {
    Seq::new(
        models.len(),
        |i: int|
            row_of(
                models,
                rms,
                meas,
                opencode,
                hw,
                models[i],
                identity_of(models, rms, used_before(models, rms, i as nat), models[i]),
            ),
    )
}

/// The rows of the entries that no file claimed, in their order.
pub open spec fn entry_rows(
    models: Seq<ModelFile>,
    rms: Seq<RouterModel>,
    meas: Seq<(Seq<char>, Measurement)>,
    opencode: Seq<Seq<char>>,
    used: Seq<Seq<char>>,
) -> Seq<RowView>
    decreases rms.len(),
{
    if rms.len() == 0 {
        Seq::empty()
    } else {
        let before = entry_rows(models, rms.drop_last(), meas, opencode, used);
        if used.contains(rms.last().id@) {
            before
        } else {
            before.push(entry_row(models, meas, opencode, rms.last()))
        }
    }
}

/// All rows: one per file, and one per router entry that no file claimed.
pub open spec fn rows_of(
    models: Seq<ModelFile>,
    rms: Seq<RouterModel>,
    meas: Seq<(Seq<char>, Measurement)>,
    opencode: Seq<Seq<char>>,
    hw: Hardware,
) -> Seq<RowView> {
    file_rows(models, rms, meas, opencode, hw) + entry_rows(
        models,
        rms,
        meas,
        opencode,
        used_before(models, rms, models.len()),
    )
}

fn find_entry<'a>(rms: &'a [RouterModel], id: &str) -> (r: Option<&'a RouterModel>)
    ensures
        match entry_from(rms@, id@, 0) {
            Some(i) => 0 <= i < rms@.len() && r is Some && *r->0 == rms@[i],
            None => r is None,
        },
{
    let mut i: usize = 0;
    while i < rms.len()
        invariant
            i <= rms.len(),
            entry_from(rms@, id@, 0) == entry_from(rms@, id@, i as int),
        decreases rms.len() - i,
    {
        if same_text(rms[i].id.as_str(), id) {
            return Some(&rms[i]);
        }
        i += 1;
    }
    None
}

fn claimed_ids(models: &[ModelFile], rms: &[RouterModel], ids: &PathMap) -> (r: Vec<String>)
    requires
        forall|p: Seq<char>| (#[trigger] at_path(ids@, p)) == id_of_path(models@, p),
    ensures
        texts(r@) == claimed(models@, rms@, models@.len()),
{
    broadcast use crate::text::lemma_texts_push;

    let mut out: Vec<String> = Vec::new();
    let mut i: usize = 0;
    assert(texts(out@) =~= claimed(models@, rms@, 0));
    while i < models.len()
        invariant
            i <= models.len(),
            forall|p: Seq<char>| (#[trigger] at_path(ids@, p)) == id_of_path(models@, p),
            texts(out@) == claimed(models@, rms@, i as nat),
        decreases models.len() - i,
    {
        if let Some(id) = ids.get(models[i].path.as_str()) {
            if find_entry(rms, id.as_str()).is_some() {
                out.push(id.clone());
            }
        }
        i += 1;
    }
    out
}

/// The only unclaimed entry of a repository, where there is exactly one.
fn sole_unclaimed<'a>(rms: &'a [RouterModel], repo: &str, used: &[String]) -> (r: Option<
    &'a RouterModel,
>)
    ensures
        ({
            let c = unclaimed_of(rms@, repo@ + ":"@, texts(used@));
            if c.len() == 1 {
                0 <= c[0] < rms@.len() && r is Some && *r->0 == rms@[c[0]]
            } else {
                r is None
            }
        }),
{
    let mut prefix = copy_text(repo);
    prefix.append(":");
    let ghost p = repo@ + ":"@;
    let mut first: usize = 0;
    let mut many: usize = 0;
    let mut i: usize = 0;
    assert(unclaimed_of(rms@.take(0), p, texts(used@)).len() == 0);
    while i < rms.len()
        invariant
            i <= rms.len(),
            prefix@ == p,
            many <= i,
            many == unclaimed_of(rms@.take(i as int), p, texts(used@)).len(),
            many > 0 ==> first < i && unclaimed_of(rms@.take(i as int), p, texts(used@))[0]
                == first as int,
        decreases rms.len() - i,
    {
        let ghost sofar = rms@.take(i + 1);
        assert(sofar.drop_last() =~= rms@.take(i as int));
        assert(sofar.last() == rms@[i as int]);
        let c = chars_of(rms[i].id.as_str());
        if crate::text::begins(&c, prefix.as_str()) && !holds_text(used, rms[i].id.as_str()) {
            if many == 0 {
                first = i;
            }
            many += 1;
        }
        i += 1;
    }
    assert(rms@.take(i as int) =~= rms@);
    if many == 1 {
        Some(&rms[first])
    } else {
        None
    }
}

fn is_stored_twice(models: &[ModelFile], m: &ModelFile) -> (r: bool)
    ensures
        r == is_duplicate(models@, *m),
{
    let name = match file_name_of(m.path.as_str()) {
        Some(n) => n,
        None => {
            return false;
        },
    };
    let mut n: usize = 0;
    let mut i: usize = 0;
    while i < models.len()
        invariant
            i <= models.len(),
            n <= i,
            n == copies(models@.take(i as int), name@, m.file_size),
        decreases models.len() - i,
    {
        let ghost sofar = models@.take(i + 1);
        assert(sofar.drop_last() =~= models@.take(i as int));
        assert(sofar.last() == models@[i as int]);
        if models[i].file_size == m.file_size {
            if let Some(other) = file_name_of(models[i].path.as_str()) {
                if same_text(other.as_str(), name.as_str()) {
                    n += 1;
                }
            }
        }
        i += 1;
    }
    assert(models@.take(i as int) =~= models@);
    n > 1
}

/// What a join found of a file: its id and its live status.
struct Found {
    id: Option<String>,
    status: Option<String>,
}

fn base_words(
    m: &ModelFile,
    any_router: bool,
    f: &Found,
    mm: Option<&Measurement>,
    hw: Hardware,
    Ghost(id): Ghost<Identity>,
) -> (r: (AdviceLevel, String))
    requires
        opt_text(f.id) == id.id,
        opt_text(f.status) == id.status,
    ensures
        (r.0, r.1@) == base_advice(
            *m,
            any_router,
            id,
            match mm {
                Some(x) => Some(*x),
                None => None,
            },
            hw,
        ),
{
    let ctx = match mm {
        Some(x) => x.n_ctx,
        None => None,
    };
    let tool_call = match mm {
        Some(x) => x.tool_call,
        None => None,
    };
    let failure: Option<&str> = match mm {
        Some(x) => match &x.error {
            Some(e) => Some(e.as_str()),
            None => None,
        },
        None => None,
    };
    if is_embedding(&m.meta) {
        let mut s = copy_text(EMBEDDING_MODEL);
        let mut note = copy_text("");
        if let Some(c) = ctx {
            note = copy_text(", measured ");
            note.append(dec_text(c).as_str());
            note.append(" ctx");
        }
        s.append(note.as_str());
        s.append(NOT_CHAT);
        (AdviceLevel::Good, s)
    } else if any_router && f.id.is_some() && f.status.is_none() && ctx.is_none()
        && failure.is_none() {
        (AdviceLevel::Unknown, copy_text(VARIANT_NOT_OFFERED))
    } else {
        advice_for(m.meta.as_ref(), m.file_size, ctx, tool_call, failure, hw)
    }
}

fn file_row(
    models: &[ModelFile],
    rms: &[RouterModel],
    measurements: &Measurements,
    opencode_ids: &[String],
    hw: Hardware,
    m: &ModelFile,
    f: Found,
    Ghost(id): Ghost<Identity>,
) -> (r: Row)
    requires
        opt_text(f.id) == id.id,
        opt_text(f.status) == id.status,
    ensures
        r@ == row_of(models@, rms@, measurements@, texts(opencode_ids@), hw, *m, id),
{
    let mm: Option<&Measurement> = match &f.id {
        Some(i) => measurements.get(i.as_str()),
        None => None,
    };
    let (advice_level, advice) = base_words(m, rms.len() > 0, &f, mm, hw, Ghost(id));
    let mut advice = advice;
    advice.append(
        if is_stored_twice(models, m) {
            STORED_TWICE
        } else {
            ""
        },
    );
    let token = quant_token_from_filename(m.path.as_str());
    let header: Option<String> = match &m.meta {
        Some(x) => copy_opt(&x.quantization),
        None => None,
    };
    let disagrees: Option<String> = match (&token, &header) {
        (Some(a), Some(b)) => if same_text(a.as_str(), b.as_str()) {
            None
        } else {
            Some(b.clone())
        },
        _ => None,
    };
    let quant = match token {
        Some(q) => q,
        None => match header {
            Some(q) => q,
            None => String::new(),
        },
    };
    let in_opencode = match &f.id {
        Some(i) => holds_text(opencode_ids, i.as_str()),
        None => false,
    };
    let row = Row {
        display: m.display_name(),
        source: match &m.source {
            Source::Shelf => copy_text("shelf"),
            Source::Ollama { .. } => copy_text("ollama"),
            Source::HfHub { .. } => copy_text("hf cache"),
        },
        size_bytes: m.file_size,
        quant,
        quant_header_disagrees: disagrees,
        train_ctx: match &m.meta {
            Some(x) => x.context_length,
            None => None,
        },
        measured_ctx: match mm {
            Some(x) => x.n_ctx,
            None => None,
        },
        failure: match mm {
            Some(x) => copy_opt(&x.error),
            None => None,
        },
        in_opencode,
        advice_level,
        advice,
        path: Some(m.path.clone()),
        archivable: match &m.source {
            Source::Shelf => false,
            _ => true,
        },
        vision: m.mmproj.is_some(),
        mtp: match &m.meta {
            Some(x) => x.has_mtp,
            None => false,
        },
        embedding: is_embedding(&m.meta),
        pp_tps: match mm {
            Some(x) => x.pp_tps,
            None => None,
        },
        tg_tps: match mm {
            Some(x) => x.tg_tps,
            None => None,
        },
        router_id: f.id,
        server_status: f.status,
    };
    proof {
        reveal(row_of);
    }
    row
}

fn unclaimed_row(
    models: &[ModelFile],
    measurements: &Measurements,
    opencode_ids: &[String],
    rm: &RouterModel,
) -> (r: Row)
    ensures
        r@ == entry_row(models@, measurements@, texts(opencode_ids@), *rm),
{
    let mm = measurements.get(rm.id.as_str());
    let ctx = match mm {
        Some(x) => x.n_ctx,
        None => None,
    };
    let fetch = match &rm.source {
        Some(s) => same_text(s.as_str(), "cache"),
        None => false,
    };
    let cause: Option<Cause> = match mm {
        Some(x) => match &x.error {
            Some(e) => Some(classify(e.as_str())),
            None => None,
        },
        None => None,
    };
    let (advice_level, advice) = match ctx {
        Some(c) => if c >= AGENT_MIN_CTX {
            let mut s = copy_text("measured: ");
            s.append(dec_text(c).as_str());
            s.append(" context on this machine");
            (AdviceLevel::Good, s)
        } else {
            let mut s = copy_text("runs, but measured context (");
            s.append(dec_text(c).as_str());
            s.append(SMALL_MEASURED);
            (AdviceLevel::Warn, s)
        },
        None => match cause {
            Some(cause) => (AdviceLevel::Bad, cause_hint(cause)),
            None => if fetch {
                (AdviceLevel::Warn, copy_text(DOWNLOADS))
            } else {
                (AdviceLevel::Unknown, copy_text(LOCATION_UNKNOWN))
            },
        },
    };
    let mut advice = advice;
    let mut note = copy_text("");
    if fetch {
        if let Some(t) = local_equivalent(models, rm.id.as_str()) {
            note = copy_text("; '");
            note.append(t.display_name().as_str());
            note.append(PREFER_THAT_ROW);
        }
    }
    advice.append(note.as_str());
    proof {
        reveal(entry_row);
    }
    Row {
        display: rm.id.clone(),
        router_id: Some(rm.id.clone()),
        source: match &rm.source {
            Some(s) => s.clone(),
            None => copy_text("router"),
        },
        size_bytes: 0,
        quant: String::new(),
        quant_header_disagrees: None,
        train_ctx: None,
        measured_ctx: ctx,
        failure: match mm {
            Some(x) => copy_opt(&x.error),
            None => None,
        },
        server_status: Some(rm.status.clone()),
        in_opencode: holds_text(opencode_ids, rm.id.as_str()),
        advice_level,
        advice,
        path: None,
        archivable: false,
        vision: false,
        mtp: false,
        embedding: false,
        pp_tps: match mm {
            Some(x) => x.pp_tps,
            None => None,
        },
        tg_tps: match mm {
            Some(x) => x.tg_tps,
            None => None,
        },
    }
}

/// One row per model, joined from disk, the router, the measurements and
/// opencode.json.
///
/// A router entry belongs to exactly ONE row — two quants of the same repo
/// must never share an identity. Exact id matches claim first; the
/// unique-repo fallback runs ONLY for files whose tag we couldn't predict at
/// all, and only onto still-unclaimed entries. Router models we couldn't tie
/// to a file get rows too, so nothing servable is invisible.
pub fn assemble(
    models: &[ModelFile],
    router_models: &[RouterModel],
    measurements: &Measurements,
    opencode_ids: &[String],
    hw: Hardware,
) -> (r: Vec<Row>)
    ensures
        row_views(r@) == rows_of(
            models@,
            router_models@,
            measurements@,
            texts(opencode_ids@),
            hw,
        ),
{
    broadcast use crate::text::lemma_texts_push;

    let ids = router_ids_by_path(models);
    let mut used = claimed_ids(models, router_models, &ids);
    let ghost rms = router_models@;
    let ghost oc = texts(opencode_ids@);
    let ghost want = file_rows(models@, rms, measurements@, oc, hw);
    let mut rows: Vec<Row> = Vec::new();
    let mut i: usize = 0;
    assert(row_views(rows@) =~= want.take(0));
    while i < models.len()
        invariant
            i <= models.len(),
            rms == router_models@,
            oc == texts(opencode_ids@),
            want == file_rows(models@, rms, measurements@, oc, hw),
            forall|p: Seq<char>| (#[trigger] at_path(ids@, p)) == id_of_path(models@, p),
            texts(used@) == used_before(models@, rms, i as nat),
            row_views(rows@) == want.take(i as int),
        decreases models.len() - i,
    {
        let m = &models[i];
        let ghost id = identity_of(models@, rms, texts(used@), *m);
        let mut f = Found { id: None, status: None };
        match ids.get(m.path.as_str()) {
            Some(known) => {
                f.id = Some(known.clone());
                if let Some(rm) = find_entry(router_models, known.as_str()) {
                    f.status = Some(rm.status.clone());
                }
            },
            None => {
                if let Source::HfHub { repo } = &m.source {
                    if let Some(rm) = sole_unclaimed(router_models, repo.as_str(), &used) {
                        f.id = Some(rm.id.clone());
                        f.status = Some(rm.status.clone());
                        used.push(rm.id.clone());
                    }
                }
            },
        }
        assert(texts(used@) == used_before(models@, rms, (i + 1) as nat));
        let row = file_row(
            models,
            router_models,
            measurements,
            opencode_ids,
            hw,
            m,
            f,
            Ghost(id),
        );
        let ghost before = row_views(rows@);
        rows.push(row);
        assert(want[i as int] == row@);
        assert(row_views(rows@) =~= before.push(row@));
        assert(want.take(i + 1) =~= want.take(i as int).push(want[i as int]));
        i += 1;
    }
    assert(want.take(i as int) =~= want);
    let ghost claimed_all = used_before(models@, rms, models@.len());
    let mut j: usize = 0;
    assert(row_views(rows@) =~= want + entry_rows(
        models@,
        rms.take(0),
        measurements@,
        oc,
        claimed_all,
    ));
    while j < router_models.len()
        invariant
            j <= router_models.len(),
            rms == router_models@,
            oc == texts(opencode_ids@),
            texts(used@) == claimed_all,
            row_views(rows@) == want + entry_rows(
                models@,
                rms.take(j as int),
                measurements@,
                oc,
                claimed_all,
            ),
        decreases router_models.len() - j,
    {
        let ghost sofar = rms.take(j + 1);
        assert(sofar.drop_last() =~= rms.take(j as int));
        assert(sofar.last() == rms[j as int]);
        let rm = &router_models[j];
        if !holds_text(&used, rm.id.as_str()) {
            let row = unclaimed_row(models, measurements, opencode_ids, rm);
            let ghost before = row_views(rows@);
            rows.push(row);
            assert(row_views(rows@) =~= before.push(row@));
            assert(row_views(rows@) =~= want + entry_rows(
                models@,
                sofar,
                measurements@,
                oc,
                claimed_all,
            ));
        }
        j += 1;
    }
    assert(rms.take(j as int) =~= rms);
    rows
}

// -------------------------------------------------------------------- the laws

/// The id of the `i`th file's row.
pub open spec fn file_id(models: Seq<ModelFile>, rms: Seq<RouterModel>, i: int) -> Option<Seq<char>> {
    identity_of(models, rms, used_before(models, rms, i as nat), models[i]).id
}

proof fn lemma_claimed(models: Seq<ModelFile>, rms: Seq<RouterModel>, n: nat)
    requires
        n <= models.len(),
    ensures
        forall|t: Seq<char>| #[trigger]
            claimed(models, rms, n).contains(t) <==> exists|i: int|
                0 <= i < n && #[trigger] id_of_path(models, models[i].path@) == Some(t) && offered(
                    rms,
                    t,
                ),
    decreases n,
{
    if n > 0 {
        lemma_claimed(models, rms, (n - 1) as nat);
        let a = claimed(models, rms, (n - 1) as nat);
        let b = claimed(models, rms, n);
        let last = id_of_path(models, models[n - 1].path@);
        assert forall|t: Seq<char>| #[trigger] b.contains(t) <==> exists|i: int|
            0 <= i < n && #[trigger] id_of_path(models, models[i].path@) == Some(t) && offered(
                rms,
                t,
            ) by {
            if b.contains(t) {
                let k = b.index_of(t);
                if k < a.len() {
                    assert(a[k] == b[k]);
                    assert(a.contains(t));
                } else {
                    assert(id_of_path(models, models[n - 1].path@) == Some(t));
                }
            }
            if exists|i: int|
                0 <= i < n && #[trigger] id_of_path(models, models[i].path@) == Some(t) && offered(
                    rms,
                    t,
                ) {
                let i = choose|i: int|
                    0 <= i < n && #[trigger] id_of_path(models, models[i].path@) == Some(t)
                        && offered(rms, t);
                if i < n - 1 {
                    assert(a.contains(t));
                    let k = a.index_of(t);
                    assert(b[k] == t);
                } else {
                    assert(b[a.len() as int] == t);
                }
            }
        }
    }
}

proof fn lemma_entry_from(rms: Seq<RouterModel>, id: Seq<char>, from: int)
    requires
        0 <= from,
    ensures
        match entry_from(rms, id, from) {
            Some(i) => from <= i < rms.len() && rms[i].id@ == id,
            None => forall|j: int| from <= j < rms.len() ==> (#[trigger] rms[j]).id@ != id,
        },
    decreases rms.len() - from,
{
    if from < rms.len() && rms[from].id@ != id {
        lemma_entry_from(rms, id, from + 1);
    }
}

proof fn lemma_unclaimed(rms: Seq<RouterModel>, prefix: Seq<char>, used: Seq<Seq<char>>)
    ensures
        forall|k: int|
            0 <= k < unclaimed_of(rms, prefix, used).len() ==> {
                let i = #[trigger] unclaimed_of(rms, prefix, used)[k];
                0 <= i < rms.len() && !used.contains(rms[i].id@)
            },
    decreases rms.len(),
{
    if rms.len() > 0 {
        let t = rms.drop_last();
        lemma_unclaimed(t, prefix, used);
        let a = unclaimed_of(t, prefix, used);
        let b = unclaimed_of(rms, prefix, used);
        assert forall|k: int| 0 <= k < b.len() implies {
            let i = #[trigger] b[k];
            0 <= i < rms.len() && !used.contains(rms[i].id@)
        } by {
            if k < a.len() {
                assert(b[k] == a[k]);
                assert(t[a[k]] == rms[a[k]]);
            }
        }
    }
}

/// An id is claimed exactly where the router offers it and some file's row
/// has it.
proof fn lemma_used(models: Seq<ModelFile>, rms: Seq<RouterModel>, n: nat)
    requires
        n <= models.len(),
    ensures
        forall|t: Seq<char>| #[trigger]
            used_before(models, rms, n).contains(t) ==> exists|i: int|
                0 <= i < models.len() && #[trigger] file_id(models, rms, i) == Some(t),
        forall|t: Seq<char>|
            claimed(models, rms, models.len()).contains(t) ==> #[trigger] used_before(
                models,
                rms,
                n,
            ).contains(t),
        forall|i: int|
            0 <= i < n && (#[trigger] file_id(models, rms, i)) is Some && offered(
                rms,
                file_id(models, rms, i)->0,
            ) ==> used_before(models, rms, n).contains(file_id(models, rms, i)->0),
    decreases n,
{
    let base = claimed(models, rms, models.len());
    lemma_claimed(models, rms, models.len());
    assert forall|t: Seq<char>| #[trigger] base.contains(t) implies exists|i: int|
        0 <= i < models.len() && #[trigger] file_id(models, rms, i) == Some(t) by {
        let i = choose|i: int|
            0 <= i < models.len() && #[trigger] id_of_path(models, models[i].path@) == Some(t)
                && offered(rms, t);
        assert(file_id(models, rms, i) == Some(t));
    }
    if n > 0 {
        let u = used_before(models, rms, (n - 1) as nat);
        let v = used_before(models, rms, n);
        lemma_used(models, rms, (n - 1) as nat);
        let m = models[n - 1];
        let id = identity_of(models, rms, u, m);
        assert(v == id.used);
        assert(forall|t: Seq<char>| #[trigger]
            u.contains(t) ==> v.contains(t)) by {
            assert forall|t: Seq<char>| #[trigger] u.contains(t) implies v.contains(t) by {
                let k = u.index_of(t);
                assert(v[k] == t);
            }
        }
        assert forall|t: Seq<char>| base.contains(t) implies #[trigger] v.contains(t) by {
            assert(u.contains(t));
        }
        assert forall|t: Seq<char>| #[trigger] v.contains(t) implies exists|i: int|
            0 <= i < models.len() && #[trigger] file_id(models, rms, i) == Some(t) by {
            let k = v.index_of(t);
            if k < u.len() {
                assert(u[k] == t);
                assert(u.contains(t));
            } else {
                assert(file_id(models, rms, n - 1) == Some(t));
            }
        }
        assert forall|i: int|
            0 <= i < n && (#[trigger] file_id(models, rms, i)) is Some && offered(
                rms,
                file_id(models, rms, i)->0,
            ) implies v.contains(file_id(models, rms, i)->0) by {
            let t = file_id(models, rms, i)->0;
            if i < n - 1 {
                assert(u.contains(t));
            } else {
                match id_of_path(models, m.path@) {
                    Some(x) => {
                        assert(id_of_path(models, models[n - 1].path@) == Some(t));
                        assert(base.contains(t));
                        assert(u.contains(t));
                    },
                    None => {
                        assert(v[u.len() as int] == t);
                    },
                }
            }
        }
    } else {
        assert(used_before(models, rms, n) == base);
    }
}

broadcast proof fn lemma_row_of(
    models: Seq<ModelFile>,
    rms: Seq<RouterModel>,
    meas: Seq<(Seq<char>, Measurement)>,
    opencode: Seq<Seq<char>>,
    hw: Hardware,
    m: ModelFile,
    id: Identity,
)
    ensures
        (#[trigger] row_of(models, rms, meas, opencode, hw, m, id)).router_id == id.id,
        row_of(models, rms, meas, opencode, hw, m, id).path == Some(m.path@),
{
    reveal(row_of);
}

broadcast proof fn lemma_entry_row(
    models: Seq<ModelFile>,
    meas: Seq<(Seq<char>, Measurement)>,
    opencode: Seq<Seq<char>>,
    rm: RouterModel,
)
    ensures
        (#[trigger] entry_row(models, meas, opencode, rm)).router_id == Some(rm.id@),
{
    reveal(entry_row);
}

proof fn lemma_entry_rows(
    models: Seq<ModelFile>,
    rms: Seq<RouterModel>,
    meas: Seq<(Seq<char>, Measurement)>,
    opencode: Seq<Seq<char>>,
    used: Seq<Seq<char>>,
)
    ensures
        forall|j: int|
            0 <= j < rms.len() && !used.contains((#[trigger] rms[j]).id@) ==> entry_rows(
                models,
                rms,
                meas,
                opencode,
                used,
            ).contains(entry_row(models, meas, opencode, rms[j])),
        forall|k: int|
            0 <= k < entry_rows(models, rms, meas, opencode, used).len() ==> {
                let id = (#[trigger] entry_rows(models, rms, meas, opencode, used)[k]).router_id;
                id is Some && !used.contains(id->0) && exists|j: int|
                    0 <= j < rms.len() && (#[trigger] rms[j]).id@ == id->0
            },
    decreases rms.len(),
{
    broadcast use lemma_entry_row;

    if rms.len() > 0 {
        let t = rms.drop_last();
        lemma_entry_rows(models, t, meas, opencode, used);
        let a = entry_rows(models, t, meas, opencode, used);
        let b = entry_rows(models, rms, meas, opencode, used);
        assert forall|j: int|
            0 <= j < rms.len() && !used.contains((#[trigger] rms[j]).id@) implies b.contains(
            entry_row(models, meas, opencode, rms[j]),
        ) by {
            let row = entry_row(models, meas, opencode, rms[j]);
            if j < t.len() {
                assert(t[j] == rms[j]);
                assert(a.contains(row));
                let k = a.index_of(row);
                assert(b[k] == row);
            } else {
                assert(b[a.len() as int] == row);
            }
        }
        assert forall|k: int| 0 <= k < b.len() implies {
            let id = (#[trigger] b[k]).router_id;
            id is Some && !used.contains(id->0) && exists|j: int|
                0 <= j < rms.len() && (#[trigger] rms[j]).id@ == id->0
        } by {
            if k < a.len() {
                assert(b[k] == a[k]);
                let id = a[k].router_id;
                let j = choose|j: int| 0 <= j < t.len() && (#[trigger] t[j]).id@ == id->0;
                assert(rms[j] == t[j]);
            } else {
                assert(rms[rms.len() - 1] == rms.last());
            }
        }
    }
}

/// Nothing servable is invisible: every file has its row, at its place, and
/// every entry that the router offers is the id of some row.
pub proof fn every_model_has_a_row(
    models: Seq<ModelFile>,
    rms: Seq<RouterModel>,
    meas: Seq<(Seq<char>, Measurement)>,
    opencode: Seq<Seq<char>>,
    hw: Hardware,
)
    ensures
        rows_of(models, rms, meas, opencode, hw).len() >= models.len(),
        forall|i: int|
            0 <= i < models.len() ==> (#[trigger] rows_of(models, rms, meas, opencode, hw)[i]).path
                == Some(models[i].path@),
        forall|j: int|
            0 <= j < rms.len() ==> exists|k: int|
                0 <= k < rows_of(models, rms, meas, opencode, hw).len() && (#[trigger] rows_of(
                    models,
                    rms,
                    meas,
                    opencode,
                    hw,
                )[k]).router_id == Some((#[trigger] rms[j]).id@),
{
    broadcast use {lemma_row_of, lemma_entry_row};

    let rows = rows_of(models, rms, meas, opencode, hw);
    let files = file_rows(models, rms, meas, opencode, hw);
    let used = used_before(models, rms, models.len());
    let rest = entry_rows(models, rms, meas, opencode, used);
    lemma_used(models, rms, models.len());
    lemma_entry_rows(models, rms, meas, opencode, used);
    assert(forall|i: int| 0 <= i < models.len() ==> #[trigger] rows[i] == files[i]);
    assert forall|j: int| 0 <= j < rms.len() implies exists|k: int|
        0 <= k < rows.len() && (#[trigger] rows[k]).router_id == Some((#[trigger] rms[j]).id@) by {
        let id = rms[j].id@;
        if used.contains(id) {
            let i = choose|i: int|
                0 <= i < models.len() && #[trigger] file_id(models, rms, i) == Some(id);
            assert(rows[i].router_id == Some(id));
        } else {
            let row = entry_row(models, meas, opencode, rms[j]);
            assert(rest.contains(row));
            let k = rest.index_of(row);
            assert(rows[files.len() + k] == row);
        }
    }
}

/// A router entry that stands in a row of its own is claimed by no file's
/// row: no model is listed twice under one id.
pub proof fn no_entry_is_listed_twice(
    models: Seq<ModelFile>,
    rms: Seq<RouterModel>,
    meas: Seq<(Seq<char>, Measurement)>,
    opencode: Seq<Seq<char>>,
    hw: Hardware,
    i: int,
    k: int,
)
    requires
        0 <= i < models.len(),
        models.len() <= k < rows_of(models, rms, meas, opencode, hw).len(),
    ensures
        rows_of(models, rms, meas, opencode, hw)[i].router_id != rows_of(
            models,
            rms,
            meas,
            opencode,
            hw,
        )[k].router_id,
{
    broadcast use {lemma_row_of, lemma_entry_row};

    let rows = rows_of(models, rms, meas, opencode, hw);
    let files = file_rows(models, rms, meas, opencode, hw);
    let used = used_before(models, rms, models.len());
    let rest = entry_rows(models, rms, meas, opencode, used);
    lemma_used(models, rms, models.len());
    lemma_entry_rows(models, rms, meas, opencode, used);
    assert(rows[i] == files[i]);
    assert(rows[k] == rest[k - files.len()]);
    assert(files[i].router_id == file_id(models, rms, i));
    let id = rest[k - files.len()].router_id->0;
    if file_id(models, rms, i) == Some(id) {
        lemma_entry_from(rms, id, 0);
        let j = choose|j: int| 0 <= j < rms.len() && (#[trigger] rms[j]).id@ == id;
        assert(offered(rms, id));
        assert(used.contains(file_id(models, rms, i)->0));
    }
}

/// The fallback for a file whose id cannot be predicted never takes an entry
/// that another row has.
pub proof fn fallback_takes_only_unclaimed_entries(
    models: Seq<ModelFile>,
    rms: Seq<RouterModel>,
    n: int,
)
    requires
        0 <= n < models.len(),
        id_of_path(models, models[n].path@) is None,
        file_id(models, rms, n) is Some,
    ensures
        forall|i: int|
            0 <= i < n ==> (#[trigger] file_id(models, rms, i)) != file_id(models, rms, n),
        forall|i: int|
            0 <= i < models.len() ==> (#[trigger] id_of_path(models, models[i].path@)) != file_id(
                models,
                rms,
                n,
            ),
{
    let u = used_before(models, rms, n as nat);
    lemma_used(models, rms, n as nat);
    lemma_claimed(models, rms, models.len());
    if let Source::HfHub { repo } = models[n].source {
        let c = unclaimed_of(rms, repo@ + ":"@, u);
        lemma_unclaimed(rms, repo@ + ":"@, u);
        let j = c[0];
        let t = rms[j].id@;
        assert(!u.contains(t));
        assert(offered(rms, t)) by {
            lemma_entry_from(rms, t, 0);
        }
        assert forall|i: int| 0 <= i < n implies (#[trigger] file_id(models, rms, i)) != file_id(
            models,
            rms,
            n,
        ) by {}
        assert forall|i: int| 0 <= i < models.len() implies (#[trigger] id_of_path(
            models,
            models[i].path@,
        )) != file_id(models, rms, n) by {
            if id_of_path(models, models[i].path@) == Some(t) {
                assert(claimed(models, rms, models.len()).contains(t));
                assert(u.contains(t));
            }
        }
    }
}

/// The grades in numbers. A failed load is bad whatever else is known. A
/// measured model is good where its context is at least 24576 tokens and its
/// probe did not fail to call a tool, and gets a warning otherwise. Of what is
/// not measured, none is good: an unreadable file is bad, and so is one that
/// exceeds the largest card and all memory but 8 GiB; one that leaves a card
/// less than 1 GiB gets a warning.
pub proof fn grades_are_earned(
    readable: bool,
    size_bytes: u64,
    measured: Option<u64>,
    tool_call: Option<bool>,
    failure: Option<Cause>,
    hw: Hardware,
)
    ensures
        ({
            let grade = advice_of(readable, size_bytes, measured, tool_call, failure, hw).0;
            let mib = size_bytes / 1_048_576;
            &&& grade == AdviceLevel::Good <==> failure is None && measured is Some && measured->0
                >= 24_576 && tool_call != Some(false)
            &&& failure is Some ==> grade == AdviceLevel::Bad
            &&& failure is None && measured is Some ==> grade == AdviceLevel::Good || grade
                == AdviceLevel::Warn
            &&& failure is None && measured is None ==> {
                let too_large = hw.vram_mib > 0 && mib > hw.vram_mib && mib - hw.vram_mib + 8192
                    > hw.ram_mib;
                let spills = hw.vram_mib > 0 && mib > 0 && mib + 1024 > hw.vram_mib;
                &&& grade == AdviceLevel::Bad <==> !readable || too_large
                &&& grade == AdviceLevel::Warn <==> readable && !too_large && spills
                &&& grade == AdviceLevel::Unknown <==> readable && !too_large && !spills
            }
        }),
{
}

/// Every row of a file tells what is known under its id, and its grade is
/// earned by that: an embedding model is good, and any other only with a
/// measured context of at least 24576 tokens, no failure and no probe that
/// called no tool.
pub proof fn a_files_row_tells_what_is_known(
    models: Seq<ModelFile>,
    rms: Seq<RouterModel>,
    meas: Seq<(Seq<char>, Measurement)>,
    opencode: Seq<Seq<char>>,
    hw: Hardware,
    i: int,
)
    requires
        0 <= i < models.len(),
    ensures
        ({
            let row = rows_of(models, rms, meas, opencode, hw)[i];
            let m = models[i];
            let known = match row.router_id {
                Some(id) => lookup(meas, id),
                None => None,
            };
            &&& row.path == Some(m.path@)
            &&& row.size_bytes == m.file_size
            &&& row.archivable <==> !(m.source is Shelf)
            &&& row.vision <==> m.mmproj is Some
            &&& row.mtp <==> m.meta is Some && (m.meta->0).has_mtp
            &&& row.in_opencode <==> row.router_id is Some && opencode.contains(row.router_id->0)
            &&& m.meta is Some ==> row.train_ctx == (m.meta->0).context_length
            &&& known is None ==> row.measured_ctx is None && row.failure is None && row.pp_tps
                is None && row.tg_tps is None
            &&& known matches Some(x) ==> {
                &&& row.measured_ctx == x.n_ctx
                &&& row.failure is Some <==> x.error is Some
                &&& x.error is Some ==> row.failure->0 == (x.error->0)@
                &&& row.pp_tps == x.pp_tps
                &&& row.tg_tps == x.tg_tps
            }
            &&& row.embedding ==> row.advice_level == AdviceLevel::Good
            &&& !row.embedding ==> (row.advice_level == AdviceLevel::Good <==> known is Some
                && row.failure is None && row.measured_ctx is Some && row.measured_ctx->0 >= 24_576
                && (known->0).tool_call != Some(false))
            &&& !row.embedding && row.failure is Some ==> row.advice_level == AdviceLevel::Bad
            &&& !row.embedding && row.failure is None && row.measured_ctx is Some
                ==> row.advice_level == AdviceLevel::Good || row.advice_level == AdviceLevel::Warn
        }),
{
    reveal(row_of);
    assert(rows_of(models, rms, meas, opencode, hw)[i] == file_rows(
        models,
        rms,
        meas,
        opencode,
        hw,
    )[i]);
}

/// The row of an entry that no file has tells what is known under its id: it
/// is good with a measured context of at least 24576 tokens, and never
/// otherwise; a measured smaller one gets a warning; a failure is bad.
pub proof fn an_entrys_row_tells_what_is_known(
    models: Seq<ModelFile>,
    rms: Seq<RouterModel>,
    meas: Seq<(Seq<char>, Measurement)>,
    opencode: Seq<Seq<char>>,
    hw: Hardware,
    k: int,
)
    requires
        models.len() <= k < rows_of(models, rms, meas, opencode, hw).len(),
    ensures
        ({
            let row = rows_of(models, rms, meas, opencode, hw)[k];
            &&& row.router_id is Some
            &&& row.path is None
            &&& exists|j: int|
                0 <= j < rms.len() && row.router_id == Some((#[trigger] rms[j]).id@)
                    && row.server_status == Some(rms[j].status@)
            &&& row.in_opencode <==> opencode.contains(row.router_id->0)
            &&& match lookup(meas, row.router_id->0) {
                Some(x) => {
                    &&& row.measured_ctx == x.n_ctx
                    &&& row.failure is Some <==> x.error is Some
                    &&& row.pp_tps == x.pp_tps && row.tg_tps == x.tg_tps
                },
                None => row.measured_ctx is None && row.failure is None,
            }
            &&& row.advice_level == AdviceLevel::Good <==> row.measured_ctx is Some
                && row.measured_ctx->0 >= 24_576
            &&& row.measured_ctx is Some && row.measured_ctx->0 < 24_576 ==> row.advice_level
                == AdviceLevel::Warn
            &&& row.measured_ctx is None && row.failure is Some ==> row.advice_level
                == AdviceLevel::Bad
        }),
{
    let used = used_before(models, rms, models.len());
    let e = entry_rows(models, rms, meas, opencode, used);
    let n = k - models.len();
    assert(rows_of(models, rms, meas, opencode, hw)[k] == e[n]);
    lemma_entry_row_of(models, rms, meas, opencode, used, n);
}

proof fn lemma_entry_row_of(
    models: Seq<ModelFile>,
    rms: Seq<RouterModel>,
    meas: Seq<(Seq<char>, Measurement)>,
    opencode: Seq<Seq<char>>,
    used: Seq<Seq<char>>,
    n: int,
)
    requires
        0 <= n < entry_rows(models, rms, meas, opencode, used).len(),
    ensures
        ({
            let row = entry_rows(models, rms, meas, opencode, used)[n];
            exists|j: int|
                0 <= j < rms.len() && row == entry_row(models, meas, opencode, #[trigger] rms[j])
                    && row.router_id == Some(rms[j].id@) && row.server_status == Some(
                    rms[j].status@,
                )
        }),
        ({
            let row = entry_rows(models, rms, meas, opencode, used)[n];
            let mm = lookup(meas, row.router_id->0);
            &&& row.path is None
            &&& row.in_opencode == opencode.contains(row.router_id->0)
            &&& match mm {
                Some(x) => row.measured_ctx == x.n_ctx && row.failure == opt_text(x.error)
                    && row.pp_tps == x.pp_tps && row.tg_tps == x.tg_tps,
                None => row.measured_ctx is None && row.failure is None,
            }
            &&& exists|rm: RouterModel| row.advice_level == (#[trigger] entry_advice(rm, mm)).0
        }),
    decreases rms.len(),
{
    reveal(entry_row);
    let before = entry_rows(models, rms.drop_last(), meas, opencode, used);
    if n < before.len() {
        lemma_entry_row_of(models, rms.drop_last(), meas, opencode, used, n);
        let row = before[n];
        let j = choose|j: int|
            0 <= j < rms.drop_last().len() && row == entry_row(
                models,
                meas,
                opencode,
                #[trigger] rms.drop_last()[j],
            ) && row.router_id == Some(rms.drop_last()[j].id@) && row.server_status == Some(
                rms.drop_last()[j].status@,
            );
        assert(rms[j] == rms.drop_last()[j]);
    } else {
        let rm = rms[rms.len() - 1];
        let row = entry_rows(models, rms, meas, opencode, used)[n];
        assert(row == entry_row(models, meas, opencode, rm));
        assert(row.advice_level == entry_advice(rm, lookup(meas, rm.id@)).0);
    }
}

/// Memory is told by the first line that tells the total in kilobytes.
pub proof fn the_first_total_counts(l: Seq<Seq<char>>, from: int)
    requires
        0 <= from <= l.len(),
    ensures
        match first_total(l, from) {
            Some(n) => exists|i: int|
                from <= i < l.len() && mem_total_kb(#[trigger] l[i]) == Some(n) && forall|k: int|
                    from <= k < i ==> mem_total_kb(#[trigger] l[k]) is None,
            None => forall|k: int| from <= k < l.len() ==> mem_total_kb(#[trigger] l[k]) is None,
        },
    decreases l.len() - from,
{
    if from < l.len() {
        if mem_total_kb(l[from]) is None {
            the_first_total_counts(l, from + 1);
            if first_total(l, from + 1) is Some {
                let i = choose|i: int|
                    from + 1 <= i < l.len() && mem_total_kb(#[trigger] l[i]) == first_total(
                        l,
                        from + 1,
                    ) && forall|k: int|
                        from + 1 <= k < i ==> mem_total_kb(#[trigger] l[k]) is None;
                assert(mem_total_kb(l[i]) == first_total(l, from));
                assert forall|k: int| from <= k < i implies mem_total_kb(#[trigger] l[k]) is None by {}
            }
        } else {
            assert(mem_total_kb(l[from]) is Some);
        }
    }
}

} // verus!
