//! The router server: preset generation, ownership and the measurement store
//! for one long-lived llama-server in router mode.
//!
//! Ownership rule: we only ever signal a process whose pid we recorded at
//! spawn time AND whose cmdline still names our preset file. Anything else
//! answering the port is *external* — observed, reported, never touched.

use crate::fingerprint::{fnv, fnv_of};
use crate::json::{
    array_of_json, bool_in, bool_of_json, get_in, i64_of_json, json_document, json_views, member,
    member_of, opt_json, str_in, text_of_json, Json, JsonView,
};
use crate::library::{alias_of, alias_suggestion, display_of, ModelFile, Source};
use crate::num::{dec, dec_int, dec_int_text, dec_len, dec_text, lemma_dec_parses};
use crate::path::{join_of, join_path};
use crate::preset::{section_name, sections_of};
use crate::settings::{
    base_dir, no_overrides, pairs, xdg_dir, Env, ModelOverrides, OverridesView, APP_NAME,
};
use crate::text::{
    chars_of, contains, copy_text, cut_once, has_text, holds_text, is_space, join, join_texts,
    lemma_line_between, lines, lowercase, opt_str, opt_text, same, same_text, split_once, tail,
    text_of, texts, trim, trim_end, trim_start, trim_start_of, trimmed, trimmed_start_of, views,
    whitespace, words, words_of,
};
use crate::textmap::{has_key, put, put_then_lookup, sorted};
use vstd::prelude::*;
use vstd::string::*;

verus! {

/// Everything needed to run (or find) our router.
#[derive(Debug, Clone)]
pub struct RouterConfig {
    pub server_bin: String,
    pub port: u16,
    pub preset_path: String,
    /// Max concurrently loaded models (`--models-max`). 1 is the right
    /// default on a single 24GB-class GPU; the router still *lists* every
    /// model and swaps on demand.
    pub models_max: u32,
}

/// The oldest llama-server this app can drive: router mode
/// (`--models-preset`, hot-swap, `--fit`) landed around b10216.
pub const MIN_ROUTER_BUILD: u64 = 10_216;

/// Why a build is refused.
pub open spec fn too_old_text(b: u64) -> Seq<char> {
    "your llama-server is b"@ + dec(b as nat) + ", which predates router mode — this app needs b"@
        + dec(MIN_ROUTER_BUILD as nat) + BUILD_CURRENT@
}

pub const BUILD_CURRENT: &'static str = " or newer. The Build Advisor (Server -> Check My \
             llama.cpp) can build a current one for you.";

/// Plain-language pre-start check. `None` (unprobeable) passes — the
/// timeout path still catches truly broken binaries.
pub fn router_mode_supported(build: Option<u64>) -> (r: Result<(), String>)
    ensures
        match build {
            Some(b) => if b < 10_216 {
                r is Err && r->Err_0@ == too_old_text(b)
            } else {
                r is Ok
            },
            None => r is Ok,
        },
{
    if let Some(b) = build {
        if b < MIN_ROUTER_BUILD {
            let mut s = copy_text("your llama-server is b");
            s.append(dec_text(b).as_str());
            s.append(", which predates router mode — this app needs b");
            s.append(dec_text(MIN_ROUTER_BUILD).as_str());
            s.append(BUILD_CURRENT);
            return Err(s);
        }
    }
    Ok(())
}

// ----------------------------------------------------------------- extra flags

/// Why an extra-flags line is refused.
#[derive(Debug, Clone, PartialEq)]
pub enum ExtraLineError {
    Empty,
    /// The line without its dashes.
    NotAFlag(String),
}

pub const NOT_A_FLAG: &'static str = "not a flag line (want `key = value`, `--key value`, or a bare `--flag`): ";

impl ExtraLineError {
    pub open spec fn text(self) -> Seq<char> {
        match self {
            ExtraLineError::Empty => "empty line"@,
            ExtraLineError::NotAFlag(line) => NOT_A_FLAG@ + crate::text::debug_text(line@),
        }
    }

    /// The error in words.
    pub fn message(&self) -> (r: String)
        ensures
            r@ == self.text(),
    {
        match self {
            ExtraLineError::Empty => copy_text("empty line"),
            ExtraLineError::NotAFlag(line) => {
                let mut s = copy_text(NOT_A_FLAG);
                s.append(crate::text::quote(line.as_str()).as_str());
                s
            },
        }
    }
}

/// The first place from `from` on that holds whitespace.
pub open spec fn space_from(s: Seq<char>, from: int) -> Option<int>
    decreases s.len() - from,
{
    if from < 0 || from >= s.len() {
        None
    } else if is_space(s[from]) {
        Some(from)
    } else {
        space_from(s, from + 1)
    }
}

/// The key and the value of a line without its dashes: what `=` parts, or
/// else whitespace; a bare flag means true.
pub open spec fn flag_parts(line: Seq<char>) -> (Seq<char>, Seq<char>) {
    match split_once(line, "="@) {
        Some((k, v)) => (trim(k), trim(v)),
        None => match space_from(line, 0) {
            Some(i) => (trim(line.take(i)), trim(line.skip(i + 1))),
            None => (line, "true"@),
        },
    }
}

/// What an extra-flags line says, or whether it was empty.
pub open spec fn extra_line(line: Seq<char>) -> Result<(Seq<char>, Seq<char>), bool> {
    let bare = trim_start_of(trim(line), seq!['-']);
    let (k, v) = flag_parts(bare);
    if bare.len() == 0 {
        Err(true)
    } else if k.len() == 0 || space_from(k, 0) is Some || space_from(v, 0) is Some {
        Err(false)
    } else {
        Ok((k, v))
    }
}

fn first_space(s: &[char]) -> (r: Option<usize>)
    ensures
        match r {
            Some(i) => space_from(s@, 0) == Some(i as int) && i < s.len(),
            None => space_from(s@, 0) is None,
        },
{
    let mut i: usize = 0;
    while i < s.len()
        invariant
            i <= s.len(),
            space_from(s@, 0) == space_from(s@, i as int),
        decreases s.len() - i,
    {
        if whitespace(s[i]) {
            return Some(i);
        }
        i += 1;
    }
    None
}

/// One extra-flags line -> (key, value). Accepts what model cards teach:
/// leading dashes stripped, space OR `=` separates, a bare flag means true.
pub fn parse_extra_line(line: &str) -> (r: Result<(String, String), ExtraLineError>)
    ensures
        match (r, extra_line(line@)) {
            (Ok((k, v)), Ok((a, b))) => k@ == a && v@ == b,
            (Err(ExtraLineError::Empty), Err(empty)) => empty,
            (Err(ExtraLineError::NotAFlag(l)), Err(empty)) => !empty && l@ == trim_start_of(
                trim(line@),
                seq!['-'],
            ),
            _ => false,
        },
{
    let c = chars_of(line);
    let dash: [char; 1] = ['-'];
    assert(dash@ =~= seq!['-']);
    let bare = trimmed_start_of(trimmed(&c), &dash);
    if bare.len() == 0 {
        return Err(ExtraLineError::Empty);
    }
    let truth = chars_of("true");
    let (k, v): (&[char], &[char]) = match cut_once(bare, "=") {
        Some((a, b)) => (trimmed(a), trimmed(b)),
        None => match first_space(bare) {
            Some(i) => (trimmed(crate::text::head(bare, i)), trimmed(tail(bare, i + 1))),
            None => (bare, truth.as_slice()),
        },
    };
    if k.len() == 0 || first_space(k).is_some() || first_space(v).is_some() {
        return Err(ExtraLineError::NotAFlag(text_of(bare)));
    }
    Ok((text_of(k), text_of(v)))
}

// ---------------------------------------------------------------- directories

/// Where measurements and logs live.
pub open spec fn state_dir_of(e: Env) -> Seq<char> {
    join_path(base_dir(e.state_home, e, ".local/state"@), APP_NAME@)
}

/// ~/.local/state/modelsteward (`XDG_STATE_HOME` respected).
pub fn state_dir(e: &Env) -> (r: String)
    ensures
        r@ == state_dir_of(*e),
{
    xdg_dir(&e.state_home, e, ".local/state")
}

/// Where slot KV snapshots live. Setting `slot-save-path` in `[*]` turns
/// on llama-server's `/slots/{id}?action=save|restore` API for every
/// served model — pure enablement, zero cost until something calls it.
pub fn slot_save_dir(e: &Env) -> (r: String)
    ensures
        r@ == join_path(state_dir_of(*e), "slots"@),
{
    join_of(state_dir(e).as_str(), "slots")
}

// ------------------------------------------------------------------ the preset

/// The KV cache type the generated preset's `[*]` section applies to every
/// model — the measured-on-this-hardware good default (≈2x usable context
/// vs f16). The override dialog treats this as the "optimized" baseline.
pub const DEFAULT_KV_TYPE: &'static str = "q8_0";

/// KV block reuse for slot prompt caching: when an agent resends a prompt
/// edited in the MIDDLE, the server shifts and reuses cache beyond the
/// edit instead of reprocessing everything after it. The single biggest
/// prefill win for agentic workloads.
pub const DEFAULT_CACHE_REUSE: u32 = 256;

/// Host-RAM budget for keeping prompt caches of swapped-out slots (MiB).
/// llama-server's default is 8192; agent workflows with several parallel
/// sessions benefit from more on RAM-rich machines.
pub const DEFAULT_CACHE_RAM_MIB: u32 = 24_576;

/// llama-server's own effective defaults, shown prefilled in the ⚙
/// dialog with leave-equal-means-not-pinned semantics.
pub const DEFAULT_UBATCH: &'static str = "512";

pub const DEFAULT_TEMP: &'static str = "0.8";

pub const DEFAULT_TOP_K: &'static str = "40";

pub const DEFAULT_TOP_P: &'static str = "0.95";

pub const PRESET_HEAD: &'static str = "; Generated by modelsteward — edits are welcome but regeneration\n\
         ; overwrites this file; put keep-forever tweaks in the app instead.\n\
         version = 1\n\n\
         [*]\n\
         np = 1\n\
         cache-type-k = ";

/// A line of a section that sets a key.
pub open spec fn setting(k: Seq<char>, v: Seq<char>) -> Seq<char> {
    k + " = "@ + v + "\n"@
}

pub open spec fn extra_lines(v: Seq<(Seq<char>, Seq<char>)>) -> Seq<char>
    decreases v.len(),
{
    if v.len() == 0 {
        Seq::empty()
    } else {
        extra_lines(v.drop_last()) + setting(v.last().0, v.last().1)
    }
}

/// The lines that a model's overrides add to its section.
pub open spec fn override_lines(ov: OverridesView) -> Seq<char> {
    (match ov.cache_type_kv {
        Some(kv) => setting("cache-type-k"@, kv) + setting("cache-type-v"@, kv),
        None => Seq::empty(),
    }) + (match ov.ctx {
        Some(c) => setting("c"@, dec(c as nat)),
        None => Seq::empty(),
    }) + extra_lines(ov.extra)
}

/// The section of a model: its name, its file where the router does not know
/// it already, and its overrides.
pub open spec fn section(name: Seq<char>, path: Option<Seq<char>>, ov: OverridesView) -> Seq<char> {
    "\n["@ + name + "]\n"@ + (match path {
        Some(p) => setting("model"@, p),
        None => Seq::empty(),
    }) + override_lines(ov)
}

pub open spec fn model_sections(v: Seq<(String, &ModelFile, ModelOverrides)>) -> Seq<char>
    decreases v.len(),
{
    if v.len() == 0 {
        Seq::empty()
    } else {
        model_sections(v.drop_last()) + section(
            v.last().0@,
            Some(v.last().1.path@),
            v.last().2@,
        )
    }
}

pub open spec fn bare_sections(v: Seq<(String, ModelOverrides)>) -> Seq<char>
    decreases v.len(),
{
    if v.len() == 0 {
        Seq::empty()
    } else {
        bare_sections(v.drop_last()) + section(v.last().0@, None, v.last().1@)
    }
}

/// The section that every model inherits.
pub open spec fn preset_head(slots: Seq<char>) -> Seq<char> {
    PRESET_HEAD@ + DEFAULT_KV_TYPE@ + "\ncache-type-v = "@ + DEFAULT_KV_TYPE@ + "\ncache-reuse = "@
        + dec(DEFAULT_CACHE_REUSE as nat) + "\ncache-ram = "@ + dec(DEFAULT_CACHE_RAM_MIB as nat)
        + "\nslot-save-path = "@ + slots + "\n"@
}

fn push_setting(out: &mut String, k: &str, v: &str)
    ensures
        final(out)@ == old(out)@ + setting(k@, v@),
{
    out.append(k);
    out.append(" = ");
    out.append(v);
    out.append("\n");
    assert(out@ =~= old(out)@ + setting(k@, v@));
}

fn push_overrides(out: &mut String, ov: &ModelOverrides)
    ensures
        final(out)@ == old(out)@ + override_lines(ov@),
{
    let ghost start = out@;
    let ghost kv_part = match ov@.cache_type_kv {
        Some(kv) => setting("cache-type-k"@, kv) + setting("cache-type-v"@, kv),
        None => Seq::empty(),
    };
    if let Some(kv) = &ov.cache_type_kv {
        push_setting(out, "cache-type-k", kv.as_str());
        push_setting(out, "cache-type-v", kv.as_str());
    }
    assert(out@ =~= start + kv_part);
    let ghost ctx_part = match ov@.ctx {
        Some(c) => setting("c"@, dec(c as nat)),
        None => Seq::empty(),
    };
    if let Some(c) = ov.ctx {
        push_setting(out, "c", dec_text(c).as_str());
    }
    let ghost before = out@;
    assert(before =~= start + kv_part + ctx_part);
    let mut i: usize = 0;
    assert(extra_lines(pairs(ov.extra@).take(0)) =~= Seq::<char>::empty());
    assert(out@ =~= before + extra_lines(pairs(ov.extra@).take(0)));
    while i < ov.extra.len()
        invariant
            i <= ov.extra.len(),
            out@ == before + extra_lines(pairs(ov.extra@).take(i as int)),
        decreases ov.extra.len() - i,
    {
        let ghost sofar = pairs(ov.extra@).take(i + 1);
        assert(sofar.drop_last() =~= pairs(ov.extra@).take(i as int));
        push_setting(out, ov.extra[i].0.as_str(), ov.extra[i].1.as_str());
        assert(out@ =~= before + extra_lines(sofar));
        i += 1;
    }
    assert(pairs(ov.extra@).take(i as int) =~= pairs(ov.extra@));
    assert(out@ =~= start + override_lines(ov@));
}

fn push_section(out: &mut String, name: &str, path: Option<&str>, ov: &ModelOverrides)
    ensures
        final(out)@ == old(out)@ + section(name@, opt_str(path), ov@),
{
    let ghost start = out@;
    out.append("\n[");
    out.append(name);
    out.append("]\n");
    let ghost headed = out@;
    assert(headed =~= start + ("\n["@ + name@ + "]\n"@));
    if let Some(p) = path {
        push_setting(out, "model", p);
    }
    push_overrides(out, ov);
    assert(out@ =~= start + section(name@, opt_str(path), ov@));
}

/// Render the router preset INI. Pure — writing it and telling the server to
/// reload are separate steps.
///
/// Defaults encode the north star for single-user agentic coding:
/// `np = 1` (one slot, so OpenCode gets the whole fitted context — instances
/// default to 4 slots sharing it) and `q8_0` KV cache. A section whose name
/// matches a model the router already knows configures it — no `model =`
/// line needed or wanted.
pub fn render_preset(
    models: &[(String, &ModelFile, ModelOverrides)],
    extra_sections: &[(String, ModelOverrides)],
    slots: &str,
) -> (r: String)
    ensures
        r@ == preset_head(slots@) + model_sections(models@) + bare_sections(extra_sections@),
{
    let mut out = copy_text(PRESET_HEAD);
    out.append(DEFAULT_KV_TYPE);
    out.append("\ncache-type-v = ");
    out.append(DEFAULT_KV_TYPE);
    out.append("\ncache-reuse = ");
    out.append(dec_text(DEFAULT_CACHE_REUSE as u64).as_str());
    out.append("\ncache-ram = ");
    out.append(dec_text(DEFAULT_CACHE_RAM_MIB as u64).as_str());
    out.append("\nslot-save-path = ");
    out.append(slots);
    out.append("\n");
    let ghost top = preset_head(slots@);
    assert(out@ == top);
    let mut i: usize = 0;
    assert(out@ =~= top + model_sections(models@.take(0)));
    while i < models.len()
        invariant
            i <= models.len(),
            out@ == top + model_sections(models@.take(i as int)),
        decreases models.len() - i,
    {
        assert(models@.take(i + 1).drop_last() =~= models@.take(i as int));
        let m = &models[i];
        push_section(&mut out, m.0.as_str(), Some(m.1.path.as_str()), &m.2);
        assert(out@ =~= top + model_sections(models@.take(i + 1)));
        i += 1;
    }
    assert(models@.take(i as int) =~= models@);
    let ghost mid = top + model_sections(models@);
    let mut j: usize = 0;
    assert(out@ =~= mid + bare_sections(extra_sections@.take(0)));
    while j < extra_sections.len()
        invariant
            j <= extra_sections.len(),
            out@ == mid + bare_sections(extra_sections@.take(j as int)),
        decreases extra_sections.len() - j,
    {
        assert(extra_sections@.take(j + 1).drop_last() =~= extra_sections@.take(j as int));
        let m = &extra_sections[j];
        push_section(&mut out, m.0.as_str(), None, &m.1);
        assert(out@ =~= mid + bare_sections(extra_sections@.take(j + 1)));
        j += 1;
    }
    assert(extra_sections@.take(j as int) =~= extra_sections@);
    out
}

// --------------------------------------------------------------------- aliases

/// A base with a numeric suffix.
pub open spec fn suffixed(base: Seq<char>, n: nat) -> Seq<char> {
    base + "-"@ + dec(n)
}

/// The first number from `n` on whose suffix makes a name that is not used.
pub open spec fn free_from(used: Seq<Seq<char>>, base: Seq<char>, n: nat, fuel: nat) -> nat
    decreases fuel,
{
    if fuel == 0 || !used.contains(suffixed(base, n)) {
        n
    } else {
        free_from(used, base, n + 1, (fuel - 1) as nat)
    }
}

/// The base, or the base with the first suffix from 2 on that is not used.
pub open spec fn unused_alias(used: Seq<Seq<char>>, base: Seq<char>) -> Seq<char> {
    if !used.contains(base) {
        base
    } else {
        suffixed(base, free_from(used, base, 2, used.len() + 1))
    }
}

/// A file that gets a section of the preset: its header could be read, and
/// the router does not serve it natively.
pub open spec fn gets_section(m: ModelFile) -> bool {
    m.meta is Some && !(m.source is HfHub)
}

/// The aliases of the files that get a section, each with its file's place.
pub open spec fn aliases_of(models: Seq<ModelFile>) -> Seq<(Seq<char>, int)>
    decreases models.len(),
{
    if models.len() == 0 {
        Seq::empty()
    } else {
        let before = aliases_of(models.drop_last());
        let m = models.last();
        if gets_section(m) {
            before.push(
                (
                    unused_alias(names_of(before), alias_of(lowercase(display_of(m)))),
                    models.len() - 1,
                ),
            )
        } else {
            before
        }
    }
}

pub open spec fn names_of(v: Seq<(Seq<char>, int)>) -> Seq<Seq<char>> {
    Seq::new(v.len(), |i: int| v[i].0)
}

proof fn lemma_dec_injective(a: nat, b: nat)
    requires
        dec(a) == dec(b),
    ensures
        a == b,
{
    lemma_dec_parses(a);
    lemma_dec_parses(b);
}

proof fn lemma_suffixed_injective(base: Seq<char>, a: nat, b: nat)
    requires
        suffixed(base, a) == suffixed(base, b),
    ensures
        a == b,
{
    let p = base + "-"@;
    assert(dec(a) =~= suffixed(base, a).skip(p.len() as int));
    assert(dec(b) =~= suffixed(base, b).skip(p.len() as int));
    lemma_dec_injective(a, b);
}

/// Where every one of the first `fuel` suffixes is used, there are as many
/// names in use.
proof fn lemma_free_from(used: Seq<Seq<char>>, base: Seq<char>, n: nat, fuel: nat, hit: Set<
    Seq<char>,
>)
    requires
        hit.finite(),
        hit.len() + fuel == used.len() + 1,
        forall|t: Seq<char>| hit.contains(t) ==> used.contains(t),
        forall|t: Seq<char>|
            hit.contains(t) ==> exists|k: nat| k < n && t == #[trigger] suffixed(base, k),
    ensures
        !used.contains(suffixed(base, free_from(used, base, n, fuel))),
    decreases fuel,
{
    let t = suffixed(base, n);
    if fuel == 0 {
        vstd::seq_lib::seq_to_set_is_finite(used);
        let all = used.to_set();
        used.lemma_cardinality_of_set();
        assert(hit.subset_of(all)) by {
            assert forall|x: Seq<char>| hit.contains(x) implies all.contains(x) by {
                assert(used.contains(x));
            }
        }
        vstd::set_lib::lemma_len_subset(hit, all);
    } else if used.contains(t) {
        assert(!hit.contains(t)) by {
            if hit.contains(t) {
                let k = choose|k: nat| k < n && t == #[trigger] suffixed(base, k);
                lemma_suffixed_injective(base, n, k);
            }
        }
        let more = hit.insert(t);
        assert forall|x: Seq<char>| more.contains(x) implies exists|k: nat|
            k < n + 1 && x == #[trigger] suffixed(base, k) by {
            if x == t {
                assert(n < n + 1 && x == suffixed(base, n));
            } else {
                let k = choose|k: nat| k < n && x == #[trigger] suffixed(base, k);
                assert(k < n + 1 && x == suffixed(base, k));
            }
        }
        lemma_free_from(used, base, n + 1, (fuel - 1) as nat, more);
    }
}

/// An alias that is picked is not in use.
pub proof fn lemma_unused_alias(used: Seq<Seq<char>>, base: Seq<char>)
    ensures
        !used.contains(unused_alias(used, base)),
{
    if used.contains(base) {
        lemma_free_from(used, base, 2, used.len() + 1, Set::empty());
    }
}

/// Every alias belongs to one of the files.
pub proof fn lemma_alias_places(models: Seq<ModelFile>)
    ensures
        forall|k: int|
            0 <= k < aliases_of(models).len() ==> 0 <= (#[trigger] aliases_of(models)[k]).1
                < models.len(),
    decreases models.len(),
{
    if models.len() > 0 {
        lemma_alias_places(models.drop_last());
        let before = aliases_of(models.drop_last());
        assert forall|k: int| 0 <= k < aliases_of(models).len() implies 0 <= (
        #[trigger] aliases_of(models)[k]).1 < models.len() by {
            if k < before.len() {
                assert(aliases_of(models)[k] == before[k]);
            }
        }
    }
}

/// A name that can stand in a section's head.
pub open spec fn heads_a_section(name: Seq<char>) -> bool {
    !name.contains('\n') && name != "*"@
}

proof fn lemma_section_line(name: Seq<char>)
    ensures
        section_name(trim("["@ + name + "]"@)) == Some(name),
{
    reveal_strlit("[");
    reveal_strlit("]");
    let line = "["@ + name + "]"@;
    assert(line[0] == '[' && line.last() == ']');
    assert(trim_start(line) == line);
    assert(trim_end(line) == line);
    assert(line.subrange(0, 1) =~= "["@);
    let rest = line.skip(1);
    assert(rest.subrange(rest.len() - 1, rest.len() as int) =~= "]"@);
    assert(rest.take(rest.len() - 1) =~= name);
}

proof fn lemma_section_read(l: Seq<Seq<char>>, line: Seq<char>, name: Seq<char>)
    requires
        section_name(trim(line)) == Some(name),
        name != "*"@,
    ensures
        sorted(sections_of(l)),
        l.contains(line) ==> has_key(sections_of(l), name),
    decreases l.len(),
{
    if l.len() > 0 {
        let before = l.drop_last();
        lemma_section_read(before, line, name);
        if let Some(n) = section_name(trim(l.last())) {
            put_then_lookup(sections_of(before), n, (), name);
        }
        if l.contains(line) && l.last() != line {
            let i = choose|i: int| 0 <= i < l.len() && l[i] == line;
            assert(before[i] == line);
            assert(before.contains(line));
        }
    }
}

/// A model's section stands in the text of all.
proof fn lemma_section_stands(v: Seq<(String, &ModelFile, ModelOverrides)>, i: int) -> (r: (
    Seq<char>,
    Seq<char>,
))
    requires
        0 <= i < v.len(),
    ensures
        model_sections(v) == r.0 + "\n["@ + v[i].0@ + "]\n"@ + r.1,
    decreases v.len(),
{
    let last = section(v.last().0@, Some(v.last().1.path@), v.last().2@);
    let before = model_sections(v.drop_last());
    if i == v.len() - 1 {
        let rest = setting("model"@, v[i].1.path@) + override_lines(v[i].2@);
        assert(model_sections(v) =~= before + "\n["@ + v[i].0@ + "]\n"@ + rest);
        (before, rest)
    } else {
        let r = lemma_section_stands(v.drop_last(), i);
        assert(model_sections(v) =~= r.0 + "\n["@ + v[i].0@ + "]\n"@ + (r.1 + last));
        (r.0, r.1 + last)
    }
}

/// Every model that is rendered into a preset is found in it again.
pub proof fn rendered_models_are_read_back(
    models: Seq<(String, &ModelFile, ModelOverrides)>,
    extra: Seq<(String, ModelOverrides)>,
    slots: Seq<char>,
    i: int,
)
    requires
        0 <= i < models.len(),
        heads_a_section(models[i].0@),
    ensures
        ({
            let text = preset_head(slots) + model_sections(models) + bare_sections(extra);
            has_key(sections_of(lines(text)), models[i].0@)
        }),
{
    let name = models[i].0@;
    let text = preset_head(slots) + model_sections(models) + bare_sections(extra);
    let r = lemma_section_stands(models, i);
    let line = "["@ + name + "]"@;
    let before = preset_head(slots) + r.0;
    let behind = r.1 + bare_sections(extra);
    reveal_strlit("\n[");
    reveal_strlit("]\n");
    reveal_strlit("[");
    reveal_strlit("]");
    assert("\n["@ =~= seq!['\n'] + "["@);
    assert("]\n"@ =~= "]"@ + seq!['\n']);
    assert(text =~= before + seq!['\n'] + line + seq!['\n'] + behind);
    assert(line.last() == ']');
    assert forall|k: int| 0 <= k < line.len() implies line[k] != '\n' by {
        if 0 < k < line.len() - 1 {
            assert(line[k] == name[k - 1]);
        }
    }
    lemma_line_between(before, line, behind);
    lemma_section_line(name);
    lemma_section_read(lines(text), line, name);
}

/// No two sections of the preset have one name.
pub proof fn aliases_never_collide(models: Seq<ModelFile>)
    ensures
        names_of(aliases_of(models)).no_duplicates(),
    decreases models.len(),
{
    if models.len() > 0 {
        let t = models.drop_last();
        aliases_never_collide(t);
        let before = aliases_of(t);
        let m = models.last();
        if gets_section(m) {
            let base = alias_of(lowercase(display_of(m)));
            lemma_unused_alias(names_of(before), base);
            let all = names_of(aliases_of(models));
            let name = unused_alias(names_of(before), base);
            assert(all =~= names_of(before).push(name));
            assert forall|i: int, j: int|
                0 <= i < all.len() && 0 <= j < all.len() && i != j implies all[i] != all[j] by {
                let last = all.len() - 1;
                if i == last {
                    assert(names_of(before)[j] == all[j]);
                } else if j == last {
                    assert(names_of(before)[i] == all[i]);
                } else {
                    assert(names_of(before)[i] == all[i] && names_of(before)[j] == all[j]);
                }
            }
        }
    }
}

fn pick_alias(used: &[String], base: String) -> (r: String)
    requires
        used.len() < usize::MAX,
    ensures
        r@ == unused_alias(texts(used@), base@),
{
    if !holds_text(used, base.as_str()) {
        return base;
    }
    let mut n: u128 = 2;
    let mut fuel: usize = used.len() + 1;
    loop
        invariant
            fuel <= used.len() + 1,
            used.len() < usize::MAX,
            n + fuel == used.len() + 3,
            texts(used@).contains(base@),
            free_from(texts(used@), base@, 2, (used.len() + 1) as nat) == free_from(
                texts(used@),
                base@,
                n as nat,
                fuel as nat,
            ),
        decreases fuel,
    {
        let mut alias = base.clone();
        alias.append("-");
        crate::num::push_dec(&mut alias, n);
        if fuel == 0 || !holds_text(used, alias.as_str()) {
            return alias;
        }
        n += 1;
        fuel -= 1;
    }
}

/// Default (alias, model, overrides) list for a scanned library: every model
/// with readable metadata, aliased via `alias_suggestion`. Duplicate aliases
/// get a numeric suffix — never two sections one name. HF-hub cache files
/// are excluded: the router serves those natively as "cache" models, and a
/// preset entry would create a second identity.
pub fn default_entries<'a>(models: &'a [ModelFile]) -> (r: Vec<
    (String, &'a ModelFile, ModelOverrides),
>)
    ensures
        r@.len() == aliases_of(models@).len(),
        forall|k: int|
            0 <= k < r@.len() ==> {
                let a = aliases_of(models@)[k];
                &&& 0 <= a.1 < models@.len()
                &&& (#[trigger] r@[k]).0@ == a.0
                &&& *r@[k].1 == models@[a.1]
                &&& r@[k].2@ == no_overrides()
            },
{
    broadcast use crate::text::lemma_texts_push;

    let mut out: Vec<(String, &'a ModelFile, ModelOverrides)> = Vec::new();
    let mut used: Vec<String> = Vec::new();
    let mut i: usize = 0;
    assert(texts(used@) =~= names_of(aliases_of(models@.take(0))));
    while i < models.len()
        invariant
            i <= models.len(),
            out@.len() == aliases_of(models@.take(i as int)).len(),
            used@.len() == out@.len(),
            used@.len() <= i,
            texts(used@) == names_of(aliases_of(models@.take(i as int))),
            forall|k: int|
                0 <= k < out@.len() ==> {
                    let a = aliases_of(models@.take(i as int))[k];
                    &&& 0 <= a.1 < i
                    &&& (#[trigger] out@[k]).0@ == a.0
                    &&& *out@[k].1 == models@[a.1]
                    &&& out@[k].2@ == no_overrides()
                },
        decreases models.len() - i,
    {
        let ghost sofar = models@.take(i + 1);
        assert(sofar.drop_last() =~= models@.take(i as int));
        assert(sofar.last() == models@[i as int]);
        let m = &models[i];
        let hub = match m.source {
            Source::HfHub { .. } => true,
            _ => false,
        };
        if m.meta.is_some() && !hub {
            let alias = pick_alias(&used, alias_suggestion(m));
            let ghost before = aliases_of(models@.take(i as int));
            assert(aliases_of(sofar) == before.push((alias@, i as int)));
            assert(names_of(aliases_of(sofar)) =~= names_of(before).push(alias@));
            used.push(alias.clone());
            out.push((alias, m, ModelOverrides::default()));
            assert(texts(used@) =~= names_of(aliases_of(sofar)));
        }
        i += 1;
    }
    assert(models@.take(i as int) =~= models@);
    out
}

// ------------------------------------------------------------------- ownership

/// What we recorded when we spawned the router.
#[derive(Debug)]
pub struct Marker {
    pub pid: u32,
    pub port: u16,
    pub preset_path: String,
    pub server_bin: String,
}

/// The command line is that of a llama-server with our preset file.
pub open spec fn runs_preset(cmdline: Seq<char>, preset: Seq<char>) -> bool {
    contains(cmdline, "llama-server"@) && contains(cmdline, preset)
}

/// Two words that follow each other are `--port` and `port`.
pub open spec fn names_port(w: Seq<Seq<char>>, port: Seq<char>) -> bool {
    exists|i: int| 0 <= i < w.len() - 1 && #[trigger] w[i] == "--port"@ && w[i + 1] == port
}

/// The command line runs our preset, and serves this port.
pub open spec fn runs_preset_on(cmdline: Seq<char>, preset: Seq<char>, port: u16) -> bool {
    runs_preset(cmdline, preset) && names_port(words(cmdline), dec(port as nat))
}

/// Whether a command line names both llama-server and our preset file — a
/// recycled pid fails this and is treated as gone.
pub fn cmdline_matches(cmdline: &str, preset: &str) -> (r: bool)
    ensures
        r == runs_preset(cmdline@, preset@),
{
    let c = chars_of(cmdline);
    has_text(&c, "llama-server") && has_text(&c, preset)
}

/// As `cmdline_matches`, but the process must also be serving THIS port.
/// Ownership of a port needs both credentials: our old router still alive
/// on another port must not vouch for a stranger answering on this one.
pub fn cmdline_matches_port(cmdline: &str, preset: &str, port: u16) -> (r: bool)
    ensures
        r == runs_preset_on(cmdline@, preset@, port),
{
    if !cmdline_matches(cmdline, preset) {
        return false;
    }
    let c = chars_of(cmdline);
    let w = words_of(&c);
    let flag = chars_of("--port");
    let want = dec_text(port as u64);
    let want = chars_of(want.as_str());
    let ghost ws = views(w@);
    let mut i: usize = 0;
    while i < w.len() && w.len() - i > 1
        invariant
            i <= w.len(),
            ws == views(w@),
            ws == words(cmdline@),
            flag@ == "--port"@,
            want@ == dec(port as nat),
            runs_preset(cmdline@, preset@),
            forall|k: int|
                0 <= k < i && k < ws.len() - 1 ==> !(#[trigger] ws[k] == "--port"@ && ws[k + 1]
                    == dec(port as nat)),
        decreases w.len() - i,
    {
        assert(ws[i as int] == w@[i as int]@);
        assert(ws[i + 1] == w@[i + 1]@);
        if same(w[i], &flag) && same(w[i + 1], &want) {
            return true;
        }
        i += 1;
    }
    false
}

/// The first process from `from` on that runs our preset, on the port where
/// one is asked for.
pub open spec fn owner_from(
    procs: Seq<(u32, String)>,
    preset: Seq<char>,
    port: Option<u16>,
    from: int,
) -> Option<u32>
    decreases procs.len() - from,
{
    if from < 0 || from >= procs.len() {
        None
    } else if owns(procs[from].1@, preset, port) {
        Some(procs[from].0)
    } else {
        owner_from(procs, preset, port, from + 1)
    }
}

pub open spec fn owns(cmdline: Seq<char>, preset: Seq<char>, port: Option<u16>) -> bool {
    match port {
        Some(p) => runs_preset_on(cmdline, preset, p),
        None => runs_preset(cmdline, preset),
    }
}

fn find_owner(procs: &[(u32, String)], preset: &str, port: Option<u16>) -> (r: Option<u32>)
    ensures
        r == owner_from(procs@, preset@, port, 0),
{
    let mut i: usize = 0;
    while i < procs.len()
        invariant
            i <= procs.len(),
            owner_from(procs@, preset@, port, 0) == owner_from(procs@, preset@, port, i as int),
        decreases procs.len() - i,
    {
        let hit = match port {
            Some(p) => cmdline_matches_port(procs[i].1.as_str(), preset, p),
            None => cmdline_matches(procs[i].1.as_str(), preset),
        };
        if hit {
            return Some(procs[i].0);
        }
        i += 1;
    }
    None
}

/// Find any process running llama-server with OUR preset file — covers the
/// systemd-user-unit case, where the marker doesn't exist in this app's
/// state. `procs` are the running processes with their command lines.
pub fn find_preset_process(procs: &[(u32, String)], preset: &str) -> (r: Option<u32>)
    ensures
        r == owner_from(procs@, preset@, None, 0),
{
    find_owner(procs, preset, None)
}

/// Port-checked variant for OWNERSHIP claims (status). The port-less
/// variant stays for stop/identity paths, where "runs our preset" is
/// the right credential regardless of which port config points at now.
pub fn find_preset_process_on(procs: &[(u32, String)], preset: &str, port: u16) -> (r: Option<u32>)
    ensures
        r == owner_from(procs@, preset@, Some(port), 0),
{
    find_owner(procs, preset, Some(port))
}

/// Is the marker's process still alive AND still ours? `cmdline` is that of
/// the marker's pid, where it runs.
pub fn marker_is_live(m: &Marker, cmdline: Option<&str>) -> (r: bool)
    ensures
        r == match cmdline {
            Some(c) => runs_preset(c@, m.preset_path@),
            None => false,
        },
{
    match cmdline {
        Some(c) => cmdline_matches(c, m.preset_path.as_str()),
        None => false,
    }
}

/// A process that we own on a port runs our preset and names that port; so
/// nothing else that answers the port is ever claimed.
pub proof fn ownership_needs_both_credentials(
    procs: Seq<(u32, String)>,
    preset: Seq<char>,
    port: u16,
    from: int,
)
    requires
        0 <= from,
        owner_from(procs, preset, Some(port), from) is Some,
    ensures
        exists|i: int|
            0 <= i < procs.len() && Some((#[trigger] procs[i]).0) == owner_from(
                procs,
                preset,
                Some(port),
                from,
            ) && runs_preset(procs[i].1@, preset) && names_port(
                words(procs[i].1@),
                dec(port as nat),
            ),
    decreases procs.len() - from,
{
    if from < procs.len() && !owns(procs[from].1@, preset, Some(port)) {
        ownership_needs_both_credentials(procs, preset, port, from + 1);
    }
}

// ------------------------------------------------------------ the router's state

#[derive(Debug, Clone, PartialEq)]
pub struct RouterModel {
    pub id: String,
    /// "loaded" | "loading" | "unloaded" | "sleeping" | "downloading" |
    /// "downloaded" (HF-repo presets fetch first); failed loads become
    /// "failed(<exit>)" so the UI never mistakes them for merely-unloaded.
    pub status: String,
    /// Where the router got this model: "preset" (ours) or "cache"
    /// (LLAMA_CACHE downloads the router discovered on its own).
    pub source: Option<String>,
    /// Fingerprint of the effective child args the router would launch this
    /// model with — the "did its config change?" half of measurement
    /// staleness (the other half is the environment fingerprint).
    pub args_fp: Option<String>,
}

#[derive(Debug, Clone, PartialEq)]
pub enum RouterState {
    /// Nothing answers the port and no live marker.
    Down,
    /// Our router is up; per-model statuses included.
    Ours { models: Vec<RouterModel> },
    /// Something we didn't start answers the port. Observed, never touched.
    External { detail: String },
    /// Marker says ours but the port isn't answering (yet / anymore).
    Trouble { detail: String },
}

pub const WONT_TOUCH: &'static str = ". This app observes it but won't touch it; change the port or stop that server";

impl RouterState {
    pub open spec fn text(self) -> Seq<char> {
        match self {
            RouterState::Down => "nothing is answering that port"@,
            RouterState::Ours { models } => "our router is up ("@ + dec(models@.len())
                + " models)"@,
            RouterState::External { detail } => EXTERNAL@ + detail@ + WONT_TOUCH@,
            RouterState::Trouble { detail } => TROUBLE@ + detail@,
        }
    }

    /// A plain sentence for user-facing messages.
    pub fn to_text(&self) -> (r: String)
        ensures
            r@ == self.text(),
    {
        match self {
            RouterState::Down => copy_text("nothing is answering that port"),
            RouterState::Ours { models } => {
                let mut s = copy_text("our router is up (");
                s.append(dec_len(models.len()).as_str());
                s.append(" models)");
                s
            },
            RouterState::External { detail } => {
                let mut s = copy_text(EXTERNAL);
                s.append(detail.as_str());
                s.append(WONT_TOUCH);
                s
            },
            RouterState::Trouble { detail } => {
                let mut s = copy_text(TROUBLE);
                s.append(detail.as_str());
                s
            },
        }
    }
}

pub const EXTERNAL: &'static str = "another server (not started by this app) is using the port — ";

pub const TROUBLE: &'static str = "our router should be there but the port isn't answering — ";

/// The port is ours: the marker we wrote at spawn is live and names this
/// port, or some process runs llama-server with our preset file on it.
pub open spec fn port_is_ours(
    marker: Option<&Marker>,
    marker_cmdline: Option<&str>,
    procs: Seq<(u32, String)>,
    cfg: RouterConfig,
) -> bool {
    ||| match (marker, marker_cmdline) {
        (Some(m), Some(c)) => runs_preset(c@, m.preset_path@) && m.port == cfg.port,
        _ => false,
    }
    ||| owner_from(procs, cfg.preset_path@, Some(cfg.port), 0) is Some
}

/// What is true about a port, given whether it is ours and what its
/// `/models` answered.
pub open spec fn state_of(
    ours: bool,
    port: u16,
    fetched: Result<Vec<RouterModel>, String>,
    s: RouterState,
) -> bool {
    match fetched {
        Ok(models) => if ours {
            s == (RouterState::Ours { models })
        } else {
            s is External && s->External_detail@ == "port "@ + dec(port as nat) + " serves "@ + dec(
                models@.len(),
            ) + " model(s) but we have no record of starting it"@
        },
        Err(e) => if ours {
            s is Trouble && s->Trouble_detail@ == "our router process is alive but: "@ + e@
        } else {
            s is Down
        },
    }
}

/// What is true about our configured port right now. "Ours" includes the
/// PORT: pointing the app at a port where the user runs their OWN
/// llama-server must never make us claim it. `marker_cmdline` is the command
/// line of the marker's pid, `procs` those of the running processes, and
/// `fetched` what the port's `/models` answered.
pub fn status(
    marker: Option<&Marker>,
    marker_cmdline: Option<&str>,
    procs: &[(u32, String)],
    cfg: &RouterConfig,
    fetched: Result<Vec<RouterModel>, String>,
) -> (r: RouterState)
    ensures
        state_of(port_is_ours(marker, marker_cmdline, procs@, *cfg), cfg.port, fetched, r),
{
    let by_marker = match marker {
        Some(m) => marker_is_live(m, marker_cmdline) && m.port == cfg.port,
        None => false,
    };
    let ours = by_marker || find_preset_process_on(
        procs,
        cfg.preset_path.as_str(),
        cfg.port,
    ).is_some();
    match fetched {
        Ok(models) => if ours {
            RouterState::Ours { models }
        } else {
            let mut s = copy_text("port ");
            s.append(dec_text(cfg.port as u64).as_str());
            s.append(" serves ");
            s.append(dec_len(models.len()).as_str());
            s.append(" model(s) but we have no record of starting it");
            RouterState::External { detail: s }
        },
        Err(e) => if ours {
            let mut s = copy_text("our router process is alive but: ");
            s.append(e.as_str());
            RouterState::Trouble { detail: s }
        } else {
            RouterState::Down
        },
    }
}

/// Why the router is not started: a live marker, or a port that answers.
/// "Start" never doubles as "restart".
pub fn start_refusal(live_pid: Option<u32>, port_answers: bool, port: u16) -> (r: Option<String>)
    ensures
        opt_text(r) == match live_pid {
            Some(pid) => Some("our router is already running (pid "@ + dec(pid as nat) + ")"@),
            None => if port_answers {
                Some(
                    "port "@ + dec(port as nat)
                        + " is already serving — a server we didn't start; refusing to interfere"@,
                )
            } else {
                None
            },
        },
{
    if let Some(pid) = live_pid {
        let mut s = copy_text("our router is already running (pid ");
        s.append(dec_text(pid as u64).as_str());
        s.append(")");
        return Some(s);
    }
    if port_answers {
        let mut s = copy_text("port ");
        s.append(dec_text(port as u64).as_str());
        s.append(" is already serving — a server we didn't start; refusing to interfere");
        return Some(s);
    }
    None
}

/// The arguments the router is started with.
pub open spec fn server_args(cfg: RouterConfig) -> Seq<Seq<char>> {
    seq![
        "--models-preset"@,
        cfg.preset_path@,
        "--host"@,
        "127.0.0.1"@,
        "--port"@,
        dec(cfg.port as nat),
        "--models-max"@,
        dec(cfg.models_max as nat),
    ]
}

pub fn start_args(cfg: &RouterConfig) -> (r: Vec<String>)
    ensures
        texts(r@) == server_args(*cfg),
{
    let v: Vec<String> = vec![
        copy_text("--models-preset"),
        cfg.preset_path.clone(),
        copy_text("--host"),
        copy_text("127.0.0.1"),
        copy_text("--port"),
        dec_text(cfg.port as u64),
        copy_text("--models-max"),
        dec_text(cfg.models_max as u64),
    ];
    assert(texts(v@) =~= server_args(*cfg));
    v
}

/// What stopping the router takes.
#[derive(Debug, Clone, PartialEq)]
pub enum StopPlan {
    /// Signal this process; a record of another one is stale.
    Signal { pid: u32, stale_marker: bool },
    /// Nothing to stop; a record of a process that is gone is cleared.
    Nothing { reason: String, stale_marker: bool },
}

/// Which process a stop may signal: the marker's while it is live, else one
/// that runs our preset; none other.
pub open spec fn stop_pid(marker: Option<(u32, bool)>, found: Option<u32>) -> Option<u32> {
    match marker {
        Some((pid, live)) => if live {
            Some(pid)
        } else {
            found
        },
        None => found,
    }
}

/// Plans a stop. `marker` is the recorded pid and whether it is live, `found`
/// a process that runs our preset. External servers are untouchable by
/// design.
pub fn stop_plan(marker: Option<(u32, bool)>, found: Option<u32>) -> (r: StopPlan)
    ensures
        match stop_pid(marker, found) {
            Some(p) => r == (StopPlan::Signal {
                pid: p,
                stale_marker: marker is Some && !(marker->0).1,
            }),
            None => {
                &&& r is Nothing
                &&& r->Nothing_stale_marker == (marker is Some)
                &&& r->Nothing_reason@ == match marker {
                    Some((pid, _)) => "our router (pid "@ + dec(pid as nat)
                        + ") is already gone; cleared the stale record"@,
                    None => "no llama-server running our preset found"@,
                }
            },
        },
{
    match marker {
        Some((pid, live)) => if live {
            StopPlan::Signal { pid, stale_marker: false }
        } else {
            match found {
                Some(p) => StopPlan::Signal { pid: p, stale_marker: true },
                None => {
                    let mut s = copy_text("our router (pid ");
                    s.append(dec_text(pid as u64).as_str());
                    s.append(") is already gone; cleared the stale record");
                    StopPlan::Nothing { reason: s, stale_marker: true }
                },
            }
        },
        None => match found {
            Some(p) => StopPlan::Signal { pid: p, stale_marker: false },
            None => StopPlan::Nothing {
                reason: copy_text("no llama-server running our preset found"),
                stale_marker: false,
            },
        },
    }
}

/// Loading or loaded: what the router holds memory for.
pub open spec fn is_resident(status: Seq<char>) -> bool {
    status == "loaded"@ || status == "loading"@
}

pub fn resident(status: &str) -> (r: bool)
    ensures
        r == is_resident(status@),
{
    same_text(status, "loaded") || same_text(status, "loading")
}

pub open spec fn other_from(models: Seq<RouterModel>, model: Seq<char>, from: int) -> Option<int>
    decreases models.len() - from,
{
    if from < 0 || from >= models.len() {
        None
    } else if models[from].id@ != model && is_resident(models[from].status@) {
        Some(from)
    } else {
        other_from(models, model, from + 1)
    }
}

/// Some OTHER model currently loaded/loading on the router — the signature
/// of another session's traffic colliding with a measurement (models_max=1
/// makes their load our 500). Evidence for "busy", not "broken".
pub fn loaded_other(models: &[RouterModel], model: &str) -> (r: Option<String>)
    ensures
        match other_from(models@, model@, 0) {
            Some(i) => r is Some && r->0@ == models@[i].id@,
            None => r is None,
        },
{
    let mut i: usize = 0;
    while i < models.len()
        invariant
            i <= models.len(),
            other_from(models@, model@, 0) == other_from(models@, model@, i as int),
        decreases models.len() - i,
    {
        if !same_text(models[i].id.as_str(), model) && resident(models[i].status.as_str()) {
            return Some(models[i].id.clone());
        }
        i += 1;
    }
    None
}

/// Some entry for the model is loading or loaded.
pub open spec fn holds_model(models: Seq<RouterModel>, model: Seq<char>) -> bool {
    exists|i: int|
        0 <= i < models.len() && (#[trigger] models[i]).id@ == model && is_resident(
            models[i].status@,
        )
}

/// Whether the router still reports the model as loaded/loading — i.e. its
/// VRAM is not back yet.
pub fn still_loaded(models: &[RouterModel], model: &str) -> (r: bool)
    ensures
        r == holds_model(models@, model@),
{
    let mut i: usize = 0;
    while i < models.len()
        invariant
            i <= models.len(),
            forall|k: int|
                0 <= k < i ==> !((#[trigger] models@[k]).id@ == model@ && is_resident(
                    models@[k].status@,
                )),
        decreases models.len() - i,
    {
        if same_text(models[i].id.as_str(), model) && resident(models[i].status.as_str()) {
            assert(models@[i as int].id@ == model@);
            return true;
        }
        i += 1;
    }
    false
}

/// Whether there is still a model to wait for: the router answered, and holds
/// it. A router that is gone holds nothing.
pub fn waits_for_unload(answer: Option<&[RouterModel]>, model: &str) -> (r: bool)
    ensures
        r == (answer is Some && holds_model(answer->0@, model@)),
{
    match answer {
        Some(models) => still_loaded(models, model),
        None => false,
    }
}

/// How often a router that was told to stop is looked at, a tenth of a second
/// apart.
pub const STOP_LOOKS: u32 = 300;

pub const NOT_ESCALATING: &'static str = ") still running 30s after SIGTERM; not escalating \
         automatically — it may exit late, so check --status before restarting";

/// What a look at a router that was told to stop comes to.
#[derive(Debug, Clone, PartialEq)]
pub enum StopPoll {
    /// It is gone: its record can go too.
    Gone,
    /// Look again.
    Wait,
    /// It takes too long.
    GiveUp(String),
}

/// One look, the `looks`th, at a router that was told to stop.
pub fn poll_stop(looks: u32, alive: bool, pid: u32) -> (r: StopPoll)
    ensures
        if !alive {
            r is Gone
        } else if looks < STOP_LOOKS {
            r is Wait
        } else {
            r is GiveUp && r->GiveUp_0@ == "router (pid "@ + dec(pid as nat) + NOT_ESCALATING@
        },
{
    if !alive {
        StopPoll::Gone
    } else if looks < STOP_LOOKS {
        StopPoll::Wait
    } else {
        let mut s = copy_text("router (pid ");
        s.append(dec_text(pid as u64).as_str());
        s.append(NOT_ESCALATING);
        StopPoll::GiveUp(s)
    }
}

// ------------------------------------------------------------ argument prints

/// The arguments without `--port` and the word behind it: the router stamps
/// `--port 0` on unloaded entries but the *actual* ephemeral port after a
/// load, so including it would mark every model stale the moment it had ever
/// been loaded.
pub open spec fn stable_args_of(args: Seq<Seq<char>>) -> Seq<Seq<char>>
    decreases args.len(),
{
    if args.len() == 0 {
        Seq::empty()
    } else if args[0] == "--port"@ {
        if args.len() > 1 {
            stable_args_of(args.skip(2))
        } else {
            Seq::empty()
        }
    } else {
        seq![args[0]] + stable_args_of(args.skip(1))
    }
}

/// Drop volatile flag pairs from a child-args list before fingerprinting.
pub fn stable_args(args: &[String]) -> (r: Vec<String>)
    ensures
        texts(r@) == stable_args_of(texts(args@)),
{
    broadcast use crate::text::lemma_texts_push;

    let ghost all = texts(args@);
    let mut out: Vec<String> = Vec::new();
    let mut i: usize = 0;
    assert(all.skip(0) =~= all);
    assert(texts(out@) + stable_args_of(all) =~= stable_args_of(all));
    while i < args.len()
        invariant
            i <= args.len(),
            all == texts(args@),
            texts(out@) + stable_args_of(all.skip(i as int)) == stable_args_of(all),
        decreases args.len() - i,
    {
        let ghost rest = all.skip(i as int);
        assert(rest[0] == args@[i as int]@);
        if same_text(args[i].as_str(), "--port") {
            if args.len() - i > 1 {
                assert(rest.skip(2) =~= all.skip(i + 2));
                i += 2;
            } else {
                assert(all.skip(i + 1) =~= Seq::<Seq<char>>::empty());
                i += 1;
            }
        } else {
            assert(rest.skip(1) =~= all.skip(i + 1));
            let ghost before = texts(out@);
            out.push(args[i].clone());
            assert(texts(out@) + stable_args_of(all.skip(i + 1)) =~= before + (seq![rest[0]]
                + stable_args_of(all.skip(i + 1))));
            i += 1;
        }
    }
    assert(all.skip(i as int) =~= Seq::<Seq<char>>::empty());
    assert(texts(out@) =~= stable_args_of(all));
    out
}

/// The fingerprint of a child-args list.
pub open spec fn args_print(args: Seq<Seq<char>>) -> Seq<char> {
    fnv_of(join(stable_args_of(args), " "@))
}

pub fn args_fingerprint(args: &[String]) -> (r: String)
    ensures
        r@ == args_print(texts(args@)),
{
    let v = stable_args(args);
    let line = join_texts(&v, " ");
    fnv(line.as_str())
}

proof fn lemma_stable_args_cons(a: Seq<char>, rest: Seq<Seq<char>>)
    requires
        a != "--port"@,
    ensures
        stable_args_of(seq![a] + rest) == seq![a] + stable_args_of(rest),
{
    assert((seq![a] + rest).skip(1) =~= rest);
}

/// The port that a load assigned never changes the fingerprint.
pub proof fn port_does_not_change_the_fingerprint(
    before: Seq<Seq<char>>,
    port: Seq<char>,
    after: Seq<Seq<char>>,
)
    requires
        !before.contains("--port"@),
    ensures
        args_print(before + seq!["--port"@, port] + after) == args_print(before + after),
    decreases before.len(),
{
    lemma_port_dropped(before, port, after);
}

proof fn lemma_port_dropped(before: Seq<Seq<char>>, port: Seq<char>, after: Seq<Seq<char>>)
    requires
        !before.contains("--port"@),
    ensures
        stable_args_of(before + seq!["--port"@, port] + after) == stable_args_of(before + after),
    decreases before.len(),
{
    if before.len() == 0 {
        let all = before + seq!["--port"@, port] + after;
        assert(all.skip(2) =~= after);
        assert(before + after =~= after);
    } else {
        let a = before[0];
        let rest = before.skip(1);
        assert(before[0] == a);
        assert(a != "--port"@) by {
            if a == "--port"@ {
                assert(before.contains(a));
            }
        }
        assert(!rest.contains("--port"@)) by {
            if rest.contains("--port"@) {
                let k = rest.index_of("--port"@);
                assert(before[k + 1] == rest[k]);
            }
        }
        lemma_port_dropped(rest, port, after);
        assert(before + seq!["--port"@, port] + after =~= seq![a] + (rest + seq!["--port"@, port]
            + after));
        assert(before + after =~= seq![a] + (rest + after));
        lemma_stable_args_cons(a, rest + seq!["--port"@, port] + after);
        lemma_stable_args_cons(a, rest + after);
    }
}

// ------------------------------------------------------------ the router's answers

pub struct ModelView {
    pub id: Seq<char>,
    pub status: Seq<char>,
    pub source: Option<Seq<char>>,
    pub args_fp: Option<Seq<char>>,
}

impl View for RouterModel {
    type V = ModelView;

    open spec fn view(&self) -> ModelView {
        ModelView {
            id: self.id@,
            status: self.status@,
            source: opt_text(self.source),
            args_fp: opt_text(self.args_fp),
        }
    }
}

pub open spec fn model_views(v: Seq<RouterModel>) -> Seq<ModelView> {
    Seq::new(v.len(), |i: int| v[i]@)
}

/// The texts among the elements of an array.
pub open spec fn texts_among(a: Seq<JsonView>) -> Seq<Seq<char>>
    decreases a.len(),
{
    if a.len() == 0 {
        Seq::empty()
    } else {
        let before = texts_among(a.drop_last());
        match a.last() {
            JsonView::Text(s) => before.push(s),
            _ => before,
        }
    }
}

/// What the router reports of a load: its state, or the exit code of one that
/// failed.
pub open spec fn status_of(st: JsonView, value: Seq<char>) -> Seq<char> {
    if bool_of_json(member(st, "failed"@)) == Some(true) {
        "failed("@ + dec_int(
            match i64_of_json(member(st, "exit_code"@)) {
                Some(c) => c as int,
                None => -1,
            },
        ) + ")"@
    } else {
        value
    }
}

/// One entry of the listing, where it has an id and a status.
pub open spec fn model_in(m: JsonView) -> Option<ModelView> {
    match (text_of_json(member(m, "id"@)), member(m, "status"@)) {
        (Some(id), Some(st)) => match text_of_json(member(st, "value"@)) {
            Some(value) => Some(
                ModelView {
                    id,
                    status: status_of(st, value),
                    source: text_of_json(member(m, "source"@)),
                    args_fp: match array_of_json(member(st, "args"@)) {
                        Some(a) => Some(args_print(texts_among(a))),
                        None => None,
                    },
                },
            ),
            None => None,
        },
        _ => None,
    }
}

pub open spec fn models_among(a: Seq<JsonView>) -> Seq<ModelView>
    decreases a.len(),
{
    if a.len() == 0 {
        Seq::empty()
    } else {
        let before = models_among(a.drop_last());
        match model_in(a.last()) {
            Some(m) => before.push(m),
            None => before,
        }
    }
}

/// The models that a `GET /models` response lists.
pub open spec fn models_listed(body: JsonView) -> Seq<ModelView> {
    match array_of_json(member(body, "data"@)) {
        Some(a) => models_among(a),
        None => Seq::empty(),
    }
}

fn collect_texts(a: &[Json]) -> (r: Vec<String>)
    ensures
        texts(r@) == texts_among(json_views(a@)),
{
    let ghost all = json_views(a@);
    let mut out: Vec<String> = Vec::new();
    let mut i: usize = 0;
    assert(all.take(0) =~= Seq::empty());
    assert(texts(out@) =~= Seq::empty());
    while i < a.len()
        invariant
            i <= a.len(),
            all == json_views(a@),
            texts(out@) == texts_among(all.take(i as int)),
        decreases a.len() - i,
    {
        assert(all.take(i + 1).drop_last() =~= all.take(i as int));
        assert(all.take(i + 1).last() == a@[i as int]@);
        if let Some(s) = a[i].as_str() {
            let ghost before = out@;
            out.push(s.clone());
            proof {
                crate::text::lemma_texts_push(before, *s);
            }
        }
        i += 1;
    }
    assert(all.take(i as int) =~= all);
    out
}

fn read_model(m: &Json) -> (r: Option<RouterModel>)
    ensures
        match r {
            Some(x) => model_in(m@) == Some(x@),
            None => model_in(m@) is None,
        },
{
    let id = match str_in(m.get("id")) {
        Some(id) => id,
        None => {
            return None;
        },
    };
    let st = match m.get("status") {
        Some(st) => st,
        None => {
            return None;
        },
    };
    let value = match str_in(st.get("value")) {
        Some(v) => v,
        None => {
            return None;
        },
    };
    let status = if let Some(true) = bool_in(st.get("failed")) {
        let code = match st.get("exit_code") {
            Some(c) => match c.as_i64() {
                Some(n) => n,
                None => -1,
            },
            None => -1,
        };
        let mut s = copy_text("failed(");
        s.append(dec_int_text(code).as_str());
        s.append(")");
        s
    } else {
        value
    };
    let args_fp = match st.get("args") {
        Some(a) => match a.as_array() {
            Some(v) => {
                let words = collect_texts(v);
                Some(args_fingerprint(&words))
            },
            None => None,
        },
        None => None,
    };
    Some(RouterModel { id, status, source: str_in(m.get("source")), args_fp })
}

/// Parse the router's `GET /models` response.
pub fn parse_models_response(body: &Json) -> (r: Vec<RouterModel>)
    ensures
        model_views(r@) == models_listed(body@),
{
    let mut out: Vec<RouterModel> = Vec::new();
    assert(model_views(out@) =~= Seq::empty());
    if let Some(d) = body.get("data") {
        if let Some(a) = d.as_array() {
            let ghost all = json_views(a@);
            let mut i: usize = 0;
            assert(all.take(0) =~= Seq::empty());
            while i < a.len()
                invariant
                    i <= a.len(),
                    all == json_views(a@),
                    model_views(out@) == models_among(all.take(i as int)),
                decreases a.len() - i,
            {
                assert(all.take(i + 1).drop_last() =~= all.take(i as int));
                assert(all.take(i + 1).last() == a@[i as int]@);
                if let Some(m) = read_model(&a[i]) {
                    let ghost before = model_views(out@);
                    out.push(m);
                    assert(model_views(out@) =~= before.push(m@));
                }
                i += 1;
            }
            assert(all.take(i as int) =~= all);
        }
    }
    out
}

/// The element `0` that a JSON pointer names: of an array the first, of an
/// object the value of that key.
pub open spec fn at_zero(j: Option<JsonView>) -> Option<JsonView> {
    match j {
        Some(JsonView::Array(a)) => if a.len() > 0 {
            Some(a[0])
        } else {
            None
        },
        Some(JsonView::Object(_)) => member(j->0, "0"@),
        _ => None,
    }
}

pub fn zero_in<'a>(j: Option<&'a Json>) -> (r: Option<&'a Json>)
    ensures
        opt_json(r) == at_zero(opt_json(j)),
{
    broadcast use crate::json::lemma_json_view;

    match j {
        Some(v) => match v {
            Json::Array(a) => {
                assert(v@ == JsonView::Array(json_views(a@)));
                if a.len() > 0 {
                    Some(&a[0])
                } else {
                    None
                }
            },
            Json::Object(_) => v.get("0"),
            _ => None,
        },
        None => None,
    }
}

/// The message of a chat response's first choice.
pub open spec fn first_message(body: JsonView) -> Option<JsonView> {
    member_of(at_zero(member(body, "choices"@)), "message"@)
}

/// The first tool call's function.
pub open spec fn first_call(body: JsonView) -> Option<JsonView> {
    member_of(at_zero(member_of(first_message(body), "tool_calls"@)), "function"@)
}

/// The response calls the probe's function, with arguments that are a JSON
/// object.
pub open spec fn calls_probe(body: JsonView) -> bool {
    match first_call(body) {
        Some(f) => {
            &&& text_of_json(member(f, "name"@)) == Some("get_weather"@)
            &&& match text_of_json(member(f, "arguments"@)) {
                Some(a) => json_document(a) is Ok && json_document(a)->Ok_0 is Object,
                None => false,
            }
        },
        None => false,
    }
}

/// The first tool call's function.
pub fn tool_call_in(body: &Json) -> (r: Option<&Json>)
    ensures
        opt_json(r) == first_call(body@),
{
    let message = get_in(zero_in(body.get("choices")), "message");
    get_in(zero_in(get_in(message, "tool_calls")), "function")
}

/// Does the response contain a well-formed tool call? Requires a non-empty
/// `tool_calls` whose first entry names our probe function with arguments
/// that parse as a JSON object.
pub fn parse_tool_call_probe(body: &Json) -> (r: bool)
    ensures
        r == calls_probe(body@),
{
    broadcast use crate::json::lemma_json_view;

    let f = match tool_call_in(body) {
        Some(f) => f,
        None => {
            return false;
        },
    };
    let ours = match str_in(f.get("name")) {
        Some(n) => same_text(n.as_str(), "get_weather"),
        None => false,
    };
    let args_ok = match str_in(f.get("arguments")) {
        Some(a) => match crate::json::parse(a.as_str()) {
            Ok(j) => match j {
                Json::Object(_) => true,
                _ => false,
            },
            Err(_) => false,
        },
        None => false,
    };
    ours && args_ok
}

/// Every model inherits a cache in q8_0 that is reused from 256 tokens on, and 24576 MiB of
/// memory for prompts.
pub proof fn every_model_inherits_the_defaults(slots: Seq<char>)
    ensures
        crate::text::ends_with(
            preset_head(slots),
            "q8_0"@ + "\ncache-type-v = "@ + "q8_0"@ + "\ncache-reuse = "@ + dec(256)
                + "\ncache-ram = "@ + dec(24_576) + "\nslot-save-path = "@ + slots + "\n"@,
        ),
{
    let head = preset_head(slots);
    let tail = "q8_0"@ + "\ncache-type-v = "@ + "q8_0"@ + "\ncache-reuse = "@ + dec(256)
        + "\ncache-ram = "@ + dec(24_576) + "\nslot-save-path = "@ + slots + "\n"@;
    let p = PRESET_HEAD@.len() as int;
    assert(head =~= PRESET_HEAD@ + tail);
    assert(head.subrange(p, p + tail.len()) =~= tail);
}

/// A model's cache type is written for its keys and its values alike, its context as `c`,
/// and each of its other settings as it is.
pub proof fn overrides_are_written(ov: OverridesView, kv: Seq<char>, c: u64, k: int)
    ensures
        ov.cache_type_kv == Some(kv) ==> contains(
            override_lines(ov),
            "cache-type-k"@ + " = "@ + kv + "\n"@ + ("cache-type-v"@ + " = "@ + kv + "\n"@),
        ),
        ov.ctx == Some(c) ==> contains(
            override_lines(ov),
            "c"@ + " = "@ + dec(c as nat) + "\n"@,
        ),
        0 <= k < ov.extra.len() ==> contains(
            override_lines(ov),
            ov.extra[k].0 + " = "@ + ov.extra[k].1 + "\n"@,
        ),
{
    let a = match ov.cache_type_kv {
        Some(kv) => setting("cache-type-k"@, kv) + setting("cache-type-v"@, kv),
        None => Seq::empty(),
    };
    let b = match ov.ctx {
        Some(c) => setting("c"@, dec(c as nat)),
        None => Seq::empty(),
    };
    let e = extra_lines(ov.extra);
    assert(override_lines(ov) == a + b + e);
    if ov.cache_type_kv == Some(kv) {
        lemma_between(Seq::empty(), a, b + e);
        assert(Seq::<char>::empty() + a + (b + e) =~= a + b + e);
    }
    if ov.ctx == Some(c) {
        lemma_between(a, b, e);
    }
    if 0 <= k < ov.extra.len() {
        let t = setting(ov.extra[k].0, ov.extra[k].1);
        let (x, y) = lemma_extra_line(ov.extra, k);
        lemma_between(a + b + x, t, y);
        assert(a + b + x + t + y =~= a + b + e);
    }
}

proof fn lemma_between(x: Seq<char>, t: Seq<char>, y: Seq<char>)
    ensures
        contains(x + t + y, t),
{
    let w = x + t + y;
    assert(w.subrange(x.len() as int, (x.len() + t.len()) as int) =~= t);
    assert(crate::text::occurs_at(w, t, x.len() as int));
}

proof fn lemma_extra_line(v: Seq<(Seq<char>, Seq<char>)>, k: int) -> (r: (Seq<char>, Seq<char>))
    requires
        0 <= k < v.len(),
    ensures
        extra_lines(v) == r.0 + setting(v[k].0, v[k].1) + r.1,
    decreases v.len(),
{
    let s = v.drop_last();
    let t = setting(v.last().0, v.last().1);
    if k < s.len() {
        let (x, y) = lemma_extra_line(s, k);
        assert(s[k] == v[k]);
        assert(extra_lines(s) + t =~= x + setting(v[k].0, v[k].1) + (y + t));
        (x, y + t)
    } else {
        assert(extra_lines(s) + t =~= extra_lines(s) + t + Seq::<char>::empty());
        (extra_lines(s), Seq::empty())
    }
}

/// Every file that can be read, and that the router does not serve by itself, gets a
/// section; no other does.
pub proof fn every_readable_file_gets_a_section(models: Seq<ModelFile>, i: int)
    requires
        0 <= i < models.len(),
    ensures
        (models[i].meta is Some && !(models[i].source is HfHub)) <==> exists|k: int|
            0 <= k < aliases_of(models).len() && (#[trigger] aliases_of(models)[k]).1 == i,
    decreases models.len(),
{
    let s = models.drop_last();
    let before = aliases_of(s);
    let now = aliases_of(models);
    lemma_alias_places(s);
    if i < s.len() {
        every_readable_file_gets_a_section(s, i);
        assert(s[i] == models[i]);
        if exists|k: int| 0 <= k < before.len() && (#[trigger] before[k]).1 == i {
            let k = choose|k: int| 0 <= k < before.len() && (#[trigger] before[k]).1 == i;
            assert(now[k] == before[k]);
        }
        if exists|k: int| 0 <= k < now.len() && (#[trigger] now[k]).1 == i {
            let k = choose|k: int| 0 <= k < now.len() && (#[trigger] now[k]).1 == i;
            assert(k < before.len());
            assert(before[k] == now[k]);
        }
    } else {
        if gets_section(models[i]) {
            assert(now[now.len() - 1].1 == i);
        } else if exists|k: int| 0 <= k < now.len() && (#[trigger] now[k]).1 == i {
            let k = choose|k: int| 0 <= k < now.len() && (#[trigger] now[k]).1 == i;
            assert(before[k].1 < s.len());
        }
    }
}

/// A name that is free is taken as it is; else the first number from 2 on that makes it a
/// free one is put behind it.
pub proof fn the_first_free_number_is_taken(used: Seq<Seq<char>>, base: Seq<char>)
    ensures
        !used.contains(base) ==> unused_alias(used, base) == base,
        used.contains(base) ==> exists|n: nat|
            n >= 2 && unused_alias(used, base) == #[trigger] (base + "-"@ + dec(n)) && forall|
                m: nat,
            |
                2 <= m < n ==> used.contains(#[trigger] (base + "-"@ + dec(m))),
{
    if used.contains(base) {
        lemma_first_free(used, base, 2, used.len() + 1);
        let n = free_from(used, base, 2, used.len() + 1);
        assert forall|m: nat| 2 <= m < n implies used.contains(#[trigger] (base + "-"@ + dec(m))) by {
            assert(used.contains(suffixed(base, m)));
        }
        assert(unused_alias(used, base) == base + "-"@ + dec(n));
    }
}

proof fn lemma_first_free(used: Seq<Seq<char>>, base: Seq<char>, n: nat, fuel: nat)
    ensures
        free_from(used, base, n, fuel) >= n,
        forall|m: nat|
            n <= m < free_from(used, base, n, fuel) ==> used.contains(#[trigger] suffixed(base, m)),
    decreases fuel,
{
    if fuel > 0 && used.contains(suffixed(base, n)) {
        lemma_first_free(used, base, n + 1, (fuel - 1) as nat);
    }
}

/// A server with our preset on the port is found, wherever it stands among the processes.
pub proof fn our_server_is_found(
    procs: Seq<(u32, String)>,
    preset: Seq<char>,
    port: u16,
    i: int,
    k: int,
)
    requires
        0 <= i < procs.len(),
        contains(procs[i].1@, "llama-server"@),
        contains(procs[i].1@, preset),
        0 <= k < words(procs[i].1@).len() - 1,
        words(procs[i].1@)[k] == "--port"@,
        words(procs[i].1@)[k + 1] == dec(port as nat),
    ensures
        owner_from(procs, preset, Some(port), 0) is Some,
        owner_from(procs, preset, None, 0) is Some,
{
    assert(names_port(words(procs[i].1@), dec(port as nat)));
    lemma_owner(procs, preset, Some(port), 0, i);
    lemma_owner(procs, preset, None, 0, i);
}

proof fn lemma_owner(
    procs: Seq<(u32, String)>,
    preset: Seq<char>,
    port: Option<u16>,
    from: int,
    i: int,
)
    requires
        0 <= from <= i < procs.len(),
        owns(procs[i].1@, preset, port),
    ensures
        owner_from(procs, preset, port, from) is Some,
    decreases procs.len() - from,
{
    if !owns(procs[from].1@, preset, port) {
        lemma_owner(procs, preset, port, from + 1, i);
    }
}

/// The fingerprint is of every argument but the port: arguments without one are taken as
/// they are.
pub proof fn all_other_arguments_count(args: Seq<Seq<char>>)
    requires
        !args.contains("--port"@),
    ensures
        stable_args_of(args) == args,
    decreases args.len(),
{
    if args.len() > 0 {
        assert(args.contains(args[0]));
        let rest = args.skip(1);
        assert(!rest.contains("--port"@)) by {
            if rest.contains("--port"@) {
                let k = choose|k: int| 0 <= k < rest.len() && rest[k] == "--port"@;
                assert(args[k + 1] == "--port"@);
            }
        }
        all_other_arguments_count(rest);
        assert(seq![args[0]] + rest =~= args);
    }
}

/// Every entry of a listing with an id and a status is listed, under both; a failed one
/// with its exit code, or -1 where it has none.
pub proof fn every_served_model_is_listed(a: Seq<JsonView>, i: int, id: Seq<char>, st: JsonView)
    requires
        0 <= i < a.len(),
        text_of_json(member(a[i], "id"@)) == Some(id),
        member(a[i], "status"@) == Some(st),
        text_of_json(member(st, "value"@)) is Some,
    ensures
        exists|k: int|
            0 <= k < models_among(a).len() && (#[trigger] models_among(a)[k]).id == id && (
            bool_of_json(member(st, "failed"@)) != Some(true) ==> Some(models_among(a)[k].status)
                == text_of_json(member(st, "value"@))) && (bool_of_json(member(st, "failed"@))
                == Some(true) && i64_of_json(member(st, "exit_code"@)) is None
                ==> models_among(a)[k].status == "failed("@ + dec_int(-1) + ")"@) && (bool_of_json(
                member(st, "failed"@),
            ) == Some(true) && i64_of_json(member(st, "exit_code"@)) is Some
                ==> models_among(a)[k].status == "failed("@ + dec_int(
                i64_of_json(member(st, "exit_code"@))->0 as int,
            ) + ")"@) && models_among(a)[k].source == text_of_json(member(a[i], "source"@)),
    decreases a.len(),
{
    let s = a.drop_last();
    let before = models_among(s);
    let now = models_among(a);
    if i < s.len() {
        assert(s[i] == a[i]);
        every_served_model_is_listed(s, i, id, st);
        let k = choose|k: int|
            0 <= k < before.len() && (#[trigger] before[k]).id == id && (bool_of_json(
                member(st, "failed"@),
            ) != Some(true) ==> Some(before[k].status) == text_of_json(member(st, "value"@))) && (
            bool_of_json(member(st, "failed"@)) == Some(true) && i64_of_json(
                member(st, "exit_code"@),
            ) is None ==> before[k].status == "failed("@ + dec_int(-1) + ")"@) && (bool_of_json(
                member(st, "failed"@),
            ) == Some(true) && i64_of_json(member(st, "exit_code"@)) is Some ==> before[k].status
                == "failed("@ + dec_int(i64_of_json(member(st, "exit_code"@))->0 as int) + ")"@)
                && before[k].source == text_of_json(member(a[i], "source"@));
        assert(now[k] == before[k]);
    } else {
        assert(now[now.len() - 1].id == id);
    }
}

/// A line of extra flags is read whichever way it is written: with an equals sign, with a
/// space, with dashes before it, or bare.
pub proof fn a_flag_is_read_however_it_is_written(k: Seq<char>, v: Seq<char>)
    requires
        !k.contains('='),
        space_from(k, 0) is None,
        space_from(v, 0) is None,
        trim(k) == k,
        trim(v) == v,
    ensures
        !v.contains('=') ==> flag_parts(k + seq![' '] + v) == (k, v),
        flag_parts(k + seq!['='] + v) == (k, v),
        flag_parts(k) == (k, "true"@),
{
    reveal_strlit("=");
    assert("="@ =~= seq!['=']);
    lemma_no_equals(k);
    let a = k + seq!['='] + v;
    lemma_equals_at(k, v);
    if !v.contains('=') {
        let b = k + seq![' '] + v;
        assert(!b.contains('=')) by {
            if b.contains('=') {
                let j = choose|j: int| 0 <= j < b.len() && b[j] == '=';
                if j < k.len() {
                    assert(k[j] == '=');
                } else if j > k.len() {
                    assert(v[j - k.len() - 1] == '=');
                }
            }
        }
        lemma_no_equals(b);
        lemma_space_at(k, v, 0);
        assert(b.take(k.len() as int) =~= k);
        assert(b.skip((k.len() + 1) as int) =~= v);
    }
}

proof fn lemma_no_equals(s: Seq<char>)
    requires
        !s.contains('='),
    ensures
        split_once(s, "="@) is None,
{
    reveal_strlit("=");
    crate::text::lemma_find(s, "="@);
    if crate::text::find(s, "="@) is Some {
        let i = crate::text::find(s, "="@)->0;
        assert(s.subrange(i, i + 1)[0] == "="@[0]);
        assert(s[i] == '=');
    }
}

proof fn lemma_equals_at(k: Seq<char>, v: Seq<char>)
    requires
        !k.contains('='),
    ensures
        split_once(k + seq!['='] + v, "="@) == Some((k, v)),
{
    reveal_strlit("=");
    let a = k + seq!['='] + v;
    let at = k.len() as int;
    crate::text::lemma_find_from(a, "="@, 0);
    assert(a.subrange(at, at + 1) =~= "="@);
    assert("="@.len() == 1);
    assert(crate::text::occurs_at(a, "="@, at));
    let i = crate::text::find(a, "="@)->0;
    assert(a.subrange(i, i + 1) == "="@);
    assert(a.subrange(i, i + 1)[0] == '=');
    assert(a[i] == '=');
    if i < k.len() {
        assert(k[i] == '=');
        assert(k.contains('='));
    }
    assert(i <= k.len());
    assert(a.take(k.len() as int) =~= k);
    assert(a.skip((k.len() + 1) as int) =~= v);
}

proof fn lemma_space_at(k: Seq<char>, v: Seq<char>, from: int)
    requires
        0 <= from <= k.len(),
        space_from(k, from) is None,
    ensures
        space_from(k + seq![' '] + v, from) == Some(k.len() as int),
    decreases k.len() - from,
{
    let b = k + seq![' '] + v;
    if from < k.len() {
        assert(b[from] == k[from]);
        lemma_space_at(k, v, from + 1);
    } else {
        assert(b[from] == ' ');
        assert(is_space(' '));
    }
}

/// The word that stands behind another.
pub open spec fn behind(args: Seq<Seq<char>>, flag: Seq<char>, value: Seq<char>) -> bool {
    exists|i: int| 0 <= i < args.len() - 1 && #[trigger] args[i] == flag && args[i + 1] == value
}

/// The router is started with our preset, on this machine alone, on its port, and with as
/// many models at once as are allowed.
pub proof fn the_router_is_told_what_to_serve(cfg: RouterConfig)
    ensures
        behind(server_args(cfg), "--models-preset"@, cfg.preset_path@),
        behind(server_args(cfg), "--host"@, "127.0.0.1"@),
        behind(server_args(cfg), "--port"@, dec(cfg.port as nat)),
        behind(server_args(cfg), "--models-max"@, dec(cfg.models_max as nat)),
        names_port(server_args(cfg), dec(cfg.port as nat)),
{
    let a = server_args(cfg);
    assert(a[0] == "--models-preset"@ && a[1] == cfg.preset_path@);
    assert(a[2] == "--host"@ && a[3] == "127.0.0.1"@);
    assert(a[4] == "--port"@ && a[5] == dec(cfg.port as nat));
    assert(a[6] == "--models-max"@ && a[7] == dec(cfg.models_max as nat));
}

/// Another model that is loaded or loading is found where there is one, and the first of them.
pub proof fn another_resident_is_found(models: Seq<RouterModel>, model: Seq<char>, from: int)
    requires
        0 <= from <= models.len(),
    ensures
        match other_from(models, model, from) {
            Some(i) => from <= i < models.len() && models[i].id@ != model && (models[i].status@
                == "loaded"@ || models[i].status@ == "loading"@),
            None => forall|k: int|
                from <= k < models.len() ==> (#[trigger] models[k]).id@ == model || (
                models[k].status@ != "loaded"@ && models[k].status@ != "loading"@),
        },
    decreases models.len() - from,
{
    if from < models.len() && !(models[from].id@ != model && is_resident(models[from].status@)) {
        another_resident_is_found(models, model, from + 1);
    }
}

/// A process is stopped by the record of its start only while it lives; else the one that was
/// found is, and none where none was.
pub proof fn only_a_live_record_is_stopped(pid: u32, found: Option<u32>)
    ensures
        stop_pid(Some((pid, true)), found) == Some(pid),
        stop_pid(Some((pid, false)), found) == found,
        stop_pid(None, found) == found,
{
}

/// A tool was called where the first call is one of `get_weather` with an object for its
/// arguments, and in no other case.
pub proof fn only_a_whole_call_counts(body: JsonView)
    ensures
        calls_probe(body) ==> first_call(body) is Some && text_of_json(
            member(first_call(body)->0, "name"@),
        ) == Some("get_weather"@) && text_of_json(member(first_call(body)->0, "arguments"@)) is Some,
        first_call(body) is Some && text_of_json(member(first_call(body)->0, "name"@)) == Some(
            "get_weather"@,
        ) ==> match text_of_json(member(first_call(body)->0, "arguments"@)) {
            Some(a) => calls_probe(body) <==> json_document(a) is Ok && json_document(a)->Ok_0 is Object,
            None => !calls_probe(body),
        },
{
}

} // verus!
