//! Baseline throughput per model via llama-bench — pp (prompt processing) and
//! tg (generation) tokens/sec.
//!
//! llama-bench loads the model itself, outside the router, so callers must
//! make sure nothing else holds the GPU first (router idle, no Ollama model
//! resident) or the numbers measure the contention, not the model. Baselines
//! run with the same KV cache types the preset serves with, so the stored
//! numbers describe what OpenCode actually gets. Throughputs are in
//! millionths.
use crate::calibrate::{push_tag, tag};
use crate::diagnose::{cause_of, classify, hint_of, short_hint, Cause};
use crate::json::{json_views, member, micro_in, micro_of_json, u64_in, u64_of_json, Json, JsonView};
use crate::library::{embeds, is_embedding, ModelFile};
use crate::measurements::{says_nothing, Measurement, Measurements};
use crate::num::{dec, dec_text, fixed1_int, fixed1_int_text, UNIT};
use crate::path::{at_path, with_file_name, with_file_name_of, PathMap};
use crate::preset::TextSet;
use crate::router::{RouterState, DEFAULT_KV_TYPE};
use crate::settings::{pairs, ModelOverrides};
use crate::text::{
    chars_of, copy_text, debug_text, join, join_texts, lemma_texts_push, lines, lines_of, lowercase,
    opt_text, quote, same_text, text_of, texts, trim, trimmed, views,
};
use crate::textmap::{has_key, lookup, put, TextMap};
use vstd::prelude::*;
use vstd::string::*;

verus! {

/// One baseline: average tokens/sec for the standard pp512 and tg128 tests,
/// plus the llama.cpp build that produced them (the staleness signal — a
/// rebuild can shift throughput without touching any model file).
#[derive(Debug, Clone, Copy, PartialEq)]
pub struct Baseline {
    /// Prompt processing at depth 0.
    pub pp_tps: Option<i64>,
    /// Generation from an EMPTY cache. Kept because every stored
    /// baseline and the rebuild scorecard are denominated in it — but
    /// it is NOT what a user gets mid-conversation; see `tg_deep_tps`.
    pub tg_tps: Option<i64>,
    /// Generation with `tg_depth` tokens already in the cache: the
    /// number that describes real agent work.
    pub tg_deep_tps: Option<i64>,
    pub tg_depth: Option<u64>,
    pub build: Option<u64>,
}

/// The rung of the ladder that a context stands on.
pub open spec fn rung(settled_ctx: Option<u64>) -> u64 {
    match settled_ctx {
        Some(c) => if c >= 65_536 {
            32_768
        } else if c >= 32_768 {
            16_384
        } else if c >= 16_384 {
            8_192
        } else if c >= 8_192 {
            4_096
        } else {
            0
        },
        None => 0,
    }
}

/// KV depth to bench generation at, from the model's settled context.
///
/// A FIXED ladder, not a fraction of the settled context: settled
/// context itself moves between calibrations, and a moving depth would
/// silently compare two different tests in the rebuild scorecard. Returns 0
/// when there is no room for the probe (512 prompt + 128 generation) on top
/// of the depth.
pub fn depth_rung(settled_ctx: Option<u64>) -> (r: u64)
    ensures
        r == rung(settled_ctx),
{
    match settled_ctx {
        Some(c) => if c >= 65_536 {
            32_768
        } else if c >= 32_768 {
            16_384
        } else if c >= 16_384 {
            8_192
        } else if c >= 8_192 {
            4_096
        } else {
            0
        },
        None => 0,
    }
}

/// Every rung leaves room for the probe inside the context.
pub proof fn every_rung_fits_its_probe(ctx: u64)
    requires
        rung(Some(ctx)) > 0,
    ensures
        rung(Some(ctx)) + 512 + 128 < ctx,
{
}

/// llama-bench sits next to llama-server in every install layout we know.
pub fn bench_bin(server_bin: &str) -> (r: String)
    ensures
        r@ == with_file_name(server_bin@, "llama-bench"@),
{
    with_file_name_of(server_bin, "llama-bench")
}

// ------------------------------------------------------------------------- output

/// A number of a test, or zero where it has none.
pub open spec fn count_in(t: JsonView, key: Seq<char>) -> u64 {
    match u64_of_json(member(t, key)) {
        Some(n) => n,
        None => 0,
    }
}

/// A baseline with one more test in it: the pp test has a prompt and no
/// generation, the tg test the reverse. Deepest reported generation wins, so
/// a multi-rung sweep still yields one honest headline; pp-at-depth and mixed
/// tests aren't part of the baseline.
pub open spec fn with_test(b: Baseline, t: JsonView) -> Baseline {
    let n_prompt = count_in(t, "n_prompt"@);
    let n_gen = count_in(t, "n_gen"@);
    let depth = count_in(t, "n_depth"@);
    let avg = micro_of_json(member(t, "avg_ts"@));
    let b = if b.build is None {
        Baseline { build: u64_of_json(member(t, "build_number"@)), ..b }
    } else {
        b
    };
    if n_prompt > 0 && n_gen == 0 && depth == 0 {
        Baseline { pp_tps: avg, ..b }
    } else if n_prompt == 0 && n_gen > 0 && depth == 0 {
        Baseline { tg_tps: avg, ..b }
    } else if n_prompt == 0 && n_gen > 0 && match b.tg_depth {
        Some(prev) => depth >= prev,
        None => true,
    } {
        Baseline { tg_deep_tps: avg, tg_depth: Some(depth), ..b }
    } else {
        b
    }
}

pub open spec fn no_baseline() -> Baseline {
    Baseline { pp_tps: None, tg_tps: None, tg_deep_tps: None, tg_depth: None, build: None }
}

pub open spec fn baseline_of(tests: Seq<JsonView>) -> Baseline
    decreases tests.len(),
{
    if tests.len() == 0 {
        no_baseline()
    } else {
        with_test(baseline_of(tests.drop_last()), tests.last())
    }
}

/// What a `llama-bench -o json` output says.
pub open spec fn baseline_in(body: JsonView) -> Baseline {
    match body {
        JsonView::Array(tests) => baseline_of(tests),
        _ => no_baseline(),
    }
}

fn read_count(t: &Json, key: &str) -> (r: u64)
    ensures
        r == count_in(t@, key@),
{
    match u64_in(t.get(key)) {
        Some(n) => n,
        None => 0,
    }
}

fn add_test(b: &mut Baseline, t: &Json)
    ensures
        *final(b) == with_test(*old(b), t@),
{
    let n_prompt = read_count(t, "n_prompt");
    let n_gen = read_count(t, "n_gen");
    let depth = read_count(t, "n_depth");
    if b.build.is_none() {
        b.build = u64_in(t.get("build_number"));
    }
    let avg = micro_in(t.get("avg_ts"));
    let deepest = match b.tg_depth {
        Some(prev) => depth >= prev,
        None => true,
    };
    if n_prompt > 0 && n_gen == 0 && depth == 0 {
        b.pp_tps = avg;
    } else if n_prompt == 0 && n_gen > 0 && depth == 0 {
        b.tg_tps = avg;
    } else if n_prompt == 0 && n_gen > 0 && deepest {
        b.tg_deep_tps = avg;
        b.tg_depth = Some(depth);
    }
}

/// Parse `llama-bench -o json` output: an array of test objects.
pub fn parse_output(body: &Json) -> (r: Baseline)
    ensures
        r == baseline_in(body@),
{
    broadcast use crate::json::lemma_json_view;

    let mut out = Baseline {
        pp_tps: None,
        tg_tps: None,
        tg_deep_tps: None,
        tg_depth: None,
        build: None,
    };
    if let Some(tests) = body.as_array() {
        let ghost all = json_views(tests@);
        let mut i: usize = 0;
        assert(all.take(0) =~= Seq::empty());
        while i < tests.len()
            invariant
                i <= tests.len(),
                all == json_views(tests@),
                out == baseline_of(all.take(i as int)),
            decreases tests.len() - i,
        {
            assert(all.take(i + 1).drop_last() =~= all.take(i as int));
            assert(all.take(i + 1).last() == tests@[i as int]@);
            add_test(&mut out, &tests[i]);
            i += 1;
        }
        assert(all.take(i as int) =~= all);
    }
    out
}

/// The result of a run whose output is JSON: one without a pp or tg number is
/// none.
pub fn checked(body: &Json) -> (r: Result<Baseline, String>)
    ensures
        match r {
            Ok(b) => b == baseline_in(body@) && (b.pp_tps is Some || b.tg_tps is Some),
            Err(e) => baseline_in(body@).pp_tps is None && baseline_in(body@).tg_tps is None && e@
                == "llama-bench ran but produced no pp/tg results"@,
        },
{
    let b = parse_output(body);
    if b.pp_tps.is_some() || b.tg_tps.is_some() {
        Ok(b)
    } else {
        Err(copy_text("llama-bench ran but produced no pp/tg results"))
    }
}

/// The lines that hold something.
pub open spec fn filled(l: Seq<Seq<char>>) -> Seq<Seq<char>>
    decreases l.len(),
{
    if l.len() == 0 {
        Seq::empty()
    } else if trim(l.last()).len() > 0 {
        filled(l.drop_last()).push(l.last())
    } else {
        filled(l.drop_last())
    }
}

/// The last three of them.
pub open spec fn last_three(v: Seq<Seq<char>>) -> Seq<Seq<char>> {
    if v.len() > 3 {
        v.skip(v.len() - 3)
    } else {
        v
    }
}

/// Why a run failed, by the end of what it said.
pub fn failure_text(model: &str, stderr: &str) -> (r: String)
    ensures
        r@ == "llama-bench failed for "@ + model@ + ": "@ + join(
            last_three(filled(lines(stderr@))),
            " | "@,
        ),
{
    let c = chars_of(stderr);
    let l = lines_of(&c);
    let ghost all = lines(stderr@);
    let mut v: Vec<String> = Vec::new();
    let mut i: usize = 0;
    assert(all.take(0) =~= Seq::empty());
    assert(texts(v@) =~= Seq::empty());
    while i < l.len()
        invariant
            i <= l.len(),
            views(l@) == all,
            texts(v@) == filled(all.take(i as int)),
        decreases l.len() - i,
    {
        assert(all.take(i + 1).drop_last() =~= all.take(i as int));
        assert(all.take(i + 1).last() == l@[i as int]@);
        if trimmed(l[i]).len() > 0 {
            let ghost sofar = v@;
            let t = text_of(l[i]);
            v.push(t);
            proof {
                lemma_texts_push(sofar, t);
            }
        }
        i += 1;
    }
    assert(all.take(i as int) =~= all);
    let start = if v.len() > 3 {
        v.len() - 3
    } else {
        0
    };
    let tail = vstd::slice::slice_subrange(v.as_slice(), start, v.len());
    assert(texts(tail@) =~= last_three(filled(all)));
    let mut s = copy_text("llama-bench failed for ");
    s.append(model);
    s.append(": ");
    s.append(join_texts(tail, " | ").as_str());
    s
}

// ---------------------------------------------------------------------- arguments

/// The value of the first pair with the key.
pub open spec fn pair_value(v: Seq<(Seq<char>, Seq<char>)>, key: Seq<char>, from: int) -> Option<
    Seq<char>,
>
    decreases v.len() - from,
{
    if from < 0 || from >= v.len() {
        None
    } else if v[from].0 == key {
        Some(v[from].1)
    } else {
        pair_value(v, key, from + 1)
    }
}

fn find_pair(v: &[(String, String)], key: &str) -> (r: Option<String>)
    ensures
        opt_text(r) == pair_value(pairs(v@), key@, 0),
{
    let mut i: usize = 0;
    while i < v.len()
        invariant
            i <= v.len(),
            pair_value(pairs(v@), key@, 0) == pair_value(pairs(v@), key@, i as int),
        decreases v.len() - i,
    {
        assert(pairs(v@)[i as int] == (v@[i as int].0@, v@[i as int].1@));
        if same_text(v[i].0.as_str(), key) {
            return Some(v[i].1.clone());
        }
        i += 1;
    }
    None
}

/// The KV cache type that a model is served with.
pub open spec fn kv_type(ov: Option<ModelOverrides>) -> Seq<char> {
    match ov {
        Some(o) => match o.cache_type_kv {
            Some(t) => t@,
            None => DEFAULT_KV_TYPE@,
        },
        None => DEFAULT_KV_TYPE@,
    }
}

/// The layers whose experts stay on the CPU, where the model has an applied
/// placement. An over-VRAM MoE can't load raw — llama-bench has no `--fit` —
/// but it DOES take a placement, so the bench mirrors the model's.
pub open spec fn cpu_layers(ov: Option<ModelOverrides>) -> Option<Seq<char>> {
    match ov {
        Some(o) => match pair_value(o@.extra, "n-cpu-moe"@, 0) {
            Some(n) => Some(n),
            None => match pair_value(o@.extra, "cpu-moe"@, 0) {
                Some(_) => Some("999"@),
                None => None,
            },
        },
        None => None,
    }
}

/// The arguments that mirror a model's serving config.
pub open spec fn serving_args(ov: Option<ModelOverrides>) -> Seq<Seq<char>> {
    seq!["-ctk"@, kv_type(ov), "-ctv"@, kv_type(ov)] + match cpu_layers(ov) {
        Some(n) => seq!["-ncmoe"@, n],
        None => Seq::empty(),
    }
}

pub open spec fn opt_overrides(ov: Option<&ModelOverrides>) -> Option<ModelOverrides> {
    match ov {
        Some(o) => Some(*o),
        None => None,
    }
}

pub fn extra_args(ov: Option<&ModelOverrides>) -> (r: Vec<String>)
    ensures
        texts(r@) == serving_args(opt_overrides(ov)),
{
    let kv = match ov {
        Some(o) => match &o.cache_type_kv {
            Some(t) => t.clone(),
            None => copy_text(DEFAULT_KV_TYPE),
        },
        None => copy_text(DEFAULT_KV_TYPE),
    };
    let mut out: Vec<String> = vec![copy_text("-ctk"), kv.clone(), copy_text("-ctv"), kv];
    let layers = match ov {
        Some(o) => match find_pair(&o.extra, "n-cpu-moe") {
            Some(n) => Some(n),
            None => match find_pair(&o.extra, "cpu-moe") {
                Some(_) => Some(copy_text("999")),
                None => None,
            },
        },
        None => None,
    };
    if let Some(n) = layers {
        out.push(copy_text("-ncmoe"));
        out.push(n);
    }
    assert(texts(out@) =~= serving_args(opt_overrides(ov)));
    out
}

/// Which depths a run measures: the empty cache (historical baseline, and
/// what the rebuild scorecard compares) and a realistic occupancy, in one
/// model load.
pub open spec fn depths_text(depth: u64) -> Seq<char> {
    if depth > 0 {
        "0,"@ + dec(depth as nat)
    } else {
        "0"@
    }
}

/// The arguments of the standard baseline (pp512 + tg128, 3 repetitions).
pub open spec fn command_of(model: Seq<char>, extra: Seq<Seq<char>>, depth: u64) -> Seq<Seq<char>> {
    seq![
        "-o"@,
        "json"@,
        "-r"@,
        "3"@,
        "-p"@,
        "512"@,
        "-n"@,
        "128"@,
        "-d"@,
        depths_text(depth),
        "-m"@,
        model,
    ] + extra
}

pub fn bench_command(model: &str, extra: &[String], depth: u64) -> (r: Vec<String>)
    ensures
        texts(r@) == command_of(model@, texts(extra@), depth),
{
    let depths = if depth > 0 {
        let mut s = copy_text("0,");
        s.append(dec_text(depth).as_str());
        s
    } else {
        copy_text("0")
    };
    let mut out: Vec<String> = vec![
        copy_text("-o"),
        copy_text("json"),
        copy_text("-r"),
        copy_text("3"),
        copy_text("-p"),
        copy_text("512"),
        copy_text("-n"),
        copy_text("128"),
        copy_text("-d"),
        depths,
        copy_text("-m"),
        copy_text(model),
    ];
    let ghost head = texts(out@);
    let mut i: usize = 0;
    assert(texts(out@) =~= head + texts(extra@).take(0));
    while i < extra.len()
        invariant
            i <= extra.len(),
            texts(out@) == head + texts(extra@).take(i as int),
        decreases extra.len() - i,
    {
        let ghost sofar = out@;
        out.push(extra[i].clone());
        proof {
            lemma_texts_push(sofar, extra[i as int]);
        }
        i += 1;
        assert(texts(out@) =~= head + texts(extra@).take(i as int));
    }
    assert(texts(extra@).take(i as int) =~= texts(extra@));
    assert(texts(out@) =~= command_of(model@, texts(extra@), depth));
    out
}

// ------------------------------------------------------------------------ targets

/// The files by the ids that the router serves them under: of two files with
/// one id the later.
pub open spec fn files_of(models: Seq<ModelFile>, ids: Seq<(Seq<char>, Seq<char>)>, n: int) -> Seq<
    (Seq<char>, usize),
>
    decreases n,
{
    if n <= 0 || n > models.len() {
        Seq::empty()
    } else {
        let before = files_of(models, ids, n - 1);
        match at_path(ids, models[n - 1].path@) {
            Some(id) => put(before, id, (n - 1) as usize),
            None => before,
        }
    }
}

/// The id -> file mapping.
pub fn files_by_id(models: &[ModelFile], ids: &PathMap) -> (r: TextMap<usize>)
    ensures
        r@ == files_of(models@, ids@, models@.len() as int),
{
    let mut out: TextMap<usize> = TextMap::new();
    let mut i: usize = 0;
    while i < models.len()
        invariant
            i <= models.len(),
            out@ == files_of(models@, ids@, i as int),
        decreases models.len() - i,
    {
        if let Some(id) = ids.get(models[i].path.as_str()) {
            out.insert(id.clone(), i);
        }
        i += 1;
    }
    out
}

/// The model is measured, chats, and has no baseline from this build — or
/// everything is to be benched.
pub open spec fn wants_bench(
    m: Option<Measurement>,
    file: ModelFile,
    force: bool,
    current_build: Option<u64>,
) -> bool {
    &&& m is Some
    &&& m->0.n_ctx is Some
    &&& !embeds(file.meta)
    &&& (force || !(m->0.pp_tps is Some && m->0.tg_tps is Some && m->0.bench_build
        == current_build))
}

fn same_build(a: Option<u64>, b: Option<u64>) -> (r: bool)
    ensures
        r == (a == b),
{
    match (a, b) {
        (Some(x), Some(y)) => x == y,
        (None, None) => true,
        _ => false,
    }
}

/// What a sweep is about.
pub struct Fleet<'a> {
    pub models: &'a [ModelFile],
    pub by_id: &'a TextMap<usize>,
    pub measurements: &'a Measurements,
    /// Disabled models are never benched — the same rule as for measuring.
    pub off: &'a TextSet,
}

impl<'a> Fleet<'a> {
    /// Every id is that of a file.
    pub open spec fn valid(self) -> bool {
        forall|k: int|
            0 <= k < self.by_id@.len() ==> (#[trigger] self.by_id@[k]).1 < self.models@.len()
    }
}

/// The ids of the fleet's first `n` files that a sweep benches.
pub open spec fn swept(f: Fleet<'_>, force: bool, current_build: Option<u64>, n: int) -> Seq<
    Seq<char>,
>
    decreases n,
{
    if n <= 0 || n > f.by_id@.len() {
        Seq::empty()
    } else {
        let before = swept(f, force, current_build, n - 1);
        let e = f.by_id@[n - 1];
        if !has_key(f.off@, e.0) && wants_bench(
            lookup(f.measurements@, e.0),
            f.models@[e.1 as int],
            force,
            current_build,
        ) {
            before.push(e.0)
        } else {
            before
        }
    }
}

/// What a sweep benches: `target` if given, else every measured,
/// non-embedding model whose baseline is missing or from another build.
pub fn targets(f: &Fleet<'_>, target: Option<&str>, force: bool, current_build: Option<u64>) -> (r:
    Result<Vec<String>, String>)
    requires
        f.valid(),
    ensures
        match target {
            Some(id) => if !has_key(f.by_id@, id@) {
                r is Err && r->Err_0@ == "unknown model id "@ + debug_text(id@)
                    + " — benching needs an id that maps to a file on disk (preset alias or hub-cache id)"@
            } else if has_key(f.off@, id@) {
                r is Err && r->Err_0@ == id@
                    + " is disabled — enable it on the Library tab first"@
            } else {
                r is Ok && texts(r->Ok_0@) == seq![id@]
            },
            None => r is Ok && texts(r->Ok_0@) == swept(
                *f,
                force,
                current_build,
                f.by_id@.len() as int,
            ),
        },
{
    if let Some(id) = target {
        if !f.by_id.contains_key(id) {
            let mut s = copy_text("unknown model id ");
            s.append(quote(id).as_str());
            s.append(
                " — benching needs an id that maps to a file on disk (preset alias or hub-cache id)",
            );
            return Err(s);
        }
        if f.off.contains_key(id) {
            let mut s = copy_text(id);
            s.append(" is disabled — enable it on the Library tab first");
            return Err(s);
        }
        let v: Vec<String> = vec![copy_text(id)];
        assert(texts(v@) =~= seq![id@]);
        return Ok(v);
    }
    let mut out: Vec<String> = Vec::new();
    let mut i: usize = 0;
    assert(texts(out@) =~= Seq::empty());
    while i < f.by_id.len()
        invariant
            f.valid(),
            i <= f.by_id@.len(),
            texts(out@) == swept(*f, force, current_build, i as int),
        decreases f.by_id@.len() - i,
    {
        let id = f.by_id.key_at(i);
        let at = *f.by_id.value_at(i);
        assert(f.by_id@[i as int].1 == at);
        let wanted = match f.measurements.get(id.as_str()) {
            Some(m) => {
                let fresh = m.pp_tps.is_some() && m.tg_tps.is_some() && same_build(
                    m.bench_build,
                    current_build,
                );
                m.n_ctx.is_some() && !is_embedding(&f.models[at].meta) && (force || !fresh)
            },
            None => false,
        };
        if !f.off.contains_key(id.as_str()) && wanted {
            let ghost sofar = out@;
            out.push(id.clone());
            proof {
                lemma_texts_push(sofar, *id);
            }
        }
        i += 1;
    }
    Ok(out)
}

// --------------------------------------------------------------- freeing the GPU

/// What the router holds memory for, or keeps ready.
pub open spec fn holds_gpu(status: Seq<char>) -> bool {
    status == "loaded"@ || status == "loading"@ || status == "sleeping"@
}

pub open spec fn resident_ids(models: Seq<crate::router::RouterModel>) -> Seq<Seq<char>>
    decreases models.len(),
{
    if models.len() == 0 {
        Seq::empty()
    } else {
        let before = resident_ids(models.drop_last());
        if holds_gpu(models.last().status@) {
            before.push(models.last().id@)
        } else {
            before
        }
    }
}

/// The models to unload before a sweep: our router's resident ones. A server
/// we didn't start is never touched.
pub fn to_unload(state: &RouterState, port: u16) -> (r: Result<Vec<String>, String>)
    ensures
        match *state {
            RouterState::Down => r is Ok && r->Ok_0@.len() == 0,
            RouterState::Ours { models } => r is Ok && texts(r->Ok_0@) == resident_ids(models@),
            _ => r is Err && r->Err_0@ == "port "@ + dec(port as nat)
                + " is running a server this app doesn't own ("@ + state.text()
                + "); benching needs the GPU free, and that server is not ours to unload"@,
        },
{
    match state {
        RouterState::Down => Ok(Vec::new()),
        RouterState::Ours { models } => {
            let ghost all = models@;
            let mut out: Vec<String> = Vec::new();
            let mut i: usize = 0;
            assert(all.take(0) =~= Seq::empty());
            assert(texts(out@) =~= Seq::empty());
            while i < models.len()
                invariant
                    i <= models.len(),
                    all == models@,
                    texts(out@) == resident_ids(all.take(i as int)),
                decreases models.len() - i,
            {
                assert(all.take(i + 1).drop_last() =~= all.take(i as int));
                assert(all.take(i + 1).last() == all[i as int]);
                let s = models[i].status.as_str();
                if same_text(s, "loaded") || same_text(s, "loading") || same_text(s, "sleeping") {
                    let ghost sofar = out@;
                    out.push(models[i].id.clone());
                    proof {
                        lemma_texts_push(sofar, models[i as int].id);
                    }
                }
                i += 1;
            }
            assert(all.take(i as int) =~= all);
            Ok(out)
        },
        _ => {
            let mut s = copy_text("port ");
            s.append(dec_text(port as u64).as_str());
            s.append(" is running a server this app doesn't own (");
            s.append(state.to_text().as_str());
            s.append("); benching needs the GPU free, and that server is not ours to unload");
            Err(s)
        },
    }
}

/// Why a sweep is refused while such a tenant holds the GPU.
pub open spec fn tenant_text(t: Seq<char>) -> Seq<char> {
    t + " is holding the GPU — a baseline measured against that would record the contention, not the model. Free the card (e.g. `ollama stop <model>`, or wait for its keep-alive to expire) and bench again."@
}

/// A contended baseline is not a slower number, it is a WRONG one: a sweep is
/// refused while another tenant holds the GPU.
pub fn refuse_tenant(tenant: Option<&str>) -> (r: Result<(), String>)
    ensures
        match tenant {
            None => r is Ok,
            Some(t) => r is Err && r->Err_0@ == tenant_text(t@),
        },
{
    match tenant {
        None => Ok(()),
        Some(t) => {
            let mut s = copy_text(t);
            s.append(
                " is holding the GPU — a baseline measured against that would record the contention, not the model. Free the card (e.g. `ollama stop <model>`, or wait for its keep-alive to expire) and bench again.",
            );
            Err(s)
        },
    }
}

// ---------------------------------------------------------------------- the sweep

/// A sweep: what is benched, how far it is, what came of it, and the store.
#[derive(Debug)]
pub struct Sweep {
    pub targets: Vec<String>,
    pub at: usize,
    pub benched: usize,
    pub failed: usize,
    pub free_vram_mib: Option<u64>,
    pub store: Measurements,
}

pub const DEEP_NOTE: &'static str = " tokens already in cache — the speed you actually get mid-conversation, at the cost of that extra prefill";

/// What is said when a bench starts.
pub open spec fn start_text(n: int, total: nat, id: Seq<char>, depth: u64) -> Seq<char> {
    tag(n, total) + "benching "@ + id + " (pp512 + tg128 ×3"@ + (if depth > 0 {
        ", plus generation with "@ + dec(depth as nat) + DEEP_NOTE@
    } else {
        " — a 27B takes about a minute"@
    }) + ")…"@
}

/// A throughput with one decimal, or a question mark.
pub open spec fn tps_text(v: Option<i64>) -> Seq<char> {
    match v {
        Some(t) => fixed1_int(t as int, UNIT as nat),
        None => "?"@,
    }
}

/// What is said of a baseline.
pub open spec fn done_text(n: int, total: nat, id: Seq<char>, b: Baseline) -> Seq<char> {
    tag(n, total) + id + ": pp "@ + tps_text(b.pp_tps) + " t/s, tg "@ + tps_text(b.tg_tps)
        + " t/s (empty cache)"@ + match (b.tg_deep_tps, b.tg_depth) {
        (Some(t), Some(d)) => ", tg "@ + fixed1_int(t as int, UNIT as nat) + " t/s at "@ + dec(
            d as nat,
        ) + " depth"@,
        _ => ""@,
    }
}

/// What is said of a failure: a recognized cause gets its plain-language hint
/// right in the narration.
pub open spec fn failed_text(n: int, total: nat, id: Seq<char>, e: Seq<char>, cause: Cause) -> Seq<
    char,
> {
    tag(n, total) + id + ": bench failed: "@ + e + if cause is Unknown {
        ""@
    } else {
        " — "@ + hint_of(cause)
    }
}

/// A measurement with a baseline in it.
pub open spec fn with_baseline(m: Measurement, b: Baseline, free_vram_mib: Option<u64>) -> Measurement {
    Measurement {
        pp_tps: b.pp_tps,
        tg_tps: b.tg_tps,
        tg_deep_tps: b.tg_deep_tps,
        tg_depth: b.tg_depth,
        bench_build: b.build,
        free_vram_mib,
        ..m
    }
}

fn say_tps(v: Option<i64>) -> (r: String)
    ensures
        r@ == tps_text(v),
{
    match v {
        Some(t) => fixed1_int_text(t as i128, UNIT as u128),
        None => copy_text("?"),
    }
}

impl Sweep {
    /// The sweep stands at a model.
    pub open spec fn running(self) -> bool {
        self.at < self.targets@.len()
    }

    pub open spec fn id(self) -> Seq<char> {
        self.targets@[self.at as int]@
    }

    /// The depth that the model at hand is benched at.
    pub open spec fn depth(self) -> u64 {
        rung(
            match lookup(self.store@, self.id()) {
                Some(m) => m.n_ctx,
                None => None,
            },
        )
    }

    /// The sweep behind the model at hand, with its result taken in, and what
    /// is said of it.
    pub open spec fn finished(
        self,
        result: Result<Baseline, String>,
        then_sweep: Sweep,
        said: Seq<char>,
    ) -> bool {
        let total = self.targets@.len();
        &&& then_sweep.at == self.at + 1
        &&& then_sweep.targets == self.targets
        &&& then_sweep.free_vram_mib == self.free_vram_mib
        &&& match result {
            Ok(b) => {
                &&& said == done_text(self.at + 1, total, self.id(), b)
                &&& then_sweep.benched == self.benched + 1
                &&& then_sweep.failed == self.failed
                &&& match lookup(self.store@, self.id()) {
                    Some(m) => then_sweep.store@ == put(
                        self.store@,
                        self.id(),
                        with_baseline(m, b, self.free_vram_mib),
                    ),
                    None => exists|m: Measurement|
                        says_nothing(m) && then_sweep.store@ == put(
                            self.store@,
                            self.id(),
                            #[trigger] with_baseline(m, b, self.free_vram_mib),
                        ),
                }
            },
            Err(e) => {
                &&& said == failed_text(
                    self.at + 1,
                    total,
                    self.id(),
                    e@,
                    cause_of(lowercase(e@)),
                )
                &&& then_sweep.benched == self.benched
                &&& then_sweep.failed == self.failed + 1
                &&& then_sweep.store@ == self.store@
            },
        }
    }

    /// The sweep's counts are those of the models behind it.
    pub open spec fn counted(self) -> bool {
        self.benched + self.failed == self.at && self.at <= self.targets@.len()
    }

    /// Starts a sweep.
    pub fn begin(targets: Vec<String>, free_vram_mib: Option<u64>, store: Measurements) -> (r: Sweep)
        ensures
            r.targets == targets,
            r.at == 0,
            r.benched == 0,
            r.failed == 0,
            r.free_vram_mib == free_vram_mib,
            r.store == store,
            r.counted(),
    {
        Sweep { targets, at: 0, benched: 0, failed: 0, free_vram_mib, store }
    }

    /// The depth that the model at hand is benched at, and what is said of it.
    pub fn start(&self) -> (r: (u64, String))
        requires
            self.running(),
        ensures
            r.0 == self.depth(),
            r.1@ == start_text(self.at + 1, self.targets@.len(), self.id(), r.0),
    {
        let id = self.targets[self.at].as_str();
        let ctx = match self.store.get(id) {
            Some(m) => m.n_ctx,
            None => None,
        };
        let depth = depth_rung(ctx);
        let total = self.targets.len();
        let mut s = push_tag(self.at + 1, total);
        s.append("benching ");
        s.append(id);
        s.append(" (pp512 + tg128 ×3");
        if depth > 0 {
            let mut deep = copy_text(", plus generation with ");
            deep.append(dec_text(depth).as_str());
            deep.append(DEEP_NOTE);
            s.append(deep.as_str());
        } else {
            s.append(" — a 27B takes about a minute");
        }
        s.append(")…");
        (depth, s)
    }

    /// Takes a result in, says so, and goes on. A per-model failure is narrated
    /// and skipped, not fatal.
    pub fn finish(&mut self, result: Result<Baseline, String>) -> (r: String)
        requires
            old(self).running(),
            old(self).counted(),
        ensures
            final(self).counted(),
            old(self).finished(result, *final(self), r@),
    {
        let id = self.targets[self.at].clone();
        let total = self.targets.len();
        let mut s = push_tag(self.at + 1, total);
        s.append(id.as_str());
        match result {
            Ok(b) => {
                s.append(": pp ");
                s.append(say_tps(b.pp_tps).as_str());
                s.append(" t/s, tg ");
                s.append(say_tps(b.tg_tps).as_str());
                s.append(" t/s (empty cache)");
                match (b.tg_deep_tps, b.tg_depth) {
                    (Some(t), Some(d)) => {
                        let mut deep = copy_text(", tg ");
                        deep.append(fixed1_int_text(t as i128, UNIT as u128).as_str());
                        deep.append(" t/s at ");
                        deep.append(dec_text(d).as_str());
                        deep.append(" depth");
                        s.append(deep.as_str());
                    },
                    _ => {
                        s.append("");
                    },
                }
                let mut m = match self.store.get(id.as_str()) {
                    Some(m) => m.copy(),
                    None => Measurement::default(),
                };
                let ghost before = m;
                m.pp_tps = b.pp_tps;
                m.tg_tps = b.tg_tps;
                m.tg_deep_tps = b.tg_deep_tps;
                m.tg_depth = b.tg_depth;
                m.bench_build = b.build;
                m.free_vram_mib = self.free_vram_mib;
                assert(m == with_baseline(before, b, self.free_vram_mib));
                self.store.insert(id, m);
                self.benched = self.benched + 1;
            },
            Err(e) => {
                s.append(": bench failed: ");
                s.append(e.as_str());
                match classify(e.as_str()) {
                    Cause::Unknown => {
                        s.append("");
                    },
                    _ => {
                        let mut hint = copy_text(" — ");
                        hint.append(short_hint(e.as_str()).as_str());
                        s.append(hint.as_str());
                    },
                }
                self.failed = self.failed + 1;
            },
        }
        self.at = self.at + 1;
        s
    }
}

/// What is said where nothing is to be benched.
pub const NOTHING_TO_BENCH: &'static str = "nothing to bench — every measured model already has a baseline from this build";

// ------------------------------------------------------------------------- laws

/// A sweep never touches a disabled model, nor one without a measured context.
pub proof fn only_enabled_measured_models_are_swept(
    f: Fleet<'_>,
    force: bool,
    current_build: Option<u64>,
    n: int,
    k: int,
)
    requires
        0 <= n <= f.by_id@.len(),
        0 <= k < swept(f, force, current_build, n).len(),
    ensures
        ({
            let id = swept(f, force, current_build, n)[k];
            &&& !has_key(f.off@, id)
            &&& lookup(f.measurements@, id) is Some
            &&& lookup(f.measurements@, id)->0.n_ctx is Some
        }),
    decreases n,
{
    if k < swept(f, force, current_build, n - 1).len() {
        only_enabled_measured_models_are_swept(f, force, current_build, n - 1, k);
    }
}

/// The depth that generation is measured at is at most half of the context and, up to
/// 32768, more than a quarter of it; a context below 8192 has none, and a larger context no
/// smaller one.
pub proof fn a_rung_is_near_half_the_context(a: u64, b: u64)
    requires
        a <= b,
    ensures
        rung(None) == 0,
        rung(Some(a)) == 0 <==> a < 8192,
        2 * rung(Some(a)) <= a,
        8192 <= a < 131_072 ==> a < 4 * rung(Some(a)),
        a >= 65_536 ==> rung(Some(a)) == 32_768,
        rung(Some(a)) <= rung(Some(b)),
{
}

/// The test measures how fast a prompt is read.
pub open spec fn reads_prompt(t: JsonView) -> bool {
    count_in(t, "n_prompt"@) > 0 && count_in(t, "n_gen"@) == 0 && count_in(t, "n_depth"@) == 0
}

/// The test measures how fast text is generated, with so many tokens in the cache.
pub open spec fn generates_at(t: JsonView, depth: u64) -> bool {
    count_in(t, "n_prompt"@) == 0 && count_in(t, "n_gen"@) > 0 && count_in(t, "n_depth"@) == depth
}

/// A baseline's prompt speed is that of the last test that reads a prompt.
pub proof fn the_prompt_speed_is_that_of_the_prompt_test(tests: Seq<JsonView>, i: int)
    requires
        0 <= i < tests.len(),
        reads_prompt(tests[i]),
        forall|k: int| i < k < tests.len() ==> !reads_prompt(#[trigger] tests[k]),
    ensures
        baseline_in(JsonView::Array(tests)).pp_tps == micro_of_json(member(tests[i], "avg_ts"@)),
    decreases tests.len(),
{
    if i < tests.len() - 1 {
        let s = tests.drop_last();
        assert forall|k: int| i < k < s.len() implies !reads_prompt(#[trigger] s[k]) by {
            assert(s[k] == tests[k]);
        }
        the_prompt_speed_is_that_of_the_prompt_test(s, i);
        assert(!reads_prompt(tests[tests.len() - 1]));
    }
}

/// A baseline's generation speed is that of the last test that generates from an empty cache.
pub proof fn the_generation_speed_is_from_an_empty_cache(tests: Seq<JsonView>, i: int)
    requires
        0 <= i < tests.len(),
        generates_at(tests[i], 0),
        forall|k: int| i < k < tests.len() ==> !generates_at(#[trigger] tests[k], 0),
    ensures
        baseline_in(JsonView::Array(tests)).tg_tps == micro_of_json(member(tests[i], "avg_ts"@)),
    decreases tests.len(),
{
    if i < tests.len() - 1 {
        let s = tests.drop_last();
        assert forall|k: int| i < k < s.len() implies !generates_at(#[trigger] s[k], 0) by {
            assert(s[k] == tests[k]);
        }
        the_generation_speed_is_from_an_empty_cache(s, i);
        assert(!generates_at(tests[tests.len() - 1], 0));
    }
}

/// A baseline's deep speed is that of a test with the fullest cache; without such a test
/// there is none.
pub proof fn the_deep_speed_is_from_the_fullest_cache(tests: Seq<JsonView>)
    ensures
        ({
            let b = baseline_in(JsonView::Array(tests));
            match b.tg_depth {
                Some(d) => {
                    &&& d > 0
                    &&& exists|i: int|
                        0 <= i < tests.len() && generates_at(#[trigger] tests[i], d)
                            && b.tg_deep_tps == micro_of_json(member(tests[i], "avg_ts"@))
                    &&& forall|k: int, e: u64|
                        0 <= k < tests.len() && #[trigger] generates_at(tests[k], e) ==> e <= d
                },
                None => b.tg_deep_tps is None && forall|k: int, e: u64|
                    0 <= k < tests.len() && #[trigger] generates_at(tests[k], e) ==> e == 0,
            }
        }),
    decreases tests.len(),
{
    if tests.len() > 0 {
        let s = tests.drop_last();
        the_deep_speed_is_from_the_fullest_cache(s);
        let b = baseline_of(s);
        let t = tests.last();
        let n = tests.len() - 1;
        let after = baseline_of(tests);
        let depth = count_in(t, "n_depth"@);
        if b.tg_depth is Some {
            let d = b.tg_depth->0;
            let i = choose|i: int|
                0 <= i < s.len() && generates_at(#[trigger] s[i], d) && b.tg_deep_tps
                    == micro_of_json(member(s[i], "avg_ts"@));
            assert(generates_at(tests[i], d));
        }
        assert(tests[n] == t);
        assert(generates_at(tests[n], depth) || !generates_at(tests[n], depth));
        assert forall|k: int, e: u64|
            0 <= k < tests.len() && #[trigger] generates_at(tests[k], e) implies match after.tg_depth {
            Some(d) => e <= d,
            None => e == 0,
        } by {
            if k < n {
                assert(generates_at(s[k], e));
            }
        }
    }
}

/// A baseline is of the first build that a test names.
pub proof fn a_baseline_is_of_the_first_build(tests: Seq<JsonView>, i: int)
    requires
        0 <= i < tests.len(),
        u64_of_json(member(tests[i], "build_number"@)) is Some,
        forall|k: int|
            0 <= k < i ==> u64_of_json(member(#[trigger] tests[k], "build_number"@)) is None,
    ensures
        baseline_in(JsonView::Array(tests)).build == u64_of_json(
            member(tests[i], "build_number"@),
        ),
    decreases tests.len(),
{
    let s = tests.drop_last();
    if i < tests.len() - 1 {
        assert forall|k: int| 0 <= k < i implies u64_of_json(
            member(#[trigger] s[k], "build_number"@),
        ) is None by {
            assert(s[k] == tests[k]);
        }
        a_baseline_is_of_the_first_build(s, i);
    } else {
        lemma_no_build(s);
    }
}

proof fn lemma_no_build(tests: Seq<JsonView>)
    requires
        forall|k: int|
            0 <= k < tests.len() ==> u64_of_json(member(#[trigger] tests[k], "build_number"@)) is None,
    ensures
        baseline_of(tests).build is None,
    decreases tests.len(),
{
    if tests.len() > 0 {
        let s = tests.drop_last();
        assert forall|k: int| 0 <= k < s.len() implies u64_of_json(
            member(#[trigger] s[k], "build_number"@),
        ) is None by {
            assert(s[k] == tests[k]);
        }
        lemma_no_build(s);
        assert(tests[tests.len() - 1] == tests.last());
    }
}

/// The word that stands behind another.
pub open spec fn behind(words: Seq<Seq<char>>, flag: Seq<char>, value: Seq<char>) -> bool {
    exists|i: int| 0 <= i < words.len() - 1 && #[trigger] words[i] == flag && words[i + 1] == value
}

/// A bench is told to read 512 tokens and to generate 128, three times over, to answer in
/// JSON, and what its model is; where generation is measured deeper too, at that depth.
pub proof fn a_bench_is_told_what_to_measure(model: Seq<char>, extra: Seq<Seq<char>>, depth: u64)
    ensures
        ({
            let c = command_of(model, extra, depth);
            &&& behind(c, "-o"@, "json"@)
            &&& behind(c, "-r"@, "3"@)
            &&& behind(c, "-p"@, "512"@)
            &&& behind(c, "-n"@, "128"@)
            &&& behind(
                c,
                "-d"@,
                if depth > 0 {
                    "0,"@ + dec(depth as nat)
                } else {
                    "0"@
                },
            )
            &&& behind(c, "-m"@, model)
            &&& forall|i: int| 0 <= i < extra.len() ==> c.contains(#[trigger] extra[i])
        }),
{
    let c = command_of(model, extra, depth);
    assert(c[0] == "-o"@ && c[1] == "json"@);
    assert(c[2] == "-r"@ && c[3] == "3"@);
    assert(c[4] == "-p"@ && c[5] == "512"@);
    assert(c[6] == "-n"@ && c[7] == "128"@);
    assert(c[8] == "-d"@ && c[9] == depths_text(depth));
    assert(c[10] == "-m"@ && c[11] == model);
    assert forall|i: int| 0 <= i < extra.len() implies c.contains(#[trigger] extra[i]) by {
        assert(c[12 + i] == extra[i]);
    }
}

/// A bench runs with the cache types that the model is served with, which are q8_0 where
/// none is set.
pub proof fn a_bench_runs_as_the_model_is_served(o: ModelOverrides)
    ensures
        behind(serving_args(None), "-ctk"@, "q8_0"@),
        behind(serving_args(None), "-ctv"@, "q8_0"@),
        serving_args(None).len() == 4,
        o.cache_type_kv is None ==> behind(serving_args(Some(o)), "-ctk"@, "q8_0"@) && behind(
            serving_args(Some(o)),
            "-ctv"@,
            "q8_0"@,
        ),
        o.cache_type_kv is Some ==> behind(serving_args(Some(o)), "-ctk"@, o.cache_type_kv->0@)
            && behind(serving_args(Some(o)), "-ctv"@, o.cache_type_kv->0@),
        pair_value(o@.extra, "n-cpu-moe"@, 0) is Some ==> behind(
            serving_args(Some(o)),
            "-ncmoe"@,
            pair_value(o@.extra, "n-cpu-moe"@, 0)->0,
        ),
        pair_value(o@.extra, "n-cpu-moe"@, 0) is None && pair_value(o@.extra, "cpu-moe"@, 0) is Some
            ==> behind(serving_args(Some(o)), "-ncmoe"@, "999"@),
{
    let a = serving_args(None);
    assert(a[0] == "-ctk"@ && a[1] == "q8_0"@ && a[2] == "-ctv"@ && a[3] == "q8_0"@);
    let b = serving_args(Some(o));
    assert(b[0] == "-ctk"@ && b[1] == kv_type(Some(o)));
    assert(b[2] == "-ctv"@ && b[3] == kv_type(Some(o)));
    if cpu_layers(Some(o)) is Some {
        assert(b[4] == "-ncmoe"@ && b[5] == cpu_layers(Some(o))->0);
    }
}

/// Every enabled, measured model that generates text is swept, unless it has a whole
/// baseline from the current build and nothing is forced; and nothing else is.
pub proof fn a_sweep_takes_what_lacks_a_baseline(
    f: Fleet<'_>,
    force: bool,
    current_build: Option<u64>,
    n: int,
    k: int,
)
    requires
        0 <= k < n <= f.by_id@.len(),
        lookup(f.measurements@, f.by_id@[k].0) is Some,
    ensures
        ({
            let id = f.by_id@[k].0;
            let m = lookup(f.measurements@, id)->0;
            let swept_now = swept(f, force, current_build, n).contains(id);
            &&& !has_key(f.off@, id) && m.n_ctx is Some && !embeds(
                f.models@[f.by_id@[k].1 as int].meta,
            ) && (force || m.pp_tps is None || m.tg_tps is None || m.bench_build != current_build)
                ==> swept_now
            &&& swept_now ==> !has_key(f.off@, id) && m.n_ctx is Some && (force || m.pp_tps is None
                || m.tg_tps is None || m.bench_build != current_build)
        }),
    decreases n,
{
    let id = f.by_id@[k].0;
    let m = lookup(f.measurements@, id)->0;
    let before = swept(f, force, current_build, n - 1);
    let now = swept(f, force, current_build, n);
    if k < n - 1 {
        a_sweep_takes_what_lacks_a_baseline(f, force, current_build, n - 1, k);
        if before.contains(id) {
            let j = choose|j: int| 0 <= j < before.len() && before[j] == id;
            assert(now[j] == id);
        }
        if now.contains(id) && !before.contains(id) {
            let j = choose|j: int| 0 <= j < now.len() && now[j] == id;
            assert(j == before.len());
        }
    } else {
        if now.contains(id) {
            let j = choose|j: int| 0 <= j < now.len() && now[j] == id;
            lemma_swept_for_a_reason(f, force, current_build, n, j);
        }
        if now.len() > before.len() {
            assert(now.last() == id);
            assert(now[now.len() - 1] == id);
        }
    }
}

proof fn lemma_swept_for_a_reason(
    f: Fleet<'_>,
    force: bool,
    current_build: Option<u64>,
    n: int,
    j: int,
)
    requires
        0 <= n <= f.by_id@.len(),
        0 <= j < swept(f, force, current_build, n).len(),
    ensures
        ({
            let id = swept(f, force, current_build, n)[j];
            let m = lookup(f.measurements@, id);
            &&& !has_key(f.off@, id)
            &&& m is Some && m->0.n_ctx is Some
            &&& force || m->0.pp_tps is None || m->0.tg_tps is None || m->0.bench_build
                != current_build
        }),
    decreases n,
{
    if n > 0 {
        let before = swept(f, force, current_build, n - 1);
        if j < before.len() {
            lemma_swept_for_a_reason(f, force, current_build, n - 1, j);
        }
    }
}

/// The models that hold the GPU are those that are loaded, loading or asleep.
pub proof fn residents_hold_the_gpu(models: Seq<crate::router::RouterModel>, i: int)
    requires
        0 <= i < models.len(),
    ensures
        models[i].status@ == "loaded"@ || models[i].status@ == "loading"@ || models[i].status@
            == "sleeping"@ ==> resident_ids(models).contains(models[i].id@),
        forall|k: int|
            0 <= k < resident_ids(models).len() ==> exists|j: int|
                0 <= j < models.len() && models[j].id@ == #[trigger] resident_ids(models)[k] && (
                models[j].status@ == "loaded"@ || models[j].status@ == "loading"@
                    || models[j].status@ == "sleeping"@),
    decreases models.len(),
{
    let s = models.drop_last();
    let before = resident_ids(s);
    let now = resident_ids(models);
    if s.len() > 0 {
        residents_hold_the_gpu(s, if i < s.len() { i } else { 0 });
    }
    if i < s.len() {
        assert(s[i] == models[i]);
        if before.contains(models[i].id@) {
            let j = choose|j: int| 0 <= j < before.len() && before[j] == models[i].id@;
            assert(now[j] == models[i].id@);
        }
    } else if holds_gpu(models.last().status@) {
        assert(now[now.len() - 1] == models[i].id@);
    }
    assert forall|k: int| 0 <= k < now.len() implies exists|j: int|
        0 <= j < models.len() && models[j].id@ == #[trigger] now[k] && (models[j].status@
            == "loaded"@ || models[j].status@ == "loading"@ || models[j].status@ == "sleeping"@) by {
        if k < before.len() {
            assert(now[k] == before[k]);
            let j = choose|j: int|
                0 <= j < s.len() && s[j].id@ == before[k] && (s[j].status@ == "loaded"@
                    || s[j].status@ == "loading"@ || s[j].status@ == "sleeping"@);
            assert(models[j] == s[j]);
        } else {
            assert(models[models.len() - 1].id@ == now[k]);
        }
    }
}

/// Every file with an id is found under it; of two files with one id the later.
pub proof fn every_file_is_found_under_its_id(
    models: Seq<ModelFile>,
    ids: Seq<(Seq<char>, Seq<char>)>,
    n: int,
    k: int,
    id: Seq<char>,
)
    requires
        0 <= k < n <= models.len(),
        n <= usize::MAX,
        at_path(ids, models[k].path@) == Some(id),
        forall|j: int| k < j < n ==> at_path(ids, (#[trigger] models[j]).path@) != Some(id),
    ensures
        crate::textmap::sorted(files_of(models, ids, n)),
        lookup(files_of(models, ids, n), id) == Some(k as usize),
    decreases n,
{
    lemma_files_sorted(models, ids, n - 1);
    let before = files_of(models, ids, n - 1);
    if k < n - 1 {
        every_file_is_found_under_its_id(models, ids, n - 1, k, id);
        assert(at_path(ids, models[n - 1].path@) != Some(id));
    }
    if at_path(ids, models[n - 1].path@) is Some {
        crate::textmap::put_then_lookup(
            before,
            at_path(ids, models[n - 1].path@)->0,
            (n - 1) as usize,
            id,
        );
    }
}

proof fn lemma_files_sorted(models: Seq<ModelFile>, ids: Seq<(Seq<char>, Seq<char>)>, n: int)
    ensures
        crate::textmap::sorted(files_of(models, ids, n)),
    decreases n,
{
    if n > 0 && n <= models.len() {
        lemma_files_sorted(models, ids, n - 1);
        if at_path(ids, models[n - 1].path@) is Some {
            let id = at_path(ids, models[n - 1].path@)->0;
            crate::textmap::put_then_lookup(
                files_of(models, ids, n - 1),
                id,
                (n - 1) as usize,
                id,
            );
        }
    }
}

/// Of an output the last three lines that hold something are told.
pub proof fn the_last_three_lines_are_told(l: Seq<Seq<char>>)
    ensures
        filled(l) == l.filter(|x: Seq<char>| trim(x).len() > 0),
        last_three(l).len() == (if l.len() < 3 {
            l.len()
        } else {
            3
        }),
        forall|k: int|
            0 <= k < last_three(l).len() ==> #[trigger] last_three(l)[k] == l[l.len() - last_three(
                l,
            ).len() + k],
    decreases l.len(),
{
    reveal(Seq::filter);
    if l.len() > 0 {
        the_last_three_lines_are_told(l.drop_last());
    }
}

} // verus!
