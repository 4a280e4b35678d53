//! Assembly of the modules into the operations the command line and the
//! window share: where files live, which server runs, what the preset says.
//! Everything flows from the persisted configuration.
use crate::discover::{device_views, Device, DeviceView, LlamaInstall};
use crate::fingerprint::{fnv, fnv_of, fnv_state, lemma_fnv_push, what_follows_undoes_nothing};
use crate::library::{embeds, is_embedding, ModelFile};
use crate::measurements::Measurements;
use crate::meter::{
    bucket_views, busiest, fleet_of, fmt_report, per_model_of, report, report_text, series_of, Bucket,
    Report,
};
use crate::num::{dec, dec_text, lemma_dec_parses};
use crate::path::{components, is_under, join_of, join_path, path_under, same_path};
use crate::preset::{ids_in_preset, sections_of, TextSet};
use crate::router::{
    aliases_of, bare_sections, default_entries, model_sections, preset_head, render_preset, section,
    state_dir, state_dir_of, RouterConfig,
};
use crate::settings::{
    base_dir, has_pair, holds_pair, is_default_config, lemma_pairs_push, pairs, xdg_dir, AppConfig,
    Env, ModelOverrides, OverridesView, APP_NAME,
};
use crate::text::{
    chars_of, copy_text, debug_text, holds_text, is_digit, join, join_texts, lemma_texts_push,
    lines, opt_str, quote, same_text, text_of, texts, trim, trimmed,
};
use crate::textmap::{drop_then_lookup, has_key, lemma_has_key, put_then_lookup, sorted, TextMap};
use vstd::prelude::*;
use vstd::string::*;

verus! {

// ------------------------------------------------------------------- the places

pub open spec fn config_dir_of(e: Env) -> Seq<char> {
    join_path(base_dir(e.config_home, e, ".config"@), APP_NAME@)
}

pub fn config_dir(e: &Env) -> (r: String)
    ensures
        r@ == config_dir_of(*e),
{
    xdg_dir(&e.config_home, e, ".config")
}

pub fn config_file(e: &Env) -> (r: String)
    ensures
        r@ == join_path(config_dir_of(*e), "config.json"@),
{
    join_of(config_dir(e).as_str(), "config.json")
}

pub fn preset_path(e: &Env) -> (r: String)
    ensures
        r@ == join_path(config_dir_of(*e), "router.ini"@),
{
    join_of(config_dir(e).as_str(), "router.ini")
}

/// What `git describe` says of the sources; builds without a checkout degrade
/// honestly to "release".
pub open spec fn git_field(described: Option<Seq<char>>) -> Seq<char> {
    match described {
        Some(d) => if trim(d).len() > 0 {
            trim(d)
        } else {
            "release"@
        },
        None => "release"@,
    }
}

/// The git half of the build identity, from what `git describe` printed.
pub fn build_git(described: Option<&str>) -> (r: String)
    ensures
        r@ == git_field(opt_str(described)),
{
    if let Some(d) = described {
        let c = chars_of(d);
        let t = trimmed(&c);
        if t.len() > 0 {
            return text_of(t);
        }
    }
    copy_text("release")
}

/// The full build identity for About and `--version`: version, git
/// describe (or "release" for tarball builds), build date. One string a bug
/// report can carry that pins the exact software.
pub fn build_id(version: &str, git: &str, date: &str) -> (r: String)
    ensures
        r@ == version@ + " ("@ + git@ + ", "@ + date@ + ")"@,
{
    let mut s = copy_text(version);
    s.append(" (");
    s.append(git);
    s.append(", ");
    s.append(date);
    s.append(")");
    s
}

/// A configuration that is not there, or cannot be read, is the default one.
pub fn load_config(read: Option<AppConfig>, e: &Env) -> (r: AppConfig)
    ensures
        match read {
            Some(c) => r == c,
            None => is_default_config(r, *e),
        },
{
    match read {
        Some(c) => c,
        None => AppConfig::defaults(e),
    }
}

// --------------------------------------------------------------- the meter's range

/// The label of a reporting range, and the second it begins at.
pub open spec fn range_of(range: Option<Seq<char>>, now: u64) -> Option<(Seq<char>, Option<u64>)> {
    match range {
        None => Some(("all time"@, None)),
        Some(r) => if r == "today"@ {
            Some(("today (UTC)"@, Some((now - now % 86_400) as u64)))
        } else if r == "24h"@ {
            Some(("last 24h"@, Some(if now > 86_400 { (now - 86_400) as u64 } else { 0 })))
        } else if r == "7d"@ {
            Some(("last 7 days"@, Some(if now > 604_800 { (now - 604_800) as u64 } else { 0 })))
        } else {
            None
        },
    }
}

/// The label of a reporting range, and the second it begins at.
pub fn meter_range(range: Option<&str>, now: u64) -> (r: Result<(String, Option<u64>), String>)
    ensures
        match range_of(opt_str(range), now) {
            Some((label, since)) => r is Ok && (r->Ok_0).0@ == label && (r->Ok_0).1 == since,
            None => r is Err && r->Err_0@ == "unknown range "@ + debug_text(range->0@)
                + " — valid: today, 24h, 7d (no range = all time)"@,
        },
{
    let r = match range {
        Some(r) => r,
        None => {
            return Ok((copy_text("all time"), None));
        },
    };
    if same_text(r, "today") {
        assert(now % 86_400 <= now);
        Ok((copy_text("today (UTC)"), Some(now - now % 86_400)))
    } else if same_text(r, "24h") {
        Ok(
            (
                copy_text("last 24h"),
                Some(
                    if now > 86_400 {
                        now - 86_400
                    } else {
                        0
                    },
                ),
            ),
        )
    } else if same_text(r, "7d") {
        Ok(
            (
                copy_text("last 7 days"),
                Some(
                    if now > 604_800 {
                        now - 604_800
                    } else {
                        0
                    },
                ),
            ),
        )
    } else {
        let mut s = copy_text("unknown range ");
        s.append(quote(r).as_str());
        s.append(" — valid: today, 24h, 7d (no range = all time)");
        Err(s)
    }
}

/// The report sums up the buckets since a time.
pub open spec fn sums_up(r: Report, buckets: Seq<Bucket>, since: Option<u64>) -> bool {
    &&& r.fleet == fleet_of(bucket_views(buckets), since, None)
    &&& r.per_model@ == per_model_of(bucket_views(buckets), since, None)
    &&& r.per_day@ == series_of(bucket_views(buckets), since, None, true)
    &&& r.busiest_hour == busiest(series_of(bucket_views(buckets), since, None, false))
}

/// The full meter report as text — one implementation for the command line
/// and the Token Meter window. `drift_note` warns that the log's dialect has
/// changed under the parser.
pub fn meter_report_text(
    buckets: &[Bucket],
    range: Option<&str>,
    now: u64,
    drift_note: Option<&str>,
    cloud_price: u64,
) -> (r: Result<String, String>)
    ensures
        match range_of(opt_str(range), now) {
            Some((label, since)) => r is Ok && exists|rep: Report| #[trigger]
                sums_up(rep, buckets@, since) && r->Ok_0@ == (match drift_note {
                    Some(note) => "WARNING: "@ + note@ + "\n\n"@,
                    None => ""@,
                }) + report_text(rep, label, cloud_price),
            None => r is Err && r->Err_0@ == "unknown range "@ + debug_text(range->0@)
                + " — valid: today, 24h, 7d (no range = all time)"@,
        },
{
    let (label, since) = match meter_range(range, now) {
        Ok(v) => v,
        Err(e) => {
            return Err(e);
        },
    };
    let rep = report(buckets, since, None);
    assert(sums_up(rep, buckets@, since));
    let mut out = copy_text("");
    if let Some(note) = drift_note {
        out = copy_text("WARNING: ");
        out.append(note);
        out.append("\n\n");
    }
    out.append(fmt_report(&rep, label.as_str(), cloud_price).as_str());
    Ok(out)
}

// ------------------------------------------------------------------ the migrations

/// The app's former name.
pub const FORMER_NAME: &'static str = "llamacppcodeconf";

/// Where the former name's directory was: no redirect was looked through, and
/// an empty variable counted.
pub open spec fn former_dir(v: Option<String>, e: Env, fallback: Seq<char>) -> Seq<char> {
    join_path(
        match v {
            Some(p) => p@,
            None => join_path(
                match e.home {
                    Some(h) => h@,
                    None => "."@,
                },
                fallback,
            ),
        },
        FORMER_NAME@,
    )
}

fn former(v: &Option<String>, e: &Env, fallback: &str) -> (r: String)
    ensures
        r@ == former_dir(*v, *e, fallback@),
{
    let base = match v {
        Some(p) => p.clone(),
        None => {
            let home = match &e.home {
                Some(h) => h.clone(),
                None => copy_text("."),
            };
            join_of(home.as_str(), fallback)
        },
    };
    join_of(base.as_str(), FORMER_NAME)
}

/// One-time rename migration: the old config and state dirs, each with the
/// new name it moves to, so that measurements, history, trials, and overrides
/// survive the rename.
pub fn renamed_dirs(e: &Env) -> (r: Vec<(String, String)>)
    ensures
        pairs(r@) == seq![
            (former_dir(e.config_home, *e, ".config"@), config_dir_of(*e)),
            (former_dir(e.state_home, *e, ".local/state"@), state_dir_of(*e)),
        ],
{
    let v: Vec<(String, String)> = vec![
        (former(&e.config_home, e, ".config"), config_dir(e)),
        (former(&e.state_home, e, ".local/state"), state_dir(e)),
    ];
    assert(pairs(v@) =~= seq![
        (former_dir(e.config_home, *e, ".config"@), config_dir_of(*e)),
        (former_dir(e.state_home, *e, ".local/state"@), state_dir_of(*e)),
    ]);
    v
}

/// Never merges — if both old and new exist, the new wins and the old is left
/// untouched for the user to reconcile.
pub fn moves(old_is_dir: bool, new_exists: bool) -> (r: bool)
    ensures
        r == (old_is_dir && !new_exists),
{
    old_is_dir && !new_exists
}

/// What is said of one attempted move.
pub open spec fn move_note(
    did: Seq<char>,
    could_not: Seq<char>,
    old_path: Seq<char>,
    new_path: Seq<char>,
    error: Option<Seq<char>>,
) -> Seq<char> {
    match error {
        None => did + old_path + " -> "@ + new_path,
        Some(e) => could_not + old_path + ": "@ + e,
    }
}

fn say_move(did: &str, could_not: &str, old_path: &str, new_path: &str, error: Option<&str>) -> (r:
    String)
    ensures
        r@ == move_note(did@, could_not@, old_path@, new_path@, opt_str(error)),
{
    match error {
        None => {
            let mut s = copy_text(did);
            s.append(old_path);
            s.append(" -> ");
            s.append(new_path);
            s
        },
        Some(e) => {
            let mut s = copy_text(could_not);
            s.append(old_path);
            s.append(": ");
            s.append(e);
            s
        },
    }
}

/// What is said of one attempted migration.
pub fn migration_note(old_path: &str, new_path: &str, error: Option<&str>) -> (r: String)
    ensures
        r@ == move_note(
            "migrated "@,
            "could NOT migrate "@,
            old_path@,
            new_path@,
            opt_str(error),
        ),
{
    say_move("migrated ", "could NOT migrate ", old_path, new_path, error)
}

/// What is said of one attempted rescue of data written under a snap HOME
/// redirect, which the next snap update would orphan.
pub fn rescue_note(old_path: &str, new_path: &str, error: Option<&str>) -> (r: String)
    ensures
        r@ == move_note(
            "rescued snap-stranded data: "@,
            "could NOT rescue "@,
            old_path@,
            new_path@,
            opt_str(error),
        ),
{
    say_move("rescued snap-stranded data: ", "could NOT rescue ", old_path, new_path, error)
}

pub const RESTART_ROUTER: &'static str = "rename migration: a router started before the rename still references the \
             old preset path — Stop/Start it once; an installed systemd unit needs \
             --install-service again";

/// The notes of a rename migration: where anything was attempted, the router
/// must be restarted once.
pub fn migrate_rename(notes: Vec<String>) -> (r: Vec<String>)
    ensures
        texts(r@) == (if notes@.len() == 0 {
            Seq::empty()
        } else {
            texts(notes@).push(RESTART_ROUTER@)
        }),
{
    let mut out = notes;
    if out.len() > 0 {
        let s = copy_text(RESTART_ROUTER);
        proof {
            lemma_texts_push(out@, s);
        }
        out.push(s);
    } else {
        assert(texts(out@) =~= Seq::<Seq<char>>::empty());
    }
    out
}

/// What a snap revision may hold of this app, each with where it belongs.
pub fn migrate_snap_strays(e: &Env) -> (r: Vec<(String, String)>)
    ensures
        pairs(r@) == seq![
            (".config/modelsteward"@, config_dir_of(*e)),
            (".local/state/modelsteward"@, state_dir_of(*e)),
            (".local/share/modelsteward"@, crate::managed::data_dir_of(*e)),
        ],
{
    let v: Vec<(String, String)> = vec![
        (copy_text(".config/modelsteward"), config_dir(e)),
        (copy_text(".local/state/modelsteward"), state_dir(e)),
        (copy_text(".local/share/modelsteward"), crate::managed::data_dir(e)),
    ];
    assert(pairs(v@) =~= seq![
        (".config/modelsteward"@, config_dir_of(*e)),
        (".local/state/modelsteward"@, state_dir_of(*e)),
        (".local/share/modelsteward"@, crate::managed::data_dir_of(*e)),
    ]);
    v
}

// -------------------------------------------------------------------- the server

/// A binary living in the app's own data dir (managed build or archive).
/// These are OFFERED, never forced: serving one requires an explicit pin.
/// Both paths are resolved ones, or a symlinked home would defeat the guard.
pub fn is_managed_install(path: &str, data_dir: &str) -> (r: bool)
    ensures
        r == path_under(path@, data_dir@),
{
    is_under(path, data_dir)
}

/// An install that could serve.
pub struct Candidate {
    pub path: String,
    pub build: Option<u64>,
    /// It lives in the app's own data dir.
    pub managed: bool,
    /// It sees at least one device.
    pub sees_devices: bool,
}

pub open spec fn build_or_zero(c: Candidate) -> u64 {
    match c.build {
        Some(b) => b,
        None => 0,
    }
}

/// The first place of `s` whose candidate has an older build than `i`'s.
pub open spec fn older_from(c: Seq<Candidate>, s: Seq<int>, i: int, from: int) -> int
    decreases s.len() - from,
{
    if 0 <= from < s.len() && build_or_zero(c[s[from]]) >= build_or_zero(c[i]) {
        older_from(c, s, i, from + 1)
    } else {
        from
    }
}

/// The first `n` candidates, newest build first, equals in their order.
pub open spec fn newest_first(c: Seq<Candidate>, n: int) -> Seq<int>
    decreases n,
{
    if n <= 0 {
        Seq::empty()
    } else {
        let sofar = newest_first(c, n - 1);
        sofar.insert(older_from(c, sofar, n - 1, 0), n - 1)
    }
}

/// The first of the places from `from` on whose candidate is what is asked
/// for.
pub open spec fn first_where(
    c: Seq<Candidate>,
    s: Seq<int>,
    managed: bool,
    must_see: bool,
    from: int,
) -> Option<int>
    decreases s.len() - from,
{
    if from < 0 || from >= s.len() {
        None
    } else if c[s[from]].managed == managed && (must_see ==> c[s[from]].sees_devices) {
        Some(s[from])
    } else {
        first_where(c, s, managed, must_see, from + 1)
    }
}

/// The llama-server to run where none is configured: the newest NON-MANAGED
/// install that can see devices, else the newest non-managed at all — managed
/// as the last resort for machines with no other install.
pub open spec fn picked(c: Seq<Candidate>) -> Option<int> {
    let s = newest_first(c, c.len() as int);
    match first_where(c, s, false, true, 0) {
        Some(i) => Some(i),
        None => match first_where(c, s, false, false, 0) {
            Some(i) => Some(i),
            None => first_where(c, s, true, false, 0),
        },
    }
}

/// The install that the devices are asked of: as for serving, but any that
/// sees devices will do — non-managed first, because a newer managed ARCHIVE
/// that never serves must not claim measurements made on the user's real
/// binary.
pub open spec fn device_source_of(c: Seq<Candidate>) -> Option<int> {
    let s = newest_first(c, c.len() as int);
    match first_where(c, s, false, true, 0) {
        Some(i) => Some(i),
        None => first_where(c, s, true, true, 0),
    }
}

pub open spec fn ints(v: Seq<usize>) -> Seq<int> {
    Seq::new(v.len(), |i: int| v[i] as int)
}

fn build_of_candidate(c: &Candidate) -> (r: u64)
    ensures
        r == build_or_zero(*c),
{
    match c.build {
        Some(b) => b,
        None => 0,
    }
}

/// The places of the candidates, newest build first.
fn order(c: &[Candidate]) -> (r: Vec<usize>)
    ensures
        ints(r@) == newest_first(c@, c@.len() as int),
        forall|k: int| 0 <= k < r@.len() ==> (#[trigger] r@[k]) < c@.len(),
{
    let mut out: Vec<usize> = Vec::new();
    let mut i: usize = 0;
    assert(ints(out@) =~= newest_first(c@, 0));
    while i < c.len()
        invariant
            i <= c.len(),
            ints(out@) == newest_first(c@, i as int),
            forall|k: int| 0 <= k < out@.len() ==> (#[trigger] out@[k]) < i,
        decreases c.len() - i,
    {
        let ghost sofar = ints(out@);
        let ghost raw = out@;
        let mut k: usize = 0;
        while k < out.len() && build_of_candidate(&c[out[k]]) >= build_of_candidate(&c[i])
            invariant
                i < c.len(),
                k <= out.len(),
                out@ == raw,
                sofar == ints(raw),
                forall|j: int| 0 <= j < raw.len() ==> (#[trigger] raw[j]) < i,
                older_from(c@, sofar, i as int, 0) == older_from(c@, sofar, i as int, k as int),
            decreases out.len() - k,
        {
            assert(sofar[k as int] == out@[k as int]);
            k += 1;
        }
        if k < out.len() {
            assert(sofar[k as int] == out@[k as int]);
        }
        out.insert(k, i);
        assert(ints(out@) =~= sofar.insert(k as int, i as int));
        assert forall|j: int| 0 <= j < out@.len() implies (#[trigger] out@[j]) < i + 1 by {
            if j < k {
                assert(out@[j] == raw[j]);
            } else if j > k {
                assert(out@[j] == raw[j - 1]);
            }
        }
        i += 1;
    }
    out
}

fn find_where(c: &[Candidate], s: &[usize], managed: bool, must_see: bool) -> (r: Option<usize>)
    requires
        forall|k: int| 0 <= k < s@.len() ==> (#[trigger] s@[k]) < c@.len(),
    ensures
        match r {
            Some(i) => i < c@.len() && first_where(c@, ints(s@), managed, must_see, 0) == Some(
                i as int,
            ),
            None => first_where(c@, ints(s@), managed, must_see, 0) is None,
        },
{
    let ghost all = ints(s@);
    let mut k: usize = 0;
    while k < s.len()
        invariant
            k <= s.len(),
            all == ints(s@),
            forall|j: int| 0 <= j < s@.len() ==> (#[trigger] s@[j]) < c@.len(),
            first_where(c@, all, managed, must_see, 0) == first_where(
                c@,
                all,
                managed,
                must_see,
                k as int,
            ),
        decreases s.len() - k,
    {
        assert(all[k as int] == s@[k as int]);
        let x = &c[s[k]];
        if x.managed == managed && (!must_see || x.sees_devices) {
            return Some(s[k]);
        }
        k += 1;
    }
    None
}

/// The install that the devices are asked of.
pub fn device_source(c: &[Candidate]) -> (r: Option<usize>)
    ensures
        match r {
            Some(i) => i < c@.len() && device_source_of(c@) == Some(i as int),
            None => device_source_of(c@) is None,
        },
{
    let s = order(c);
    match find_where(c, &s, false, true) {
        Some(i) => Some(i),
        None => find_where(c, &s, true, true),
    }
}

pub const NO_SERVER: &'static str = "no llama-server found — pick one in the GUI (Settings tab), set \
             \"server_bin\" in ";

pub const OR_BUILD_ONE: &'static str = ", or build one (GUI: Server -> Build Advisor; \
             CLI: --advise)";

/// The llama-server to run: the configured override if set, else the one that
/// is picked among the installs. `explicit_exists` says whether the override
/// is a file.
pub fn pick_server(cfg: &AppConfig, explicit_exists: bool, c: &[Candidate], config_file: &str) -> (r:
    Result<String, String>)
    ensures
        match cfg.server_bin {
            Some(p) => if explicit_exists {
                r is Ok && r->Ok_0@ == p@
            } else {
                r is Err && r->Err_0@ == "configured llama-server does not exist: "@ + p@
            },
            None => match picked(c@) {
                Some(i) => r is Ok && r->Ok_0@ == c@[i].path@,
                None => r is Err && r->Err_0@ == NO_SERVER@ + config_file@ + OR_BUILD_ONE@,
            },
        },
{
    if let Some(p) = &cfg.server_bin {
        if explicit_exists {
            return Ok(p.clone());
        }
        let mut s = copy_text("configured llama-server does not exist: ");
        s.append(p.as_str());
        return Err(s);
    }
    let s = order(c);
    let found = match find_where(c, &s, false, true) {
        Some(i) => Some(i),
        None => match find_where(c, &s, false, false) {
            Some(i) => Some(i),
            None => find_where(c, &s, true, false),
        },
    };
    match found {
        Some(i) => Ok(c[i].path.clone()),
        None => {
            let mut e = copy_text(NO_SERVER);
            e.append(config_file);
            e.append(OR_BUILD_ONE);
            Err(e)
        },
    }
}

/// What the router is run with; where no server is found, whatever the PATH
/// holds.
pub fn router_config(cfg: &AppConfig, server: Option<String>, e: &Env) -> (r: RouterConfig)
    ensures
        r.server_bin@ == (match server {
            Some(s) => s@,
            None => "llama-server"@,
        }),
        r.port == cfg.port,
        r.preset_path@ == join_path(config_dir_of(*e), "router.ini"@),
        r.models_max == (if cfg.models_max == 0 {
            1
        } else {
            cfg.models_max
        }),
{
    RouterConfig {
        server_bin: match server {
            Some(s) => s,
            None => copy_text("llama-server"),
        },
        port: cfg.port,
        preset_path: preset_path(e),
        models_max: if cfg.models_max == 0 {
            1
        } else {
            cfg.models_max
        },
    }
}

// ----------------------------------------------------------------------- the scan

pub struct ScanReport {
    pub installs: Vec<LlamaInstall>,
    /// Devices as seen by `devices_from`. Newest build is asked first, but a
    /// build that reports no devices (e.g. a CUDA build whose runtime can't
    /// initialize here) is skipped in favor of one that can actually see the
    /// hardware.
    pub devices: Vec<Device>,
    pub devices_from: Option<String>,
    pub models: Vec<ModelFile>,
}

/// The directories that are scanned for models: the configured ones, then the
/// extra ones.
pub fn scan_models(cfg: &AppConfig, extra_dirs: &[String]) -> (r: Vec<String>)
    ensures
        texts(r@) == texts(cfg.scan_dirs@) + texts(extra_dirs@),
{
    let mut out = crate::text::copy_texts(&cfg.scan_dirs);
    let ghost a = texts(cfg.scan_dirs@);
    let ghost b = texts(extra_dirs@);
    let mut i: usize = 0;
    assert(texts(out@) =~= a + b.take(0));
    while i < extra_dirs.len()
        invariant
            i <= extra_dirs.len(),
            b == texts(extra_dirs@),
            texts(out@) == a + b.take(i as int),
        decreases extra_dirs.len() - i,
    {
        proof {
            lemma_texts_push(out@, extra_dirs@[i as int]);
        }
        assert(a + b.take(i + 1) =~= (a + b.take(i as int)).push(b[i as int]));
        out.push(extra_dirs[i].clone());
        i += 1;
    }
    assert(b.take(i as int) =~= b);
    out
}

/// What was found, with the devices of the install that was asked; where none
/// sees any, there are none.
pub fn scan_report(
    installs: Vec<LlamaInstall>,
    asked: Option<(String, Vec<Device>)>,
    models: Vec<ModelFile>,
) -> (r: ScanReport)
    ensures
        r.installs == installs,
        r.models == models,
        match asked {
            Some((from, devices)) => r.devices == devices && r.devices_from == Some(from),
            None => r.devices@.len() == 0 && r.devices_from is None,
        },
{
    match asked {
        Some((from, devices)) => ScanReport { installs, devices, devices_from: Some(from), models },
        None => ScanReport { installs, devices: Vec::new(), devices_from: None, models },
    }
}

/// The first install at the path, from `from` on.
pub open spec fn install_from(v: Seq<LlamaInstall>, path: Seq<char>, from: int) -> Option<int>
    decreases v.len() - from,
{
    if from < 0 || from >= v.len() {
        None
    } else if components(v[from].server_path@) == components(path) {
        Some(from)
    } else {
        install_from(v, path, from + 1)
    }
}

/// The build of the install that the devices were asked of.
pub open spec fn env_build_of(r: ScanReport) -> Option<u64> {
    match r.devices_from {
        Some(p) => match install_from(r.installs@, p@, 0) {
            Some(i) => r.installs@[i].build,
            None => None,
        },
        None => None,
    }
}

/// The build number of the install the devices were probed with — the
/// same one `env_fingerprint` hashes, exposed for measurement provenance.
pub fn env_build(report: &ScanReport) -> (r: Option<u64>)
    ensures
        r == env_build_of(*report),
{
    let from = match &report.devices_from {
        Some(p) => p,
        None => {
            return None;
        },
    };
    let mut i: usize = 0;
    while i < report.installs.len()
        invariant
            i <= report.installs@.len(),
            report.devices_from == Some(*from),
            install_from(report.installs@, from@, 0) == install_from(
                report.installs@,
                from@,
                i as int,
            ),
        decreases report.installs.len() - i,
    {
        if same_path(report.installs[i].server_path.as_str(), from.as_str()) {
            return report.installs[i].build;
        }
        i += 1;
    }
    None
}

/// The build that the fingerprint counts: zero where it is not known.
pub open spec fn counted_build(r: ScanReport) -> u64 {
    match env_build_of(r) {
        Some(b) => b,
        None => 0,
    }
}

/// A device in the fingerprint.
pub open spec fn device_mark(d: DeviceView) -> Seq<char> {
    d.id + ":"@ + dec(d.total_mib as nat)
}

pub open spec fn device_marks(v: Seq<DeviceView>) -> Seq<Seq<char>> {
    Seq::new(v.len(), |i: int| device_mark(v[i]))
}

/// What the environment fingerprint is made of.
pub open spec fn env_text(r: ScanReport) -> Seq<char> {
    "b"@ + dec(counted_build(r) as nat) + "|"@ + join(device_marks(device_views(r.devices@)), ","@)
}

/// Environment half of a measurement fingerprint: which build measured, on
/// which devices. Pure over an existing scan, so that two can be compared
/// without probing again.
pub fn env_fingerprint(report: &ScanReport) -> (r: String)
    ensures
        r@ == fnv_of(env_text(*report)),
{
    let build: u64 = match env_build(report) {
        Some(b) => b,
        None => 0,
    };
    let mut marks: Vec<String> = Vec::new();
    let ghost all = device_marks(device_views(report.devices@));
    let mut i: usize = 0;
    assert(texts(marks@) =~= all.take(0));
    while i < report.devices.len()
        invariant
            i <= report.devices@.len(),
            all == device_marks(device_views(report.devices@)),
            texts(marks@) == all.take(i as int),
        decreases report.devices.len() - i,
    {
        let d = &report.devices[i];
        let mut s = d.id.clone();
        s.append(":");
        s.append(dec_text(d.total_mib).as_str());
        proof {
            lemma_texts_push(marks@, s);
        }
        assert(all[i as int] == s@);
        assert(all.take(i + 1) =~= all.take(i as int).push(all[i as int]));
        marks.push(s);
        i += 1;
    }
    assert(all.take(i as int) =~= all);
    let mut t = copy_text("b");
    t.append(dec_text(build).as_str());
    t.append("|");
    t.append(join_texts(&marks, ",").as_str());
    fnv(t.as_str())
}

pub const UNIT_HEAD: &'static str = "[Unit]\n\
         Description=llama.cpp router (modelsteward)\n\
         After=network.target\n\n\
         [Service]\n\
         ExecStart=";

pub const UNIT_TAIL: &'static str = "\nRestart=on-failure\n\n\
         [Install]\n\
         WantedBy=default.target\n";

/// Text of a systemd *user* unit that runs the router at login. The unit
/// runs llama-server directly (not this app), with the same preset — the
/// router process it starts is recognized by that preset, so Stop works on
/// it.
pub fn systemd_unit_text(cfg: &RouterConfig) -> (r: String)
    ensures
        r@ == UNIT_HEAD@ + cfg.server_bin@ + " --models-preset "@ + cfg.preset_path@
            + " --host 127.0.0.1 --port "@ + dec(cfg.port as nat) + " --models-max "@ + dec(
            cfg.models_max as nat,
        ) + UNIT_TAIL@,
{
    let mut s = copy_text(UNIT_HEAD);
    s.append(cfg.server_bin.as_str());
    s.append(" --models-preset ");
    s.append(cfg.preset_path.as_str());
    s.append(" --host 127.0.0.1 --port ");
    s.append(dec_text(cfg.port as u64).as_str());
    s.append(" --models-max ");
    s.append(dec_text(cfg.models_max as u64).as_str());
    s.append(UNIT_TAIL);
    s
}

/// Where the user unit file is written. Enabling/starting is left to the user
/// (one visible command) so systemd never surprises them.
pub fn install_systemd_unit(e: &Env) -> (r: Result<String, String>)
    ensures
        match e.home {
            Some(h) => r is Ok && r->Ok_0@ == join_path(
                join_path(h@, ".config/systemd/user"@),
                "llamacpp-router.service"@,
            ),
            None => r is Err && r->Err_0@ == "no home directory"@,
        },
{
    match &e.home {
        Some(h) => {
            let dir = join_of(h.as_str(), ".config/systemd/user");
            Ok(join_of(dir.as_str(), "llamacpp-router.service"))
        },
        None => Err(copy_text("no home directory")),
    }
}

// ---------------------------------------------------------------- what is disabled

/// The user disabled a model under this id: by the id itself, or by the path
/// of the file whose alias it is.
pub open spec fn is_disabled(disabled: Seq<Seq<char>>, models: Seq<ModelFile>, id: Seq<char>) -> bool {
    disabled.contains(id) || exists|k: int|
        0 <= k < aliases_of(models).len() && (#[trigger] aliases_of(models)[k]).0 == id
            && disabled.contains(models[aliases_of(models)[k].1].path@)
}

/// Among the first `n` aliases.
pub open spec fn disabled_before(
    disabled: Seq<Seq<char>>,
    models: Seq<ModelFile>,
    id: Seq<char>,
    n: int,
) -> bool {
    exists|k: int|
        0 <= k < n && k < aliases_of(models).len() && (#[trigger] aliases_of(models)[k]).0 == id
            && disabled.contains(models[aliases_of(models)[k].1].path@)
}

/// The set with one more text.
proof fn lemma_set_insert(s: Seq<(Seq<char>, ())>, k: Seq<char>)
    requires
        sorted(s),
    ensures
        forall|id: Seq<char>|
            #[trigger] has_key(crate::textmap::put(s, k, ()), id) == (has_key(s, id) || id == k),
{
    assert forall|id: Seq<char>|
        #[trigger] has_key(crate::textmap::put(s, k, ()), id) == (has_key(s, id) || id == k) by {
        put_then_lookup(s, k, (), id);
    }
}

/// The set with one less text.
proof fn lemma_set_remove(s: Seq<(Seq<char>, ())>, k: Seq<char>)
    requires
        sorted(s),
    ensures
        forall|id: Seq<char>|
            #[trigger] has_key(crate::textmap::drop_key(s, k), id) == (has_key(s, id) && id != k),
{
    assert forall|id: Seq<char>|
        #[trigger] has_key(crate::textmap::drop_key(s, k), id) == (has_key(s, id) && id != k) by {
        drop_then_lookup(s, k, id);
    }
}

/// Router ids the user has DISABLED.
///
/// The disabled list is keyed by file path when we have one and by router id
/// otherwise, so resolving it needs the model list. Disabled means: shown,
/// but not measured, benched, raced, or offered.
pub fn disabled_ids(cfg: &AppConfig, models: &[ModelFile]) -> (r: TextSet)
    ensures
        forall|id: Seq<char>|
            #[trigger] has_key(r@, id) == is_disabled(texts(cfg.disabled@), models@, id),
{
    let ghost off = texts(cfg.disabled@);
    let mut out: TextSet = TextMap::new();
    let mut i: usize = 0;
    while i < cfg.disabled.len()
        invariant
            i <= cfg.disabled@.len(),
            off == texts(cfg.disabled@),
            forall|id: Seq<char>| #[trigger] has_key(out@, id) == off.take(i as int).contains(id),
        decreases cfg.disabled.len() - i,
    {
        let _ = out.len();
        proof {
            lemma_set_insert(out@, off[i as int]);
        }
        let ghost before = out@;
        out.insert(cfg.disabled[i].clone(), ());
        assert forall|id: Seq<char>| #[trigger] has_key(out@, id) == off.take(i + 1).contains(id) by {
            let a = off.take(i as int);
            let b = off.take(i + 1);
            assert(has_key(before, id) == a.contains(id));
            assert(b =~= a.push(off[i as int]));
            if a.contains(id) {
                let j = choose|j: int| 0 <= j < a.len() && a[j] == id;
                assert(b[j] == id);
            }
            if id == off[i as int] {
                assert(b[i as int] == id);
            }
            if b.contains(id) {
                let j = choose|j: int| 0 <= j < b.len() && b[j] == id;
                if j < i {
                    assert(a[j] == id);
                }
            }
        }
        i += 1;
    }
    assert(off.take(i as int) =~= off);
    let entries = default_entries(models);
    let ghost al = aliases_of(models@);
    let mut k: usize = 0;
    while k < entries.len()
        invariant
            k <= entries@.len(),
            off == texts(cfg.disabled@),
            al == aliases_of(models@),
            entries@.len() == al.len(),
            forall|j: int|
                0 <= j < entries@.len() ==> (#[trigger] entries@[j]).0@ == al[j].0
                    && *entries@[j].1 == models@[al[j].1],
            forall|id: Seq<char>|
                #[trigger] has_key(out@, id) == (off.contains(id) || disabled_before(
                    off,
                    models@,
                    id,
                    k as int,
                )),
        decreases entries.len() - k,
    {
        let e = &entries[k];
        let ghost before = out@;
        let hit = holds_text(&cfg.disabled, e.1.path.as_str());
        if hit {
            let _ = out.len();
            proof {
                lemma_set_insert(out@, e.0@);
            }
            out.insert(e.0.clone(), ());
        }
        assert forall|id: Seq<char>|
            #[trigger] has_key(out@, id) == (off.contains(id) || disabled_before(
                off,
                models@,
                id,
                k + 1,
            )) by {
            assert(has_key(before, id) == (off.contains(id) || disabled_before(
                off,
                models@,
                id,
                k as int,
            )));
            if disabled_before(off, models@, id, k as int) {
                let j = choose|j: int|
                    0 <= j < k && j < al.len() && (#[trigger] al[j]).0 == id && off.contains(
                        models@[al[j].1].path@,
                    );
                assert(al[j].0 == id);
            }
            if hit && id == e.0@ {
                assert(al[k as int].0 == id);
            }
            if disabled_before(off, models@, id, k + 1) {
                let j = choose|j: int|
                    0 <= j < k + 1 && j < al.len() && (#[trigger] al[j]).0 == id && off.contains(
                        models@[al[j].1].path@,
                    );
                if j < k {
                    assert(al[j].0 == id);
                }
            }
        }
        k += 1;
    }
    assert forall|id: Seq<char>| #[trigger]
        has_key(out@, id) == is_disabled(off, models@, id) by {
        assert(disabled_before(off, models@, id, k as int) == exists|j: int|
            0 <= j < al.len() && (#[trigger] al[j]).0 == id && off.contains(
                models@[al[j].1].path@,
            ));
    }
    out
}

/// The app still knows the id: the preset has its section or the store its
/// measurement, and the user did not disable it.
pub open spec fn fleet_knows(
    sections: Seq<(Seq<char>, ())>,
    measured: Seq<(Seq<char>, crate::measurements::Measurement)>,
    disabled: Seq<Seq<char>>,
    models: Seq<ModelFile>,
    id: Seq<char>,
) -> bool {
    (has_key(sections, id) || has_key(measured, id)) && !is_disabled(disabled, models, id)
}

/// The sections of a preset that may not be readable.
pub open spec fn sections_in(preset: Option<Seq<char>>) -> Seq<(Seq<char>, ())> {
    match preset {
        Some(t) => sections_of(lines(t)),
        None => Seq::empty(),
    }
}

/// Every id the app still KNOWS — the positive-evidence set connector
/// removals require. Union of the preset's sections and the measurement
/// store's keys (cache-source models never pass through our preset), minus
/// what the user disabled (a disabled model SHOULD leave the agents'
/// configs). An unreadable preset contributes nothing — and because the union
/// covers it, absence of the file is no evidence that every model left the
/// fleet.
pub fn fleet_known_ids(
    cfg: &AppConfig,
    models: &[ModelFile],
    preset: Option<&str>,
    measurements: &Measurements,
) -> (r: TextSet)
    ensures
        forall|id: Seq<char>|
            #[trigger] has_key(r@, id) == fleet_knows(
                sections_in(opt_str(preset)),
                measurements@,
                texts(cfg.disabled@),
                models@,
                id,
            ),
{
    let mut known: TextSet = match preset {
        Some(t) => ids_in_preset(t),
        None => {
            let m = TextMap::new();
            assert(m@ =~= Seq::<(Seq<char>, ())>::empty());
            m
        },
    };
    let ghost sections = sections_in(opt_str(preset));
    let ghost all = measurements@;
    let mut i: usize = 0;
    assert(all.take(0) =~= Seq::empty());
    while i < measurements.len()
        invariant
            i <= all.len(),
            all == measurements@,
            forall|id: Seq<char>|
                #[trigger] has_key(known@, id) == (has_key(sections, id) || key_before(
                    all,
                    id,
                    i as int,
                )),
        decreases all.len() - i,
    {
        let _ = known.len();
        let ghost before = known@;
        proof {
            lemma_set_insert(before, all[i as int].0);
        }
        known.insert(measurements.key_at(i).clone(), ());
        assert forall|id: Seq<char>|
            #[trigger] has_key(known@, id) == (has_key(sections, id) || key_before(
                all,
                id,
                i + 1,
            )) by {
            assert(has_key(before, id) == (has_key(sections, id) || key_before(
                all,
                id,
                i as int,
            )));
            if id == all[i as int].0 {
                assert(all[i as int].0 == id);
            }
        }
        i += 1;
    }
    let off = disabled_ids(cfg, models);
    let ghost gone = off@;
    let ghost full = known@;
    let mut k: usize = 0;
    while k < off.len()
        invariant
            k <= gone.len(),
            gone == off@,
            forall|id: Seq<char>|
                #[trigger] has_key(known@, id) == (has_key(full, id) && !key_before(
                    gone,
                    id,
                    k as int,
                )),
        decreases gone.len() - k,
    {
        let _ = known.len();
        let ghost before = known@;
        proof {
            lemma_set_remove(before, gone[k as int].0);
        }
        let _ = known.remove(off.key_at(k).as_str());
        assert forall|id: Seq<char>|
            #[trigger] has_key(known@, id) == (has_key(full, id) && !key_before(
                gone,
                id,
                k + 1,
            )) by {
            assert(has_key(before, id) == (has_key(full, id) && !key_before(gone, id, k as int)));
            if id == gone[k as int].0 {
                assert(gone[k as int].0 == id);
            }
        }
        k += 1;
    }
    let _ = measurements.len();
    let _ = off.len();
    assert forall|id: Seq<char>|
        #[trigger] has_key(known@, id) == fleet_knows(
            sections,
            all,
            texts(cfg.disabled@),
            models@,
            id,
        ) by {
        lemma_has_key(all, id);
        lemma_has_key(gone, id);
        assert(has_key(full, id) == (has_key(sections, id) || key_before(all, id, all.len() as int)));
        assert(has_key(gone, id) == is_disabled(texts(cfg.disabled@), models@, id));
    }
    known
}

/// One of the first `n` keys.
pub open spec fn key_before<V>(s: Seq<(Seq<char>, V)>, id: Seq<char>, n: int) -> bool {
    exists|j: int| 0 <= j < n && j < s.len() && (#[trigger] s[j]).0 == id
}

// --------------------------------------------------------------------- the preset

/// The overrides that a file is served under: the user's, and the feature
/// keys that ride along behind them (a user override shouldn't silently strip
/// a model's vision half).
pub open spec fn with_features(ov: OverridesView, m: ModelFile) -> OverridesView {
    let vision = if m.mmproj is Some && !ov.no_mmproj && !has_pair(ov.extra, "mmproj"@) {
        ov.extra.push(("mmproj"@, (m.mmproj->0)@))
    } else {
        ov.extra
    };
    OverridesView {
        extra: if embeds(m.meta) && !has_pair(vision, "embedding"@) {
            vision.push(("embedding"@, "true"@))
        } else {
            vision
        },
        ..ov
    }
}

/// The overrides of the alias at place `k`.
pub open spec fn served_overrides(
    overrides: Seq<(Seq<char>, ModelOverrides)>,
    models: Seq<ModelFile>,
    k: int,
) -> OverridesView {
    with_features(
        crate::variants::overrides_of(overrides, aliases_of(models)[k].0),
        models[aliases_of(models)[k].1],
    )
}

/// The aliases among the first `n` that are not disabled.
pub open spec fn kept_aliases(disabled: Seq<Seq<char>>, models: Seq<ModelFile>, n: int) -> Seq<
    Seq<char>,
>
    decreases n,
{
    if n <= 0 {
        Seq::empty()
    } else {
        let sofar = kept_aliases(disabled, models, n - 1);
        if is_disabled(disabled, models, aliases_of(models)[n - 1].0) {
            sofar
        } else {
            sofar.push(aliases_of(models)[n - 1].0)
        }
    }
}

/// The sections of the aliases among the first `n` that are not disabled.
pub open spec fn kept_sections(
    disabled: Seq<Seq<char>>,
    overrides: Seq<(Seq<char>, ModelOverrides)>,
    models: Seq<ModelFile>,
    n: int,
) -> Seq<char>
    decreases n,
{
    if n <= 0 {
        Seq::empty()
    } else {
        let sofar = kept_sections(disabled, overrides, models, n - 1);
        let a = aliases_of(models)[n - 1];
        if is_disabled(disabled, models, a.0) {
            sofar
        } else {
            sofar + section(
                a.0,
                Some(models[a.1].path@),
                served_overrides(overrides, models, n - 1),
            )
        }
    }
}

/// The bare sections of the first `n` overrides whose ids are no aliases.
pub open spec fn other_sections(
    overrides: Seq<(Seq<char>, ModelOverrides)>,
    aliases: Seq<Seq<char>>,
    n: int,
) -> Seq<char>
    decreases n,
{
    if n <= 0 {
        Seq::empty()
    } else {
        let sofar = other_sections(overrides, aliases, n - 1);
        if aliases.contains(overrides[n - 1].0) {
            sofar
        } else {
            sofar + section(overrides[n - 1].0, None, overrides[n - 1].1@)
        }
    }
}

/// The preset that a configuration and a scan lead to. Disabled models leave
/// it — the router stops offering them. Overrides keyed to ids that aren't
/// preset aliases (cache models) become bare sections configuring those ids.
pub open spec fn preset_of(cfg: AppConfig, models: Seq<ModelFile>, slots: Seq<char>) -> Seq<char> {
    let off = texts(cfg.disabled@);
    let n = aliases_of(models).len() as int;
    preset_head(slots) + kept_sections(off, cfg.overrides@, models, n) + other_sections(
        cfg.overrides@,
        kept_aliases(off, models, n),
        cfg.overrides@.len() as int,
    )
}

fn add_features(ov: ModelOverrides, m: &ModelFile) -> (r: ModelOverrides)
    ensures
        r@ == with_features(ov@, *m),
{
    let ModelOverrides { cache_type_kv, ctx, extra, no_mmproj } = ov;
    let mut all = extra;
    if let Some(p) = &m.mmproj {
        if !no_mmproj && !holds_pair(&all, "mmproj") {
            let e = (copy_text("mmproj"), p.clone());
            proof {
                lemma_pairs_push(all@, e);
            }
            all.push(e);
        }
    }
    if is_embedding(&m.meta) && !holds_pair(&all, "embedding") {
        let e = (copy_text("embedding"), copy_text("true"));
        proof {
            lemma_pairs_push(all@, e);
        }
        all.push(e);
    }
    ModelOverrides { cache_type_kv, ctx, extra: all, no_mmproj }
}

/// The preset's entries that are not disabled, with their overrides, and
/// their aliases.
fn preset_entries<'a>(cfg: &AppConfig, models: &'a [ModelFile]) -> (r: (
    Vec<(String, &'a ModelFile, ModelOverrides)>,
    Vec<String>,
))
    ensures
        model_sections(r.0@) == kept_sections(
            texts(cfg.disabled@),
            cfg.overrides@,
            models@,
            aliases_of(models@).len() as int,
        ),
        texts(r.1@) == kept_aliases(
            texts(cfg.disabled@),
            models@,
            aliases_of(models@).len() as int,
        ),
        r.0@.len() == r.1@.len(),
{
    let ghost disabled = texts(cfg.disabled@);
    let ghost al = aliases_of(models@);
    let off = disabled_ids(cfg, models);
    let all = default_entries(models);
    let mut out: Vec<(String, &'a ModelFile, ModelOverrides)> = Vec::new();
    let mut names: Vec<String> = Vec::new();
    let mut i: usize = 0;
    assert(texts(names@) =~= Seq::<Seq<char>>::empty());
    while i < all.len()
        invariant
            i <= all@.len(),
            al == aliases_of(models@),
            disabled == texts(cfg.disabled@),
            all@.len() == al.len(),
            out@.len() == names@.len(),
            forall|j: int|
                0 <= j < all@.len() ==> (#[trigger] all@[j]).0@ == al[j].0 && *all@[j].1
                    == models@[al[j].1],
            forall|id: Seq<char>|
                #[trigger] has_key(off@, id) == is_disabled(disabled, models@, id),
            model_sections(out@) == kept_sections(
                disabled,
                cfg.overrides@,
                models@,
                i as int,
            ),
            texts(names@) == kept_aliases(disabled, models@, i as int),
        decreases all.len() - i,
    {
        let e = &all[i];
        assert(e.0@ == al[i as int].0 && *e.1 == models@[al[i as int].1]);
        assert(has_key(off@, e.0@) == is_disabled(disabled, models@, e.0@));
        if !off.contains_key(e.0.as_str()) {
            let ov = match cfg.overrides.get(e.0.as_str()) {
                Some(u) => u.copy(),
                None => Default::default(),
            };
            let ov = add_features(ov, e.1);
            let ghost before = out@;
            let new = (e.0.clone(), e.1, ov);
            out.push(new);
            assert(out@.drop_last() =~= before);
            assert(out@.last() == new);
            proof {
                lemma_texts_push(names@, e.0);
            }
            names.push(e.0.clone());
        }
        i += 1;
    }
    (out, names)
}

fn other_entries(cfg: &AppConfig, aliases: &[String]) -> (r: Vec<(String, ModelOverrides)>)
    ensures
        bare_sections(r@) == other_sections(
            cfg.overrides@,
            texts(aliases@),
            cfg.overrides@.len() as int,
        ),
{
    let mut out: Vec<(String, ModelOverrides)> = Vec::new();
    let ghost all = cfg.overrides@;
    let mut i: usize = 0;
    while i < cfg.overrides.len()
        invariant
            i <= all.len(),
            all == cfg.overrides@,
            bare_sections(out@) == other_sections(all, texts(aliases@), i as int),
        decreases all.len() - i,
    {
        let id = cfg.overrides.key_at(i);
        if !holds_text(aliases, id.as_str()) {
            let ghost before = out@;
            let new = (id.clone(), cfg.overrides.value_at(i).copy());
            out.push(new);
            assert(out@.drop_last() =~= before);
            assert(out@.last() == new);
        }
        i += 1;
    }
    out
}

/// (Re)generate the preset from a scan; returns its text and how many models
/// it lists. `slots` is the directory for slot snapshots.
pub fn write_preset(cfg: &AppConfig, models: &[ModelFile], slots: &str) -> (r: (String, usize))
    ensures
        r.0@ == preset_of(*cfg, models@, slots@),
        r.1 == kept_aliases(
            texts(cfg.disabled@),
            models@,
            aliases_of(models@).len() as int,
        ).len(),
{
    let (entries, names) = preset_entries(cfg, models);
    let extra = other_entries(cfg, &names);
    let text = render_preset(&entries, &extra, slots);
    assert(texts(names@).len() == names@.len());
    (text, entries.len())
}

// ------------------------------------------------------------------------ laws

proof fn lemma_kept(disabled: Seq<Seq<char>>, models: Seq<ModelFile>, n: int, id: Seq<char>)
    requires
        n <= aliases_of(models).len(),
    ensures
        kept_aliases(disabled, models, n).contains(id) <==> !is_disabled(disabled, models, id)
            && exists|k: int| 0 <= k < n && (#[trigger] aliases_of(models)[k]).0 == id,
    decreases n,
{
    let al = aliases_of(models);
    if n > 0 {
        lemma_kept(disabled, models, n - 1, id);
        let sofar = kept_aliases(disabled, models, n - 1);
        let out = kept_aliases(disabled, models, n);
        if out.contains(id) && !sofar.contains(id) {
            let j = choose|j: int| 0 <= j < out.len() && out[j] == id;
            if j < sofar.len() {
                assert(out[j] == sofar[j]);
            }
            assert(al[n - 1].0 == id);
        }
        if sofar.contains(id) {
            let j = choose|j: int| 0 <= j < sofar.len() && sofar[j] == id;
            assert(out[j] == id);
            let k = choose|k: int| 0 <= k < n - 1 && (#[trigger] al[k]).0 == id;
            assert(al[k].0 == id);
        }
        if !is_disabled(disabled, models, id) && al[n - 1].0 == id {
            assert(out[out.len() - 1] == id);
        }
    }
}

/// The preset lists an alias exactly where the user did not disable it, and a
/// disabled one is not among the ids that the fleet knows either.
pub proof fn disabled_models_leave_the_preset(
    cfg: AppConfig,
    models: Seq<ModelFile>,
    k: int,
    sections: Seq<(Seq<char>, ())>,
    measured: Seq<(Seq<char>, crate::measurements::Measurement)>,
)
    requires
        0 <= k < aliases_of(models).len(),
    ensures
        ({
            let off = texts(cfg.disabled@);
            let id = aliases_of(models)[k].0;
            let listed = kept_aliases(off, models, aliases_of(models).len() as int);
            &&& listed.contains(id) <==> !is_disabled(off, models, id)
            &&& off.contains(models[aliases_of(models)[k].1].path@) ==> !listed.contains(id)
                && !fleet_knows(sections, measured, off, models, id)
        }),
{
    let off = texts(cfg.disabled@);
    let id = aliases_of(models)[k].0;
    lemma_kept(off, models, aliases_of(models).len() as int, id);
    assert(aliases_of(models)[k].0 == id);
}

/// A user's override never strips a model's vision half unless it says so: a
/// file with a projector is served with one.
pub proof fn overrides_keep_the_vision_half(ov: OverridesView, m: ModelFile)
    requires
        m.mmproj is Some,
        !ov.no_mmproj,
    ensures
        has_pair(with_features(ov, m).extra, "mmproj"@),
{
    let out = with_features(ov, m).extra;
    if has_pair(ov.extra, "mmproj"@) {
        let i = choose|i: int| 0 <= i < ov.extra.len() && #[trigger] ov.extra[i].0 == "mmproj"@;
        assert(out[i].0 == "mmproj"@);
    } else {
        assert(out[ov.extra.len() as int].0 == "mmproj"@);
    }
}

proof fn lemma_older_from(c: Seq<Candidate>, s: Seq<int>, i: int, from: int)
    requires
        0 <= from <= s.len(),
    ensures
        from <= older_from(c, s, i, from) <= s.len(),
    decreases s.len() - from,
{
    if from < s.len() && build_or_zero(c[s[from]]) >= build_or_zero(c[i]) {
        lemma_older_from(c, s, i, from + 1);
    }
}

/// Where a candidate stands among the first `n`.
proof fn lemma_ordered_holds(c: Seq<Candidate>, n: int, j: int) -> (k: int)
    requires
        0 <= j < n,
    ensures
        0 <= k < newest_first(c, n).len(),
        newest_first(c, n)[k] == j,
    decreases n,
{
    let sofar = newest_first(c, n - 1);
    let at = older_from(c, sofar, n - 1, 0);
    lemma_older_from(c, sofar, n - 1, 0);
    if j == n - 1 {
        at
    } else {
        let k = lemma_ordered_holds(c, n - 1, j);
        if k < at {
            assert(newest_first(c, n)[k] == sofar[k]);
            k
        } else {
            assert(newest_first(c, n)[k + 1] == sofar[k]);
            k + 1
        }
    }
}

proof fn lemma_first_where(
    c: Seq<Candidate>,
    s: Seq<int>,
    managed: bool,
    must_see: bool,
    from: int,
    k: int,
)
    requires
        0 <= from <= k < s.len(),
        c[s[k]].managed == managed,
        must_see ==> c[s[k]].sees_devices,
    ensures
        first_where(c, s, managed, must_see, from) is Some,
    decreases k - from,
{
    if from < k {
        lemma_first_where(c, s, managed, must_see, from + 1, k);
    }
}

proof fn lemma_first_is(c: Seq<Candidate>, s: Seq<int>, managed: bool, must_see: bool, from: int)
    ensures
        match first_where(c, s, managed, must_see, from) {
            Some(i) => c[i].managed == managed && (must_see ==> c[i].sees_devices),
            None => true,
        },
    decreases s.len() - from,
{
    if 0 <= from < s.len() {
        lemma_first_is(c, s, managed, must_see, from + 1);
    }
}

/// Managed builds are offered, never forced: where the machine has another
/// install, that one is picked, and one that sees devices where there is one.
pub proof fn managed_builds_are_never_forced(c: Seq<Candidate>, j: int)
    requires
        0 <= j < c.len(),
        !c[j].managed,
    ensures
        picked(c) is Some,
        !c[picked(c)->0].managed,
        c[j].sees_devices ==> c[picked(c)->0].sees_devices,
{
    let s = newest_first(c, c.len() as int);
    let k = lemma_ordered_holds(c, c.len() as int, j);
    lemma_first_where(c, s, false, false, 0, k);
    lemma_first_is(c, s, false, false, 0);
    lemma_first_is(c, s, false, true, 0);
    if c[j].sees_devices {
        lemma_first_where(c, s, false, true, 0, k);
    }
}

/// The reports were made on the same devices: the same ids with the same
/// memory, whatever was free.
pub open spec fn same_devices(a: ScanReport, b: ScanReport) -> bool {
    &&& same_device_ids(a, b)
    &&& forall|i: int|
        0 <= i < a.devices@.len() ==> (#[trigger] a.devices@[i]).total_mib
            == b.devices@[i].total_mib
}

/// The reports name the same devices.
pub open spec fn same_device_ids(a: ScanReport, b: ScanReport) -> bool {
    &&& a.devices@.len() == b.devices@.len()
    &&& forall|i: int|
        0 <= i < a.devices@.len() ==> (#[trigger] a.devices@[i]).id@ == b.devices@[i].id@
}

/// The environment is the same where the build and the devices are, whatever
/// memory was free, whatever the devices are called, and whatever models and
/// other installs there are.
pub proof fn build_and_devices_make_the_environment(a: ScanReport, b: ScanReport)
    requires
        env_build_of(a) == env_build_of(b),
        same_devices(a, b),
    ensures
        env_text(a) == env_text(b),
        fnv_of(env_text(a)) == fnv_of(env_text(b)),
{
    let x = device_marks(device_views(a.devices@));
    let y = device_marks(device_views(b.devices@));
    assert forall|i: int| 0 <= i < x.len() implies x[i] == y[i] by {
        assert(a.devices@[i].id@ == b.devices@[i].id@);
        assert(a.devices@[i].total_mib == b.devices@[i].total_mib);
    }
    assert(x =~= y);
}

/// A number at the front of a text is told from what follows it.
proof fn lemma_number_first(x: nat, y: nat, p: Seq<char>, q: Seq<char>)
    requires
        dec(x) + p == dec(y) + q,
        p.len() > 0 && !is_digit(p[0]),
        q.len() > 0 && !is_digit(q[0]),
    ensures
        x == y,
        p == q,
{
    lemma_dec_parses(x);
    lemma_dec_parses(y);
    let (n, m) = (dec(x).len() as int, dec(y).len() as int);
    let t = dec(x) + p;
    assert(t[n] == p[0] && t[m] == q[0]);
    if n < m {
        assert(t[n] == dec(y)[n]);
    } else if m < n {
        assert(t[m] == dec(x)[m]);
    }
    assert(dec(x) =~= t.take(n) && dec(y) =~= t.take(n));
    assert(p =~= t.skip(n) && q =~= t.skip(n));
}

/// A number at the end of a text is told from what stands before it.
proof fn lemma_number_last(x: nat, y: nat, p: Seq<char>, q: Seq<char>)
    requires
        p + dec(x) == q + dec(y),
        p.len() > 0 && !is_digit(p.last()),
        q.len() > 0 && !is_digit(q.last()),
    ensures
        x == y,
        p == q,
{
    lemma_dec_parses(x);
    lemma_dec_parses(y);
    let (n, m) = (p.len() as int, q.len() as int);
    let t = p + dec(x);
    assert(t.len() == (q + dec(y)).len());
    assert(t[n - 1] == p.last() && t[m - 1] == q.last());
    if n < m {
        assert(t[m - 1] == dec(x)[m - 1 - n]);
    } else if m < n {
        assert(t[n - 1] == dec(y)[n - 1 - m]);
    }
    assert(p =~= t.take(n) && q =~= t.take(n));
    assert(dec(x) =~= t.skip(n) && dec(y) =~= t.skip(n));
}

/// Devices of the same ids whose marks read the same have the same memory.
proof fn lemma_marks(v: Seq<DeviceView>, w: Seq<DeviceView>)
    requires
        v.len() == w.len(),
        forall|i: int| 0 <= i < v.len() ==> (#[trigger] v[i]).id == w[i].id,
        join(device_marks(v), ","@) == join(device_marks(w), ","@),
    ensures
        forall|i: int| 0 <= i < v.len() ==> (#[trigger] v[i]).total_mib == w[i].total_mib,
    decreases v.len(),
{
    reveal_strlit(":");
    let (a, b) = (device_marks(v), device_marks(w));
    if v.len() > 0 {
        let k = v.len() - 1;
        assert(v[k].id == w[k].id);
        let (x, y) = (v[k].total_mib as nat, w[k].total_mib as nat);
        let (c, d) = (v.drop_last(), w.drop_last());
        assert(a.drop_last() =~= device_marks(c) && b.drop_last() =~= device_marks(d));
        let mark = v[k].id + ":"@;
        let (p, q) = if k == 0 {
            (mark, mark)
        } else {
            (join(device_marks(c), ","@) + ","@ + mark, join(device_marks(d), ","@) + ","@ + mark)
        };
        assert(p.last() == ':' && q.last() == ':');
        assert(join(a, ","@) =~= p + dec(x));
        assert(join(b, ","@) =~= q + dec(y));
        lemma_number_last(x, y, p, q);
        if k > 0 {
            let n = p.len() - mark.len() - ","@.len();
            assert(join(device_marks(c), ","@) =~= p.take(n));
            assert(join(device_marks(d), ","@) =~= q.take(n));
            assert forall|i: int| 0 <= i < c.len() implies (#[trigger] c[i]).id == d[i].id by {
                assert(v[i].id == w[i].id);
            }
            lemma_marks(c, d);
            assert forall|i: int| 0 <= i < v.len() implies (#[trigger] v[i]).total_mib
                == w[i].total_mib by {
                if i < k {
                    assert(c[i].total_mib == d[i].total_mib);
                }
            }
        }
    }
}

/// What is hashed differs where the build does, and where a device of the
/// same ids has other memory.
pub proof fn other_environments_read_otherwise(a: ScanReport, b: ScanReport)
    ensures
        counted_build(a) != counted_build(b) ==> env_text(a) != env_text(b),
        same_device_ids(a, b) && !same_devices(a, b) ==> env_text(a) != env_text(b),
{
    reveal_strlit("|");
    if env_text(a) == env_text(b) {
        let (v, w) = (device_views(a.devices@), device_views(b.devices@));
        let p = "|"@ + join(device_marks(v), ","@);
        let q = "|"@ + join(device_marks(w), ","@);
        let (x, y) = (counted_build(a) as nat, counted_build(b) as nat);
        let n = "b"@.len() as int;
        assert(dec(x) + p =~= env_text(a).skip(n));
        assert(dec(y) + q =~= env_text(b).skip(n));
        lemma_number_first(x, y, p, q);
        assert(join(device_marks(v), ","@) =~= p.skip(1));
        assert(join(device_marks(w), ","@) =~= q.skip(1));
        if same_device_ids(a, b) {
            assert forall|i: int| 0 <= i < v.len() implies (#[trigger] v[i]).id == w[i].id by {
                assert(a.devices@[i].id@ == b.devices@[i].id@);
            }
            lemma_marks(v, w);
            assert forall|i: int| 0 <= i < a.devices@.len() implies (
            #[trigger] a.devices@[i]).total_mib == b.devices@[i].total_mib by {
                assert(v[i].total_mib == w[i].total_mib);
            }
        }
    }
}

/// The states of two builds' marks.
proof fn lemma_builds_differ()
    ensures
        fnv_state("b10216"@.map_values(|c: char| c as u8)) != fnv_state(
            "b10360"@.map_values(|c: char| c as u8),
        ),
{
    reveal_strlit("b10216");
    reveal_strlit("b10360");
    assert(0xcbf2_9ce4_8422_2325u64 ^ 98u64 == 0xcbf2_9ce4_8422_2347
        && 0xaf63_df4c_8601_f1a5u64 ^ 49u64 == 0xaf63_df4c_8601_f194
        && 0x08a6_0307_b54d_7e7cu64 ^ 48u64 == 0x08a6_0307_b54d_7e4c
        && 0xff95_7219_12ad_9b24u64 ^ 50u64 == 0xff95_7219_12ad_9b16
        && 0xf88b_f69a_bcfe_8662u64 ^ 49u64 == 0xf88b_f69a_bcfe_8653
        && 0x545a_5bef_247e_3f09u64 ^ 54u64 == 0x545a_5bef_247e_3f3f
        && 0xff95_7219_12ad_9b24u64 ^ 51u64 == 0xff95_7219_12ad_9b17
        && 0xf88b_f79a_bcfe_8815u64 ^ 54u64 == 0xf88b_f79a_bcfe_8823
        && 0x545d_deef_2481_5379u64 ^ 48u64 == 0x545d_deef_2481_5349) by (bit_vector);
    lemma_fnv_push(Seq::<u8>::empty(), 98, 0xcbf2_9ce4_8422_2325, 0xcbf2_9ce4_8422_2347, 0xaf63_df4c_8601_f1a5);
    let p0 = Seq::<u8>::empty().push(98);
    lemma_fnv_push(p0, 49, 0xaf63_df4c_8601_f1a5, 0xaf63_df4c_8601_f194, 0x08a6_0307_b54d_7e7c);
    let p1 = p0.push(49);
    lemma_fnv_push(p1, 48, 0x08a6_0307_b54d_7e7c, 0x08a6_0307_b54d_7e4c, 0xff95_7219_12ad_9b24);
    let p2 = p1.push(48);
    lemma_fnv_push(p2, 50, 0xff95_7219_12ad_9b24, 0xff95_7219_12ad_9b16, 0xf88b_f69a_bcfe_8662);
    let a0 = p2.push(50);
    lemma_fnv_push(a0, 49, 0xf88b_f69a_bcfe_8662, 0xf88b_f69a_bcfe_8653, 0x545a_5bef_247e_3f09);
    let a1 = a0.push(49);
    lemma_fnv_push(a1, 54, 0x545a_5bef_247e_3f09, 0x545a_5bef_247e_3f3f, 0xd3c9_765b_0285_780d);
    let a2 = a1.push(54);
    lemma_fnv_push(p2, 51, 0xff95_7219_12ad_9b24, 0xff95_7219_12ad_9b17, 0xf88b_f79a_bcfe_8815);
    let b0 = p2.push(51);
    lemma_fnv_push(b0, 54, 0xf88b_f79a_bcfe_8815, 0xf88b_f79a_bcfe_8823, 0x545d_deef_2481_5379);
    let b1 = b0.push(54);
    lemma_fnv_push(b1, 48, 0x545d_deef_2481_5379, 0x545d_deef_2481_5349, 0xdcd5_195b_07c0_850b);
    let b2 = b1.push(48);
    assert("b10216"@.map_values(|c: char| c as u8) =~= a2);
    assert("b10360"@.map_values(|c: char| c as u8) =~= b2);
}

/// The states of two devices' marks behind the same build.
proof fn lemma_memories_differ()
    ensures
        fnv_state("b10216|CUDA0:24111"@.map_values(|c: char| c as u8)) != fnv_state(
            "b10216|CUDA0:48000"@.map_values(|c: char| c as u8),
        ),
{
    reveal_strlit("b10216|CUDA0:24111");
    reveal_strlit("b10216|CUDA0:48000");
    assert(0xcbf2_9ce4_8422_2325u64 ^ 98u64 == 0xcbf2_9ce4_8422_2347
        && 0xaf63_df4c_8601_f1a5u64 ^ 49u64 == 0xaf63_df4c_8601_f194
        && 0x08a6_0307_b54d_7e7cu64 ^ 48u64 == 0x08a6_0307_b54d_7e4c
        && 0xff95_7219_12ad_9b24u64 ^ 50u64 == 0xff95_7219_12ad_9b16
        && 0xf88b_f69a_bcfe_8662u64 ^ 49u64 == 0xf88b_f69a_bcfe_8653
        && 0x545a_5bef_247e_3f09u64 ^ 54u64 == 0x545a_5bef_247e_3f3f
        && 0xd3c9_765b_0285_780du64 ^ 124u64 == 0xd3c9_765b_0285_7871
        && 0x64cc_8da5_48cb_a803u64 ^ 67u64 == 0x64cc_8da5_48cb_a840
        && 0x133c_efda_b20e_e4c0u64 ^ 85u64 == 0x133c_efda_b20e_e495
        && 0xbf70_259c_8f4e_692fu64 ^ 68u64 == 0xbf70_259c_8f4e_696b
        && 0x99f9_5407_823d_20d1u64 ^ 65u64 == 0x99f9_5407_823d_2090
        && 0xdfca_58c2_4dde_54b0u64 ^ 48u64 == 0xdfca_58c2_4dde_5480
        && 0x2329_522a_50c9_9580u64 ^ 58u64 == 0x2329_522a_50c9_95ba
        && 0x88cc_57e7_4689_6b0eu64 ^ 50u64 == 0x88cc_57e7_4689_6b3c
        && 0xfca4_99fc_db81_36f4u64 ^ 52u64 == 0xfca4_99fc_db81_36c0
        && 0xcce8_68a8_fc90_0840u64 ^ 49u64 == 0xcce8_68a8_fc90_0871
        && 0xbef2_4825_28be_5803u64 ^ 49u64 == 0xbef2_4825_28be_5832
        && 0x3408_c924_3b6f_dcf6u64 ^ 49u64 == 0x3408_c924_3b6f_dcc7
        && 0x88cc_57e7_4689_6b0eu64 ^ 52u64 == 0x88cc_57e7_4689_6b3a
        && 0xfca4_97fc_db81_338eu64 ^ 56u64 == 0xfca4_97fc_db81_33b6
        && 0xcce1_f8a8_fc8a_de42u64 ^ 48u64 == 0xcce1_f8a8_fc8a_de72
        && 0xaed7_f925_1ff7_fbb6u64 ^ 48u64 == 0xaed7_f925_1ff7_fb86
        && 0x10f7_e015_5260_64b2u64 ^ 48u64 == 0x10f7_e015_5260_6482) by (bit_vector);
    lemma_fnv_push(Seq::<u8>::empty(), 98, 0xcbf2_9ce4_8422_2325, 0xcbf2_9ce4_8422_2347, 0xaf63_df4c_8601_f1a5);
    let p0 = Seq::<u8>::empty().push(98);
    lemma_fnv_push(p0, 49, 0xaf63_df4c_8601_f1a5, 0xaf63_df4c_8601_f194, 0x08a6_0307_b54d_7e7c);
    let p1 = p0.push(49);
    lemma_fnv_push(p1, 48, 0x08a6_0307_b54d_7e7c, 0x08a6_0307_b54d_7e4c, 0xff95_7219_12ad_9b24);
    let p2 = p1.push(48);
    lemma_fnv_push(p2, 50, 0xff95_7219_12ad_9b24, 0xff95_7219_12ad_9b16, 0xf88b_f69a_bcfe_8662);
    let p3 = p2.push(50);
    lemma_fnv_push(p3, 49, 0xf88b_f69a_bcfe_8662, 0xf88b_f69a_bcfe_8653, 0x545a_5bef_247e_3f09);
    let p4 = p3.push(49);
    lemma_fnv_push(p4, 54, 0x545a_5bef_247e_3f09, 0x545a_5bef_247e_3f3f, 0xd3c9_765b_0285_780d);
    let p5 = p4.push(54);
    lemma_fnv_push(p5, 124, 0xd3c9_765b_0285_780d, 0xd3c9_765b_0285_7871, 0x64cc_8da5_48cb_a803);
    let p6 = p5.push(124);
    lemma_fnv_push(p6, 67, 0x64cc_8da5_48cb_a803, 0x64cc_8da5_48cb_a840, 0x133c_efda_b20e_e4c0);
    let p7 = p6.push(67);
    lemma_fnv_push(p7, 85, 0x133c_efda_b20e_e4c0, 0x133c_efda_b20e_e495, 0xbf70_259c_8f4e_692f);
    let p8 = p7.push(85);
    lemma_fnv_push(p8, 68, 0xbf70_259c_8f4e_692f, 0xbf70_259c_8f4e_696b, 0x99f9_5407_823d_20d1);
    let p9 = p8.push(68);
    lemma_fnv_push(p9, 65, 0x99f9_5407_823d_20d1, 0x99f9_5407_823d_2090, 0xdfca_58c2_4dde_54b0);
    let p10 = p9.push(65);
    lemma_fnv_push(p10, 48, 0xdfca_58c2_4dde_54b0, 0xdfca_58c2_4dde_5480, 0x2329_522a_50c9_9580);
    let p11 = p10.push(48);
    lemma_fnv_push(p11, 58, 0x2329_522a_50c9_9580, 0x2329_522a_50c9_95ba, 0x88cc_57e7_4689_6b0e);
    let p12 = p11.push(58);
    lemma_fnv_push(p12, 50, 0x88cc_57e7_4689_6b0e, 0x88cc_57e7_4689_6b3c, 0xfca4_99fc_db81_36f4);
    let a0 = p12.push(50);
    lemma_fnv_push(a0, 52, 0xfca4_99fc_db81_36f4, 0xfca4_99fc_db81_36c0, 0xcce8_68a8_fc90_0840);
    let a1 = a0.push(52);
    lemma_fnv_push(a1, 49, 0xcce8_68a8_fc90_0840, 0xcce8_68a8_fc90_0871, 0xbef2_4825_28be_5803);
    let a2 = a1.push(49);
    lemma_fnv_push(a2, 49, 0xbef2_4825_28be_5803, 0xbef2_4825_28be_5832, 0x3408_c924_3b6f_dcf6);
    let a3 = a2.push(49);
    lemma_fnv_push(a3, 49, 0x3408_c924_3b6f_dcf6, 0x3408_c924_3b6f_dcc7, 0xdaca_8f90_ff14_2625);
    let a4 = a3.push(49);
    lemma_fnv_push(p12, 52, 0x88cc_57e7_4689_6b0e, 0x88cc_57e7_4689_6b3a, 0xfca4_97fc_db81_338e);
    let b0 = p12.push(52);
    lemma_fnv_push(b0, 56, 0xfca4_97fc_db81_338e, 0xfca4_97fc_db81_33b6, 0xcce1_f8a8_fc8a_de42);
    let b1 = b0.push(56);
    lemma_fnv_push(b1, 48, 0xcce1_f8a8_fc8a_de42, 0xcce1_f8a8_fc8a_de72, 0xaed7_f925_1ff7_fbb6);
    let b2 = b1.push(48);
    lemma_fnv_push(b2, 48, 0xaed7_f925_1ff7_fbb6, 0xaed7_f925_1ff7_fb86, 0x10f7_e015_5260_64b2);
    let b3 = b2.push(48);
    lemma_fnv_push(b3, 48, 0x10f7_e015_5260_64b2, 0x10f7_e015_5260_6482, 0x3596_463a_f9ca_c8e6);
    let b4 = b3.push(48);
    assert("b10216|CUDA0:24111"@.map_values(|c: char| c as u8) =~= a4);
    assert("b10216|CUDA0:48000"@.map_values(|c: char| c as u8) =~= b4);
}

/// The report of one device that is called CUDA0.
pub open spec fn lone_device(r: ScanReport, build: u64, total_mib: u64) -> bool {
    &&& env_build_of(r) == Some(build)
    &&& r.devices@.len() == 1
    &&& r.devices@[0].id@ == "CUDA0"@
    &&& r.devices@[0].total_mib == total_mib
}

proof fn lemma_lone_text(r: ScanReport, build: u64, total_mib: u64)
    requires
        lone_device(r, build, total_mib),
    ensures
        env_text(r) == "b"@ + dec(build as nat) + "|"@ + ("CUDA0"@ + ":"@ + dec(total_mib as nat)),
{
    let v = device_marks(device_views(r.devices@));
    assert(v[0] == device_mark(r.devices@[0]@));
}

/// A newer build, and a card with more memory, give the environment another
/// fingerprint.
pub proof fn builds_and_memories_are_told_apart(a: ScanReport, b: ScanReport, c: ScanReport)
    requires
        lone_device(a, 10216, 24111),
        lone_device(b, 10360, 24111),
        lone_device(c, 10216, 48000),
    ensures
        fnv_of(env_text(a)) != fnv_of(env_text(b)),
        fnv_of(env_text(a)) != fnv_of(env_text(c)),
{
    reveal_strlit("b");
    reveal_strlit("|");
    reveal_strlit("CUDA0");
    reveal_strlit(":");
    reveal_strlit("b10216");
    reveal_strlit("b10360");
    reveal_strlit("b10216|CUDA0:24111");
    reveal_strlit("b10216|CUDA0:48000");
    reveal_strlit("|CUDA0:24111");
    reveal_with_fuel(dec, 6);
    lemma_lone_text(a, 10216, 24111);
    lemma_lone_text(b, 10360, 24111);
    lemma_lone_text(c, 10216, 48000);
    let byte = |c: char| c as u8;
    let rest = "|CUDA0:24111"@;
    let (old_build, new_build) = ("b10216"@, "b10360"@);
    let (small, large) = ("b10216|CUDA0:24111"@, "b10216|CUDA0:48000"@);
    assert(dec(10216) =~= seq!['1', '0', '2', '1', '6']);
    assert(dec(10360) =~= seq!['1', '0', '3', '6', '0']);
    assert(dec(24111) =~= seq!['2', '4', '1', '1', '1']);
    assert(dec(48000) =~= seq!['4', '8', '0', '0', '0']);
    assert(env_text(a) =~= old_build + rest);
    assert(env_text(b) =~= new_build + rest);
    assert(env_text(a) =~= small);
    assert(env_text(c) =~= large);
    lemma_ascii_bytes(env_text(a));
    lemma_ascii_bytes(env_text(b));
    lemma_ascii_bytes(env_text(c));
    lemma_builds_differ();
    what_follows_undoes_nothing(
        old_build.map_values(byte),
        new_build.map_values(byte),
        rest.map_values(byte),
    );
    assert((old_build + rest).map_values(byte) =~= old_build.map_values(byte) + rest.map_values(
        byte,
    ));
    assert((new_build + rest).map_values(byte) =~= new_build.map_values(byte) + rest.map_values(
        byte,
    ));
    lemma_memories_differ();
    let none = Seq::<u8>::empty();
    what_follows_undoes_nothing(small.map_values(byte), large.map_values(byte), none);
    assert(small.map_values(byte) + none =~= small.map_values(byte));
    assert(large.map_values(byte) + none =~= large.map_values(byte));
}

/// The bytes of an ASCII text are its characters.
proof fn lemma_ascii_bytes(s: Seq<char>)
    requires
        vstd::utf8::is_ascii_chars(s),
    ensures
        vstd::utf8::encode_utf8(s) == s.map_values(|c: char| c as u8),
{
    vstd::utf8::is_ascii_chars_encode_utf8(s);
    assert(vstd::utf8::encode_utf8(s) =~= s.map_values(|c: char| c as u8));
}

/// Of the candidates that are the user's own, and see devices where one does, a newest is
/// picked; a managed one only where there is no other, and then a newest of those.
pub proof fn the_newest_fitting_build_is_picked(c: Seq<Candidate>, j: int)
    requires
        0 <= j < c.len(),
    ensures
        picked(c) is Some,
        0 <= picked(c)->0 < c.len(),
        ({
            let p = c[picked(c)->0];
            &&& !c[j].managed ==> !p.managed
            &&& !c[j].managed && c[j].sees_devices ==> p.sees_devices
            &&& c[j].managed == p.managed && (p.managed || c[j].sees_devices == p.sees_devices)
                ==> newest_of(c[j]) <= newest_of(p)
        }),
        ({
            let d = device_source_of(c);
            &&& c[j].sees_devices ==> d is Some && c[d->0].sees_devices
            &&& c[j].sees_devices && d is Some && c[d->0].managed == c[j].managed ==> newest_of(c[j])
                <= newest_of(c[d->0])
            &&& c[j].sees_devices && !c[j].managed ==> d is Some && !c[d->0].managed
        }),
{
    let n = c.len() as int;
    let s = newest_first(c, n);
    lemma_sorted_builds(c, n);
    assert(s.contains(j));
    let k = choose|k: int| 0 <= k < s.len() && s[k] == j;
    assert(s[k] == j);
    lemma_first_fitting(c, s, false, true, 0, k);
    lemma_first_fitting(c, s, false, false, 0, k);
    lemma_first_fitting(c, s, true, false, 0, k);
    lemma_first_fitting(c, s, true, true, 0, k);
}

/// A candidate's build; one that does not tell is the oldest.
pub open spec fn newest_of(c: Candidate) -> int {
    match c.build {
        Some(b) => b as int,
        None => 0,
    }
}

proof fn lemma_older_place(c: Seq<Candidate>, s: Seq<int>, i: int, from: int)
    requires
        0 <= from <= s.len(),
    ensures
        from <= older_from(c, s, i, from) <= s.len(),
        older_from(c, s, i, from) < s.len() ==> newest_of(c[s[older_from(c, s, i, from)]])
            < newest_of(c[i]),
        forall|k: int|
            from <= k < older_from(c, s, i, from) ==> newest_of(c[#[trigger] s[k]]) >= newest_of(c[i]),
    decreases s.len() - from,
{
    if from < s.len() && build_or_zero(c[s[from]]) >= build_or_zero(c[i]) {
        lemma_older_place(c, s, i, from + 1);
    }
}

proof fn lemma_sorted_builds(c: Seq<Candidate>, n: int)
    requires
        0 <= n <= c.len(),
    ensures
        newest_first(c, n).len() == n,
        forall|i: int| 0 <= i < n ==> 0 <= #[trigger] newest_first(c, n)[i] < n,
        forall|x: int| 0 <= x < n ==> #[trigger] newest_first(c, n).contains(x),
        forall|i: int, k: int|
            0 <= i < k < n ==> newest_of(c[#[trigger] newest_first(c, n)[i]]) >= newest_of(
                c[#[trigger] newest_first(c, n)[k]],
            ),
    decreases n,
{
    if n > 0 {
        lemma_sorted_builds(c, n - 1);
        let s = newest_first(c, n - 1);
        lemma_older_place(c, s, n - 1, 0);
        let p = older_from(c, s, n - 1, 0);
        let now = newest_first(c, n);
        assert(now == s.insert(p, n - 1));
        assert forall|x: int| 0 <= x < n implies #[trigger] now.contains(x) by {
            if x < n - 1 {
                assert(s.contains(x));
                let i = choose|i: int| 0 <= i < s.len() && s[i] == x;
                if i < p {
                    assert(now[i] == x);
                } else {
                    assert(now[i + 1] == x);
                }
            } else {
                assert(now[p] == x);
            }
        }
        assert forall|i: int, k: int| 0 <= i < k < n implies newest_of(c[#[trigger] now[i]])
            >= newest_of(c[#[trigger] now[k]]) by {
            let x = if i < p {
                i
            } else {
                i - 1
            };
            let y = if k < p {
                k
            } else {
                k - 1
            };
            if i != p && k != p {
                assert(now[i] == s[x] && now[k] == s[y]);
            } else if k == p {
                assert(now[i] == s[i]);
            } else {
                assert(now[k] == s[k - 1]);
                assert(newest_of(c[s[p]]) < newest_of(c[n - 1]));
                if k - 1 > p {
                    assert(newest_of(c[s[p]]) >= newest_of(c[s[k - 1]]));
                }
            }
        }
    }
}

proof fn lemma_first_fitting(
    c: Seq<Candidate>,
    s: Seq<int>,
    managed: bool,
    must_see: bool,
    from: int,
    k: int,
)
    requires
        0 <= from <= s.len(),
        forall|i: int| 0 <= i < s.len() ==> 0 <= #[trigger] s[i] < c.len(),
        forall|i: int, k: int|
            0 <= i < k < s.len() ==> newest_of(c[#[trigger] s[i]]) >= newest_of(c[#[trigger] s[k]]),
    ensures
        match first_where(c, s, managed, must_see, from) {
            Some(x) => {
                &&& 0 <= x < c.len()
                &&& c[x].managed == managed
                &&& must_see ==> c[x].sees_devices
                &&& from <= k < s.len() && c[s[k]].managed == managed && (must_see
                    ==> c[s[k]].sees_devices) ==> newest_of(c[s[k]]) <= newest_of(c[x])
            },
            None => from <= k < s.len() ==> !(c[s[k]].managed == managed && (must_see
                ==> c[s[k]].sees_devices)),
        },
    decreases s.len() - from,
{
    if from < s.len() {
        assert(0 <= s[from] < c.len());
        if !(c[s[from]].managed == managed && (must_see ==> c[s[from]].sees_devices)) {
            lemma_first_fitting(c, s, managed, must_see, from + 1, k);
        } else if from < k < s.len() {
            assert(newest_of(c[s[from]]) >= newest_of(c[s[k]]));
        }
    }
}

/// The second that a range begins at, where it names one.
pub open spec fn begins(range: Option<Seq<char>>, now: u64) -> Option<Option<u64>> {
    match range_of(range, now) {
        Some((_, t)) => Some(t),
        None => None,
    }
}

/// A day is told from its midnight, 24 hours and 7 days from as long ago, and all time from
/// no time at all; nothing else names a range.
pub proof fn a_range_begins_as_long_ago_as_it_says(now: u64, r: Seq<char>)
    ensures
        begins(None, now) == Some(None::<u64>),
        r == "today"@ ==> match begins(Some(r), now) {
            Some(Some(t)) => t <= now && t % 86_400 == 0 && now - t < 24 * 60 * 60,
            _ => false,
        },
        r == "24h"@ ==> match begins(Some(r), now) {
            Some(Some(t)) => if now >= 24 * 60 * 60 {
                now - t == 24 * 60 * 60
            } else {
                t == 0
            },
            _ => false,
        },
        r == "7d"@ ==> match begins(Some(r), now) {
            Some(Some(t)) => if now >= 7 * 24 * 60 * 60 {
                now - t == 7 * 24 * 60 * 60
            } else {
                t == 0
            },
            _ => false,
        },
        r != "today"@ && r != "24h"@ && r != "7d"@ ==> begins(Some(r), now) is None,
{
    reveal_strlit("today");
    reveal_strlit("24h");
    reveal_strlit("7d");
    assert("today"@.len() == 5 && "24h"@.len() == 3 && "7d"@.len() == 2);
}

/// A model that sees is served with its projector, and one that embeds as such, unless the
/// user said otherwise; whatever the user set stays as it is.
pub proof fn features_are_added_to_what_is_set(ov: OverridesView, m: ModelFile, k: int)
    ensures
        0 <= k < ov.extra.len() ==> with_features(ov, m).extra.contains(ov.extra[k]),
        with_features(ov, m).cache_type_kv == ov.cache_type_kv,
        with_features(ov, m).ctx == ov.ctx,
        m.mmproj is Some && !ov.no_mmproj && !has_pair(ov.extra, "mmproj"@) ==> with_features(
            ov,
            m,
        ).extra.contains(("mmproj"@, (m.mmproj->0)@)),
        m.mmproj is None && !embeds(m.meta) ==> with_features(ov, m).extra == ov.extra,
        ov.no_mmproj && !embeds(m.meta) ==> with_features(ov, m).extra == ov.extra,
{
    let w = with_features(ov, m).extra;
    if 0 <= k < ov.extra.len() {
        assert(w[k] == ov.extra[k]);
    }
    if m.mmproj is Some && !ov.no_mmproj && !has_pair(ov.extra, "mmproj"@) {
        assert(w[ov.extra.len() as int] == ("mmproj"@, (m.mmproj->0)@));
    }
}

/// Every file that is not disabled is served under its alias: its section, with its path and
/// its settings, stands in the preset.
pub proof fn every_enabled_file_is_in_the_preset(
    cfg: AppConfig,
    models: Seq<ModelFile>,
    slots: Seq<char>,
    k: int,
)
    requires
        0 <= k < aliases_of(models).len(),
        !is_disabled(texts(cfg.disabled@), models, aliases_of(models)[k].0),
    ensures
        crate::text::contains(
            preset_of(cfg, models, slots),
            section(
                aliases_of(models)[k].0,
                Some(models[aliases_of(models)[k].1].path@),
                served_overrides(cfg.overrides@, models, k),
            ),
        ),
{
    let off = texts(cfg.disabled@);
    let n = aliases_of(models).len() as int;
    let t = section(
        aliases_of(models)[k].0,
        Some(models[aliases_of(models)[k].1].path@),
        served_overrides(cfg.overrides@, models, k),
    );
    let (a, b) = lemma_section_kept(off, cfg.overrides@, models, n, k);
    let head = preset_head(slots);
    let rest = other_sections(
        cfg.overrides@,
        kept_aliases(off, models, n),
        cfg.overrides@.len() as int,
    );
    let p = preset_of(cfg, models, slots);
    assert(p =~= head + a + t + b + rest);
    let at = (head.len() + a.len()) as int;
    assert(p.subrange(at, at + t.len()) =~= t);
    assert(crate::text::occurs_at(p, t, at));
}

proof fn lemma_section_kept(
    off: Seq<Seq<char>>,
    overrides: Seq<(Seq<char>, ModelOverrides)>,
    models: Seq<ModelFile>,
    n: int,
    k: int,
) -> (r: (Seq<char>, Seq<char>))
    requires
        0 <= k < n <= aliases_of(models).len(),
        !is_disabled(off, models, aliases_of(models)[k].0),
    ensures
        kept_sections(off, overrides, models, n) == r.0 + section(
            aliases_of(models)[k].0,
            Some(models[aliases_of(models)[k].1].path@),
            served_overrides(overrides, models, k),
        ) + r.1,
    decreases n,
{
    let sofar = kept_sections(off, overrides, models, n - 1);
    let a = aliases_of(models)[n - 1];
    let t = section(
        aliases_of(models)[k].0,
        Some(models[aliases_of(models)[k].1].path@),
        served_overrides(overrides, models, k),
    );
    if k < n - 1 {
        let (x, y) = lemma_section_kept(off, overrides, models, n - 1, k);
        if is_disabled(off, models, a.0) {
            (x, y)
        } else {
            let more = section(
                a.0,
                Some(models[a.1].path@),
                served_overrides(overrides, models, n - 1),
            );
            assert(x + t + y + more =~= x + t + (y + more));
            (x, y + more)
        }
    } else {
        assert(sofar + t =~= sofar + t + Seq::<char>::empty());
        (sofar, Seq::empty())
    }
}

} // verus!
