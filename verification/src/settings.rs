//! Persisted app configuration. Every value has a working default so a
//! missing or partial config file never blocks startup — the file only
//! records what the user changed.
use crate::path::{
    components, components_of, join_of, join_path, with_extension, with_extension_of,
};
use crate::text::{chars_of, copy_text, opt_text, same_text, texts};
use crate::textmap::TextMap;
use vstd::prelude::*;
use vstd::string::*;

verus! {

/// What of the process's environment decides where files live.
#[derive(Debug, Clone)]
pub struct Env {
    /// The home directory, where there is one.
    pub home: Option<String>,
    /// `XDG_CONFIG_HOME`.
    pub config_home: Option<String>,
    /// `XDG_STATE_HOME`.
    pub state_home: Option<String>,
    /// `XDG_DATA_HOME`.
    pub data_home: Option<String>,
}

pub const APP_NAME: &'static str = "modelsteward";

/// The first place of `snap` among the components.
pub open spec fn snap_at(c: Seq<Seq<char>>, from: int) -> Option<int>
    decreases c.len() - from,
{
    if from < 0 || from >= c.len() {
        None
    } else if c[from] == "snap"@ {
        Some(from)
    } else {
        snap_at(c, from + 1)
    }
}

/// The path that components make.
pub open spec fn path_of(c: Seq<Seq<char>>) -> Seq<char>
    decreases c.len(),
{
    if c.len() == 0 {
        Seq::empty()
    } else {
        join_path(path_of(c.drop_last()), c.last())
    }
}

/// What stands before the redirect where `p` looks like a snap HOME redirect:
/// .../snap/<app>/<revision>[/...] — "snap" must be followed by at least two
/// components, so a user literally named snap (/home/snap) or a path like
/// /data/snap/scott is left alone.
pub open spec fn before_snap(p: Seq<char>) -> Option<Seq<char>> {
    let c = components(p);
    match snap_at(c, 0) {
        Some(i) => if c.len() >= i + 3 {
            Some(path_of(c.take(i)))
        } else {
            None
        },
        None => None,
    }
}

fn path_from(c: &[String], n: usize) -> (r: String)
    requires
        n <= c.len(),
    ensures
        r@ == path_of(texts(c@).take(n as int)),
{
    let mut out = String::new();
    let mut i: usize = 0;
    assert(out@ =~= path_of(texts(c@).take(0)));
    while i < n
        invariant
            i <= n <= c.len(),
            out@ == path_of(texts(c@).take(i as int)),
        decreases n - i,
    {
        assert(texts(c@).take(i + 1).drop_last() =~= texts(c@).take(i as int));
        assert(texts(c@).take(i + 1).last() == c@[i as int]@);
        out = join_of(out.as_str(), c[i].as_str());
        i += 1;
    }
    out
}

/// The path before a snap HOME redirect, where `p` is one.
pub fn strip_snap_redirect(p: &str) -> (r: Option<String>)
    ensures
        opt_text(r) == before_snap(p@),
{
    let c = components_of(p);
    let mut i: usize = 0;
    while i < c.len()
        invariant
            i <= c.len(),
            texts(c@) == components(p@),
            snap_at(texts(c@), 0) == snap_at(texts(c@), i as int),
        decreases c.len() - i,
    {
        assert(texts(c@)[i as int] == c@[i as int]@);
        if same_text(c[i].as_str(), "snap") {
            if c.len() - i >= 3 {
                return Some(path_from(&c, i));
            }
            return None;
        }
        i += 1;
    }
    None
}

/// The user's REAL home: what stands before a snap redirect, where there is
/// one; the working directory where there is no home.
pub open spec fn home_of(e: Env) -> Seq<char> {
    let home = match e.home {
        Some(h) => h@,
        None => "."@,
    };
    match before_snap(home) {
        Some(p) => p,
        None => home,
    }
}

/// The user's REAL home. Snap-packaged parents (VS Code's snap, most
/// commonly) redirect HOME into a per-REVISION dir like
/// /home/u/snap/code/258 — anything stored there is orphaned on the next
/// snap update. Strip the redirect.
pub fn real_home(e: &Env) -> (r: String)
    ensures
        r@ == home_of(*e),
{
    let home = match &e.home {
        Some(h) => h.clone(),
        None => ".".to_owned(),
    };
    match strip_snap_redirect(home.as_str()) {
        Some(p) => p,
        None => home,
    }
}

/// A variable's value counts where it is an absolute path that no snap
/// redirect made.
pub open spec fn counts(v: Option<String>) -> bool {
    match v {
        Some(p) => p@.len() > 0 && p@[0] == '/' && before_snap(p@) is None,
        None => false,
    }
}

/// The base directory that a variable names, or the fallback under the home.
pub open spec fn base_dir(v: Option<String>, e: Env, fallback: Seq<char>) -> Seq<char> {
    if counts(v) {
        v->0@
    } else {
        join_path(home_of(e), fallback)
    }
}

/// The base directory that a variable names: a set-but-empty or relative
/// value means unset, and a snap-redirected one never decides where data
/// lives.
pub fn xdg_base(v: &Option<String>, e: &Env, fallback_rel: &str) -> (r: String)
    ensures
        r@ == base_dir(*v, *e, fallback_rel@),
{
    if let Some(p) = v {
        let c = chars_of(p.as_str());
        if c.len() > 0 && c[0] == '/' && strip_snap_redirect(p.as_str()).is_none() {
            return p.clone();
        }
    }
    join_of(real_home(e).as_str(), fallback_rel)
}

/// The one resolver every persistent dir uses: this app's directory under
/// the base directory.
pub fn xdg_dir(v: &Option<String>, e: &Env, fallback_rel: &str) -> (r: String)
    ensures
        r@ == join_path(base_dir(*v, *e, fallback_rel@), APP_NAME@),
{
    join_of(xdg_base(v, e, fallback_rel).as_str(), APP_NAME)
}

/// A text that is an absolute path.
pub open spec fn is_absolute(p: Seq<char>) -> bool {
    p.len() > 0 && p[0] == '/'
}

/// Under an absolute home every persistent directory is absolute, whatever
/// the variable holds.
pub proof fn directories_are_absolute(v: Option<String>, e: Env, fallback: Seq<char>)
    requires
        is_absolute(home_of(e)),
    ensures
        is_absolute(base_dir(v, e, fallback)),
        is_absolute(join_path(base_dir(v, e, fallback), APP_NAME@)),
{
}

/// A variable that is empty, relative, or redirected into a snap never
/// decides where data lives: it is as if it were unset.
pub proof fn redirected_variables_never_decide(v: Option<String>, e: Env, fallback: Seq<char>)
    requires
        v matches Some(p) ==> !is_absolute(p@) || before_snap(p@) is Some,
    ensures
        base_dir(v, e, fallback) == base_dir(None, e, fallback),
{
}

/// Per-model knobs the app exposes; everything unset inherits `[*]` or
/// llama-server's own defaults (notably `--fit on` and `-ngl auto`).
#[derive(Debug, Clone, PartialEq)]
pub struct ModelOverrides {
    /// KV cache type; `None` inherits the global default (q8_0).
    pub cache_type_kv: Option<String>,
    /// Explicit context; `None` lets `--fit` decide (recommended).
    pub ctx: Option<u64>,
    /// Extra raw `key = value` INI lines for anything we don't model yet.
    pub extra: Vec<(String, String)>,
    /// Serve WITHOUT the vision projector even though one exists on disk:
    /// llama.cpp disables cache-reuse for multimodal serving, so text-only
    /// work pays a real prefill cost for unused vision. Off by default —
    /// vision serves when the file is there.
    pub no_mmproj: bool,
}

/// The views of a sequence of pairs of strings.
pub open spec fn pairs(v: Seq<(String, String)>) -> Seq<(Seq<char>, Seq<char>)> {
    Seq::new(v.len(), |i: int| (v[i].0@, v[i].1@))
}

pub broadcast proof fn lemma_pairs_push(v: Seq<(String, String)>, p: (String, String))
    ensures
        #[trigger] pairs(v.push(p)) == pairs(v).push((p.0@, p.1@)),
{
    assert(pairs(v.push(p)) =~= pairs(v).push((p.0@, p.1@)));
}

pub struct OverridesView {
    pub cache_type_kv: Option<Seq<char>>,
    pub ctx: Option<u64>,
    pub extra: Seq<(Seq<char>, Seq<char>)>,
    pub no_mmproj: bool,
}

impl View for ModelOverrides {
    type V = OverridesView;

    open spec fn view(&self) -> OverridesView {
        OverridesView {
            cache_type_kv: opt_text(self.cache_type_kv),
            ctx: self.ctx,
            extra: pairs(self.extra@),
            no_mmproj: self.no_mmproj,
        }
    }
}

/// Nothing overridden.
pub open spec fn no_overrides() -> OverridesView {
    OverridesView { cache_type_kv: None, ctx: None, extra: Seq::empty(), no_mmproj: false }
}

impl Default for ModelOverrides {
    fn default() -> (r: ModelOverrides)
        ensures
            r@ == no_overrides(),
    {
        let r = ModelOverrides {
            cache_type_kv: None,
            ctx: None,
            extra: Vec::new(),
            no_mmproj: false,
        };
        assert(pairs(r.extra@) =~= Seq::empty());
        r
    }
}

/// The same pairs once more.
pub fn copy_pairs(v: &[(String, String)]) -> (r: Vec<(String, String)>)
    ensures
        r@ == v@,
{
    let mut out: Vec<(String, String)> = Vec::new();
    let mut i: usize = 0;
    while i < v.len()
        invariant
            i <= v.len(),
            out@ == v@.take(i as int),
        decreases v.len() - i,
    {
        out.push((v[i].0.clone(), v[i].1.clone()));
        i += 1;
    }
    assert(v@.take(i as int) =~= v@);
    out
}

/// Some pair has the key `k`.
pub open spec fn has_pair(v: Seq<(Seq<char>, Seq<char>)>, k: Seq<char>) -> bool {
    exists|i: int| 0 <= i < v.len() && #[trigger] v[i].0 == k
}

pub fn holds_pair(v: &[(String, String)], k: &str) -> (r: bool)
    ensures
        r == has_pair(pairs(v@), k@),
{
    let mut i: usize = 0;
    while i < v.len()
        invariant
            i <= v.len(),
            forall|j: int| 0 <= j < i ==> #[trigger] pairs(v@)[j].0 != k@,
        decreases v.len() - i,
    {
        if same_text(v[i].0.as_str(), k) {
            assert(pairs(v@)[i as int].0 == k@);
            return true;
        }
        i += 1;
    }
    false
}

impl ModelOverrides {
    /// The same overrides once more.
    pub fn copy(&self) -> (r: ModelOverrides)
        ensures
            r@ == self@,
    {
        ModelOverrides {
            cache_type_kv: crate::text::copy_opt(&self.cache_type_kv),
            ctx: self.ctx,
            extra: copy_pairs(&self.extra),
            no_mmproj: self.no_mmproj,
        }
    }

    /// Whether nothing is overridden.
    pub fn is_default(&self) -> (r: bool)
        ensures
            r == (self@ == no_overrides()),
    {
        let r = self.cache_type_kv.is_none() && self.ctx.is_none() && self.extra.len() == 0
            && !self.no_mmproj;
        proof {
            if r {
                assert(self@.extra =~= Seq::empty());
            } else {
                assert(self@.extra.len() == self.extra@.len());
            }
        }
        r
    }
}

/// The app's configuration. Prices are in millionths of a dollar.
pub struct AppConfig {
    /// Shelf directories to scan for GGUFs (the Ollama store is found
    /// automatically and isn't listed here).
    pub scan_dirs: Vec<String>,
    /// Router port — also what opencode.json's baseURL is written with.
    pub port: u16,
    /// Explicit llama-server binary; `None` = auto-pick the newest install
    /// that can see the hardware.
    pub server_bin: Option<String>,
    /// Where the Ollama peer answers.
    pub ollama_port: u16,
    /// Router `--models-max`: how many models may be loaded at once.
    pub models_max: u32,
    /// Per-model preset overrides, keyed by router id (preset alias or
    /// cache id). Living HERE — not in router.ini — is what lets preset
    /// regeneration keep the user's tuning instead of flattening it.
    pub overrides: TextMap<ModelOverrides>,
    /// Extra llama.cpp checkouts the Build Advisor can analyze and rebuild.
    pub checkouts: Vec<String>,
    /// Pinned advisory answerer (`None` = auto: best measured quality,
    /// fastest within the tie).
    pub advisor_model: Option<String>,
    /// $/kWh for the Meter's measured-cost line — YOUR electricity price.
    pub kwh_price_usd: u64,
    /// $/Mtok OUTPUT price used by the Meter's cloud-comparison counter.
    pub cloud_price_per_mtok: u64,
    /// Models the user DISABLED: they stay visible in the Library — dimmed —
    /// but measure/bench/Lab/preset all skip them. Keys: file path, else
    /// router id.
    pub disabled: Vec<String>,
    /// When the daily freshness check finds a new release, BUILD and ARCHIVE
    /// it automatically — but never pin it. Default off.
    pub managed_auto_build: bool,
    /// Retention for archived managed builds: keep the newest N release
    /// archives, pruned after each successful build (0 = keep everything).
    pub archives_keep: u32,
}

/// The configuration is that of a user who changed nothing.
pub open spec fn is_default_config(c: AppConfig, e: Env) -> bool {
    &&& texts(c.scan_dirs@) == seq![join_path(home_of(e), "models"@)]
    &&& c.port == 8080
    &&& c.server_bin is None
    &&& c.ollama_port == 11434
    &&& c.models_max == 1
    &&& c.overrides@.len() == 0
    &&& c.checkouts@.len() == 0
    &&& c.advisor_model is None
    &&& c.kwh_price_usd == 150_000
    &&& c.cloud_price_per_mtok == 3_000_000
    &&& c.disabled@.len() == 0
    &&& !c.managed_auto_build
    &&& c.archives_keep == 5
}

impl AppConfig {
    /// The configuration of a user who changed nothing.
    pub fn defaults(e: &Env) -> (r: AppConfig)
        ensures
            is_default_config(r, *e),
    {
        let home = real_home(e);
        let scan_dirs: Vec<String> = vec![join_of(home.as_str(), "models")];
        assert(texts(scan_dirs@) =~= seq![join_path(home_of(*e), "models"@)]);
        AppConfig {
            scan_dirs,
            port: 8080,
            server_bin: None,
            ollama_port: 11434,
            models_max: 1,
            overrides: TextMap::new(),
            checkouts: Vec::new(),
            advisor_model: None,
            kwh_price_usd: 150_000,
            cloud_price_per_mtok: 3_000_000,
            disabled: Vec::new(),
            managed_auto_build: false,
            archives_keep: 5,
        }
    }

    /// Missing file = quiet defaults. UNPARSEABLE file = defaults plus the
    /// parse error, surfaced — a hand-edit's trailing comma must not silently
    /// reset everything.
    pub fn load_checked(read: Option<Result<AppConfig, String>>, e: &Env) -> (r: (
        AppConfig,
        Option<String>,
    ))
        ensures
            match read {
                None => is_default_config(r.0, *e) && r.1 is None,
                Some(Ok(c)) => r.0 == c && r.1 is None,
                Some(Err(why)) => is_default_config(r.0, *e) && opt_text(r.1) == Some(why@),
            },
    {
        match read {
            None => (AppConfig::defaults(e), None),
            Some(Ok(c)) => (c, None),
            Some(Err(why)) => (AppConfig::defaults(e), Some(why)),
        }
    }
}

/// What to say of a configuration that could not be parsed.
pub fn load_warning(path: &str, why: &str) -> (r: String)
    ensures
        r@ == path@ + " is unreadable ("@ + why@
            + ") — running with defaults; the file will be preserved as config.json.corrupt on the next save"@,
{
    let mut s = copy_text(path);
    s.append(" is unreadable (");
    s.append(why);
    s.append(
        ") — running with defaults; the file will be preserved as config.json.corrupt on the next save",
    );
    s
}

/// Where a save preserves what it would write over: an unparseable original
/// may hold settings that the defaults just replaced.
pub fn preserved_as(path: &str, original_parses: Option<bool>) -> (r: Option<String>)
    ensures
        opt_text(r) == match original_parses {
            Some(false) => Some(with_extension(path@, "json.corrupt"@)),
            _ => None,
        },
{
    match original_parses {
        Some(false) => Some(with_extension_of(path, "json.corrupt")),
        _ => None,
    }
}

/// A path under a snap's own directory is taken for what stands before it: `snap`, the
/// snap's name and its revision. With less behind it, it is no such path.
pub proof fn a_snap_redirects_its_home(
    p: Seq<char>,
    front: Seq<Seq<char>>,
    more: Seq<Seq<char>>,
)
    requires
        components(p) == front + seq!["snap"@] + more,
        !front.contains("snap"@),
    ensures
        more.len() >= 2 ==> before_snap(p) == Some(path_of(front)),
        more.len() < 2 ==> before_snap(p) is None,
{
    let c = components(p);
    let k = front.len() as int;
    assert forall|i: int| 0 <= i < k implies #[trigger] c[i] != "snap"@ by {
        assert(c[i] == front[i]);
        assert(front.contains(front[i]));
    }
    assert(c[k] == "snap"@);
    lemma_snap_at(c, 0, k);
    assert(c.take(k) =~= front);
}

proof fn lemma_snap_at(c: Seq<Seq<char>>, from: int, k: int)
    requires
        0 <= from <= k < c.len(),
        c[k] == "snap"@,
        forall|i: int| 0 <= i < k ==> #[trigger] c[i] != "snap"@,
    ensures
        snap_at(c, from) == Some(k),
    decreases k - from,
{
    if from < k {
        lemma_snap_at(c, from + 1, k);
    }
}

/// A path without a part called `snap` is nowhere redirected.
pub proof fn other_paths_stay(p: Seq<char>)
    requires
        !components(p).contains("snap"@),
    ensures
        before_snap(p) is None,
{
    lemma_no_snap(components(p), 0);
}

proof fn lemma_no_snap(c: Seq<Seq<char>>, from: int)
    requires
        0 <= from <= c.len(),
        !c.contains("snap"@),
    ensures
        snap_at(c, from) is None,
    decreases c.len() - from,
{
    if from < c.len() {
        assert(c.contains(c[from]));
        lemma_no_snap(c, from + 1);
    }
}

} // verus!
