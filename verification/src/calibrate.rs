//! Calibration: load each model once, record the context that it settled at,
//! and unload it.
//!
//! The decisions of a calibration run. The caller fetches, loads, probes,
//! waits and writes, and hands back what came of it.
use crate::json::{
    array, entry, get_in, json_views, member, member_of, number, object, pair_views, text, u64_in,
    u64_of_json, Json, JsonView,
};
use crate::measurements::{
    error_cause, fresh, merged, says_nothing, upsert_measurement, Measurement, Measurements,
};
use crate::num::{dec, dec_len, dec_text};
use crate::opencode::number_view;
use crate::preset::{urlencode, percent_coded, TextSet};
use crate::router::RouterModel;
use crate::text::{
    begins, chars_of, copy_opt, copy_text, lemma_texts_push, opt_text, same_text, starts_with,
    texts,
};
use crate::textmap::{has_key, lookup, put};
use vstd::prelude::*;
use vstd::string::*;

verus! {

// ------------------------------------------------------------------ settling a load

/// The first listed model with an id.
pub open spec fn listed_from(models: Seq<RouterModel>, id: Seq<char>, from: int) -> Option<int>
    decreases models.len() - from,
{
    if from < 0 || from >= models.len() {
        None
    } else if models[from].id@ == id {
        Some(from)
    } else {
        listed_from(models, id, from + 1)
    }
}

fn find_listed(models: &[RouterModel], id: &str) -> (r: Option<usize>)
    ensures
        match r {
            Some(i) => i < models.len() && listed_from(models@, id@, 0) == Some(i as int),
            None => listed_from(models@, id@, 0) is None,
        },
{
    let mut i: usize = 0;
    while i < models.len()
        invariant
            i <= models.len(),
            listed_from(models@, id@, 0) == listed_from(models@, id@, i as int),
        decreases models.len() - i,
    {
        if same_text(models[i].id.as_str(), id) {
            return Some(i);
        }
        i += 1;
    }
    None
}

/// A load is already underway or done.
pub open spec fn in_flight(status: Seq<char>) -> bool {
    status == "loaded"@ || status == "sleeping"@ || status == "loading"@ || status
        == "downloading"@ || status == "downloaded"@
}

/// Whether a load has to be asked for. A load request for a model that is
/// already loaded/loading is refused — "already underway", not a failure — so
/// it is only sent when the model is idle.
pub fn needs_load(models: &[RouterModel], model: &str) -> (r: bool)
    ensures
        r == match listed_from(models@, model@, 0) {
            Some(i) => !in_flight(models@[i].status@),
            None => true,
        },
{
    match find_listed(models, model) {
        Some(i) => {
            let s = models[i].status.as_str();
            !(same_text(s, "loaded") || same_text(s, "sleeping") || same_text(s, "loading")
                || same_text(s, "downloading") || same_text(s, "downloaded"))
        },
        None => true,
    }
}

/// How long a load may take, in milliseconds.
pub const LOAD_BUDGET_MS: u64 = 600_000;

/// What a poll of a load comes to.
#[derive(Debug, Clone, PartialEq)]
pub enum Poll {
    /// The model is loaded: read its properties.
    Ready,
    /// Poll again in a second, against this deadline.
    Wait { deadline_ms: u64 },
    /// The load failed.
    Failed(String),
    /// The load takes too long: unload the model, then fail.
    GiveUp(String),
}

/// A deadline one budget from now.
pub open spec fn deadline_from(now_ms: u64) -> u64 {
    if now_ms + LOAD_BUDGET_MS <= u64::MAX {
        (now_ms + LOAD_BUDGET_MS) as u64
    } else {
        u64::MAX
    }
}

pub fn load_deadline(now_ms: u64) -> (r: u64)
    ensures
        r == deadline_from(now_ms),
{
    now_ms.saturating_add(LOAD_BUDGET_MS)
}

/// One poll of a load. Models that are fetched download before they load, and
/// a 20GB pull can outlast any sane load budget, so the budget only starts
/// once the download is over.
pub fn poll_load(models: &[RouterModel], model: &str, now_ms: u64, deadline_ms: u64) -> (r: Poll)
    ensures
        match listed_from(models@, model@, 0) {
            None => r is Failed && r->Failed_0@ == model@
                + " vanished from /models during load"@,
            Some(i) => {
                let s = models@[i].status@;
                if s == "loaded"@ || s == "sleeping"@ {
                    r is Ready
                } else if starts_with(s, "failed"@) {
                    r is Failed && r->Failed_0@ == model@ + " did not load: "@ + s
                        + " (see router.log)"@
                } else if s == "downloading"@ || s == "downloaded"@ {
                    r == (Poll::Wait { deadline_ms: deadline_from(now_ms) })
                } else if now_ms > deadline_ms {
                    r is GiveUp && r->GiveUp_0@ == model@
                        + " still not loaded after 600s; gave up"@
                } else {
                    r == (Poll::Wait { deadline_ms })
                }
            },
        },
{
    let i = match find_listed(models, model) {
        Some(i) => i,
        None => {
            let mut s = copy_text(model);
            s.append(" vanished from /models during load");
            return Poll::Failed(s);
        },
    };
    let s = models[i].status.as_str();
    let c = chars_of(s);
    if same_text(s, "loaded") || same_text(s, "sleeping") {
        Poll::Ready
    } else if begins(&c, "failed") {
        let mut m = copy_text(model);
        m.append(" did not load: ");
        m.append(s);
        m.append(" (see router.log)");
        Poll::Failed(m)
    } else if same_text(s, "downloading") || same_text(s, "downloaded") {
        Poll::Wait { deadline_ms: load_deadline(now_ms) }
    } else if now_ms > deadline_ms {
        let mut m = copy_text(model);
        m.append(" still not loaded after 600s; gave up");
        Poll::GiveUp(m)
    } else {
        Poll::Wait { deadline_ms }
    }
}

/// Where the properties of a loaded model are read, without loading it.
pub fn props_url(port: u16, model: &str) -> (r: String)
    ensures
        r@ == "http://127.0.0.1:"@ + dec(port as nat) + "/props?model="@ + percent_coded(
            vstd::utf8::encode_utf8(model@),
        ) + "&autoload=false"@,
{
    let mut s = copy_text("http://127.0.0.1:");
    s.append(dec_text(port as u64).as_str());
    s.append("/props?model=");
    s.append(urlencode(model).as_str());
    s.append("&autoload=false");
    s
}

/// The context that a `/props` response reports.
pub open spec fn ctx_in(body: JsonView) -> Option<u64> {
    u64_of_json(member_of(member(body, "default_generation_settings"@), "n_ctx"@))
}

/// The settled context of a `/props` response.
pub fn settled_ctx(body: &Json, model: &str) -> (r: Result<u64, String>)
    ensures
        match ctx_in(body@) {
            Some(n) => r == Ok::<u64, String>(n),
            None => r is Err && r->Err_0@ == "no n_ctx in /props for "@ + model@,
        },
{
    match u64_in(get_in(body.get("default_generation_settings"), "n_ctx")) {
        Some(n) => Ok(n),
        None => {
            let mut s = copy_text("no n_ctx in /props for ");
            s.append(model);
            Err(s)
        },
    }
}

// ----------------------------------------------------------------- the tool probe

/// What a chat request holds that has the model call a tool once.
pub open spec fn probe_request_of(model: Seq<char>) -> JsonView {
    let parameters = JsonView::Object(
        seq![
            (
                "properties"@,
                JsonView::Object(
                    seq![
                        (
                            "city"@,
                            JsonView::Object(seq![("type"@, JsonView::Text("string"@))]),
                        ),
                    ],
                ),
            ),
            ("required"@, JsonView::Array(seq![JsonView::Text("city"@)])),
            ("type"@, JsonView::Text("object"@)),
        ],
    );
    let function = JsonView::Object(
        seq![
            ("description"@, JsonView::Text("Get current weather for a city"@)),
            ("name"@, JsonView::Text("get_weather"@)),
            ("parameters"@, parameters),
        ],
    );
    JsonView::Object(
        seq![
            ("max_tokens"@, number_view(2500)),
            (
                "messages"@,
                JsonView::Array(
                    seq![
                        JsonView::Object(
                            seq![
                                ("content"@, JsonView::Text(PROBE_QUESTION@)),
                                ("role"@, JsonView::Text("user"@)),
                            ],
                        ),
                    ],
                ),
            ),
            ("model"@, JsonView::Text(model)),
            ("temperature"@, number_view(0)),
            (
                "tools"@,
                JsonView::Array(
                    seq![
                        JsonView::Object(
                            seq![
                                ("function"@, function),
                                ("type"@, JsonView::Text("function"@)),
                            ],
                        ),
                    ],
                ),
            ),
        ],
    )
}

pub const PROBE_QUESTION: &'static str = "What is the weather in Paris right now? Use the get_weather tool to find out.";

fn one_object(k: &str, v: Json) -> (r: Json)
    ensures
        r@ == JsonView::Object(seq![(k@, v@)]),
{
    let e: Vec<(String, Json)> = vec![entry(k, v)];
    assert(pair_views(e@) =~= seq![(k@, v@)]);
    object(e)
}

fn two_object(k1: &str, v1: Json, k2: &str, v2: Json) -> (r: Json)
    ensures
        r@ == JsonView::Object(seq![(k1@, v1@), (k2@, v2@)]),
{
    let e: Vec<(String, Json)> = vec![entry(k1, v1), entry(k2, v2)];
    assert(pair_views(e@) =~= seq![(k1@, v1@), (k2@, v2@)]);
    object(e)
}

fn one_array(v: Json) -> (r: Json)
    ensures
        r@ == JsonView::Array(seq![v@]),
{
    let e: Vec<Json> = vec![v];
    assert(json_views(e@) =~= seq![v@]);
    array(e)
}

/// A chat request with a single tool and an instruction to use it. Thinking
/// models reason before calling, so the token budget is generous.
pub fn probe_request(model: &str) -> (r: Json)
    ensures
        r@ == probe_request_of(model@),
{
    let p: Vec<(String, Json)> = vec![
        entry("properties", one_object("city", one_object("type", text("string")))),
        entry("required", one_array(text("city"))),
        entry("type", text("object")),
    ];
    let ghost want = probe_request_of(model@)->Object_0;
    let parameters = object(p);
    let f: Vec<(String, Json)> = vec![
        entry("description", text("Get current weather for a city")),
        entry("name", text("get_weather")),
        entry("parameters", parameters),
    ];
    let function = object(f);
    assert(parameters@->Object_0 =~= pair_views(p@));
    let v: Vec<(String, Json)> = vec![
        entry("max_tokens", number(2500)),
        entry(
            "messages",
            one_array(two_object("content", text(PROBE_QUESTION), "role", text("user"))),
        ),
        entry("model", text(model)),
        entry("temperature", number(0)),
        entry("tools", one_array(two_object("function", function, "type", text("function")))),
    ];
    assert(pair_views(p@) =~= seq![
        (
            "properties"@,
            JsonView::Object(
                seq![("city"@, JsonView::Object(seq![("type"@, JsonView::Text("string"@))]))],
            ),
        ),
        ("required"@, JsonView::Array(seq![JsonView::Text("city"@)])),
        ("type"@, JsonView::Text("object"@)),
    ]);
    assert(pair_views(f@) =~= seq![
        ("description"@, JsonView::Text("Get current weather for a city"@)),
        ("name"@, JsonView::Text("get_weather"@)),
        ("parameters"@, parameters@),
    ]);
    assert(pair_views(v@) =~= want);
    object(v)
}

// ------------------------------------------------------------------------ the plan

/// Preset models AND the router's own cache downloads are servable through
/// the router; anything else (a source we don't know) is left alone.
pub open spec fn is_servable(m: RouterModel) -> bool {
    match m.source {
        Some(s) => s@ == "preset"@ || s@ == "cache"@,
        None => false,
    }
}

/// The models that a run measures, in the router's order.
pub open spec fn to_measure(models: Seq<RouterModel>, disabled: Seq<(Seq<char>, ())>) -> Seq<RouterModel>
    decreases models.len(),
{
    if models.len() == 0 {
        Seq::empty()
    } else {
        let before = to_measure(models.drop_last(), disabled);
        let m = models.last();
        if is_servable(m) && !has_key(disabled, m.id@) {
            before.push(m)
        } else {
            before
        }
    }
}

/// How many servable models are disabled.
pub open spec fn skipped_of(models: Seq<RouterModel>, disabled: Seq<(Seq<char>, ())>) -> nat
    decreases models.len(),
{
    if models.len() == 0 {
        0
    } else {
        let m = models.last();
        skipped_of(models.drop_last(), disabled) + if is_servable(m) && has_key(disabled, m.id@) {
            1nat
        } else {
            0nat
        }
    }
}

fn servable(m: &RouterModel) -> (r: bool)
    ensures
        r == is_servable(*m),
{
    match &m.source {
        Some(s) => same_text(s.as_str(), "preset") || same_text(s.as_str(), "cache"),
        None => false,
    }
}

fn copy_model(m: &RouterModel) -> (r: RouterModel)
    ensures
        r == *m,
{
    RouterModel {
        id: m.id.clone(),
        status: m.status.clone(),
        source: copy_opt(&m.source),
        args_fp: copy_opt(&m.args_fp),
    }
}

/// What a run measures, and what is said of what it does not. Disabled models
/// are never measured, wherever the router found them.
pub fn plan(models: &[RouterModel], disabled: &TextSet) -> (r: (
    Vec<String>,
    Result<Vec<RouterModel>, String>,
))
    ensures
        texts(r.0@) == if skipped_of(models@, disabled@) > 0 {
            seq!["skipping "@ + dec(skipped_of(models@, disabled@)) + " disabled model(s)"@]
        } else {
            Seq::empty()
        },
        match r.1 {
            Ok(v) => v@ == to_measure(models@, disabled@) && v@.len() > 0,
            Err(e) => to_measure(models@, disabled@).len() == 0 && e@
                == "router lists no preset or cache models to calibrate"@,
        },
{
    let ghost all = models@;
    let mut kept: Vec<RouterModel> = Vec::new();
    let mut skipped: usize = 0;
    let mut i: usize = 0;
    assert(all.take(0) =~= Seq::empty());
    while i < models.len()
        invariant
            i <= models.len(),
            all == models@,
            skipped <= i,
            kept@ == to_measure(all.take(i as int), disabled@),
            skipped == skipped_of(all.take(i as int), disabled@),
        decreases models.len() - i,
    {
        assert(all.take(i + 1).drop_last() =~= all.take(i as int));
        assert(all.take(i + 1).last() == all[i as int]);
        let m = &models[i];
        if servable(m) {
            if disabled.contains_key(m.id.as_str()) {
                skipped += 1;
            } else {
                kept.push(copy_model(m));
            }
        }
        i += 1;
    }
    assert(all.take(i as int) =~= all);
    let mut lines: Vec<String> = Vec::new();
    if skipped > 0 {
        let mut s = copy_text("skipping ");
        s.append(dec_len(skipped).as_str());
        s.append(" disabled model(s)");
        lines.push(s);
        assert(texts(lines@) =~= seq![s@]);
    } else {
        assert(texts(lines@) =~= Seq::empty());
    }
    if kept.len() == 0 {
        return (lines, Err(copy_text("router lists no preset or cache models to calibrate")));
    }
    (lines, Ok(kept))
}

// ------------------------------------------------------------------------- the run

/// A calibration run: what is to be measured, how far it is, and what is
/// stored. Incremental by default: models whose stored measurement is fresh
/// (same effective args, same build/devices) are skipped — including
/// remembered *failures*, so a model this build can't load doesn't re-fail on
/// every run. `force` re-measures everything.
#[derive(Debug)]
pub struct Run {
    pub models: Vec<RouterModel>,
    pub at: usize,
    pub env_fp: String,
    pub force: bool,
    /// Models without a chat side: their tool calls are not probed.
    pub no_tool_probe: TextSet,
    pub store: Measurements,
}

/// What the run does next.
#[derive(Debug, Clone)]
pub enum Next {
    /// Wait five seconds, then settle the model once more.
    Retry,
    /// Probe the loaded model's tool calls.
    Probe { n_ctx: u64 },
    /// See what else the router holds, and what its log says of the failure.
    LookAround { error: String },
    /// Store this, tell the history, unload the model and wait until it is
    /// gone.
    Record { measurement: Measurement },
    /// Leave the model as it is.
    Skip,
}

/// The measurement that the store has for a model is fresh.
pub open spec fn is_fresh_for(
    store: Seq<(Seq<char>, Measurement)>,
    m: RouterModel,
    env_fp: Seq<char>,
) -> bool {
    match lookup(store, m.id@) {
        Some(s) => fresh(s, error_cause(s), opt_text(m.args_fp), env_fp),
        None => false,
    }
}

/// The first model from `from` on that has to be measured, or the end.
pub open spec fn due_from(
    models: Seq<RouterModel>,
    store: Seq<(Seq<char>, Measurement)>,
    env_fp: Seq<char>,
    force: bool,
    from: int,
) -> int
    decreases models.len() - from,
{
    if from < 0 || from >= models.len() {
        models.len() as int
    } else if !force && is_fresh_for(store, models[from], env_fp) {
        due_from(models, store, env_fp, force, from + 1)
    } else {
        from
    }
}

/// `[n/total] `
pub open spec fn tag(n: int, total: nat) -> Seq<char> {
    "["@ + dec(n as nat) + "/"@ + dec(total) + "] "@
}

/// What is said of a model whose measurement is fresh.
pub open spec fn fresh_line(n: int, total: nat, id: Seq<char>, m: Measurement) -> Seq<char> {
    tag(n, total) + id + " — fresh ("@ + (match m.n_ctx {
        Some(c) => "ctx "@ + dec(c as nat),
        None => "known load failure"@,
    }) + "), skipping"@
}

/// What is said of the fresh models from `from` on and before `to`.
pub open spec fn fresh_lines(
    models: Seq<RouterModel>,
    store: Seq<(Seq<char>, Measurement)>,
    from: int,
    to: int,
) -> Seq<Seq<char>>
    decreases to - from,
{
    if from >= to {
        Seq::empty()
    } else {
        fresh_lines(models, store, from, to - 1).push(
            fresh_line(to, models.len(), models[to - 1].id@, lookup(store, models[to - 1].id@)->0),
        )
    }
}

/// `[n/total] `
pub fn push_tag(n: usize, total: usize) -> (r: String)
    ensures
        r@ == tag(n as int, total as nat),
{
    let mut s = copy_text("[");
    s.append(dec_len(n).as_str());
    s.append("/");
    s.append(dec_len(total).as_str());
    s.append("] ");
    s
}

fn say_fresh(n: usize, total: usize, id: &str, m: &Measurement) -> (r: String)
    ensures
        r@ == fresh_line(n as int, total as nat, id@, *m),
{
    let mut s = push_tag(n, total);
    s.append(id);
    s.append(" — fresh (");
    match m.n_ctx {
        Some(c) => {
            let mut what = copy_text("ctx ");
            what.append(dec_text(c).as_str());
            s.append(what.as_str());
        },
        None => {
            s.append("known load failure");
        },
    }
    s.append("), skipping");
    s
}

/// A measurement of a model under its launch arguments and an environment.
pub open spec fn stamped(
    m: Measurement,
    n_ctx: Option<u64>,
    tool_call: Option<bool>,
    error: Option<Seq<char>>,
    args_fp: Option<String>,
    env_fp: Seq<char>,
) -> bool {
    &&& m.n_ctx == n_ctx
    &&& m.tool_call == tool_call
    &&& opt_text(m.error) == error
    &&& m.args_fp == args_fp
    &&& opt_text(m.env_fp) == Some(env_fp)
    &&& says_nothing(
        Measurement { n_ctx: None, tool_call: None, error: None, args_fp: None, env_fp: None, ..m },
    )
}

impl Run {
    /// The run stands at a model.
    pub open spec fn running(self) -> bool {
        self.at < self.models@.len()
    }

    /// The model that the run stands at.
    pub open spec fn current(self) -> RouterModel {
        self.models@[self.at as int]
    }

    /// The tag of the model that the run stands at.
    pub open spec fn label(self) -> Seq<char> {
        tag(self.at + 1, self.models@.len()) + self.current().id@
    }

    /// Starts a run over the models that are to be measured.
    pub fn begin(
        models: Vec<RouterModel>,
        env_fp: &str,
        force: bool,
        no_tool_probe: TextSet,
        store: Measurements,
    ) -> (r: Run)
        ensures
            r.models == models,
            r.at == 0,
            r.env_fp@ == env_fp@,
            r.force == force,
            r.no_tool_probe == no_tool_probe,
            r.store == store,
    {
        Run { models, at: 0, env_fp: copy_text(env_fp), force, no_tool_probe, store }
    }

    fn stamp(&self, n_ctx: Option<u64>, tool_call: Option<bool>, error: Option<String>) -> (r:
        Measurement)
        requires
            self.running(),
        ensures
            stamped(
                r,
                n_ctx,
                tool_call,
                opt_text(error),
                self.current().args_fp,
                self.env_fp@,
            ),
    {
        let mut m = Measurement::default();
        m.n_ctx = n_ctx;
        m.tool_call = tool_call;
        m.error = error;
        m.args_fp = copy_opt(&self.models[self.at].args_fp);
        m.env_fp = Some(self.env_fp.clone());
        m
    }

    fn say(&self, what: &str) -> (r: String)
        requires
            self.running(),
        ensures
            r@ == self.label() + what@,
    {
        let total = self.models.len();
        let mut s = push_tag(self.at + 1, total);
        s.append(self.models[self.at].id.as_str());
        s.append(what);
        s
    }

    /// Goes on to the next model that has to be measured, and says so; gives
    /// what is said, and whether there is one.
    pub fn advance(&mut self) -> (r: (Vec<String>, bool))
        requires
            old(self).at <= old(self).models@.len(),
        ensures
            ({
                let to = due_from(
                    old(self).models@,
                    old(self).store@,
                    old(self).env_fp@,
                    old(self).force,
                    old(self).at as int,
                );
                &&& final(self).at as int == to
                &&& *final(self) == (Run { at: final(self).at, ..*old(self) })
                &&& r.1 == (to < old(self).models@.len())
                &&& texts(r.0@) == fresh_lines(
                    old(self).models@,
                    old(self).store@,
                    old(self).at as int,
                    to,
                ) + if r.1 {
                    seq![
                        tag(to + 1, old(self).models@.len()) + "measuring "@ + old(
                            self,
                        ).models@[to].id@ + " (loads the model)…"@,
                    ]
                } else {
                    Seq::empty()
                }
            }),
    {
        let ghost start = *self;
        let mut lines: Vec<String> = Vec::new();
        assert(texts(lines@) =~= Seq::empty());
        while self.at < self.models.len()
            invariant
                start == *old(self),
                start.at <= self.at <= self.models@.len(),
                *self == (Run { at: self.at, ..start }),
                due_from(
                    start.models@,
                    start.store@,
                    start.env_fp@,
                    start.force,
                    start.at as int,
                ) == due_from(
                    start.models@,
                    start.store@,
                    start.env_fp@,
                    start.force,
                    self.at as int,
                ),
                texts(lines@) == fresh_lines(
                    start.models@,
                    start.store@,
                    start.at as int,
                    self.at as int,
                ),
            decreases self.models@.len() - self.at,
        {
            let n = self.at + 1;
            let total = self.models.len();
            let m = &self.models[self.at];
            let stored = match self.store.get(m.id.as_str()) {
                Some(s) => {
                    let args = match &m.args_fp {
                        Some(a) => Some(a.as_str()),
                        None => None,
                    };
                    if !self.force && s.is_fresh(args, self.env_fp.as_str()) {
                        Some(say_fresh(n, total, m.id.as_str(), s))
                    } else {
                        None
                    }
                },
                None => None,
            };
            match stored {
                Some(line) => {
                    let ghost before = lines@;
                    lines.push(line);
                    proof {
                        lemma_texts_push(before, line);
                    }
                    self.at = n;
                },
                None => {
                    let mut s = push_tag(n, total);
                    s.append("measuring ");
                    s.append(m.id.as_str());
                    s.append(" (loads the model)…");
                    let ghost before = lines@;
                    lines.push(s);
                    proof {
                        lemma_texts_push(before, s);
                    }
                    assert(texts(lines@) =~= texts(before) + seq![s@]);
                    return (lines, true);
                },
            }
        }
        assert(texts(lines@) + Seq::<Seq<char>>::empty() =~= texts(lines@));
        (lines, false)
    }

    /// What follows a load, the first or the second of a model. A first
    /// failure gets one retry after a settle: unloads are async, so a load can
    /// race a predecessor still releasing VRAM and fail. While it's loaded,
    /// tool-calling is measured too.
    pub fn settled(&self, retried: bool, result: Result<u64, String>) -> (r: (Vec<String>, Next))
        requires
            self.running(),
        ensures
            match result {
                Err(e) => if retried {
                    &&& r.0@.len() == 0
                    &&& r.1 is LookAround
                    &&& r.1->error@ == "retry also failed: "@ + e@
                } else {
                    &&& texts(r.0@) == seq![
                        self.label() + " failed once ("@ + e@
                            + "); settling 5s and retrying…"@,
                    ]
                    &&& r.1 is Retry
                },
                Ok(n_ctx) => if has_key(self.no_tool_probe@, self.current().id@) {
                    &&& texts(r.0@) == seq![
                        self.label() + ": ctx "@ + dec(n_ctx as nat)
                            + "; embedding model — tool probe skipped"@,
                    ]
                    &&& r.1 is Record
                    &&& stamped(
                        r.1->measurement,
                        Some(n_ctx),
                        Some(false),
                        None,
                        self.current().args_fp,
                        self.env_fp@,
                    )
                } else {
                    &&& texts(r.0@) == seq![
                        self.label() + ": ctx "@ + dec(n_ctx as nat)
                            + "; probing tool calls…"@,
                    ]
                    &&& r.1 == (Next::Probe { n_ctx })
                },
            },
    {
        match result {
            Err(e) => {
                if retried {
                    let mut s = copy_text("retry also failed: ");
                    s.append(e.as_str());
                    return (Vec::new(), Next::LookAround { error: s });
                }
                let mut s = self.say(" failed once (");
                s.append(e.as_str());
                s.append("); settling 5s and retrying…");
                let lines: Vec<String> = vec![s];
                assert(texts(lines@) =~= seq![s@]);
                (lines, Next::Retry)
            },
            Ok(n_ctx) => {
                let mut s = self.say(": ctx ");
                s.append(dec_text(n_ctx).as_str());
                if self.no_tool_probe.contains_key(self.models[self.at].id.as_str()) {
                    s.append("; embedding model — tool probe skipped");
                    let lines: Vec<String> = vec![s];
                    assert(texts(lines@) =~= seq![s@]);
                    let measurement = self.stamp(Some(n_ctx), Some(false), None);
                    (lines, Next::Record { measurement })
                } else {
                    s.append("; probing tool calls…");
                    let lines: Vec<String> = vec![s];
                    assert(texts(lines@) =~= seq![s@]);
                    (lines, Next::Probe { n_ctx })
                }
            },
        }
    }

    /// What follows a tool probe: an answer without a usable call is a real
    /// measurement; trouble on the way is inconclusive.
    pub fn probed(&self, n_ctx: u64, result: Result<bool, String>) -> (r: (String, Measurement))
        requires
            self.running(),
        ensures
            r.0@ == match result {
                Ok(v) => self.label() + ": tool calls "@ + (if v {
                    "work"@
                } else {
                    "NOT produced"@
                }),
                Err(e) => self.label() + ": tool probe inconclusive: "@ + e@,
            },
            stamped(
                r.1,
                Some(n_ctx),
                match result {
                    Ok(v) => Some(v),
                    Err(_) => None,
                },
                None,
                self.current().args_fp,
                self.env_fp@,
            ),
    {
        match result {
            Ok(v) => {
                let mut s = self.say(": tool calls ");
                if v {
                    s.append("work");
                } else {
                    s.append("NOT produced");
                }
                (s, self.stamp(Some(n_ctx), Some(v), None))
            },
            Err(e) => {
                let mut s = self.say(": tool probe inconclusive: ");
                s.append(e.as_str());
                (s, self.stamp(Some(n_ctx), None, None))
            },
        }
    }

    /// What follows a load that failed twice. Another session's model on the
    /// server means the failure is contention, not a property of THIS model —
    /// it is skipped without recording so the row never goes red over it.
    pub fn failed(&self, error: &str, busy_with: Option<String>, mined: Option<String>) -> (r: (
        String,
        Next,
    ))
        requires
            self.running(),
        ensures
            match busy_with {
                Some(other) => {
                    &&& r.0@ == self.label() + ": skipped — server busy with "@ + other@
                        + " (another session?); re-measure when idle"@
                    &&& r.1 is Skip
                },
                None => {
                    let detail = match mined {
                        Some(cause) => error@ + " — "@ + cause@,
                        None => error@,
                    };
                    &&& r.0@ == self.label() + " failed: "@ + detail
                    &&& r.1 is Record
                    &&& stamped(
                        r.1->measurement,
                        None,
                        None,
                        Some(detail),
                        self.current().args_fp,
                        self.env_fp@,
                    )
                },
            },
    {
        match busy_with {
            Some(other) => {
                let mut s = self.say(": skipped — server busy with ");
                s.append(other.as_str());
                s.append(" (another session?); re-measure when idle");
                (s, Next::Skip)
            },
            None => {
                let mut detail = copy_text(error);
                if let Some(cause) = &mined {
                    detail.append(" — ");
                    detail.append(cause.as_str());
                }
                let mut s = self.say(" failed: ");
                s.append(detail.as_str());
                let measurement = self.stamp(None, None, Some(detail));
                (s, Next::Record { measurement })
            },
        }
    }

    /// Stores a measurement of the model that the run stands at, and goes on.
    pub fn record(&mut self, m: Measurement)
        requires
            old(self).running(),
        ensures
            final(self).store@ == put(
                old(self).store@,
                old(self).current().id@,
                merged(old(self).store@, old(self).current().id@, m),
            ),
            final(self).at == old(self).at + 1,
            final(self).models == old(self).models,
            final(self).env_fp == old(self).env_fp,
            final(self).force == old(self).force,
            final(self).no_tool_probe == old(self).no_tool_probe,
    {
        let id = self.models[self.at].id.clone();
        upsert_measurement(&mut self.store, id.as_str(), m);
        let total = self.models.len();
        assert(self.at < total);
        self.at = self.at + 1;
    }

    /// Goes on without storing anything.
    pub fn skip(&mut self)
        requires
            old(self).running(),
        ensures
            *final(self) == (Run { at: final(self).at, ..*old(self) }),
            final(self).at == old(self).at + 1,
    {
        let total = self.models.len();
        assert(self.at < total);
        self.at = self.at + 1;
    }
}

// ------------------------------------------------------------------------- laws

/// A disabled model is never measured, nor one that the router has from a
/// source that is not known.
pub proof fn only_enabled_servable_models_are_measured(
    models: Seq<RouterModel>,
    disabled: Seq<(Seq<char>, ())>,
    k: int,
)
    requires
        0 <= k < to_measure(models, disabled).len(),
    ensures
        is_servable(to_measure(models, disabled)[k]),
        !has_key(disabled, to_measure(models, disabled)[k].id@),
    decreases models.len(),
{
    if k < to_measure(models.drop_last(), disabled).len() {
        only_enabled_servable_models_are_measured(models.drop_last(), disabled, k);
    }
}

/// A forced run skips nothing.
pub proof fn a_forced_run_measures_everything(
    models: Seq<RouterModel>,
    store: Seq<(Seq<char>, Measurement)>,
    env_fp: Seq<char>,
    from: int,
)
    requires
        0 <= from < models.len(),
    ensures
        due_from(models, store, env_fp, true, from) == from,
{
}

/// What a run passes over was measured under exactly the present arguments
/// and environment.
pub proof fn only_fresh_models_are_passed_over(
    models: Seq<RouterModel>,
    store: Seq<(Seq<char>, Measurement)>,
    env_fp: Seq<char>,
    force: bool,
    from: int,
    k: int,
)
    requires
        0 <= from <= k < due_from(models, store, env_fp, force, from),
    ensures
        !force,
        is_fresh_for(store, models[k], env_fp),
    decreases models.len() - from,
{
    if from < k {
        only_fresh_models_are_passed_over(models, store, env_fp, force, from + 1, k);
    }
}

/// Once a success with a tool verdict, or a failure that is no transient one,
/// is recorded, a run under the same environment passes the model over.
pub proof fn a_recorded_measurement_is_fresh(
    store: Seq<(Seq<char>, Measurement)>,
    model: RouterModel,
    env_fp: Seq<char>,
    m: Measurement,
)
    requires
        crate::textmap::sorted(store),
        stamped(m, m.n_ctx, m.tool_call, opt_text(m.error), model.args_fp, env_fp),
        model.args_fp is Some,
        m.error is Some || (m.n_ctx is Some && m.tool_call is Some),
        error_cause(m) != Some(crate::diagnose::Cause::ServerBusy),
    ensures
        is_fresh_for(put(store, model.id@, merged(store, model.id@, m)), model, env_fp),
{
    let stored = merged(store, model.id@, m);
    crate::textmap::put_then_lookup(store, model.id@, stored, model.id@);
}

/// Every model from the preset or from the cache is measured, unless it is disabled; each
/// of them is either measured or counted as skipped.
pub proof fn every_enabled_servable_model_is_measured(
    models: Seq<RouterModel>,
    disabled: Seq<(Seq<char>, ())>,
    i: int,
)
    requires
        0 <= i < models.len(),
        models[i].source is Some,
        models[i].source->0@ == "preset"@ || models[i].source->0@ == "cache"@,
    ensures
        !has_key(disabled, models[i].id@) ==> to_measure(models, disabled).contains(models[i]),
        has_key(disabled, models[i].id@) ==> skipped_of(models, disabled) > 0,
    decreases models.len(),
{
    let s = models.drop_last();
    let before = to_measure(s, disabled);
    let now = to_measure(models, disabled);
    if i < s.len() {
        every_enabled_servable_model_is_measured(s, disabled, i);
        assert(s[i] == models[i]);
        if before.contains(models[i]) {
            let j = choose|j: int| 0 <= j < before.len() && before[j] == models[i];
            assert(now[j] == models[i]);
        }
    } else if !has_key(disabled, models[i].id@) {
        assert(now[now.len() - 1] == models[i]);
    }
}

/// How many of the models come from the preset or from the cache.
pub open spec fn servable_among(models: Seq<RouterModel>) -> nat
    decreases models.len(),
{
    if models.len() == 0 {
        0
    } else {
        servable_among(models.drop_last()) + match models.last().source {
            Some(s) => if s@ == "preset"@ || s@ == "cache"@ {
                1nat
            } else {
                0nat
            },
            None => 0nat,
        }
    }
}

/// What is measured and what is skipped come to what can be served.
pub proof fn measured_and_skipped_come_to_all(
    models: Seq<RouterModel>,
    disabled: Seq<(Seq<char>, ())>,
)
    ensures
        to_measure(models, disabled).len() + skipped_of(models, disabled) == servable_among(models),
    decreases models.len(),
{
    if models.len() > 0 {
        measured_and_skipped_come_to_all(models.drop_last(), disabled);
    }
}

/// A run stops at the first model whose measurement does not count any more.
pub proof fn a_run_stops_where_something_is_due(
    models: Seq<RouterModel>,
    store: Seq<(Seq<char>, Measurement)>,
    env_fp: Seq<char>,
    from: int,
)
    requires
        0 <= from <= models.len(),
    ensures
        ({
            let d = due_from(models, store, env_fp, false, from);
            &&& from <= d <= models.len()
            &&& d < models.len() ==> match lookup(store, models[d].id@) {
                Some(m) => !fresh(m, error_cause(m), opt_text(models[d].args_fp), env_fp),
                None => true,
            }
        }),
    decreases models.len() - from,
{
    if from < models.len() && is_fresh_for(store, models[from], env_fp) {
        a_run_stops_where_something_is_due(models, store, env_fp, from + 1);
    }
}

/// A load has ten minutes.
pub proof fn a_load_has_ten_minutes(now_ms: u64)
    ensures
        deadline_from(now_ms) >= now_ms,
        now_ms + 10 * 60 * 1000 <= u64::MAX ==> deadline_from(now_ms) - now_ms == 10 * 60 * 1000,
        now_ms + 10 * 60 * 1000 > u64::MAX ==> deadline_from(now_ms) == u64::MAX,
{
}

/// The probe asks the model, without chance and within 2500 tokens, to call the one tool
/// that it is given.
pub proof fn the_probe_asks_for_one_call(model: Seq<char>)
    ensures
        probe_request_of(model) is Object,
        ({
            let o = probe_request_of(model)->Object_0;
            &&& o.contains(("max_tokens"@, number_view(2500)))
            &&& o.contains(("temperature"@, number_view(0)))
            &&& o.contains(("model"@, JsonView::Text(model)))
            &&& exists|t: Seq<JsonView>| t.len() == 1 && #[trigger] o.contains(("tools"@, JsonView::Array(t)))
        }),
{
    let o = probe_request_of(model)->Object_0;
    assert(o.contains(o[0]) && o.contains(o[2]) && o.contains(o[3]) && o.contains(o[4]));
    assert(o[0] == ("max_tokens"@, number_view(2500)));
    assert(o[2] == ("model"@, JsonView::Text(model)));
    assert(o[3] == ("temperature"@, number_view(0)));
    assert(o[4].0 == "tools"@);
    let t = o[4].1->Array_0;
    assert(o[4] == ("tools"@, JsonView::Array(t)));
}

/// The first listed model with an id is the one that is meant.
pub proof fn the_first_listed_is_meant(models: Seq<RouterModel>, id: Seq<char>, from: int)
    requires
        0 <= from <= models.len(),
    ensures
        match listed_from(models, id, from) {
            Some(i) => from <= i < models.len() && models[i].id@ == id && forall|k: int|
                from <= k < i ==> (#[trigger] models[k]).id@ != id,
            None => forall|k: int| from <= k < models.len() ==> (#[trigger] models[k]).id@ != id,
        },
    decreases models.len() - from,
{
    if from < models.len() && models[from].id@ != id {
        the_first_listed_is_meant(models, id, from + 1);
    }
}

} // verus!
