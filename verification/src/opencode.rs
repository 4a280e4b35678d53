//! opencode.json sync: make the `llamacpp` provider block mirror what the
//! router actually serves, with measured (never guessed) context limits.
//!
//! All edits go through the comment-preserving jsonc module. The file is
//! backed up before every write, and orphans (configured models the router
//! no longer lists) are *reported*, not removed — commenting them out is a
//! decision the user takes, not a side effect of a sync.
use crate::json::{
    array, bool_in, bool_of_json, entry, get_in, json_views, key_from, member, member_of, number,
    object, opt_json, pair_views, str_in, text, text_of_json, u64_in, u64_of_json, Json, JsonView,
    NumberView,
};
use crate::jsonc::{
    add_model, added, adding_keeps_the_other_entries, bytes, comment_out_model, commented_out, cut,
    ensure_models_container, ensured, jsonc_document, merge_model, merged,
    merging_keeps_the_other_entries, merging_what_stands_changes_nothing, models_in, parse_value,
    placed, prop_from, prop_value, property_indent, stands, value_at, EditError, EditErrorView,
};
use crate::measurements::{Measurement, Measurements};
use crate::num::{dec, dec_text, digit_char};
use crate::path::{
    bare, file_name, join_of, join_path, last_start, stem_len, with_extension, with_extension_of,
};
use crate::settings::Env;
use crate::text::{
    copy_text, holds_text, lemma_rfind_from, lemma_texts_push, occurs_at, opt_text, same_text, texts,
};
use crate::textmap::has_key;
use vstd::prelude::*;
use vstd::string::*;

verus! {

/// The provider id this app owns inside opencode.json. Other providers
/// (ollama, cloud) are never touched.
pub const PROVIDER_ID: &'static str = "llamacpp";

pub open spec fn config_path_of(e: Env) -> Seq<char> {
    join_path(
        match e.config_home {
            Some(d) => d@,
            None => join_path(
                match e.home {
                    Some(h) => h@,
                    None => "."@,
                },
                ".config"@,
            ),
        },
        "opencode/opencode.json"@,
    )
}

/// Where OpenCode keeps its configuration.
pub fn default_config_path(e: &Env) -> (r: String)
    ensures
        r@ == config_path_of(*e),
{
    let base = match &e.config_home {
        Some(d) => d.clone(),
        None => {
            let home = match &e.home {
                Some(h) => h.clone(),
                None => copy_text("."),
            };
            join_of(home.as_str(), ".config")
        },
    };
    join_of(base.as_str(), "opencode/opencode.json")
}

/// One model entry we want present under `provider.llamacpp.models`.
#[derive(Debug, Clone)]
pub struct DesiredModel {
    /// The router alias — what OpenCode sends as the "model" field, which
    /// is exactly what the router routes on.
    pub id: String,
    pub display_name: String,
    /// Measured settled context (from `/props`, not the GGUF).
    pub context: u64,
    /// Measured tool-calling verdict; `None` = probe inconclusive.
    pub tool_call: Option<bool>,
    /// Served with a vision projector (the preset carries `mmproj =` for
    /// it), so the entry may declare image input. A projector merely on
    /// disk doesn't count — OpenCode would send images to a text-only
    /// server.
    pub vision: bool,
}

/// Five percent less, floored to a multiple of 256.
pub open spec fn safe_context(measured: u64) -> u64 {
    let cut = measured - measured / 20;
    (cut - cut % 256) as u64
}

/// The context we WRITE for a measurement: 5% safety haircut, floored to a
/// 256 multiple. Settled context varies a few percent with desktop VRAM at
/// load time; the haircut keeps OpenCode's budget inside what the server will
/// actually have on a bad day. UI comparisons must use this, not the raw
/// measurement.
pub fn safety_context(measured: u64) -> (r: u64)
    ensures
        r == safe_context(measured),
        r <= measured,
        r % 256 == 0,
{
    let cut = measured - measured / 20;
    cut - (cut % 256)
}

/// What a vision model takes and gives.
pub open spec fn modalities() -> JsonView {
    JsonView::Object(
        seq![
            (
                "input"@,
                JsonView::Array(seq![JsonView::Text("text"@), JsonView::Text("image"@)]),
            ),
            ("output"@, JsonView::Array(seq![JsonView::Text("text"@)])),
        ],
    )
}

fn vision_modalities() -> (r: Json)
    ensures
        r@ == modalities(),
{
    let input: Vec<Json> = vec![text("text"), text("image")];
    assert(json_views(input@) =~= seq![JsonView::Text("text"@), JsonView::Text("image"@)]);
    let output: Vec<Json> = vec![text("text")];
    assert(json_views(output@) =~= seq![JsonView::Text("text"@)]);
    let v: Vec<(String, Json)> = vec![
        entry("input", array(input)),
        entry("output", array(output)),
    ];
    assert(pair_views(v@) =~= modalities()->Object_0);
    object(v)
}

pub open spec fn number_view(n: u64) -> JsonView {
    JsonView::Number(NumberView::Pos(n))
}

/// Half the context, at most 32k.
pub open spec fn output_limit(ctx: u64) -> u64 {
    if ctx / 2 < 32_768 {
        (ctx / 2) as u64
    } else {
        32_768
    }
}

/// The JSON written for a fresh entry.
pub open spec fn entry_of(d: DesiredModel) -> JsonView {
    let ctx = safe_context(d.context);
    let limit = JsonView::Object(
        seq![("context"@, number_view(ctx)), ("output"@, number_view(output_limit(ctx)))],
    );
    let tool_call = JsonView::Bool(
        match d.tool_call {
            Some(t) => t,
            None => true,
        },
    );
    JsonView::Object(
        if d.vision {
            seq![
                ("limit"@, limit),
                ("modalities"@, modalities()),
                ("name"@, JsonView::Text(d.display_name@)),
                ("tool_call"@, tool_call),
            ]
        } else {
            seq![
                ("limit"@, limit),
                ("name"@, JsonView::Text(d.display_name@)),
                ("tool_call"@, tool_call),
            ]
        },
    )
}

/// The patch for an entry that already exists.
pub open spec fn patch_of(d: DesiredModel, fill_tool_call: bool, fill_modalities: bool) -> JsonView {
    let limit = JsonView::Object(seq![("context"@, number_view(safe_context(d.context)))]);
    let a = seq![("limit"@, limit)];
    let b = if fill_modalities && d.vision {
        a.push(("modalities"@, modalities()))
    } else {
        a
    };
    JsonView::Object(
        if fill_tool_call && d.tool_call is Some {
            b.push(("tool_call"@, JsonView::Bool(d.tool_call->0)))
        } else {
            b
        },
    )
}

impl DesiredModel {
    /// The JSON written for a fresh entry. `tool_call` is the measured
    /// verdict; when the probe was inconclusive we default to `true` —
    /// agent use is the point of this provider, and `false` would hide the
    /// model from OpenCode's agent picker on no evidence.
    pub fn entry(&self) -> (r: Json)
        ensures
            r@ == entry_of(*self),
    {
        let ctx = safety_context(self.context);
        let half = ctx / 2;
        let output = if half < 32_768 {
            half
        } else {
            32_768
        };
        let l: Vec<(String, Json)> = vec![
            entry("context", number(ctx)),
            entry("output", number(output)),
        ];
        assert(pair_views(l@) =~= seq![
            ("context"@, number_view(ctx)),
            ("output"@, number_view(output)),
        ]);
        let mut v: Vec<(String, Json)> = vec![entry("limit", object(l))];
        if self.vision {
            v.push(entry("modalities", vision_modalities()));
        }
        v.push(entry("name", text(self.display_name.as_str())));
        let tool_call = match self.tool_call {
            Some(t) => t,
            None => true,
        };
        v.push(entry("tool_call", Json::Bool(tool_call)));
        assert(pair_views(v@) =~= entry_of(*self)->Object_0);
        object(v)
    }

    /// The patch for an entry that already exists: always the measured
    /// context; the measured `tool_call` ONLY when the entry doesn't have
    /// the key yet (`fill_tool_call`). A hand-set value is never overwritten
    /// in either direction — a probe false-negative must not clobber a
    /// deliberate `true`, nor vice versa.
    pub fn patch(&self, fill_tool_call: bool, fill_modalities: bool) -> (r: Json)
        ensures
            r@ == patch_of(*self, fill_tool_call, fill_modalities),
    {
        let l: Vec<(String, Json)> = vec![entry("context", number(safety_context(self.context)))];
        assert(pair_views(l@) =~= seq![("context"@, number_view(safe_context(self.context)))]);
        let mut v: Vec<(String, Json)> = vec![entry("limit", object(l))];
        if fill_modalities && self.vision {
            v.push(entry("modalities", vision_modalities()));
        }
        if fill_tool_call {
            if let Some(t) = self.tool_call {
                v.push(entry("tool_call", Json::Bool(t)));
            }
        }
        assert(pair_views(v@) =~= patch_of(*self, fill_tool_call, fill_modalities)->Object_0);
        object(v)
    }
}

// ----------------------------------------------------------------- what is there

/// The entries under `provider.llamacpp.models` of a document.
pub open spec fn models_of_doc(doc: Option<JsonView>) -> Seq<(Seq<char>, JsonView)> {
    match member_of(member_of(member_of(doc, "provider"@), PROVIDER_ID@), "models"@) {
        Some(JsonView::Object(s)) => s,
        _ => Seq::empty(),
    }
}

/// The entry of a model, where the document has one.
pub open spec fn entry_in(doc: Option<JsonView>, id: Seq<char>) -> Option<JsonView> {
    member(JsonView::Object(models_of_doc(doc)), id)
}

fn models_in_doc(doc: &Option<Json>) -> (r: Option<&Json>)
    ensures
        opt_json(r) == member_of(
            member_of(member_of(opt_doc(*doc), "provider"@), PROVIDER_ID@),
            "models"@,
        ),
{
    let root = match doc {
        Some(d) => Some(d),
        None => None,
    };
    get_in(get_in(get_in(root, "provider"), PROVIDER_ID), "models")
}

pub open spec fn opt_doc(doc: Option<Json>) -> Option<JsonView> {
    match doc {
        Some(d) => Some(d@),
        None => None,
    }
}

/// One entry as it currently stands in opencode.json. Values are whatever the
/// file says (which may be the user's hand edits), not what we'd write.
#[derive(Debug, Clone)]
pub struct ConfiguredModel {
    pub id: String,
    pub name: Option<String>,
    pub context: Option<u64>,
    pub output: Option<u64>,
    pub tool_call: Option<bool>,
}

pub struct ConfiguredView {
    pub id: Seq<char>,
    pub name: Option<Seq<char>>,
    pub context: Option<u64>,
    pub output: Option<u64>,
    pub tool_call: Option<bool>,
}

impl View for ConfiguredModel {
    type V = ConfiguredView;

    open spec fn view(&self) -> ConfiguredView {
        ConfiguredView {
            id: self.id@,
            name: opt_text(self.name),
            context: self.context,
            output: self.output,
            tool_call: self.tool_call,
        }
    }
}

/// What an entry of the file says.
pub open spec fn configured_of(e: (Seq<char>, JsonView)) -> ConfiguredView {
    ConfiguredView {
        id: e.0,
        name: text_of_json(member(e.1, "name"@)),
        context: u64_of_json(member_of(member(e.1, "limit"@), "context"@)),
        output: u64_of_json(member_of(member(e.1, "limit"@), "output"@)),
        tool_call: bool_of_json(member(e.1, "tool_call"@)),
    }
}

/// The entries of a document with their values, in the order of their ids.
pub open spec fn configured_in(doc: Option<JsonView>) -> Seq<ConfiguredView> {
    models_of_doc(doc).map_values(|e: (Seq<char>, JsonView)| configured_of(e))
}

pub open spec fn configured_views(v: Seq<ConfiguredModel>) -> Seq<ConfiguredView> {
    Seq::new(v.len(), |i: int| v[i]@)
}

/// Why a sync is refused.
#[derive(Debug, Clone, PartialEq)]
pub enum SyncError {
    /// The file is no JSONC.
    Parsing(String),
    /// The provider's containers cannot be made.
    Ensuring(EditError),
    Updating(String, EditError),
    Adding(String, EditError),
    CommentingOut(String, EditError),
}

pub enum SyncErrorView {
    Parsing(Seq<char>),
    Ensuring(EditErrorView),
    Updating(Seq<char>, EditErrorView),
    Adding(Seq<char>, EditErrorView),
    CommentingOut(Seq<char>, EditErrorView),
}

impl View for SyncError {
    type V = SyncErrorView;

    open spec fn view(&self) -> SyncErrorView {
        match *self {
            SyncError::Parsing(e) => SyncErrorView::Parsing(e@),
            SyncError::Ensuring(e) => SyncErrorView::Ensuring(e@),
            SyncError::Updating(id, e) => SyncErrorView::Updating(id@, e@),
            SyncError::Adding(id, e) => SyncErrorView::Adding(id@, e@),
            SyncError::CommentingOut(id, e) => SyncErrorView::CommentingOut(id@, e@),
        }
    }
}

impl SyncErrorView {
    /// The error in words, with what led to it.
    pub open spec fn text(self) -> Seq<char> {
        match self {
            SyncErrorView::Parsing(e) => "parsing opencode.json: "@ + e,
            SyncErrorView::Ensuring(e) => "ensuring provider.llamacpp.models exists: "@ + e.text(),
            SyncErrorView::Updating(id, e) => "updating "@ + id + ": "@ + e.text(),
            SyncErrorView::Adding(id, e) => "adding "@ + id + ": "@ + e.text(),
            SyncErrorView::CommentingOut(id, e) => "commenting out "@ + id + ": "@ + e.text(),
        }
    }
}

impl SyncError {
    pub open spec fn text(self) -> Seq<char> {
        self@.text()
    }

    /// The error in words, with what led to it.
    pub fn message(&self) -> (r: String)
        ensures
            r@ == self.text(),
    {
        match self {
            SyncError::Parsing(e) => {
                let mut s = copy_text("parsing opencode.json: ");
                s.append(e.as_str());
                s
            },
            SyncError::Ensuring(e) => {
                let mut s = copy_text("ensuring provider.llamacpp.models exists: ");
                s.append(e.message().as_str());
                s
            },
            SyncError::Updating(id, e) => told("updating ", id.as_str(), e),
            SyncError::Adding(id, e) => told("adding ", id.as_str(), e),
            SyncError::CommentingOut(id, e) => told("commenting out ", id.as_str(), e),
        }
    }
}

fn told(doing: &str, id: &str, e: &EditError) -> (r: String)
    ensures
        r@ == doing@ + id@ + ": "@ + e.text(),
{
    let mut s = copy_text(doing);
    s.append(id);
    s.append(": ");
    s.append(e.message().as_str());
    s
}

/// The document that a source holds, or why it holds none.
pub open spec fn doc_of(source: Seq<char>) -> Result<Option<JsonView>, SyncErrorView> {
    match jsonc_document(source) {
        Ok(d) => Ok(d),
        Err(e) => Err(SyncErrorView::Parsing(e)),
    }
}

fn read_doc(source: &str) -> (r: Result<Option<Json>, SyncError>)
    ensures
        match r {
            Ok(d) => doc_of(source@) == Ok::<Option<JsonView>, SyncErrorView>(opt_doc(d)),
            Err(e) => doc_of(source@) == Err::<Option<JsonView>, SyncErrorView>(e@),
        },
{
    match parse_value(source) {
        Ok(d) => Ok(d),
        Err(e) => Err(SyncError::Parsing(e)),
    }
}

/// The current `provider.llamacpp.models` entries of a source with their
/// values.
pub fn configured_from_source(source: &str) -> (r: Result<Vec<ConfiguredModel>, SyncError>)
    ensures
        match r {
            Ok(v) => doc_of(source@) is Ok && configured_views(v@) == configured_in(
                doc_of(source@)->Ok_0,
            ),
            Err(e) => doc_of(source@) == Err::<Option<JsonView>, SyncErrorView>(e@),
        },
{
    match read_doc(source) {
        Ok(d) => Ok(configured_in_doc(&d)),
        Err(e) => Err(e),
    }
}

/// The entries of a document with their values.
pub fn configured_in_doc(doc: &Option<Json>) -> (r: Vec<ConfiguredModel>)
    ensures
        configured_views(r@) == configured_in(opt_doc(*doc)),
{
    let ghost all = models_of_doc(opt_doc(*doc));
    let mut out: Vec<ConfiguredModel> = Vec::new();
    if let Some(m) = models_in_doc(doc) {
        if let Some(v) = m.as_object() {
            let mut i: usize = 0;
            while i < v.len()
                invariant
                    i <= v.len(),
                    pair_views(v@) == all,
                    out.len() == i,
                    forall|k: int| 0 <= k < i ==> (#[trigger] out@[k])@ == configured_of(all[k]),
                decreases v.len() - i,
            {
                assert(all[i as int] == (v@[i as int].0@, v@[i as int].1@));
                let limit = v[i].1.get("limit");
                let c = ConfiguredModel {
                    id: v[i].0.clone(),
                    name: str_in(v[i].1.get("name")),
                    context: u64_in(get_in(limit, "context")),
                    output: u64_in(get_in(limit, "output")),
                    tool_call: bool_in(v[i].1.get("tool_call")),
                };
                assert(c@ == configured_of(all[i as int]));
                out.push(c);
                i += 1;
            }
        }
    }
    assert(configured_views(out@) =~= configured_in(opt_doc(*doc)));
    out
}

// ------------------------------------------------------------------------- sync

#[derive(Debug, Clone)]
pub struct SyncReport {
    pub added: Vec<String>,
    pub updated: Vec<String>,
    /// Configured under our provider but not desired — candidates for
    /// comment-out, surfaced to the user rather than acted on.
    pub orphans: Vec<String>,
    /// Ghosts the sync commented out itself (reachable router omitted the
    /// id AND nothing measured backed it).
    pub ghosts_commented: Vec<String>,
    /// Where the provider's base URL was moved to, where it was.
    pub base_url_repointed: Option<String>,
    /// opencode.json doesn't exist — OpenCode isn't installed; nothing
    /// was written and that's fine.
    pub skipped_missing: bool,
}

/// A report that tells of nothing.
pub open spec fn empty_report(r: SyncReport) -> bool {
    &&& r.added@.len() == 0
    &&& r.updated@.len() == 0
    &&& r.orphans@.len() == 0
    &&& r.ghosts_commented@.len() == 0
    &&& r.base_url_repointed is None
    &&& !r.skipped_missing
}

impl Default for SyncReport {
    fn default() -> (r: SyncReport)
        ensures
            empty_report(r),
    {
        SyncReport {
            added: Vec::new(),
            updated: Vec::new(),
            orphans: Vec::new(),
            ghosts_commented: Vec::new(),
            base_url_repointed: None,
            skipped_missing: false,
        }
    }
}

/// The provider block for a config that has none.
pub open spec fn scaffold_of(base_url: Seq<char>) -> JsonView {
    JsonView::Object(
        seq![
            ("models"@, JsonView::Object(Seq::empty())),
            ("name"@, JsonView::Text("llama.cpp (modelsteward)"@)),
            ("npm"@, JsonView::Text("@ai-sdk/openai-compatible"@)),
            ("options"@, JsonView::Object(seq![("baseURL"@, JsonView::Text(base_url))])),
        ],
    )
}

fn scaffold(base_url: &str) -> (r: Json)
    ensures
        r@ == scaffold_of(base_url@),
{
    let none: Vec<(String, Json)> = Vec::new();
    assert(pair_views(none@) =~= Seq::empty());
    let options: Vec<(String, Json)> = vec![entry("baseURL", text(base_url))];
    assert(pair_views(options@) =~= seq![("baseURL"@, JsonView::Text(base_url@))]);
    let v: Vec<(String, Json)> = vec![
        entry("models", object(none)),
        entry("name", text("llama.cpp (modelsteward)")),
        entry("npm", text("@ai-sdk/openai-compatible")),
        entry("options", object(options)),
    ];
    assert(pair_views(v@) =~= scaffold_of(base_url@)->Object_0);
    object(v)
}

/// One desired model written into the source: an entry that the document has
/// is patched, where `tool_call` and `modalities` only fill a gap; another is
/// added.
pub open spec fn sync_step(s: Seq<char>, d: DesiredModel, doc: Option<JsonView>) -> Result<
    Seq<char>,
    SyncErrorView,
> {
    match entry_in(doc, d.id@) {
        Some(e) => match merged(
            s,
            PROVIDER_ID@,
            d.id@,
            patch_of(
                d,
                bool_of_json(member(e, "tool_call"@)) is None,
                member(e, "modalities"@) is None,
            ),
        ) {
            Ok(t) => Ok(t),
            Err(e) => Err(SyncErrorView::Updating(d.id@, e)),
        },
        None => match added(s, PROVIDER_ID@, d.id@, entry_of(d)) {
            Ok(t) => Ok(t),
            Err(e) => Err(SyncErrorView::Adding(d.id@, e)),
        },
    }
}

/// The desired models written into the source one behind the other.
pub open spec fn sync_steps(s: Seq<char>, desired: Seq<DesiredModel>, doc: Option<JsonView>) -> Result<
    Seq<char>,
    SyncErrorView,
>
    decreases desired.len(),
{
    if desired.len() == 0 {
        Ok(s)
    } else {
        match sync_steps(s, desired.drop_last(), doc) {
            Ok(t) => sync_step(t, desired.last(), doc),
            Err(e) => Err(e),
        }
    }
}

/// The ids of the desired models that the document has, or has not.
pub open spec fn ids_where(desired: Seq<DesiredModel>, doc: Option<JsonView>, present: bool) -> Seq<
    Seq<char>,
>
    decreases desired.len(),
{
    if desired.len() == 0 {
        Seq::empty()
    } else {
        let before = ids_where(desired.drop_last(), doc, present);
        if (entry_in(doc, desired.last().id@) is Some) == present {
            before.push(desired.last().id@)
        } else {
            before
        }
    }
}

/// The ids of the desired models.
pub open spec fn desired_ids(desired: Seq<DesiredModel>) -> Seq<Seq<char>> {
    Seq::new(desired.len(), |i: int| desired[i].id@)
}

/// The ids of the entries that are not among `keep`.
pub open spec fn ids_besides(entries: Seq<(Seq<char>, JsonView)>, keep: Seq<Seq<char>>) -> Seq<Seq<char>>
    decreases entries.len(),
{
    if entries.len() == 0 {
        Seq::empty()
    } else {
        let before = ids_besides(entries.drop_last(), keep);
        if keep.contains(entries.last().0) {
            before
        } else {
            before.push(entries.last().0)
        }
    }
}

/// The new source of a sync, or why there is none. The document is read once
/// the containers are there.
pub open spec fn synced(s: Seq<char>, base_url: Seq<char>, desired: Seq<DesiredModel>) -> Result<
    (Seq<char>, Option<JsonView>),
    SyncErrorView,
> {
    match ensured(s, PROVIDER_ID@, scaffold_of(base_url)) {
        Err(e) => Err(SyncErrorView::Ensuring(e)),
        Ok(t) => match doc_of(t) {
            Err(e) => Err(e),
            Ok(doc) => match sync_steps(t, desired, doc) {
                Err(e) => Err(e),
                Ok(out) => Ok((out, doc)),
            },
        },
    }
}

/// The report of a sync against what the document held.
pub open spec fn reported(r: SyncReport, desired: Seq<DesiredModel>, doc: Option<JsonView>) -> bool {
    &&& texts(r.added@) == ids_where(desired, doc, false)
    &&& texts(r.updated@) == ids_where(desired, doc, true)
    &&& texts(r.orphans@) == ids_besides(models_of_doc(doc), desired_ids(desired))
    &&& r.ghosts_commented@.len() == 0
    &&& r.base_url_repointed is None
    &&& !r.skipped_missing
}

fn find_entry<'a>(doc: &'a Option<Json>, id: &str) -> (r: Option<&'a Json>)
    ensures
        opt_json(r) == entry_in(opt_doc(*doc), id@),
{
    match models_in_doc(doc) {
        Some(m) => {
            match m.as_object() {
                Some(_) => m.get(id),
                None => None,
            }
        },
        None => None,
    }
}

/// The desired models' ids.
pub fn ids_of(desired: &[DesiredModel]) -> (r: Vec<String>)
    ensures
        texts(r@) == desired_ids(desired@),
{
    let mut out: Vec<String> = Vec::new();
    let mut i: usize = 0;
    while i < desired.len()
        invariant
            i <= desired.len(),
            texts(out@) == desired_ids(desired@).take(i as int),
        decreases desired.len() - i,
    {
        let ghost before = out@;
        out.push(desired[i].id.clone());
        proof {
            lemma_texts_push(before, desired[i as int].id);
        }
        i += 1;
        assert(texts(out@) =~= desired_ids(desired@).take(i as int));
    }
    assert(desired_ids(desired@).take(i as int) =~= desired_ids(desired@));
    out
}

/// Model ids of a document that aren't in `keep`.
fn orphans_of(doc: &Option<Json>, keep: &[String]) -> (r: Vec<String>)
    ensures
        texts(r@) == ids_besides(models_of_doc(opt_doc(*doc)), texts(keep@)),
{
    let ghost all = models_of_doc(opt_doc(*doc));
    let mut out: Vec<String> = Vec::new();
    assert(texts(out@) =~= Seq::empty());
    if let Some(m) = models_in_doc(doc) {
        if let Some(v) = m.as_object() {
            let mut i: usize = 0;
            assert(all.take(0) =~= Seq::empty());
            while i < v.len()
                invariant
                    i <= v.len(),
                    pair_views(v@) == all,
                    texts(out@) == ids_besides(all.take(i as int), texts(keep@)),
                decreases v.len() - i,
            {
                assert(all.take(i + 1).drop_last() =~= all.take(i as int));
                assert(all.take(i + 1).last() == all[i as int]);
                assert(all[i as int] == (v@[i as int].0@, v@[i as int].1@));
                if !holds_text(keep, v[i].0.as_str()) {
                    let ghost before = out@;
                    out.push(v[i].0.clone());
                    proof {
                        lemma_texts_push(before, v[i as int].0);
                    }
                }
                i += 1;
            }
            assert(all.take(i as int) =~= all);
        }
    }
    out
}

/// Compute the new source text. Reading, backup, and writing are the caller's.
pub fn sync_source(source: &str, base_url: &str, desired: &[DesiredModel]) -> (r: Result<
    (String, SyncReport),
    SyncError,
>)
    ensures
        match (r, synced(source@, base_url@, desired@)) {
            (Ok(o), Ok(w)) => o.0@ == w.0 && reported(o.1, desired@, w.1),
            (Err(e), Err(f)) => e@ == f,
            _ => false,
        },
{
    let start = match ensure_models_container(source, PROVIDER_ID, &scaffold(base_url)) {
        Ok(t) => t,
        Err(e) => {
            return Err(SyncError::Ensuring(e));
        },
    };
    let doc = match read_doc(start.as_str()) {
        Ok(d) => d,
        Err(e) => {
            return Err(e);
        },
    };
    let ghost s = start@;
    let ghost view = opt_doc(doc);
    let ghost all = desired@;
    let mut text = start;
    let mut added_ids: Vec<String> = Vec::new();
    let mut updated_ids: Vec<String> = Vec::new();
    let mut i: usize = 0;
    assert(all.take(0) =~= Seq::empty());
    assert(texts(added_ids@) =~= Seq::empty());
    assert(texts(updated_ids@) =~= Seq::empty());
    while i < desired.len()
        invariant
            i <= desired.len(),
            all == desired@,
            view == opt_doc(doc),
            ensured(source@, PROVIDER_ID@, scaffold_of(base_url@)) == Ok::<Seq<char>, EditErrorView>(
                s,
            ),
            doc_of(s) == Ok::<Option<JsonView>, SyncErrorView>(view),
            sync_steps(s, all.take(i as int), view) == Ok::<Seq<char>, SyncErrorView>(text@),
            texts(added_ids@) == ids_where(all.take(i as int), view, false),
            texts(updated_ids@) == ids_where(all.take(i as int), view, true),
        decreases desired.len() - i,
    {
        let d = &desired[i];
        assert(all.take(i + 1).drop_last() =~= all.take(i as int));
        assert(all.take(i + 1).last() == *d);
        let ghost added_before = added_ids@;
        let ghost updated_before = updated_ids@;
        let next = match find_entry(&doc, d.id.as_str()) {
            Some(e) => {
                let fill = bool_in(e.get("tool_call")).is_none();
                let fill_mod = e.get("modalities").is_none();
                updated_ids.push(d.id.clone());
                proof {
                    lemma_texts_push(updated_before, d.id);
                }
                match merge_model(
                    text.as_str(),
                    PROVIDER_ID,
                    d.id.as_str(),
                    &d.patch(fill, fill_mod),
                ) {
                    Ok(t) => Ok(t),
                    Err(e) => Err(SyncError::Updating(d.id.clone(), e)),
                }
            },
            None => {
                added_ids.push(d.id.clone());
                proof {
                    lemma_texts_push(added_before, d.id);
                }
                match add_model(text.as_str(), PROVIDER_ID, d.id.as_str(), &d.entry()) {
                    Ok(t) => Ok(t),
                    Err(e) => Err(SyncError::Adding(d.id.clone(), e)),
                }
            },
        };
        match next {
            Ok(t) => {
                text = t;
            },
            Err(e) => {
                proof {
                    lemma_failed_step(s, all, view, i + 1);
                }
                return Err(e);
            },
        }
        i += 1;
    }
    assert(all.take(i as int) =~= all);
    let ids = ids_of(desired);
    let orphans = orphans_of(&doc, &ids);
    Ok(
        (
            text,
            SyncReport {
                added: added_ids,
                updated: updated_ids,
                orphans,
                ghosts_commented: Vec::new(),
                base_url_repointed: None,
                skipped_missing: false,
            },
        ),
    )
}

/// A step that fails ends the sync with its error.
proof fn lemma_failed_step(s: Seq<char>, desired: Seq<DesiredModel>, doc: Option<JsonView>, k: int)
    requires
        0 <= k <= desired.len(),
        sync_steps(s, desired.take(k), doc) is Err,
    ensures
        sync_steps(s, desired, doc) == sync_steps(s, desired.take(k), doc),
    decreases desired.len() - k,
{
    if k == desired.len() {
        assert(desired.take(k) =~= desired);
    } else {
        assert(desired.take(k + 1).drop_last() =~= desired.take(k));
        lemma_failed_step(s, desired, doc, k + 1);
    }
}

/// Model ids under our provider that aren't in `keep` — comment-out
/// candidates for the UI to offer.
pub fn orphans_in(source: &str, keep: &[String]) -> (r: Result<Vec<String>, SyncError>)
    ensures
        match r {
            Ok(v) => doc_of(source@) is Ok && texts(v@) == ids_besides(
                models_of_doc(doc_of(source@)->Ok_0),
                texts(keep@),
            ),
            Err(e) => doc_of(source@) == Err::<Option<JsonView>, SyncErrorView>(e@),
        },
{
    match read_doc(source) {
        Ok(d) => Ok(orphans_of(&d, keep)),
        Err(e) => Err(e),
    }
}

// ----------------------------------------------------------------------- ghosts

/// What a commented-out entry is told by.
pub const GHOST_NOTE: &'static str = "Commented out by modelsteward: not in the current router \npreset / never measured. Uncomment to restore, or delete these \nlines to discard permanently.";

/// The source with one orphan commented out in place.
pub open spec fn hushed(s: Seq<char>, id: Seq<char>) -> Result<Seq<char>, SyncErrorView> {
    match commented_out(s, PROVIDER_ID@, id, GHOST_NOTE@) {
        Ok(t) => Ok(t),
        Err(e) => Err(SyncErrorView::CommentingOut(id, e)),
    }
}

/// Comment one orphan out in place (never deletes; the entry stays visible
/// in the file under an explanatory note).
pub fn comment_out(source: &str, model_id: &str) -> (r: Result<String, SyncError>)
    ensures
        match (r, hushed(source@, model_id@)) {
            (Ok(t), Ok(w)) => t@ == w,
            (Err(e), Err(f)) => e@ == f,
            _ => false,
        },
{
    match comment_out_model(source, PROVIDER_ID, model_id, GHOST_NOTE) {
        Ok(t) => Ok(t),
        Err(e) => Err(SyncError::CommentingOut(copy_text(model_id), e)),
    }
}

/// An orphan is a ghost when the router does not offer it and nothing
/// measured backs it.
pub open spec fn is_ghost(
    id: Seq<char>,
    offered: Seq<Seq<char>>,
    measured: Seq<(Seq<char>, Measurement)>,
) -> bool {
    !offered.contains(id) && !has_key(measured, id)
}

/// The ghosts among the orphans, in order.
pub open spec fn ghosts_of(
    orphans: Seq<Seq<char>>,
    offered: Seq<Seq<char>>,
    measured: Seq<(Seq<char>, Measurement)>,
) -> Seq<Seq<char>>
    decreases orphans.len(),
{
    if orphans.len() == 0 {
        Seq::empty()
    } else {
        let before = ghosts_of(orphans.drop_last(), offered, measured);
        if is_ghost(orphans.last(), offered, measured) {
            before.push(orphans.last())
        } else {
            before
        }
    }
}

/// The source with the first `k` ghosts commented out.
pub open spec fn hushed_to(s: Seq<char>, ghosts: Seq<Seq<char>>, k: int) -> Result<
    Seq<char>,
    SyncErrorView,
>
    decreases k,
{
    if k <= 0 {
        Ok(s)
    } else {
        match hushed_to(s, ghosts, k - 1) {
            Ok(t) => hushed(t, ghosts[k - 1]),
            Err(e) => Err(e),
        }
    }
}

/// The versions of the file that commenting ghosts out goes through, each with
/// the ghost that is gone in it, and the error that ended it where one did.
#[derive(Debug)]
pub struct GhostRun {
    pub versions: Vec<(String, String)>,
    pub failed: Option<SyncError>,
}

/// The orphans that the router does not offer and that no measurement backs.
pub fn list_ghosts(orphans: &[String], offered: &[String], measurements: &Measurements) -> (r: Vec<String>)
    ensures
        texts(r@) == ghosts_of(texts(orphans@), texts(offered@), measurements@),
{
    let ghost all = texts(orphans@);
    let mut out: Vec<String> = Vec::new();
    let mut i: usize = 0;
    assert(all.take(0) =~= Seq::empty());
    assert(texts(out@) =~= Seq::empty());
    while i < orphans.len()
        invariant
            i <= orphans.len(),
            all == texts(orphans@),
            texts(out@) == ghosts_of(all.take(i as int), texts(offered@), measurements@),
        decreases orphans.len() - i,
    {
        assert(all.take(i + 1).drop_last() =~= all.take(i as int));
        assert(all.take(i + 1).last() == orphans@[i as int]@);
        let id = orphans[i].as_str();
        if !holds_text(offered, id) && !measurements.contains_key(id) {
            let ghost before = out@;
            out.push(orphans[i].clone());
            proof {
                lemma_texts_push(before, orphans[i as int]);
            }
        }
        i += 1;
    }
    assert(all.take(i as int) =~= all);
    out
}

/// Auto-comment GHOSTS after a sync: an orphan qualifies only when the
/// REACHABLE router omits its id AND no measurement record backs it (a
/// measured-but-unoffered entry can be a temporarily unoffered variant, so
/// those stay reported-only). `offered` must come from a live router; callers
/// with a down router must not call this. Comment-outs, never deletions; each
/// version is written and backed up like every write.
pub fn comment_out_ghosts(
    source: &str,
    orphans: &[String],
    offered: &[String],
    measurements: &Measurements,
) -> (r: GhostRun)
    ensures
        ({
            let ghosts = ghosts_of(texts(orphans@), texts(offered@), measurements@);
            &&& r.versions@.len() <= ghosts.len()
            &&& forall|k: int|
                0 <= k < r.versions@.len() ==> (#[trigger] r.versions@[k]).0@ == ghosts[k]
                    && hushed_to(source@, ghosts, k + 1) == Ok::<Seq<char>, SyncErrorView>(
                    r.versions@[k].1@,
                )
            &&& match r.failed {
                Some(e) => r.versions@.len() < ghosts.len() && hushed_to(
                    source@,
                    ghosts,
                    (r.versions@.len() + 1) as int,
                ) == Err::<Seq<char>, SyncErrorView>(e@),
                None => r.versions@.len() == ghosts.len(),
            }
        }),
{
    let ids = list_ghosts(orphans, offered, measurements);
    let ghost ghosts = ghosts_of(texts(orphans@), texts(offered@), measurements@);
    let mut versions: Vec<(String, String)> = Vec::new();
    let mut text = copy_text(source);
    let mut i: usize = 0;
    while i < ids.len()
        invariant
            i <= ids.len(),
            texts(ids@) == ghosts,
            ghosts == ghosts_of(texts(orphans@), texts(offered@), measurements@),
            versions.len() == i,
            hushed_to(source@, ghosts, i as int) == Ok::<Seq<char>, SyncErrorView>(text@),
            forall|k: int|
                0 <= k < i ==> (#[trigger] versions@[k]).0@ == ghosts[k] && hushed_to(
                    source@,
                    ghosts,
                    k + 1,
                ) == Ok::<Seq<char>, SyncErrorView>(versions@[k].1@),
        decreases ids.len() - i,
    {
        assert(ghosts[i as int] == ids@[i as int]@);
        match comment_out(text.as_str(), ids[i].as_str()) {
            Ok(t) => {
                text = t;
                versions.push((ids[i].clone(), text.clone()));
            },
            Err(e) => {
                return GhostRun { versions, failed: Some(e) };
            },
        }
        i += 1;
    }
    GhostRun { versions, failed: None }
}

// ---------------------------------------------------------------------- backups

/// How many numbered backups are kept.
pub const BACKUP_DEPTH: u32 = 5;

/// Where the `n`th newest backup stands.
pub open spec fn backup_at(path: Seq<char>, n: nat) -> Seq<char> {
    with_extension(path, "json.lcc.bak."@ + dec(n))
}

pub fn backup_path(path: &str, n: u32) -> (r: String)
    ensures
        r@ == backup_at(path@, n as nat),
{
    let mut ext = copy_text("json.lcc.bak.");
    ext.append(dec_text(n as u64).as_str());
    with_extension_of(path, ext.as_str())
}

/// Where a new text stands until it is moved into place.
pub open spec fn staged_at(path: Seq<char>) -> Seq<char> {
    with_extension(path, "json.lcc.tmp"@)
}

/// One thing done to files.
#[derive(Debug, Clone, PartialEq)]
pub enum FileOp {
    Rename { from: String, to: String },
    Write { path: String, text: String },
}

pub enum FileOpView {
    Rename(Seq<char>, Seq<char>),
    Write(Seq<char>, Seq<char>),
}

impl View for FileOp {
    type V = FileOpView;

    open spec fn view(&self) -> FileOpView {
        match *self {
            FileOp::Rename { from, to } => FileOpView::Rename(from@, to@),
            FileOp::Write { path, text } => FileOpView::Write(path@, text@),
        }
    }
}

pub open spec fn op_views(v: Seq<FileOp>) -> Seq<FileOpView> {
    Seq::new(v.len(), |i: int| v[i]@)
}

/// The texts of files, by path.
pub type Disk = Map<Seq<char>, Seq<char>>;

/// The files after one thing was done to them. To rename a file that is not
/// there does nothing.
pub open spec fn op_done(d: Disk, op: FileOpView) -> Disk {
    match op {
        FileOpView::Rename(from, to) => if d.contains_key(from) {
            d.remove(from).insert(to, d[from])
        } else {
            d
        },
        FileOpView::Write(path, text) => d.insert(path, text),
    }
}

/// The files after all of it was done, in order.
pub open spec fn ops_done(d: Disk, ops: Seq<FileOpView>) -> Disk
    decreases ops.len(),
{
    if ops.len() == 0 {
        d
    } else {
        op_done(ops_done(d, ops.drop_last()), ops.last())
    }
}

/// The renames that shift the newest `n` backups one on, the oldest first.
pub open spec fn shifts(path: Seq<char>, n: nat) -> Seq<FileOpView>
    decreases n,
{
    if n == 0 {
        Seq::empty()
    } else {
        seq![FileOpView::Rename(backup_at(path, n), backup_at(path, n + 1))] + shifts(
            path,
            (n - 1) as nat,
        )
    }
}

/// What it takes to replace a text, backed up; nothing where it stays.
pub open spec fn backed_up(path: Seq<char>, original: Seq<char>, updated: Seq<char>) -> Seq<
    FileOpView,
> {
    if updated == original {
        Seq::empty()
    } else {
        shifts(path, (BACKUP_DEPTH - 1) as nat) + seq![
            FileOpView::Write(backup_at(path, 1), original),
            FileOpView::Write(staged_at(path), updated),
            FileOpView::Rename(staged_at(path), path),
        ]
    }
}

/// Numbered backups, newest = .1, capped at `BACKUP_DEPTH`. A sync followed by
/// a comment-out does not eat the only recovery point.
pub fn write_backed_up(path: &str, original: &str, updated: &str) -> (r: Vec<FileOp>)
    ensures
        op_views(r@) == backed_up(path@, original@, updated@),
{
    let mut out: Vec<FileOp> = Vec::new();
    if same_text(updated, original) {
        assert(op_views(out@) =~= Seq::<FileOpView>::empty());
        return out;
    }
    let mut n: u32 = BACKUP_DEPTH - 1;
    let ghost all = shifts(path@, n as nat);
    assert(op_views(out@) + shifts(path@, n as nat) =~= all);
    while n > 0
        invariant
            n <= BACKUP_DEPTH - 1,
            op_views(out@) + shifts(path@, n as nat) == all,
        decreases n,
    {
        let ghost before = op_views(out@);
        out.push(FileOp::Rename { from: backup_path(path, n), to: backup_path(path, n + 1) });
        n -= 1;
        assert(op_views(out@) + shifts(path@, n as nat) =~= before + shifts(path@, (n + 1) as nat));
    }
    assert(op_views(out@) =~= all);
    let staged = with_extension_of(path, "json.lcc.tmp");
    out.push(FileOp::Write { path: backup_path(path, 1), text: copy_text(original) });
    out.push(FileOp::Write { path: copy_text(staged.as_str()), text: copy_text(updated) });
    out.push(FileOp::Rename { from: staged, to: copy_text(path) });
    assert(op_views(out@) =~= backed_up(path@, original@, updated@));
    out
}

/// What it takes to swap a text with its newest backup.
pub open spec fn swapped(path: Seq<char>, current: Seq<char>, backup: Seq<char>) -> Seq<
    FileOpView,
> {
    seq![
        FileOpView::Write(staged_at(path), backup),
        FileOpView::Write(backup_at(path, 1), current),
        FileOpView::Rename(staged_at(path), path),
    ]
}

/// What restoring the newest backup comes to.
#[derive(Debug, Clone, PartialEq)]
pub enum Restore {
    /// The two are the same: nothing is written.
    Identical { said: String },
    /// The two are swapped.
    Swap { ops: Vec<FileOp>, said: String },
}

/// Swap the config with its newest backup — pressing twice toggles back,
/// so this is undo AND redo in one action. Nothing is ever deleted.
pub fn restore_last_backup(path: &str, current: &str, backup: &str) -> (r: Restore)
    ensures
        match r {
            Restore::Identical { said } => current@ == backup@ && said@
                == "config and newest backup are identical — nothing to restore"@,
            Restore::Swap { ops, said } => current@ != backup@ && op_views(ops@) == swapped(
                path@,
                current@,
                backup@,
            ) && said@ == "restored "@ + path@ + " from "@ + backup_at(path@, 1)
                + " (run again to toggle back)"@,
        },
{
    if same_text(current, backup) {
        return Restore::Identical {
            said: copy_text("config and newest backup are identical — nothing to restore"),
        };
    }
    let staged = with_extension_of(path, "json.lcc.tmp");
    let ops: Vec<FileOp> = vec![
        FileOp::Write { path: copy_text(staged.as_str()), text: copy_text(backup) },
        FileOp::Write { path: backup_path(path, 1), text: copy_text(current) },
        FileOp::Rename { from: staged, to: copy_text(path) },
    ];
    assert(op_views(ops@) =~= swapped(path@, current@, backup@));
    let mut said = copy_text("restored ");
    said.append(path);
    said.append(" from ");
    said.append(backup_path(path, 1).as_str());
    said.append(" (run again to toggle back)");
    Restore::Swap { ops, said }
}

// ------------------------------------------------------------------------- laws

/// A file's backups, its staging place and itself are different files.
proof fn lemma_places(path: Seq<char>, i: nat, j: nat)
    requires
        file_name(path) is Some,
        0 < i <= BACKUP_DEPTH,
        0 < j <= BACKUP_DEPTH,
    ensures
        i != j ==> backup_at(path, i) != backup_at(path, j),
        backup_at(path, i) != staged_at(path),
        backup_at(path, i) != path,
        staged_at(path) != path,
{
    reveal_strlit("json.lcc.bak.");
    reveal_strlit("json.lcc.tmp");
    let q = bare(path);
    let n = file_name(path)->0;
    let base = q.take(last_start(q) + stem_len(n));
    let e = "json.lcc.bak."@ + dec(i);
    let f = "json.lcc.bak."@ + dec(j);
    let g = "json.lcc.tmp"@;
    assert(dec(i) =~= seq![digit_char(i)] && dec(j) =~= seq![digit_char(j)]);
    assert(backup_at(path, i).last() == digit_char(i));
    assert(backup_at(path, j).last() == digit_char(j));
    assert(staged_at(path).last() == 'p');
    lemma_longer_extension(path, e);
    lemma_longer_extension(path, g);
}

/// To give a file an extension with a dot in it gives it another name.
proof fn lemma_longer_extension(path: Seq<char>, ext: Seq<char>)
    requires
        file_name(path) is Some,
        ext.len() > 5,
        ext[4] == '.',
        ext.last() != '/',
        ext.last() != '.',
    ensures
        with_extension(path, ext) != path,
{
    let w = with_extension(path, ext);
    if w == path {
        assert(path.last() == ext.last());
        let q = bare(path);
        assert(q == path);
        let start = last_start(q);
        let n = q.skip(start);
        lemma_rfind_from(q, seq!['/'], q.len() - 1);
        lemma_rfind_from(n, seq!['.'], n.len() - 1);
        let k = stem_len(n);
        if k < n.len() {
            let d = k + 1 + 4;
            assert(w[start + d] == ext[4]);
            assert(n[d] == '.');
            assert(occurs_at(n, seq!['.'], d)) by {
                assert(n.subrange(d, d + 1) =~= seq!['.']);
            }
        }
    }
}

proof fn lemma_ops_split(d: Disk, a: Seq<FileOpView>, b: Seq<FileOpView>)
    ensures
        ops_done(d, a + b) == ops_done(ops_done(d, a), b),
    decreases b.len(),
{
    if b.len() == 0 {
        assert(a + b =~= a);
    } else {
        lemma_ops_split(d, a, b.drop_last());
        assert((a + b).drop_last() =~= a + b.drop_last());
        assert((a + b).last() == b.last());
    }
}

/// After the shifts, each of the newest `n` backups stands one on, the
/// newest's place is free where there was one, and no other file changed.
proof fn lemma_shifted(d: Disk, path: Seq<char>, n: nat)
    requires
        file_name(path) is Some,
        n < BACKUP_DEPTH,
    ensures
        ({
            let e = ops_done(d, shifts(path, n));
            &&& forall|k: nat|
                #![trigger backup_at(path, k)]
                0 < k <= n && d.contains_key(backup_at(path, k)) ==> e.contains_key(
                    backup_at(path, k + 1),
                ) && e[backup_at(path, k + 1)] == d[backup_at(path, k)]
            &&& forall|p: Seq<char>|
                #![trigger e.contains_key(p)]
                #![trigger e[p]]
                (forall|k: nat| 0 < k <= n + 1 ==> p != #[trigger] backup_at(path, k)) ==> (
                d.contains_key(p) <==> e.contains_key(p)) && d[p] == e[p]
        }),
    decreases n,
{
    let ops = shifts(path, n);
    if n > 0 {
        let first = FileOpView::Rename(backup_at(path, n), backup_at(path, n + 1));
        let rest = shifts(path, (n - 1) as nat);
        lemma_ops_split(d, seq![first], rest);
        assert(seq![first].drop_last() =~= Seq::<FileOpView>::empty());
        assert(ops_done(d, seq![first].drop_last()) == d);
        let d1 = op_done(d, first);
        assert(ops_done(d, seq![first]) == d1);
        assert(ops == seq![first] + rest);
        lemma_shifted(d1, path, (n - 1) as nat);
        let e = ops_done(d1, rest);
        assert(e == ops_done(d, ops));
        assert forall|k: nat|
            #![trigger backup_at(path, k)]
            0 < k <= n && d.contains_key(backup_at(path, k)) implies e.contains_key(
            backup_at(path, k + 1),
        ) && e[backup_at(path, k + 1)] == d[backup_at(path, k)] by {
            if k == n {
                let p = backup_at(path, n + 1);
                assert forall|j: nat| 0 < j <= n implies p != #[trigger] backup_at(path, j) by {
                    lemma_places(path, n + 1, j);
                }
                assert(d1.contains_key(p));
                assert(e.contains_key(p));
            } else {
                lemma_places(path, k, n);
                lemma_places(path, k, n + 1);
                assert(d1.contains_key(backup_at(path, k)));
            }
        }
        assert forall|p: Seq<char>|
            #![trigger e.contains_key(p)]
            #![trigger e[p]]
            (forall|k: nat| 0 < k <= n + 1 ==> p != #[trigger] backup_at(path, k)) implies (
        d.contains_key(p) <==> e.contains_key(p)) && d[p] == e[p] by {
            assert(p != backup_at(path, n) && p != backup_at(path, n + 1));
            assert(d1.contains_key(p) <==> d.contains_key(p));
            assert(e.contains_key(p) <==> d1.contains_key(p));
        }
    }
}

/// A replaced text is the newest backup, every backup before it but the
/// oldest stands one on, and no file but these and the staging place
/// changed.
pub proof fn every_write_is_backed_up(
    d: Disk,
    path: Seq<char>,
    original: Seq<char>,
    updated: Seq<char>,
)
    requires
        file_name(path) is Some,
        updated != original,
    ensures
        ({
            let e = ops_done(d, backed_up(path, original, updated));
            &&& e.contains_key(path) && e[path] == updated
            &&& e.contains_key(backup_at(path, 1)) && e[backup_at(path, 1)] == original
            &&& forall|k: nat|
                #![trigger backup_at(path, k)]
                0 < k < BACKUP_DEPTH && d.contains_key(backup_at(path, k)) ==> e.contains_key(
                    backup_at(path, k + 1),
                ) && e[backup_at(path, k + 1)] == d[backup_at(path, k)]
            &&& forall|p: Seq<char>|
                #![trigger e.contains_key(p)]
                #![trigger e[p]]
                p != path && p != staged_at(path) && (forall|k: nat|
                    0 < k <= BACKUP_DEPTH ==> p != #[trigger] backup_at(path, k)) ==> (
                d.contains_key(p) <==> e.contains_key(p)) && d[p] == e[p]
        }),
{
    let n = (BACKUP_DEPTH - 1) as nat;
    let tail = seq![
        FileOpView::Write(backup_at(path, 1), original),
        FileOpView::Write(staged_at(path), updated),
        FileOpView::Rename(staged_at(path), path),
    ];
    let e = ops_done(d, backed_up(path, original, updated));
    lemma_ops_split(d, shifts(path, n), tail);
    lemma_shifted(d, path, n);
    let f = ops_done(d, shifts(path, n));
    lemma_three(f, tail[0], tail[1], tail[2]);
    lemma_places(path, 1, 1);
    assert forall|k: nat|
        #![trigger backup_at(path, k)]
        0 < k < BACKUP_DEPTH && d.contains_key(backup_at(path, k)) implies e.contains_key(
        backup_at(path, k + 1),
    ) && e[backup_at(path, k + 1)] == d[backup_at(path, k)] by {
        lemma_places(path, k + 1, 1);
        assert(f.contains_key(backup_at(path, k + 1)));
    }
    assert forall|p: Seq<char>|
        #![trigger e.contains_key(p)]
        #![trigger e[p]]
        p != path && p != staged_at(path) && (forall|k: nat|
            0 < k <= BACKUP_DEPTH ==> p != #[trigger] backup_at(path, k)) implies (d.contains_key(p)
        <==> e.contains_key(p)) && d[p] == e[p] by {
        assert(p != backup_at(path, 1));
        assert(f.contains_key(p) <==> d.contains_key(p));
    }
}

proof fn lemma_three(d: Disk, a: FileOpView, b: FileOpView, c: FileOpView)
    ensures
        ops_done(d, seq![a, b, c]) == op_done(op_done(op_done(d, a), b), c),
{
    assert(seq![a, b, c].drop_last() =~= seq![a, b]);
    assert(seq![a, b].drop_last() =~= seq![a]);
    assert(seq![a].drop_last() =~= Seq::<FileOpView>::empty());
    assert(ops_done(d, seq![a].drop_last()) == d);
    assert(ops_done(d, seq![a]) == op_done(d, a));
    assert(ops_done(d, seq![a, b]) == op_done(op_done(d, a), b));
}

/// Restoring puts the backup in place and the text in the backup's place;
/// restoring twice leaves every file as it was.
pub proof fn restoring_twice_toggles_back(d: Disk, path: Seq<char>)
    requires
        file_name(path) is Some,
        d.contains_key(path),
        d.contains_key(backup_at(path, 1)),
        !d.contains_key(staged_at(path)),
    ensures
        ({
            let bak = backup_at(path, 1);
            let once = ops_done(d, swapped(path, d[path], d[bak]));
            let twice = ops_done(once, swapped(path, once[path], once[bak]));
            &&& once == d.insert(path, d[bak]).insert(bak, d[path])
            &&& twice == d
        }),
{
    let bak = backup_at(path, 1);
    lemma_places(path, 1, 1);
    let s = swapped(path, d[path], d[bak]);
    lemma_three(d, s[0], s[1], s[2]);
    let once = ops_done(d, s);
    assert(once =~= d.insert(path, d[bak]).insert(bak, d[path]));
    let t = swapped(path, once[path], once[bak]);
    lemma_three(once, t[0], t[1], t[2]);
    assert(ops_done(once, t) =~= d);
}

/// What a write replaced comes back with a restore.
pub proof fn a_write_can_be_undone(
    d: Disk,
    path: Seq<char>,
    original: Seq<char>,
    updated: Seq<char>,
)
    requires
        file_name(path) is Some,
        updated != original,
    ensures
        ({
            let e = ops_done(d, backed_up(path, original, updated));
            let back = ops_done(e, swapped(path, e[path], e[backup_at(path, 1)]));
            back.contains_key(path) && back[path] == original
        }),
{
    every_write_is_backed_up(d, path, original, updated);
    let e = ops_done(d, backed_up(path, original, updated));
    let s = swapped(path, e[path], e[backup_at(path, 1)]);
    lemma_places(path, 1, 1);
    lemma_three(e, s[0], s[1], s[2]);
}

/// The model's entry stands in the source just as a sync would write it: the
/// patch for it says nothing that is not there.
pub open spec fn up_to_date(s: Seq<char>, d: DesiredModel, doc: Option<JsonView>) -> bool {
    &&& entry_in(doc, d.id@) matches Some(e)
    &&& models_in(s, PROVIDER_ID@) matches Ok(models)
    &&& prop_value(models, d.id@) matches Some(node)
    &&& placed(bytes(s), node)
    &&& stands(
        s,
        node,
        patch_of(
            d,
            bool_of_json(member(e, "tool_call"@)) is None,
            member(e, "modalities"@) is None,
        )->Object_0,
    )
}

/// A sync of models whose entries are all up to date leaves the file as it
/// is, to the last character.
pub proof fn syncing_what_stands_changes_nothing(
    s: Seq<char>,
    desired: Seq<DesiredModel>,
    doc: Option<JsonView>,
)
    requires
        forall|i: int| 0 <= i < desired.len() ==> up_to_date(s, #[trigger] desired[i], doc),
    ensures
        sync_steps(s, desired, doc) == Ok::<Seq<char>, SyncErrorView>(s),
    decreases desired.len(),
{
    if desired.len() > 0 {
        let before = desired.drop_last();
        assert forall|i: int| 0 <= i < before.len() implies up_to_date(
            s,
            #[trigger] before[i],
            doc,
        ) by {
            assert(before[i] == desired[i]);
        }
        syncing_what_stands_changes_nothing(s, before, doc);
        let d = desired[desired.len() - 1];
        assert(up_to_date(s, d, doc));
        let e = entry_in(doc, d.id@)->0;
        let node = prop_value(models_in(s, PROVIDER_ID@)->Ok_0, d.id@)->0;
        let patch = patch_of(
            d,
            bool_of_json(member(e, "tool_call"@)) is None,
            member(e, "modalities"@) is None,
        );
        merging_what_stands_changes_nothing(s, node, patch->Object_0);
    }
}

/// The parser finds the model in the text as a sync writes it: the entry says
/// whether it calls tools where that is known, and names its modalities where
/// it sees, and its context stands as it is rendered.
pub open spec fn reads_back(t: Seq<char>, d: DesiredModel) -> bool {
    let want = number_view(safe_context(d.context));
    &&& doc_of(t) matches Ok(doc)
    &&& entry_in(doc, d.id@) matches Some(e)
    &&& d.tool_call is Some ==> bool_of_json(member(e, "tool_call"@)) is Some
    &&& d.vision ==> member(e, "modalities"@) is Some
    &&& models_in(t, PROVIDER_ID@) matches Ok(models)
    &&& prop_value(models, d.id@) matches Some(node)
    &&& placed(bytes(t), node)
    &&& prop_value(node, "limit"@) matches Some(limit)
    &&& limit.props is Some
    &&& prop_value(limit, "context"@) matches Some(context)
    &&& cut(t, context.start, context.end) == value_at(want, property_indent(bytes(t), limit))
}

proof fn lemma_reads_back(t: Seq<char>, d: DesiredModel)
    requires
        reads_back(t, d),
    ensures
        up_to_date(t, d, doc_of(t)->Ok_0),
{
    let e = entry_in(doc_of(t)->Ok_0, d.id@)->0;
    let no_tool_call = bool_of_json(member(e, "tool_call"@)) is None;
    let no_modalities = member(e, "modalities"@) is None;
    let want = number_view(safe_context(d.context));
    let inner = seq![("context"@, want)];
    let patch = patch_of(d, no_tool_call, no_modalities)->Object_0;
    assert(patch =~= seq![("limit"@, JsonView::Object(inner))]);
    let node = prop_value(models_in(t, PROVIDER_ID@)->Ok_0, d.id@)->0;
    let limit = prop_value(node, "limit"@)->0;
    reveal_with_fuel(key_from, 2);
    assert(stands(t, limit, inner)) by {
        assert forall|k: int|
            0 <= k < limit.props->0.len() && prop_from(
                limit.props->0,
                limit.props->0[k].name,
                0,
            ) == Some(k) && key_from(inner, (#[trigger] limit.props->0[k]).name, 0) is Some implies cut(
            t,
            limit.props->0[k].value.start,
            limit.props->0[k].value.end,
        ) == value_at(want, property_indent(bytes(t), limit)) by {
            assert(limit.props->0[k].name == "context"@);
        }
    }
    assert forall|k: int|
        0 <= k < node.props->0.len() && prop_from(node.props->0, node.props->0[k].name, 0) == Some(
            k,
        ) && key_from(patch, (#[trigger] node.props->0[k]).name, 0) is Some implies
        node.props->0[k].value == limit by {
        assert(node.props->0[k].name == "limit"@);
    }
}

/// A second sync of the same models leaves the text of the first as it is, to
/// the last character: it adds nothing and finds every model there. This is
/// for a text in which the parser finds what the first sync wrote.
pub proof fn a_second_sync_changes_nothing(
    s: Seq<char>,
    base_url: Seq<char>,
    desired: Seq<DesiredModel>,
)
    requires
        synced(s, base_url, desired) is Ok,
        ({
            let t = synced(s, base_url, desired)->Ok_0.0;
            &&& models_in(t, PROVIDER_ID@) is Ok
            &&& doc_of(t) is Ok
            &&& forall|i: int| 0 <= i < desired.len() ==> reads_back(t, #[trigger] desired[i])
        }),
    ensures
        ({
            let t = synced(s, base_url, desired)->Ok_0.0;
            let doc = doc_of(t)->Ok_0;
            &&& synced(t, base_url, desired) == Ok::<
                (Seq<char>, Option<JsonView>),
                SyncErrorView,
            >((t, doc))
            &&& ids_where(desired, doc, false).len() == 0
            &&& ids_where(desired, doc, true) == desired_ids(desired)
        }),
{
    let t = synced(s, base_url, desired)->Ok_0.0;
    let doc = doc_of(t)->Ok_0;
    assert forall|i: int| 0 <= i < desired.len() implies up_to_date(
        t,
        #[trigger] desired[i],
        doc,
    ) by {
        assert(reads_back(t, desired[i]));
        lemma_reads_back(t, desired[i]);
    }
    syncing_what_stands_changes_nothing(t, desired, doc);
    lemma_all_there(desired, doc);
}

proof fn lemma_all_there(desired: Seq<DesiredModel>, doc: Option<JsonView>)
    requires
        forall|i: int|
            0 <= i < desired.len() ==> entry_in(doc, (#[trigger] desired[i]).id@) is Some,
    ensures
        ids_where(desired, doc, false).len() == 0,
        ids_where(desired, doc, true) == desired_ids(desired),
    decreases desired.len(),
{
    if desired.len() == 0 {
        assert(desired_ids(desired) =~= Seq::<Seq<char>>::empty());
    } else {
        let before = desired.drop_last();
        assert forall|i: int| 0 <= i < before.len() implies entry_in(
            doc,
            (#[trigger] before[i]).id@,
        ) is Some by {
            assert(before[i] == desired[i]);
        }
        lemma_all_there(before, doc);
        assert(entry_in(doc, desired[desired.len() - 1].id@) is Some);
        assert(desired_ids(desired) =~= desired_ids(before).push(desired.last().id@));
    }
}

/// An id is told where it is one of the desired models', and where the
/// document has it or has not.
proof fn lemma_told(desired: Seq<DesiredModel>, doc: Option<JsonView>, present: bool, id: Seq<char>)
    ensures
        ids_where(desired, doc, present).contains(id) <==> desired_ids(desired).contains(id) && (
        entry_in(doc, id) is Some) == present,
    decreases desired.len(),
{
    let told = ids_where(desired, doc, present);
    let ids = desired_ids(desired);
    if desired.len() > 0 {
        let before = ids_where(desired.drop_last(), doc, present);
        let last = desired.last().id@;
        lemma_told(desired.drop_last(), doc, present, id);
        assert(ids =~= desired_ids(desired.drop_last()).push(last));
        assert(ids.contains(id) <==> desired_ids(desired.drop_last()).contains(id) || id == last) by {
            lemma_pushed(desired_ids(desired.drop_last()), last, id);
        }
        lemma_pushed(before, last, id);
    }
}

proof fn lemma_pushed(s: Seq<Seq<char>>, x: Seq<char>, id: Seq<char>)
    ensures
        s.push(x).contains(id) <==> s.contains(id) || id == x,
{
    let t = s.push(x);
    if s.contains(id) {
        let i = choose|i: int| 0 <= i < s.len() && s[i] == id;
        assert(t[i] == id);
    }
    if id == x {
        assert(t[s.len() as int] == id);
    }
    if t.contains(id) {
        let i = choose|i: int| 0 <= i < t.len() && t[i] == id;
        if i < s.len() {
            assert(s[i] == id);
        }
    }
}

/// The models of a sync are told as added or as updated, each as one of the
/// two and no other with them; an orphan is told as neither.
pub proof fn added_and_updated_part_the_desired(
    desired: Seq<DesiredModel>,
    doc: Option<JsonView>,
    id: Seq<char>,
)
    ensures
        ({
            let added = ids_where(desired, doc, false);
            let updated = ids_where(desired, doc, true);
            &&& added.len() + updated.len() == desired.len()
            &&& added.contains(id) || updated.contains(id) <==> desired_ids(desired).contains(id)
            &&& !(added.contains(id) && updated.contains(id))
            &&& ids_besides(models_of_doc(doc), desired_ids(desired)).contains(id)
                ==> !added.contains(id) && !updated.contains(id)
        }),
{
    lemma_told(desired, doc, false, id);
    lemma_told(desired, doc, true, id);
    lemma_told_lengths(desired, doc);
    lemma_besides(models_of_doc(doc), desired_ids(desired), id);
}

proof fn lemma_told_lengths(desired: Seq<DesiredModel>, doc: Option<JsonView>)
    ensures
        ids_where(desired, doc, false).len() + ids_where(desired, doc, true).len()
            == desired.len(),
    decreases desired.len(),
{
    if desired.len() > 0 {
        lemma_told_lengths(desired.drop_last(), doc);
    }
}

proof fn lemma_besides(entries: Seq<(Seq<char>, JsonView)>, keep: Seq<Seq<char>>, id: Seq<char>)
    ensures
        ids_besides(entries, keep).contains(id) ==> !keep.contains(id),
    decreases entries.len(),
{
    if entries.len() > 0 {
        lemma_besides(entries.drop_last(), keep, id);
        lemma_pushed(ids_besides(entries.drop_last(), keep), entries.last().0, id);
    }
}

/// To write one model keeps the text of every other entry, an orphan's among
/// them, to the last character: what stands before it and behind it is the
/// result.
pub proof fn other_entries_keep_their_text(
    s: Seq<char>,
    d: DesiredModel,
    doc: Option<JsonView>,
    k: int,
) -> (r: (Seq<char>, Seq<char>))
    requires
        sync_step(s, d, doc) is Ok,
        models_in(s, PROVIDER_ID@) is Ok,
        placed(bytes(s), models_in(s, PROVIDER_ID@)->Ok_0),
        0 <= k < models_in(s, PROVIDER_ID@)->Ok_0.props->0.len(),
        models_in(s, PROVIDER_ID@)->Ok_0.props->0[k].name != d.id@,
    ensures
        ({
            let p = models_in(s, PROVIDER_ID@)->Ok_0.props->0[k];
            sync_step(s, d, doc)->Ok_0 == r.0 + cut(s, p.start, p.value.end) + r.1
        }),
{
    match entry_in(doc, d.id@) {
        Some(e) => {
            let patch = patch_of(
                d,
                bool_of_json(member(e, "tool_call"@)) is None,
                member(e, "modalities"@) is None,
            );
            merging_keeps_the_other_entries(s, PROVIDER_ID@, d.id@, patch, k)
        },
        None => adding_keeps_the_other_entries(s, PROVIDER_ID@, d.id@, entry_of(d), k),
    }
}

/// A hand-set `tool_call` is never overwritten: the patch for an entry that
/// has one does not hold the key.
pub proof fn a_set_tool_call_is_sacred(d: DesiredModel, fill_modalities: bool)
    ensures
        member(patch_of(d, false, fill_modalities), "tool_call"@) is None,
{
    reveal_strlit("limit");
    reveal_strlit("modalities");
    reveal_strlit("tool_call");
    assert("limit"@.len() == 5 && "modalities"@.len() == 10 && "tool_call"@.len() == 9);
    reveal_with_fuel(key_from, 4);
}

/// The same for `modalities`; and a model without vision never gets them.
pub proof fn set_modalities_are_sacred(d: DesiredModel, fill_tool_call: bool, fill: bool)
    requires
        !fill || !d.vision,
    ensures
        member(patch_of(d, fill_tool_call, fill), "modalities"@) is None,
{
    reveal_strlit("limit");
    reveal_strlit("modalities");
    reveal_strlit("tool_call");
    assert("limit"@.len() == 5 && "modalities"@.len() == 10 && "tool_call"@.len() == 9);
    reveal_with_fuel(key_from, 4);
}

/// The written context is never above the measured one, and never more than
/// 5% and one step of 256 below it.
pub proof fn the_haircut_is_bounded(measured: u64)
    ensures
        safe_context(measured) <= measured,
        measured - safe_context(measured) <= measured / 20 + 255,
{
}

/// A measured or offered orphan is never commented out.
pub proof fn ghosts_are_unbacked(
    orphans: Seq<Seq<char>>,
    offered: Seq<Seq<char>>,
    measured: Seq<(Seq<char>, Measurement)>,
    k: int,
)
    requires
        0 <= k < ghosts_of(orphans, offered, measured).len(),
    ensures
        is_ghost(ghosts_of(orphans, offered, measured)[k], offered, measured),
        orphans.contains(ghosts_of(orphans, offered, measured)[k]),
    decreases orphans.len(),
{
    let before = ghosts_of(orphans.drop_last(), offered, measured);
    let id = ghosts_of(orphans, offered, measured)[k];
    if k < before.len() {
        ghosts_are_unbacked(orphans.drop_last(), offered, measured, k);
        let i = choose|i: int| 0 <= i < orphans.drop_last().len() && orphans.drop_last()[i] == id;
        assert(orphans[i] == id);
    } else {
        assert(orphans[orphans.len() - 1] == id);
    }
}

/// A fresh entry promises what the server will have. Its context is a multiple
/// of 256, at least a twentieth below what was measured, and no more than 255
/// further down. Its output is at most 32768 and never more than half of the
/// context, so that the prompt keeps its room; below that cap it is half of
/// the context. The name is the display name, tool calls are taken to work
/// where nothing is known, and images are taken by vision models alone.
pub proof fn a_fresh_entry_leaves_room_for_the_prompt(d: DesiredModel)
    ensures
        ({
            let limit = member(entry_of(d), "limit"@);
            let context = u64_of_json(member_of(limit, "context"@));
            let output = u64_of_json(member_of(limit, "output"@));
            &&& context is Some && output is Some
            &&& context->0 % 256 == 0
            &&& context->0 * 20 <= d.context * 19 + 19
            &&& d.context * 19 < (context->0 + 256) * 20
            &&& output->0 <= 32768
            &&& 2 * output->0 <= context->0
            &&& context->0 / 2 <= 32768 ==> output->0 == context->0 / 2
            &&& context->0 / 2 > 32768 ==> output->0 == 32768
            &&& member(entry_of(d), "name"@) == Some(JsonView::Text(d.display_name@))
            &&& bool_of_json(member(entry_of(d), "tool_call"@)) == Some(
                d.tool_call != Some(false),
            )
            &&& member(entry_of(d), "modalities"@) is Some <==> d.vision
            &&& d.vision ==> {
                let m = member(entry_of(d), "modalities"@);
                &&& member_of(m, "input"@) == Some(
                    JsonView::Array(seq![JsonView::Text("text"@), JsonView::Text("image"@)]),
                )
                &&& member_of(m, "output"@) == Some(JsonView::Array(seq![JsonView::Text("text"@)]))
            }
        }),
{
    reveal_strlit("limit");
    reveal_strlit("modalities");
    reveal_strlit("name");
    reveal_strlit("tool_call");
    reveal_strlit("context");
    reveal_strlit("output");
    reveal_strlit("input");
    assert("limit"@.len() == 5 && "modalities"@.len() == 10 && "name"@.len() == 4
        && "tool_call"@.len() == 9);
    assert("context"@.len() == 7 && "output"@.len() == 6);
    assert("input"@.len() == 5);
    reveal_with_fuel(key_from, 5);
}

/// A patch writes the context that a fresh entry would have, and of the limits
/// nothing else: an output that was set by hand stays.
pub proof fn a_patch_writes_the_context_alone(d: DesiredModel, tool_call: bool, modalities: bool)
    ensures
        ({
            let limit = member(patch_of(d, tool_call, modalities), "limit"@);
            &&& member_of(limit, "context"@) == member_of(
                member(entry_of(d), "limit"@),
                "context"@,
            )
            &&& member_of(limit, "context"@) is Some
            &&& member_of(limit, "output"@) is None
            &&& member(patch_of(d, tool_call, modalities), "name"@) is None
            &&& bool_of_json(member(patch_of(d, tool_call, modalities), "tool_call"@)) == (
            if tool_call {
                d.tool_call
            } else {
                None
            })
            &&& member(patch_of(d, tool_call, modalities), "modalities"@) is Some <==> modalities
                && d.vision
        }),
{
    reveal_strlit("limit");
    reveal_strlit("modalities");
    reveal_strlit("name");
    reveal_strlit("tool_call");
    reveal_strlit("context");
    reveal_strlit("output");
    assert("limit"@.len() == 5 && "modalities"@.len() == 10 && "name"@.len() == 4
        && "tool_call"@.len() == 9);
    assert("context"@.len() == 7 && "output"@.len() == 6);
    reveal_with_fuel(key_from, 5);
}

/// A model that the document does not have is added with an entry of its own;
/// one that it has is patched, and what its entry says of tool calls and of
/// modalities is in no patch.
pub proof fn what_is_there_is_patched_and_what_is_not_is_added(
    s: Seq<char>,
    d: DesiredModel,
    doc: Option<JsonView>,
)
    ensures
        entry_in(doc, d.id@) is None ==> (sync_step(s, d, doc) is Ok <==> added(
            s,
            "llamacpp"@,
            d.id@,
            entry_of(d),
        ) is Ok) && (sync_step(s, d, doc) is Ok ==> sync_step(s, d, doc)->Ok_0 == added(
            s,
            "llamacpp"@,
            d.id@,
            entry_of(d),
        )->Ok_0),
        entry_in(doc, d.id@) matches Some(e) ==> exists|p: JsonView|
            ({
                &&& (#[trigger] merged(s, "llamacpp"@, d.id@, p) is Ok <==> sync_step(s, d, doc)
                    is Ok)
                &&& sync_step(s, d, doc) is Ok ==> merged(s, "llamacpp"@, d.id@, p)->Ok_0
                    == sync_step(s, d, doc)->Ok_0
                &&& member_of(member(p, "limit"@), "context"@) == member_of(
                    member(entry_of(d), "limit"@),
                    "context"@,
                )
                &&& bool_of_json(member(e, "tool_call"@)) is Some ==> member(p, "tool_call"@)
                    is None
                &&& member(e, "modalities"@) is Some ==> member(p, "modalities"@) is None
                &&& bool_of_json(member(e, "tool_call"@)) is None ==> bool_of_json(
                    member(p, "tool_call"@),
                ) == d.tool_call
                &&& member(e, "modalities"@) is None && d.vision ==> member(p, "modalities"@)
                    is Some
            }),
{
    if let Some(e) = entry_in(doc, d.id@) {
        let fill_tool_call = bool_of_json(member(e, "tool_call"@)) is None;
        let fill_modalities = member(e, "modalities"@) is None;
        let p = patch_of(d, fill_tool_call, fill_modalities);
        a_patch_writes_the_context_alone(d, fill_tool_call, fill_modalities);
        if !fill_tool_call {
            a_set_tool_call_is_sacred(d, fill_modalities);
        }
        if !fill_modalities {
            set_modalities_are_sacred(d, fill_tool_call, fill_modalities);
        }
        assert(merged(s, "llamacpp"@, d.id@, p) is Ok <==> sync_step(s, d, doc) is Ok);
    }
}

/// Exactly those orphans are ghosts that the router does not offer and that no
/// measurement knows.
pub proof fn every_unbacked_orphan_is_a_ghost(
    orphans: Seq<Seq<char>>,
    offered: Seq<Seq<char>>,
    measured: Seq<(Seq<char>, Measurement)>,
    id: Seq<char>,
)
    requires
        crate::textmap::sorted(measured),
    ensures
        ghosts_of(orphans, offered, measured).contains(id) <==> orphans.contains(id)
            && !offered.contains(id) && !(exists|i: int|
            0 <= i < measured.len() && (#[trigger] measured[i]).0 == id),
    decreases orphans.len(),
{
    crate::textmap::lemma_has_key(measured, id);
    if orphans.len() > 0 {
        let before = orphans.drop_last();
        every_unbacked_orphan_is_a_ghost(before, offered, measured, id);
        assert(orphans =~= before.push(orphans.last()));
        lemma_pushed(before, orphans.last(), id);
        lemma_pushed(ghosts_of(before, offered, measured), orphans.last(), id);
    }
}

/// The context that is written is the largest multiple of 256 within nineteen twentieths of
/// what was measured, rounded up to a whole token, and a larger measurement never gives less.
pub proof fn a_twentieth_is_held_back(a: u64, b: u64)
    requires
        a <= b,
    ensures
        safe_context(a) % 256 == 0,
        20 * safe_context(a) <= 19 * a + 19,
        19 * a < 20 * (safe_context(a) + 256),
        safe_context(a) <= safe_context(b),
{
}

/// An orphan is an entry whose id is not desired, and every such entry is one.
pub proof fn orphans_are_what_is_not_desired(
    entries: Seq<(Seq<char>, JsonView)>,
    keep: Seq<Seq<char>>,
    id: Seq<char>,
)
    ensures
        ids_besides(entries, keep).contains(id) <==> !keep.contains(id) && exists|i: int|
            0 <= i < entries.len() && (#[trigger] entries[i]).0 == id,
    decreases entries.len(),
{
    if entries.len() > 0 {
        let s = entries.drop_last();
        let n = entries.len() - 1;
        orphans_are_what_is_not_desired(s, keep, id);
        let before = ids_besides(s, keep);
        let now = ids_besides(entries, keep);
        assert(entries[n] == entries.last());
        if before.contains(id) {
            let k = choose|k: int| 0 <= k < before.len() && before[k] == id;
            assert(now[k] == id);
            let i = choose|i: int| 0 <= i < s.len() && (#[trigger] s[i]).0 == id;
            assert(entries[i].0 == id);
        }
        if now.contains(id) && !before.contains(id) {
            let k = choose|k: int| 0 <= k < now.len() && now[k] == id;
            assert(k == before.len() || before[k] == id);
            assert(entries[n].0 == id);
        }
        if !keep.contains(id) && exists|i: int|
            0 <= i < entries.len() && (#[trigger] entries[i]).0 == id {
            let i = choose|i: int| 0 <= i < entries.len() && (#[trigger] entries[i]).0 == id;
            if i < n {
                assert(s[i].0 == id);
            } else {
                assert(now[now.len() - 1] == id);
            }
        }
    }
}

} // verus!
