//! pi coding-agent connector. pi reads `~/.pi/agent/models.json`, a
//! `{ providers: { <key>: { baseUrl, api, models: [...] } } }` registry.
//!
//! Ownership rules (same spirit as the OpenCode connector):
//! - We own ONLY `providers.modelsteward`. Every other value of the
//!   document round-trips untouched.
//! - `~/.pi/agent/` absent = pi not installed = skip, never an error.
//! - Always back up before writing.
//! - pi strips `//` comments on read, but a JSON round-trip would DELETE
//!   them — a file that fails a strict parse is refused with an honest error
//!   instead of silently flattened.
use crate::json::{
    array, built, entry, get_in, increasing, json_document, json_pretty, json_views, keys_sorted,
    lemma_alike_whole, member, member_of, number, object, opt_json, pair_views, plain, pretty,
    reads_as, set_member, setting_keeps_the_order, str_in, text, text_of_json, u64_in, u64_of_json,
    whole, with_member, Json, JsonView,
};
use crate::opencode::{
    desired_ids, ids_of, number_view, safe_context, safety_context, DesiredModel,
};
use crate::path::{join_of, join_path, parent, parent_of, with_extension, with_extension_of};
use crate::preset::TextSet;
use crate::settings::{home_of, real_home, Env};
use crate::text::{
    before, chars_of, copy_text, holds_text, lemma_text_lt_transitive, lemma_texts_push, same_text,
    text_lt, texts,
};
use crate::textmap::{has_key, put, TextMap};
use vstd::prelude::*;
use vstd::string::*;

verus! {

/// The provider key we own inside models.json.
pub const PROVIDER_KEY: &'static str = "modelsteward";

/// Where pi keeps its models.
pub fn default_models_path(e: &Env) -> (r: String)
    ensures
        r@ == join_path(home_of(*e), ".pi/agent/models.json"@),
{
    join_of(real_home(e).as_str(), ".pi/agent/models.json")
}

/// pi is "installed" when its agent dir exists — models.json itself may
/// legitimately not exist yet (it is created then).
pub fn pi_present(models_path: &str, agent_dir_exists: bool) -> (r: bool)
    ensures
        r == (parent(models_path@) is Some && agent_dir_exists),
{
    parent_of(models_path).is_some() && agent_dir_exists
}

/// Where the file is copied before it is written.
pub fn backup_path(path: &str) -> (r: String)
    ensures
        r@ == with_extension(path@, "json.modelsteward.bak"@),
{
    with_extension_of(path, "json.modelsteward.bak")
}

#[derive(Debug, Clone, PartialEq)]
pub struct PiSyncReport {
    pub added: Vec<String>,
    pub updated: Vec<String>,
    /// Entries dropped from OUR provider because the fleet no longer knows
    /// them.
    pub removed: Vec<String>,
    /// Entries without a measurement that the fleet still knows: a transient
    /// load failure never deletes one.
    pub kept_unmeasured: Vec<String>,
    pub created_file: bool,
    /// ~/.pi/agent doesn't exist — pi isn't installed; nothing written.
    pub skipped_missing: bool,
}

impl Default for PiSyncReport {
    fn default() -> (r: PiSyncReport)
        ensures
            r.added@.len() == 0,
            r.updated@.len() == 0,
            r.removed@.len() == 0,
            r.kept_unmeasured@.len() == 0,
            !r.created_file,
            !r.skipped_missing,
    {
        PiSyncReport {
            added: Vec::new(),
            updated: Vec::new(),
            removed: Vec::new(),
            kept_unmeasured: Vec::new(),
            created_file: false,
            skipped_missing: false,
        }
    }
}

// -------------------------------------------------------------- the provider block

/// The place of an id behind those that do not stand after it.
pub open spec fn slot(s: Seq<Seq<char>>, id: Seq<char>) -> int
    decreases s.len(),
{
    if s.len() > 0 && text_lt(id, s.last()) {
        slot(s.drop_last(), id)
    } else {
        s.len() as int
    }
}

/// The places of the models in the order of their ids; of equal ids the
/// earlier one first.
pub open spec fn by_id(ids: Seq<Seq<char>>) -> Seq<int>
    decreases ids.len(),
{
    if ids.len() == 0 {
        Seq::empty()
    } else {
        let before = by_id(ids.drop_last());
        before.insert(
            slot(before.map_values(|i: int| ids[i]), ids.last()),
            ids.len() - 1,
        )
    }
}

/// A model of our provider block: measured context (with the same 5% safety
/// haircut opencode.json gets), measured vision, maxTokens mirroring pi's own
/// native-provider convention (= contextWindow).
pub open spec fn model_json(d: DesiredModel) -> JsonView {
    let ctx = safe_context(d.context);
    JsonView::Object(
        seq![
            ("contextWindow"@, number_view(ctx)),
            ("id"@, JsonView::Text(d.id@)),
            (
                "input"@,
                JsonView::Array(
                    if d.vision {
                        seq![JsonView::Text("text"@), JsonView::Text("image"@)]
                    } else {
                        seq![JsonView::Text("text"@)]
                    },
                ),
            ),
            ("maxTokens"@, number_view(ctx)),
            ("name"@, JsonView::Text(d.display_name@)),
        ],
    )
}

/// The desired models in the order of their ids.
pub open spec fn models_json(desired: Seq<DesiredModel>) -> Seq<JsonView> {
    by_id(desired_ids(desired)).map_values(|i: int| model_json(desired[i]))
}

/// The provider block around its models.
pub open spec fn block_json(base_url: Seq<char>, models: Seq<JsonView>) -> JsonView {
    JsonView::Object(
        seq![
            ("api"@, JsonView::Text("openai-completions"@)),
            ("apiKey"@, JsonView::Text("modelsteward"@)),
            ("baseUrl"@, JsonView::Text(base_url)),
            ("models"@, JsonView::Array(models)),
            ("name"@, JsonView::Text("modelsteward (measured llama.cpp)"@)),
        ],
    )
}

fn model_entry(d: &DesiredModel) -> (r: Json)
    ensures
        r@ == model_json(*d),
{
    let ctx = safety_context(d.context);
    let mut input: Vec<Json> = vec![text("text")];
    if d.vision {
        input.push(text("image"));
    }
    assert(json_views(input@) =~= if d.vision {
        seq![JsonView::Text("text"@), JsonView::Text("image"@)]
    } else {
        seq![JsonView::Text("text"@)]
    });
    let v: Vec<(String, Json)> = vec![
        entry("contextWindow", number(ctx)),
        entry("id", text(d.id.as_str())),
        entry("input", array(input)),
        entry("maxTokens", number(ctx)),
        entry("name", text(d.display_name.as_str())),
    ];
    assert(pair_views(v@) =~= model_json(*d)->Object_0);
    object(v)
}

proof fn lemma_entry_whole(d: DesiredModel)
    ensures
        whole(model_json(d)),
{
    reveal_with_fuel(whole, 3);
    let s = model_json(d)->Object_0;
    assert forall|i: int| 0 <= i < s.len() implies whole((#[trigger] s[i]).1) by {
        if i == 2 {
            let input = s[i].1->Array_0;
            assert forall|k: int| 0 <= k < input.len() implies whole(#[trigger] input[k]) by {}
        }
    }
}

fn provider_block(base_url: &str, models: Vec<Json>) -> (r: Json)
    ensures
        r@ == block_json(base_url@, json_views(models@)),
{
    let v: Vec<(String, Json)> = vec![
        entry("api", text("openai-completions")),
        // llama-server without --api-key ignores it; pi's schema wants a
        // non-empty string.
        entry("apiKey", text("modelsteward")),
        entry("baseUrl", text(base_url)),
        entry("models", array(models)),
        entry("name", text("modelsteward (measured llama.cpp)")),
    ];
    assert(pair_views(v@) =~= block_json(base_url@, json_views(models@))->Object_0);
    object(v)
}

proof fn lemma_slot(s: Seq<Seq<char>>, id: Seq<char>)
    ensures
        0 <= slot(s, id) <= s.len(),
    decreases s.len(),
{
    if s.len() > 0 && text_lt(id, s.last()) {
        lemma_slot(s.drop_last(), id);
    }
}

proof fn lemma_by_id(ids: Seq<Seq<char>>)
    ensures
        by_id(ids).len() == ids.len(),
        forall|k: int| 0 <= k < ids.len() ==> 0 <= #[trigger] by_id(ids)[k] < ids.len(),
    decreases ids.len(),
{
    if ids.len() > 0 {
        let before = by_id(ids.drop_last());
        lemma_by_id(ids.drop_last());
        let names = before.map_values(|i: int| ids[i]);
        lemma_slot(names, ids.last());
    }
}

/// The places of the models in the order of their ids.
fn order_by_id(desired: &[DesiredModel]) -> (r: Vec<usize>)
    ensures
        r.len() == desired.len(),
        forall|k: int|
            0 <= k < r.len() ==> (#[trigger] r@[k]) < desired.len() && r@[k] as int == by_id(
                desired_ids(desired@),
            )[k],
{
    let ghost ids = desired_ids(desired@);
    let mut out: Vec<usize> = Vec::new();
    let mut i: usize = 0;
    assert(ids.take(0) =~= Seq::empty());
    while i < desired.len()
        invariant
            i <= desired.len(),
            ids == desired_ids(desired@),
            out.len() == i,
            by_id(ids.take(i as int)).len() == i,
            forall|k: int|
                0 <= k < i ==> (#[trigger] out@[k]) < i && out@[k] as int == by_id(
                    ids.take(i as int),
                )[k],
        decreases desired.len() - i,
    {
        let ghost t = ids.take(i + 1);
        assert(t.drop_last() =~= ids.take(i as int));
        assert(t.last() == ids[i as int]);
        let ghost prev = by_id(ids.take(i as int));
        let ghost names = prev.map_values(|j: int| t[j]);
        let id = chars_of(desired[i].id.as_str());
        let mut at: usize = out.len();
        assert(names.take(at as int) =~= names);
        while at > 0 && before(&id, &chars_of(desired[out[at - 1]].id.as_str()))
            invariant
                i < desired.len(),
                at <= out.len() == i,
                ids == desired_ids(desired@),
                t == ids.take(i + 1),
                prev.len() == i,
                names == prev.map_values(|j: int| t[j]),
                id@ == ids[i as int],
                forall|k: int|
                    0 <= k < i ==> (#[trigger] out@[k]) < i && out@[k] as int == prev[k],
                slot(names, id@) == slot(names.take(at as int), id@),
            decreases at,
        {
            assert(names.take(at as int).last() == names[at - 1]);
            assert(names[at - 1] == ids[out@[at - 1] as int]);
            assert(names.take(at as int).drop_last() =~= names.take(at - 1));
            at -= 1;
        }
        assert(slot(names.take(at as int), id@) == at) by {
            if at > 0 {
                assert(names.take(at as int).last() == names[at - 1]);
                assert(names[at - 1] == ids[out@[at - 1] as int]);
            }
        }
        let ghost old_out = out@;
        out.insert(at, i);
        assert(by_id(t) == prev.insert(at as int, i as int));
        i += 1;
        assert forall|k: int| 0 <= k < i implies (#[trigger] out@[k]) < i && out@[k] as int
            == by_id(t)[k] by {
            if k < at {
                assert(out@[k] == old_out[k]);
            } else if k > at {
                assert(out@[k] == old_out[k - 1]);
            }
        }
    }
    assert(ids.take(i as int) =~= ids);
    out
}

/// The desired models as pi writes them, in the order of their ids.
fn models_of(desired: &[DesiredModel]) -> (r: Vec<Json>)
    ensures
        json_views(r@) == models_json(desired@),
{
    let order = order_by_id(desired);
    let ghost ids = desired_ids(desired@);
    proof {
        lemma_by_id(ids);
    }
    let mut out: Vec<Json> = Vec::new();
    let mut i: usize = 0;
    while i < order.len()
        invariant
            i <= order.len(),
            ids == desired_ids(desired@),
            order.len() == desired.len(),
            by_id(ids).len() == ids.len(),
            forall|k: int|
                0 <= k < order.len() ==> (#[trigger] order@[k]) < desired.len() && order@[k] as int
                    == by_id(ids)[k],
            json_views(out@) == models_json(desired@).take(i as int),
        decreases order.len() - i,
    {
        let ghost sofar = json_views(out@);
        let m = model_entry(&desired[order[i]]);
        out.push(m);
        assert(json_views(out@) =~= sofar.push(m@));
        assert(models_json(desired@)[i as int] == m@);
        i += 1;
        assert(json_views(out@) =~= models_json(desired@).take(i as int));
    }
    assert(models_json(desired@).take(i as int) =~= models_json(desired@));
    out
}

/// Our provider block.
pub fn provider_json(base_url: &str, desired: &[DesiredModel]) -> (r: Json)
    ensures
        r@ == block_json(base_url@, models_json(desired@)),
{
    let models = models_of(desired);
    provider_block(base_url, models)
}

// ------------------------------------------------------------------------- sync

/// Our block of a document.
pub open spec fn our_block(doc: JsonView) -> Option<JsonView> {
    member_of(member(doc, "providers"@), PROVIDER_KEY@)
}

/// The models that our block lists.
pub open spec fn listed(doc: JsonView) -> Seq<JsonView> {
    match member_of(our_block(doc), "models"@) {
        Some(JsonView::Array(a)) => a,
        _ => Seq::empty(),
    }
}

/// The id of a listed model, where it has one.
pub open spec fn id_in(m: JsonView) -> Option<Seq<char>> {
    text_of_json(member(m, "id"@))
}

/// The listed model with an id; of several the last.
pub open spec fn with_id(models: Seq<JsonView>, id: Seq<char>) -> Option<JsonView>
    decreases models.len(),
{
    if models.len() == 0 {
        None
    } else if id_in(models.last()) == Some(id) {
        Some(models.last())
    } else {
        with_id(models.drop_last(), id)
    }
}

/// The ids that are listed, in order, each once.
pub open spec fn ids_listed(models: Seq<JsonView>) -> Seq<(Seq<char>, ())>
    decreases models.len(),
{
    if models.len() == 0 {
        Seq::empty()
    } else {
        let before = ids_listed(models.drop_last());
        match id_in(models.last()) {
            Some(id) => put(before, id, ()),
            None => before,
        }
    }
}

/// The ids of the desired models at these places that are not listed.
pub open spec fn added_ids(places: Seq<int>, desired: Seq<DesiredModel>, old_models: Seq<JsonView>) -> Seq<
    Seq<char>,
>
    decreases places.len(),
{
    if places.len() == 0 {
        Seq::empty()
    } else {
        let before = added_ids(places.drop_last(), desired, old_models);
        let d = desired[places.last()];
        if with_id(old_models, d.id@) is None {
            before.push(d.id@)
        } else {
            before
        }
    }
}

/// The ids of the desired models at these places that are listed otherwise.
pub open spec fn updated_ids(places: Seq<int>, desired: Seq<DesiredModel>, old_models: Seq<JsonView>) -> Seq<
    Seq<char>,
>
    decreases places.len(),
{
    if places.len() == 0 {
        Seq::empty()
    } else {
        let before = updated_ids(places.drop_last(), desired, old_models);
        let d = desired[places.last()];
        match with_id(old_models, d.id@) {
            Some(m) => if m == model_json(d) {
                before
            } else {
                before.push(d.id@)
            },
            None => before,
        }
    }
}

/// The listed ids that are not desired, and that the fleet knows or does not
/// know.
pub open spec fn undesired_ids(
    ids: Seq<(Seq<char>, ())>,
    desired: Seq<Seq<char>>,
    known: Seq<(Seq<char>, ())>,
    is_known: bool,
) -> Seq<Seq<char>>
    decreases ids.len(),
{
    if ids.len() == 0 {
        Seq::empty()
    } else {
        let before = undesired_ids(ids.drop_last(), desired, known, is_known);
        let id = ids.last().0;
        if !desired.contains(id) && has_key(known, id) == is_known {
            before.push(id)
        } else {
            before
        }
    }
}

/// The listed models with these ids.
pub open spec fn models_with(old_models: Seq<JsonView>, ids: Seq<Seq<char>>) -> Seq<JsonView> {
    Seq::new(ids.len(), |i: int| with_id(old_models, ids[i])->0)
}

/// Why models.json is left alone.
#[derive(Debug, Clone, PartialEq)]
pub enum PiSyncError {
    NotPlainJson { path: String, error: String },
    RootNotObject,
    ProvidersNotObject,
}

pub enum PiSyncErrorView {
    NotPlainJson(Seq<char>, Seq<char>),
    RootNotObject,
    ProvidersNotObject,
}

impl View for PiSyncError {
    type V = PiSyncErrorView;

    open spec fn view(&self) -> PiSyncErrorView {
        match *self {
            PiSyncError::NotPlainJson { path, error } => PiSyncErrorView::NotPlainJson(
                path@,
                error@,
            ),
            PiSyncError::RootNotObject => PiSyncErrorView::RootNotObject,
            PiSyncError::ProvidersNotObject => PiSyncErrorView::ProvidersNotObject,
        }
    }
}

impl PiSyncErrorView {
    /// The error in words.
    pub open spec fn text(self) -> Seq<char> {
        match self {
            PiSyncErrorView::NotPlainJson(path, error) => path
                + " isn't plain JSON (comments?) — refusing to rewrite it and lose your annotations; remove them or sync by hand: "@
                + error,
            PiSyncErrorView::RootNotObject => "models.json root is not an object"@,
            PiSyncErrorView::ProvidersNotObject => "models.json 'providers' is not an object"@,
        }
    }
}

impl PiSyncError {
    pub open spec fn text(self) -> Seq<char> {
        self@.text()
    }

    /// The error in words.
    pub fn message(&self) -> (r: String)
        ensures
            r@ == self.text(),
    {
        match self {
            PiSyncError::NotPlainJson { path, error } => {
                let mut s = path.clone();
                s.append(
                    " isn't plain JSON (comments?) — refusing to rewrite it and lose your annotations; remove them or sync by hand: ",
                );
                s.append(error.as_str());
                s
            },
            PiSyncError::RootNotObject => copy_text("models.json root is not an object"),
            PiSyncError::ProvidersNotObject => copy_text(
                "models.json 'providers' is not an object",
            ),
        }
    }
}

/// The document with our block in it; every other value stays.
pub open spec fn with_block(doc: JsonView, block: JsonView) -> Result<JsonView, PiSyncErrorView> {
    match doc {
        JsonView::Object(s) => match member(doc, "providers"@) {
            Some(JsonView::Object(p)) => Ok(
                JsonView::Object(
                    with_member(
                        s,
                        "providers"@,
                        JsonView::Object(with_member(p, PROVIDER_KEY@, block)),
                    ),
                ),
            ),
            Some(_) => Err(PiSyncErrorView::ProvidersNotObject),
            None => Ok(
                JsonView::Object(
                    with_member(
                        s,
                        "providers"@,
                        JsonView::Object(with_member(Seq::empty(), PROVIDER_KEY@, block)),
                    ),
                ),
            ),
        },
        _ => Err(PiSyncErrorView::RootNotObject),
    }
}

/// What is synced: the document that the file holds, or an empty registry
/// where there is no file.
pub open spec fn start_of(path: Seq<char>, file: Option<Seq<char>>) -> Result<
    JsonView,
    PiSyncErrorView,
> {
    match file {
        None => Ok(JsonView::Object(seq![("providers"@, JsonView::Object(Seq::empty()))])),
        Some(t) => match json_document(t) {
            Ok(d) => Ok(d),
            Err(e) => Err(PiSyncErrorView::NotPlainJson(path, e)),
        },
    }
}

/// The report of a sync of a document.
pub open spec fn told(
    r: PiSyncReport,
    doc: JsonView,
    desired: Seq<DesiredModel>,
    known: Seq<(Seq<char>, ())>,
    created: bool,
) -> bool {
    let old_models = listed(doc);
    let ids = desired_ids(desired);
    &&& texts(r.added@) == added_ids(by_id(ids), desired, old_models)
    &&& texts(r.updated@) == updated_ids(by_id(ids), desired, old_models)
    &&& texts(r.removed@) == undesired_ids(ids_listed(old_models), ids, known, false)
    &&& texts(r.kept_unmeasured@) == undesired_ids(ids_listed(old_models), ids, known, true)
    &&& r.created_file == created
    &&& !r.skipped_missing
}

/// The report where pi is not installed: nothing else is said.
pub open spec fn told_missing(r: PiSyncReport) -> bool {
    &&& r.added@.len() == 0
    &&& r.updated@.len() == 0
    &&& r.removed@.len() == 0
    &&& r.kept_unmeasured@.len() == 0
    &&& !r.created_file
    &&& r.skipped_missing
}

/// Nothing is to be written.
pub open spec fn settled(r: PiSyncReport, doc: JsonView) -> bool {
    &&& r.added@.len() == 0
    &&& r.updated@.len() == 0
    &&& r.removed@.len() == 0
    &&& !r.created_file
    &&& our_block(doc) is Some
}

/// The block that a sync writes: the desired models, then the entries that
/// are kept.
pub open spec fn new_block(
    base_url: Seq<char>,
    doc: JsonView,
    desired: Seq<DesiredModel>,
    known: Seq<(Seq<char>, ())>,
) -> JsonView {
    block_json(
        base_url,
        models_json(desired) + models_with(
            listed(doc),
            undesired_ids(ids_listed(listed(doc)), desired_ids(desired), known, true),
        ),
    )
}

fn listed_in(doc: &Json) -> (r: Option<&Vec<Json>>)
    ensures
        match r {
            Some(v) => json_views(v@) == listed(doc@),
            None => listed(doc@).len() == 0,
        },
{
    match get_in(get_in(doc.get("providers"), PROVIDER_KEY), "models") {
        Some(m) => m.as_array(),
        None => None,
    }
}

fn find_with_id<'a>(models: &'a [Json], id: &str) -> (r: Option<&'a Json>)
    ensures
        opt_json(r) == with_id(json_views(models@), id@),
{
    let ghost all = json_views(models@);
    let mut i: usize = models.len();
    assert(all.take(i as int) =~= all);
    while i > 0
        invariant
            i <= models.len(),
            all == json_views(models@),
            with_id(all, id@) == with_id(all.take(i as int), id@),
        decreases i,
    {
        assert(all.take(i as int).drop_last() =~= all.take(i - 1));
        assert(all.take(i as int).last() == models@[i - 1]@);
        if let Some(s) = str_in(models[i - 1].get("id")) {
            if same_text(s.as_str(), id) {
                return Some(&models[i - 1]);
            }
        }
        i -= 1;
    }
    None
}

fn list_ids(models: &[Json]) -> (r: TextSet)
    ensures
        r@ == ids_listed(json_views(models@)),
{
    let ghost all = json_views(models@);
    let mut out: TextSet = TextMap::new();
    let mut i: usize = 0;
    assert(all.take(0) =~= Seq::empty());
    while i < models.len()
        invariant
            i <= models.len(),
            all == json_views(models@),
            out@ == ids_listed(all.take(i as int)),
        decreases models.len() - i,
    {
        assert(all.take(i + 1).drop_last() =~= all.take(i as int));
        assert(all.take(i + 1).last() == models@[i as int]@);
        if let Some(s) = str_in(models[i].get("id")) {
            out.insert(s, ());
        }
        i += 1;
    }
    assert(all.take(i as int) =~= all);
    out
}

/// The ids of the desired models that are not listed, and those that are
/// listed otherwise.
fn compare(desired: &[DesiredModel], old_models: &[Json]) -> (r: (Vec<String>, Vec<String>))
    ensures
        texts(r.0@) == added_ids(by_id(desired_ids(desired@)), desired@, json_views(old_models@)),
        texts(r.1@) == updated_ids(by_id(desired_ids(desired@)), desired@, json_views(old_models@)),
{
    let order = order_by_id(desired);
    let ghost places = by_id(desired_ids(desired@));
    proof {
        lemma_by_id(desired_ids(desired@));
    }
    let ghost old_views = json_views(old_models@);
    let mut added: Vec<String> = Vec::new();
    let mut updated: Vec<String> = Vec::new();
    let mut i: usize = 0;
    assert(places.take(0) =~= Seq::empty());
    assert(texts(added@) =~= Seq::empty());
    assert(texts(updated@) =~= Seq::empty());
    while i < order.len()
        invariant
            i <= order.len(),
            order.len() == desired.len() == places.len(),
            old_views == json_views(old_models@),
            forall|k: int|
                0 <= k < order.len() ==> (#[trigger] order@[k]) < desired.len() && order@[k] as int
                    == places[k],
            texts(added@) == added_ids(places.take(i as int), desired@, old_views),
            texts(updated@) == updated_ids(places.take(i as int), desired@, old_views),
        decreases order.len() - i,
    {
        assert(places.take(i + 1).drop_last() =~= places.take(i as int));
        assert(places.take(i + 1).last() == order@[i as int]);
        let d = &desired[order[i]];
        match find_with_id(old_models, d.id.as_str()) {
            None => {
                let ghost sofar = added@;
                added.push(d.id.clone());
                proof {
                    lemma_texts_push(sofar, d.id);
                }
            },
            Some(m) => {
                let wanted = model_entry(d);
                proof {
                    lemma_entry_whole(*d);
                    lemma_alike_whole(m@, wanted@);
                }
                if !m.same(&wanted) {
                    let ghost sofar = updated@;
                    updated.push(d.id.clone());
                    proof {
                        lemma_texts_push(sofar, d.id);
                    }
                }
            },
        }
        i += 1;
    }
    assert(places.take(i as int) =~= places);
    (added, updated)
}

/// The listed ids that are not desired: those the fleet does not know, and
/// those it knows.
fn undesired(ids: &TextSet, desired: &[String], known: &TextSet) -> (r: (Vec<String>, Vec<String>))
    ensures
        texts(r.0@) == undesired_ids(ids@, texts(desired@), known@, false),
        texts(r.1@) == undesired_ids(ids@, texts(desired@), known@, true),
{
    let ghost all = ids@;
    let mut removed: Vec<String> = Vec::new();
    let mut kept: Vec<String> = Vec::new();
    let mut i: usize = 0;
    assert(all.take(0) =~= Seq::empty());
    assert(texts(removed@) =~= Seq::empty());
    assert(texts(kept@) =~= Seq::empty());
    while i < ids.len()
        invariant
            i <= ids@.len(),
            all == ids@,
            texts(removed@) == undesired_ids(all.take(i as int), texts(desired@), known@, false),
            texts(kept@) == undesired_ids(all.take(i as int), texts(desired@), known@, true),
        decreases ids@.len() - i,
    {
        assert(all.take(i + 1).drop_last() =~= all.take(i as int));
        assert(all.take(i + 1).last() == all[i as int]);
        let id = ids.key_at(i);
        if !holds_text(desired, id.as_str()) {
            if known.contains_key(id.as_str()) {
                let ghost sofar = kept@;
                kept.push(id.clone());
                proof {
                    lemma_texts_push(sofar, *id);
                }
            } else {
                let ghost sofar = removed@;
                removed.push(id.clone());
                proof {
                    lemma_texts_push(sofar, *id);
                }
            }
        }
        i += 1;
    }
    assert(all.take(i as int) =~= all);
    (removed, kept)
}

proof fn lemma_ids_listed(models: Seq<JsonView>, id: Seq<char>)
    requires
        has_key(ids_listed(models), id),
    ensures
        crate::textmap::sorted(ids_listed(models)),
        with_id(models, id) is Some,
    decreases models.len(),
{
    lemma_ids_sorted(models);
    if models.len() > 0 {
        let shorter = models.drop_last();
        lemma_ids_sorted(shorter);
        match id_in(models.last()) {
            Some(last) => {
                if last != id {
                    crate::textmap::put_then_lookup(ids_listed(shorter), last, (), id);
                    crate::textmap::lemma_has_key(ids_listed(shorter), id);
                    crate::textmap::lemma_has_key(ids_listed(models), id);
                    lemma_ids_listed(shorter, id);
                }
            },
            None => {
                lemma_ids_listed(shorter, id);
            },
        }
    }
}

proof fn lemma_ids_sorted(models: Seq<JsonView>)
    ensures
        crate::textmap::sorted(ids_listed(models)),
    decreases models.len(),
{
    if models.len() > 0 {
        lemma_ids_sorted(models.drop_last());
        if let Some(id) = id_in(models.last()) {
            crate::textmap::put_then_lookup(ids_listed(models.drop_last()), id, (), id);
        }
    }
}

proof fn lemma_undesired(
    ids: Seq<(Seq<char>, ())>,
    desired: Seq<Seq<char>>,
    known: Seq<(Seq<char>, ())>,
    is_known: bool,
    k: int,
)
    requires
        0 <= k < undesired_ids(ids, desired, known, is_known).len(),
    ensures
        exists|i: int|
            0 <= i < ids.len() && (#[trigger] ids[i]).0 == undesired_ids(
                ids,
                desired,
                known,
                is_known,
            )[k],
        !desired.contains(undesired_ids(ids, desired, known, is_known)[k]),
        has_key(known, undesired_ids(ids, desired, known, is_known)[k]) == is_known,
    decreases ids.len(),
{
    let shorter = ids.drop_last();
    let sofar = undesired_ids(shorter, desired, known, is_known);
    if k < sofar.len() {
        lemma_undesired(shorter, desired, known, is_known, k);
        let i = choose|i: int| 0 <= i < shorter.len() && (#[trigger] shorter[i]).0 == sofar[k];
        assert(ids[i].0 == sofar[k]);
    } else {
        assert(ids[ids.len() - 1].0 == undesired_ids(ids, desired, known, is_known)[k]);
    }
}

/// Puts our block into the document.
fn put_block(doc: Json, block: Json) -> (r: Result<Json, PiSyncError>)
    ensures
        match (r, with_block(doc@, block@)) {
            (Ok(j), Ok(w)) => j@ == w,
            (Err(e), Err(f)) => e@ == f,
            _ => false,
        },
{
    broadcast use crate::json::lemma_json_view;

    let mut providers: Vec<(String, Json)> = match doc.get("providers") {
        Some(Json::Object(p)) => {
            let ghost pv = Json::Object(*p);
            assert(pv@ == JsonView::Object(pair_views(p@)));
            crate::json::copy_object(p)
        },
        Some(_) => {
            return Err(PiSyncError::ProvidersNotObject);
        },
        None => {
            let none: Vec<(String, Json)> = Vec::new();
            assert(pair_views(none@) =~= Seq::empty());
            none
        },
    };
    let ghost given = doc@;
    match doc {
        Json::Object(s) => {
            let mut s = s;
            assert(given == JsonView::Object(pair_views(s@)));
            set_member(&mut providers, PROVIDER_KEY, block);
            set_member(&mut s, "providers", object(providers));
            Ok(object(s))
        },
        _ => Err(PiSyncError::RootNotObject),
    }
}

// ------------------------------------------------------------ the order of keys

/// An empty registry's keys are in order.
proof fn lemma_fresh_sorted()
    ensures
        keys_sorted(JsonView::Object(seq![("providers"@, JsonView::Object(Seq::empty()))])),
{
    reveal_with_fuel(keys_sorted, 3);
    let inner = JsonView::Object(Seq::empty());
    assert(keys_sorted(inner));
    let s = seq![("providers"@, inner)];
    assert forall|i: int| 0 <= i < s.len() implies keys_sorted((#[trigger] s[i]).1) by {
        assert(s[i].1 == inner);
    }
}

/// Texts that differ first in a character are ordered by it.
proof fn lemma_first_difference(a: Seq<char>, b: Seq<char>, n: int)
    requires
        0 <= n <= a.len(),
        n < b.len(),
        forall|i: int| 0 <= i < n ==> a[i] == b[i],
        n == a.len() || a[n] < b[n],
    ensures
        text_lt(a, b),
    decreases n,
{
    if n > 0 {
        let x = a.skip(1);
        let y = b.skip(1);
        assert forall|i: int| 0 <= i < n - 1 implies x[i] == y[i] by {
            assert(a[i + 1] == b[i + 1]);
        }
        lemma_first_difference(x, y, n - 1);
    }
}

/// Five entries whose keys follow each other are in order.
proof fn lemma_five_sorted(s: Seq<(Seq<char>, JsonView)>)
    requires
        s.len() == 5,
        text_lt(s[0].0, s[1].0),
        text_lt(s[1].0, s[2].0),
        text_lt(s[2].0, s[3].0),
        text_lt(s[3].0, s[4].0),
    ensures
        increasing(s),
{
    lemma_text_lt_transitive(s[0].0, s[1].0, s[2].0);
    lemma_text_lt_transitive(s[0].0, s[2].0, s[3].0);
    lemma_text_lt_transitive(s[0].0, s[3].0, s[4].0);
    lemma_text_lt_transitive(s[1].0, s[2].0, s[3].0);
    lemma_text_lt_transitive(s[1].0, s[3].0, s[4].0);
    lemma_text_lt_transitive(s[2].0, s[3].0, s[4].0);
}

proof fn lemma_model_sorted(d: DesiredModel)
    ensures
        keys_sorted(model_json(d)),
{
    reveal_strlit("contextWindow");
    reveal_strlit("id");
    reveal_strlit("input");
    reveal_strlit("maxTokens");
    reveal_strlit("name");
    let s = model_json(d)->Object_0;
    lemma_first_difference("contextWindow"@, "id"@, 0);
    lemma_first_difference("id"@, "input"@, 1);
    lemma_first_difference("input"@, "maxTokens"@, 0);
    lemma_first_difference("maxTokens"@, "name"@, 0);
    lemma_five_sorted(s);
    assert(keys_sorted(s[0].1) && keys_sorted(s[1].1) && keys_sorted(s[3].1) && keys_sorted(
        s[4].1,
    ));
    let input = s[2].1->Array_0;
    assert forall|i: int| 0 <= i < input.len() implies keys_sorted(#[trigger] input[i]) by {
        assert(input[i] is Text);
    }
    assert(keys_sorted(s[2].1));
}

proof fn lemma_block_sorted(base_url: Seq<char>, models: Seq<JsonView>)
    requires
        forall|i: int| 0 <= i < models.len() ==> keys_sorted(#[trigger] models[i]),
    ensures
        keys_sorted(block_json(base_url, models)),
{
    reveal_strlit("api");
    reveal_strlit("apiKey");
    reveal_strlit("baseUrl");
    reveal_strlit("models");
    reveal_strlit("name");
    let s = block_json(base_url, models)->Object_0;
    lemma_first_difference("api"@, "apiKey"@, 3);
    lemma_first_difference("apiKey"@, "baseUrl"@, 0);
    lemma_first_difference("baseUrl"@, "models"@, 0);
    lemma_first_difference("models"@, "name"@, 0);
    lemma_five_sorted(s);
    assert(keys_sorted(s[0].1) && keys_sorted(s[1].1) && keys_sorted(s[2].1) && keys_sorted(
        s[4].1,
    ));
    assert(keys_sorted(s[3].1));
}

/// What a value with its keys in order holds under a key has them so too.
proof fn lemma_member_sorted(j: JsonView, key: Seq<char>)
    requires
        keys_sorted(j),
    ensures
        member(j, key) matches Some(v) ==> keys_sorted(v),
{
    if let JsonView::Object(s) = j {
        if let Some(i) = crate::json::key_from(s, key, 0) {
            crate::json::lemma_key_from(s, key, 0);
            assert(keys_sorted(s[i].1));
        }
    }
}

proof fn lemma_listed_sorted(doc: JsonView)
    requires
        keys_sorted(doc),
    ensures
        forall|i: int| 0 <= i < listed(doc).len() ==> keys_sorted(#[trigger] listed(doc)[i]),
{
    lemma_member_sorted(doc, "providers"@);
    if let Some(p) = member(doc, "providers"@) {
        lemma_member_sorted(p, PROVIDER_KEY@);
        if let Some(b) = member(p, PROVIDER_KEY@) {
            lemma_member_sorted(b, "models"@);
        }
    }
}

/// The keys of the block that a sync writes are in order.
proof fn lemma_new_block_sorted(
    base_url: Seq<char>,
    doc: JsonView,
    desired: Seq<DesiredModel>,
    known: Seq<(Seq<char>, ())>,
)
    requires
        keys_sorted(doc),
    ensures
        keys_sorted(new_block(base_url, doc, desired, known)),
{
    let ids = desired_ids(desired);
    let keys = ids_listed(listed(doc));
    let kept = undesired_ids(keys, ids, known, true);
    let m = models_json(desired);
    let rest = models_with(listed(doc), kept);
    let all = m + rest;
    lemma_listed_sorted(doc);
    lemma_by_id(ids);
    assert forall|i: int| 0 <= i < all.len() implies keys_sorted(#[trigger] all[i]) by {
        if i < m.len() {
            lemma_model_sorted(desired[by_id(ids)[i]]);
            assert(all[i] == m[i]);
        } else {
            let q = i - m.len();
            lemma_undesired(keys, ids, known, true, q);
            let k = choose|k: int| 0 <= k < keys.len() && (#[trigger] keys[k]).0 == kept[q];
            lemma_ids_sorted(listed(doc));
            crate::textmap::lemma_lookup_at(keys, k);
            crate::textmap::lemma_has_key(keys, kept[q]);
            lemma_ids_listed(listed(doc), kept[q]);
            lemma_with_id(listed(doc), kept[q]);
            assert(all[i] == rest[q]);
        }
    }
    lemma_block_sorted(base_url, all);
}

/// A document keeps its keys in order when a block is put into it.
proof fn lemma_block_put_sorted(doc: JsonView, block: JsonView)
    requires
        keys_sorted(doc),
        keys_sorted(block),
    ensures
        with_block(doc, block) matches Ok(after) ==> keys_sorted(after),
{
    if let JsonView::Object(s) = doc {
        lemma_member_sorted(doc, "providers"@);
        match member(doc, "providers"@) {
            Some(JsonView::Object(p)) => {
                setting_keeps_the_order(p, PROVIDER_KEY@, block);
                setting_keeps_the_order(
                    s,
                    "providers"@,
                    JsonView::Object(with_member(p, PROVIDER_KEY@, block)),
                );
            },
            Some(_) => {},
            None => {
                let none = Seq::<(Seq<char>, JsonView)>::empty();
                assert(keys_sorted(JsonView::Object(none)));
                setting_keeps_the_order(none, PROVIDER_KEY@, block);
                setting_keeps_the_order(
                    s,
                    "providers"@,
                    JsonView::Object(with_member(none, PROVIDER_KEY@, block)),
                );
            },
        }
    }
}

/// Sync our provider into models.json: what is reported, and the new text of
/// the file where it changes. `file` is what the file holds, where it is
/// there; it is backed up before the write.
pub fn sync_file_with_known(
    path: &str,
    present: bool,
    file: Option<&str>,
    base_url: &str,
    desired: &[DesiredModel],
    known: &TextSet,
) -> (r: Result<(PiSyncReport, Option<String>), PiSyncError>)
    ensures
        !present ==> r is Ok && told_missing(r->Ok_0.0) && r->Ok_0.1 is None,
        present ==> match start_of(path@, crate::text::opt_str(file)) {
            Err(f) => r is Err && r->Err_0@ == f,
            Ok(doc) => match r {
                Ok(o) => {
                    &&& told(o.0, doc, desired@, known@, file is None)
                    &&& match o.1 {
                        Some(t) => {
                            let after = with_block(
                                doc,
                                new_block(base_url@, doc, desired@, known@),
                            );
                            &&& !settled(o.0, doc)
                            &&& after is Ok
                            &&& t@ == json_pretty(built(after->Ok_0)) + "\n"@
                            &&& plain(after->Ok_0) ==> reads_as(t@, after->Ok_0)
                        },
                        None => settled(o.0, doc),
                    }
                },
                Err(e) => with_block(doc, new_block(base_url@, doc, desired@, known@)) == Err::<
                    JsonView,
                    PiSyncErrorView,
                >(e@),
            },
        },
{
    let mut report = PiSyncReport::default();
    if !present {
        report.skipped_missing = true;
        return Ok((report, None));
    }
    let doc = match file {
        None => {
            report.created_file = true;
            let none: Vec<(String, Json)> = Vec::new();
            assert(pair_views(none@) =~= Seq::empty());
            let v: Vec<(String, Json)> = vec![entry("providers", object(none))];
            assert(pair_views(v@) =~= seq![("providers"@, JsonView::Object(Seq::empty()))]);
            let fresh = object(v);
            proof {
                lemma_fresh_sorted();
            }
            fresh
        },
        Some(t) => match crate::json::parse(t) {
            Ok(d) => d,
            Err(error) => {
                return Err(PiSyncError::NotPlainJson { path: copy_text(path), error });
            },
        },
    };
    let ghost d = doc@;
    let none: Vec<Json> = Vec::new();
    let old_models: &Vec<Json> = match listed_in(&doc) {
        Some(v) => v,
        None => &none,
    };
    assert(json_views(old_models@) =~= listed(d));
    let (added, updated) = compare(desired, old_models);
    let ids = list_ids(old_models);
    let want = ids_of(desired);
    let (removed, kept) = undesired(&ids, &want, known);
    report.added = added;
    report.updated = updated;
    report.removed = removed;
    report.kept_unmeasured = kept;
    assert(told(report, d, desired@, known@, file is None));
    let registered = get_in(doc.get("providers"), PROVIDER_KEY).is_some();
    if report.added.len() == 0 && report.updated.len() == 0 && report.removed.len() == 0
        && !report.created_file && registered {
        return Ok((report, None));
    }
    let mut models = models_of(desired);
    let ghost kept_ids = texts(report.kept_unmeasured@);
    let ghost base = json_views(models@);
    let mut i: usize = 0;
    while i < report.kept_unmeasured.len()
        invariant
            i <= report.kept_unmeasured@.len(),
            kept_ids == texts(report.kept_unmeasured@),
            kept_ids == undesired_ids(ids_listed(listed(d)), desired_ids(desired@), known@, true),
            json_views(old_models@) == listed(d),
            json_views(models@) == base + models_with(listed(d), kept_ids).take(i as int),
        decreases report.kept_unmeasured@.len() - i,
    {
        proof {
            lemma_undesired(ids_listed(listed(d)), desired_ids(desired@), known@, true, i as int);
            let keys = ids_listed(listed(d));
            let j = choose|j: int| 0 <= j < keys.len() && (#[trigger] keys[j]).0 == kept_ids[i as int];
            lemma_ids_sorted(listed(d));
            crate::textmap::lemma_lookup_at(keys, j);
            crate::textmap::lemma_has_key(keys, kept_ids[i as int]);
            lemma_ids_listed(listed(d), kept_ids[i as int]);
        }
        let ghost sofar = json_views(models@);
        if let Some(m) = find_with_id(old_models, report.kept_unmeasured[i].as_str()) {
            let c = m.copy();
            models.push(c);
            assert(json_views(models@) =~= sofar.push(c@));
        }
        i += 1;
        assert(json_views(models@) =~= base + models_with(listed(d), kept_ids).take(i as int));
    }
    assert(models_with(listed(d), kept_ids).take(i as int) =~= models_with(listed(d), kept_ids));
    let block = provider_block(base_url, models);
    assert(block@ == new_block(base_url@, d, desired@, known@));
    proof {
        lemma_new_block_sorted(base_url@, d, desired@, known@);
        lemma_block_put_sorted(d, block@);
    }
    match put_block(doc, block) {
        Ok(j) => {
            let mut t = pretty(&j);
            t.append("\n");
            Ok((report, Some(t)))
        },
        Err(e) => Err(e),
    }
}

/// Sync with no fleet to vouch for an entry: whatever is not desired goes.
pub fn sync_file(
    path: &str,
    present: bool,
    file: Option<&str>,
    base_url: &str,
    desired: &[DesiredModel],
) -> (r: Result<(PiSyncReport, Option<String>), PiSyncError>)
    ensures
        !present ==> r is Ok && told_missing(r->Ok_0.0) && r->Ok_0.1 is None,
        present ==> match start_of(path@, crate::text::opt_str(file)) {
            Err(f) => r is Err && r->Err_0@ == f,
            Ok(doc) => match r {
                Ok(o) => {
                    &&& told(o.0, doc, desired@, Seq::empty(), file is None)
                    &&& match o.1 {
                        Some(t) => {
                            let after = with_block(
                                doc,
                                new_block(base_url@, doc, desired@, Seq::empty()),
                            );
                            &&& !settled(o.0, doc)
                            &&& after is Ok
                            &&& t@ == json_pretty(built(after->Ok_0)) + "\n"@
                            &&& plain(after->Ok_0) ==> reads_as(t@, after->Ok_0)
                        },
                        None => settled(o.0, doc),
                    }
                },
                Err(e) => with_block(doc, new_block(base_url@, doc, desired@, Seq::empty()))
                    == Err::<JsonView, PiSyncErrorView>(e@),
            },
        },
{
    let known: TextSet = TextMap::new();
    assert(known@ =~= Seq::empty());
    sync_file_with_known(path, present, file, base_url, desired, &known)
}

/// What a listed model declares: its id and its context window.
pub open spec fn declared(m: JsonView) -> Option<(Seq<char>, u64)> {
    match (id_in(m), u64_of_json(member(m, "contextWindow"@))) {
        (Some(id), Some(n)) => Some((id, n)),
        _ => None,
    }
}

pub open spec fn declared_in(models: Seq<JsonView>) -> Seq<(Seq<char>, u64)>
    decreases models.len(),
{
    if models.len() == 0 {
        Seq::empty()
    } else {
        let before = declared_in(models.drop_last());
        match declared(models.last()) {
            Some(p) => before.push(p),
            None => before,
        }
    }
}

/// What our provider block of a text declares; nothing where it is no JSON.
pub open spec fn declared_by(text: Seq<char>) -> Seq<(Seq<char>, u64)> {
    match json_document(text) {
        Ok(doc) => declared_in(listed(doc)),
        Err(_) => Seq::empty(),
    }
}

pub open spec fn count_views(v: Seq<(String, u64)>) -> Seq<(Seq<char>, u64)> {
    Seq::new(v.len(), |i: int| (v[i].0@, v[i].1))
}

/// What our provider block currently declares — (id, contextWindow) pairs;
/// empty when unsynced.
pub fn configured_models(text: &str) -> (r: Vec<(String, u64)>)
    ensures
        count_views(r@) == declared_by(text@),
{
    let mut out: Vec<(String, u64)> = Vec::new();
    assert(count_views(out@) =~= Seq::empty());
    let doc = match crate::json::parse(text) {
        Ok(d) => d,
        Err(_) => {
            return out;
        },
    };
    if let Some(v) = listed_in(&doc) {
        let ghost all = listed(doc@);
        let mut i: usize = 0;
        assert(all.take(0) =~= Seq::empty());
        while i < v.len()
            invariant
                i <= v.len(),
                all == json_views(v@),
                count_views(out@) == declared_in(all.take(i as int)),
            decreases v.len() - i,
        {
            assert(all.take(i + 1).drop_last() =~= all.take(i as int));
            assert(all.take(i + 1).last() == v@[i as int]@);
            let id = str_in(v[i].get("id"));
            let n = u64_in(v[i].get("contextWindow"));
            if let (Some(id), Some(n)) = (id, n) {
                let ghost sofar = count_views(out@);
                out.push((id, n));
                assert(count_views(out@) =~= sofar.push((id@, n)));
            }
            i += 1;
        }
        assert(all.take(i as int) =~= all);
    }
    out
}

// ------------------------------------------------------------------------- laws

/// A sync touches only its own provider: every other provider, and every
/// other key of the document, keeps its value.
pub proof fn other_providers_are_untouched(
    doc: JsonView,
    block: JsonView,
    provider: Seq<char>,
    key: Seq<char>,
)
    requires
        with_block(doc, block) is Ok,
    ensures
        our_block(with_block(doc, block)->Ok_0) == Some(block),
        provider != PROVIDER_KEY@ ==> member_of(
            member(with_block(doc, block)->Ok_0, "providers"@),
            provider,
        ) == member_of(member(doc, "providers"@), provider),
        key != "providers"@ ==> member(with_block(doc, block)->Ok_0, key) == member(doc, key),
{
    let s = doc->Object_0;
    let p = match member(doc, "providers"@) {
        Some(JsonView::Object(p)) => p,
        _ => Seq::empty(),
    };
    let inner = JsonView::Object(with_member(p, PROVIDER_KEY@, block));
    crate::json::set_then_get(p, PROVIDER_KEY@, block, provider);
    crate::json::set_then_get(s, "providers"@, inner, key);
    assert(member(JsonView::Object(Seq::empty()), provider) is None);
}

/// A model that the fleet still knows is never removed.
pub proof fn known_models_are_never_removed(
    r: PiSyncReport,
    doc: JsonView,
    desired: Seq<DesiredModel>,
    known: Seq<(Seq<char>, ())>,
    created: bool,
    k: int,
)
    requires
        told(r, doc, desired, known, created),
        0 <= k < r.removed@.len(),
    ensures
        !has_key(known, r.removed@[k]@),
        !desired_ids(desired).contains(r.removed@[k]@),
{
    assert(texts(r.removed@)[k] == r.removed@[k]@);
    lemma_undesired(ids_listed(listed(doc)), desired_ids(desired), known, false, k);
}

/// What is found under an id has it.
proof fn lemma_with_id(models: Seq<JsonView>, id: Seq<char>)
    ensures
        match with_id(models, id) {
            Some(m) => id_in(m) == Some(id) && exists|k: int|
                0 <= k < models.len() && #[trigger] models[k] == m,
            None => forall|k: int| 0 <= k < models.len() ==> id_in(#[trigger] models[k]) != Some(id),
        },
    decreases models.len(),
{
    if models.len() > 0 {
        if id_in(models.last()) == Some(id) {
            assert(models[models.len() - 1] == models.last());
        } else {
            let shorter = models.drop_last();
            lemma_with_id(shorter, id);
            match with_id(shorter, id) {
                Some(m) => {
                    let k = choose|k: int| 0 <= k < shorter.len() && #[trigger] shorter[k] == m;
                    assert(models[k] == m);
                },
                None => {
                    assert forall|k: int| 0 <= k < models.len() implies id_in(#[trigger] models[k])
                        != Some(id) by {
                        if k < shorter.len() {
                            assert(shorter[k] == models[k]);
                        }
                    }
                },
            }
        }
    }
}

proof fn lemma_model_id(d: DesiredModel)
    ensures
        id_in(model_json(d)) == Some(d.id@),
{
    reveal_strlit("contextWindow");
    reveal_strlit("id");
    assert("contextWindow"@.len() == 13 && "id"@.len() == 2);
    reveal_with_fuel(crate::json::key_from, 3);
}

proof fn lemma_listed_of_block(base_url: Seq<char>, models: Seq<JsonView>)
    ensures
        member(block_json(base_url, models), "models"@) == Some(JsonView::Array(models)),
{
    reveal_strlit("api");
    reveal_strlit("apiKey");
    reveal_strlit("baseUrl");
    reveal_strlit("models");
    assert("api"@.len() == 3 && "apiKey"@.len() == 6 && "baseUrl"@.len() == 7 && "models"@.len()
        == 6);
    assert("apiKey"@[0] == 'a' && "models"@[0] == 'm');
    reveal_with_fuel(crate::json::key_from, 5);
}

/// The ids of the desired models differ.
pub open spec fn distinct(desired: Seq<DesiredModel>) -> bool {
    forall|i: int, j: int|
        0 <= i < j < desired.len() ==> (#[trigger] desired[i]).id@ != (#[trigger] desired[j]).id@
}

/// Every desired model is found in the new list as it was written.
proof fn lemma_found(
    doc: JsonView,
    desired: Seq<DesiredModel>,
    known: Seq<(Seq<char>, ())>,
    p: int,
)
    requires
        distinct(desired),
        0 <= p < by_id(desired_ids(desired)).len(),
    ensures
        ({
            let kept = undesired_ids(ids_listed(listed(doc)), desired_ids(desired), known, true);
            let all = models_json(desired) + models_with(listed(doc), kept);
            let d = desired[by_id(desired_ids(desired))[p]];
            with_id(all, d.id@) == Some(model_json(d))
        }),
{
    let ids = desired_ids(desired);
    let places = by_id(ids);
    lemma_by_id(ids);
    let kept = undesired_ids(ids_listed(listed(doc)), ids, known, true);
    let m = models_json(desired);
    let all = m + models_with(listed(doc), kept);
    let d = desired[places[p]];
    assert(ids[places[p]] == d.id@);
    lemma_model_id(d);
    assert(all[p] == m[p] && m[p] == model_json(d));
    lemma_with_id(all, d.id@);
    let found = with_id(all, d.id@)->0;
    let k = choose|k: int| 0 <= k < all.len() && #[trigger] all[k] == found;
    if k < m.len() {
        let e = desired[places[k]];
        assert(all[k] == m[k] && m[k] == model_json(e));
        lemma_model_id(e);
        assert(places[k] == places[p]);
    } else {
        let q = k - m.len();
        lemma_undesired(ids_listed(listed(doc)), ids, known, true, q);
        let keys = ids_listed(listed(doc));
        let j = choose|j: int| 0 <= j < keys.len() && (#[trigger] keys[j]).0 == kept[q];
        lemma_ids_sorted(listed(doc));
        crate::textmap::lemma_lookup_at(keys, j);
        crate::textmap::lemma_has_key(keys, kept[q]);
        lemma_ids_listed(listed(doc), kept[q]);
        lemma_with_id(listed(doc), kept[q]);
        assert(all[k] == models_with(listed(doc), kept)[q]);
        assert(ids.contains(d.id@));
        assert(false);
    }
}

proof fn lemma_nothing_new(
    places: Seq<int>,
    desired: Seq<DesiredModel>,
    all: Seq<JsonView>,
)
    requires
        forall|k: int|
            0 <= k < places.len() ==> with_id(all, desired[#[trigger] places[k]].id@) == Some(
                model_json(desired[places[k]]),
            ),
    ensures
        added_ids(places, desired, all).len() == 0,
        updated_ids(places, desired, all).len() == 0,
    decreases places.len(),
{
    if places.len() > 0 {
        let shorter = places.drop_last();
        assert forall|k: int| 0 <= k < shorter.len() implies with_id(
            all,
            desired[#[trigger] shorter[k]].id@,
        ) == Some(model_json(desired[shorter[k]])) by {
            assert(shorter[k] == places[k]);
        }
        lemma_nothing_new(shorter, desired, all);
        assert(places[places.len() - 1] == places.last());
    }
}

/// What a sync wrote is read back: where a text holds the synced document,
/// every desired model is declared in it, with its context after the haircut.
pub proof fn what_is_synced_is_read_back(
    text: Seq<char>,
    base_url: Seq<char>,
    doc: JsonView,
    desired: Seq<DesiredModel>,
    known: Seq<(Seq<char>, ())>,
    i: int,
)
    requires
        distinct(desired),
        with_block(doc, new_block(base_url, doc, desired, known)) is Ok,
        reads_as(text, with_block(doc, new_block(base_url, doc, desired, known))->Ok_0),
        0 <= i < desired.len(),
    ensures
        declared_by(text).contains((desired[i].id@, safe_context(desired[i].context))),
{
    let block = new_block(base_url, doc, desired, known);
    let after = with_block(doc, block)->Ok_0;
    let ids = desired_ids(desired);
    let places = by_id(ids);
    lemma_places_hold_all(ids, i);
    let k = choose|k: int| 0 <= k < places.len() && places[k] == i;
    lemma_by_id(ids);
    other_providers_are_untouched(doc, block, Seq::empty(), Seq::empty());
    let kept = undesired_ids(ids_listed(listed(doc)), ids, known, true);
    let m = models_json(desired);
    let all = m + models_with(listed(doc), kept);
    lemma_listed_of_block(base_url, all);
    assert(listed(after) == all);
    assert(all[k] == model_json(desired[i])) by {
        assert(m[k] == model_json(desired[places[k]]));
    }
    lemma_model_declares(desired[i]);
    lemma_declared_in(all, k);
}

/// Every place of the ids stands in their order.
proof fn lemma_places_hold_all(ids: Seq<Seq<char>>, i: int)
    requires
        0 <= i < ids.len(),
    ensures
        by_id(ids).contains(i),
    decreases ids.len(),
{
    let before = by_id(ids.drop_last());
    let names = before.map_values(|j: int| ids[j]);
    let at = slot(names, ids.last());
    lemma_slot(names, ids.last());
    lemma_by_id(ids.drop_last());
    let all = by_id(ids);
    assert(all == before.insert(at, ids.len() - 1));
    if i == ids.len() - 1 {
        assert(all[at] == i);
    } else {
        lemma_places_hold_all(ids.drop_last(), i);
        let k = choose|k: int| 0 <= k < before.len() && before[k] == i;
        if k < at {
            assert(all[k] == i);
        } else {
            assert(all[k + 1] == i);
        }
    }
}

proof fn lemma_model_declares(d: DesiredModel)
    ensures
        declared(model_json(d)) == Some((d.id@, safe_context(d.context))),
{
    lemma_model_id(d);
    reveal_with_fuel(crate::json::key_from, 2);
}

proof fn lemma_declared_in(models: Seq<JsonView>, k: int)
    requires
        0 <= k < models.len(),
        declared(models[k]) is Some,
    ensures
        declared_in(models).contains(declared(models[k])->0),
    decreases models.len(),
{
    let before = declared_in(models.drop_last());
    if k == models.len() - 1 {
        assert(declared_in(models) == before.push(declared(models[k])->0));
        assert(declared_in(models)[before.len() as int] == declared(models[k])->0);
    } else {
        lemma_declared_in(models.drop_last(), k);
        let j = choose|j: int| 0 <= j < before.len() && before[j] == declared(models[k])->0;
        assert(declared_in(models)[j] == before[j]);
    }
}

/// A second sync of what the first one wrote finds nothing to do.
pub proof fn a_second_sync_finds_nothing(
    r: PiSyncReport,
    base_url: Seq<char>,
    doc: JsonView,
    desired: Seq<DesiredModel>,
    known: Seq<(Seq<char>, ())>,
)
    requires
        distinct(desired),
        with_block(doc, new_block(base_url, doc, desired, known)) is Ok,
        told(
            r,
            with_block(doc, new_block(base_url, doc, desired, known))->Ok_0,
            desired,
            known,
            false,
        ),
    ensures
        settled(r, with_block(doc, new_block(base_url, doc, desired, known))->Ok_0),
{
    let block = new_block(base_url, doc, desired, known);
    let after = with_block(doc, block)->Ok_0;
    let ids = desired_ids(desired);
    let places = by_id(ids);
    lemma_by_id(ids);
    other_providers_are_untouched(doc, block, Seq::empty(), Seq::empty());
    let keys_before = ids_listed(listed(doc));
    let kept = undesired_ids(keys_before, ids, known, true);
    let m = models_json(desired);
    let all = m + models_with(listed(doc), kept);
    lemma_listed_of_block(base_url, all);
    assert(listed(after) == all);
    assert forall|k: int| 0 <= k < places.len() implies with_id(
        all,
        desired[#[trigger] places[k]].id@,
    ) == Some(model_json(desired[places[k]])) by {
        lemma_found(doc, desired, known, k);
    }
    lemma_nothing_new(places, desired, all);
    let gone = undesired_ids(ids_listed(all), ids, known, false);
    if gone.len() > 0 {
        lemma_undesired(ids_listed(all), ids, known, false, 0);
        let id = gone[0];
        let keys = ids_listed(all);
        let j = choose|j: int| 0 <= j < keys.len() && (#[trigger] keys[j]).0 == id;
        lemma_ids_sorted(all);
        crate::textmap::lemma_lookup_at(keys, j);
        crate::textmap::lemma_has_key(keys, id);
        lemma_ids_listed(all, id);
        lemma_with_id(all, id);
        let found = with_id(all, id)->0;
        let k = choose|k: int| 0 <= k < all.len() && #[trigger] all[k] == found;
        if k < m.len() {
            let e = desired[places[k]];
            assert(all[k] == m[k] && m[k] == model_json(e));
            lemma_model_id(e);
            assert(ids[places[k]] == id);
        } else {
            let q = k - m.len();
            lemma_undesired(keys_before, ids, known, true, q);
            let i = choose|i: int| 0 <= i < keys_before.len() && (#[trigger] keys_before[i]).0 == kept[q];
            lemma_ids_sorted(listed(doc));
            crate::textmap::lemma_lookup_at(keys_before, i);
            crate::textmap::lemma_has_key(keys_before, kept[q]);
            lemma_ids_listed(listed(doc), kept[q]);
            lemma_with_id(listed(doc), kept[q]);
            assert(all[k] == models_with(listed(doc), kept)[q]);
        }
    }
    assert(texts(r.added@).len() == 0);
    assert(texts(r.updated@).len() == 0);
    assert(texts(r.removed@).len() == 0);
}

/// A model is told to pi with its id and its name, with the safe context both as its window
/// and as the most that it generates, and with images where it sees.
pub proof fn a_model_is_told_to_pi(d: DesiredModel)
    ensures
        member(model_json(d), "id"@) == Some(JsonView::Text(d.id@)),
        member(model_json(d), "name"@) == Some(JsonView::Text(d.display_name@)),
        u64_of_json(member(model_json(d), "contextWindow"@)) == Some(safe_context(d.context)),
        u64_of_json(member(model_json(d), "maxTokens"@)) == Some(safe_context(d.context)),
        member(model_json(d), "input"@) is Some && member(model_json(d), "input"@)->0 is Array,
        ({
            let input = member(model_json(d), "input"@)->0->Array_0;
            &&& input.contains(JsonView::Text("text"@))
            &&& input.contains(JsonView::Text("image"@)) <==> d.vision
        }),
{
    reveal_strlit("contextWindow");
    reveal_strlit("id");
    reveal_strlit("input");
    reveal_strlit("maxTokens");
    reveal_strlit("name");
    reveal_strlit("text");
    reveal_strlit("image");
    reveal_with_fuel(crate::json::key_from, 6);
    let s = model_json(d)->Object_0;
    assert("contextWindow"@.len() == 13 && "id"@.len() == 2 && "input"@.len() == 5);
    assert("maxTokens"@.len() == 9 && "name"@.len() == 4);
    assert("text"@.len() == 4 && "image"@.len() == 5);
    assert(s[0].0 == "contextWindow"@ && s[1].0 == "id"@ && s[2].0 == "input"@);
    assert(s[3].0 == "maxTokens"@ && s[4].0 == "name"@);
    let input = member(model_json(d), "input"@)->0->Array_0;
    assert(input[0] == JsonView::Text("text"@));
    if d.vision {
        assert(input[1] == JsonView::Text("image"@));
    } else {
        assert(input.len() == 1);
    }
}

/// A listed model is told to be added where no entry had its id, updated where the entry
/// that had it said something else, and neither where it said just that.
pub proof fn each_desired_model_is_accounted_for(
    places: Seq<int>,
    desired: Seq<DesiredModel>,
    old_models: Seq<JsonView>,
    k: int,
)
    requires
        0 <= k < places.len(),
    ensures
        ({
            let d = desired[places[k]];
            let was = with_id(old_models, d.id@);
            &&& was is None ==> added_ids(places, desired, old_models).contains(d.id@)
            &&& was is Some && was->0 != model_json(d) ==> updated_ids(
                places,
                desired,
                old_models,
            ).contains(d.id@)
        }),
        forall|j: int|
            0 <= j < added_ids(places, desired, old_models).len() ==> with_id(
                old_models,
                #[trigger] added_ids(places, desired, old_models)[j],
            ) is None,
        forall|j: int|
            0 <= j < updated_ids(places, desired, old_models).len() ==> with_id(
                old_models,
                #[trigger] updated_ids(places, desired, old_models)[j],
            ) is Some,
    decreases places.len(),
{
    let p = places.drop_last();
    let a = added_ids(p, desired, old_models);
    let u = updated_ids(p, desired, old_models);
    let na = added_ids(places, desired, old_models);
    let nu = updated_ids(places, desired, old_models);
    if p.len() > 0 {
        each_desired_model_is_accounted_for(
            p,
            desired,
            old_models,
            if k < p.len() {
                k
            } else {
                0
            },
        );
    }
    let id = desired[places[k]].id@;
    if k < p.len() {
        assert(p[k] == places[k]);
        if a.contains(id) {
            let j = choose|j: int| 0 <= j < a.len() && a[j] == id;
            assert(na[j] == id);
        }
        if u.contains(id) {
            let j = choose|j: int| 0 <= j < u.len() && u[j] == id;
            assert(nu[j] == id);
        }
    } else {
        if na.len() > a.len() {
            assert(na[na.len() - 1] == id);
        }
        if nu.len() > u.len() {
            assert(nu[nu.len() - 1] == id);
        }
    }
}

/// Every listed model that is not desired is kept where the router knows it, and removed
/// where it does not.
pub proof fn what_is_not_desired_is_kept_or_removed(
    ids: Seq<(Seq<char>, ())>,
    desired: Seq<Seq<char>>,
    known: Seq<(Seq<char>, ())>,
    k: int,
)
    requires
        0 <= k < ids.len(),
    ensures
        !desired.contains(ids[k].0) && has_key(known, ids[k].0) ==> undesired_ids(
            ids,
            desired,
            known,
            true,
        ).contains(ids[k].0),
        !desired.contains(ids[k].0) && !has_key(known, ids[k].0) ==> undesired_ids(
            ids,
            desired,
            known,
            false,
        ).contains(ids[k].0),
        forall|b: bool, j: int|
            0 <= j < undesired_ids(ids, desired, known, b).len() ==> has_key(
                known,
                #[trigger] undesired_ids(ids, desired, known, b)[j],
            ) == b && !desired.contains(undesired_ids(ids, desired, known, b)[j]),
    decreases ids.len(),
{
    let s = ids.drop_last();
    if s.len() > 0 {
        what_is_not_desired_is_kept_or_removed(
            s,
            desired,
            known,
            if k < s.len() {
                k
            } else {
                0
            },
        );
    }
    let b = has_key(known, ids[k].0);
    let before = undesired_ids(s, desired, known, b);
    let now = undesired_ids(ids, desired, known, b);
    if k < s.len() {
        assert(s[k] == ids[k]);
        if before.contains(ids[k].0) {
            let j = choose|j: int| 0 <= j < before.len() && before[j] == ids[k].0;
            assert(now[j] == ids[k].0);
        }
    } else if !desired.contains(ids[k].0) {
        assert(now[now.len() - 1] == ids[k].0);
    }
    assert forall|b: bool, j: int| 0 <= j < undesired_ids(ids, desired, known, b).len() implies has_key(
        known,
        #[trigger] undesired_ids(ids, desired, known, b)[j],
    ) == b && !desired.contains(undesired_ids(ids, desired, known, b)[j]) by {
        let was = undesired_ids(s, desired, known, b);
        if j < was.len() {
            assert(undesired_ids(ids, desired, known, b)[j] == was[j]);
        }
    }
}

} // verus!
