//! Hermes agent connector, deliberately narrow.
//!
//! - `context_length_cache.yaml` is a flat `context_lengths:
//!   {model@base_url: int}` map that Hermes rewrites WHOLESALE itself, so
//!   it carries no comments and a full round-trip is safe.
//! - `config.yaml` is hand-editable, carries comments, holds API keys, and is
//!   read by a possibly-running gateway. So it is READ to detect our provider,
//!   and only ever gets one entry APPENDED by surgical text edit, on an
//!   explicit click — never a reserialize, never automatically.
//! - Hermes REJECTS a model whose context is below its minimum at agent init,
//!   so syncing a smaller measurement would hand the user a model that cannot
//!   start. Those are skipped and named instead.
use crate::opencode::{safe_context, safety_context, DesiredModel};
use crate::path::{join_of, join_path, with_extension, with_extension_of};
use crate::settings::{home_of, real_home, Env};
use crate::text::{
    begins, chars_of, copy_text, debug_text, ends, ends_with, is_ascii, join, join_texts,
    lemma_join_append, lemma_lines_join, lemma_texts_push, line_feed_of, lines, lines_of, lowercase,
    lowered, opt_str, opt_text, quote, replace_char, replaced_char, same, same_text, starts_with,
    strip_suffix, text_of, texts, to_lower, trim, trim_end, trim_end_of, trimmed, trimmed_end,
    trimmed_end_of, views, without_suffix,
};
use crate::yaml::{
    field, find_text_key, lemma_text_key_from, lemma_yaml_view, plain_yaml, set_then_read,
    set_value, setting_keeps_it_plain, text_key_from, text_of_yaml, u64_of_yaml, untagged,
    value_of_key, with_value, yaml_built, yaml_document, yaml_pairs, yaml_text, yaml_views, Yaml,
    YamlView,
};
use vstd::prelude::*;
use vstd::string::*;

verus! {

/// Hermes refuses to start a model under this many tokens.
pub const MINIMUM_CONTEXT: u64 = 64_000;

/// The provider name we register in config.yaml. Its runtime slug is
/// `custom:modelsteward` (kept space-free so the slug is stable).
pub const PROVIDER_NAME: &'static str = "modelsteward";

/// Where Hermes keeps its files.
pub fn default_home(e: &Env) -> (r: String)
    ensures
        r@ == join_path(home_of(*e), ".hermes"@),
{
    join_of(real_home(e).as_str(), ".hermes")
}

/// Hermes is installed where its home is a directory.
pub fn hermes_present(home_is_dir: bool) -> (r: bool)
    ensures
        r == home_is_dir,
{
    home_is_dir
}

pub fn context_cache_path(home: &str) -> (r: String)
    ensures
        r@ == join_path(home@, "context_length_cache.yaml"@),
{
    join_of(home, "context_length_cache.yaml")
}

/// Where the cache, or the configuration, is copied before it is written.
pub fn backup_path(path: &str) -> (r: String)
    ensures
        r@ == with_extension(path@, "yaml.modelsteward.bak"@),
{
    with_extension_of(path, "yaml.modelsteward.bak")
}

pub fn config_path(home: &str) -> (r: String)
    ensures
        r@ == join_path(home@, "config.yaml"@),
{
    join_of(home, "config.yaml")
}

/// A URL without the slashes behind it.
pub open spec fn bare_url(url: Seq<char>) -> Seq<char> {
    trim_end_of(url, seq!['/'])
}

fn without_slashes(url: &str) -> (r: String)
    ensures
        r@ == bare_url(url@),
{
    let c = chars_of(url);
    let slash: [char; 1] = ['/'];
    assert(slash@ =~= seq!['/']);
    text_of(trimmed_end_of(&c, &slash))
}

pub open spec fn key_of(model: Seq<char>, base_url: Seq<char>) -> Seq<char> {
    model + "@"@ + bare_url(base_url)
}

/// model@base_url, trailing slashes stripped so `/v1` and `/v1/` don't create
/// two entries that go stale apart.
pub fn cache_key(model: &str, base_url: &str) -> (r: String)
    ensures
        r@ == key_of(model@, base_url@),
{
    let mut s = copy_text(model);
    s.append("@");
    s.append(without_slashes(base_url).as_str());
    s
}

/// How Hermes normalizes a provider's name: no whitespace around it, lower
/// case, dashes for spaces.
pub fn provider_slug(name: &str) -> (r: String)
    ensures
        r@ == replace_char(lowercase(trim(name@)), ' ', '-'),
        is_ascii(trim(name@)) ==> r@ == replace_char(lowered(trim(name@)), ' ', '-'),
{
    let c = chars_of(name);
    let t = text_of(trimmed(&c));
    let lower = chars_of(to_lower(t.as_str()).as_str());
    text_of(&replaced_char(&lower, ' ', '-'))
}

/// Hermes can run the model.
pub open spec fn large_enough(d: DesiredModel) -> bool {
    safe_context(d.context) >= MINIMUM_CONTEXT
}

/// The models that Hermes can run, or those that it would reject, in order.
pub open spec fn by_minimum(desired: Seq<DesiredModel>, usable: bool) -> Seq<DesiredModel>
    decreases desired.len(),
{
    if desired.len() == 0 {
        Seq::empty()
    } else {
        let before = by_minimum(desired.drop_last(), usable);
        if large_enough(desired.last()) == usable {
            before.push(desired.last())
        } else {
            before
        }
    }
}

pub open spec fn pointed(v: Seq<&DesiredModel>) -> Seq<DesiredModel> {
    Seq::new(v.len(), |i: int| *v[i])
}

/// Split the desired models into what Hermes can actually run and what
/// it would reject — the whole point is that the caller can TELL the user
/// which models were skipped and why.
pub fn partition_by_minimum<'a>(desired: &'a [DesiredModel]) -> (r: (
    Vec<&'a DesiredModel>,
    Vec<&'a DesiredModel>,
))
    ensures
        pointed(r.0@) == by_minimum(desired@, true),
        pointed(r.1@) == by_minimum(desired@, false),
{
    let ghost all = desired@;
    let mut ok: Vec<&'a DesiredModel> = Vec::new();
    let mut small: Vec<&'a DesiredModel> = Vec::new();
    let mut i: usize = 0;
    assert(all.take(0) =~= Seq::empty());
    assert(pointed(ok@) =~= Seq::empty());
    assert(pointed(small@) =~= Seq::empty());
    while i < desired.len()
        invariant
            i <= desired.len(),
            all == desired@,
            pointed(ok@) == by_minimum(all.take(i as int), true),
            pointed(small@) == by_minimum(all.take(i as int), false),
        decreases desired.len() - i,
    {
        assert(all.take(i + 1).drop_last() =~= all.take(i as int));
        assert(all.take(i + 1).last() == all[i as int]);
        let ghost a = pointed(ok@);
        let ghost b = pointed(small@);
        let d = &desired[i];
        if safety_context(d.context) >= MINIMUM_CONTEXT {
            ok.push(d);
            assert(pointed(ok@) =~= a.push(*d));
        } else {
            small.push(d);
            assert(pointed(small@) =~= b.push(*d));
        }
        i += 1;
    }
    assert(all.take(i as int) =~= all);
    (ok, small)
}

#[derive(Debug, Clone, PartialEq)]
pub struct HermesSyncReport {
    /// Cache entries written (added or changed).
    pub written: Vec<String>,
    /// Models skipped because Hermes would refuse them (< 64k).
    pub below_minimum: Vec<String>,
    /// ~/.hermes doesn't exist — Hermes isn't installed.
    pub skipped_missing: bool,
    /// No custom provider in config.yaml points at our router yet, so
    /// the cache entries have nothing to attach to until one is
    /// registered. Not an error — the GUI offers the button.
    pub provider_unregistered: bool,
}

impl Default for HermesSyncReport {
    fn default() -> (r: HermesSyncReport)
        ensures
            r.written@.len() == 0,
            r.below_minimum@.len() == 0,
            !r.skipped_missing,
            !r.provider_unregistered,
    {
        HermesSyncReport {
            written: Vec::new(),
            below_minimum: Vec::new(),
            skipped_missing: false,
            provider_unregistered: false,
        }
    }
}

// --------------------------------------------------------------------- detection

/// The entry points at the URL, whatever its case and its slashes.
pub open spec fn points_at(p: YamlView, want: Seq<char>) -> bool {
    match field(p, "base_url"@) {
        Some(b) => match text_of_yaml(b) {
            Some(t) => lowercase(bare_url(t)) == want,
            None => false,
        },
        None => false,
    }
}

/// The first entry from `from` on that points at the URL.
pub open spec fn pointing_from(s: Seq<YamlView>, want: Seq<char>, from: int) -> Option<int>
    decreases s.len() - from,
{
    if from < 0 || from >= s.len() {
        None
    } else if points_at(s[from], want) {
        Some(from)
    } else {
        pointing_from(s, want, from + 1)
    }
}

/// The name of the provider that a document has for the URL.
pub open spec fn provider_in(doc: YamlView, base_url: Seq<char>) -> Option<Seq<char>> {
    match field(doc, "custom_providers"@) {
        Some(c) => match untagged(c) {
            YamlView::Sequence(s) => match pointing_from(s, lowercase(bare_url(base_url)), 0) {
                Some(i) => match field(s[i], "name"@) {
                    Some(n) => text_of_yaml(n),
                    None => None,
                },
                None => None,
            },
            _ => None,
        },
        None => None,
    }
}

/// The same of a text, which has none where it is no YAML.
pub open spec fn provider_of(text: Seq<char>, base_url: Seq<char>) -> Option<Seq<char>> {
    match yaml_document(text) {
        Ok(doc) => provider_in(doc, base_url),
        Err(_) => None,
    }
}

fn find_pointing(s: &[Yaml], want: &str) -> (r: Option<usize>)
    ensures
        match r {
            Some(i) => i < s.len() && pointing_from(yaml_views(s@), want@, 0) == Some(i as int),
            None => pointing_from(yaml_views(s@), want@, 0) is None,
        },
{
    let mut i: usize = 0;
    while i < s.len()
        invariant
            i <= s.len(),
            pointing_from(yaml_views(s@), want@, 0) == pointing_from(
                yaml_views(s@),
                want@,
                i as int,
            ),
        decreases s.len() - i,
    {
        assert(yaml_views(s@)[i as int] == s@[i as int]@);
        if let Some(b) = s[i].get("base_url") {
            if let Some(t) = b.as_str() {
                if same_text(to_lower(without_slashes(t.as_str()).as_str()).as_str(), want) {
                    return Some(i);
                }
            }
        }
        i += 1;
    }
    None
}

/// The NAME of the first entry of a document's `custom_providers` whose
/// base_url matches ours (trailing slashes ignored).
pub fn provider_in_doc(doc: &Yaml, base_url: &str) -> (r: Option<String>)
    ensures
        opt_text(r) == provider_in(doc@, base_url@),
{
    broadcast use lemma_yaml_view;

    let c = match doc.get("custom_providers") {
        Some(c) => c,
        None => {
            return None;
        },
    };
    match c.untag() {
        Yaml::Sequence(s) => {
            let want = to_lower(without_slashes(base_url).as_str());
            match find_pointing(s, want.as_str()) {
                Some(i) => {
                    assert(yaml_views(s@)[i as int] == s@[i as int]@);
                    match s[i].get("name") {
                        Some(n) => match n.as_str() {
                            Some(t) => Some(t.clone()),
                            None => None,
                        },
                        None => None,
                    }
                },
                None => None,
            }
        },
        _ => None,
    }
}

/// Parse `custom_providers` and return the NAME of the first entry
/// whose base_url matches ours (trailing slashes ignored). Read-only.
pub fn registered_provider(config_text: &str, base_url: &str) -> (r: Option<String>)
    ensures
        opt_text(r) == provider_of(config_text@, base_url@),
{
    match crate::yaml::parse(config_text) {
        Ok(doc) => provider_in_doc(&doc, base_url),
        Err(_) => None,
    }
}

// ------------------------------------------------------------------ context cache

/// Why a file of Hermes is left alone.
#[derive(Debug, Clone, PartialEq)]
pub enum HermesError {
    NotYaml { path: String, error: String },
    RootNotMapping { path: String },
    ContextsNotMapping { path: String },
    /// The new document cannot be written as YAML.
    Unwritable(String),
    AlreadyRegistered(String),
    CannotExtend { path: String },
}

pub enum HermesErrorView {
    NotYaml(Seq<char>, Seq<char>),
    RootNotMapping(Seq<char>),
    ContextsNotMapping(Seq<char>),
    Unwritable(Seq<char>),
    AlreadyRegistered(Seq<char>),
    CannotExtend(Seq<char>),
}

impl View for HermesError {
    type V = HermesErrorView;

    open spec fn view(&self) -> HermesErrorView {
        match *self {
            HermesError::NotYaml { path, error } => HermesErrorView::NotYaml(path@, error@),
            HermesError::RootNotMapping { path } => HermesErrorView::RootNotMapping(path@),
            HermesError::ContextsNotMapping { path } => HermesErrorView::ContextsNotMapping(path@),
            HermesError::Unwritable(e) => HermesErrorView::Unwritable(e@),
            HermesError::AlreadyRegistered(n) => HermesErrorView::AlreadyRegistered(n@),
            HermesError::CannotExtend { path } => HermesErrorView::CannotExtend(path@),
        }
    }
}

impl HermesErrorView {
    /// The error in words.
    pub open spec fn text(self) -> Seq<char> {
        match self {
            HermesErrorView::NotYaml(path, error) => path
                + " is not valid YAML — refusing to rewrite it, because doing so would discard every context it holds. Fix or remove the file, then sync again: "@
                + error,
            HermesErrorView::RootNotMapping(path) => path + ": root is not a YAML mapping"@,
            HermesErrorView::ContextsNotMapping(path) => path
                + ": context_lengths is not a mapping"@,
            HermesErrorView::Unwritable(e) => e,
            HermesErrorView::AlreadyRegistered(n) =>
                "Hermes already has a provider for this router: "@ + debug_text(n),
            HermesErrorView::CannotExtend(path) => path
                + " declares custom_providers in a form this editor can't extend safely (flow style?) — add the provider by hand, or reformat that key as a block list first. Nothing was changed."@,
        }
    }
}

impl HermesError {
    pub open spec fn text(self) -> Seq<char> {
        self@.text()
    }

    /// The error in words.
    pub fn message(&self) -> (r: String)
        ensures
            r@ == self.text(),
    {
        match self {
            HermesError::NotYaml { path, error } => {
                let mut s = path.clone();
                s.append(
                    " is not valid YAML — refusing to rewrite it, because doing so would discard every context it holds. Fix or remove the file, then sync again: ",
                );
                s.append(error.as_str());
                s
            },
            HermesError::RootNotMapping { path } => {
                let mut s = path.clone();
                s.append(": root is not a YAML mapping");
                s
            },
            HermesError::ContextsNotMapping { path } => {
                let mut s = path.clone();
                s.append(": context_lengths is not a mapping");
                s
            },
            HermesError::Unwritable(e) => e.clone(),
            HermesError::AlreadyRegistered(n) => {
                let mut s = copy_text("Hermes already has a provider for this router: ");
                s.append(quote(n.as_str()).as_str());
                s
            },
            HermesError::CannotExtend { path } => {
                let mut s = path.clone();
                s.append(
                    " declares custom_providers in a form this editor can't extend safely (flow style?) — add the provider by hand, or reformat that key as a block list first. Nothing was changed.",
                );
                s
            },
        }
    }
}

/// The cache says of the model what is to be written.
pub open spec fn up_to_date(s: Seq<(YamlView, YamlView)>, base_url: Seq<char>, d: DesiredModel) -> bool {
    match value_of_key(s, key_of(d.id@, base_url)) {
        Some(v) => u64_of_yaml(v) == Some(safe_context(d.context)),
        None => false,
    }
}

/// The cache's entries with the models' contexts in them, one behind the
/// other.
pub open spec fn with_contexts(
    s: Seq<(YamlView, YamlView)>,
    base_url: Seq<char>,
    models: Seq<DesiredModel>,
) -> Seq<(YamlView, YamlView)>
    decreases models.len(),
{
    if models.len() == 0 {
        s
    } else {
        let before = with_contexts(s, base_url, models.drop_last());
        let d = models.last();
        if up_to_date(before, base_url, d) {
            before
        } else {
            with_value(before, key_of(d.id@, base_url), YamlView::Pos(safe_context(d.context)))
        }
    }
}

/// The ids of the models whose context is written.
pub open spec fn written_ids(
    s: Seq<(YamlView, YamlView)>,
    base_url: Seq<char>,
    models: Seq<DesiredModel>,
) -> Seq<Seq<char>>
    decreases models.len(),
{
    if models.len() == 0 {
        Seq::empty()
    } else {
        let before = written_ids(s, base_url, models.drop_last());
        let d = models.last();
        if up_to_date(with_contexts(s, base_url, models.drop_last()), base_url, d) {
            before
        } else {
            before.push(d.id@)
        }
    }
}

/// A mapping with other entries, under the tags that it has.
pub open spec fn with_entries(y: YamlView, s: Seq<(YamlView, YamlView)>) -> YamlView
    decreases y,
{
    match y {
        YamlView::Tagged(t, b) => YamlView::Tagged(t, Box::new(with_entries(*b, s))),
        _ => YamlView::Mapping(s),
    }
}

/// The entries of a mapping, under the tags that it has.
pub open spec fn entries_of(y: YamlView) -> Option<Seq<(YamlView, YamlView)>> {
    match untagged(y) {
        YamlView::Mapping(s) => Some(s),
        _ => None,
    }
}

/// The contexts of a cache, which is empty where it has none yet.
pub open spec fn contexts_of(root: Seq<(YamlView, YamlView)>) -> YamlView {
    match value_of_key(root, "context_lengths"@) {
        Some(v) => v,
        None => YamlView::Mapping(Seq::empty()),
    }
}

/// The cache with the contexts of the models in it; everything else in it
/// stays. Also which models were written.
pub open spec fn cache_with(path: Seq<char>, doc: YamlView, base_url: Seq<char>, models: Seq<DesiredModel>) -> Result<
    (YamlView, Seq<Seq<char>>),
    HermesErrorView,
> {
    match entries_of(doc) {
        None => Err(HermesErrorView::RootNotMapping(path)),
        Some(root) => match entries_of(contexts_of(root)) {
            None => Err(HermesErrorView::ContextsNotMapping(path)),
            Some(s) => Ok(
                (
                    with_entries(
                        doc,
                        with_value(
                            root,
                            "context_lengths"@,
                            with_entries(contexts_of(root), with_contexts(s, base_url, models)),
                        ),
                    ),
                    written_ids(s, base_url, models),
                ),
            ),
        },
    }
}

/// The document that a cache file holds; an empty one where there is no file
/// or nothing in it.
pub open spec fn cache_doc(path: Seq<char>, file: Option<Seq<char>>) -> Result<
    YamlView,
    HermesErrorView,
> {
    match file {
        None => Ok(YamlView::Mapping(Seq::empty())),
        Some(t) => if trim(t).len() == 0 {
            Ok(YamlView::Mapping(Seq::empty()))
        } else {
            match yaml_document(t) {
                Ok(d) => Ok(d),
                Err(e) => Err(HermesErrorView::NotYaml(path, e)),
            }
        },
    }
}

/// What a sync of the cache comes to: the models written, and the new text
/// where there are any.
pub open spec fn cache_synced(
    path: Seq<char>,
    file: Option<Seq<char>>,
    base_url: Seq<char>,
    desired: Seq<DesiredModel>,
) -> Result<(Seq<Seq<char>>, Option<Seq<char>>), HermesErrorView> {
    match cache_doc(path, file) {
        Err(e) => Err(e),
        Ok(doc) => match cache_with(path, doc, base_url, by_minimum(desired, true)) {
            Err(e) => Err(e),
            Ok(n) => if n.1.len() == 0 {
                Ok((n.1, None))
            } else {
                match yaml_text(yaml_built(n.0)) {
                    Ok(t) => Ok((n.1, Some(t))),
                    Err(e) => Err(HermesErrorView::Unwritable(e)),
                }
            },
        },
    }
}

fn write_contexts(v: &mut Vec<(Yaml, Yaml)>, base_url: &str, models: &[&DesiredModel]) -> (r: Vec<
    String,
>)
    ensures
        yaml_pairs(final(v)@) == with_contexts(yaml_pairs(old(v)@), base_url@, pointed(models@)),
        texts(r@) == written_ids(yaml_pairs(old(v)@), base_url@, pointed(models@)),
{
    let ghost s = yaml_pairs(v@);
    let ghost all = pointed(models@);
    let mut written: Vec<String> = Vec::new();
    let mut i: usize = 0;
    assert(all.take(0) =~= Seq::empty());
    assert(texts(written@) =~= Seq::empty());
    while i < models.len()
        invariant
            i <= models.len(),
            all == pointed(models@),
            yaml_pairs(v@) == with_contexts(s, base_url@, all.take(i as int)),
            texts(written@) == written_ids(s, base_url@, all.take(i as int)),
        decreases models.len() - i,
    {
        assert(all.take(i + 1).drop_last() =~= all.take(i as int));
        assert(all.take(i + 1).last() == *models@[i as int]);
        let d = models[i];
        let key = cache_key(d.id.as_str(), base_url);
        let ctx = safety_context(d.context);
        let current = match find_text_key(v, key.as_str()) {
            Some(k) => {
                assert(yaml_pairs(v@)[k as int].1 == v@[k as int].1@);
                v[k].1.as_u64()
            },
            None => None,
        };
        if current != Some(ctx) {
            let n = Yaml::Pos(ctx);
            assert(n@ == YamlView::Pos(ctx));
            set_value(v, key.as_str(), n);
            let ghost sofar = written@;
            written.push(d.id.clone());
            proof {
                lemma_texts_push(sofar, d.id);
            }
        }
        i += 1;
    }
    assert(all.take(i as int) =~= all);
    written
}

fn edit_contexts(y: Yaml, base_url: &str, models: &[&DesiredModel]) -> (r: Option<
    (Yaml, Vec<String>),
>)
    ensures
        match r {
            Some(o) => entries_of(y@) is Some && o.0@ == with_entries(
                y@,
                with_contexts(entries_of(y@)->0, base_url@, pointed(models@)),
            ) && texts(o.1@) == written_ids(entries_of(y@)->0, base_url@, pointed(models@)),
            None => entries_of(y@) is None,
        },
    decreases y,
{
    let ghost given = y;
    proof {
        lemma_yaml_view(y);
    }
    match y {
        Yaml::Tagged(t, b) => {
            let ghost inner = *b;
            match edit_contexts(*b, base_url, models) {
                Some(o) => {
                    let z = Yaml::Tagged(t, Box::new(o.0));
                    proof {
                        lemma_yaml_view(z);
                    }
                    Some((z, o.1))
                },
                None => None,
            }
        },
        Yaml::Mapping(v) => {
            let mut v = v;
            let written = write_contexts(&mut v, base_url, models);
            let z = Yaml::Mapping(v);
            proof {
                lemma_yaml_view(z);
            }
            Some((z, written))
        },
        _ => None,
    }
}

/// Edits the whole document in place.
fn edit_cache(path: &str, doc: Yaml, base_url: &str, models: &[&DesiredModel]) -> (r: Result<
    (Yaml, Vec<String>),
    HermesError,
>)
    ensures
        match (r, cache_with(path@, doc@, base_url@, pointed(models@))) {
            (Ok(o), Ok(w)) => o.0@ == w.0 && texts(o.1@) == w.1,
            (Err(e), Err(f)) => e@ == f,
            _ => false,
        },
    decreases doc,
{
    proof {
        lemma_yaml_view(doc);
    }
    match doc {
        Yaml::Tagged(t, b) => {
            match edit_cache(path, *b, base_url, models) {
                Ok(o) => {
                    let z = Yaml::Tagged(t, Box::new(o.0));
                    proof {
                        lemma_yaml_view(z);
                    }
                    Ok((z, o.1))
                },
                Err(e) => Err(e),
            }
        },
        Yaml::Mapping(v) => {
            let mut v = v;
            let ghost root = yaml_pairs(v@);
            let contexts = match find_text_key(&v, "context_lengths") {
                Some(i) => {
                    assert(root[i as int].1 == v@[i as int].1@);
                    let none: Vec<(Yaml, Yaml)> = Vec::new();
                    let taken = v.remove(i);
                    let ghost value = taken.1@;
                    let ghost rest = v@;
                    v.insert(i, (taken.0, Yaml::Mapping(none)));
                    assert(v@.len() == root.len());
                    assert(text_key_from(yaml_pairs(v@), "context_lengths"@, 0) == Some(i as int))
                        by {
                        lemma_same_keys(root, yaml_pairs(v@), "context_lengths"@, 0);
                    }
                    assert forall|x: YamlView|
                        #[trigger] with_value(yaml_pairs(v@), "context_lengths"@, x) == with_value(
                            root,
                            "context_lengths"@,
                            x,
                        ) by {
                        assert(with_value(yaml_pairs(v@), "context_lengths"@, x) =~= with_value(
                            root,
                            "context_lengths"@,
                            x,
                        ));
                    }
                    taken.1
                },
                None => {
                    let none: Vec<(Yaml, Yaml)> = Vec::new();
                    let m = Yaml::Mapping(none);
                    proof {
                        lemma_yaml_view(m);
                    }
                    assert(yaml_pairs(none@) =~= Seq::empty());
                    m
                },
            };
            assert(contexts@ == contexts_of(root));
            match edit_contexts(contexts, base_url, models) {
                Some(o) => {
                    set_value(&mut v, "context_lengths", o.0);
                    let z = Yaml::Mapping(v);
                    proof {
                        lemma_yaml_view(z);
                    }
                    Ok((z, o.1))
                },
                None => Err(HermesError::ContextsNotMapping { path: copy_text(path) }),
            }
        },
        _ => Err(HermesError::RootNotMapping { path: copy_text(path) }),
    }
}

/// The place of a key depends on the keys alone.
proof fn lemma_same_keys(
    a: Seq<(YamlView, YamlView)>,
    b: Seq<(YamlView, YamlView)>,
    key: Seq<char>,
    from: int,
)
    requires
        a.len() == b.len(),
        forall|k: int| 0 <= k < a.len() ==> (#[trigger] a[k]).0 == b[k].0,
    ensures
        text_key_from(a, key, from) == text_key_from(b, key, from),
    decreases a.len() - from,
{
    if 0 <= from < a.len() {
        assert(a[from].0 == b[from].0);
        if a[from].0 != YamlView::Text(key) {
            lemma_same_keys(a, b, key, from + 1);
        }
    }
}

/// Write measured contexts into the cache. Only our own keys are
/// touched; every other entry (the user's Ollama models, cloud
/// providers) round-trips untouched. `file` is what the cache holds, where it
/// is there. Gives the models written, and the file's new text where there
/// are any; it is backed up before the write.
pub fn sync_context_cache(
    path: &str,
    file: Option<&str>,
    base_url: &str,
    desired: &[DesiredModel],
) -> (r: Result<(Vec<String>, Option<String>), HermesError>)
    ensures
        match (r, cache_synced(path@, opt_str(file), base_url@, desired@)) {
            (Ok(o), Ok(w)) => texts(o.0@) == w.0 && opt_text(o.1) == w.1,
            (Err(e), Err(f)) => e@ == f,
            _ => false,
        },
        r is Ok && r->Ok_0.1 is Some && plain_yaml(cache_doc(path@, opt_str(file))->Ok_0)
            ==> yaml_text(
            cache_with(
                path@,
                cache_doc(path@, opt_str(file))->Ok_0,
                base_url@,
                by_minimum(desired@, true),
            )->Ok_0.0,
        ) == Ok::<Seq<char>, Seq<char>>(r->Ok_0.1->0@),
{
    let (usable, _) = partition_by_minimum(desired);
    let none: Vec<(Yaml, Yaml)> = Vec::new();
    assert(yaml_pairs(none@) =~= Seq::empty());
    let empty = Yaml::Mapping(none);
    proof {
        lemma_yaml_view(empty);
    }
    let doc = match file {
        None => empty,
        Some(t) => {
            let c = chars_of(t);
            if trimmed(&c).len() == 0 {
                empty
            } else {
                match crate::yaml::parse(t) {
                    Ok(d) => d,
                    Err(error) => {
                        return Err(HermesError::NotYaml { path: copy_text(path), error });
                    },
                }
            }
        },
    };
    let ghost given = doc@;
    let (edited, written) = match edit_cache(path, doc, base_url, &usable) {
        Ok(o) => o,
        Err(e) => {
            return Err(e);
        },
    };
    assert(texts(written@).len() == written@.len());
    if written.len() == 0 {
        return Ok((written, None));
    }
    proof {
        if plain_yaml(given) {
            a_plain_cache_stays_plain(path@, given, base_url@, pointed(usable@));
        }
    }
    match crate::yaml::print(&edited) {
        Ok(t) => Ok((written, Some(t))),
        Err(e) => Err(HermesError::Unwritable(e)),
    }
}

/// The ids of the models.
pub open spec fn ids_in(v: Seq<DesiredModel>) -> Seq<Seq<char>> {
    Seq::new(v.len(), |i: int| v[i].id@)
}

/// The full sync: cache always, provider detection reported. `config` and
/// `cache` are what the two files hold, where they are there. Gives the
/// report, and the cache's new text where it changes.
pub fn sync(
    home: &str,
    present: bool,
    config: Option<&str>,
    cache: Option<&str>,
    base_url: &str,
    desired: &[DesiredModel],
) -> (r: Result<(HermesSyncReport, Option<String>), HermesError>)
    ensures
        !present ==> r is Ok && r->Ok_0.0.skipped_missing && r->Ok_0.1 is None
            && r->Ok_0.0.written@.len() == 0 && r->Ok_0.0.below_minimum@.len() == 0
            && !r->Ok_0.0.provider_unregistered,
        present ==> match (
            r,
            cache_synced(
                join_path(home@, "context_length_cache.yaml"@),
                opt_str(cache),
                base_url@,
                desired@,
            ),
        ) {
            (Ok(o), Ok(w)) => {
                &&& texts(o.0.written@) == w.0
                &&& opt_text(o.1) == w.1
                &&& texts(o.0.below_minimum@) == ids_in(by_minimum(desired@, false))
                &&& !o.0.skipped_missing
                &&& o.0.provider_unregistered == (provider_of(
                    match config {
                        Some(t) => t@,
                        None => ""@,
                    },
                    base_url@,
                ) is None)
            },
            (Err(e), Err(f)) => e@ == f,
            _ => false,
        },
{
    let mut report = HermesSyncReport::default();
    if !present {
        report.skipped_missing = true;
        return Ok((report, None));
    }
    let (_, small) = partition_by_minimum(desired);
    let ghost all = by_minimum(desired@, false);
    let mut ids: Vec<String> = Vec::new();
    let mut i: usize = 0;
    while i < small.len()
        invariant
            i <= small.len(),
            pointed(small@) == all,
            texts(ids@) == ids_in(all).take(i as int),
        decreases small.len() - i,
    {
        let ghost sofar = ids@;
        assert(all[i as int] == *small@[i as int]);
        ids.push(small[i].id.clone());
        proof {
            lemma_texts_push(sofar, small[i as int].id);
        }
        i += 1;
        assert(texts(ids@) =~= ids_in(all).take(i as int));
    }
    assert(ids_in(all).take(i as int) =~= ids_in(all));
    report.below_minimum = ids;
    let text = match config {
        Some(t) => t,
        None => "",
    };
    report.provider_unregistered = registered_provider(text, base_url).is_none();
    match sync_context_cache(context_cache_path(home).as_str(), cache, base_url, desired) {
        Ok(o) => {
            report.written = o.0;
            Ok((report, o.1))
        },
        Err(e) => Err(e),
    }
}

// ------------------------------------------------------------------- registration

/// The YAML block registering our router as a Hermes custom provider.
pub open spec fn block_text(base_url: Seq<char>, default_model: Seq<char>) -> Seq<char> {
    "  - name: "@ + PROVIDER_NAME@ + "\n    base_url: "@ + base_url + "\n    api_key: "@
        + PROVIDER_NAME@ + "\n    model: "@ + default_model + "\n"@
}

/// The YAML block registering our router as a Hermes custom provider.
/// Rendered as text, not serialized, because it is APPENDED into a
/// file whose comments and formatting must survive.
pub fn provider_block(base_url: &str, default_model: &str) -> (r: String)
    ensures
        r@ == block_text(base_url@, default_model@),
{
    let mut s = copy_text("  - name: ");
    s.append(PROVIDER_NAME);
    s.append("\n    base_url: ");
    s.append(base_url);
    s.append("\n    api_key: ");
    s.append(PROVIDER_NAME);
    s.append("\n    model: ");
    s.append(default_model);
    s.append("\n");
    s
}

/// The line that opens the block.
pub open spec fn opens_block(line: Seq<char>) -> bool {
    trim_end(line) == "custom_providers:"@
}

/// The first line from `from` on that opens the block.
pub open spec fn opening_from(l: Seq<Seq<char>>, from: int) -> Option<int>
    decreases l.len() - from,
{
    if from < 0 || from >= l.len() {
        None
    } else if opens_block(l[from]) {
        Some(from)
    } else {
        opening_from(l, from + 1)
    }
}

/// The line ends a block: it is neither blank nor indented.
pub open spec fn ends_block(line: Seq<char>) -> bool {
    &&& trim(line).len() > 0
    &&& !starts_with(line, " "@)
    &&& !starts_with(line, "\t"@)
}

/// The first line from `from` on that ends the block, or the end.
pub open spec fn block_end_from(l: Seq<Seq<char>>, from: int) -> int
    decreases l.len() - from,
{
    if from < 0 || from >= l.len() {
        l.len() as int
    } else if ends_block(l[from]) {
        from
    } else {
        block_end_from(l, from + 1)
    }
}

/// Backs off the blank lines before `at`, down to `floor`.
pub open spec fn above_blanks(l: Seq<Seq<char>>, at: int, floor: int) -> int
    decreases at,
{
    if floor < at <= l.len() && at > 0 && trim(l[at - 1]).len() == 0 {
        above_blanks(l, at - 1, floor)
    } else {
        at
    }
}

/// The text ends with a line feed.
pub open spec fn ended(t: Seq<char>) -> bool {
    ends_with(t, "\n"@)
}

/// The config with our provider in it, where it can be extended safely. A
/// flow-style `custom_providers: [{...}]` is legal YAML that a line-based
/// editor cannot extend; a second key of that name would make the file
/// unparseable.
pub open spec fn registered_text(t: Seq<char>, base_url: Seq<char>, model: Seq<char>) -> Option<
    Seq<char>,
> {
    let entry = block_text(base_url, model);
    let l = lines(t);
    let has_key = yaml_document(t) is Ok && field(
        yaml_document(t)->Ok_0,
        "custom_providers"@,
    ) is Some;
    match opening_from(l, 0) {
        None => if has_key {
            None
        } else {
            Some(
                (if ended(t) {
                    t
                } else {
                    t + "\n"@
                }) + "custom_providers:\n"@ + entry,
            )
        },
        Some(i) => {
            let at = above_blanks(l, block_end_from(l, i + 1), i + 1);
            let joined = join(
                l.take(at) + lines(trim_end_of(entry, seq!['\n'])) + l.skip(at),
                "\n"@,
            );
            Some(
                if ended(t) {
                    joined + "\n"@
                } else {
                    joined
                },
            )
        },
    }
}

fn find_opening(l: &[&[char]]) -> (r: Option<usize>)
    ensures
        match r {
            Some(i) => i < l.len() && opening_from(views(l@), 0) == Some(i as int),
            None => opening_from(views(l@), 0) is None,
        },
{
    let want = chars_of("custom_providers:");
    let mut i: usize = 0;
    while i < l.len()
        invariant
            i <= l.len(),
            want@ == "custom_providers:"@,
            opening_from(views(l@), 0) == opening_from(views(l@), i as int),
        decreases l.len() - i,
    {
        assert(views(l@)[i as int] == l@[i as int]@);
        if same(trimmed_end(l[i]), &want) {
            return Some(i);
        }
        i += 1;
    }
    None
}

fn find_insertion(l: &[&[char]], idx: usize) -> (r: usize)
    requires
        idx < l.len(),
    ensures
        r as int == above_blanks(
            views(l@),
            block_end_from(views(l@), idx + 1),
            idx + 1,
        ),
        idx < r <= l.len(),
{
    let ghost v = views(l@);
    let mut end: usize = idx + 1;
    while end < l.len() && !(trimmed(l[end]).len() > 0 && !begins(l[end], " ") && !begins(
        l[end],
        "\t",
    ))
        invariant
            idx < end <= l.len(),
            v == views(l@),
            block_end_from(v, idx + 1) == block_end_from(v, end as int),
        decreases l.len() - end,
    {
        assert(v[end as int] == l@[end as int]@);
        end += 1;
    }
    assert(end < l.len() ==> v[end as int] == l@[end as int]@);
    let mut at: usize = end;
    while at > idx + 1 && trimmed(l[at - 1]).len() == 0
        invariant
            idx < at <= end <= l.len(),
            v == views(l@),
            above_blanks(v, end as int, idx + 1) == above_blanks(v, at as int, idx + 1),
        decreases at,
    {
        assert(v[at - 1] == l@[at - 1]@);
        at -= 1;
    }
    assert(v[at - 1] == l@[at - 1]@);
    at
}

/// Append our provider entry to `custom_providers` by surgical text
/// edit — comments, ordering, and quoting elsewhere are untouched.
/// Returns the new file text; the caller writes and backs up.
///
/// Two shapes are handled: an existing `custom_providers:` sequence
/// (the entry becomes its last item) and no such key (the block is appended).
/// Any other form is refused.
pub fn register_provider_text(config_text: &str, base_url: &str, default_model: &str) -> (r: Option<
    String,
>)
    ensures
        opt_text(r) == registered_text(config_text@, base_url@, default_model@),
{
    broadcast use lemma_texts_push;

    let entry = provider_block(base_url, default_model);
    let c = chars_of(config_text);
    let l = lines_of(&c);
    let ghost v = lines(config_text@);
    let idx = match find_opening(&l) {
        Some(i) => i,
        None => {
            let has_key = match crate::yaml::parse(config_text) {
                Ok(d) => d.get("custom_providers").is_some(),
                Err(_) => false,
            };
            if has_key {
                return None;
            }
            let mut out = copy_text(config_text);
            if !ends(&c, "\n") {
                out.append("\n");
            }
            out.append("custom_providers:\n");
            out.append(entry.as_str());
            return Some(out);
        },
    };
    let at = find_insertion(&l, idx);
    let e = chars_of(entry.as_str());
    let nl: [char; 1] = ['\n'];
    assert(nl@ =~= seq!['\n']);
    let added = lines_of(trimmed_end_of(&e, &nl));
    let ghost av = lines(trim_end_of(entry@, seq!['\n']));
    let ghost want = v.take(at as int) + av + v.skip(at as int);
    let mut out: Vec<String> = Vec::new();
    let mut i: usize = 0;
    while i < at
        invariant
            i <= at <= l.len(),
            views(l@) == v,
            texts(out@) == v.take(i as int),
        decreases at - i,
    {
        let ghost sofar = out@;
        let t = text_of(l[i]);
        out.push(t);
        proof {
            lemma_texts_push(sofar, t);
        }
        i += 1;
        assert(texts(out@) =~= v.take(i as int));
    }
    let mut k: usize = 0;
    assert(texts(out@) =~= v.take(at as int) + av.take(0));
    while k < added.len()
        invariant
            k <= added.len(),
            views(added@) == av,
            texts(out@) == v.take(at as int) + av.take(k as int),
        decreases added.len() - k,
    {
        let ghost sofar = out@;
        let t = text_of(added[k]);
        out.push(t);
        proof {
            lemma_texts_push(sofar, t);
        }
        k += 1;
        assert(texts(out@) =~= v.take(at as int) + av.take(k as int));
    }
    assert(av.take(k as int) =~= av);
    let mut j: usize = at;
    assert(texts(out@) =~= v.take(at as int) + av + v.subrange(at as int, at as int));
    while j < l.len()
        invariant
            at <= j <= l.len(),
            views(l@) == v,
            texts(out@) == v.take(at as int) + av + v.subrange(at as int, j as int),
        decreases l.len() - j,
    {
        let ghost sofar = out@;
        let t = text_of(l[j]);
        out.push(t);
        proof {
            lemma_texts_push(sofar, t);
        }
        j += 1;
        assert(texts(out@) =~= v.take(at as int) + av + v.subrange(at as int, j as int));
    }
    assert(v.subrange(at as int, j as int) =~= v.skip(at as int));
    let mut text = join_texts(&out, "\n");
    if ends(&c, "\n") {
        text.append("\n");
    }
    Some(text)
}

/// Register our router. Refuses when an entry already points at this base URL
/// — appending a second one would be ambiguous. Gives the config's new text;
/// the file is backed up before the write.
pub fn register_provider(path: &str, text: &str, base_url: &str, default_model: &str) -> (r: Result<
    String,
    HermesError,
>)
    ensures
        match r {
            Ok(t) => provider_of(text@, base_url@) is None && registered_text(
                text@,
                base_url@,
                default_model@,
            ) == Some(t@),
            Err(e) => match provider_of(text@, base_url@) {
                Some(n) => e@ == HermesErrorView::AlreadyRegistered(n),
                None => registered_text(text@, base_url@, default_model@) is None && e@
                    == HermesErrorView::CannotExtend(path@),
            },
        },
{
    if let Some(name) = registered_provider(text, base_url) {
        return Err(HermesError::AlreadyRegistered(name));
    }
    match register_provider_text(text, base_url, default_model) {
        Some(t) => Ok(t),
        None => Err(HermesError::CannotExtend { path: copy_text(path) }),
    }
}

// -------------------------------------------------------------------- the mirror

/// What an entry of the cache says of a model at the URL.
pub open spec fn cached_entry(e: (YamlView, YamlView), suffix: Seq<char>) -> Option<(Seq<char>, u64)> {
    match text_of_yaml(e.0) {
        Some(k) => match (strip_suffix(k, suffix), u64_of_yaml(e.1)) {
            (Some(id), Some(n)) => Some((id, n)),
            _ => None,
        },
        None => None,
    }
}

pub open spec fn cached_entries(s: Seq<(YamlView, YamlView)>, suffix: Seq<char>) -> Seq<
    (Seq<char>, u64),
>
    decreases s.len(),
{
    if s.len() == 0 {
        Seq::empty()
    } else {
        let before = cached_entries(s.drop_last(), suffix);
        match cached_entry(s.last(), suffix) {
            Some(p) => before.push(p),
            None => before,
        }
    }
}

/// What a cache's text says of the models at the URL.
pub open spec fn cached_in(text: Seq<char>, base_url: Seq<char>) -> Seq<(Seq<char>, u64)> {
    match yaml_document(text) {
        Ok(doc) => match field(doc, "context_lengths"@) {
            Some(c) => match entries_of(c) {
                Some(s) => cached_entries(s, "@"@ + bare_url(base_url)),
                None => Seq::empty(),
            },
            None => Seq::empty(),
        },
        Err(_) => Seq::empty(),
    }
}

/// What our provider currently declares in the cache, for the mirror:
/// (model id, context) for keys pointing at this base URL.
pub fn cached_for(text: &str, base_url: &str) -> (r: Vec<(String, u64)>)
    ensures
        crate::piagent::count_views(r@) == cached_in(text@, base_url@),
{
    broadcast use lemma_yaml_view;

    let mut out: Vec<(String, u64)> = Vec::new();
    assert(crate::piagent::count_views(out@) =~= Seq::empty());
    let mut suffix = copy_text("@");
    suffix.append(without_slashes(base_url).as_str());
    let doc = match crate::yaml::parse(text) {
        Ok(d) => d,
        Err(_) => {
            return out;
        },
    };
    let c = match doc.get("context_lengths") {
        Some(c) => c,
        None => {
            return out;
        },
    };
    if let Yaml::Mapping(v) = c.untag() {
        let ghost all = yaml_pairs(v@);
        let mut i: usize = 0;
        assert(all.take(0) =~= Seq::empty());
        while i < v.len()
            invariant
                i <= v.len(),
                all == yaml_pairs(v@),
                crate::piagent::count_views(out@) == cached_entries(all.take(i as int), suffix@),
            decreases v.len() - i,
        {
            assert(all.take(i + 1).drop_last() =~= all.take(i as int));
            assert(all.take(i + 1).last() == all[i as int]);
            assert(all[i as int] == (v@[i as int].0@, v@[i as int].1@));
            if let Some(k) = v[i].0.as_str() {
                let kc = chars_of(k.as_str());
                let n = v[i].1.as_u64();
                if let (Some(id), Some(n)) = (without_suffix(&kc, suffix.as_str()), n) {
                    let ghost sofar = crate::piagent::count_views(out@);
                    let id = text_of(id);
                    out.push((id, n));
                    assert(crate::piagent::count_views(out@) =~= sofar.push((id@, n)));
                }
            }
            i += 1;
        }
        assert(all.take(i as int) =~= all);
    }
    out
}

// ------------------------------------------------------------------------- laws

/// Whatever the sync writes, an entry that is not one of ours keeps its value,
/// and stays where it is.
pub proof fn other_entries_survive(
    s: Seq<(YamlView, YamlView)>,
    base_url: Seq<char>,
    models: Seq<DesiredModel>,
    k: int,
)
    requires
        0 <= k < s.len(),
        forall|i: int|
            0 <= i < models.len() ==> s[k].0 != YamlView::Text(
                key_of((#[trigger] models[i]).id@, base_url),
            ),
    ensures
        with_contexts(s, base_url, models).len() >= s.len(),
        with_contexts(s, base_url, models)[k] == s[k],
    decreases models.len(),
{
    if models.len() > 0 {
        let shorter = models.drop_last();
        assert forall|i: int| 0 <= i < shorter.len() implies s[k].0 != YamlView::Text(
            key_of((#[trigger] shorter[i]).id@, base_url),
        ) by {
            assert(shorter[i] == models[i]);
        }
        other_entries_survive(s, base_url, shorter, k);
        let d = models.last();
        assert(models[models.len() - 1] == d);
        let before = with_contexts(s, base_url, shorter);
        set_then_read(
            before,
            key_of(d.id@, base_url),
            YamlView::Pos(safe_context(d.context)),
            Seq::empty(),
        );
        assert(before[k].0 != YamlView::Text(key_of(d.id@, base_url)));
    }
}

/// Registering our provider puts one run of lines into the config and keeps
/// every character of it: comments, ordering and quoting stay. A config with
/// carriage returns gets its line ends changed, so it is left out.
pub proof fn registering_keeps_the_config(t: Seq<char>, base_url: Seq<char>, model: Seq<char>) -> (r:
    (Seq<char>, Seq<char>, Seq<char>))
    requires
        !t.contains('\r'),
        registered_text(t, base_url, model) is Some,
    ensures
        t == r.0 + r.2,
        registered_text(t, base_url, model) == Some(r.0 + r.1 + r.2),
{
    let entry = block_text(base_url, model);
    let l = lines(t);
    let none = Seq::<char>::empty();
    reveal_strlit("\n");
    assert("\n"@ =~= seq!['\n']);
    match opening_from(l, 0) {
        None => {
            let new = (if ended(t) {
                none
            } else {
                "\n"@
            }) + "custom_providers:\n"@ + entry;
            assert(t =~= t + none);
            assert(registered_text(t, base_url, model)->0 =~= t + new + none);
            (t, new, none)
        },
        Some(i) => {
            lemma_opening_from(l, 0);
            lemma_block_end_from(l, i + 1);
            let end = block_end_from(l, i + 1);
            lemma_above_blanks(l, end, i + 1);
            let at = above_blanks(l, end, i + 1);
            let e = lines(trim_end_of(entry, seq!['\n']));
            let nl = "\n"@;
            lemma_lines_join(t);
            lemma_entry_lines(base_url, model);
            assert(ended(t) == (t.len() > 0 && t.last() == '\n')) by {
                if t.len() > 0 {
                    assert(t.subrange(t.len() - 1, t.len() as int) =~= seq![t.last()]);
                    assert(seq![t.last()][0] == t.last() && seq!['\n'][0] == '\n');
                }
            }
            let f = line_feed_of(t);
            let a = l.take(at);
            let z = l.skip(at);
            assert(l =~= a + z);
            lemma_join_append(a, e, nl);
            let got = registered_text(t, base_url, model)->0;
            if z.len() > 0 {
                lemma_join_append(a, z, nl);
                lemma_join_append(a + e, z, nl);
                let tail = nl + join(z, nl) + f;
                assert(t =~= join(a, nl) + tail);
                assert(got =~= join(a, nl) + (nl + join(e, nl)) + tail);
                (join(a, nl), nl + join(e, nl), tail)
            } else {
                assert(a + e + z =~= a + e);
                assert(a =~= l);
                assert(got =~= join(a, nl) + (nl + join(e, nl)) + f);
                (join(a, nl), nl + join(e, nl), f)
            }
        },
    }
}

proof fn lemma_opening_from(l: Seq<Seq<char>>, from: int)
    requires
        0 <= from,
    ensures
        opening_from(l, from) matches Some(i) ==> from <= i < l.len(),
    decreases l.len() - from,
{
    if from < l.len() && !opens_block(l[from]) {
        lemma_opening_from(l, from + 1);
    }
}

proof fn lemma_block_end_from(l: Seq<Seq<char>>, from: int)
    requires
        0 <= from <= l.len(),
    ensures
        from <= block_end_from(l, from) <= l.len(),
    decreases l.len() - from,
{
    if from < l.len() && !ends_block(l[from]) {
        lemma_block_end_from(l, from + 1);
    }
}

proof fn lemma_above_blanks(l: Seq<Seq<char>>, at: int, floor: int)
    requires
        0 < floor <= at <= l.len(),
    ensures
        floor <= above_blanks(l, at, floor) <= at,
    decreases at,
{
    if floor < at && trim(l[at - 1]).len() == 0 {
        lemma_above_blanks(l, at - 1, floor);
    }
}

/// The entry has lines.
proof fn lemma_entry_lines(base_url: Seq<char>, model: Seq<char>)
    ensures
        lines(trim_end_of(block_text(base_url, model), seq!['\n'])).len() > 0,
{
    reveal_strlit("  - name: ");
    let entry = block_text(base_url, model);
    assert(entry[0] == ' ');
    lemma_first_stays(entry);
}

/// Trimming line feeds from the end leaves a first character that is none.
proof fn lemma_first_stays(s: Seq<char>)
    requires
        s.len() > 0,
        s[0] == ' ',
    ensures
        trim_end_of(s, seq!['\n']).len() > 0,
    decreases s.len(),
{
    if seq!['\n'].contains(s.last()) {
        if s.len() == 1 {
            assert(s.last() == ' ');
            assert(seq!['\n'][0] == '\n');
        } else {
            lemma_first_stays(s.drop_last());
        }
    }
}

/// Every other top-level key of the cache keeps its value.
pub proof fn other_keys_of_the_cache_survive(
    path: Seq<char>,
    doc: YamlView,
    base_url: Seq<char>,
    models: Seq<DesiredModel>,
    key: Seq<char>,
)
    requires
        cache_with(path, doc, base_url, models) is Ok,
        key != "context_lengths"@,
    ensures
        field(cache_with(path, doc, base_url, models)->Ok_0.0, key) == field(doc, key),
{
    let root = entries_of(doc)->0;
    let inner = with_entries(
        contexts_of(root),
        with_contexts(entries_of(contexts_of(root))->0, base_url, models),
    );
    set_then_read(root, "context_lengths"@, inner, key);
    lemma_with_entries(doc, with_value(root, "context_lengths"@, inner));
}

proof fn lemma_with_entries(y: YamlView, s: Seq<(YamlView, YamlView)>)
    ensures
        entries_of(with_entries(y, s)) == Some(s),
    decreases y,
{
    if let YamlView::Tagged(_, b) = y {
        lemma_with_entries(*b, s);
    }
}

/// A second sync writes nothing: after the first, every model's context is in
/// the cache. The ids must differ: two contexts of one id would replace each
/// other.
pub proof fn a_second_sync_writes_nothing(
    s: Seq<(YamlView, YamlView)>,
    base_url: Seq<char>,
    models: Seq<DesiredModel>,
)
    requires
        crate::piagent::distinct(models),
    ensures
        written_ids(with_contexts(s, base_url, models), base_url, models).len() == 0,
{
    let t = with_contexts(s, base_url, models);
    assert forall|i: int| 0 <= i < models.len() implies up_to_date(
        t,
        base_url,
        #[trigger] models[i],
    ) by {
        lemma_written_context(s, base_url, models, i);
    }
    lemma_nothing_to_write(t, base_url, models);
}

proof fn lemma_keys_differ(a: Seq<char>, b: Seq<char>, base_url: Seq<char>)
    requires
        key_of(a, base_url) == key_of(b, base_url),
    ensures
        a == b,
{
    let x = key_of(a, base_url);
    let y = key_of(b, base_url);
    assert(x.len() == a.len() + "@"@.len() + bare_url(base_url).len());
    assert(a.len() == b.len());
    assert(a =~= x.take(a.len() as int));
    assert(b =~= y.take(b.len() as int));
}

proof fn lemma_written_context(
    s: Seq<(YamlView, YamlView)>,
    base_url: Seq<char>,
    models: Seq<DesiredModel>,
    i: int,
)
    requires
        crate::piagent::distinct(models),
        0 <= i < models.len(),
    ensures
        up_to_date(with_contexts(s, base_url, models), base_url, models[i]),
    decreases models.len(),
{
    let shorter = models.drop_last();
    let before = with_contexts(s, base_url, shorter);
    let d = models.last();
    let last = models.len() - 1;
    assert(models[last] == d);
    set_then_read(
        before,
        key_of(d.id@, base_url),
        YamlView::Pos(safe_context(d.context)),
        key_of(models[i].id@, base_url),
    );
    if i < last {
        assert(shorter[i] == models[i]);
        lemma_written_context(s, base_url, shorter, i);
        if key_of(models[i].id@, base_url) == key_of(d.id@, base_url) {
            lemma_keys_differ(models[i].id@, d.id@, base_url);
        }
    }
}

proof fn lemma_nothing_to_write(
    t: Seq<(YamlView, YamlView)>,
    base_url: Seq<char>,
    models: Seq<DesiredModel>,
)
    requires
        forall|i: int| 0 <= i < models.len() ==> up_to_date(t, base_url, #[trigger] models[i]),
    ensures
        with_contexts(t, base_url, models) == t,
        written_ids(t, base_url, models).len() == 0,
    decreases models.len(),
{
    if models.len() > 0 {
        let shorter = models.drop_last();
        assert forall|i: int| 0 <= i < shorter.len() implies up_to_date(
            t,
            base_url,
            #[trigger] shorter[i],
        ) by {
            assert(shorter[i] == models[i]);
        }
        lemma_nothing_to_write(t, base_url, shorter);
        assert(models[models.len() - 1] == models.last());
    }
}

/// A model that is too small for Hermes is never written.
pub proof fn small_models_are_never_written(desired: Seq<DesiredModel>, k: int)
    requires
        0 <= k < by_minimum(desired, true).len(),
    ensures
        safe_context(by_minimum(desired, true)[k].context) >= MINIMUM_CONTEXT,
    decreases desired.len(),
{
    if k < by_minimum(desired.drop_last(), true).len() {
        small_models_are_never_written(desired.drop_last(), k);
    }
}

proof fn lemma_contexts_plain(
    s: Seq<(YamlView, YamlView)>,
    base_url: Seq<char>,
    models: Seq<DesiredModel>,
)
    requires
        plain_yaml(YamlView::Mapping(s)),
    ensures
        plain_yaml(YamlView::Mapping(with_contexts(s, base_url, models))),
    decreases models.len(),
{
    if models.len() > 0 {
        lemma_contexts_plain(s, base_url, models.drop_last());
        let d = models.last();
        setting_keeps_it_plain(
            with_contexts(s, base_url, models.drop_last()),
            key_of(d.id@, base_url),
            YamlView::Pos(safe_context(d.context)),
        );
    }
}

/// A cache of nothing but texts, numbers and mappings of them stays one when
/// contexts are written, so that its text is that of the very document that
/// was edited.
pub proof fn a_plain_cache_stays_plain(
    path: Seq<char>,
    doc: YamlView,
    base_url: Seq<char>,
    models: Seq<DesiredModel>,
)
    requires
        plain_yaml(doc),
        cache_with(path, doc, base_url, models) is Ok,
    ensures
        plain_yaml(cache_with(path, doc, base_url, models)->Ok_0.0),
{
    let root = entries_of(doc)->0;
    let c = contexts_of(root);
    let s = entries_of(c)->0;
    assert(plain_yaml(c)) by {
        if value_of_key(root, "context_lengths"@) is Some {
            lemma_text_key_from(root, "context_lengths"@, 0);
        }
    }
    lemma_contexts_plain(s, base_url, models);
    setting_keeps_it_plain(
        root,
        "context_lengths"@,
        YamlView::Mapping(with_contexts(s, base_url, models)),
    );
}

/// Hermes is told of every model that it can run, and of no other: one whose context, less
/// the part that is held back, is at least 64000.
pub proof fn the_minimum_parts_the_models(desired: Seq<DesiredModel>, i: int)
    requires
        0 <= i < desired.len(),
    ensures
        safe_context(desired[i].context) >= 64_000 ==> by_minimum(desired, true).contains(
            desired[i],
        ),
        safe_context(desired[i].context) < 64_000 ==> by_minimum(desired, false).contains(
            desired[i],
        ),
        by_minimum(desired, true).len() + by_minimum(desired, false).len() == desired.len(),
        forall|k: int|
            0 <= k < by_minimum(desired, true).len() ==> safe_context(
                (#[trigger] by_minimum(desired, true)[k]).context,
            ) >= 64_000,
        forall|k: int|
            0 <= k < by_minimum(desired, false).len() ==> safe_context(
                (#[trigger] by_minimum(desired, false)[k]).context,
            ) < 64_000,
    decreases desired.len(),
{
    let s = desired.drop_last();
    if s.len() > 0 {
        the_minimum_parts_the_models(s, if i < s.len() { i } else { 0 });
    }
    assert(by_minimum(desired, true) == (if large_enough(desired.last()) {
        by_minimum(s, true).push(desired.last())
    } else {
        by_minimum(s, true)
    }));
    assert(by_minimum(desired, false) == (if large_enough(desired.last()) {
        by_minimum(s, false)
    } else {
        by_minimum(s, false).push(desired.last())
    }));
    assert(s.len() == 0 ==> by_minimum(s, true).len() == 0 && by_minimum(s, false).len() == 0);
    if i < s.len() {
        assert(s[i] == desired[i]);
        lemma_stays_in(by_minimum(s, true), by_minimum(desired, true), desired[i]);
        lemma_stays_in(by_minimum(s, false), by_minimum(desired, false), desired[i]);
    } else {
        let a = by_minimum(desired, true);
        let b = by_minimum(desired, false);
        if large_enough(desired[i]) {
            assert(a[a.len() - 1] == desired[i]);
        } else {
            assert(b[b.len() - 1] == desired[i]);
        }
    }
}

proof fn lemma_stays_in(before: Seq<DesiredModel>, now: Seq<DesiredModel>, d: DesiredModel)
    requires
        before.len() <= now.len(),
        forall|k: int| 0 <= k < before.len() ==> #[trigger] now[k] == before[k],
    ensures
        before.contains(d) ==> now.contains(d),
{
    if before.contains(d) {
        let k = choose|k: int| 0 <= k < before.len() && before[k] == d;
        assert(now[k] == d);
    }
}

/// After a sync the cache says of every model that was synced the context that is safe, under
/// the model's id, an at sign and the URL.
pub proof fn what_is_written_is_told(
    s: Seq<(YamlView, YamlView)>,
    base_url: Seq<char>,
    models: Seq<DesiredModel>,
    i: int,
)
    requires
        crate::piagent::distinct(models),
        0 <= i < models.len(),
    ensures
        ({
            let key = models[i].id@ + "@"@ + trim_end_of(base_url, seq!['/']);
            let v = value_of_key(with_contexts(s, base_url, models), key);
            v is Some && u64_of_yaml(v->0) == Some(safe_context(models[i].context))
        }),
    decreases models.len(),
{
    let m = models.drop_last();
    let before = with_contexts(s, base_url, m);
    let d = models.last();
    assert(crate::piagent::distinct(m)) by {
        assert forall|a: int, b: int| 0 <= a < b < m.len() implies (#[trigger] m[a]).id@ != (
        #[trigger] m[b]).id@ by {
            assert(m[a] == models[a] && m[b] == models[b]);
        }
    }
    if i < m.len() {
        what_is_written_is_told(s, base_url, m, i);
        assert(models[i].id@ != models[models.len() - 1].id@);
        if key_of(models[i].id@, base_url) == key_of(d.id@, base_url) {
            lemma_keys_differ(models[i].id@, d.id@, base_url);
        }
        set_then_read(
            before,
            key_of(d.id@, base_url),
            YamlView::Pos(safe_context(d.context)),
            key_of(models[i].id@, base_url),
        );
    } else {
        set_then_read(
            before,
            key_of(d.id@, base_url),
            YamlView::Pos(safe_context(d.context)),
            key_of(d.id@, base_url),
        );
    }
}

/// What is registered names our provider, the URL, and the model to start with.
pub proof fn the_block_names_url_and_model(base_url: Seq<char>, model: Seq<char>)
    ensures
        block_text(base_url, model)
            == "  - name: "@ + "modelsteward"@ + "\n    base_url: "@ + base_url
            + "\n    api_key: "@ + "modelsteward"@ + "\n    model: "@ + model + "\n"@,
{
}

/// Where a config has no providers yet, they are put at its end, with ours as the first.
pub proof fn a_config_without_providers_gets_ours(
    t: Seq<char>,
    base_url: Seq<char>,
    model: Seq<char>,
)
    requires
        opening_from(lines(t), 0) is None,
        yaml_document(t) is Ok ==> field(yaml_document(t)->Ok_0, "custom_providers"@) is None,
    ensures
        registered_text(t, base_url, model) is Some,
        starts_with(registered_text(t, base_url, model)->0, t),
        ends_with(
            registered_text(t, base_url, model)->0,
            "custom_providers:\n"@ + block_text(base_url, model),
        ),
{
    let e = "custom_providers:\n"@ + block_text(base_url, model);
    let r = registered_text(t, base_url, model)->0;
    let head = if ended(t) {
        t
    } else {
        t + "\n"@
    };
    assert(r =~= head + e);
    assert(r.subrange(0, t.len() as int) =~= t);
    assert(r.subrange(r.len() - e.len(), r.len() as int) =~= e);
}

} // verus!
