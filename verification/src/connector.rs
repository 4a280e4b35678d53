//! The `Connector` trait: one shape for every agent whose config mirrors
//! what the router serves.
//!
//! A connector holds what its agent's files say; syncing computes what they
//! should say instead, in the agent's own schema, and the words that tell of
//! it. Reading and writing the files, and backing them up first, is the
//! caller's.
use crate::hermes::{
    by_minimum, cache_synced, context_cache_path, hermes_present, ids_in, provider_of,
};
use crate::json::{built, json_pretty};
use crate::num::{dec, dec_len};
use crate::opencode::{
    config_path_of, desired_ids, ids_besides, ids_where, models_of_doc, synced, DesiredModel,
};
use crate::path::join_path;
use crate::piagent::{
    added_ids, by_id, ids_listed, listed, new_block, our_block, pi_present, start_of,
    undesired_ids, updated_ids, with_block,
};
use crate::preset::TextSet;
use crate::settings::{home_of, pairs, Env};
use crate::text::{
    copy_text, join, join_texts, lemma_texts_push, opt_str, opt_text, same_text, texts,
};
use vstd::prelude::*;
use vstd::string::*;

verus! {

/// Everything a connector needs to do its job, so the trait method does
/// not grow an argument per agent.
pub struct SyncContext<'a> {
    /// Where the router answers — what the agent will call.
    pub base_url: &'a str,
    /// The measured model set the agent should end up mirroring.
    pub desired: &'a [DesiredModel],
    /// Ids the fleet is known to hold: preset ∪ measurements − disabled.
    /// Positive evidence for a removal, so a model that merely failed to
    /// load today is never deleted from a user's config.
    pub known: &'a TextSet,
}

/// What one connector did, in a shape that every caller can render the same
/// way.
#[derive(Debug, PartialEq)]
pub struct Outcome {
    pub connector: &'static str,
    /// The agent isn't installed. Not an error, and not worth a line:
    /// this app serves anything OpenAI-compatible whether or not any
    /// particular agent is present.
    pub skipped_missing: bool,
    /// The one-line result, already worded.
    pub summary: Option<String>,
    /// Secondary facts worth saying: things skipped, kept, or needing a
    /// human. Rendered under the summary.
    pub notes: Vec<String>,
    /// The files to write, each with its new text.
    pub writes: Vec<(String, String)>,
}

pub struct OutcomeView {
    pub connector: Seq<char>,
    pub skipped_missing: bool,
    pub summary: Option<Seq<char>>,
    pub notes: Seq<Seq<char>>,
    pub writes: Seq<(Seq<char>, Seq<char>)>,
}

impl View for Outcome {
    type V = OutcomeView;

    open spec fn view(&self) -> OutcomeView {
        OutcomeView {
            connector: self.connector@,
            skipped_missing: self.skipped_missing,
            summary: opt_text(self.summary),
            notes: texts(self.notes@),
            writes: pairs(self.writes@),
        }
    }
}

/// An agent that isn't installed.
pub open spec fn absent_of(connector: Seq<char>) -> OutcomeView {
    OutcomeView {
        connector,
        skipped_missing: true,
        summary: None,
        notes: Seq::empty(),
        writes: Seq::empty(),
    }
}

pub open spec fn result_view(r: Result<Outcome, String>) -> Result<OutcomeView, Seq<char>> {
    match r {
        Ok(o) => Ok(o@),
        Err(e) => Err(e@),
    }
}

impl Outcome {
    /// The outcome of an agent that isn't installed.
    pub fn absent(connector: &'static str) -> (r: Outcome)
        ensures
            r@ == absent_of(connector@),
    {
        let r = Outcome {
            connector,
            skipped_missing: true,
            summary: None,
            notes: Vec::new(),
            writes: Vec::new(),
        };
        assert(texts(r.notes@) =~= Seq::empty());
        assert(pairs(r.writes@) =~= Seq::empty());
        r
    }
}

/// An agent whose configuration mirrors what the router serves. What a
/// connector is called, where it stands and what its sync comes to depend on
/// what it holds and on what is synced, and on nothing else; where it does
/// not say otherwise, it is that of an agent that isn't installed.
pub trait Connector {
    open spec fn id_text(&self) -> Seq<char> {
        Seq::empty()
    }

    open spec fn name_text(&self) -> Seq<char> {
        Seq::empty()
    }

    open spec fn path_text(&self) -> Seq<char> {
        Seq::empty()
    }

    open spec fn is_present(&self) -> bool {
        false
    }

    /// What syncing comes to.
    open spec fn synced_to(
        &self,
        base_url: Seq<char>,
        desired: Seq<DesiredModel>,
        known: Seq<(Seq<char>, ())>,
    ) -> Result<OutcomeView, Seq<char>> {
        Ok(absent_of(self.id_text()))
    }

    /// Stable identifier for logs and config. Never shown as a heading.
    fn id(&self) -> (r: &'static str)
        ensures
            r@ == self.id_text(),
    ;

    /// What a person calls this agent.
    fn display_name(&self) -> (r: &'static str)
        ensures
            r@ == self.name_text(),
    ;

    /// The file or directory this connector owns.
    fn config_path(&self) -> (r: String)
        ensures
            r@ == self.path_text(),
    ;

    /// Is the agent installed on this machine?
    fn present(&self) -> (r: bool)
        ensures
            r == self.is_present(),
    ;

    /// Mirror `ctx.desired` into the agent's own schema. None may write when
    /// [`Connector::present`] is false.
    fn sync(&self, ctx: &SyncContext<'_>) -> (r: Result<Outcome, String>)
        ensures
            result_view(r) == self.synced_to(ctx.base_url@, ctx.desired@, ctx.known@),
            !self.is_present() && r is Ok ==> r->Ok_0@.writes.len() == 0,
    ;
}

// ------------------------------------------------------------------------ fan-out

/// A note under its summary.
pub open spec fn note_line(n: Seq<char>) -> Seq<char> {
    "  · "@ + n
}

/// The lines that a result comes to.
pub open spec fn result_lines(name: Seq<char>, r: Result<OutcomeView, Seq<char>>) -> Seq<Seq<char>> {
    match r {
        Ok(o) => if o.skipped_missing {
            Seq::empty()
        } else {
            (match o.summary {
                Some(s) => seq![s],
                None => Seq::empty(),
            }) + Seq::new(o.notes.len(), |i: int| note_line(o.notes[i]))
        },
        Err(e) => seq![name + " sync FAILED: "@ + e],
    }
}

/// The lines that a connector's result comes to: an absent agent is silent,
/// notes stand under their summary, and a failure is a line like any other.
pub fn outcome_lines(name: &str, r: &Result<Outcome, String>) -> (lines: Vec<String>)
    ensures
        texts(lines@) == result_lines(name@, result_view(*r)),
{
    let mut out: Vec<String> = Vec::new();
    assert(texts(out@) =~= Seq::<Seq<char>>::empty());
    match r {
        Ok(o) => {
            if o.skipped_missing {
                return out;
            }
            let ghost first = match o@.summary {
                Some(s) => seq![s],
                None => Seq::empty(),
            };
            if let Some(s) = &o.summary {
                out.push(s.clone());
            }
            assert(texts(out@) =~= first);
            let ghost rest = Seq::new(o@.notes.len(), |i: int| note_line(o@.notes[i]));
            let mut i: usize = 0;
            assert(texts(out@) =~= first + rest.take(0));
            while i < o.notes.len()
                invariant
                    i <= o.notes@.len(),
                    rest == Seq::new(o@.notes.len(), |i: int| note_line(o@.notes[i])),
                    texts(out@) == first + rest.take(i as int),
                decreases o.notes.len() - i,
            {
                let mut s = copy_text("  · ");
                s.append(o.notes[i].as_str());
                assert(rest[i as int] == s@);
                proof {
                    lemma_texts_push(out@, s);
                }
                assert(first + rest.take(i + 1) =~= (first + rest.take(i as int)).push(s@));
                out.push(s);
                i += 1;
            }
            assert(rest.take(i as int) =~= rest);
            out
        },
        Err(e) => {
            let mut s = copy_text(name);
            s.append(" sync FAILED: ");
            s.append(e.as_str());
            out.push(s);
            assert(texts(out@) =~= seq![name@ + " sync FAILED: "@ + e@]);
            out
        },
    }
}

pub open spec fn named_views(v: Seq<(&'static str, Result<Outcome, String>)>) -> Seq<
    (Seq<char>, Result<OutcomeView, Seq<char>>),
> {
    Seq::new(v.len(), |i: int| (v[i].0@, result_view(v[i].1)))
}

/// The lines of the first `n` results, in their order.
pub open spec fn lines_of_all(
    rs: Seq<(Seq<char>, Result<OutcomeView, Seq<char>>)>,
    n: int,
) -> Seq<Seq<char>>
    decreases n,
{
    if n <= 0 {
        Seq::empty()
    } else {
        lines_of_all(rs, n - 1) + result_lines(rs[n - 1].0, rs[n - 1].1)
    }
}

/// One set of lines for every caller: each agent's name and what its sync
/// came to, in the given order.
///
/// A connector that failed does not stop the others: agents are independent,
/// and a broken pi install must never cost the user their Hermes sync.
pub fn fan_out_lines(results: &[(&'static str, Result<Outcome, String>)]) -> (r: Vec<String>)
    ensures
        texts(r@) == lines_of_all(named_views(results@), results@.len() as int),
{
    let ghost rs = named_views(results@);
    let mut out: Vec<String> = Vec::new();
    let mut i: usize = 0;
    assert(texts(out@) =~= Seq::<Seq<char>>::empty());
    while i < results.len()
        invariant
            i <= results.len(),
            rs == named_views(results@),
            texts(out@) == lines_of_all(rs, i as int),
        decreases results.len() - i,
    {
        let mut lines = outcome_lines(results[i].0, &results[i].1);
        let ghost more = lines@;
        let ghost sofar = out@;
        out.append(&mut lines);
        assert(out@ == sofar + more);
        assert(texts(out@) =~= texts(sofar) + texts(more));
        i += 1;
    }
    out
}

/// What each connector is called, and what its sync comes to.
pub open spec fn synced_all(
    connectors: Seq<Box<dyn Connector>>,
    base_url: Seq<char>,
    desired: Seq<DesiredModel>,
    known: Seq<(Seq<char>, ())>,
) -> Seq<(Seq<char>, Result<OutcomeView, Seq<char>>)> {
    Seq::new(
        connectors.len(),
        |i: int| (connectors[i].name_text(), connectors[i].synced_to(base_url, desired, known)),
    )
}

/// Sync each connector once, in the given order and whatever the others came
/// to, rendering one set of lines for every caller. A failure becomes a line
/// like any other result.
pub fn sync_all(connectors: &[Box<dyn Connector>], ctx: &SyncContext<'_>) -> (r: Vec<String>)
    ensures
        texts(r@) == lines_of_all(
            synced_all(connectors@, ctx.base_url@, ctx.desired@, ctx.known@),
            connectors@.len() as int,
        ),
{
    let mut results: Vec<(&'static str, Result<Outcome, String>)> = Vec::new();
    let mut i: usize = 0;
    while i < connectors.len()
        invariant
            i <= connectors.len(),
            results@.len() == i,
            forall|k: int|
                0 <= k < i ==> (#[trigger] results@[k]).0@ == connectors@[k].name_text()
                    && result_view(results@[k].1) == connectors@[k].synced_to(
                    ctx.base_url@,
                    ctx.desired@,
                    ctx.known@,
                ),
        decreases connectors.len() - i,
    {
        let name = connectors[i].display_name();
        results.push((name, connectors[i].sync(ctx)));
        i += 1;
    }
    assert(named_views(results@) =~= synced_all(
        connectors@,
        ctx.base_url@,
        ctx.desired@,
        ctx.known@,
    ));
    fan_out_lines(&results)
}

// ----------------------------------------------------------------------------- pi

/// pi's models.json: where it is, whether pi's directory is there, and what
/// the file holds, where there is one.
pub struct PiConnector {
    pub models_path: String,
    pub agent_dir: bool,
    pub file: Option<String>,
}

impl PiConnector {
    /// The connector of a models.json about which nothing is known yet.
    pub fn at(models_path: String) -> (r: PiConnector)
        ensures
            r.models_path == models_path,
            !r.agent_dir,
            r.file is None,
    {
        PiConnector { models_path, agent_dir: false, file: None }
    }
}

pub const PI_KEPT: &'static str = " entr(ies) kept although not measurable right now — a transient \
                 load failure never deletes a config entry";

pub open spec fn one_if(on: bool, t: Seq<char>) -> Seq<Seq<char>> {
    if on {
        seq![t]
    } else {
        Seq::empty()
    }
}

/// What syncing pi comes to.
pub open spec fn pi_synced(
    c: PiConnector,
    base_url: Seq<char>,
    desired: Seq<DesiredModel>,
    known: Seq<(Seq<char>, ())>,
) -> Result<OutcomeView, Seq<char>> {
    if !(crate::path::parent(c.models_path@) is Some && c.agent_dir) {
        Ok(absent_of("pi"@))
    } else {
        match start_of(c.models_path@, opt_text(c.file)) {
            Err(e) => Err(e.text()),
            Ok(doc) => {
                let ids = desired_ids(desired);
                let added = added_ids(by_id(ids), desired, listed(doc));
                let updated = updated_ids(by_id(ids), desired, listed(doc));
                let removed = undesired_ids(ids_listed(listed(doc)), ids, known, false);
                let kept = undesired_ids(ids_listed(listed(doc)), ids, known, true);
                let settled = added.len() == 0 && updated.len() == 0 && removed.len() == 0 && c.file
                    is Some && our_block(doc) is Some;
                let after = with_block(doc, new_block(base_url, doc, desired, known));
                if !settled && after is Err {
                    Err((after->Err_0).text())
                } else {
                    Ok(
                        OutcomeView {
                            connector: "pi"@,
                            skipped_missing: false,
                            summary: Some(
                                "pi agent synced ("@ + c.models_path@ + "): "@ + dec(added.len())
                                    + " added, "@ + dec(updated.len()) + " updated, "@ + dec(
                                    removed.len(),
                                ) + " removed"@ + (if c.file is None {
                                    " — models.json created"@
                                } else {
                                    ""@
                                }),
                            ),
                            notes: one_if(kept.len() > 0, dec(kept.len()) + PI_KEPT@),
                            writes: if settled {
                                Seq::empty()
                            } else {
                                seq![
                                    (
                                        c.models_path@,
                                        json_pretty(built(after->Ok_0)) + "\n"@,
                                    ),
                                ]
                            },
                        },
                    )
                }
            },
        }
    }
}

fn one_write(path: &str, text: Option<String>) -> (r: Vec<(String, String)>)
    ensures
        pairs(r@) == (match text {
            Some(t) => seq![(path@, t@)],
            None => Seq::empty(),
        }),
{
    let mut v: Vec<(String, String)> = Vec::new();
    if let Some(t) = text {
        v.push((copy_text(path), t));
        assert(pairs(v@) =~= seq![(path@, t@)]);
    } else {
        assert(pairs(v@) =~= Seq::empty());
    }
    v
}

fn opt_ref(t: &Option<String>) -> (r: Option<&str>)
    ensures
        opt_str(r) == opt_text(*t),
        r is None <==> *t is None,
{
    match t {
        Some(s) => Some(s.as_str()),
        None => None,
    }
}

impl Connector for PiConnector {
    open spec fn id_text(&self) -> Seq<char> {
        "pi"@
    }

    open spec fn name_text(&self) -> Seq<char> {
        "pi agent"@
    }

    open spec fn path_text(&self) -> Seq<char> {
        self.models_path@
    }

    open spec fn is_present(&self) -> bool {
        crate::path::parent(self.models_path@) is Some && self.agent_dir
    }

    open spec fn synced_to(
        &self,
        base_url: Seq<char>,
        desired: Seq<DesiredModel>,
        known: Seq<(Seq<char>, ())>,
    ) -> Result<OutcomeView, Seq<char>> {
        pi_synced(*self, base_url, desired, known)
    }

    fn id(&self) -> (r: &'static str) {
        "pi"
    }

    fn display_name(&self) -> (r: &'static str) {
        "pi agent"
    }

    fn config_path(&self) -> (r: String) {
        self.models_path.clone()
    }

    fn present(&self) -> (r: bool) {
        pi_present(self.models_path.as_str(), self.agent_dir)
    }

    fn sync(&self, ctx: &SyncContext<'_>) -> (r: Result<Outcome, String>) {
        let (report, text) = match crate::piagent::sync_file_with_known(
            self.models_path.as_str(),
            self.present(),
            opt_ref(&self.file),
            ctx.base_url,
            ctx.desired,
            ctx.known,
        ) {
            Ok(p) => p,
            Err(e) => {
                return Err(e.message());
            },
        };
        if report.skipped_missing {
            return Ok(Outcome::absent("pi"));
        }
        let ghost doc = start_of(self.models_path@, opt_text(self.file))->Ok_0;
        assert(texts(report.added@).len() == report.added@.len());
        assert(texts(report.updated@).len() == report.updated@.len());
        assert(texts(report.removed@).len() == report.removed@.len());
        assert(texts(report.kept_unmeasured@).len() == report.kept_unmeasured@.len());
        let mut notes: Vec<String> = Vec::new();
        let kept = report.kept_unmeasured.len();
        if kept > 0 {
            let mut n = dec_len(kept);
            n.append(PI_KEPT);
            notes.push(n);
        }
        assert(texts(notes@) =~= one_if(kept > 0, dec(kept as nat) + PI_KEPT@));
        let mut s = copy_text("pi agent synced (");
        s.append(self.models_path.as_str());
        s.append("): ");
        s.append(dec_len(report.added.len()).as_str());
        s.append(" added, ");
        s.append(dec_len(report.updated.len()).as_str());
        s.append(" updated, ");
        s.append(dec_len(report.removed.len()).as_str());
        s.append(" removed");
        if report.created_file {
            s.append(" — models.json created");
        } else {
            s.append("");
        }
        let writes = one_write(self.models_path.as_str(), text);
        Ok(Outcome { connector: "pi", skipped_missing: false, summary: Some(s), notes, writes })
    }
}

// ------------------------------------------------------------------------- Hermes

/// Hermes's home: where it is, whether it is there, and what its
/// configuration and its context cache hold, where there are any.
pub struct HermesConnector {
    pub home: String,
    pub home_is_dir: bool,
    pub config: Option<String>,
    pub cache: Option<String>,
}

impl HermesConnector {
    /// The connector of a home about which nothing is known yet.
    pub fn at(home: String) -> (r: HermesConnector)
        ensures
            r.home == home,
            !r.home_is_dir,
            r.config is None,
            r.cache is None,
    {
        HermesConnector { home, home_is_dir: false, config: None, cache: None }
    }
}

pub const HERMES_SMALL: &'static str = " model(s) skipped — under Hermes's 64,000-token minimum: ";

pub const HERMES_UNREGISTERED: &'static str = "no Hermes custom provider points at this router yet — register one on \
                 the Connections tab, or via Hermes's own /model";

/// What syncing Hermes comes to. Registration edits a live, hand-maintained
/// config, so it stays an explicit click rather than a side effect of sync.
pub open spec fn hermes_synced(
    c: HermesConnector,
    base_url: Seq<char>,
    desired: Seq<DesiredModel>,
) -> Result<OutcomeView, Seq<char>> {
    if !c.home_is_dir {
        Ok(absent_of("hermes"@))
    } else {
        let path = join_path(c.home@, "context_length_cache.yaml"@);
        match cache_synced(path, opt_text(c.cache), base_url, desired) {
            Err(e) => Err(e.text()),
            Ok(w) => {
                let small = ids_in(by_minimum(desired, false));
                let config = match c.config {
                    Some(t) => t@,
                    None => ""@,
                };
                Ok(
                    OutcomeView {
                        connector: "hermes"@,
                        skipped_missing: false,
                        summary: Some(
                            "Hermes synced: "@ + dec(w.0.len()) + " context(s) written"@,
                        ),
                        notes: one_if(
                            small.len() > 0,
                            dec(small.len()) + HERMES_SMALL@ + join(small, ", "@),
                        ) + one_if(provider_of(config, base_url) is None, HERMES_UNREGISTERED@),
                        writes: match w.1 {
                            Some(t) => seq![(path, t)],
                            None => Seq::empty(),
                        },
                    },
                )
            },
        }
    }
}

impl Connector for HermesConnector {
    open spec fn id_text(&self) -> Seq<char> {
        "hermes"@
    }

    open spec fn name_text(&self) -> Seq<char> {
        "Hermes"@
    }

    open spec fn path_text(&self) -> Seq<char> {
        self.home@
    }

    open spec fn is_present(&self) -> bool {
        self.home_is_dir
    }

    open spec fn synced_to(
        &self,
        base_url: Seq<char>,
        desired: Seq<DesiredModel>,
        known: Seq<(Seq<char>, ())>,
    ) -> Result<OutcomeView, Seq<char>> {
        hermes_synced(*self, base_url, desired)
    }

    fn id(&self) -> (r: &'static str) {
        "hermes"
    }

    fn display_name(&self) -> (r: &'static str) {
        "Hermes"
    }

    fn config_path(&self) -> (r: String) {
        self.home.clone()
    }

    fn present(&self) -> (r: bool) {
        hermes_present(self.home_is_dir)
    }

    fn sync(&self, ctx: &SyncContext<'_>) -> (r: Result<Outcome, String>) {
        let (report, text) = match crate::hermes::sync(
            self.home.as_str(),
            self.home_is_dir,
            opt_ref(&self.config),
            opt_ref(&self.cache),
            ctx.base_url,
            ctx.desired,
        ) {
            Ok(p) => p,
            Err(e) => {
                return Err(e.message());
            },
        };
        if report.skipped_missing {
            return Ok(Outcome::absent("hermes"));
        }
        assert(texts(report.written@).len() == report.written@.len());
        assert(texts(report.below_minimum@).len() == report.below_minimum@.len());
        let mut notes: Vec<String> = Vec::new();
        let n = report.below_minimum.len();
        let ghost small = texts(report.below_minimum@);
        if n > 0 {
            let mut t = dec_len(n);
            t.append(HERMES_SMALL);
            t.append(join_texts(&report.below_minimum, ", ").as_str());
            notes.push(t);
        }
        let ghost first = one_if(n > 0, dec(n as nat) + HERMES_SMALL@ + join(small, ", "@));
        assert(texts(notes@) =~= first);
        if report.provider_unregistered {
            notes.push(copy_text(HERMES_UNREGISTERED));
        }
        assert(texts(notes@) =~= first + one_if(
            report.provider_unregistered,
            HERMES_UNREGISTERED@,
        ));
        let mut s = copy_text("Hermes synced: ");
        s.append(dec_len(report.written.len()).as_str());
        s.append(" context(s) written");
        let path = context_cache_path(self.home.as_str());
        let writes = one_write(path.as_str(), text);
        Ok(
            Outcome {
                connector: "hermes",
                skipped_missing: false,
                summary: Some(s),
                notes,
                writes,
            },
        )
    }
}

// ----------------------------------------------------------------------- OpenCode

/// OpenCode's configuration: where it is, and what it holds, where there is
/// one.
pub struct OpenCodeConnector {
    pub config: String,
    pub source: Option<String>,
}

impl OpenCodeConnector {
    /// The connector of a configuration about which nothing is known yet.
    pub fn at(config: String) -> (r: OpenCodeConnector)
        ensures
            r.config == config,
            r.source is None,
    {
        OpenCodeConnector { config, source: None }
    }
}

pub const OPENCODE_ORPHANS: &'static str = " orphan(s) in the config but not measured — left untouched";

/// What syncing OpenCode comes to.
pub open spec fn opencode_synced(
    c: OpenCodeConnector,
    base_url: Seq<char>,
    desired: Seq<DesiredModel>,
) -> Result<OutcomeView, Seq<char>> {
    match c.source {
        None => Ok(absent_of("opencode"@)),
        Some(t) => match synced(t@, base_url, desired) {
            Err(e) => Err(e.text()),
            Ok((out, doc)) => {
                let added = ids_where(desired, doc, false);
                let updated = ids_where(desired, doc, true);
                let orphans = ids_besides(models_of_doc(doc), desired_ids(desired));
                Ok(
                    OutcomeView {
                        connector: "opencode"@,
                        skipped_missing: false,
                        summary: Some(
                            "OpenCode synced ("@ + c.config@ + "): "@ + dec(added.len())
                                + " added, "@ + dec(updated.len()) + " updated"@,
                        ),
                        notes: one_if(
                            orphans.len() > 0,
                            dec(orphans.len()) + OPENCODE_ORPHANS@,
                        ),
                        writes: if out == t@ {
                            Seq::empty()
                        } else {
                            seq![(c.config@, out)]
                        },
                    },
                )
            },
        },
    }
}

impl Connector for OpenCodeConnector {
    open spec fn id_text(&self) -> Seq<char> {
        "opencode"@
    }

    open spec fn name_text(&self) -> Seq<char> {
        "OpenCode"@
    }

    open spec fn path_text(&self) -> Seq<char> {
        self.config@
    }

    open spec fn is_present(&self) -> bool {
        self.source is Some
    }

    open spec fn synced_to(
        &self,
        base_url: Seq<char>,
        desired: Seq<DesiredModel>,
        known: Seq<(Seq<char>, ())>,
    ) -> Result<OutcomeView, Seq<char>> {
        opencode_synced(*self, base_url, desired)
    }

    fn id(&self) -> (r: &'static str) {
        "opencode"
    }

    fn display_name(&self) -> (r: &'static str) {
        "OpenCode"
    }

    fn config_path(&self) -> (r: String) {
        self.config.clone()
    }

    fn present(&self) -> (r: bool) {
        self.source.is_some()
    }

    fn sync(&self, ctx: &SyncContext<'_>) -> (r: Result<Outcome, String>) {
        let source = match &self.source {
            Some(t) => t,
            None => {
                return Ok(Outcome::absent("opencode"));
            },
        };
        let (out, report) = match crate::opencode::sync_source(
            source.as_str(),
            ctx.base_url,
            ctx.desired,
        ) {
            Ok(p) => p,
            Err(e) => {
                return Err(e.message());
            },
        };
        assert(texts(report.added@).len() == report.added@.len());
        assert(texts(report.updated@).len() == report.updated@.len());
        assert(texts(report.orphans@).len() == report.orphans@.len());
        let mut notes: Vec<String> = Vec::new();
        let n = report.orphans.len();
        if n > 0 {
            let mut t = dec_len(n);
            t.append(OPENCODE_ORPHANS);
            notes.push(t);
        }
        assert(texts(notes@) =~= one_if(n > 0, dec(n as nat) + OPENCODE_ORPHANS@));
        let mut s = copy_text("OpenCode synced (");
        s.append(self.config.as_str());
        s.append("): ");
        s.append(dec_len(report.added.len()).as_str());
        s.append(" added, ");
        s.append(dec_len(report.updated.len()).as_str());
        s.append(" updated");
        let text = if same_text(out.as_str(), source.as_str()) {
            None
        } else {
            Some(out)
        };
        let writes = one_write(self.config.as_str(), text);
        Ok(
            Outcome {
                connector: "opencode",
                skipped_missing: false,
                summary: Some(s),
                notes,
                writes,
            },
        )
    }
}

// --------------------------------------------------------------------- every agent

/// One of the agents that this app knows.
pub enum Agent {
    OpenCode(OpenCodeConnector),
    Pi(PiConnector),
    Hermes(HermesConnector),
}

impl Connector for Agent {
    open spec fn id_text(&self) -> Seq<char> {
        match *self {
            Agent::OpenCode(c) => c.id_text(),
            Agent::Pi(c) => c.id_text(),
            Agent::Hermes(c) => c.id_text(),
        }
    }

    open spec fn name_text(&self) -> Seq<char> {
        match *self {
            Agent::OpenCode(c) => c.name_text(),
            Agent::Pi(c) => c.name_text(),
            Agent::Hermes(c) => c.name_text(),
        }
    }

    open spec fn path_text(&self) -> Seq<char> {
        match *self {
            Agent::OpenCode(c) => c.path_text(),
            Agent::Pi(c) => c.path_text(),
            Agent::Hermes(c) => c.path_text(),
        }
    }

    open spec fn is_present(&self) -> bool {
        match *self {
            Agent::OpenCode(c) => c.is_present(),
            Agent::Pi(c) => c.is_present(),
            Agent::Hermes(c) => c.is_present(),
        }
    }

    open spec fn synced_to(
        &self,
        base_url: Seq<char>,
        desired: Seq<DesiredModel>,
        known: Seq<(Seq<char>, ())>,
    ) -> Result<OutcomeView, Seq<char>> {
        match *self {
            Agent::OpenCode(c) => c.synced_to(base_url, desired, known),
            Agent::Pi(c) => c.synced_to(base_url, desired, known),
            Agent::Hermes(c) => c.synced_to(base_url, desired, known),
        }
    }

    fn id(&self) -> (r: &'static str) {
        match self {
            Agent::OpenCode(c) => c.id(),
            Agent::Pi(c) => c.id(),
            Agent::Hermes(c) => c.id(),
        }
    }

    fn display_name(&self) -> (r: &'static str) {
        match self {
            Agent::OpenCode(c) => c.display_name(),
            Agent::Pi(c) => c.display_name(),
            Agent::Hermes(c) => c.display_name(),
        }
    }

    fn config_path(&self) -> (r: String) {
        match self {
            Agent::OpenCode(c) => c.config_path(),
            Agent::Pi(c) => c.config_path(),
            Agent::Hermes(c) => c.config_path(),
        }
    }

    fn present(&self) -> (r: bool) {
        match self {
            Agent::OpenCode(c) => c.present(),
            Agent::Pi(c) => c.present(),
            Agent::Hermes(c) => c.present(),
        }
    }

    fn sync(&self, ctx: &SyncContext<'_>) -> (r: Result<Outcome, String>) {
        match self {
            Agent::OpenCode(c) => c.sync(ctx),
            Agent::Pi(c) => c.sync(ctx),
            Agent::Hermes(c) => c.sync(ctx),
        }
    }
}

/// pi's connector at its conventional place, about which nothing is known yet.
pub open spec fn unread_pi(c: Agent, e: Env) -> bool {
    c matches Agent::Pi(p) && p.models_path@ == join_path(home_of(e), ".pi/agent/models.json"@)
        && !p.agent_dir && p.file is None
}

/// Hermes's connector at its conventional place, about which nothing is known
/// yet.
pub open spec fn unread_hermes(c: Agent, e: Env) -> bool {
    c matches Agent::Hermes(h) && h.home@ == join_path(home_of(e), ".hermes"@) && !h.home_is_dir
        && h.config is None && h.cache is None
}

/// OpenCode's connector at its conventional place, about which nothing is
/// known yet.
pub open spec fn unread_opencode(c: Agent, e: Env) -> bool {
    c matches Agent::OpenCode(o) && o.config@ == config_path_of(e) && o.source is None
}

/// The connectors the fan-out drives. OpenCode is absent by design: its typed
/// report feeds the Connections mirror, and ghost cleanup needs live router
/// state.
pub fn secondary(e: &Env) -> (r: Vec<Agent>)
    ensures
        r@.len() == 2,
        unread_pi(r@[0], *e),
        unread_hermes(r@[1], *e),
{
    vec![
        Agent::Pi(PiConnector::at(crate::piagent::default_models_path(e))),
        Agent::Hermes(HermesConnector::at(crate::hermes::default_home(e))),
    ]
}

/// Every connector this app knows, for enumeration. Not all of these are
/// driven by the fan-out.
pub fn all(e: &Env) -> (r: Vec<Agent>)
    ensures
        r@.len() == 3,
        unread_opencode(r@[0], *e),
        unread_pi(r@[1], *e),
        unread_hermes(r@[2], *e),
{
    vec![
        Agent::OpenCode(OpenCodeConnector::at(crate::opencode::default_config_path(e))),
        Agent::Pi(PiConnector::at(crate::piagent::default_models_path(e))),
        Agent::Hermes(HermesConnector::at(crate::hermes::default_home(e))),
    ]
}

/// What each agent is called, and what its sync comes to.
pub open spec fn synced_agents(
    agents: Seq<Agent>,
    base_url: Seq<char>,
    desired: Seq<DesiredModel>,
    known: Seq<(Seq<char>, ())>,
) -> Seq<(Seq<char>, Result<OutcomeView, Seq<char>>)> {
    Seq::new(
        agents.len(),
        |i: int| (agents[i].name_text(), agents[i].synced_to(base_url, desired, known)),
    )
}

/// Sync each agent, in the given order: what it is called, and what came of
/// it, for the files to be written and the lines to be said.
pub fn sync_each(agents: &[Agent], ctx: &SyncContext<'_>) -> (r: Vec<
    (&'static str, Result<Outcome, String>),
>)
    ensures
        named_views(r@) == synced_agents(agents@, ctx.base_url@, ctx.desired@, ctx.known@),
{
    let mut out: Vec<(&'static str, Result<Outcome, String>)> = Vec::new();
    let mut i: usize = 0;
    while i < agents.len()
        invariant
            i <= agents.len(),
            out@.len() == i,
            forall|k: int|
                0 <= k < i ==> (#[trigger] out@[k]).0@ == agents@[k].name_text() && result_view(
                    out@[k].1,
                ) == agents@[k].synced_to(ctx.base_url@, ctx.desired@, ctx.known@),
        decreases agents.len() - i,
    {
        let name = agents[i].display_name();
        out.push((name, agents[i].sync(ctx)));
        i += 1;
    }
    assert(named_views(out@) =~= synced_agents(agents@, ctx.base_url@, ctx.desired@, ctx.known@));
    out
}

// ------------------------------------------------------------------------ laws

/// An absent agent is silent and nothing of it is written, whatever is synced.
pub proof fn absent_agents_are_silent(
    c: Agent,
    base_url: Seq<char>,
    desired: Seq<DesiredModel>,
    known: Seq<(Seq<char>, ())>,
)
    requires
        !c.is_present(),
    ensures
        c.synced_to(base_url, desired, known) == Ok::<OutcomeView, Seq<char>>(
            absent_of(c.id_text()),
        ),
        result_lines(c.name_text(), c.synced_to(base_url, desired, known)).len() == 0,
{
}

/// A connector that fails does not stop the rest: whatever one comes to, the
/// lines of every other stand among the lines of all.
pub proof fn failures_stop_nobody(
    rs: Seq<(Seq<char>, Result<OutcomeView, Seq<char>>)>,
    n: int,
    k: int,
    j: int,
)
    requires
        0 <= k < n <= rs.len(),
        0 <= j < result_lines(rs[k].0, rs[k].1).len(),
    ensures
        lines_of_all(rs, n).contains(result_lines(rs[k].0, rs[k].1)[j]),
    decreases n,
{
    let own = result_lines(rs[k].0, rs[k].1);
    let before = lines_of_all(rs, n - 1);
    let whole = lines_of_all(rs, n);
    if k == n - 1 {
        assert(whole[before.len() + j] == own[j]);
    } else {
        failures_stop_nobody(rs, n - 1, k, j);
        let i = choose|i: int| 0 <= i < before.len() && before[i] == own[j];
        assert(whole[i] == own[j]);
    }
}

/// The list that pi reads is written where anything in it is to be added, to be updated or to
/// be removed, or where it is not there yet; where nothing is, it is left alone.
pub proof fn pi_is_written_where_something_changed(
    c: PiConnector,
    base_url: Seq<char>,
    desired: Seq<DesiredModel>,
    known: Seq<(Seq<char>, ())>,
    doc: crate::json::JsonView,
)
    requires
        crate::path::parent(c.models_path@) is Some,
        c.agent_dir,
        start_of(c.models_path@, opt_text(c.file)) == Ok::<crate::json::JsonView, crate::piagent::PiSyncErrorView>(doc),
        pi_synced(c, base_url, desired, known) is Ok,
    ensures
        ({
            let w = pi_synced(c, base_url, desired, known)->Ok_0.writes;
            let ids = desired_ids(desired);
            let changed = added_ids(by_id(ids), desired, listed(doc)).len() > 0 || updated_ids(
                by_id(ids),
                desired,
                listed(doc),
            ).len() > 0 || undesired_ids(ids_listed(listed(doc)), ids, known, false).len() > 0
                || c.file is None || our_block(doc) is None;
            &&& changed ==> w.len() == 1 && w[0].0 == c.models_path@
            &&& !changed ==> w.len() == 0
        }),
{
}

/// OpenCode's file is written where a sync changes its text, and nothing else is.
pub proof fn opencode_is_written_where_its_text_changed(
    c: OpenCodeConnector,
    base_url: Seq<char>,
    desired: Seq<DesiredModel>,
    t: String,
    out: Seq<char>,
    doc: Option<crate::json::JsonView>,
)
    requires
        c.source == Some(t),
        synced(t@, base_url, desired) is Ok,
        synced(t@, base_url, desired)->Ok_0 == (out, doc),
    ensures
        opencode_synced(c, base_url, desired) is Ok,
        ({
            let w = opencode_synced(c, base_url, desired)->Ok_0.writes;
            &&& out != t@ ==> w == seq![(c.config@, out)]
            &&& out == t@ ==> w.len() == 0
        }),
{
}

} // verus!
