//! The diagnosis brain: map a failure to a cause, a cause to plain
//! language and concrete remedies. Shared by the per-model "Why?" panel
//! and the Build Advisor — same rules, two faces. Never says "see logs"
//! without also saying what the log said.
use crate::text::{
    chars_of, contains, has_text, is_ascii, lowercase, lowered, opt_text, rcut_once, rsplit_once,
    text_of, to_lower, trim, trimmed,
};
use vstd::prelude::*;
use vstd::string::*;

verus! {

#[derive(Debug, Clone, Copy, PartialEq, Eq, Structural)]
pub enum Cause {
    /// Model format newer than the installed llama.cpp understands.
    NeedsNewerBuild,
    /// Blob is partial / a multimodal component / not standalone-loadable.
    BadBlob,
    /// Ran out of memory while loading.
    OutOfMemory,
    /// Another session held the server while this model was to load.
    ServerBusy,
    /// File exists but the router doesn't currently offer this variant.
    NotOffered,
    /// Nothing wrong — just never measured.
    Unmeasured,
    /// We genuinely don't recognize the failure.
    Unknown,
}

/// A concrete next step the UI can render as a button.
#[derive(Debug, Clone, Copy, PartialEq, Eq, Structural)]
pub enum Remedy {
    OpenBuildAdvisor,
    ArchiveToShelf,
    UnloadOthers,
    LoadAndMeasure,
    ShowLog,
}

#[derive(Debug, Clone)]
pub struct Diagnosis {
    pub cause: Cause,
    /// One or two sentences a novice can act on. No jargon, no flag names.
    pub explanation: String,
    /// The single most relevant log/error line, when we have one.
    pub evidence: Option<String>,
    pub remedies: Vec<Remedy>,
}

pub const OLLAMA_ONLY: &'static str = "Your llama.cpp is already the newest build, and it still can't \
                     read this file's format — so this looks like a conversion made \
                     specifically for another tool (usually Ollama). It will keep \
                     working through Ollama itself; for llama.cpp, download a \
                     llama.cpp-native GGUF of the same model instead.";

pub const NEWER_FORMAT: &'static str = "This model uses a newer format than your installed llama.cpp \
                     understands. The file is fine — the program reading it is out of \
                     date. Updating and rebuilding llama.cpp will most likely unlock it.";

pub const NOT_STANDALONE: &'static str = "This file isn't a complete standalone model — it's either a \
                 partial download or a component (like a vision add-on) that can't \
                 be loaded by itself. Re-downloading the full model is the usual fix.";

pub const NO_MEMORY: &'static str = "There wasn't enough memory to load this model. Free some VRAM \
                 (unload other models, close GPU-hungry apps) and try again, or use \
                 a smaller quantization.";

pub const BUSY: &'static str = "The server was busy with another session's model when this one was \
                 to load. Nothing is wrong with the file; re-measure when idle.";

pub const UNRECOGNIZED: &'static str = "The load failed for a reason these rules don't recognize yet. The \
                 exact error is below; the router log has the full story.";

pub const NOT_OFFERED: &'static str = "The file is on disk, but the server doesn't currently \
                offer this exact variant (its download index points at a different \
                version of the same model). Archiving it to your models folder makes \
                it servable under your own control.";

pub const NOT_MEASURED: &'static str = "Nothing is wrong — this model just hasn't been measured yet. \
            Load it once and the real numbers (context, tool support) get recorded \
            and written to OpenCode automatically.";

pub const HINT_NEWER: &'static str = "this model's format is newer than your llama.cpp build — updating/rebuilding llama.cpp will likely fix it";

pub const HINT_BLOB: &'static str = "the file looks like a partial download or a multimodal blob llama.cpp can't load standalone";

pub const HINT_MEMORY: &'static str = "not enough memory to load with current settings";

pub const HINT_OTHER: &'static str = "load failed — click Why? for the details";

/// The cause that a failure text in lower case names.
pub open spec fn cause_of(lower: Seq<char>) -> Cause {
    if contains(lower, "rope.dimension_sections"@) || contains(lower, "hyperparameters"@)
        || contains(lower, "unknown model architecture"@) || contains(
        lower,
        "unknown architecture"@,
    ) || contains(lower, "unsupported model architecture"@) {
        Cause::NeedsNewerBuild
    } else if contains(lower, "wrong number of tensors"@) || contains(lower, "bad magic"@)
        || contains(lower, "truncated"@) {
        Cause::BadBlob
    } else if contains(lower, "out of memory"@) || contains(lower, "failed to allocate"@)
        || contains(lower, "cuda_out_of_memory"@) {
        Cause::OutOfMemory
    } else if contains(lower, "/models/load"@) && contains(lower, "status code 500"@) {
        Cause::ServerBusy
    } else {
        Cause::Unknown
    }
}

/// Classify a failure text that is in lower case already.
pub fn classify_lower(lower: &str) -> (r: Cause)
    ensures
        r == cause_of(lower@),
{
    let c = chars_of(lower);
    if has_text(&c, "rope.dimension_sections") || has_text(&c, "hyperparameters") || has_text(
        &c,
        "unknown model architecture",
    ) || has_text(&c, "unknown architecture") || has_text(&c, "unsupported model architecture") {
        Cause::NeedsNewerBuild
    } else if has_text(&c, "wrong number of tensors") || has_text(&c, "bad magic") || has_text(
        &c,
        "truncated",
    ) {
        Cause::BadBlob
    } else if has_text(&c, "out of memory") || has_text(&c, "failed to allocate") || has_text(
        &c,
        "cuda_out_of_memory",
    ) {
        Cause::OutOfMemory
    } else if has_text(&c, "/models/load") && has_text(&c, "status code 500") {
        Cause::ServerBusy
    } else {
        Cause::Unknown
    }
}

/// Classify a stored load-failure string.
pub fn classify(error: &str) -> (r: Cause)
    ensures
        r == cause_of(lowercase(error@)),
        is_ascii(error@) ==> r == cause_of(lowered(error@)),
{
    let lower = to_lower(error);
    classify_lower(lower.as_str())
}

/// What a failure's explanation says.
pub open spec fn explanation_of(cause: Cause, build_is_current: Option<bool>) -> Seq<char> {
    match cause {
        Cause::NeedsNewerBuild => if build_is_current == Some(true) {
            OLLAMA_ONLY@
        } else {
            NEWER_FORMAT@
        },
        Cause::BadBlob => NOT_STANDALONE@,
        Cause::OutOfMemory => NO_MEMORY@,
        Cause::ServerBusy => BUSY@,
        _ => UNRECOGNIZED@,
    }
}

/// What can be done about a failure.
pub open spec fn remedies_of(cause: Cause, build_is_current: Option<bool>) -> Seq<Remedy> {
    match cause {
        Cause::NeedsNewerBuild => if build_is_current == Some(true) {
            seq![Remedy::ShowLog]
        } else {
            seq![Remedy::OpenBuildAdvisor, Remedy::ShowLog]
        },
        Cause::OutOfMemory => seq![Remedy::UnloadOthers, Remedy::LoadAndMeasure, Remedy::ShowLog],
        Cause::ServerBusy => seq![Remedy::LoadAndMeasure, Remedy::ShowLog],
        _ => seq![Remedy::ShowLog],
    }
}

/// The line of a failure that is shown as evidence: the mined log line
/// behind the last dash, or all of it.
pub open spec fn evidence_of(err: Seq<char>) -> Seq<char> {
    match rsplit_once(err, "— "@) {
        Some(p) => trim(p.1),
        None => err,
    }
}

/// The diagnosis of a failure whose cause is known.
pub fn diagnose_cause(err: &str, cause: Cause, build_is_current: Option<bool>) -> (d: Diagnosis)
    ensures
        d.cause == cause,
        d.explanation@ == explanation_of(cause, build_is_current),
        opt_text(d.evidence) == Some(evidence_of(err@)),
        d.remedies@ == remedies_of(cause, build_is_current),
{
    let c = chars_of(err);
    let evidence = match rcut_once(&c, "— ") {
        Some(p) => text_of(trimmed(p.1)),
        None => err.to_owned(),
    };
    let current = match build_is_current {
        Some(b) => b,
        None => false,
    };
    let (explanation, remedies) = match cause {
        Cause::NeedsNewerBuild => if current {
            (OLLAMA_ONLY, vec![Remedy::ShowLog])
        } else {
            (NEWER_FORMAT, vec![Remedy::OpenBuildAdvisor, Remedy::ShowLog])
        },
        Cause::BadBlob => (NOT_STANDALONE, vec![Remedy::ShowLog]),
        Cause::OutOfMemory => (
            NO_MEMORY,
            vec![Remedy::UnloadOthers, Remedy::LoadAndMeasure, Remedy::ShowLog],
        ),
        Cause::ServerBusy => (BUSY, vec![Remedy::LoadAndMeasure, Remedy::ShowLog]),
        _ => (UNRECOGNIZED, vec![Remedy::ShowLog]),
    };
    assert(remedies@ =~= remedies_of(cause, build_is_current));
    Diagnosis { cause, explanation: explanation.to_owned(), evidence: Some(evidence), remedies }
}

/// Full diagnosis for a model row. `error` is the stored measurement
/// failure (with mined log line, when we got one); `not_offered` is the
/// on-disk-but-router-doesn't-list state; `archivable` gates the
/// archive remedy.
pub fn diagnose(
    error: Option<&str>,
    not_offered: bool,
    archivable: bool,
    build_is_current: Option<bool>,
) -> (d: Diagnosis)
    ensures
        match error {
            Some(err) => {
                let cause = cause_of(lowercase(err@));
                &&& d.cause == cause
                &&& d.explanation@ == explanation_of(cause, build_is_current)
                &&& opt_text(d.evidence) == Some(evidence_of(err@))
                &&& d.remedies@ == remedies_of(cause, build_is_current)
            },
            None => {
                &&& d.evidence is None
                &&& not_offered ==> d.cause == Cause::NotOffered && d.explanation@ == NOT_OFFERED@
                    && d.remedies@ == if archivable {
                    seq![Remedy::ArchiveToShelf]
                } else {
                    Seq::empty()
                }
                &&& !not_offered ==> d.cause == Cause::Unmeasured && d.explanation@
                    == NOT_MEASURED@ && d.remedies@ == seq![Remedy::LoadAndMeasure]
            },
        },
{
    if let Some(err) = error {
        let cause = classify(err);
        return diagnose_cause(err, cause, build_is_current);
    }
    if not_offered {
        let mut remedies: Vec<Remedy> = Vec::new();
        if archivable {
            remedies.push(Remedy::ArchiveToShelf);
        }
        assert(remedies@ =~= if archivable {
            seq![Remedy::ArchiveToShelf]
        } else {
            Seq::empty()
        });
        return Diagnosis {
            cause: Cause::NotOffered,
            explanation: NOT_OFFERED.to_owned(),
            evidence: None,
            remedies,
        };
    }
    let remedies = vec![Remedy::LoadAndMeasure];
    assert(remedies@ =~= seq![Remedy::LoadAndMeasure]);
    Diagnosis {
        cause: Cause::Unmeasured,
        explanation: NOT_MEASURED.to_owned(),
        evidence: None,
        remedies,
    }
}

/// The one line that a cause is told in.
pub open spec fn hint_of(cause: Cause) -> Seq<char> {
    match cause {
        Cause::NeedsNewerBuild => HINT_NEWER@,
        Cause::BadBlob => HINT_BLOB@,
        Cause::OutOfMemory => HINT_MEMORY@,
        _ => HINT_OTHER@,
    }
}

/// The hint for a cause.
pub fn cause_hint(cause: Cause) -> (r: String)
    ensures
        r@ == hint_of(cause),
{
    match cause {
        Cause::NeedsNewerBuild => HINT_NEWER.to_owned(),
        Cause::BadBlob => HINT_BLOB.to_owned(),
        Cause::OutOfMemory => HINT_MEMORY.to_owned(),
        _ => HINT_OTHER.to_owned(),
    }
}

/// One-line version for table cells.
pub fn short_hint(error: &str) -> (r: String)
    ensures
        r@ == hint_of(cause_of(lowercase(error@))),
        is_ascii(error@) ==> r@ == hint_of(cause_of(lowered(error@))),
{
    let cause = classify(error);
    cause_hint(cause)
}

/// A rebuild is never advised where the newest build already rejects the
/// file, and whatever the failure the log can be shown.
pub proof fn no_rebuild_on_the_newest_build(cause: Cause)
    ensures
        !remedies_of(cause, Some(true)).contains(Remedy::OpenBuildAdvisor),
        forall|b: Option<bool>| (#[trigger] remedies_of(cause, b)).contains(Remedy::ShowLog),
{
    assert forall|b: Option<bool>| (#[trigger] remedies_of(cause, b)).contains(
        Remedy::ShowLog,
    ) by {
        let r = remedies_of(cause, b);
        assert(r[r.len() - 1] == Remedy::ShowLog);
    }
}

/// Where a text speaks of an unknown architecture or of missing hyperparameters, a newer
/// build is needed, whatever else it speaks of.
pub proof fn a_newer_format_comes_first(lower: Seq<char>)
    ensures
        contains(lower, "unknown model architecture"@) ==> cause_of(lower) == Cause::NeedsNewerBuild,
        contains(lower, "unknown architecture"@) ==> cause_of(lower) == Cause::NeedsNewerBuild,
        contains(lower, "unsupported model architecture"@) ==> cause_of(lower)
            == Cause::NeedsNewerBuild,
        contains(lower, "hyperparameters"@) ==> cause_of(lower) == Cause::NeedsNewerBuild,
        contains(lower, "rope.dimension_sections"@) ==> cause_of(lower) == Cause::NeedsNewerBuild,
        contains(lower, "wrong number of tensors"@) || contains(lower, "bad magic"@) || contains(
            lower,
            "truncated"@,
        ) ==> cause_of(lower) == Cause::BadBlob || cause_of(lower) == Cause::NeedsNewerBuild,
        contains(lower, "out of memory"@) || contains(lower, "failed to allocate"@) || contains(
            lower,
            "cuda_out_of_memory"@,
        ) ==> cause_of(lower) != Cause::Unknown && cause_of(lower) != Cause::ServerBusy,
{
}

/// A cause is told only of a text that gives reason to.
pub proof fn a_cause_is_never_made_up(lower: Seq<char>)
    ensures
        cause_of(lower) == Cause::OutOfMemory ==> contains(lower, "out of memory"@) || contains(
            lower,
            "failed to allocate"@,
        ) || contains(lower, "cuda_out_of_memory"@),
        cause_of(lower) == Cause::BadBlob ==> contains(lower, "wrong number of tensors"@)
            || contains(lower, "bad magic"@) || contains(lower, "truncated"@),
        cause_of(lower) == Cause::ServerBusy ==> contains(lower, "/models/load"@) && contains(
            lower,
            "status code 500"@,
        ),
        cause_of(lower) == Cause::NeedsNewerBuild ==> contains(lower, "architecture"@) || contains(
            lower,
            "hyperparameters"@,
        ) || contains(lower, "rope.dimension_sections"@),
        contains(lower, "/models/load"@) && contains(lower, "status code 500"@) ==> cause_of(lower)
            != Cause::Unknown,
{
    reveal_strlit("unknown model architecture");
    reveal_strlit("unknown architecture");
    reveal_strlit("unsupported model architecture");
    reveal_strlit("architecture");
    if contains(lower, "unknown model architecture"@) {
        assert("unknown model architecture"@.subrange(14, 26) =~= "architecture"@);
        lemma_part_occurs(lower, "unknown model architecture"@, "architecture"@, 14);
    } else if contains(lower, "unknown architecture"@) {
        assert("unknown architecture"@.subrange(8, 20) =~= "architecture"@);
        lemma_part_occurs(lower, "unknown architecture"@, "architecture"@, 8);
    } else if contains(lower, "unsupported model architecture"@) {
        assert("unsupported model architecture"@.subrange(18, 30) =~= "architecture"@);
        lemma_part_occurs(lower, "unsupported model architecture"@, "architecture"@, 18);
    }
}

proof fn lemma_part_occurs(h: Seq<char>, n: Seq<char>, part: Seq<char>, at: int)
    requires
        contains(h, n),
        0 <= at <= at + part.len() <= n.len(),
        n.subrange(at, at + part.len()) == part,
    ensures
        contains(h, part),
{
    let i = choose|i: int| crate::text::occurs_at(h, n, i);
    assert(h.subrange(i + at, i + at + part.len()) =~= part) by {
        let whole = h.subrange(i, i + n.len());
        assert(whole =~= n);
        assert(whole.subrange(at, at + part.len()) =~= h.subrange(i + at, i + at + part.len()));
    }
    assert(crate::text::occurs_at(h, part, i + at));
}

/// Every failure has a remedy; unloading others is offered for want of memory alone, the
/// build advisor for a format that is too new alone, and another load where nothing was
/// wrong with the file.
pub proof fn remedies_fit_the_cause(cause: Cause, b: Option<bool>)
    ensures
        remedies_of(cause, b).contains(Remedy::ShowLog),
        remedies_of(cause, b).contains(Remedy::UnloadOthers) <==> cause == Cause::OutOfMemory,
        remedies_of(cause, b).contains(Remedy::OpenBuildAdvisor) <==> cause
            == Cause::NeedsNewerBuild && b != Some(true),
        remedies_of(cause, b).contains(Remedy::LoadAndMeasure) <==> cause == Cause::OutOfMemory
            || cause == Cause::ServerBusy,
{
    let r = remedies_of(cause, b);
    assert(r.contains(r[0]));
    if r.len() > 1 {
        assert(r.contains(r[1]));
    }
    if r.len() > 2 {
        assert(r.contains(r[2]));
    }
}

} // verus!
