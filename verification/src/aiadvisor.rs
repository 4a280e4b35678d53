//! The AI advisory layer. AI is NEVER load-bearing: the deterministic layers
//! own every verdict, flag, and file write; this module exists only where
//! language work is genuinely left. One-shot, grounded generations; no chat.
//!
//! The prompt confines the model to the supplied evidence, and nothing here
//! is ever applied automatically. Measured quantities are in millionths.
use crate::evidence::{child_port, last_port};
use crate::json::{
    array, entry, first_in, first_of, get_in, json_views, member, member_of, number, object,
    pair_views, text, text_of_json, Json, JsonView, Number, NumberView,
};
use crate::measurements::{Measurement, Measurements};
use crate::num::{dec, dec_text, fixed1, fixed1_text, UNIT};
use crate::text::{
    begins, chars_of, copy_text, join, join_texts, join_views, lemma_views_push, lines, lines_of,
    opt_str, opt_text, same_text, starts_with, text_of, texts, trim, trimmed, views,
};
use crate::textmap::{has_key, sorted};
use vstd::prelude::*;
use vstd::string::*;

verus! {

// ----------------------------------------------------------------- the backend

/// A one-shot advisory backend: what it is sent, and the name that labels
/// whose opinion the text is.
pub trait Advisor {
    /// The body to send.
    fn request(&self, system: &str, user: &str) -> (r: Json);

    fn describe(&self) -> (r: String);
}

/// The default backend: whatever model the app's own router serves.
pub struct RouterAdvisor {
    pub port: u16,
    pub model: String,
}

pub open spec fn template_kwargs() -> JsonView {
    JsonView::Object(
        seq![
            ("enable_thinking"@, JsonView::Bool(false)),
            ("reasoning_effort"@, JsonView::Text("low"@)),
        ],
    )
}

/// The kwargs every advisory request sends. Two dialects, one truth:
/// Qwen-family templates listen to `enable_thinking`; gpt-oss's Harmony
/// template ignores it and listens to `reasoning_effort`. Send BOTH;
/// templates ignore kwargs they don't know.
pub fn advisory_template_kwargs() -> (r: Json)
    ensures
        r@ == template_kwargs(),
{
    let v: Vec<(String, Json)> = vec![
        entry("enable_thinking", Json::Bool(false)),
        entry("reasoning_effort", text("low")),
    ];
    assert(pair_views(v@) =~= template_kwargs()->Object_0);
    object(v)
}

pub open spec fn message_of(role: Seq<char>, content: Seq<char>) -> JsonView {
    JsonView::Object(
        seq![("content"@, JsonView::Text(content)), ("role"@, JsonView::Text(role))],
    )
}

/// What an advisory request holds. Advisory prompts must not seed the
/// server's prompt cache — the app MEASURES that cache.
pub open spec fn advisory_request(
    model: Seq<char>,
    system: Seq<char>,
    user: Seq<char>,
) -> JsonView {
    JsonView::Object(
        seq![
            ("cache_prompt"@, JsonView::Bool(false)),
            ("chat_template_kwargs"@, template_kwargs()),
            ("max_tokens"@, JsonView::Number(NumberView::Pos(2500))),
            (
                "messages"@,
                JsonView::Array(seq![message_of("system"@, system), message_of("user"@, user)]),
            ),
            ("model"@, JsonView::Text(model)),
            ("temperature"@, JsonView::Number(NumberView::Float("0.2"@))),
        ],
    )
}

fn message(role: &str, content: &str) -> (r: Json)
    ensures
        r@ == message_of(role@, content@),
{
    let v: Vec<(String, Json)> = vec![entry("content", text(content)), entry("role", text(role))];
    assert(pair_views(v@) =~= message_of(role@, content@)->Object_0);
    object(v)
}

impl RouterAdvisor {
    pub open spec fn name(&self) -> Seq<char> {
        self.model@
    }

    pub open spec fn asked(&self, system: Seq<char>, user: Seq<char>) -> JsonView {
        advisory_request(self.model@, system, user)
    }
}

impl Advisor for RouterAdvisor {
    fn request(&self, system: &str, user: &str) -> (r: Json)
        ensures
            r@ == self.asked(system@, user@),
    {
        let ms: Vec<Json> = vec![message("system", system), message("user", user)];
        assert(json_views(ms@) =~= seq![
            message_of("system"@, system@),
            message_of("user"@, user@),
        ]);
        let messages = array(ms);
        let v: Vec<(String, Json)> = vec![
            entry("cache_prompt", Json::Bool(false)),
            entry("chat_template_kwargs", advisory_template_kwargs()),
            entry("max_tokens", number(2500)),
            entry("messages", messages),
            entry("model", text(self.model.as_str())),
            entry("temperature", Json::Number(Number::Float(copy_text("0.2")))),
        ];
        assert(pair_views(v@) =~= advisory_request(self.model@, system@, user@)->Object_0);
        object(v)
    }

    fn describe(&self) -> (r: String)
        ensures
            r@ == self.name(),
    {
        self.model.clone()
    }
}

// ------------------------------------------------------------------ the answer

/// What a message says under a key, where it says anything.
pub open spec fn said(body: JsonView, key: Seq<char>) -> Option<Seq<char>> {
    match text_of_json(
        member_of(member_of(first_of(member(body, "choices"@)), "message"@), key),
    ) {
        Some(t) => if trim(t).len() > 0 {
            Some(trim(t))
        } else {
            None
        },
        None => None,
    }
}

pub const NEVER_FINALIZED: &'static str = "(the model never finalized an answer — this is its reasoning \
             channel, read with that in mind)\n\n";

pub const NO_ANSWER: &'static str = "the model produced no answer (it may have spent its whole \
         token budget on its reasoning channel) — try again or ask a \
         different model";

/// The answer in a chat completion.
pub open spec fn answer_in(body: JsonView) -> Option<Seq<char>> {
    match said(body, "content"@) {
        Some(t) => Some(t),
        None => match said(body, "reasoning_content"@) {
            Some(t) => Some(NEVER_FINALIZED@ + t),
            None => None,
        },
    }
}

fn says(body: &Json, key: &str) -> (r: Option<String>)
    ensures
        opt_text(r) == said(body@, key@),
{
    let m = get_in(first_in(body.get("choices")), "message");
    match crate::json::str_in(get_in(m, key)) {
        Some(t) => {
            let c = chars_of(t.as_str());
            let c = trimmed(&c);
            if c.len() > 0 {
                Some(text_of(c))
            } else {
                None
            }
        },
        None => None,
    }
}

/// Pull the answer out of a chat completion: `content` when present;
/// otherwise fall back to the reasoning channel — a model that deliberated
/// its whole budget still usually SAID the useful thing there, and a labeled
/// fallback beats "produced no answer".
pub fn extract_answer(body: &Json) -> (r: Result<String, String>)
    ensures
        match answer_in(body@) {
            Some(t) => r is Ok && r->Ok_0@ == t,
            None => r is Err && r->Err_0@ == NO_ANSWER@,
        },
{
    if let Some(t) = says(body, "content") {
        return Ok(t);
    }
    match says(body, "reasoning_content") {
        Some(t) => {
            let mut s = copy_text(NEVER_FINALIZED);
            s.append(t.as_str());
            Ok(s)
        },
        None => Err(copy_text(NO_ANSWER)),
    }
}

// ------------------------------------------------------------------ who answers

pub open spec fn score_or(v: Option<u64>) -> nat {
    match v {
        Some(n) => n as nat,
        None => 0,
    }
}

/// A speed, or none at all.
pub open spec fn speed_or(v: Option<i64>) -> int {
    match v {
        Some(n) => n as int,
        None => 0,
    }
}

pub open spec fn scores_counted(m: Measurement) -> nat {
    (if m.eval_score is Some {
        1nat
    } else {
        0
    }) + (if m.tool_reliability is Some {
        1nat
    } else {
        0
    }) + (if m.loop_reliability is Some {
        1nat
    } else {
        0
    })
}

/// Six times the mean of the measured scores: one, two or three of them give
/// a whole number.
pub open spec fn quality_of(m: Measurement) -> Option<nat> {
    let sum = score_or(m.eval_score) + score_or(m.tool_reliability) + score_or(m.loop_reliability);
    if scores_counted(m) == 0 {
        None
    } else if scores_counted(m) == 1 {
        Some(6 * sum)
    } else if scores_counted(m) == 2 {
        Some(3 * sum)
    } else {
        Some(2 * sum)
    }
}

/// The model may answer: it is measured, and not the excluded one.
pub open spec fn may_answer(e: (Seq<char>, Measurement), exclude: Option<Seq<char>>) -> bool {
    exclude != Some(e.0) && e.1.n_ctx is Some
}

/// The best quality among those that may answer.
pub open spec fn best_quality(
    s: Seq<(Seq<char>, Measurement)>,
    exclude: Option<Seq<char>>,
) -> Option<nat>
    decreases s.len(),
{
    if s.len() == 0 {
        None
    } else {
        let best = best_quality(s.drop_last(), exclude);
        if may_answer(s.last(), exclude) {
            match (best, quality_of(s.last().1)) {
                (Some(b), Some(q)) => Some(if q > b { q } else { b }),
                (None, Some(q)) => Some(q),
                (b, None) => b,
            }
        } else {
            best
        }
    }
}

/// Two hundredths of six means: how far from the best a model still counts as
/// its equal.
pub const TIER: u64 = 120_000;

/// The model is in the top quality tier; where no quality is known, every
/// model is.
pub open spec fn in_tier(m: Measurement, best: Option<nat>) -> bool {
    match best {
        Some(b) => quality_of(m) is Some && quality_of(m)->0 + TIER >= b,
        None => true,
    }
}

/// The fastest of the tier, the last of equals.
pub open spec fn fastest(
    s: Seq<(Seq<char>, Measurement)>,
    exclude: Option<Seq<char>>,
    best: Option<nat>,
) -> Option<int>
    decreases s.len(),
{
    if s.len() == 0 {
        None
    } else {
        let before = fastest(s.drop_last(), exclude, best);
        if may_answer(s.last(), exclude) && in_tier(s.last().1, best) {
            match before {
                Some(i) => if speed_or(s.last().1.tg_tps) >= speed_or(s[i].1.tg_tps) {
                    Some(s.len() - 1)
                } else {
                    before
                },
                None => Some(s.len() - 1),
            }
        } else {
            before
        }
    }
}

/// Who answers an advisory.
pub open spec fn advisor_of(
    s: Seq<(Seq<char>, Measurement)>,
    pinned: Option<Seq<char>>,
    exclude: Option<Seq<char>>,
) -> Option<Seq<char>> {
    if pinned is Some && pinned != exclude && has_key(s, pinned->0) {
        pinned
    } else {
        match fastest(s, exclude, best_quality(s, exclude)) {
            Some(i) => Some(s[i].0),
            None => None,
        }
    }
}

fn or_zero(v: Option<u64>) -> (r: u64)
    ensures
        r as nat == score_or(v),
{
    match v {
        Some(n) => n,
        None => 0,
    }
}

fn quality(m: &Measurement) -> (r: Option<u128>)
    ensures
        match r {
            Some(q) => quality_of(*m) == Some(q as nat) && q <= 0x1_0000_0000_0000_0000_0000,
            None => quality_of(*m) is None,
        },
{
    let sum = or_zero(m.eval_score) as u128 + or_zero(m.tool_reliability) as u128 + or_zero(
        m.loop_reliability,
    ) as u128;
    let mut n: u32 = 0;
    if m.eval_score.is_some() {
        n += 1;
    }
    if m.tool_reliability.is_some() {
        n += 1;
    }
    if m.loop_reliability.is_some() {
        n += 1;
    }
    if n == 0 {
        None
    } else if n == 1 {
        Some(6 * sum)
    } else if n == 2 {
        Some(3 * sum)
    } else {
        Some(2 * sum)
    }
}

fn allowed(id: &str, m: &Measurement, exclude: Option<&str>) -> (r: bool)
    ensures
        r == may_answer((id@, *m), opt_str(exclude)),
{
    let excluded = match exclude {
        Some(x) => same_text(x, id),
        None => false,
    };
    !excluded && m.n_ctx.is_some()
}

fn top_quality(all: &Measurements, exclude: Option<&str>) -> (r: Option<u128>)
    ensures
        match r {
            Some(q) => best_quality(all@, opt_str(exclude)) == Some(q as nat),
            None => best_quality(all@, opt_str(exclude)) is None,
        },
{
    let ghost s = all@;
    let ghost x = opt_str(exclude);
    let mut best: Option<u128> = None;
    let mut i: usize = 0;
    assert(s.take(0) =~= Seq::empty());
    while i < all.len()
        invariant
            i <= s.len(),
            s == all@,
            x == opt_str(exclude),
            match best {
                Some(q) => best_quality(s.take(i as int), x) == Some(q as nat),
                None => best_quality(s.take(i as int), x) is None,
            },
        decreases s.len() - i,
    {
        assert(s.take(i + 1).drop_last() =~= s.take(i as int));
        assert(s.take(i + 1).last() == s[i as int]);
        let m = all.value_at(i);
        if allowed(all.key_at(i).as_str(), m, exclude) {
            if let Some(q) = quality(m) {
                best = match best {
                    Some(b) => Some(
                        if q > b {
                            q
                        } else {
                            b
                        },
                    ),
                    None => Some(q),
                };
            }
        }
        i += 1;
    }
    assert(s.take(i as int) =~= s);
    best
}

/// Pick who answers an advisory: a pinned advisor always wins; otherwise
/// quality first — but within the top quality tier the FASTER model answers.
/// Models with no quality data rank below any measured-quality model; when
/// nothing has quality data, fastest measured wins. `exclude` is never chosen.
pub fn pick_advisor(measurements: &Measurements, pinned: Option<&str>, exclude: Option<&str>) -> (r:
    Option<String>)
    ensures
        opt_text(r) == advisor_of(measurements@, opt_str(pinned), opt_str(exclude)),
{
    if let Some(p) = pinned {
        let excluded = match exclude {
            Some(x) => same_text(x, p),
            None => false,
        };
        if !excluded && measurements.contains_key(p) {
            return Some(copy_text(p));
        }
    }
    let top = top_quality(measurements, exclude);
    let ghost s = measurements@;
    let ghost x = opt_str(exclude);
    let ghost best = best_quality(s, x);
    let mut who: Option<usize> = None;
    let mut speed: i64 = 0;
    let mut i: usize = 0;
    assert(s.take(0) =~= Seq::empty());
    while i < measurements.len()
        invariant
            i <= s.len(),
            s == measurements@,
            x == opt_str(exclude),
            match top {
                Some(q) => best == Some(q as nat),
                None => best is None,
            },
            match who {
                Some(w) => w < i && fastest(s.take(i as int), x, best) == Some(w as int)
                    && speed as int == speed_or(s[w as int].1.tg_tps),
                None => fastest(s.take(i as int), x, best) is None,
            },
        decreases s.len() - i,
    {
        let ghost t = s.take(i + 1);
        assert(t.drop_last() =~= s.take(i as int));
        assert(t.last() == s[i as int]);
        let m = measurements.value_at(i);
        let tier = match top {
            Some(b) => match quality(m) {
                Some(q) => q + TIER as u128 >= b,
                None => false,
            },
            None => true,
        };
        if allowed(measurements.key_at(i).as_str(), m, exclude) && tier {
            let v: i64 = match m.tg_tps {
                Some(t) => t,
                None => 0,
            };
            let better = match who {
                Some(_) => v >= speed,
                None => true,
            };
            if let Some(w) = who {
                assert(s.take(i as int)[w as int] == s[w as int]);
                assert(t[w as int] == s[w as int]);
            }
            if better {
                who = Some(i);
                speed = v;
            }
        }
        i += 1;
    }
    assert(s.take(i as int) =~= s);
    match who {
        Some(w) => Some(measurements.key_at(w).clone()),
        None => None,
    }
}

// ----------------------------------------------------------------- the prompts

/// The curated tuning-knowledge corpus the "Ask about tuning" advisory
/// grounds on — deliberately SMALL and versioned with the code. Everything
/// here is something this app measured or reasoned in the open.
pub const TUNING_CORPUS: &'static str = "\
KNOB NOTES (measured on real hardware by this app's trials):\n\
- Speculation (spec-type): model-free ngram modes cost zero VRAM. Wildly \
  per-model: +121% rewrite on one 27B, a 3x SLOWDOWN on another model's \
  rewrite. Always trial, never copy another model's setting. Acceptance \
  rate is a bad proxy for speed. Classic draft-model speculation collapsed \
  context and ran 6x slower on a 24GB card.\n\
- Prefill batch (ubatch-size): raises prompt-processing speed at some VRAM \
  cost; wins are real (+26-50%) when context headroom exists.\n\
- KV precision (cache-type-v q4_0): buys context, can cost output quality \
  and rewrite speed — the fidelity gate exists because a config that \
  degrades output is never a win. q8_0 KV measured ~2x usable context vs \
  f16 at equal quality on this class of hardware.\n\
- MoE placement (cpu-moe / n-cpu-moe): the headline for models bigger \
  than VRAM — experts in system RAM restored 4096 -> 131k-262k context. \
  Partial offload (n-cpu-moe) trades context for speed; the VRAM wall is \
  found by measurement, and PLACEMENT MUST BE APPLIED FIRST or every \
  other measurement reflects a crushed default context.\n\
- Threads: only matter once experts live on CPU; E-cores measured -45% \
  to -59% generation — P-cores-only can win.\n\
- cache-reuse: only works on models whose attention can shift its KV \
  cache; SWA/hybrid models silently disable it and resume from sparse \
  checkpoints instead (checkpoint-min-step is the lever, late edits \
  only). Vision serving disables mid-edit reuse but NOT prefix caching; \
  vision's real cost is VRAM -> context.\n\
- Sampling (temp/top-k/top-p): shapes output, not speed; agent clients \
  send their own — server defaults only matter for simple clients.\n\
- ngl on a single GPU: don't — -ngl auto + --fit already place layers.\n\
SEQUENCE for valid results: Measure+Bench -> MoE placement (if over \
VRAM) -> speed menus -> agent-turn menus -> quality probe -> apply \
winners, re-measure, sync.\n";

pub const TUNING_ASK: &'static str = "A user of modelsteward asks a tuning question. Answer from the \
         KNOB NOTES and from THIS MACHINE'S findings report below — cite \
         the user's own numbers where they exist, recommend running the \
         relevant Lab trial when the honest answer is 'measure it', and \
         say when the notes don't cover something.\n\n\
         Question: ";

/// Ask-about-tuning prompt: the user's question, this machine's own
/// findings, and the curated corpus — grounded opinion, never doctrine.
pub fn tuning_prompt(question: &str, findings_json: &str) -> (r: String)
    ensures
        r@ == TUNING_ASK@ + question@ + "\n\n"@ + TUNING_CORPUS@
            + "\nThis machine's findings (JSON):\n"@ + findings_json@ + "\n"@,
{
    let mut s = copy_text(TUNING_ASK);
    s.append(question);
    s.append("\n\n");
    s.append(TUNING_CORPUS);
    s.append("\nThis machine's findings (JSON):\n");
    s.append(findings_json);
    s.append("\n");
    s
}

/// The system prompt shared by all advisory features: confine the model
/// to the evidence, forbid invention, keep it short and honest.
pub const SYSTEM: &'static str = "You are the advisory layer of modelsteward, a tool that \
manages llama.cpp servers. Reason ONLY from the data provided in the user message. \
If the data does not determine an answer, say exactly that — an honest 'the log \
doesn't show the cause' is a good answer. Never invent command-line flags, file \
paths, or version numbers not present in the data. No preamble; at most 150 words.";

pub const FAILURE_ASK: &'static str = "A local model failed to load and the rule-based diagnoser couldn't \
         classify the failure. Explain the likely cause in plain language for \
         someone who is not a llama.cpp expert, and say what kind of fix to \
         look toward (without inventing exact flags).\n\n\
         Model: ";

/// The failure-explanation prompt.
pub open spec fn failure_text(
    model: Seq<char>,
    error: Seq<char>,
    build: Option<u64>,
    gpus: Seq<char>,
    ram_mib: u64,
    file_gib: Option<u64>,
    log_tail: Seq<char>,
) -> Seq<char> {
    FAILURE_ASK@ + model + "\nStored error: "@ + error + "\nllama.cpp build: "@ + (match build {
        Some(b) => "b"@ + dec(b as nat),
        None => "unknown"@,
    }) + "\nGPUs: "@ + gpus + "; system RAM: "@ + dec(ram_mib as nat) + " MiB\n"@ + (
    match file_gib {
        Some(g) => "Model file size: "@ + fixed1(g as nat, UNIT as nat) + " GiB\n"@,
        None => ""@,
    }) + (if log_tail.len() > 0 {
        "\nLast server log lines for this model:\n"@ + log_tail + "\n"@
    } else {
        ""@
    })
}

/// Build the failure-explanation prompt from what the app already knows. The
/// file's size is in millionths of a GiB.
pub fn failure_prompt(
    model: &str,
    error: &str,
    build: Option<u64>,
    gpus: &str,
    ram_mib: u64,
    file_gib: Option<u64>,
    log_tail: &str,
) -> (r: String)
    ensures
        r@ == failure_text(model@, error@, build, gpus@, ram_mib, file_gib, log_tail@),
{
    let mut s = copy_text(FAILURE_ASK);
    s.append(model);
    s.append("\nStored error: ");
    s.append(error);
    s.append("\nllama.cpp build: ");
    match build {
        Some(b) => {
            let mut t = copy_text("b");
            t.append(dec_text(b).as_str());
            s.append(t.as_str());
        },
        None => {
            s.append("unknown");
        },
    }
    s.append("\nGPUs: ");
    s.append(gpus);
    s.append("; system RAM: ");
    s.append(dec_text(ram_mib).as_str());
    s.append(" MiB\n");
    match file_gib {
        Some(g) => {
            let mut t = copy_text("Model file size: ");
            t.append(fixed1_text(g as u128, UNIT as u128).as_str());
            t.append(" GiB\n");
            s.append(t.as_str());
        },
        None => {
            s.append("");
        },
    }
    if chars_of(log_tail).len() > 0 {
        let mut t = copy_text("\nLast server log lines for this model:\n");
        t.append(log_tail);
        t.append("\n");
        s.append(t.as_str());
    } else {
        s.append("");
    }
    s
}

/// System prompt for the fleet brief — a longer-form synthesis than the
/// failure explainer, still confined to the supplied data.
pub const BRIEF_SYSTEM: &'static str = "You are the advisory layer of modelsteward, a tool \
that manages llama.cpp servers and measures local models. Reason ONLY from the \
findings report provided. Cite the numbers you use. If the data can't answer a \
question, say so plainly. Never invent flags, models, or figures. No preamble; \
at most 300 words.";

pub const FLEET_ASK: &'static str = "Below is this machine's full findings report (JSON) from modelsteward: \
         hardware, measured context windows, speed baselines, quality scores, \
         and config-trial results per model. Answer three questions:\n\
         1. Which measured model is the best daily driver for coding-agent work, \
         and why (cite its numbers)? Weigh OUTPUT QUALITY (eval_score, \
         tool_reliability, fidelity) above raw speed — for coding agents a \
         wrong fast answer costs whole extra turns; prefer speed only between \
         models of equal measured quality.\n\
         2. What single change would most improve this machine's setup?\n\
         3. What is unmeasured or stale and most worth measuring next?\n\n";

/// The fleet brief: feed the app's OWN machine-readable findings to a served
/// model and ask the three questions a user actually has.
pub fn fleet_prompt(findings_json: &str) -> (r: String)
    ensures
        r@ == FLEET_ASK@ + findings_json@ + "\n"@,
{
    let mut s = copy_text(FLEET_ASK);
    s.append(findings_json);
    s.append("\n");
    s
}

pub const TRIAGE_ASK: &'static str = ". \
         Below are the commit subjects in between, and the models this user \
         actually serves. Say which commits (if any) plausibly matter for \
         THESE models — their architectures, MoE offload, vision/mmproj, \
         speculative decoding, KV cache, CUDA — and end with one line: \
         'Update: likely worth it' or 'Update: nothing relevant to your \
         models'. Judge only from the subjects; do not speculate beyond them.\n\n\
         User's models:\n";

/// Rebuild triage: given the commit subjects between the running build and
/// upstream, and the user's actual model set, ask whether updating matters
/// HERE. Informs WHEN to build; the deterministic layers own how.
pub fn triage_prompt(commits: &str, models: &[String], current: u64, upstream: u64) -> (r: String)
    ensures
        r@ == "A user runs llama.cpp build b"@ + dec(current as nat) + "; upstream is at b"@ + dec(
            upstream as nat,
        ) + TRIAGE_ASK@ + join(texts(models@), "\n"@) + "\n\nCommits:\n"@ + commits@ + "\n"@,
{
    let mut s = copy_text("A user runs llama.cpp build b");
    s.append(dec_text(current).as_str());
    s.append("; upstream is at b");
    s.append(dec_text(upstream).as_str());
    s.append(TRIAGE_ASK);
    s.append(join_texts(models, "\n").as_str());
    s.append("\n\nCommits:\n");
    s.append(commits);
    s.append("\n");
    s
}

// -------------------------------------------------------------- the log's tail

/// The lines that begin with `prefix`.
pub open spec fn beginning_with(l: Seq<Seq<char>>, prefix: Seq<char>) -> Seq<Seq<char>>
    decreases l.len(),
{
    if l.len() == 0 {
        Seq::empty()
    } else {
        let sofar = beginning_with(l.drop_last(), prefix);
        if starts_with(l.last(), prefix) {
            sofar.push(l.last())
        } else {
            sofar
        }
    }
}

/// The last `n` of the lines, or all of them.
pub open spec fn last_of(l: Seq<Seq<char>>, n: nat) -> Seq<Seq<char>> {
    if l.len() <= n {
        l
    } else {
        l.skip(l.len() - n)
    }
}

/// The last `n` lines of the model's child server.
pub open spec fn tail_of(log: Seq<char>, model: Seq<char>, n: nat) -> Seq<char> {
    match last_port(lines(log), model) {
        Some(port) => join(
            last_of(beginning_with(lines(log), "["@ + dec(port as nat) + "]"@), n),
            "\n"@,
        ),
        None => Seq::empty(),
    }
}

/// The last `n` router-log lines belonging to `model`'s child server —
/// the evidence a failure explanation reasons from. Empty when the model
/// never spawned (the stored error is then the only evidence).
pub fn log_tail_for(log: &str, model: &str, n: usize) -> (r: String)
    ensures
        r@ == tail_of(log@, model@, n as nat),
{
    let port = match child_port(log, model) {
        Some(p) => p,
        None => {
            let s = String::new();
            assert(s@ =~= Seq::<char>::empty());
            return s;
        },
    };
    let mut prefix = copy_text("[");
    prefix.append(dec_text(port as u64).as_str());
    prefix.append("]");
    let c = chars_of(log);
    let l = lines_of(&c);
    let ghost all = lines(log@);
    let mut out: Vec<&[char]> = Vec::new();
    let mut i: usize = 0;
    assert(all.take(0) =~= Seq::empty());
    assert(views(out@) =~= Seq::<Seq<char>>::empty());
    while i < l.len()
        invariant
            i <= l.len(),
            all == views(l@),
            views(out@) == beginning_with(all.take(i as int), prefix@),
        decreases l.len() - i,
    {
        assert(all.take(i + 1).drop_last() =~= all.take(i as int));
        assert(all.take(i + 1).last() == l@[i as int]@);
        if begins(l[i], prefix.as_str()) {
            proof {
                lemma_views_push(out@, l@[i as int]);
            }
            out.push(l[i]);
        }
        i += 1;
    }
    assert(all.take(i as int) =~= all);
    if out.len() <= n {
        return join_views(&out, "\n");
    }
    let k = out.len() - n;
    let last = vstd::slice::slice_subrange(&out, k, out.len());
    assert(views(last@) =~= views(out@).skip(k as int));
    join_views(last, "\n")
}

// ------------------------------------------------------------------------ laws

proof fn lemma_fastest(
    s: Seq<(Seq<char>, Measurement)>,
    exclude: Option<Seq<char>>,
    best: Option<nat>,
)
    ensures
        match fastest(s, exclude, best) {
            Some(i) => 0 <= i < s.len() && may_answer(s[i], exclude) && in_tier(s[i].1, best) && (
            forall|j: int|
                0 <= j < s.len() && may_answer(s[j], exclude) && #[trigger] in_tier(s[j].1, best)
                    ==> speed_or(s[j].1.tg_tps) <= speed_or(s[i].1.tg_tps)),
            None => forall|j: int|
                0 <= j < s.len() ==> !(may_answer(s[j], exclude) && #[trigger] in_tier(
                    s[j].1,
                    best,
                )),
        },
    decreases s.len(),
{
    if s.len() > 0 {
        let t = s.drop_last();
        lemma_fastest(t, exclude, best);
        assert forall|j: int| 0 <= j < t.len() implies t[j] == #[trigger] s[j] by {}
        assert(s.last() == s[s.len() - 1]);
        match fastest(s, exclude, best) {
            Some(i) => {
                assert forall|j: int|
                    0 <= j < s.len() && may_answer(s[j], exclude) && #[trigger] in_tier(
                        s[j].1,
                        best,
                    ) implies speed_or(s[j].1.tg_tps) <= speed_or(s[i].1.tg_tps) by {
                    if j < t.len() {
                        assert(in_tier(t[j].1, best));
                    }
                }
            },
            None => {
                assert forall|j: int| 0 <= j < s.len() implies !(may_answer(s[j], exclude)
                    && #[trigger] in_tier(s[j].1, best)) by {
                    if j < t.len() {
                        assert(!(may_answer(t[j], exclude) && in_tier(t[j].1, best)));
                    }
                }
            },
        }
    }
}

proof fn lemma_best(s: Seq<(Seq<char>, Measurement)>, exclude: Option<Seq<char>>, j: int)
    requires
        0 <= j < s.len(),
        may_answer(s[j], exclude),
        quality_of(s[j].1) is Some,
    ensures
        best_quality(s, exclude) is Some,
        best_quality(s, exclude)->0 >= quality_of(s[j].1)->0,
    decreases s.len(),
{
    if j < s.len() - 1 {
        assert(s.drop_last()[j] == s[j]);
        lemma_best(s.drop_last(), exclude, j);
    }
}

proof fn lemma_best_attained(s: Seq<(Seq<char>, Measurement)>, exclude: Option<Seq<char>>) -> (k: int)
    requires
        best_quality(s, exclude) is Some,
    ensures
        0 <= k < s.len(),
        may_answer(s[k], exclude),
        quality_of(s[k].1) == best_quality(s, exclude),
    decreases s.len(),
{
    let t = s.drop_last();
    if may_answer(s.last(), exclude) && quality_of(s.last().1) == best_quality(s, exclude) {
        s.len() - 1
    } else {
        let k = lemma_best_attained(t, exclude);
        assert(t[k] == s[k]);
        k
    }
}

/// The seat's rules: a pin wins unless it is the excluded model; the excluded
/// model never answers; some model answers where one may; and without a pin no
/// model that may answer and whose quality is in the chosen one's tier is faster, and none is better by more
/// than the tier's width.
pub proof fn the_seat_goes_to_the_fastest_of_the_best(
    s: Seq<(Seq<char>, Measurement)>,
    pinned: Option<Seq<char>>,
    exclude: Option<Seq<char>>,
    j: int,
)
    requires
        sorted(s),
        0 <= j < s.len(),
        may_answer(s[j], exclude),
    ensures
        advisor_of(s, pinned, exclude) != exclude || exclude is None,
        pinned is Some && pinned != exclude && has_key(s, pinned->0) ==> advisor_of(
            s,
            pinned,
            exclude,
        ) == pinned,
        advisor_of(s, pinned, exclude) is Some,
        pinned is None ==> {
            let who = s[fastest(s, exclude, best_quality(s, exclude))->0];
            &&& advisor_of(s, pinned, exclude) == Some(who.0)
            &&& in_tier(s[j].1, best_quality(s, exclude)) ==> speed_or(s[j].1.tg_tps) <= speed_or(
                who.1.tg_tps,
            )
            &&& quality_of(s[j].1) is Some ==> quality_of(who.1) is Some && quality_of(who.1)->0
                + TIER >= quality_of(s[j].1)->0
        },
{
    let best = best_quality(s, exclude);
    lemma_fastest(s, exclude, best);
    if quality_of(s[j].1) is Some {
        lemma_best(s, exclude, j);
    }
    if best is Some {
        let k = lemma_best_attained(s, exclude);
        assert(in_tier(s[k].1, best));
    } else {
        assert(in_tier(s[j].1, best));
    }
}

/// A model's quality is the mean of the scores that it has, in sixths of a millionth.
pub proof fn quality_is_the_mean_of_the_scores(m: Measurement, a: u64, b: u64, c: u64)
    ensures
        m.eval_score is None && m.tool_reliability is None && m.loop_reliability is None
            <==> quality_of(m) is None,
        m.eval_score == Some(a) && m.tool_reliability is None && m.loop_reliability is None
            ==> quality_of(m) == Some((a * 6) as nat),
        m.eval_score == Some(a) && m.tool_reliability == Some(b) && m.loop_reliability is None
            ==> 2 * quality_of(m)->0 == (a + b) * 6,
        m.eval_score == Some(a) && m.tool_reliability == Some(b) && m.loop_reliability == Some(c)
            ==> 3 * quality_of(m)->0 == (a + b + c) * 6,
        m.eval_score is None && m.tool_reliability == Some(b) && m.loop_reliability == Some(c) ==> 2
            * quality_of(m)->0 == (b + c) * 6,
        m.eval_score == Some(a) && m.tool_reliability is None && m.loop_reliability == Some(c) ==> 2
            * quality_of(m)->0 == (a + c) * 6,
        m.eval_score is None && m.tool_reliability == Some(b) && m.loop_reliability is None
            ==> quality_of(m) == Some((b * 6) as nat),
        m.eval_score is None && m.tool_reliability is None && m.loop_reliability == Some(c)
            ==> quality_of(m) == Some((c * 6) as nat),
{
}

/// Without a pinned model, the one that answers is within two hundredths of the best
/// quality, and none within that is faster.
pub proof fn two_hundredths_of_quality_give_way_to_speed(
    s: Seq<(Seq<char>, Measurement)>,
    exclude: Option<Seq<char>>,
    best: int,
    j: int,
) -> (i: int)
    requires
        sorted(s),
        0 <= j < s.len(),
        exclude != Some(s[j].0),
        s[j].1.n_ctx is Some,
        0 <= best < s.len(),
        exclude != Some(s[best].0),
        s[best].1.n_ctx is Some,
        quality_of(s[best].1) is Some,
        forall|k: int|
            0 <= k < s.len() && exclude != Some((#[trigger] s[k]).0) && s[k].1.n_ctx is Some
                && quality_of(s[k].1) is Some ==> quality_of(s[k].1)->0 <= quality_of(
                s[best].1,
            )->0,
    ensures
        0 <= i < s.len(),
        advisor_of(s, None, exclude) == Some(s[i].0),
        exclude != Some(s[i].0),
        s[i].1.n_ctx is Some,
        quality_of(s[i].1) is Some,
        50 * (quality_of(s[best].1)->0 - quality_of(s[i].1)->0) <= 6_000_000,
        quality_of(s[j].1) is Some && 50 * (quality_of(s[best].1)->0 - quality_of(s[j].1)->0)
            <= 6_000_000 ==> speed_or(s[j].1.tg_tps) <= speed_or(s[i].1.tg_tps),
{
    the_seat_goes_to_the_fastest_of_the_best(s, None, exclude, j);
    the_seat_goes_to_the_fastest_of_the_best(s, None, exclude, best);
    let top = best_quality(s, exclude);
    lemma_best(s, exclude, best);
    lemma_fastest(s, exclude, top);
    let k = lemma_best_attained(s, exclude);
    assert(top == quality_of(s[best].1));
    fastest(s, exclude, top)->0
}

/// The lines of the model's server are told, and of those the last.
pub proof fn the_last_lines_of_the_port_are_told(l: Seq<Seq<char>>, prefix: Seq<char>, n: nat)
    ensures
        beginning_with(l, prefix) == l.filter(|x: Seq<char>| starts_with(x, prefix)),
        last_of(l, n).len() <= n,
        last_of(l, n).len() <= l.len(),
        l.len() >= n ==> last_of(l, n).len() == n,
        forall|k: int|
            0 <= k < last_of(l, n).len() ==> #[trigger] last_of(l, n)[k] == l[l.len() - last_of(
                l,
                n,
            ).len() + k],
    decreases l.len(),
{
    reveal(Seq::filter);
    if l.len() > 0 {
        the_last_lines_of_the_port_are_told(l.drop_last(), prefix, n);
    }
}

/// What the model says counts before what it thought, and what it thought is marked as such.
pub proof fn an_answer_counts_before_a_thought(body: JsonView)
    ensures
        said(body, "content"@) is Some ==> answer_in(body) == said(body, "content"@),
        said(body, "content"@) is None && said(body, "reasoning_content"@) is None ==> answer_in(
            body,
        ) is None,
        said(body, "content"@) is None && said(body, "reasoning_content"@) is Some ==> {
            let t = said(body, "reasoning_content"@)->0;
            answer_in(body) is Some && crate::text::ends_with(answer_in(body)->0, t)
        },
{
    if said(body, "content"@) is None && said(body, "reasoning_content"@) is Some {
        let t = said(body, "reasoning_content"@)->0;
        let r = NEVER_FINALIZED@ + t;
        assert(r.subrange(r.len() - t.len(), r.len() as int) =~= t);
    }
}

/// An advisory is asked for within 2500 tokens, with the system's words before the user's,
/// and leaves the server's cache as it is.
pub proof fn an_advisory_leaves_the_cache_alone(
    model: Seq<char>,
    system: Seq<char>,
    user: Seq<char>,
)
    ensures
        advisory_request(model, system, user) is Object,
        ({
            let o = advisory_request(model, system, user)->Object_0;
            &&& o.contains(("cache_prompt"@, JsonView::Bool(false)))
            &&& o.contains(("max_tokens"@, JsonView::Number(NumberView::Pos(2500))))
            &&& o.contains(("model"@, JsonView::Text(model)))
            &&& o.contains(
                (
                    "messages"@,
                    JsonView::Array(seq![message_of("system"@, system), message_of("user"@, user)]),
                ),
            )
        }),
{
    let o = advisory_request(model, system, user)->Object_0;
    assert(o.contains(o[0]) && o.contains(o[2]) && o.contains(o[3]) && o.contains(o[4]));
}

} // verus!
