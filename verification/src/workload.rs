//! What a trial asks of a loaded model, and what its answers measure. The
//! prompts are fixed forever, so that results stay comparable across sessions
//! and models: two novel-code prompts (nothing to copy — speculation's worst
//! case), one rewrite prompt (heavy copying — the agent-workload sweet spot),
//! one long prefill probe, and two turns of an agent's conversation.
//!
//! Measured quantities are in millionths of their unit.
use crate::json::{
    array, entry, get_in, json_views, micro_in, micro_of_json, number, object, pair_views, str_in,
    text, text_of_json, u64_in, u64_of_json, member, member_of, Json, JsonView, NumberView,
};
use crate::num::{dec, dec_len, round_even, round_even_int, rounded, rounded_int, UNIT};
use crate::router::{at_zero, zero_in};
use crate::text::{
    chars_of, copy_text, join, join_views, lemma_texts_push, lines, lines_of, same_text, texts,
    views, words, words_of,
};
use crate::trial::TrialResult;
use vstd::multiset::Multiset;
use vstd::prelude::*;
use vstd::string::*;

verus! {

// ---------------------------------------------------------------- the prompts

/// The first novel-code prompt.
pub const NOVEL_CLASS: &'static str = "Write a complete Python class for a doubly-linked list with insert, \
     delete, find, and iterator support. Include docstrings.";

/// The second novel-code prompt.
pub const NOVEL_PARSER: &'static str = "Write a Rust function that parses a simple INI file into a \
     BTreeMap<String, BTreeMap<String, String>>, with unit tests.";

/// The synthetic Python modules that the prompts show.
#[derive(Debug, Clone, Copy, PartialEq, Eq, Structural)]
pub enum Module {
    /// The module that the model is asked to preserve.
    Rewrite,
    /// The long module of the prefill probe.
    Prefill,
    /// The module of an agent's first turn.
    Turn,
    /// The same with one function renamed, a third of the way in — the
    /// middle-of-prompt edit that decides how much cache an agent turn keeps.
    EditedTurn,
}

/// The place of the function that the edited turn renames.
pub const EDITED_AT: usize = 13;

/// The `i`th function of a module.
pub open spec fn function_text(kind: Module, i: nat) -> Seq<char> {
    let d = dec(i);
    match kind {
        Module::Rewrite => "def process_batch_"@ + d
            + "(items, config):\n    results = []\n    for item in items:\n        value = item.get('field_"@
            + d + "')\n        if value is not None and value > config.threshold_"@ + d
            + ":\n            results.append({'id': item['id'], 'value': value * "@ + dec(i + 1)
            + "})\n    return results\n"@,
        Module::Prefill => "def transform_stage_"@ + d
            + "(records, options):\n    output = []\n    for record in records:\n        key = record.get('key_"@
            + d + "')\n        weight = options.weights.get('w_"@ + d
            + "', 1.0)\n        if key is not None and record['score_"@ + d
            + "'] * weight > options.cutoff_"@ + d
            + ":\n            output.append({'key': key, 'rank': record['score_"@ + d
            + "'] * weight})\n    return sorted(output, key=lambda r: r['rank'], reverse=True)\n"@,
        _ => "def "@ + (if kind == Module::EditedTurn && i == EDITED_AT {
            "renamed_stage"@
        } else {
            "transform_stage_"@ + d
        }) + "(records, options):\n    total = 0\n    for r in records:\n        v = r.get('field_"@
            + d + "')\n        if v is not None and v > options.cut_"@ + d
            + ":\n            total += v * "@ + dec(i + 1) + "\n    return total\n"@,
    }
}

/// The first `n` functions of a module.
pub open spec fn functions(kind: Module, n: nat) -> Seq<char>
    decreases n,
{
    if n == 0 {
        Seq::empty()
    } else {
        functions(kind, (n - 1) as nat) + function_text(kind, (n - 1) as nat)
    }
}

/// How many functions a module has.
pub open spec fn size_of(kind: Module) -> nat {
    if kind == Module::Rewrite {
        10
    } else {
        40
    }
}

fn write_function(kind: Module, i: usize) -> (r: String)
    requires
        i < 40,
    ensures
        r@ == function_text(kind, i as nat),
{
    let d = dec_len(i);
    let next = dec_len(i + 1);
    match kind {
        Module::Rewrite => {
            let mut s = copy_text("def process_batch_");
            s.append(d.as_str());
            s.append(
                "(items, config):\n    results = []\n    for item in items:\n        value = item.get('field_",
            );
            s.append(d.as_str());
            s.append("')\n        if value is not None and value > config.threshold_");
            s.append(d.as_str());
            s.append(":\n            results.append({'id': item['id'], 'value': value * ");
            s.append(next.as_str());
            s.append("})\n    return results\n");
            s
        },
        Module::Prefill => {
            let mut s = copy_text("def transform_stage_");
            s.append(d.as_str());
            s.append(
                "(records, options):\n    output = []\n    for record in records:\n        key = record.get('key_",
            );
            s.append(d.as_str());
            s.append("')\n        weight = options.weights.get('w_");
            s.append(d.as_str());
            s.append("', 1.0)\n        if key is not None and record['score_");
            s.append(d.as_str());
            s.append("'] * weight > options.cutoff_");
            s.append(d.as_str());
            s.append(":\n            output.append({'key': key, 'rank': record['score_");
            s.append(d.as_str());
            s.append(
                "'] * weight})\n    return sorted(output, key=lambda r: r['rank'], reverse=True)\n",
            );
            s
        },
        _ => {
            let name = if kind == Module::EditedTurn && i == EDITED_AT {
                copy_text("renamed_stage")
            } else {
                let mut n = copy_text("transform_stage_");
                n.append(d.as_str());
                n
            };
            let mut s = copy_text("def ");
            s.append(name.as_str());
            s.append(
                "(records, options):\n    total = 0\n    for r in records:\n        v = r.get('field_",
            );
            s.append(d.as_str());
            s.append("')\n        if v is not None and v > options.cut_");
            s.append(d.as_str());
            s.append(":\n            total += v * ");
            s.append(next.as_str());
            s.append("\n    return total\n");
            s
        },
    }
}

/// The text of a module.
pub fn module_code(kind: Module) -> (r: String)
    ensures
        r@ == functions(kind, size_of(kind)),
{
    let n: usize = if kind == Module::Rewrite {
        10
    } else {
        40
    };
    let mut out = String::new();
    let mut i: usize = 0;
    assert(out@ =~= functions(kind, 0));
    while i < n
        invariant
            i <= n <= 40,
            out@ == functions(kind, i as nat),
        decreases n - i,
    {
        let f = write_function(kind, i);
        out.append(f.as_str());
        i += 1;
    }
    out
}

/// The module the rewrite prompt asks the model to preserve — also the
/// answer key for the fidelity score.
pub fn rewrite_code() -> (r: String)
    ensures
        r@ == functions(Module::Rewrite, 10),
{
    module_code(Module::Rewrite)
}

/// The probe's synthetic module; `edited` renames ONE function a third of the
/// way in.
pub fn agent_turn_code(edited: bool) -> (r: String)
    ensures
        r@ == functions(if edited { Module::EditedTurn } else { Module::Turn }, 40),
{
    if edited {
        module_code(Module::EditedTurn)
    } else {
        module_code(Module::Turn)
    }
}

pub const SHOWS_MODULE: &'static str = "Here is a Python module:\n```python\n";

pub const ASKS_REWRITE: &'static str = "```\nRewrite it EXACTLY as-is but add \
         a docstring \"Process batch items against config thresholds.\" to every function. \
         Change nothing else — output the complete module.";

pub const ASKS_OK: &'static str = "```\nReply with just: OK";

/// The prompt that shows a module.
pub open spec fn module_prompt(kind: Module) -> Seq<char> {
    SHOWS_MODULE@ + functions(kind, size_of(kind)) + (if kind == Module::Rewrite {
        ASKS_REWRITE@
    } else {
        ASKS_OK@
    })
}

/// The prompt that shows a module: rewrite it, or just reply.
pub fn prompt_with(kind: Module) -> (r: String)
    ensures
        r@ == module_prompt(kind),
{
    let mut s = copy_text(SHOWS_MODULE);
    let code = module_code(kind);
    s.append(code.as_str());
    if kind == Module::Rewrite {
        s.append(ASKS_REWRITE);
    } else {
        s.append(ASKS_OK);
    }
    s
}

// --------------------------------------------------------------- the fidelity

/// A line with its whitespace normalized.
pub open spec fn normal(line: Seq<char>) -> Seq<char> {
    join(words(line), " "@)
}

/// The meaningful lines among `l`: normalized, and not empty.
pub open spec fn meaningful(l: Seq<Seq<char>>) -> Seq<Seq<char>>
    decreases l.len(),
{
    if l.len() == 0 {
        Seq::empty()
    } else {
        let sofar = meaningful(l.drop_last());
        let n = normal(l.last());
        if n.len() > 0 {
            sofar.push(n)
        } else {
            sofar
        }
    }
}

/// How many of the wanted lines the given ones supply, each occurrence
/// counted once.
pub open spec fn supplied(want: Seq<Seq<char>>, have: Multiset<Seq<char>>) -> nat
    decreases want.len(),
{
    if want.len() == 0 {
        0
    } else {
        let n = supplied(want.drop_last(), have);
        let used = want.drop_last().to_multiset().count(want.last());
        if have.count(want.last()) > used {
            n + 1
        } else {
            n
        }
    }
}

/// The fraction of the original's meaningful lines that the response holds.
pub open spec fn fidelity_of(original: Seq<char>, response: Seq<char>) -> nat {
    let want = meaningful(lines(original));
    if want.len() == 0 {
        UNIT as nat
    } else {
        round_even(
            supplied(want, meaningful(lines(response)).to_multiset()) * UNIT as nat,
            want.len(),
        )
    }
}

fn meaningful_of(t: &str) -> (r: Vec<String>)
    ensures
        texts(r@) == meaningful(lines(t@)),
{
    let c = chars_of(t);
    let all = lines_of(&c);
    let mut out: Vec<String> = Vec::new();
    let mut i: usize = 0;
    assert(texts(out@) =~= meaningful(lines(t@).take(0)));
    while i < all.len()
        invariant
            i <= all.len(),
            views(all@) == lines(t@),
            texts(out@) == meaningful(lines(t@).take(i as int)),
        decreases all.len() - i,
    {
        assert(lines(t@).take(i + 1).drop_last() =~= lines(t@).take(i as int));
        assert(lines(t@).take(i + 1).last() == all@[i as int]@);
        let w = words_of(all[i]);
        let n = join_views(&w, " ");
        if chars_of(n.as_str()).len() > 0 {
            proof {
                lemma_texts_push(out@, n);
            }
            out.push(n);
        }
        i += 1;
    }
    assert(lines(t@).take(i as int) =~= lines(t@));
    out
}

/// Where the text first stands.
fn place_of(v: &[String], t: &str) -> (r: Option<usize>)
    ensures
        match r {
            Some(i) => i < v.len() && texts(v@)[i as int] == t@,
            None => !texts(v@).contains(t@),
        },
{
    let mut i: usize = 0;
    while i < v.len()
        invariant
            i <= v.len(),
            forall|k: int| 0 <= k < i ==> texts(v@)[k] != t@,
        decreases v.len() - i,
    {
        if same_text(v[i].as_str(), t) {
            return Some(i);
        }
        i += 1;
    }
    None
}

/// What is left of `have` once the lines `want` have taken theirs.
spec fn left_of(have: Multiset<Seq<char>>, want: Seq<Seq<char>>, left: Multiset<Seq<char>>) -> bool {
    forall|l: Seq<char>| #[trigger]
        left.count(l) == (if have.count(l) > want.to_multiset().count(l) {
            (have.count(l) - want.to_multiset().count(l)) as nat
        } else {
            0
        })
}

proof fn lemma_left_step(
    have: Multiset<Seq<char>>,
    want: Seq<Seq<char>>,
    left: Multiset<Seq<char>>,
    l: Seq<char>,
)
    requires
        left_of(have, want, left),
    ensures
        left.count(l) > 0 ==> left_of(have, want.push(l), left.remove(l)),
        left.count(l) == 0 ==> left_of(have, want.push(l), left),
        left.count(l) > 0 <==> have.count(l) > want.to_multiset().count(l),
{
    broadcast use vstd::multiset::group_multiset_axioms;

    vstd::seq_lib::to_multiset_build(want, l);
}

/// The quality gate's score: what fraction of the original module's
/// meaningful lines the rewrite reproduced verbatim (whitespace-normalized).
/// The rewrite prompt has a known correct answer, so degraded output —
/// e.g. from a too-aggressive KV quant — shows up as dropped or mangled
/// lines instead of needing a judgment call. A response must supply each
/// occurrence of a line that repeats. One whole = perfect preservation.
pub fn rewrite_fidelity(original: &str, response: &str) -> (r: u64)
    ensures
        r as nat == fidelity_of(original@, response@),
{
    let want = meaningful_of(original);
    let have = meaningful_of(response);
    if want.len() == 0 {
        return UNIT;
    }
    let ghost all = texts(want@);
    let ghost given = texts(have@).to_multiset();
    let mut left = have;
    let mut matched: usize = 0;
    let mut i: usize = 0;
    assert(all.take(0) =~= Seq::empty());
    proof {
        broadcast use vstd::seq_lib::group_to_multiset_ensures, vstd::multiset::group_multiset_axioms;

        assert(Seq::<Seq<char>>::empty().to_multiset() =~= Multiset::empty());
    }
    while i < want.len()
        invariant
            i <= want.len(),
            matched <= i,
            all == texts(want@),
            left_of(given, all.take(i as int), texts(left@).to_multiset()),
            matched as nat == supplied(all.take(i as int), given),
        decreases want.len() - i,
    {
        let ghost sofar = all.take(i as int);
        let ghost l = all[i as int];
        assert(all.take(i + 1).drop_last() =~= sofar);
        assert(all.take(i + 1) =~= sofar.push(l));
        assert(l == want@[i as int]@);
        proof {
            lemma_left_step(given, sofar, texts(left@).to_multiset(), l);
        }
        match place_of(&left, want[i].as_str()) {
            Some(j) => {
                let ghost before = texts(left@);
                proof {
                    vstd::seq_lib::to_multiset_remove(before, j as int);
                    before.to_multiset_ensures();
                    assert(before.contains(l));
                }
                let _ = left.remove(j);
                assert(texts(left@) =~= before.remove(j as int));
                matched += 1;
            },
            None => {
                proof {
                    texts(left@).to_multiset_ensures();
                }
            },
        }
        i += 1;
    }
    assert(all.take(i as int) =~= all);
    let n = want.len();
    let num = matched as u128 * UNIT as u128;
    assert(num / n as u128 <= UNIT) by (nonlinear_arith)
        requires
            num == matched * UNIT,
            matched <= n,
            n > 0,
    ;
    let r = rounded(num, n as u128);
    r as u64
}

proof fn lemma_supplied_bound(want: Seq<Seq<char>>, have: Multiset<Seq<char>>)
    ensures
        supplied(want, have) <= want.len(),
    decreases want.len(),
{
    if want.len() > 0 {
        lemma_supplied_bound(want.drop_last(), have);
    }
}

proof fn lemma_all_supplied(want: Seq<Seq<char>>, have: Multiset<Seq<char>>)
    requires
        forall|l: Seq<char>| #[trigger] want.to_multiset().count(l) <= have.count(l),
    ensures
        supplied(want, have) == want.len(),
    decreases want.len(),
{
    broadcast use vstd::multiset::group_multiset_axioms;

    if want.len() > 0 {
        let rest = want.drop_last();
        vstd::seq_lib::to_multiset_build(rest, want.last());
        assert(rest.push(want.last()) =~= want);
        assert forall|l: Seq<char>| #[trigger] rest.to_multiset().count(l) <= have.count(l) by {
            assert(want.to_multiset().count(l) <= have.count(l));
        }
        assert(want.to_multiset().count(want.last()) <= have.count(want.last()));
        lemma_all_supplied(rest, have);
    }
}

/// A response that supplies every occurrence of every meaningful line scores
/// one whole, and no response scores more.
pub proof fn perfect_preservation_scores_one(original: Seq<char>, response: Seq<char>)
    ensures
        fidelity_of(original, response) <= UNIT,
        (forall|l: Seq<char>| #[trigger]
            meaningful(lines(original)).to_multiset().count(l) <= meaningful(
                lines(response),
            ).to_multiset().count(l)) ==> fidelity_of(original, response) == UNIT,
{
    let want = meaningful(lines(original));
    let have = meaningful(lines(response)).to_multiset();
    lemma_supplied_bound(want, have);
    let k = supplied(want, have);
    if want.len() > 0 {
        lemma_fraction(k, want.len());
        if forall|l: Seq<char>| #[trigger] want.to_multiset().count(l) <= have.count(l) {
            lemma_all_supplied(want, have);
        }
    }
}

proof fn lemma_fraction(k: nat, n: nat)
    requires
        k <= n,
        n > 0,
    ensures
        round_even(k * UNIT as nat, n) <= UNIT,
        k == n ==> round_even(k * UNIT as nat, n) == UNIT,
{
    let num = k * UNIT as nat;
    let q = num / n;
    let r = num % n;
    assert(q <= UNIT && (q == UNIT ==> r == 0) && (k == n ==> q == UNIT)) by (nonlinear_arith)
        requires
            k <= n,
            n > 0,
            num == k * UNIT as nat,
            q == num / n,
            r == num % n,
    ;
}

// ---------------------------------------------------------------- the requests

/// What a trial sends to a loaded model. A warmup is a `NovelClass` request
/// whose answer is not looked at.
#[derive(Debug, Clone, Copy, PartialEq, Eq, Structural)]
pub enum Probe {
    NovelClass,
    NovelParser,
    Rewrite,
    Prefill,
    Turn,
    EditedTurn,
}

/// What a chat request holds.
pub open spec fn chat_request(
    model: Seq<char>,
    prompt: Seq<char>,
    max_tokens: u64,
    cache_prompt: bool,
) -> JsonView {
    JsonView::Object(
        seq![
            ("cache_prompt"@, JsonView::Bool(cache_prompt)),
            ("max_tokens"@, JsonView::Number(NumberView::Pos(max_tokens))),
            (
                "messages"@,
                JsonView::Array(
                    seq![
                        JsonView::Object(
                            seq![
                                ("content"@, JsonView::Text(prompt)),
                                ("role"@, JsonView::Text("user"@)),
                            ],
                        ),
                    ],
                ),
            ),
            ("model"@, JsonView::Text(model)),
            ("temperature"@, JsonView::Number(NumberView::Pos(0))),
        ],
    )
}

/// A chat request of one user message, answered without chance.
pub fn chat(model: &str, prompt: &str, max_tokens: u64, cache_prompt: bool) -> (r: Json)
    ensures
        r@ == chat_request(model@, prompt@, max_tokens, cache_prompt),
{
    let m: Vec<(String, Json)> = vec![entry("content", text(prompt)), entry("role", text("user"))];
    assert(pair_views(m@) =~= seq![
        ("content"@, JsonView::Text(prompt@)),
        ("role"@, JsonView::Text("user"@)),
    ]);
    let message = object(m);
    let all: Vec<Json> = vec![message];
    assert(json_views(all@) =~= seq![message@]);
    let messages = array(all);
    let v: Vec<(String, Json)> = vec![
        entry("cache_prompt", Json::Bool(cache_prompt)),
        entry("max_tokens", number(max_tokens)),
        entry("messages", messages),
        entry("model", text(model)),
        entry("temperature", number(0)),
    ];
    assert(pair_views(v@) =~= chat_request(model@, prompt@, max_tokens, cache_prompt)->Object_0);
    object(v)
}

/// The request of a probe: a generation reuses no cached prompt, a turn of a
/// conversation does.
pub open spec fn request_of(model: Seq<char>, p: Probe) -> JsonView {
    match p {
        Probe::NovelClass => chat_request(model, NOVEL_CLASS@, 512, false),
        Probe::NovelParser => chat_request(model, NOVEL_PARSER@, 512, false),
        Probe::Rewrite => chat_request(model, module_prompt(Module::Rewrite), 1024, false),
        Probe::Prefill => chat_request(model, module_prompt(Module::Prefill), 8, false),
        Probe::Turn => chat_request(model, module_prompt(Module::Turn), 8, true),
        Probe::EditedTurn => chat_request(model, module_prompt(Module::EditedTurn), 8, true),
    }
}

/// The body to send for a probe.
pub fn probe_body(model: &str, p: Probe) -> (r: Json)
    ensures
        r@ == request_of(model@, p),
{
    match p {
        Probe::NovelClass => chat(model, NOVEL_CLASS, 512, false),
        Probe::NovelParser => chat(model, NOVEL_PARSER, 512, false),
        Probe::Rewrite => chat(model, prompt_with(Module::Rewrite).as_str(), 1024, false),
        Probe::Prefill => chat(model, prompt_with(Module::Prefill).as_str(), 8, false),
        Probe::Turn => chat(model, prompt_with(Module::Turn).as_str(), 8, true),
        Probe::EditedTurn => chat(model, prompt_with(Module::EditedTurn).as_str(), 8, true),
    }
}

/// The body of the warmup, which lets the server build its CUDA graphs.
pub fn warmup_body(model: &str) -> (r: Json)
    ensures
        r@ == chat_request(model@, NOVEL_CLASS@, 128, false),
{
    chat(model, NOVEL_CLASS, 128, false)
}

// ----------------------------------------------------------------- the answers

/// What the server timed of one answer.
#[derive(Debug, Clone)]
pub struct GenStats {
    pub tps: i64,
    pub prompt_tps: Option<i64>,
    pub prompt_n: Option<u64>,
    pub prompt_ms: Option<i64>,
    pub draft_n: Option<u64>,
    pub draft_accepted: Option<u64>,
    pub content: String,
}

/// The answer is a turn of a conversation, of which only the timings count.
pub open spec fn is_turn(p: Probe) -> bool {
    p == Probe::Turn || p == Probe::EditedTurn
}

/// The text of the first choice.
pub open spec fn answer_text(body: JsonView) -> Option<Seq<char>> {
    text_of_json(
        member_of(member_of(at_zero(member(body, "choices"@)), "message"@), "content"@),
    )
}

/// The stats are those of the answer to a probe.
pub open spec fn stats_in(body: JsonView, p: Probe, s: GenStats) -> bool {
    let t = member(body, "timings"@);
    &&& s.prompt_tps == micro_of_json(member_of(t, "prompt_per_second"@))
    &&& s.prompt_n == u64_of_json(member_of(t, "prompt_n"@))
    &&& s.prompt_ms == micro_of_json(member_of(t, "prompt_ms"@))
    &&& if is_turn(p) {
        &&& s.tps == (match micro_of_json(member_of(t, "predicted_per_second"@)) {
            Some(v) => v,
            None => 0,
        })
        &&& s.draft_n is None
        &&& s.draft_accepted is None
        &&& s.content@ == Seq::<char>::empty()
    } else {
        &&& micro_of_json(member_of(t, "predicted_per_second"@)) == Some(s.tps)
        &&& s.draft_n == u64_of_json(member_of(t, "draft_n"@))
        &&& s.draft_accepted == u64_of_json(member_of(t, "draft_n_accepted"@))
        &&& s.content@ == (match answer_text(body) {
            Some(c) => c,
            None => Seq::empty(),
        })
    }
}

/// Why an answer to a probe cannot be read.
pub open spec fn unread(body: JsonView, p: Probe) -> Option<Seq<char>> {
    if member(body, "timings"@) is None {
        if is_turn(p) {
            Some("no timings"@)
        } else {
            Some("response has no timings block"@)
        }
    } else if !is_turn(p) && micro_of_json(
        member_of(member(body, "timings"@), "predicted_per_second"@),
    ) is None {
        Some("timings has no predicted_per_second"@)
    } else {
        None
    }
}

/// Reads the answer to a probe.
pub fn read_stats(body: &Json, p: Probe) -> (r: Result<GenStats, String>)
    ensures
        match unread(body@, p) {
            Some(e) => r is Err && r->Err_0@ == e,
            None => r is Ok && stats_in(body@, p, r->Ok_0),
        },
{
    let turn = p == Probe::Turn || p == Probe::EditedTurn;
    let t = body.get("timings");
    if t.is_none() {
        return Err(
            if turn {
                copy_text("no timings")
            } else {
                copy_text("response has no timings block")
            },
        );
    }
    let tps = micro_in(get_in(t, "predicted_per_second"));
    let prompt_tps = micro_in(get_in(t, "prompt_per_second"));
    let prompt_n = u64_in(get_in(t, "prompt_n"));
    let prompt_ms = micro_in(get_in(t, "prompt_ms"));
    if turn {
        let content = String::new();
        assert(content@ =~= Seq::<char>::empty());
        return Ok(
            GenStats {
                tps: match tps {
                    Some(v) => v,
                    None => 0,
                },
                prompt_tps,
                prompt_n,
                prompt_ms,
                draft_n: None,
                draft_accepted: None,
                content,
            },
        );
    }
    let tps = match tps {
        Some(v) => v,
        None => {
            return Err(copy_text("timings has no predicted_per_second"));
        },
    };
    let message = get_in(zero_in(body.get("choices")), "message");
    let content = match str_in(get_in(message, "content")) {
        Some(c) => c,
        None => {
            let c = String::new();
            assert(c@ =~= Seq::<char>::empty());
            c
        },
    };
    Ok(
        GenStats {
            tps,
            prompt_tps,
            prompt_n,
            prompt_ms,
            draft_n: u64_in(get_in(t, "draft_n")),
            draft_accepted: u64_in(get_in(t, "draft_n_accepted")),
            content,
        },
    )
}

// ------------------------------------------------------------- the measurement

/// The context that the long probes need: a config whose context settled
/// below it would fail the request, and the whole round with it.
pub const PROBE_MIN_CTX: u64 = 8192;

/// The probes of a round, in the order in which they are sent.
pub open spec fn probes_of(settled_ctx: u64) -> Seq<Probe> {
    if settled_ctx >= PROBE_MIN_CTX {
        seq![
            Probe::NovelClass,
            Probe::NovelParser,
            Probe::Rewrite,
            Probe::Prefill,
            Probe::Turn,
            Probe::EditedTurn,
        ]
    } else {
        seq![Probe::NovelClass, Probe::NovelParser, Probe::Rewrite]
    }
}

/// The probes to send to a model whose context settled at `settled_ctx`: the
/// long ones are skipped where they would not fit, and stay unmeasured.
pub fn probes(settled_ctx: u64) -> (r: Vec<Probe>)
    ensures
        r@ == probes_of(settled_ctx),
{
    let r = if settled_ctx >= PROBE_MIN_CTX {
        vec![
            Probe::NovelClass,
            Probe::NovelParser,
            Probe::Rewrite,
            Probe::Prefill,
            Probe::Turn,
            Probe::EditedTurn,
        ]
    } else {
        vec![Probe::NovelClass, Probe::NovelParser, Probe::Rewrite]
    };
    assert(r@ =~= probes_of(settled_ctx));
    r
}

/// A fraction in millionths, as far as it fits.
pub open spec fn fraction(a: u64, n: u64) -> u64 {
    let f = round_even((a * UNIT) as nat, n as nat);
    if f <= u64::MAX {
        f as u64
    } else {
        u64::MAX
    }
}

fn fraction_of(a: u64, n: u64) -> (r: u64)
    requires
        n > 0,
    ensures
        r == fraction(a, n),
{
    let f = rounded(a as u128 * UNIT as u128, n as u128);
    if f <= u64::MAX as u128 {
        f as u64
    } else {
        u64::MAX
    }
}

/// The fraction of the second turn's prompt that the cache served: what the
/// first turn processed and the second did not process again.
pub open spec fn reuse_of(n1: Option<u64>, n2: Option<u64>) -> Option<u64> {
    match (n1, n2) {
        (Some(a), Some(b)) => if a > 0 {
            Some((UNIT - fraction(if b < a { b } else { a }, a)) as u64)
        } else {
            None
        },
        _ => None,
    }
}

/// The fraction of the second turn's prompt that the cache served.
pub fn turn_reuse(n1: Option<u64>, n2: Option<u64>) -> (r: Option<u64>)
    ensures
        r == reuse_of(n1, n2),
        r is Some ==> r->0 <= UNIT,
{
    match (n1, n2) {
        (Some(a), Some(b)) => if a > 0 {
            let least = if b < a {
                b
            } else {
                a
            };
            proof {
                lemma_fraction(least as nat, a as nat);
                assert(least * UNIT == least as nat * UNIT as nat);
            }
            Some(UNIT - fraction_of(least, a))
        } else {
            None
        },
        _ => None,
    }
}

/// What the answers of a round measure; `None` where the second turn has no
/// time.
pub open spec fn measures(settled_ctx: u64, s: Seq<GenStats>, r: TrialResult) -> bool {
    let long = settled_ctx >= PROBE_MIN_CTX;
    &&& r.tg_novel == Some(round_even_int(s[0].tps + s[1].tps, 2) as i64)
    &&& r.tg_rewrite == Some(s[2].tps)
    &&& r.accept_rewrite == (match (s[2].draft_accepted, s[2].draft_n) {
        (Some(a), Some(n)) => if n > 0 {
            Some(fraction(a, n))
        } else {
            None
        },
        _ => None,
    })
    &&& r.fidelity == Some(
        fidelity_of(functions(Module::Rewrite, 10), s[2].content@) as u64,
    )
    &&& r.pp_prefill == (if long {
        s[3].prompt_tps
    } else {
        None
    })
    &&& r.turn2_prompt_ms == (if long {
        s[5].prompt_ms
    } else {
        None
    })
    &&& r.turn2_reuse == (if long {
        reuse_of(s[4].prompt_n, s[5].prompt_n)
    } else {
        None
    })
    &&& r.settled_ctx == Some(settled_ctx)
    &&& r.load_secs is None
    &&& r.error is None
    &&& r.build is None
}

pub const NO_PROMPT_MS: &'static str = "timings has no prompt_ms";

/// What the answers to the probes of a round measure. The round, which owns
/// the load, stamps the load time and the build.
pub fn measure(settled_ctx: u64, stats: &[GenStats]) -> (r: Result<TrialResult, String>)
    requires
        stats@.len() == probes_of(settled_ctx).len(),
    ensures
        match r {
            Ok(t) => measures(settled_ctx, stats@, t) && (settled_ctx >= PROBE_MIN_CTX
                ==> stats@[5].prompt_ms is Some),
            Err(e) => e@ == NO_PROMPT_MS@ && settled_ctx >= PROBE_MIN_CTX && stats@[5].prompt_ms
                is None,
        },
{
    let long = settled_ctx >= PROBE_MIN_CTX;
    if long && stats[5].prompt_ms.is_none() {
        return Err(copy_text(NO_PROMPT_MS));
    }
    let rw = &stats[2];
    let mean = rounded_int(stats[0].tps as i128 + stats[1].tps as i128, 2);
    let code = rewrite_code();
    let fidelity = rewrite_fidelity(code.as_str(), rw.content.as_str());
    Ok(
        TrialResult {
            tg_novel: Some(mean as i64),
            tg_rewrite: Some(rw.tps),
            accept_rewrite: match (rw.draft_accepted, rw.draft_n) {
                (Some(a), Some(n)) => if n > 0 {
                    Some(fraction_of(a, n))
                } else {
                    None
                },
                _ => None,
            },
            pp_prefill: if long {
                stats[3].prompt_tps
            } else {
                None
            },
            fidelity: Some(fidelity),
            settled_ctx: Some(settled_ctx),
            load_secs: None,
            turn2_prompt_ms: if long {
                stats[5].prompt_ms
            } else {
                None
            },
            turn2_reuse: if long {
                turn_reuse(stats[4].prompt_n, stats[5].prompt_n)
            } else {
                None
            },
            error: None,
            build: None,
        },
    )
}

/// A second turn that reprocesses nothing reused its whole prompt, one that
/// reprocesses as much as the first reused nothing, and the fraction is
/// between the two.
pub proof fn reuse_is_a_fraction(a: u64, b: u64)
    requires
        a > 0,
    ensures
        reuse_of(Some(a), Some(b))->0 <= UNIT,
        b == 0 ==> reuse_of(Some(a), Some(b)) == Some(UNIT),
        b >= a ==> reuse_of(Some(a), Some(b)) == Some(0u64),
{
    let least = if b < a {
        b
    } else {
        a
    };
    lemma_fraction(least as nat, a as nat);
    assert(least * UNIT == least as nat * UNIT as nat);
    assert(0nat / a as nat == 0 && 0nat % a as nat == 0) by (nonlinear_arith)
        requires
            a > 0,
    ;
}

/// The lines that a response supplies are those that it has in common with the original,
/// each as often as in the one that has fewer of it.
pub proof fn what_is_supplied_is_what_is_common(
    want: Seq<Seq<char>>,
    have: Multiset<Seq<char>>,
)
    ensures
        supplied(want, have) == want.to_multiset().intersection_with(have).len(),
    decreases want.len(),
{
    broadcast use vstd::multiset::group_multiset_axioms;
    broadcast use vstd::multiset::lemma_intersection_count;

    want.to_multiset_ensures();
    if want.len() == 0 {
        let c = want.to_multiset().intersection_with(have);
        assert forall|x: Seq<char>| #[trigger] c.count(x) == 0 by {
            assert(want.to_multiset().count(x) <= want.to_multiset().len());
        }
        assert(c =~= Multiset::empty());
    } else {
        let w = want.drop_last();
        let x = want.last();
        what_is_supplied_is_what_is_common(w, have);
        w.to_multiset_ensures();
        assert(want =~= w.push(x));
        assert(want.to_multiset() =~= w.to_multiset().insert(x));
        let before = w.to_multiset().intersection_with(have);
        let now = want.to_multiset().intersection_with(have);
        if have.count(x) > w.to_multiset().count(x) {
            assert(now =~= before.insert(x));
        } else {
            assert(now =~= before);
        }
    }
}

/// The fidelity is the part of the original's lines that the response has in common with
/// it, of a million, to the nearest one.
pub proof fn fidelity_is_the_part_in_common(original: Seq<char>, response: Seq<char>)
    requires
        meaningful(lines(original)).len() > 0,
    ensures
        ({
            let want = meaningful(lines(original));
            let common = want.to_multiset().intersection_with(
                meaningful(lines(response)).to_multiset(),
            ).len();
            -(want.len() as int) <= 2 * (fidelity_of(original, response) * want.len() - common
                * 1_000_000) <= want.len()
        }),
{
    let want = meaningful(lines(original));
    let have = meaningful(lines(response)).to_multiset();
    what_is_supplied_is_what_is_common(want, have);
    crate::num::rounding_is_to_the_nearest((supplied(want, have) * 1_000_000) as int, want.len());
}

/// Only lines that hold a word count, and each of them does, with one space between its words.
pub proof fn lines_with_words_count(l: Seq<Seq<char>>)
    ensures
        meaningful(l) == l.map_values(|s: Seq<char>| join(words(s), " "@)).filter(
            |s: Seq<char>| s.len() > 0,
        ),
    decreases l.len(),
{
    reveal(Seq::filter);
    let f = |s: Seq<char>| join(words(s), " "@);
    if l.len() > 0 {
        lines_with_words_count(l.drop_last());
        let m = l.map_values(f);
        assert(m.drop_last() =~= l.drop_last().map_values(f));
        assert(m.last() == normal(l.last()));
    } else {
        assert(l.map_values(f) =~= Seq::<Seq<char>>::empty());
    }
}

/// A fraction is its part of a million, to the nearest one.
pub proof fn a_fraction_is_a_part_of_a_million(a: u64, n: u64)
    requires
        a <= n,
        n > 0,
    ensures
        -(n as int) <= 2 * (fraction(a, n) * n - a * 1_000_000) <= n,
{
    let f = round_even((a * 1_000_000) as nat, n as nat);
    crate::num::rounding_is_to_the_nearest(a * 1_000_000, n as nat);
    assert(f <= 1_000_000) by (nonlinear_arith)
        requires
            2 * (f * n - a * 1_000_000) <= n,
            a <= n,
            n > 0,
    ;
}

/// What the second turn processes, and what it reuses of the first, come to the first.
pub proof fn reused_and_processed_come_to_the_turn(a: u64, b: u64)
    requires
        0 < a,
        b <= a,
    ensures
        reuse_of(Some(a), Some(b)) is Some,
        -(a as int) <= 2 * (reuse_of(Some(a), Some(b))->0 * a + b * 1_000_000 - a * 1_000_000) <= a,
{
    a_fraction_is_a_part_of_a_million(b, a);
    let f = fraction(b, a);
    assert(f <= 1_000_000) by (nonlinear_arith)
        requires
            2 * (f * a - b * 1_000_000) <= a,
            b <= a,
            a > 0,
    ;
    assert((1_000_000 - f) * a == 1_000_000 * a - f * a) by (nonlinear_arith);
}

/// A round's figures are those of its probes: the novel speed is the mean of the first two,
/// the rewrite's speed and drafts are the third's, and what the longer probes tell is there
/// only with a context of at least 8192.
pub proof fn a_round_tells_what_its_probes_did(settled_ctx: u64, s: Seq<GenStats>, r: TrialResult)
    requires
        s.len() == (if settled_ctx >= 8192 {
            6nat
        } else {
            3nat
        }),
        measures(settled_ctx, s, r),
    ensures
        r.tg_novel is Some && -1 <= 2 * r.tg_novel->0 - (s[0].tps + s[1].tps) <= 1,
        r.tg_rewrite == Some(s[2].tps),
        s[2].draft_n is None || s[2].draft_accepted is None || s[2].draft_n->0 == 0
            ==> r.accept_rewrite is None,
        s[2].draft_n is Some && s[2].draft_accepted is Some && 0 < s[2].draft_n->0
            && s[2].draft_accepted->0 <= s[2].draft_n->0 ==> r.accept_rewrite is Some && -(
        s[2].draft_n->0 as int) <= 2 * (r.accept_rewrite->0 * s[2].draft_n->0
            - s[2].draft_accepted->0 * 1_000_000) <= s[2].draft_n->0,
        settled_ctx < 8192 ==> r.pp_prefill is None && r.turn2_prompt_ms is None
            && r.turn2_reuse is None,
        settled_ctx >= 8192 ==> r.pp_prefill == s[3].prompt_tps && r.turn2_prompt_ms
            == s[5].prompt_ms,
        r.settled_ctx == Some(settled_ctx),
        probes_of(settled_ctx).len() == s.len(),
{
    let sum = s[0].tps + s[1].tps;
    crate::num::rounding_is_to_the_nearest(sum, 2);
    let m = round_even_int(sum, 2);
    assert(i64::MIN <= m <= i64::MAX);
    match (s[2].draft_accepted, s[2].draft_n) {
        (Some(a), Some(n)) => {
            if 0 < n && a <= n {
                a_fraction_is_a_part_of_a_million(a, n);
            }
        },
        _ => {},
    }
}

/// The edited turn is the first turn but for one function, the fourteenth.
pub proof fn the_edit_changes_one_function(i: nat)
    ensures
        function_text(Module::Turn, i) == function_text(Module::EditedTurn, i) <==> i != 13,
        size_of(Module::Turn) == 40 && size_of(Module::EditedTurn) == 40,
{
    if i == 13 {
        reveal_strlit("def ");
        reveal_strlit("renamed_stage");
        reveal_strlit("transform_stage_");
        let a = function_text(Module::Turn, i);
        let b = function_text(Module::EditedTurn, i);
        assert(a[4] == 't');
        assert(b[4] == 'r');
    }
}

/// A probe's request asks for the probe's text of the model, without chance, with so many
/// tokens at most as the probe needs, and reuses the cache in a conversation's turns alone.
pub proof fn a_probe_asks_for_its_text(model: Seq<char>, p: Probe)
    ensures
        request_of(model, p) is Object,
        ({
            let o = request_of(model, p)->Object_0;
            let tokens = match p {
                Probe::NovelClass | Probe::NovelParser => 512u64,
                Probe::Rewrite => 1024u64,
                _ => 8u64,
            };
            &&& o.contains(("max_tokens"@, JsonView::Number(NumberView::Pos(tokens))))
            &&& o.contains(("temperature"@, JsonView::Number(NumberView::Pos(0))))
            &&& o.contains(("model"@, JsonView::Text(model)))
            &&& o.contains(
                ("cache_prompt"@, JsonView::Bool(p == Probe::Turn || p == Probe::EditedTurn)),
            )
        }),
{
    let o = request_of(model, p)->Object_0;
    assert(o[0].0 == "cache_prompt"@);
    assert(o[1].0 == "max_tokens"@);
    assert(o[3].0 == "model"@);
    assert(o[4].0 == "temperature"@);
    assert(o.contains(o[0]) && o.contains(o[1]) && o.contains(o[3]) && o.contains(o[4]));
}

} // verus!
