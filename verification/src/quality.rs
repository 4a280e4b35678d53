//! Measured output quality, beyond speed and context. Two instruments, both
//! deterministic and machine-checked:
//!
//! - an **eval battery** — small code-flavored tasks with exactly one
//!   verifiable answer each, fixed forever for comparability. Scored by
//!   strict matchers, never by judgment.
//! - **N-shot tool-call reliability** — the tool probe run several times;
//!   agents live and die on this, and a single shot can't tell 90% reliable
//!   from 100%.
//!
//! Scores are in millionths.
use crate::json::{alike, json_document, Json, JsonView};
use crate::measurements::{says_nothing, Measurement, Measurements};
use crate::num::{dec, dec_text, fixed0, fixed0_text, round_even, rounded, UNIT};
use crate::text::{
    chars_of, copy_text, equal_ignoring_case, lines, lines_of, same_ignoring_case, text_of, trim,
    trim_end_of, trim_start_of, trimmed, trimmed_end_of, trimmed_start_of, views,
};
use crate::textmap::{lookup, put, put_then_lookup};
use crate::workload::{answer_text, chat, chat_request};
use vstd::prelude::*;
use vstd::string::*;

verus! {

/// How a battery item's answer is checked. Strict on purpose: models are
/// told to put the bare answer on the last line, and only that line counts.
#[derive(Debug, Clone)]
pub enum Check {
    /// The last non-empty line, trimmed of whitespace/backticks/periods,
    /// must equal this exactly (case-insensitive).
    LastLineEquals(&'static str),
    /// The first JSON object found in the response must equal this value
    /// structurally (key order and whitespace don't matter).
    JsonEquals(&'static str),
}

pub struct EvalItem {
    pub prompt: &'static str,
    pub check: Check,
}

pub const SORTED_PROMPT: &'static str = "What does this Python expression evaluate to?\n\
                     sorted(set([5, 3, 9, 3, 7]))[-2]\n\
                     Reply with ONLY the answer on the last line.";

pub const REVERSE_PROMPT: &'static str = "Reverse the string \"steward\". Reply with ONLY the reversed \
                     string on the last line.";

pub const HEX_PROMPT: &'static str = "Convert hexadecimal 0x2A to decimal. Reply with ONLY the \
                     number on the last line.";

pub const POWER_PROMPT: &'static str = "What does this Python print?\nprint(f\"{2 ** 10}\")\n\
                     Reply with ONLY the output on the last line.";

pub const JSON_PROMPT: &'static str = "Produce a JSON object with exactly two keys: \"name\" set to \
                     the string \"steward\" and \"count\" set to the number 3. \
                     Reply with ONLY the JSON.";

pub const LOOP_PROMPT: &'static str = "This Python loop is meant to visit every index of xs but has \
                     an off-by-one bug:\nfor i in range(1, len(xs)): visit(xs[i])\n\
                     Which single index does it skip? Reply with ONLY the index on \
                     the last line.";

pub const JSON_ANSWER: &'static str = "{\"name\":\"steward\",\"count\":3}";

/// The battery's items: a prompt, and the check of its answer.
pub open spec fn battery() -> Seq<(Seq<char>, Check)> {
    seq![
        (SORTED_PROMPT@, Check::LastLineEquals("7")),
        (REVERSE_PROMPT@, Check::LastLineEquals("drawets")),
        (HEX_PROMPT@, Check::LastLineEquals("42")),
        (POWER_PROMPT@, Check::LastLineEquals("1024")),
        (JSON_PROMPT@, Check::JsonEquals(JSON_ANSWER)),
        (LOOP_PROMPT@, Check::LastLineEquals("0")),
    ]
}

/// The fixed battery. Answers are chosen to be distinctive and the tasks span
/// evaluation, string work, format discipline, and code reading.
pub fn eval_battery() -> (r: Vec<EvalItem>)
    ensures
        Seq::new(r@.len(), |i: int| (r@[i].prompt@, r@[i].check)) == battery(),
{
    let r: Vec<EvalItem> = vec![
        EvalItem { prompt: SORTED_PROMPT, check: Check::LastLineEquals("7") },
        EvalItem { prompt: REVERSE_PROMPT, check: Check::LastLineEquals("drawets") },
        EvalItem { prompt: HEX_PROMPT, check: Check::LastLineEquals("42") },
        EvalItem { prompt: POWER_PROMPT, check: Check::LastLineEquals("1024") },
        EvalItem { prompt: JSON_PROMPT, check: Check::JsonEquals(JSON_ANSWER) },
        EvalItem { prompt: LOOP_PROMPT, check: Check::LastLineEquals("0") },
    ];
    assert(Seq::new(r@.len(), |i: int| (r@[i].prompt@, r@[i].check)) =~= battery());
    r
}

// --------------------------------------------------------------- the matchers

/// The characters around an answer that do not count.
pub open spec fn wrapping() -> Seq<char> {
    seq!['`', '.', '"', '\'']
}

/// What a line says once its wrapping is taken off.
pub open spec fn bare_line(l: Seq<char>) -> Seq<char> {
    trim(trim_end_of(trim_start_of(trim(l), wrapping()), wrapping()))
}

/// The last line that says anything.
pub open spec fn last_said(l: Seq<Seq<char>>) -> Option<Seq<char>>
    decreases l.len(),
{
    if l.len() == 0 {
        None
    } else if bare_line(l.last()).len() > 0 {
        Some(bare_line(l.last()))
    } else {
        last_said(l.drop_last())
    }
}

/// Where the block that is `depth` deep at `from` closes.
pub open spec fn closing(s: Seq<char>, from: int, depth: nat) -> Option<int>
    decreases s.len() - from,
{
    if from < 0 || from >= s.len() {
        None
    } else if s[from] == '{' {
        closing(s, from + 1, depth + 1)
    } else if s[from] == '}' {
        if depth <= 1 {
            Some(from)
        } else {
            closing(s, from + 1, (depth - 1) as nat)
        }
    } else {
        closing(s, from + 1, depth)
    }
}

/// Where the first brace opens.
pub open spec fn opening(s: Seq<char>, from: int) -> Option<int>
    decreases s.len() - from,
{
    if from < 0 || from >= s.len() {
        None
    } else if s[from] == '{' {
        Some(from)
    } else {
        opening(s, from + 1)
    }
}

/// The first balanced block of braces.
pub open spec fn first_block(s: Seq<char>) -> Option<Seq<char>> {
    match opening(s, 0) {
        Some(a) => match closing(s, a, 0) {
            Some(b) => Some(s.subrange(a, b + 1)),
            None => None,
        },
        None => None,
    }
}

/// The last line that says anything is the wanted answer.
pub open spec fn last_line_is(want: Seq<char>, response: Seq<char>) -> bool {
    match last_said(lines(response)) {
        Some(l) => same_ignoring_case(l, want),
        None => false,
    }
}

/// The first block of the response reads as the wanted value.
pub open spec fn block_is(want: JsonView, response: Seq<char>) -> bool {
    match first_block(response) {
        Some(b) => json_document(b) is Ok && alike(json_document(b)->Ok_0, want),
        None => false,
    }
}

fn bare_line_of(l: &[char]) -> (r: &[char])
    ensures
        r@ == bare_line(l@),
{
    let set: [char; 4] = ['`', '.', '"', '\''];
    assert(set@ =~= wrapping());
    trimmed(trimmed_end_of(trimmed_start_of(trimmed(l), &set), &set))
}

fn last_line_equals(want: &str, response: &str) -> (r: bool)
    ensures
        r == last_line_is(want@, response@),
{
    let c = chars_of(response);
    let l = lines_of(&c);
    let ghost all = lines(response@);
    let mut i: usize = l.len();
    assert(all.take(i as int) =~= all);
    while i > 0
        invariant
            i <= l.len(),
            views(l@) == all,
            all == lines(response@),
            last_said(all) == last_said(all.take(i as int)),
        decreases i,
    {
        let b = bare_line_of(l[i - 1]);
        assert(all.take(i as int).last() == l@[i - 1]@);
        assert(all.take(i as int).drop_last() =~= all.take(i - 1));
        if b.len() > 0 {
            let w = chars_of(want);
            return equal_ignoring_case(b, &w);
        }
        i -= 1;
    }
    false
}

/// The first balanced block of braces.
fn block_in(s: &[char]) -> (r: Option<String>)
    ensures
        crate::text::opt_text(r) == first_block(s@),
{
    let mut a: usize = 0;
    while a < s.len() && s[a] != '{'
        invariant
            a <= s.len(),
            opening(s@, 0) == opening(s@, a as int),
        decreases s.len() - a,
    {
        a += 1;
    }
    if a == s.len() {
        return None;
    }
    let mut i: usize = a;
    let mut depth: usize = 0;
    while i < s.len()
        invariant
            a <= i <= s.len(),
            depth <= i - a,
            opening(s@, 0) == Some(a as int),
            closing(s@, a as int, 0) == closing(s@, i as int, depth as nat),
        decreases s.len() - i,
    {
        if s[i] == '{' {
            depth += 1;
        } else if s[i] == '}' {
            if depth <= 1 {
                let b = vstd::slice::slice_subrange(s, a, i + 1);
                return Some(text_of(b));
            }
            depth -= 1;
        }
        i += 1;
    }
    None
}

/// Whether the first block of the response reads as `want`.
pub fn holds_block(want: &Json, response: &str) -> (r: bool)
    ensures
        r == block_is(want@, response@),
{
    let c = chars_of(response);
    match block_in(&c) {
        Some(b) => match crate::json::parse(b.as_str()) {
            Ok(got) => got.same(want),
            Err(_) => false,
        },
        None => false,
    }
}

/// The response passes the check.
pub open spec fn passes(check: Check, response: Seq<char>) -> bool {
    match check {
        Check::LastLineEquals(want) => last_line_is(want@, response),
        Check::JsonEquals(want) => block_is(json_document(want@)->Ok_0, response),
    }
}

/// The check can be made: the value that it wants is one.
pub open spec fn makes_sense(check: Check) -> bool {
    match check {
        Check::LastLineEquals(_) => true,
        Check::JsonEquals(want) => json_document(want@) is Ok,
    }
}

/// Scores one item's response.
pub fn score_response(check: &Check, response: &str) -> (r: bool)
    requires
        makes_sense(*check),
    ensures
        r == passes(*check, response@),
{
    match check {
        Check::LastLineEquals(want) => last_line_equals(want, response),
        Check::JsonEquals(want) => match crate::json::parse(want) {
            Ok(w) => holds_block(&w, response),
            Err(_) => false,
        },
    }
}

/// Scores one item's response; `None` where the item's own wanted value is no
/// JSON.
pub fn scored(check: &Check, response: &str) -> (r: Option<bool>)
    ensures
        match r {
            Some(b) => makes_sense(*check) && b == passes(*check, response@),
            None => !makes_sense(*check),
        },
{
    if let Check::JsonEquals(want) = check {
        if crate::json::parse(want).is_err() {
            return None;
        }
    }
    Some(score_response(check, response))
}

// -------------------------------------------------------------------- the quiz

/// One quality measurement of the currently-served model.
#[derive(Debug, Clone)]
pub struct QualityScore {
    /// Fraction of eval items answered correctly.
    pub eval_score: u64,
    pub evals_passed: u32,
    pub evals_total: u32,
    /// Fraction of N tool probes that produced a well-formed call.
    pub tool_reliability: u64,
    pub tool_shots: u32,
}

/// What is asked next.
#[derive(Debug, Clone, Copy, PartialEq, Eq, Structural)]
pub enum Ask {
    /// The battery's item at this place.
    Eval(usize),
    /// The tool probe, for the time after so many.
    Tool(u32),
    /// Nothing: the quiz is over.
    Nothing,
}

/// A quiz of a loaded model: the battery first, then the tool probes. What
/// fails scores zero rather than ends the quiz.
pub struct Quiz {
    pub evals: u32,
    pub evals_passed: u32,
    pub shots: u32,
    pub tool_ok: u32,
    pub tool_shots: u32,
}

pub const EVALS_TOTAL: u32 = 6;

/// The mark of a passed or a failed item.
pub open spec fn mark(ok: bool) -> Seq<char> {
    if ok {
        "✓"@
    } else {
        "✗"@
    }
}

fn push_mark(s: &mut String, ok: bool)
    ensures
        final(s)@ == old(s)@ + mark(ok),
{
    if ok {
        s.append("✓");
    } else {
        s.append("✗");
    }
}

/// A part of a whole in millionths; nothing of nothing is zero.
pub open spec fn share(part: u32, whole: u32) -> u64 {
    round_even((part * UNIT) as nat, if whole == 0 { 1 } else { whole as nat }) as u64
}

fn share_of(part: u32, whole: u32) -> (r: u64)
    ensures
        r == share(part, whole),
{
    let w: u32 = if whole == 0 {
        1
    } else {
        whole
    };
    assert(part * UNIT <= u128::MAX) by (nonlinear_arith)
        requires
            part <= u32::MAX,
            UNIT == 1_000_000,
    ;
    rounded(part as u128 * UNIT as u128, w as u128) as u64
}

impl Quiz {
    /// No more was passed than was asked.
    pub open spec fn valid(self) -> bool {
        &&& self.evals_passed <= self.evals <= EVALS_TOTAL
        &&& self.tool_ok <= self.shots <= self.tool_shots
    }

    pub open spec fn next(self) -> Ask {
        if self.evals < EVALS_TOTAL {
            Ask::Eval(self.evals as usize)
        } else if self.shots < self.tool_shots {
            Ask::Tool(self.shots)
        } else {
            Ask::Nothing
        }
    }

    /// A quiz with so many tool probes, before its first question.
    pub fn begin(tool_shots: u32) -> (r: Quiz)
        ensures
            r.valid(),
            r.evals == 0,
            r.shots == 0,
            r.tool_shots == tool_shots,
    {
        Quiz { evals: 0, evals_passed: 0, shots: 0, tool_ok: 0, tool_shots }
    }

    /// What is asked next.
    pub fn ask(&self) -> (r: Ask)
        ensures
            r == self.next(),
    {
        if self.evals < EVALS_TOTAL {
            Ask::Eval(self.evals as usize)
        } else if self.shots < self.tool_shots {
            Ask::Tool(self.shots)
        } else {
            Ask::Nothing
        }
    }

    /// Counts the battery's item that was asked, and says so.
    pub fn eval_done(&mut self, model: &str, ok: bool) -> (r: String)
        requires
            old(self).valid(),
            old(self).next() is Eval,
        ensures
            final(self).valid(),
            *final(self) == (Quiz {
                evals: (old(self).evals + 1) as u32,
                evals_passed: (old(self).evals_passed + if ok {
                    1int
                } else {
                    0
                }) as u32,
                ..*old(self)
            }),
            r@ == "quality "@ + model@ + ": eval "@ + dec((old(self).evals + 1) as nat) + "/"@ + dec(
                EVALS_TOTAL as nat,
            ) + " "@ + mark(ok),
    {
        self.evals = self.evals + 1;
        if ok {
            self.evals_passed = self.evals_passed + 1;
        }
        let mut s = copy_text("quality ");
        s.append(model);
        s.append(": eval ");
        s.append(dec_text(self.evals as u64).as_str());
        s.append("/");
        s.append(dec_text(EVALS_TOTAL as u64).as_str());
        s.append(" ");
        push_mark(&mut s, ok);
        s
    }

    /// Counts the tool probe that was sent, and says so.
    pub fn tool_done(&mut self, model: &str, ok: bool) -> (r: String)
        requires
            old(self).valid(),
            old(self).next() is Tool,
        ensures
            final(self).valid(),
            *final(self) == (Quiz {
                shots: (old(self).shots + 1) as u32,
                tool_ok: (old(self).tool_ok + if ok {
                    1int
                } else {
                    0
                }) as u32,
                ..*old(self)
            }),
            r@ == "quality "@ + model@ + ": tool probe "@ + dec((old(self).shots + 1) as nat) + "/"@
                + dec(old(self).tool_shots as nat) + " "@ + mark(ok),
    {
        self.shots = self.shots + 1;
        if ok {
            self.tool_ok = self.tool_ok + 1;
        }
        let mut s = copy_text("quality ");
        s.append(model);
        s.append(": tool probe ");
        s.append(dec_text(self.shots as u64).as_str());
        s.append("/");
        s.append(dec_text(self.tool_shots as u64).as_str());
        s.append(" ");
        push_mark(&mut s, ok);
        s
    }

    /// The score of a quiz that is over.
    pub fn finish(&self) -> (r: QualityScore)
        requires
            self.next() is Nothing,
        ensures
            r.eval_score == share(self.evals_passed, EVALS_TOTAL),
            r.evals_passed == self.evals_passed,
            r.evals_total == EVALS_TOTAL,
            r.tool_reliability == share(self.tool_ok, self.tool_shots),
            r.tool_shots == self.tool_shots,
    {
        QualityScore {
            eval_score: share_of(self.evals_passed, EVALS_TOTAL),
            evals_passed: self.evals_passed,
            evals_total: EVALS_TOTAL,
            tool_reliability: share_of(self.tool_ok, self.tool_shots),
            tool_shots: self.tool_shots,
        }
    }
}

/// The body to send for a battery item.
pub fn eval_body(model: &str, item: &EvalItem) -> (r: Json)
    ensures
        r@ == chat_request(model@, item.prompt@, 2048, false),
{
    chat(model, item.prompt, 2048, false)
}

/// The text of the answer; empty where there is none.
pub fn eval_answer(body: &Json) -> (r: String)
    ensures
        r@ == (match answer_text(body@) {
            Some(t) => t,
            None => Seq::empty(),
        }),
{
    let m = crate::json::get_in(crate::router::zero_in(body.get("choices")), "message");
    match crate::json::str_in(crate::json::get_in(m, "content")) {
        Some(t) => t,
        None => {
            let t = String::new();
            assert(t@ =~= Seq::<char>::empty());
            t
        },
    }
}

/// The measurement with the scores of a quiz.
pub open spec fn with_score(m: Measurement, score: QualityScore) -> Measurement {
    Measurement {
        eval_score: Some(score.eval_score),
        tool_reliability: Some(score.tool_reliability),
        ..m
    }
}

/// Records a quiz's scores; nothing else of the model's measurement changes,
/// and no other model's.
pub fn record_quality(all: &mut Measurements, model: &str, score: &QualityScore)
    ensures
        lookup(final(all)@, model@) is Some,
        final(all)@ == put(old(all)@, model@, lookup(final(all)@, model@)->0),
        match lookup(old(all)@, model@) {
            Some(m) => lookup(final(all)@, model@) == Some(with_score(m, *score)),
            None => says_nothing(
                Measurement {
                    eval_score: None,
                    tool_reliability: None,
                    ..lookup(final(all)@, model@)->0
                },
            ) && lookup(final(all)@, model@)->0.eval_score == Some(score.eval_score) && lookup(
                final(all)@,
                model@,
            )->0.tool_reliability == Some(score.tool_reliability),
        },
{
    let mut m = match all.get(model) {
        Some(m) => m.copy(),
        None => Default::default(),
    };
    m.eval_score = Some(score.eval_score);
    m.tool_reliability = Some(score.tool_reliability);
    proof {
        put_then_lookup(all@, model@, m, model@);
    }
    all.insert(copy_text(model), m);
}

/// The shots that hit, to the nearest whole one; a half counts as one.
pub open spec fn shots_hit(s: QualityScore) -> nat {
    let n = (s.tool_reliability * s.tool_shots * 2 + UNIT) as nat / (2 * UNIT) as nat;
    if n <= u32::MAX {
        n
    } else {
        u32::MAX as nat
    }
}

/// What is said of a quiz.
pub open spec fn score_text(model: Seq<char>, s: QualityScore) -> Seq<char> {
    "quality "@ + model + ": evals "@ + dec(s.evals_passed as nat) + "/"@ + dec(
        s.evals_total as nat,
    ) + " ("@ + fixed0((s.eval_score * 100) as nat, UNIT as nat) + "%), tool calls "@ + dec(shots_hit(s))
        + "/"@ + dec(s.tool_shots as nat) + " ("@ + fixed0(
        (s.tool_reliability * 100) as nat,
        UNIT as nat,
    ) + "%)"@
}

/// What is said of a quiz.
pub fn score_line(model: &str, s: &QualityScore) -> (r: String)
    ensures
        r@ == score_text(model@, *s),
{
    let mut t = copy_text("quality ");
    t.append(model);
    t.append(": evals ");
    t.append(dec_text(s.evals_passed as u64).as_str());
    t.append("/");
    t.append(dec_text(s.evals_total as u64).as_str());
    t.append(" (");
    t.append(fixed0_text(s.eval_score as u128 * 100, UNIT as u128).as_str());
    t.append("%), tool calls ");
    assert(s.tool_reliability * s.tool_shots <= 0xffff_ffff_ffff_ffff * 0xffff_ffff)
        by (nonlinear_arith)
        requires
            s.tool_reliability <= u64::MAX,
            s.tool_shots <= u32::MAX,
    ;
    let hit: u128 = (s.tool_reliability as u128 * s.tool_shots as u128 * 2 + UNIT as u128) / (2
        * UNIT as u128);
    t.append(
        dec_text(
            if hit <= u32::MAX as u128 {
                hit as u64
            } else {
                u32::MAX as u64
            },
        ).as_str(),
    );
    t.append("/");
    t.append(dec_text(s.tool_shots as u64).as_str());
    t.append(" (");
    t.append(fixed0_text(s.tool_reliability as u128 * 100, UNIT as u128).as_str());
    t.append("%)");
    t
}

/// A share is its part of a million, to the nearest one.
pub proof fn a_share_is_a_part_of_a_million(part: u32, whole: u32)
    requires
        part <= whole,
        whole > 0,
    ensures
        -(whole as int) <= 2 * (share(part, whole) * whole - part * 1_000_000) <= whole,
        share(part, whole) <= 1_000_000,
        part == whole ==> share(part, whole) == 1_000_000,
        part == 0 ==> share(part, whole) == 0,
{
    let r = round_even((part * 1_000_000) as nat, whole as nat);
    crate::num::rounding_is_to_the_nearest(part * 1_000_000, whole as nat);
    assert(r <= 1_000_000) by (nonlinear_arith)
        requires
            2 * (r * whole - part * 1_000_000) <= whole,
            part <= whole,
            whole > 0,
    ;
    if part == whole {
        assert(r >= 1_000_000) by (nonlinear_arith)
            requires
                2 * (part * 1_000_000 - r * whole) <= whole,
                part == whole,
                whole > 0,
        ;
    }
    if part == 0 {
        assert(r == 0) by (nonlinear_arith)
            requires
                2 * (r * whole) <= whole,
                whole > 0,
                r >= 0,
        ;
    }
}

/// The shots that hit are told as many as they were, of up to a hundred thousand.
pub proof fn the_shots_that_hit_are_told(s: QualityScore, hits: u32)
    requires
        0 < s.tool_shots <= 100_000,
        hits <= s.tool_shots,
        s.tool_reliability == share(hits, s.tool_shots),
    ensures
        shots_hit(s) == hits,
{
    a_share_is_a_part_of_a_million(hits, s.tool_shots);
    let x = s.tool_reliability * s.tool_shots;
    let n = (x * 2 + 1_000_000) / 2_000_000;
    assert(n == hits) by (nonlinear_arith)
        requires
            n == (x * 2 + 1_000_000) / 2_000_000,
            -100_000 <= 2 * (x - hits * 1_000_000) <= 100_000,
    ;
}

/// What counts as the answer is the last line that says anything, whatever stands before it.
pub proof fn the_last_line_answers(l: Seq<Seq<char>>, i: int)
    requires
        0 <= i < l.len(),
        bare_line(l[i]).len() > 0,
        forall|k: int| i < k < l.len() ==> bare_line(#[trigger] l[k]).len() == 0,
    ensures
        last_said(l) == Some(bare_line(l[i])),
    decreases l.len(),
{
    if i < l.len() - 1 {
        let s = l.drop_last();
        assert forall|k: int| i < k < s.len() implies bare_line(#[trigger] s[k]).len() == 0 by {
            assert(s[k] == l[k]);
        }
        assert(bare_line(l[l.len() - 1]).len() == 0);
        the_last_line_answers(s, i);
    }
}

/// How many more braces open than close in a part of a text.
pub open spec fn open_braces(s: Seq<char>, from: int, to: int) -> int
    decreases to - from,
{
    if from >= to {
        0
    } else {
        open_braces(s, from, to - 1) + if s[to - 1] == '{' {
            1int
        } else if s[to - 1] == '}' {
            -1int
        } else {
            0int
        }
    }
}

/// The block of a response begins with its first brace and ends where as many braces have
/// closed as have opened, for the first time.
pub proof fn a_block_is_balanced(s: Seq<char>)
    ensures
        match first_block(s) {
            Some(b) => exists|i: int, j: int|
                0 <= i < j <= s.len() && b == #[trigger] s.subrange(i, j) && s[i] == '{' && s[j - 1]
                    == '}' && open_braces(s, i, j) == 0 && (forall|k: int|
                    i < k < j ==> #[trigger] open_braces(s, i, k) > 0) && (forall|k: int|
                    0 <= k < i ==> #[trigger] s[k] != '{'),
            None => forall|i: int, j: int|
                0 <= i < j <= s.len() && s[i] == '{' && (forall|k: int|
                    0 <= k < i ==> #[trigger] s[k] != '{') ==> #[trigger] open_braces(s, i, j) > 0,
        },
{
    lemma_opening(s, 0);
    match opening(s, 0) {
        Some(a) => {
            assert(open_braces(s, a, a) == 0);
            lemma_closing(s, a, a, 0);
            match closing(s, a, 0) {
                Some(b) => {
                    assert(first_block(s) == Some(s.subrange(a, b + 1)));
                },
                None => {
                    assert forall|i: int, j: int|
                        0 <= i < j <= s.len() && s[i] == '{' && (forall|k: int|
                            0 <= k < i ==> #[trigger] s[k] != '{') implies #[trigger] open_braces(
                        s,
                        i,
                        j,
                    ) > 0 by {
                        if i < a {
                            assert(s[i] != '{');
                        }
                        if a < i {
                            assert(s[a] != '{');
                        }
                    }
                },
            }
        },
        None => {
            assert forall|i: int, j: int| 0 <= i < j <= s.len() && s[i] == '{' implies #[trigger] open_braces(
                s,
                i,
                j,
            ) > 0 by {
                assert(s[i] != '{');
            }
        },
    }
}

proof fn lemma_opening(s: Seq<char>, from: int)
    requires
        0 <= from <= s.len(),
    ensures
        match opening(s, from) {
            Some(a) => from <= a < s.len() && s[a] == '{' && forall|k: int|
                from <= k < a ==> #[trigger] s[k] != '{',
            None => forall|k: int| from <= k < s.len() ==> #[trigger] s[k] != '{',
        },
    decreases s.len() - from,
{
    if from < s.len() && s[from] != '{' {
        lemma_opening(s, from + 1);
    }
}

proof fn lemma_closing(s: Seq<char>, a: int, from: int, depth: nat)
    requires
        0 <= a <= from <= s.len(),
        a < s.len(),
        s[a] == '{',
        depth == open_braces(s, a, from),
        from > a ==> depth > 0,
        forall|k: int| a < k <= from ==> #[trigger] open_braces(s, a, k) > 0,
    ensures
        match closing(s, from, depth) {
            Some(b) => {
                &&& a < b < s.len()
                &&& s[b] == '}'
                &&& open_braces(s, a, b + 1) == 0
                &&& forall|k: int| a < k <= b ==> #[trigger] open_braces(s, a, k) > 0
            },
            None => forall|k: int| a < k <= s.len() ==> #[trigger] open_braces(s, a, k) > 0,
        },
    decreases s.len() - from,
{
    if from < s.len() {
        let next = open_braces(s, a, from + 1);
        assert(next == depth + if s[from] == '{' {
            1int
        } else if s[from] == '}' {
            -1int
        } else {
            0int
        });
        if s[from] == '{' {
            lemma_closing(s, a, from + 1, depth + 1);
        } else if s[from] == '}' {
            if depth > 1 {
                lemma_closing(s, a, from + 1, (depth - 1) as nat);
            }
        } else {
            lemma_closing(s, a, from + 1, depth);
        }
    }
}

/// An answer counts whether it stands alone, in backticks or quotes, or with a point behind it.
pub proof fn wrapping_does_not_count(t: Seq<char>, w: char)
    requires
        t.len() > 0,
        w == '`' || w == '.' || w == '"' || w == '\'',
        !crate::text::is_space(t[0]),
        !crate::text::is_space(t.last()),
        !seq!['`', '.', '"', '\''].contains(t[0]),
        !seq!['`', '.', '"', '\''].contains(t.last()),
    ensures
        bare_line(t) == t,
        bare_line(seq![w] + t + seq![w]) == t,
        bare_line(t + seq![w]) == t,
{
    let e = Seq::<char>::empty();
    let set = wrapping();
    assert(set[0] == '`' && set[1] == '.' && set[2] == '"' && set[3] == '\'');
    assert(set.contains(w));
    crate::text::only_whitespace_is_trimmed(e, t, e);
    assert(e + t + e =~= t);
    assert(trim_start_of(t, set) == t);
    assert(trim_end_of(t, set) == t);
    let a = seq![w] + t + seq![w];
    assert(a[0] == w && a.last() == w);
    crate::text::only_whitespace_is_trimmed(e, a, e);
    assert(e + a + e =~= a);
    let b = t + seq![w];
    assert(b[0] == t[0] && b.last() == w);
    assert(a.skip(1) =~= b);
    assert(trim_start_of(b, set) == b);
    reveal_with_fuel(trim_start_of, 3);
    assert(trim_start_of(a, set) == b);
    assert(b.drop_last() =~= t);
    assert(trim_end_of(b, set) == t);
    crate::text::only_whitespace_is_trimmed(e, b, e);
    assert(e + b + e =~= b);
}

} // verus!
