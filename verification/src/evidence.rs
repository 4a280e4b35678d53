//! Runtime evidence mined from router.log: what serving ACTUALLY did
//! during real sessions, as opposed to what trials measured in isolation.
//! First instrument: prompt-cache effectiveness — how many prompt tokens
//! your agent turns reused instead of reprocessing. Built on the observed
//! llama-server log grammar:
//!
//!   `load: spawning server instance with name=MODEL on port PORT`
//!   `[PORT] … | task N | prompt processing, n_tokens = X, progress = …`
//!   `[PORT] … | task N | n_gen =  X, tg = …`
//!   `[PORT] … | task N | stop processing: n_tokens = X, truncated = …`
//!   `[PORT] … cache_reuse is not supported by multimodal, it will be disabled`
//!
//! Per task: total_prompt = release_total − n_gen; reused = total_prompt −
//! prompt_processed. Only tasks where all three figures exist are counted
//! (short probe turns never print n_gen — fine, the monitor targets real
//! sessions).
use crate::num::{
    dec, dec_text, leading_micro, leading_number, parse_leading, parse_leading_micro,
    parse_number16, parse_number32, parse_u16, parse_u32, push_dec, UNIT,
};
use crate::text::{
    chars_of, contains, copy_text, cut_once, find, find_text, has_text, lines, lines_of, opt_text,
    same, split_once, strip_prefix, tail, text_of, trim, trim_start, trim_start_of, trimmed,
    trimmed_start, trimmed_start_of, views, without_prefix,
};
use crate::textmap::{has_key, lookup, put, sorted, TextMap};
use vstd::prelude::*;
use vstd::string::*;

verus! {

#[derive(Debug, Clone, PartialEq)]
pub struct ModelCacheStats {
    pub model: String,
    /// Turns with complete evidence.
    pub turns: u32,
    pub prompt_tokens: u64,
    pub reused_tokens: u64,
    /// Tokens the model GENERATED across those turns (the meter's other
    /// half — prompt tokens are what you feed it, these are what you
    /// paid to produce).
    pub generated_tokens: u64,
    /// llama-server announced cache-reuse disabled (any reason).
    pub reuse_disabled: bool,
    /// The non-multimodal reason: "not supported by this context" — the
    /// model's attention (SWA/hybrid) has a non-shiftable KV cache, so
    /// cache-reuse AND context-shift are off REGARDLESS of vision.
    pub reuse_unsupported_context: bool,
}

impl ModelCacheStats {
    /// The part of the prompt that was served from the cache, in millionths.
    pub fn reuse_fraction(&self) -> (r: u128)
        ensures
            r == if self.prompt_tokens == 0 {
                0
            } else {
                crate::num::round_even(
                    self.reused_tokens as nat * UNIT as nat,
                    self.prompt_tokens as nat,
                )
            },
    {
        if self.prompt_tokens == 0 {
            return 0;
        }
        crate::num::rounded(self.reused_tokens as u128 * UNIT as u128, self.prompt_tokens as u128)
    }
}

// ------------------------------------------------------------------ the grammar

pub const SPAWN: &'static str = "spawning server instance with name=";

/// The number behind `key`, over spaces and equals signs.
pub open spec fn field_of(line: Seq<char>, key: Seq<char>) -> Option<u64> {
    match find(line, key) {
        Some(i) => leading_number(trim_start_of(line.skip(i + key.len()), seq![' ', '='])),
        None => None,
    }
}

/// N from print_timing's `… = 142.88 ms /   286 tokens (…` shape — the
/// count sits behind the first '/'.
pub open spec fn slash_tokens(line: Seq<char>) -> Option<u64> {
    match split_once(line, "/"@) {
        Some(p) => leading_number(trim_start(p.1)),
        None => None,
    }
}

/// The port that a child's line begins with, and what the child said.
pub open spec fn child_line(line: Seq<char>) -> Option<(u32, Seq<char>)> {
    match strip_prefix(line, "["@) {
        Some(rest) => match split_once(rest, "]"@) {
            Some((n, body)) => match parse_u32(n) {
                Some(port) => Some((port, trim_start(body))),
                None => None,
            },
            None => None,
        },
        None => None,
    }
}

/// The name and the text of the port that a spawn line states.
pub open spec fn spawn_parts(line: Seq<char>) -> Option<(Seq<char>, Seq<char>)> {
    match find(line, SPAWN@) {
        Some(i) => match split_once(line.skip(i + SPAWN@.len()), " on port "@) {
            Some((name, port)) => Some((trim(name), trim(port))),
            None => None,
        },
        None => None,
    }
}

fn field_u64(line: &[char], key: &str) -> (r: Option<u64>)
    ensures
        r == field_of(line@, key@),
{
    let k = chars_of(key);
    let set: [char; 2] = [' ', '='];
    assert(set@ =~= seq![' ', '=']);
    assert(line@.len() == line.len());
    match find_text(line, &k) {
        Some(i) => parse_leading(trimmed_start_of(tail(line, i + k.len()), &set)),
        None => None,
    }
}

fn tokens_after_slash(line: &[char]) -> (r: Option<u64>)
    ensures
        r == slash_tokens(line@),
{
    match cut_once(line, "/") {
        Some(p) => parse_leading(trimmed_start(p.1)),
        None => None,
    }
}

fn port_prefix<'a>(line: &'a [char]) -> (r: Option<(u32, &'a [char])>)
    ensures
        match (r, child_line(line@)) {
            (Some(a), Some(b)) => a.0 == b.0 && a.1@ == b.1,
            (None, None) => true,
            _ => false,
        },
{
    match without_prefix(line, "[") {
        Some(rest) => match cut_once(rest, "]") {
            Some((n, body)) => match parse_number32(n) {
                Some(port) => Some((port, trimmed_start(body))),
                None => None,
            },
            None => None,
        },
        None => None,
    }
}

fn spawn_line<'a>(line: &'a [char]) -> (r: Option<(&'a [char], &'a [char])>)
    ensures
        match (r, spawn_parts(line@)) {
            (Some(a), Some(b)) => a.0@ == b.0 && a.1@ == b.1,
            (None, None) => true,
            _ => false,
        },
{
    let k = chars_of(SPAWN);
    assert(line@.len() == line.len());
    match find_text(line, &k) {
        Some(i) => match cut_once(tail(line, i + k.len()), " on port ") {
            Some((name, port)) => Some((trimmed(name), trimmed(port))),
            None => None,
        },
        None => None,
    }
}

// --------------------------------------------------------------- the child port

/// The port of the model's last spawn among the lines.
pub open spec fn last_port(l: Seq<Seq<char>>, model: Seq<char>) -> Option<u16>
    decreases l.len(),
{
    if l.len() == 0 {
        None
    } else {
        let before = last_port(l.drop_last(), model);
        match spawn_parts(l.last()) {
            Some((name, port)) => if name == model && parse_u16(port) is Some {
                parse_u16(port)
            } else {
                before
            },
            None => before,
        }
    }
}

/// The port of the child server instance currently serving `model`,
/// mined from the router's spawn lines (the LAST one wins — the router
/// respawns on every load and the log keeps history). Slot save/restore
/// must talk to the child directly: the router proxies chat by the
/// body's model field, but `/slots` carries no model.
pub fn child_port(log: &str, model: &str) -> (r: Option<u16>)
    ensures
        r == last_port(lines(log@), model@),
{
    let c = chars_of(log);
    let l = lines_of(&c);
    let want = chars_of(model);
    let ghost all = views(l@);
    let mut port: Option<u16> = None;
    let mut i: usize = 0;
    while i < l.len()
        invariant
            i <= l.len(),
            all == views(l@),
            want@ == model@,
            port == last_port(all.take(i as int), model@),
        decreases l.len() - i,
    {
        let ghost sofar = all.take(i + 1);
        assert(sofar.drop_last() =~= all.take(i as int));
        assert(sofar.last() == l@[i as int]@);
        if let Some((name, p)) = spawn_line(l[i]) {
            if same(name, &want) {
                if let Some(n) = parse_number16(p) {
                    port = Some(n);
                }
            }
        }
        i += 1;
    }
    assert(all.take(i as int) =~= all);
    port
}

// -------------------------------------------------------------------- the tasks

/// A port's current child: the model it serves, and how many it had.
pub struct PortView {
    pub port: u32,
    pub model: Seq<char>,
    pub spawns: nat,
}

/// What the log says of one task. Ports get REUSED within one router
/// lifetime, and a new child restarts task ids at 0 — so tasks are keyed by
/// port, spawn and task, and bound to the model active WHEN FIRST SEEN, not
/// the port's final tenant.
pub struct TaskView {
    pub port: u32,
    pub spawn: nat,
    pub task: u64,
    pub model: Option<Seq<char>>,
    pub prompt: Option<u64>,
    pub generated: Option<u64>,
    pub release: Option<u64>,
}

/// What the lines read so far say.
pub struct LogView {
    pub ports: Seq<PortView>,
    /// Ports that announced cache reuse off, in increasing order.
    pub disabled: Seq<u32>,
    /// Those that named the context as the reason.
    pub context: Seq<u32>,
    /// The tasks in the order in which they were first seen.
    pub tasks: Seq<TaskView>,
}

pub open spec fn port_index(ports: Seq<PortView>, port: u32, from: int) -> Option<int>
    decreases ports.len() - from,
{
    if from < 0 || from >= ports.len() {
        None
    } else if ports[from].port == port {
        Some(from)
    } else {
        port_index(ports, port, from + 1)
    }
}

/// The model that a port serves.
pub open spec fn model_on(ports: Seq<PortView>, port: u32) -> Option<Seq<char>> {
    match port_index(ports, port, 0) {
        Some(i) => Some(ports[i].model),
        None => None,
    }
}

/// How many children a port had.
pub open spec fn spawns_on(ports: Seq<PortView>, port: u32) -> nat {
    match port_index(ports, port, 0) {
        Some(i) => ports[i].spawns,
        None => 0,
    }
}

/// A new child on a port.
pub open spec fn spawned(ports: Seq<PortView>, port: u32, model: Seq<char>) -> Seq<PortView> {
    match port_index(ports, port, 0) {
        Some(i) => ports.update(i, PortView { port, model, spawns: ports[i].spawns + 1 }),
        None => ports.push(PortView { port, model, spawns: 1 }),
    }
}

/// The set with one more number, in increasing order.
pub open spec fn with_port(s: Seq<u32>, p: u32) -> Seq<u32>
    decreases s.len(),
{
    if s.len() == 0 {
        seq![p]
    } else if s.last() == p {
        s
    } else if s.last() < p {
        s.push(p)
    } else {
        with_port(s.drop_last(), p).push(s.last())
    }
}

/// The last task with the key before `upto`.
pub open spec fn task_index(t: Seq<TaskView>, port: u32, spawn: nat, task: u64, upto: int) -> Option<
    int,
>
    decreases upto,
{
    if upto <= 0 || upto > t.len() {
        None
    } else if t[upto - 1].port == port && t[upto - 1].spawn == spawn && t[upto - 1].task == task {
        Some(upto - 1)
    } else {
        task_index(t, port, spawn, task, upto - 1)
    }
}

/// The larger of two numbers, where one that is there is larger than none.
pub open spec fn larger(a: Option<u64>, b: Option<u64>) -> Option<u64> {
    match (a, b) {
        (Some(x), Some(y)) => if x >= y {
            a
        } else {
            b
        },
        (Some(_), None) => a,
        _ => b,
    }
}

/// What a child's line adds to a task. Two dialects: current builds put
/// per-turn truth in print_timing's "/ N tokens".
pub open spec fn task_with(t: TaskView, body: Seq<char>) -> TaskView {
    if contains(body, "prompt eval time ="@) {
        TaskView { prompt: larger(t.prompt, slash_tokens(body)), ..t }
    } else if contains(body, " eval time ="@) && !contains(body, "prompt"@) {
        TaskView { generated: larger(t.generated, slash_tokens(body)), ..t }
    } else if contains(body, "prompt processing, n_tokens ="@) {
        TaskView { prompt: larger(t.prompt, field_of(body, "n_tokens"@)), ..t }
    } else if contains(body, "| n_gen ="@) || (contains(body, "| task"@) && contains(
        body,
        " n_gen ="@,
    )) {
        TaskView { generated: larger(t.generated, field_of(body, "n_gen"@)), ..t }
    } else if contains(body, "stop processing: n_tokens ="@) {
        TaskView { release: field_of(body, "n_tokens"@), ..t }
    } else {
        t
    }
}

/// The tasks after a child's line on one of them.
pub open spec fn tasks_with(s: LogView, port: u32, task: u64, body: Seq<char>) -> Seq<TaskView> {
    let spawn = spawns_on(s.ports, port);
    let model = model_on(s.ports, port);
    match task_index(s.tasks, port, spawn, task, s.tasks.len() as int) {
        Some(i) => {
            let t = s.tasks[i];
            let bound = TaskView {
                model: if t.model is None {
                    model
                } else {
                    t.model
                },
                ..t
            };
            s.tasks.update(i, task_with(bound, body))
        },
        None => s.tasks.push(
            task_with(
                TaskView {
                    port,
                    spawn,
                    task,
                    model,
                    prompt: None,
                    generated: None,
                    release: None,
                },
                body,
            ),
        ),
    }
}

/// What one more line says.
pub open spec fn line_read(s: LogView, line: Seq<char>) -> LogView {
    if find(line, SPAWN@) is Some {
        match spawn_parts(line) {
            Some((name, p)) => match parse_u32(p) {
                Some(port) => LogView { ports: spawned(s.ports, port, name), ..s },
                None => s,
            },
            None => s,
        }
    } else {
        match child_line(line) {
            Some((port, body)) => if contains(body, "cache_reuse is not supported"@) {
                LogView {
                    disabled: with_port(s.disabled, port),
                    context: if contains(body, "not supported by this context"@) {
                        with_port(s.context, port)
                    } else {
                        s.context
                    },
                    ..s
                }
            } else {
                match field_of(body, "task"@) {
                    Some(task) => LogView { tasks: tasks_with(s, port, task, body), ..s },
                    None => s,
                }
            },
            None => s,
        }
    }
}

pub open spec fn log_read(l: Seq<Seq<char>>) -> LogView
    decreases l.len(),
{
    if l.len() == 0 {
        LogView {
            ports: Seq::empty(),
            disabled: Seq::empty(),
            context: Seq::empty(),
            tasks: Seq::empty(),
        }
    } else {
        line_read(log_read(l.drop_last()), l.last())
    }
}

struct Port {
    port: u32,
    model: String,
    spawns: u64,
}

struct Task {
    port: u32,
    spawn: u64,
    task: u64,
    model: Option<String>,
    prompt: Option<u64>,
    generated: Option<u64>,
    release: Option<u64>,
}

struct Log {
    ports: Vec<Port>,
    disabled: Vec<u32>,
    context: Vec<u32>,
    tasks: Vec<Task>,
}

impl View for Port {
    type V = PortView;

    closed spec fn view(&self) -> PortView {
        PortView { port: self.port, model: self.model@, spawns: self.spawns as nat }
    }
}

impl View for Task {
    type V = TaskView;

    closed spec fn view(&self) -> TaskView {
        TaskView {
            port: self.port,
            spawn: self.spawn as nat,
            task: self.task,
            model: opt_text(self.model),
            prompt: self.prompt,
            generated: self.generated,
            release: self.release,
        }
    }
}

spec fn port_views(v: Seq<Port>) -> Seq<PortView> {
    Seq::new(v.len(), |i: int| v[i]@)
}

spec fn task_views(v: Seq<Task>) -> Seq<TaskView> {
    Seq::new(v.len(), |i: int| v[i]@)
}

impl View for Log {
    type V = LogView;

    closed spec fn view(&self) -> LogView {
        LogView {
            ports: port_views(self.ports@),
            disabled: self.disabled@,
            context: self.context@,
            tasks: task_views(self.tasks@),
        }
    }
}

fn find_port(ports: &[Port], port: u32) -> (r: Option<usize>)
    ensures
        match r {
            Some(i) => port_index(port_views(ports@), port, 0) == Some(i as int) && i
                < ports.len(),
            None => port_index(port_views(ports@), port, 0) is None,
        },
{
    let mut i: usize = 0;
    while i < ports.len()
        invariant
            i <= ports.len(),
            port_index(port_views(ports@), port, 0) == port_index(
                port_views(ports@),
                port,
                i as int,
            ),
        decreases ports.len() - i,
    {
        if ports[i].port == port {
            return Some(i);
        }
        i += 1;
    }
    None
}

fn find_task(tasks: &[Task], port: u32, spawn: u64, task: u64) -> (r: Option<usize>)
    ensures
        match r {
            Some(i) => task_index(
                task_views(tasks@),
                port,
                spawn as nat,
                task,
                tasks@.len() as int,
            ) == Some(i as int) && i < tasks.len(),
            None => task_index(
                task_views(tasks@),
                port,
                spawn as nat,
                task,
                tasks@.len() as int,
            ) is None,
        },
{
    let mut i: usize = tasks.len();
    while i > 0
        invariant
            i <= tasks.len(),
            task_index(task_views(tasks@), port, spawn as nat, task, tasks@.len() as int)
                == task_index(task_views(tasks@), port, spawn as nat, task, i as int),
        decreases i,
    {
        let t = &tasks[i - 1];
        if t.port == port && t.spawn == spawn && t.task == task {
            return Some(i - 1);
        }
        i -= 1;
    }
    None
}

fn add_port(v: &mut Vec<u32>, p: u32)
    ensures
        final(v)@ == with_port(old(v)@, p),
    decreases old(v).len(),
{
    if v.len() == 0 {
        v.push(p);
        assert(v@ =~= seq![p]);
        return;
    }
    let last = v[v.len() - 1];
    if last == p {
        return;
    }
    if last < p {
        v.push(p);
        return;
    }
    let ghost before = v@;
    let _ = v.pop();
    assert(v@ =~= before.drop_last());
    add_port(v, p);
    v.push(last);
}

fn max_of(a: Option<u64>, b: Option<u64>) -> (r: Option<u64>)
    ensures
        r == larger(a, b),
{
    match (a, b) {
        (Some(x), Some(y)) => if x >= y {
            a
        } else {
            b
        },
        (Some(_), None) => a,
        _ => b,
    }
}

fn read_task(t: Task, body: &[char]) -> (r: Task)
    ensures
        r@ == task_with(t@, body@),
{
    let mut t = t;
    if has_text(body, "prompt eval time =") {
        t.prompt = max_of(t.prompt, tokens_after_slash(body));
    } else if has_text(body, " eval time =") && !has_text(body, "prompt") {
        t.generated = max_of(t.generated, tokens_after_slash(body));
    } else if has_text(body, "prompt processing, n_tokens =") {
        t.prompt = max_of(t.prompt, field_u64(body, "n_tokens"));
    } else if has_text(body, "| n_gen =") || (has_text(body, "| task") && has_text(
        body,
        " n_gen =",
    )) {
        t.generated = max_of(t.generated, field_u64(body, "n_gen"));
    } else if has_text(body, "stop processing: n_tokens =") {
        t.release = field_u64(body, "n_tokens");
    }
    t
}

/// Every port had at most `n` children.
spec fn few_spawns(ports: Seq<Port>, n: int) -> bool {
    forall|i: int| 0 <= i < ports.len() ==> (#[trigger] ports[i]).spawns <= n
}

fn read_spawn(log: &mut Log, port: u32, name: &[char], n: usize)
    requires
        few_spawns(old(log).ports@, n as int),
        n < u64::MAX,
    ensures
        final(log)@ == (LogView { ports: spawned(old(log)@.ports, port, name@), ..old(log)@ }),
        few_spawns(final(log).ports@, n + 1),
{
    let ghost before = *log;
    let model = text_of(name);
    match find_port(&log.ports, port) {
        Some(i) => {
            let spawns = log.ports[i].spawns + 1;
            let p = Port { port, model, spawns };
            let ghost np = p@;
            log.ports.set(i, p);
            assert(port_views(log.ports@) =~= port_views(before.ports@).update(i as int, np));
        },
        None => {
            let p = Port { port, model, spawns: 1 };
            let ghost np = p@;
            log.ports.push(p);
            assert(port_views(log.ports@) =~= port_views(before.ports@).push(np));
        },
    }
    assert(log@ == (LogView { ports: spawned(before@.ports, port, name@), ..before@ }));
    assert forall|i: int| 0 <= i < log.ports@.len() implies (#[trigger] log.ports@[i]).spawns <= n
        + 1 by {
        if i < before.ports@.len() {
            assert(before.ports@[i].spawns <= n);
        }
    }
}

fn read_task_line(log: &mut Log, port: u32, task: u64, body: &[char])
    ensures
        final(log)@ == (LogView { tasks: tasks_with(old(log)@, port, task, body@), ..old(log)@ }),
        final(log).ports@ == old(log).ports@,
{
    let ghost before = *log;
    let (model, spawn): (Option<String>, u64) = match find_port(&log.ports, port) {
        Some(i) => (Some(log.ports[i].model.clone()), log.ports[i].spawns),
        None => (None, 0),
    };
    assert(opt_text(model) == model_on(before@.ports, port));
    assert(spawn as nat == spawns_on(before@.ports, port));
    match find_task(&log.tasks, port, spawn, task) {
        Some(i) => {
            let old_task = log.tasks.remove(i);
            assert(old_task@ == before@.tasks[i as int]);
            let mut t = old_task;
            if t.model.is_none() {
                t.model = model;
            }
            let ghost bound = t@;
            let t = read_task(t, body);
            let ghost nt = t@;
            log.tasks.insert(i, t);
            assert(task_views(log.tasks@) =~= task_views(before.tasks@).update(i as int, nt));
        },
        None => {
            let t = read_task(
                Task { port, spawn, task, model, prompt: None, generated: None, release: None },
                body,
            );
            let ghost nt = t@;
            log.tasks.push(t);
            assert(task_views(log.tasks@) =~= task_views(before.tasks@).push(nt));
        },
    }
}

fn read_line(log: &mut Log, line: &[char], n: usize)
    requires
        few_spawns(old(log).ports@, n as int),
        n < u64::MAX,
    ensures
        final(log)@ == line_read(old(log)@, line@),
        few_spawns(final(log).ports@, n + 1),
{
    let ghost before = *log;
    let marker = chars_of(SPAWN);
    if find_text(line, &marker).is_some() {
        if let Some((name, p)) = spawn_line(line) {
            if let Some(port) = parse_number32(p) {
                read_spawn(log, port, name, n);
            }
        }
        return;
    }
    if let Some((port, body)) = port_prefix(line) {
        if has_text(body, "cache_reuse is not supported") {
            add_port(&mut log.disabled, port);
            if has_text(body, "not supported by this context") {
                add_port(&mut log.context, port);
            }
            return;
        }
        if let Some(task) = field_u64(body, "task") {
            read_task_line(log, port, task, body);
        }
    }
}

fn read_log(log: &str) -> (r: Log)
    ensures
        r@ == log_read(lines(log@)),
{
    let c = chars_of(log);
    let l = lines_of(&c);
    let ghost all = views(l@);
    let mut state = Log {
        ports: Vec::new(),
        disabled: Vec::new(),
        context: Vec::new(),
        tasks: Vec::new(),
    };
    assert(port_views(state.ports@) =~= Seq::empty());
    assert(task_views(state.tasks@) =~= Seq::empty());
    assert(state.disabled@ =~= Seq::empty());
    assert(state.context@ =~= Seq::empty());
    let mut i: usize = 0;
    while i < l.len()
        invariant
            i <= l.len(),
            all == views(l@),
            few_spawns(state.ports@, i as int),
            state@ == log_read(all.take(i as int)),
        decreases l.len() - i,
    {
        let ghost sofar = all.take(i + 1);
        assert(sofar.drop_last() =~= all.take(i as int));
        assert(sofar.last() == l@[i as int]@);
        read_line(&mut state, l[i], i);
        i += 1;
    }
    assert(all.take(i as int) =~= all);
    state
}

// ------------------------------------------------------------------ the totals

/// What is counted of one model. Totals stop at the largest number that their
/// type holds.
#[derive(Debug, Clone, Copy)]
pub struct Counts {
    pub turns: u32,
    pub prompt: u64,
    pub reused: u64,
    pub generated: u64,
    pub disabled: bool,
    pub context: bool,
}

pub open spec fn nothing_counted() -> Counts {
    Counts { turns: 0, prompt: 0, reused: 0, generated: 0, disabled: false, context: false }
}

/// The sum, or the largest number.
pub open spec fn capped(a: u64, b: u64) -> u64 {
    if a + b > u64::MAX {
        u64::MAX
    } else {
        (a + b) as u64
    }
}

/// The prompt of a finished turn: what was released, less what was generated.
pub open spec fn turn_prompt(t: TaskView) -> nat {
    if t.release->0 > t.generated->0 {
        (t.release->0 - t.generated->0) as nat
    } else {
        0
    }
}

/// The part of the prompt that was not processed again.
pub open spec fn turn_reused(t: TaskView) -> nat {
    if turn_prompt(t) > t.prompt->0 {
        (turn_prompt(t) - t.prompt->0) as nat
    } else {
        0
    }
}

/// All three figures of a turn are there, and it had a prompt.
pub open spec fn turn_counts(t: TaskView) -> bool {
    t.prompt is Some && t.generated is Some && t.release is Some && turn_prompt(t) > 0
}

/// The model that a task is counted for: the one it was bound to, or the
/// port's for tasks whose lines preceded any spawn line.
pub open spec fn task_model(t: TaskView, ports: Seq<PortView>) -> Option<Seq<char>> {
    match t.model {
        Some(m) => Some(m),
        None => model_on(ports, t.port),
    }
}

pub open spec fn counts_of(per: Seq<(Seq<char>, Counts)>, model: Seq<char>) -> Counts {
    match lookup(per, model) {
        Some(c) => c,
        None => nothing_counted(),
    }
}

pub open spec fn with_turn(c: Counts, t: TaskView) -> Counts {
    Counts {
        turns: if c.turns == u32::MAX {
            u32::MAX
        } else {
            (c.turns + 1) as u32
        },
        prompt: capped(c.prompt, turn_prompt(t) as u64),
        reused: capped(c.reused, turn_reused(t) as u64),
        generated: capped(c.generated, t.generated->0),
        ..c
    }
}

/// The turns counted per model.
pub open spec fn turns_of(tasks: Seq<TaskView>, ports: Seq<PortView>) -> Seq<(Seq<char>, Counts)>
    decreases tasks.len(),
{
    if tasks.len() == 0 {
        Seq::empty()
    } else {
        let per = turns_of(tasks.drop_last(), ports);
        let t = tasks.last();
        match task_model(t, ports) {
            Some(m) => if turn_counts(t) {
                put(per, m, with_turn(counts_of(per, m), t))
            } else {
                per
            },
            None => per,
        }
    }
}

/// The models that announced cache reuse off are flagged.
pub open spec fn flagged(
    per: Seq<(Seq<char>, Counts)>,
    disabled: Seq<u32>,
    context: Seq<u32>,
    ports: Seq<PortView>,
) -> Seq<(Seq<char>, Counts)>
    decreases disabled.len(),
{
    if disabled.len() == 0 {
        per
    } else {
        let before = flagged(per, disabled.drop_last(), context, ports);
        let port = disabled.last();
        match model_on(ports, port) {
            Some(m) => match lookup(before, m) {
                Some(c) => put(
                    before,
                    m,
                    Counts { disabled: true, context: c.context || context.contains(port), ..c },
                ),
                None => before,
            },
            None => before,
        }
    }
}

/// Those that had no complete turns yet are surfaced too.
pub open spec fn surfaced(
    per: Seq<(Seq<char>, Counts)>,
    disabled: Seq<u32>,
    context: Seq<u32>,
    ports: Seq<PortView>,
) -> Seq<(Seq<char>, Counts)>
    decreases disabled.len(),
{
    if disabled.len() == 0 {
        per
    } else {
        let before = surfaced(per, disabled.drop_last(), context, ports);
        let port = disabled.last();
        match model_on(ports, port) {
            Some(m) => if has_key(before, m) {
                before
            } else {
                put(
                    before,
                    m,
                    Counts { disabled: true, context: context.contains(port), ..nothing_counted() },
                )
            },
            None => before,
        }
    }
}

/// Everything that is counted per model.
pub open spec fn counted(s: LogView) -> Seq<(Seq<char>, Counts)> {
    let turns = turns_of(s.tasks, s.ports);
    let flags = flagged(turns, s.disabled, s.context, s.ports);
    surfaced(flags, s.disabled, s.context, s.ports)
}

pub struct StatsView {
    pub model: Seq<char>,
    pub turns: u32,
    pub prompt_tokens: u64,
    pub reused_tokens: u64,
    pub generated_tokens: u64,
    pub reuse_disabled: bool,
    pub reuse_unsupported_context: bool,
}

impl View for ModelCacheStats {
    type V = StatsView;

    open spec fn view(&self) -> StatsView {
        StatsView {
            model: self.model@,
            turns: self.turns,
            prompt_tokens: self.prompt_tokens,
            reused_tokens: self.reused_tokens,
            generated_tokens: self.generated_tokens,
            reuse_disabled: self.reuse_disabled,
            reuse_unsupported_context: self.reuse_unsupported_context,
        }
    }
}

pub open spec fn stats_views(v: Seq<ModelCacheStats>) -> Seq<StatsView> {
    Seq::new(v.len(), |i: int| v[i]@)
}

/// The statistics of the models that have any, in the order of their names.
pub open spec fn stats_of(per: Seq<(Seq<char>, Counts)>) -> Seq<StatsView>
    decreases per.len(),
{
    if per.len() == 0 {
        Seq::empty()
    } else {
        let before = stats_of(per.drop_last());
        let (model, c) = per.last();
        if c.turns > 0 || c.disabled {
            before.push(
                StatsView {
                    model,
                    turns: c.turns,
                    prompt_tokens: c.prompt,
                    reused_tokens: c.reused,
                    generated_tokens: c.generated,
                    reuse_disabled: c.disabled,
                    reuse_unsupported_context: c.context,
                },
            )
        } else {
            before
        }
    }
}

/// What the whole log says of cache reuse.
pub open spec fn effectiveness(log: Seq<char>) -> Seq<StatsView> {
    stats_of(counted(log_read(lines(log))))
}

fn add_capped(a: u64, b: u64) -> (r: u64)
    ensures
        r == capped(a, b),
{
    match a.checked_add(b) {
        Some(s) => s,
        None => u64::MAX,
    }
}

fn port_model(ports: &[Port], port: u32) -> (r: Option<&String>)
    ensures
        match (r, model_on(port_views(ports@), port)) {
            (Some(a), Some(b)) => a@ == b,
            (None, None) => true,
            _ => false,
        },
{
    match find_port(ports, port) {
        Some(i) => Some(&ports[i].model),
        None => None,
    }
}

fn count_turns(log: &Log) -> (r: TextMap<Counts>)
    ensures
        r@ == turns_of(log@.tasks, log@.ports),
{
    let mut per: TextMap<Counts> = TextMap::new();
    let ghost tasks = log@.tasks;
    let ghost ports = log@.ports;
    let mut i: usize = 0;
    assert(per@ =~= turns_of(tasks.take(0), ports));
    while i < log.tasks.len()
        invariant
            i <= log.tasks.len(),
            tasks == log@.tasks,
            ports == log@.ports,
            tasks.len() == log.tasks@.len(),
            per@ == turns_of(tasks.take(i as int), ports),
        decreases log.tasks.len() - i,
    {
        let ghost sofar = tasks.take(i + 1);
        assert(sofar.drop_last() =~= tasks.take(i as int));
        assert(sofar.last() == log.tasks@[i as int]@);
        let t = &log.tasks[i];
        let bound: Option<&String> = match &t.model {
            Some(m) => Some(m),
            None => port_model(&log.ports, t.port),
        };
        if let Some(model) = bound {
            if let (Some(prompt), Some(generated), Some(release)) = (
                t.prompt,
                t.generated,
                t.release,
            ) {
                let total = release.saturating_sub(generated);
                if total > 0 {
                    let reused = total.saturating_sub(prompt);
                    let c: Counts = match per.get(model.as_str()) {
                        Some(c) => *c,
                        None => Counts {
                            turns: 0,
                            prompt: 0,
                            reused: 0,
                            generated: 0,
                            disabled: false,
                            context: false,
                        },
                    };
                    let n = Counts {
                        turns: if c.turns == u32::MAX {
                            u32::MAX
                        } else {
                            c.turns + 1
                        },
                        prompt: add_capped(c.prompt, total),
                        reused: add_capped(c.reused, reused),
                        generated: add_capped(c.generated, generated),
                        disabled: c.disabled,
                        context: c.context,
                    };
                    per.insert(model.clone(), n);
                }
            }
        }
        i += 1;
    }
    assert(tasks.take(i as int) =~= tasks);
    per
}

fn holds_port(v: &[u32], p: u32) -> (r: bool)
    ensures
        r == v@.contains(p),
{
    let mut i: usize = 0;
    while i < v.len()
        invariant
            i <= v.len(),
            forall|k: int| 0 <= k < i ==> v@[k] != p,
        decreases v.len() - i,
    {
        if v[i] == p {
            assert(v@[i as int] == p);
            return true;
        }
        i += 1;
    }
    false
}

fn flag_disabled(log: &Log, per: &mut TextMap<Counts>)
    ensures
        final(per)@ == flagged(old(per)@, log@.disabled, log@.context, log@.ports),
{
    let ghost start = per@;
    let ghost disabled = log@.disabled;
    let mut i: usize = 0;
    while i < log.disabled.len()
        invariant
            i <= log.disabled.len(),
            disabled == log@.disabled,
            disabled == log.disabled@,
            per@ == flagged(start, disabled.take(i as int), log@.context, log@.ports),
        decreases log.disabled.len() - i,
    {
        let ghost sofar = disabled.take(i + 1);
        assert(sofar.drop_last() =~= disabled.take(i as int));
        let port = log.disabled[i];
        if let Some(model) = port_model(&log.ports, port) {
            let known: Option<Counts> = match per.get(model.as_str()) {
                Some(c) => Some(*c),
                None => None,
            };
            if let Some(c) = known {
                let n = Counts {
                    disabled: true,
                    context: c.context || holds_port(&log.context, port),
                    turns: c.turns,
                    prompt: c.prompt,
                    reused: c.reused,
                    generated: c.generated,
                };
                per.insert(model.clone(), n);
            }
        }
        i += 1;
    }
    assert(disabled.take(i as int) =~= disabled);
}

fn surface_disabled(log: &Log, per: &mut TextMap<Counts>)
    ensures
        final(per)@ == surfaced(old(per)@, log@.disabled, log@.context, log@.ports),
{
    let ghost start = per@;
    let ghost disabled = log@.disabled;
    let mut i: usize = 0;
    while i < log.disabled.len()
        invariant
            i <= log.disabled.len(),
            disabled == log@.disabled,
            disabled == log.disabled@,
            per@ == surfaced(start, disabled.take(i as int), log@.context, log@.ports),
        decreases log.disabled.len() - i,
    {
        let ghost sofar = disabled.take(i + 1);
        assert(sofar.drop_last() =~= disabled.take(i as int));
        let port = log.disabled[i];
        if let Some(model) = port_model(&log.ports, port) {
            if !per.contains_key(model.as_str()) {
                let n = Counts {
                    disabled: true,
                    context: holds_port(&log.context, port),
                    turns: 0,
                    prompt: 0,
                    reused: 0,
                    generated: 0,
                };
                per.insert(model.clone(), n);
            }
        }
        i += 1;
    }
    assert(disabled.take(i as int) =~= disabled);
}

/// Mine the whole log. Later instances of a port override earlier ones for
/// the port→model mapping (ports get reused across restarts within one log).
pub fn cache_effectiveness(log: &str) -> (r: Vec<ModelCacheStats>)
    ensures
        stats_views(r@) == effectiveness(log@),
{
    let state = read_log(log);
    let mut per = count_turns(&state);
    flag_disabled(&state, &mut per);
    surface_disabled(&state, &mut per);
    let ghost all = per@;
    let mut out: Vec<ModelCacheStats> = Vec::new();
    let mut i: usize = 0;
    assert(stats_views(out@) =~= stats_of(all.take(0)));
    while i < per.len()
        invariant
            i <= per@.len(),
            all == per@,
            stats_views(out@) == stats_of(all.take(i as int)),
        decreases per@.len() - i,
    {
        let ghost sofar = all.take(i + 1);
        assert(sofar.drop_last() =~= all.take(i as int));
        assert(sofar.last() == all[i as int]);
        let c = *per.value_at(i);
        if c.turns > 0 || c.disabled {
            let st = ModelCacheStats {
                model: per.key_at(i).clone(),
                turns: c.turns,
                prompt_tokens: c.prompt,
                reused_tokens: c.reused,
                generated_tokens: c.generated,
                reuse_disabled: c.disabled,
                reuse_unsupported_context: c.context,
            };
            let ghost before = stats_views(out@);
            out.push(st);
            assert(stats_views(out@) =~= before.push(st@));
        }
        i += 1;
    }
    assert(all.take(i as int) =~= all);
    out
}

// ----------------------------------------------------------------- live activity

/// What the router was doing at the end of the log tail — the live
/// activity indicator's brain. Pure over the tail; the poller supplies
/// freshness (a hint is only shown while the log is actually growing).
#[derive(Debug, Clone, Copy, PartialEq, Eq, Structural)]
pub enum Activity {
    /// A turn was accepted; nothing streamed yet.
    TurnStarted,
    /// Long-prompt processing, percent complete in millionths.
    Prefilling(u128),
    /// A turn just completed at this generation speed, in millionths.
    TurnFinished { tps: u128 },
}

/// How far a prompt is processed, where the line says so.
pub open spec fn progress_on(line: Seq<char>) -> Option<int> {
    if contains(line, "prompt processing, n_tokens"@) {
        match find(line, "progress = "@) {
            Some(i) => leading_micro(line.skip(i + "progress = "@.len())),
            None => None,
        }
    } else {
        None
    }
}

/// The line tells that a turn was accepted.
pub open spec fn starts_turn(line: Seq<char>) -> bool {
    contains(line, "launch_slot"@) && contains(line, "processing task"@)
}

/// The generation speed of a finished turn, where the line says so: the
/// number behind the last comma.
pub open spec fn speed_on(line: Seq<char>) -> Option<int> {
    if contains(line, "| "@) && contains(line, " eval time ="@) && !contains(line, "prompt"@) {
        match crate::text::rfind(line, ","@) {
            Some(i) => leading_micro(trim_start(line.skip(i + 1))),
            None => None,
        }
    } else {
        None
    }
}

/// What one line tells of the activity.
pub open spec fn activity_on(line: Seq<char>) -> Option<Activity> {
    if progress_on(line) is Some {
        Some(Activity::Prefilling((progress_on(line)->0 * 100) as u128))
    } else if starts_turn(line) {
        Some(Activity::TurnStarted)
    } else {
        match speed_on(line) {
            Some(v) => Some(Activity::TurnFinished { tps: v as u128 }),
            None => None,
        }
    }
}

/// What the last line that tells anything tells.
pub open spec fn last_activity(l: Seq<Seq<char>>) -> Option<Activity>
    decreases l.len(),
{
    if l.len() == 0 {
        None
    } else {
        match activity_on(l.last()) {
            Some(a) => Some(a),
            None => last_activity(l.drop_last()),
        }
    }
}

fn line_activity(line: &[char]) -> (r: Option<Activity>)
    ensures
        r == activity_on(line@),
{
    let key = chars_of("progress = ");
    assert(line@.len() == line.len());
    if has_text(line, "prompt processing, n_tokens") {
        if let Some(i) = find_text(line, &key) {
            if let Some(p) = parse_leading_micro(tail(line, i + key.len())) {
                return Some(Activity::Prefilling(p * 100));
            }
        }
    }
    if has_text(line, "launch_slot") && has_text(line, "processing task") {
        return Some(Activity::TurnStarted);
    }
    if has_text(line, "| ") && has_text(line, " eval time =") && !has_text(line, "prompt") {
        let comma = chars_of(",");
        proof {
            reveal_strlit(",");
        }
        if let Some(i) = crate::text::rfind_text(line, &comma) {
            if let Some(tps) = parse_leading_micro(trimmed_start(tail(line, i + 1))) {
                return Some(Activity::TurnFinished { tps });
            }
        }
    }
    None
}

/// What the last line of the tail that tells anything tells; completions
/// beat the prefill progress that preceded them.
pub fn activity_hint(log_tail: &str) -> (r: Option<Activity>)
    ensures
        r == last_activity(lines(log_tail@)),
{
    let c = chars_of(log_tail);
    let l = lines_of(&c);
    let ghost all = views(l@);
    let mut i: usize = l.len();
    assert(all.take(i as int) =~= all);
    while i > 0
        invariant
            i <= l.len(),
            all == views(l@),
            all == lines(log_tail@),
            last_activity(all) == last_activity(all.take(i as int)),
        decreases i,
    {
        let ghost sofar = all.take(i as int);
        assert(sofar.drop_last() =~= all.take(i - 1));
        assert(sofar.last() == l@[i - 1]@);
        let a = line_activity(l[i - 1]);
        if a.is_some() {
            return a;
        }
        i -= 1;
    }
    None
}

// --------------------------------------------------------------------- topology

/// The first of the most used models among the first `n`, but for `skip`; at
/// least three turns count as use.
pub open spec fn most_used(used: Seq<(String, u32, u64)>, skip: Option<int>, n: nat) -> Option<int>
    decreases n,
{
    if n == 0 || n > used.len() {
        None
    } else {
        let best = most_used(used, skip, (n - 1) as nat);
        let i = n - 1;
        if used[i].1 < 3 || Some(i) == skip {
            best
        } else {
            match best {
                Some(b) => if used[i].1 > used[b].1 {
                    Some(i)
                } else {
                    best
                },
                None => Some(i),
            }
        }
    }
}

/// The MiB that two files take together.
pub open spec fn pair_mib(a: u64, b: u64) -> nat {
    ((a + b) / 1_048_576) as nat
}

pub const KEEPS_BOTH: &'static str = " MiB). Raising Max loaded \
         models to 2 (Settings) keeps both resident — no swap cost — at the \
         price of each getting a smaller fitted context. Re-measure after.";

pub const BOTH_FIT: &'static str = " turns), and both fit \
         in VRAM together (";

/// The advice to keep two models resident.
pub open spec fn topology_text(a: (String, u32, u64), b: (String, u32, u64), vram: u64) -> Seq<char> {
    "You alternate between "@ + a.0@ + " ("@ + dec(a.1 as nat) + " turns) and "@ + b.0@ + " ("@
        + dec(b.1 as nat) + BOTH_FIT@ + dec(pair_mib(a.2, b.2)) + " of "@ + dec(vram as nat)
        + KEEPS_BOTH@
}

/// The topology advice: only with one resident model at a time, two that are
/// really used, and room — the pair must leave 30% of VRAM free for context.
pub open spec fn topology_of(used: Seq<(String, u32, u64)>, vram: u64, models_max: u32) -> Option<
    Seq<char>,
> {
    if models_max != 1 || vram == 0 {
        None
    } else {
        match most_used(used, None, used.len()) {
            Some(i) => match most_used(used, Some(i), used.len()) {
                Some(j) => if pair_mib(used[i].2, used[j].2) * 10 > vram * 7 {
                    None
                } else {
                    Some(topology_text(used[i], used[j], vram))
                },
                None => None,
            },
            None => None,
        }
    }
}

fn find_most_used(used: &[(String, u32, u64)], skip: Option<usize>) -> (r: Option<usize>)
    ensures
        match r {
            Some(i) => i < used.len() && most_used(
                used@,
                match skip {
                    Some(s) => Some(s as int),
                    None => None,
                },
                used@.len(),
            ) == Some(i as int),
            None => most_used(
                used@,
                match skip {
                    Some(s) => Some(s as int),
                    None => None,
                },
                used@.len(),
            ) is None,
        },
{
    let ghost sk = match skip {
        Some(s) => Some(s as int),
        None => None,
    };
    let mut best: Option<usize> = None;
    let mut i: usize = 0;
    while i < used.len()
        invariant
            i <= used.len(),
            sk == match skip {
                Some(s) => Some(s as int),
                None => None::<int>,
            },
            match best {
                Some(b) => b < i && most_used(used@, sk, i as nat) == Some(b as int),
                None => most_used(used@, sk, i as nat) is None,
            },
        decreases used.len() - i,
    {
        let skipped = match skip {
            Some(s) => s == i,
            None => false,
        };
        if used[i].1 >= 3 && !skipped {
            let take = match best {
                Some(b) => used[i].1 > used[b].1,
                None => true,
            };
            if take {
                best = Some(i);
            }
        }
        i += 1;
    }
    best
}

/// models_max topology advice, from usage evidence: when the log shows the
/// user really alternating between 2+ models whose files fit TOGETHER in
/// VRAM with room to breathe, suggest raising models_max so both stay
/// resident (no swap cost). Honest about the price: residents split the VRAM
/// --fit hands out, so each gets less context. `used` holds models with
/// their turns and file bytes.
pub fn topology_advice(used: &[(String, u32, u64)], vram_mib: u64, models_max: u32) -> (r: Option<
    String,
>)
    ensures
        opt_text(r) == topology_of(used@, vram_mib, models_max),
{
    if models_max != 1 || vram_mib == 0 {
        return None;
    }
    let i = match find_most_used(used, None) {
        Some(i) => i,
        None => {
            return None;
        },
    };
    let j = match find_most_used(used, Some(i)) {
        Some(j) => j,
        None => {
            return None;
        },
    };
    let sum: u128 = (used[i].2 as u128 + used[j].2 as u128) / 1_048_576;
    if sum * 10 > vram_mib as u128 * 7 {
        return None;
    }
    let mut s = copy_text("You alternate between ");
    s.append(used[i].0.as_str());
    s.append(" (");
    s.append(dec_text(used[i].1 as u64).as_str());
    s.append(" turns) and ");
    s.append(used[j].0.as_str());
    s.append(" (");
    s.append(dec_text(used[j].1 as u64).as_str());
    s.append(BOTH_FIT);
    push_dec(&mut s, sum);
    s.append(" of ");
    s.append(dec_text(vram_mib).as_str());
    s.append(KEEPS_BOTH);
    Some(s)
}

// -------------------------------------------------------------------- the laws

proof fn lemma_turns_reused(tasks: Seq<TaskView>, ports: Seq<PortView>)
    ensures
        sorted(turns_of(tasks, ports)),
        forall|i: int|
            0 <= i < turns_of(tasks, ports).len() ==> {
                let c = (#[trigger] turns_of(tasks, ports)[i]).1;
                c.reused <= c.prompt && c.turns > 0
            },
    decreases tasks.len(),
{
    if tasks.len() > 0 {
        let per = turns_of(tasks.drop_last(), ports);
        lemma_turns_reused(tasks.drop_last(), ports);
        let t = tasks.last();
        if let Some(m) = task_model(t, ports) {
            if turn_counts(t) {
                let c = with_turn(counts_of(per, m), t);
                crate::textmap::put_then_lookup(per, m, c, m);
                crate::textmap::lemma_rank(per, m);
                if has_key(per, m) {
                    assert(per[crate::textmap::rank(per, m)].1.reused <= per[crate::textmap::rank(
                        per,
                        m,
                    )].1.prompt);
                }
                assert(c.reused <= c.prompt && c.turns > 0);
                let after = put(per, m, c);
                let r = crate::textmap::rank(per, m);
                assert forall|i: int| 0 <= i < after.len() implies {
                    let c = (#[trigger] after[i]).1;
                    c.reused <= c.prompt && c.turns > 0
                } by {
                    if i != r {
                        let j = if has_key(per, m) || i < r {
                            i
                        } else {
                            i - 1
                        };
                        assert(after[i] == per[j]);
                    }
                }
            }
        }
    }
}

/// No model ever reused more of its prompts than they held, and a model that
/// is counted had a turn.
pub proof fn reuse_never_exceeds_the_prompt(tasks: Seq<TaskView>, ports: Seq<PortView>, i: int)
    requires
        0 <= i < turns_of(tasks, ports).len(),
    ensures
        turns_of(tasks, ports)[i].1.reused <= turns_of(tasks, ports)[i].1.prompt,
        turns_of(tasks, ports)[i].1.turns > 0,
{
    lemma_turns_reused(tasks, ports);
}

proof fn lemma_task_index(t: Seq<TaskView>, port: u32, spawn: nat, task: u64, upto: int)
    requires
        upto <= t.len(),
    ensures
        match task_index(t, port, spawn, task, upto) {
            Some(k) => 0 <= k < upto && t[k].port == port && t[k].spawn == spawn && t[k].task
                == task,
            None => true,
        },
    decreases upto,
{
    if 0 < upto {
        lemma_task_index(t, port, spawn, task, upto - 1);
    }
}

/// A log that grows by one line never changes what a task was bound to: the
/// model that was active when the task was first seen keeps it.
pub proof fn tasks_keep_their_model(s: LogView, line: Seq<char>, i: int)
    requires
        0 <= i < s.tasks.len(),
        s.tasks[i].model is Some,
    ensures
        line_read(s, line).tasks.len() >= s.tasks.len(),
        line_read(s, line).tasks[i].model == s.tasks[i].model,
        line_read(s, line).tasks[i].port == s.tasks[i].port,
        line_read(s, line).tasks[i].task == s.tasks[i].task,
{
    if find(line, SPAWN@) is None {
        if let Some((port, body)) = child_line(line) {
            if let Some(task) = field_of(body, "task"@) {
                lemma_task_index(
                    s.tasks,
                    port,
                    spawns_on(s.ports, port),
                    task,
                    s.tasks.len() as int,
                );
            }
        }
    }
}

/// The turn is finished and had a prompt: what the slot held at the end is more than what
/// was generated.
pub open spec fn whole(t: TaskView) -> bool {
    t.prompt is Some && t.generated is Some && t.release is Some && t.release->0 > t.generated->0
}

/// The turn is the model's: by its own account, or by its port's where it has none.
pub open spec fn turn_of(t: TaskView, ports: Seq<PortView>, model: Seq<char>) -> bool {
    match t.model {
        Some(m) => m == model,
        None => model_on(ports, t.port) == Some(model),
    }
}

/// How many whole turns a model had.
pub open spec fn whole_turns(tasks: Seq<TaskView>, ports: Seq<PortView>, model: Seq<char>) -> nat
    decreases tasks.len(),
{
    if tasks.len() == 0 {
        0
    } else {
        whole_turns(tasks.drop_last(), ports, model) + if whole(tasks.last()) && turn_of(
            tasks.last(),
            ports,
            model,
        ) {
            1nat
        } else {
            0nat
        }
    }
}

/// What the slots of a model's whole turns held at the end, all together.
pub open spec fn released(tasks: Seq<TaskView>, ports: Seq<PortView>, model: Seq<char>) -> nat
    decreases tasks.len(),
{
    if tasks.len() == 0 {
        0
    } else {
        released(tasks.drop_last(), ports, model) + if whole(tasks.last()) && turn_of(
            tasks.last(),
            ports,
            model,
        ) {
            tasks.last().release->0 as nat
        } else {
            0nat
        }
    }
}

/// What a model's whole turns generated, all together.
pub open spec fn made(tasks: Seq<TaskView>, ports: Seq<PortView>, model: Seq<char>) -> nat
    decreases tasks.len(),
{
    if tasks.len() == 0 {
        0
    } else {
        made(tasks.drop_last(), ports, model) + if whole(tasks.last()) && turn_of(
            tasks.last(),
            ports,
            model,
        ) {
            tasks.last().generated->0 as nat
        } else {
            0nat
        }
    }
}

/// What a model's whole turns had to process of their prompts, all together; no turn can
/// have processed more than its prompt.
pub open spec fn processed(tasks: Seq<TaskView>, ports: Seq<PortView>, model: Seq<char>) -> int
    decreases tasks.len(),
{
    if tasks.len() == 0 {
        0
    } else {
        let t = tasks.last();
        processed(tasks.drop_last(), ports, model) + if whole(t) && turn_of(t, ports, model) {
            if t.prompt->0 <= t.release->0 - t.generated->0 {
                t.prompt->0 as int
            } else {
                t.release->0 - t.generated->0
            }
        } else {
            0int
        }
    }
}

/// A model's turns are counted one by one. What they generated and their prompts come to
/// what their slots held at the end, and what was reused and what was processed to the
/// prompts.
pub proof fn every_turn_is_counted(tasks: Seq<TaskView>, ports: Seq<PortView>, model: Seq<char>)
    requires
        released(tasks, ports, model) <= u64::MAX,
        whole_turns(tasks, ports, model) <= u32::MAX,
    ensures
        ({
            let c = counts_of(turns_of(tasks, ports), model);
            &&& c.turns == whole_turns(tasks, ports, model)
            &&& c.generated == made(tasks, ports, model)
            &&& c.prompt + c.generated == released(tasks, ports, model)
            &&& c.reused + processed(tasks, ports, model) == c.prompt
            &&& !c.disabled && !c.context
        }),
        crate::textmap::sorted(turns_of(tasks, ports)),
        lookup(turns_of(tasks, ports), model) is Some <==> whole_turns(tasks, ports, model) > 0,
    decreases tasks.len(),
{
    if tasks.len() > 0 {
        let s = tasks.drop_last();
        let t = tasks.last();
        every_turn_is_counted(s, ports, model);
        let per = turns_of(s, ports);
        match task_model(t, ports) {
            Some(m) => {
                assert(turn_counts(t) == whole(t));
                if turn_counts(t) {
                    crate::textmap::put_then_lookup(per, m, with_turn(counts_of(per, m), t), model);
                    if m == model {
                        let c = counts_of(per, model);
                        assert(turn_prompt(t) == t.release->0 - t.generated->0);
                        assert(turn_prompt(t) as u64 == t.release->0 - t.generated->0);
                        assert(turn_reused(t) <= turn_prompt(t));
                        assert(turn_reused(t) as u64 == turn_reused(t));
                        assert(c.reused <= c.prompt) by {
                            lemma_processed(s, ports, model);
                        }
                        assert(counts_of(turns_of(tasks, ports), model) == with_turn(c, t));
                    } else {
                        assert(counts_of(turns_of(tasks, ports), model) == counts_of(per, model));
                    }
                }
            },
            None => {},
        }
    }
}

proof fn lemma_processed(tasks: Seq<TaskView>, ports: Seq<PortView>, model: Seq<char>)
    ensures
        processed(tasks, ports, model) >= 0,
    decreases tasks.len(),
{
    if tasks.len() > 0 {
        lemma_processed(tasks.drop_last(), ports, model);
    }
}

/// Two models are advised to be kept only where one is kept at a time, where they are the
/// two most used, and where they leave three tenths of the card's memory free.
pub proof fn two_models_are_kept_where_they_fit(
    used: Seq<(String, u32, u64)>,
    vram: u64,
    models_max: u32,
    i: int,
    j: int,
)
    requires
        0 <= i < used.len(),
        0 <= j < used.len(),
        i != j,
        used[i].1 >= 3,
        used[j].1 >= 3,
        forall|k: int| 0 <= k < used.len() && k != i ==> (#[trigger] used[k]).1 < used[i].1,
        forall|k: int|
            0 <= k < used.len() && k != i && k != j ==> (#[trigger] used[k]).1 < used[j].1,
    ensures
        topology_of(used, vram, models_max) is Some <==> models_max == 1 && vram > 0 && ((used[i].2
            + used[j].2) / 1_048_576) * 10 <= vram * 7,
        topology_of(used, vram, models_max) is Some ==> topology_of(used, vram, models_max)->0
            == topology_text(used[i], used[j], vram),
{
    lemma_most_used(used, None, used.len());
    lemma_most_used(used, Some(i), used.len());
    let a = most_used(used, None, used.len());
    assert(a is Some);
    assert(a->0 == i);
    let b = most_used(used, Some(i), used.len());
    assert(b is Some);
    assert(b->0 == j);
}

proof fn lemma_most_used(used: Seq<(String, u32, u64)>, skip: Option<int>, n: nat)
    requires
        n <= used.len(),
    ensures
        match most_used(used, skip, n) {
            Some(b) => {
                &&& 0 <= b < n
                &&& used[b].1 >= 3
                &&& Some(b) != skip
                &&& forall|k: int| 0 <= k < n && Some(k) != skip ==> (#[trigger] used[k]).1 <= used[b].1
                    || used[k].1 < 3
            },
            None => forall|k: int| 0 <= k < n && Some(k) != skip ==> (#[trigger] used[k]).1 < 3,
        },
    decreases n,
{
    if n > 0 {
        lemma_most_used(used, skip, (n - 1) as nat);
    }
}

/// Below two models with at least three turns each, there is nothing to keep.
pub proof fn little_use_is_no_alternation(
    used: Seq<(String, u32, u64)>,
    vram: u64,
    models_max: u32,
    i: int,
)
    requires
        forall|k: int| 0 <= k < used.len() && k != i ==> (#[trigger] used[k]).1 < 3,
    ensures
        topology_of(used, vram, models_max) is None,
{
    lemma_most_used(used, None, used.len());
    let a = most_used(used, None, used.len());
    if a is Some {
        lemma_most_used(used, a, used.len());
    }
}

/// A line of a task tells one of its figures: the tokens of the prompt or those generated,
/// of which the most that was told counts, or those of the slot, of which the last counts.
pub proof fn a_line_tells_one_figure(t: TaskView, body: Seq<char>)
    ensures
        ({
            let u = task_with(t, body);
            let timing = contains(body, "prompt eval time ="@);
            &&& u.port == t.port && u.spawn == t.spawn && u.task == t.task && u.model == t.model
            &&& t.prompt is Some ==> u.prompt is Some && u.prompt->0 >= t.prompt->0
            &&& t.generated is Some ==> u.generated is Some && u.generated->0 >= t.generated->0
            &&& timing ==> u.generated == t.generated && u.release == t.release
            &&& timing && slash_tokens(body) is Some ==> u.prompt is Some && u.prompt->0
                >= slash_tokens(body)->0 && (u.prompt == t.prompt || u.prompt == slash_tokens(body))
            &&& !contains(body, "prompt"@) && contains(body, " eval time ="@) && !timing
                && slash_tokens(body) is Some ==> u.generated is Some && u.generated->0
                >= slash_tokens(body)->0 && (u.generated == t.generated || u.generated
                == slash_tokens(body)) && u.prompt == t.prompt
            &&& u.release != t.release ==> u.release == field_of(body, "n_tokens"@) && u.prompt
                == t.prompt && u.generated == t.generated
        }),
{
}

/// A spawn puts the model on the port and counts one child more; what else is known of
/// other ports stays.
pub proof fn a_spawn_takes_the_port(
    ports: Seq<PortView>,
    port: u32,
    model: Seq<char>,
    other: u32,
)
    requires
        other != port,
    ensures
        model_on(spawned(ports, port, model), port) == Some(model),
        spawns_on(spawned(ports, port, model), port) == spawns_on(ports, port) + 1,
        model_on(spawned(ports, port, model), other) == model_on(ports, other),
        spawns_on(spawned(ports, port, model), other) == spawns_on(ports, other),
{
    let now = spawned(ports, port, model);
    lemma_port_index(ports, port, 0);
    lemma_port_index(ports, other, 0);
    lemma_port_index(now, port, 0);
    lemma_port_index(now, other, 0);
    match port_index(ports, port, 0) {
        Some(i) => {
            assert(now[i].port == port);
            assert forall|k: int| 0 <= k < ports.len() implies (#[trigger] now[k]).port
                == ports[k].port by {}
        },
        None => {
            assert(now[ports.len() as int].port == port);
            assert forall|k: int| 0 <= k < ports.len() implies #[trigger] now[k] == ports[k] by {}
        },
    }
    match port_index(ports, other, 0) {
        Some(j) => {
            assert(now[j] == ports[j]);
            let k = port_index(now, other, 0)->0;
            assert(now[k].port == other);
            assert(k <= j);
            assert(ports[k].port == other);
        },
        None => {
            if port_index(now, other, 0) is Some {
                let k = port_index(now, other, 0)->0;
                assert(now[k].port == other);
                assert(ports[k].port == other);
            }
        },
    }
    match port_index(ports, port, 0) {
        Some(i) => {
            let k = port_index(now, port, 0)->0;
            assert(now[k].port == port);
            assert(ports[k].port == port);
        },
        None => {},
    }
}

proof fn lemma_port_index(ports: Seq<PortView>, port: u32, from: int)
    requires
        0 <= from <= ports.len(),
    ensures
        match port_index(ports, port, from) {
            Some(i) => from <= i < ports.len() && ports[i].port == port && forall|k: int|
                from <= k < i ==> (#[trigger] ports[k]).port != port,
            None => forall|k: int| from <= k < ports.len() ==> (#[trigger] ports[k]).port != port,
        },
    decreases ports.len() - from,
{
    if from < ports.len() {
        lemma_port_index(ports, port, from + 1);
    }
}

/// One of the ports that announced it serves the model.
pub open spec fn announced(
    disabled: Seq<u32>,
    ports: Seq<PortView>,
    model: Seq<char>,
) -> bool {
    exists|i: int| 0 <= i < disabled.len() && model_on(ports, #[trigger] disabled[i]) == Some(model)
}

/// What is counted of a model are its turns; it is flagged just where a port of its
/// announced that nothing is reused, and it is told of where it has turns or is flagged.
pub proof fn announcements_flag_their_model(s: LogView, model: Seq<char>)
    ensures
        sorted(counted(s)),
        ({
            let was = lookup(turns_of(s.tasks, s.ports), model);
            let c = lookup(counted(s), model);
            &&& c is Some <==> was is Some || announced(s.disabled, s.ports, model)
            &&& c is Some ==> (c->0.disabled <==> announced(s.disabled, s.ports, model))
            &&& was is Some ==> c is Some && c->0.turns == was->0.turns && c->0.prompt
                == was->0.prompt && c->0.reused == was->0.reused && c->0.generated
                == was->0.generated
            &&& was is None && c is Some ==> c->0.turns == 0 && c->0.prompt == 0 && c->0.reused == 0
                && c->0.generated == 0
        }),
{
    let turns = turns_of(s.tasks, s.ports);
    lemma_turns_reused(s.tasks, s.ports);
    lemma_turns_unflagged(s.tasks, s.ports, model);
    lemma_flagged(turns, s.disabled, s.context, s.ports, model);
    let flags = flagged(turns, s.disabled, s.context, s.ports);
    lemma_surfaced(flags, s.disabled, s.context, s.ports, model);
}

proof fn lemma_turns_unflagged(tasks: Seq<TaskView>, ports: Seq<PortView>, model: Seq<char>)
    ensures
        match lookup(turns_of(tasks, ports), model) {
            Some(c) => !c.disabled,
            None => true,
        },
    decreases tasks.len(),
{
    if tasks.len() > 0 {
        let s = tasks.drop_last();
        let t = tasks.last();
        lemma_turns_unflagged(s, ports, model);
        lemma_turns_reused(s, ports);
        let per = turns_of(s, ports);
        if let Some(m) = task_model(t, ports) {
            if turn_counts(t) {
                crate::textmap::put_then_lookup(per, m, with_turn(counts_of(per, m), t), model);
            }
        }
    }
}

proof fn lemma_announced(disabled: Seq<u32>, ports: Seq<PortView>, model: Seq<char>)
    requires
        disabled.len() > 0,
    ensures
        announced(disabled, ports, model) <==> announced(disabled.drop_last(), ports, model)
            || model_on(ports, disabled.last()) == Some(model),
{
    let s = disabled.drop_last();
    if announced(disabled, ports, model) {
        let i = choose|i: int|
            0 <= i < disabled.len() && model_on(ports, #[trigger] disabled[i]) == Some(model);
        if i < s.len() {
            assert(s[i] == disabled[i]);
        }
    }
    if announced(s, ports, model) {
        let i = choose|i: int| 0 <= i < s.len() && model_on(ports, #[trigger] s[i]) == Some(model);
        assert(disabled[i] == s[i]);
    }
    if model_on(ports, disabled.last()) == Some(model) {
        assert(disabled[disabled.len() - 1] == disabled.last());
    }
}

proof fn lemma_flagged(
    per: Seq<(Seq<char>, Counts)>,
    disabled: Seq<u32>,
    context: Seq<u32>,
    ports: Seq<PortView>,
    model: Seq<char>,
)
    requires
        sorted(per),
        match lookup(per, model) {
            Some(c) => !c.disabled,
            None => true,
        },
    ensures
        sorted(flagged(per, disabled, context, ports)),
        match (lookup(flagged(per, disabled, context, ports), model), lookup(per, model)) {
            (Some(c), Some(w)) => (c.disabled <==> announced(disabled, ports, model)) && c.turns
                == w.turns && c.prompt == w.prompt && c.reused == w.reused && c.generated
                == w.generated,
            (None, None) => true,
            _ => false,
        },
    decreases disabled.len(),
{
    if disabled.len() > 0 {
        let d = disabled.drop_last();
        lemma_flagged(per, d, context, ports, model);
        lemma_announced(disabled, ports, model);
        let before = flagged(per, d, context, ports);
        let port = disabled.last();
        if let Some(m) = model_on(ports, port) {
            if let Some(c) = lookup(before, m) {
                crate::textmap::put_then_lookup(
                    before,
                    m,
                    Counts { disabled: true, context: c.context || context.contains(port), ..c },
                    model,
                );
            }
        }
    }
}

proof fn lemma_surfaced(
    per: Seq<(Seq<char>, Counts)>,
    disabled: Seq<u32>,
    context: Seq<u32>,
    ports: Seq<PortView>,
    model: Seq<char>,
)
    requires
        sorted(per),
    ensures
        sorted(surfaced(per, disabled, context, ports)),
        match (lookup(surfaced(per, disabled, context, ports), model), lookup(per, model)) {
            (Some(c), Some(w)) => c == w,
            (Some(c), None) => announced(disabled, ports, model) && c.disabled && c.turns == 0
                && c.prompt == 0 && c.reused == 0 && c.generated == 0,
            (None, None) => !announced(disabled, ports, model),
            _ => false,
        },
    decreases disabled.len(),
{
    if disabled.len() > 0 {
        let d = disabled.drop_last();
        lemma_surfaced(per, d, context, ports, model);
        lemma_announced(disabled, ports, model);
        let before = surfaced(per, d, context, ports);
        let port = disabled.last();
        if let Some(m) = model_on(ports, port) {
            if !has_key(before, m) {
                crate::textmap::put_then_lookup(
                    before,
                    m,
                    Counts { disabled: true, context: context.contains(port), ..nothing_counted() },
                    model,
                );
            }
        }
    }
}

/// Every model with turns, and every one that is flagged, is told of with what was counted.
pub proof fn every_count_is_told(per: Seq<(Seq<char>, Counts)>, i: int)
    requires
        0 <= i < per.len(),
        per[i].1.turns > 0 || per[i].1.disabled,
    ensures
        exists|k: int|
            0 <= k < stats_of(per).len() && told_as(#[trigger] stats_of(per)[k], per[i].0, per[i].1),
    decreases per.len(),
{
    let s = per.drop_last();
    let before = stats_of(s);
    let now = stats_of(per);
    if i < s.len() {
        assert(s[i] == per[i]);
        every_count_is_told(s, i);
        let k = choose|k: int|
            0 <= k < before.len() && told_as(#[trigger] before[k], per[i].0, per[i].1);
        assert(now[k] == before[k]);
    } else {
        assert(told_as(now[now.len() - 1], per[i].0, per[i].1));
    }
}

/// The statistics tell the counts of the model.
pub open spec fn told_as(v: StatsView, model: Seq<char>, c: Counts) -> bool {
    v.model == model && v.turns == c.turns && v.prompt_tokens == c.prompt && v.reused_tokens
        == c.reused && v.generated_tokens == c.generated && v.reuse_disabled == c.disabled
        && v.reuse_unsupported_context == c.context
}

/// What goes on is told by the last line that tells anything.
pub proof fn the_last_telling_line_counts(l: Seq<Seq<char>>, i: int)
    requires
        0 <= i < l.len(),
        activity_on(l[i]) is Some,
        forall|k: int| i < k < l.len() ==> activity_on(#[trigger] l[k]) is None,
    ensures
        last_activity(l) == activity_on(l[i]),
    decreases l.len(),
{
    if i < l.len() - 1 {
        let s = l.drop_last();
        assert(activity_on(l[l.len() - 1]) is None);
        assert forall|k: int| i < k < s.len() implies activity_on(#[trigger] s[k]) is None by {
            assert(s[k] == l[k]);
        }
        the_last_telling_line_counts(s, i);
    }
}

/// A line about the prompt tells how far it is, in hundredths, whatever else it says; one
/// without progress tells of a turn that was accepted, or of one that is over.
pub proof fn a_line_tells_what_goes_on(line: Seq<char>, p: int)
    ensures
        progress_on(line) == Some(p) && p >= 0 && p <= 1_000_000 ==> activity_on(line) == Some(
            Activity::Prefilling((p * 100) as u128),
        ),
        progress_on(line) is None && contains(line, "launch_slot"@) && contains(
            line,
            "processing task"@,
        ) ==> activity_on(line) == Some(Activity::TurnStarted),
        progress_on(line) is None && contains(line, "prompt"@) && !contains(line, "launch_slot"@)
            ==> activity_on(line) is None,
{
}

/// The last spawn of a model with a port tells where it is.
pub proof fn the_last_spawn_tells_the_port(
    l: Seq<Seq<char>>,
    model: Seq<char>,
    i: int,
    port: Seq<char>,
)
    requires
        0 <= i < l.len(),
        spawn_parts(l[i]) == Some((model, port)),
        parse_u16(port) is Some,
        forall|k: int, q: Seq<char>|
            i < k < l.len() ==> #[trigger] spawn_parts(l[k]) != Some((model, q)) || #[trigger] parse_u16(
                q,
            ) is None,
    ensures
        last_port(l, model) == parse_u16(port),
    decreases l.len(),
{
    if i < l.len() - 1 {
        let s = l.drop_last();
        let n = l.len() - 1;
        assert(l[n] == l.last());
        if let Some((name, q)) = spawn_parts(l.last()) {
            assert(spawn_parts(l[n]) != Some((model, q)) || parse_u16(q) is None);
        }
        assert forall|k: int, q: Seq<char>| i < k < s.len() implies #[trigger] spawn_parts(s[k])
            != Some((model, q)) || #[trigger] parse_u16(q) is None by {
            assert(s[k] == l[k]);
            assert(spawn_parts(l[k]) != Some((model, q)) || parse_u16(q) is None);
        }
        the_last_spawn_tells_the_port(s, model, i, port);
    }
}

} // verus!
