//! The Meter's token ledger ("local AI is not free" made measurable).
//!
//! The router truncates router.log on every start, so token evidence dies
//! with each restart unless it is harvested continuously: each harvest parses
//! the CURRENT log instance, credits only what hasn't been credited yet, and
//! appends the deltas to the ledger as hour buckets. The cursor remembers the
//! log instance's fingerprint and what was already credited from it.
//!
//! Totals that no `u64` holds stay at its largest value; prices are in
//! millionths.
use crate::dates::{date_from_epoch, date_of, two};
use crate::evidence::{cache_effectiveness, effectiveness, stats_views, StatsView};
use crate::fingerprint::{fnv, fnv_of};
use crate::num::{
    dec, dec_text, fixed0, fixed0_text, fixed1, fixed1_text, push_dec, round_even, rounded,
};
use crate::text::{chars_of, copy_text, head, lines, lines_of, same_text, tail, text_of, views};
use crate::textmap::{lookup, put, TextMap};
use vstd::prelude::*;
use vstd::string::*;

verus! {

/// One credited slice of usage: `when` is the UTC hour it was credited
/// in (harvest time, not request time — the log carries no wall clock,
/// and hour-grain is honest about that).
#[derive(Debug, Clone, PartialEq)]
pub struct Bucket {
    pub when: u64,
    pub model: String,
    pub turns: u64,
    pub prompt: u64,
    pub generated: u64,
    pub reused: u64,
}

#[derive(Debug, Clone, Copy, PartialEq)]
pub struct Tally {
    pub turns: u64,
    pub prompt: u64,
    pub generated: u64,
    pub reused: u64,
}

pub open spec fn no_tally() -> Tally {
    Tally { turns: 0, prompt: 0, generated: 0, reused: 0 }
}

impl Default for Tally {
    fn default() -> (r: Tally)
        ensures
            r == no_tally(),
    {
        Tally { turns: 0, prompt: 0, generated: 0, reused: 0 }
    }
}

/// What was already credited from the current log instance.
#[derive(Debug)]
pub struct Cursor {
    pub fingerprint: String,
    pub credited: TextMap<Tally>,
}

impl Default for Cursor {
    fn default() -> (r: Cursor)
        ensures
            r.fingerprint@.len() == 0,
            r.credited@.len() == 0,
    {
        Cursor { fingerprint: String::new(), credited: TextMap::new() }
    }
}

/// The first line of a text, or nothing.
pub open spec fn first_line(log: Seq<char>) -> Seq<char> {
    if lines(log).len() > 0 {
        lines(log)[0]
    } else {
        ""@
    }
}

/// A log instance's identity: its first line (the router writes its
/// header once at start; truncation replaces it). Length is NOT part of
/// the fingerprint — the same instance grows.
pub fn log_fingerprint(log: &str) -> (r: String)
    ensures
        r@ == fnv_of(first_line(log@)),
{
    let c = chars_of(log);
    let l = lines_of(&c);
    assert(views(l@) == lines(log@));
    if l.len() > 0 {
        assert(lines(log@)[0] == l@[0]@);
        fnv(text_of(l[0]).as_str())
    } else {
        fnv("")
    }
}

// ---------------------------------------------------------------------- harvesting

/// What one number adds beyond another; never negative.
pub open spec fn beyond(a: u64, b: u64) -> u64 {
    if a >= b {
        (a - b) as u64
    } else {
        0
    }
}

pub open spec fn tally_beyond(t: Tally, base: Tally) -> Tally {
    Tally {
        turns: beyond(t.turns, base.turns),
        prompt: beyond(t.prompt, base.prompt),
        generated: beyond(t.generated, base.generated),
        reused: beyond(t.reused, base.reused),
    }
}

/// What the cursor has credited to a model. A fingerprint change means a
/// fresh log — everything is new.
pub open spec fn base_of(cursor: Cursor, fresh: bool, model: Seq<char>) -> Tally {
    match lookup(cursor.credited@, model) {
        Some(t) => if fresh {
            no_tally()
        } else {
            t
        },
        None => no_tally(),
    }
}

/// There is something to credit.
pub open spec fn counts(d: Tally) -> bool {
    d.turns > 0 || d.prompt > 0 || d.generated > 0
}

/// What the first `n` totals add beyond what was already credited.
pub open spec fn new_credit(
    totals: Seq<(Seq<char>, Tally)>,
    cursor: Cursor,
    fresh: bool,
    n: int,
) -> Seq<(Seq<char>, Tally)>
    decreases n,
{
    if n <= 0 || n > totals.len() {
        Seq::empty()
    } else {
        let before = new_credit(totals, cursor, fresh, n - 1);
        let t = totals[n - 1];
        let d = tally_beyond(t.1, base_of(cursor, fresh, t.0));
        if counts(d) {
            before.push((t.0, d))
        } else {
            before
        }
    }
}

pub open spec fn credit_views(v: Seq<(String, Tally)>) -> Seq<(Seq<char>, Tally)> {
    Seq::new(v.len(), |i: int| (v[i].0@, v[i].1))
}

fn subtract(a: u64, b: u64) -> (r: u64)
    ensures
        r == beyond(a, b),
{
    if a >= b {
        a - b
    } else {
        0
    }
}

/// What the current totals add beyond what was already credited. A
/// fingerprint change means a fresh log — everything is new. Totals that went
/// BACKWARD under the same fingerprint (shouldn't happen) are credited at
/// zero, never negative.
pub fn deltas(totals: &TextMap<Tally>, cursor: &Cursor, fingerprint: &str) -> (r: Vec<
    (String, Tally),
>)
    ensures
        credit_views(r@) == new_credit(
            totals@,
            *cursor,
            cursor.fingerprint@ != fingerprint@,
            totals@.len() as int,
        ),
{
    let fresh = !same_text(cursor.fingerprint.as_str(), fingerprint);
    let mut out: Vec<(String, Tally)> = Vec::new();
    let mut i: usize = 0;
    assert(credit_views(out@) =~= Seq::empty());
    while i < totals.len()
        invariant
            i <= totals@.len(),
            credit_views(out@) == new_credit(totals@, *cursor, fresh, i as int),
        decreases totals@.len() - i,
    {
        let model = totals.key_at(i);
        let t = *totals.value_at(i);
        let base = if fresh {
            Tally::default()
        } else {
            match cursor.credited.get(model.as_str()) {
                Some(b) => *b,
                None => Tally::default(),
            }
        };
        let d = Tally {
            turns: subtract(t.turns, base.turns),
            prompt: subtract(t.prompt, base.prompt),
            generated: subtract(t.generated, base.generated),
            reused: subtract(t.reused, base.reused),
        };
        if d.turns > 0 || d.prompt > 0 || d.generated > 0 {
            let ghost sofar = credit_views(out@);
            out.push((model.clone(), d));
            assert(credit_views(out@) =~= sofar.push((model@, d)));
        }
        i += 1;
    }
    out
}

/// What the log says of each model with a complete turn.
pub open spec fn totals_among(v: Seq<StatsView>) -> Seq<(Seq<char>, Tally)>
    decreases v.len(),
{
    if v.len() == 0 {
        Seq::empty()
    } else {
        let before = totals_among(v.drop_last());
        let s = v.last();
        if s.turns > 0 {
            put(
                before,
                s.model,
                Tally {
                    turns: s.turns as u64,
                    prompt: s.prompt_tokens,
                    generated: s.generated_tokens,
                    reused: s.reused_tokens,
                },
            )
        } else {
            before
        }
    }
}

/// The totals of a log.
pub fn totals_of(log: &str) -> (r: TextMap<Tally>)
    ensures
        r@ == totals_among(effectiveness(log@)),
{
    let v = cache_effectiveness(log);
    let ghost all = effectiveness(log@);
    let mut out: TextMap<Tally> = TextMap::new();
    let mut i: usize = 0;
    assert(all.take(0) =~= Seq::empty());
    while i < v.len()
        invariant
            i <= v.len(),
            stats_views(v@) == all,
            out@ == totals_among(all.take(i as int)),
        decreases v.len() - i,
    {
        assert(all.take(i + 1).drop_last() =~= all.take(i as int));
        assert(all.take(i + 1).last() == v@[i as int]@);
        let s = &v[i];
        if s.turns > 0 {
            let t = Tally {
                turns: s.turns as u64,
                prompt: s.prompt_tokens,
                generated: s.generated_tokens,
                reused: s.reused_tokens,
            };
            out.insert(s.model.clone(), t);
        }
        i += 1;
    }
    assert(all.take(i as int) =~= all);
    out
}

/// What a harvest appends to the ledger, and the cursor behind it.
#[derive(Debug)]
pub struct Harvest {
    pub buckets: Vec<Bucket>,
    pub cursor: Cursor,
}

pub struct BucketView {
    pub when: u64,
    pub model: Seq<char>,
    pub tally: Tally,
}

impl View for Bucket {
    type V = BucketView;

    open spec fn view(&self) -> BucketView {
        BucketView {
            when: self.when,
            model: self.model@,
            tally: Tally {
                turns: self.turns,
                prompt: self.prompt,
                generated: self.generated,
                reused: self.reused,
            },
        }
    }
}

pub open spec fn bucket_views(v: Seq<Bucket>) -> Seq<BucketView> {
    Seq::new(v.len(), |i: int| v[i]@)
}

/// The start of the hour.
pub open spec fn hour_of(now: u64) -> u64 {
    (now - now % 3600) as u64
}

/// New credit as buckets of an hour.
pub open spec fn credited_at(hour: u64, v: Seq<(Seq<char>, Tally)>) -> Seq<BucketView> {
    Seq::new(v.len(), |i: int| BucketView { when: hour, model: v[i].0, tally: v[i].1 })
}

/// What a harvest of a log credits.
pub open spec fn harvested(log: Seq<char>, now: u64, cursor: Cursor) -> Seq<BucketView> {
    let totals = totals_among(effectiveness(log));
    credited_at(
        hour_of(now),
        new_credit(
            totals,
            cursor,
            cursor.fingerprint@ != fnv_of(first_line(log)),
            totals.len() as int,
        ),
    )
}

/// Parse the log, credit the new usage, advance the cursor. Safe to call as
/// often as you like — crediting is idempotent per log content. The cursor
/// always advances to current totals (even when nothing was creditable) so a
/// truncation right after a quiet stretch can't double-credit.
pub fn harvest(log: &str, now: u64, cursor: &Cursor) -> (r: Harvest)
    ensures
        bucket_views(r.buckets@) == harvested(log@, now, *cursor),
        r.cursor.fingerprint@ == fnv_of(first_line(log@)),
        r.cursor.credited@ == totals_among(effectiveness(log@)),
{
    let totals = totals_of(log);
    let fp = log_fingerprint(log);
    let new = deltas(&totals, cursor, fp.as_str());
    let hour = now - now % 3600;
    let ghost want = harvested(log@, now, *cursor);
    let ghost credit = credit_views(new@);
    let mut buckets: Vec<Bucket> = Vec::new();
    let mut i: usize = 0;
    while i < new.len()
        invariant
            i <= new.len(),
            credit == credit_views(new@),
            want == credited_at(hour, credit),
            bucket_views(buckets@) == want.take(i as int),
        decreases new.len() - i,
    {
        let ghost sofar = bucket_views(buckets@);
        assert(credit[i as int] == (new@[i as int].0@, new@[i as int].1));
        let d = new[i].1;
        let b = Bucket {
            when: hour,
            model: new[i].0.clone(),
            turns: d.turns,
            prompt: d.prompt,
            generated: d.generated,
            reused: d.reused,
        };
        assert(b@ == want[i as int]);
        buckets.push(b);
        assert(bucket_views(buckets@) =~= sofar.push(b@));
        i += 1;
        assert(bucket_views(buckets@) =~= want.take(i as int));
    }
    assert(want.take(i as int) =~= want);
    Harvest { buckets, cursor: Cursor { fingerprint: fp, credited: totals } }
}

/// A second harvest of the same log credits nothing, at any time.
pub proof fn harvesting_is_idempotent(log: Seq<char>, now: u64, cursor: Cursor)
    requires
        cursor.fingerprint@ == fnv_of(first_line(log)),
        cursor.credited@ == totals_among(effectiveness(log)),
        crate::textmap::sorted(cursor.credited@),
    ensures
        harvested(log, now, cursor).len() == 0,
{
    let totals = totals_among(effectiveness(log));
    lemma_nothing_new(totals, cursor, totals.len() as int);
}

proof fn lemma_nothing_new(totals: Seq<(Seq<char>, Tally)>, cursor: Cursor, n: int)
    requires
        cursor.credited@ == totals,
        crate::textmap::sorted(totals),
        0 <= n <= totals.len(),
    ensures
        new_credit(totals, cursor, false, n).len() == 0,
    decreases n,
{
    if n > 0 {
        lemma_nothing_new(totals, cursor, n - 1);
        crate::textmap::lemma_lookup_at(totals, n - 1);
    }
}

// --------------------------------------------------------------------- the report

/// The pure-token report over an optional [since, until) range.
#[derive(Debug)]
pub struct Report {
    pub fleet: Tally,
    pub per_model: TextMap<Tally>,
    /// (hour epoch, prompt+generated tokens) with the most traffic.
    pub busiest_hour: Option<(u64, u64)>,
    /// UTC-day epoch → tokens (prompt+generated), for the series view.
    pub per_day: Vec<(u64, u64)>,
}

pub open spec fn capped(a: u64, b: u64) -> u64 {
    if a + b <= u64::MAX {
        (a + b) as u64
    } else {
        u64::MAX
    }
}

fn add_up(a: u64, b: u64) -> (r: u64)
    ensures
        r == capped(a, b),
{
    a.saturating_add(b)
}

pub open spec fn tally_plus(t: Tally, b: Tally) -> Tally {
    Tally {
        turns: capped(t.turns, b.turns),
        prompt: capped(t.prompt, b.prompt),
        generated: capped(t.generated, b.generated),
        reused: capped(t.reused, b.reused),
    }
}

/// The bucket is in the range.
pub open spec fn in_range(b: BucketView, since: Option<u64>, until: Option<u64>) -> bool {
    &&& since is Some ==> b.when >= since->0
    &&& until is Some ==> b.when < until->0
}

pub open spec fn fleet_of(v: Seq<BucketView>, since: Option<u64>, until: Option<u64>) -> Tally
    decreases v.len(),
{
    if v.len() == 0 {
        no_tally()
    } else {
        let before = fleet_of(v.drop_last(), since, until);
        if in_range(v.last(), since, until) {
            tally_plus(before, v.last().tally)
        } else {
            before
        }
    }
}

/// The tally of a model, which begins with nothing.
pub open spec fn tally_at(m: Seq<(Seq<char>, Tally)>, model: Seq<char>) -> Tally {
    match lookup(m, model) {
        Some(t) => t,
        None => no_tally(),
    }
}

pub open spec fn per_model_of(v: Seq<BucketView>, since: Option<u64>, until: Option<u64>) -> Seq<
    (Seq<char>, Tally),
>
    decreases v.len(),
{
    if v.len() == 0 {
        Seq::empty()
    } else {
        let before = per_model_of(v.drop_last(), since, until);
        let b = v.last();
        if in_range(b, since, until) {
            put(before, b.model, tally_plus(tally_at(before, b.model), b.tally))
        } else {
            before
        }
    }
}

/// The tokens of a bucket.
pub open spec fn traffic(b: BucketView) -> u64 {
    capped(b.tally.prompt, b.tally.generated)
}

/// A series with more tokens at a time; the series is in the order of time.
pub open spec fn more_at(s: Seq<(u64, u64)>, at: u64, n: u64) -> Seq<(u64, u64)>
    decreases s.len(),
{
    if s.len() == 0 {
        seq![(at, capped(0, n))]
    } else if s.last().0 == at {
        s.drop_last().push((at, capped(s.last().1, n)))
    } else if s.last().0 < at {
        s.push((at, capped(0, n)))
    } else {
        more_at(s.drop_last(), at, n).push(s.last())
    }
}

/// The start of the hour or of the day that a bucket is in.
pub open spec fn grain_of(when: u64, daily: bool) -> u64 {
    if daily {
        (when - when % 86_400) as u64
    } else {
        when
    }
}

pub open spec fn series_of(
    v: Seq<BucketView>,
    since: Option<u64>,
    until: Option<u64>,
    daily: bool,
) -> Seq<(u64, u64)>
    decreases v.len(),
{
    if v.len() == 0 {
        Seq::empty()
    } else {
        let before = series_of(v.drop_last(), since, until, daily);
        let b = v.last();
        if in_range(b, since, until) {
            more_at(before, grain_of(b.when, daily), traffic(b))
        } else {
            before
        }
    }
}

/// The time with the most tokens; of equal ones the last.
pub open spec fn busiest(s: Seq<(u64, u64)>) -> Option<(u64, u64)>
    decreases s.len(),
{
    if s.len() == 0 {
        None
    } else {
        match busiest(s.drop_last()) {
            Some(b) => if s.last().1 >= b.1 {
                Some(s.last())
            } else {
                Some(b)
            },
            None => Some(s.last()),
        }
    }
}

fn add_more(s: &mut Vec<(u64, u64)>, at: u64, n: u64)
    ensures
        final(s)@ == more_at(old(s)@, at, n),
{
    let ghost all = s@;
    let mut i: usize = s.len();
    assert(all.take(i as int) =~= all);
    assert(all.subrange(i as int, all.len() as int) =~= Seq::empty());
    assert(more_at(all, at, n) =~= more_at(all.take(i as int), at, n) + all.subrange(
        i as int,
        all.len() as int,
    ));
    while i > 0 && s[i - 1].0 > at
        invariant
            s@ == all,
            i <= s.len(),
            more_at(all, at, n) == more_at(all.take(i as int), at, n) + all.subrange(
                i as int,
                all.len() as int,
            ),
        decreases i,
    {
        let ghost t = all.take(i as int);
        assert(t.last() == all[i - 1]);
        assert(t.drop_last() =~= all.take(i - 1));
        assert(more_at(t, at, n) =~= more_at(all.take(i - 1), at, n).push(all[i - 1]));
        assert(more_at(all.take(i - 1), at, n).push(all[i - 1]) + all.subrange(
            i as int,
            all.len() as int,
        ) =~= more_at(all.take(i - 1), at, n) + all.subrange(i - 1, all.len() as int));
        i -= 1;
    }
    let ghost t = all.take(i as int);
    if i > 0 && s[i - 1].0 == at {
        let sum = add_up(s[i - 1].1, n);
        assert(t.last() == all[i - 1]);
        s.set(i - 1, (at, sum));
        assert(s@ =~= t.drop_last().push((at, sum)) + all.subrange(i as int, all.len() as int));
    } else {
        if i > 0 {
            assert(t.last() == all[i - 1]);
        }
        s.insert(i, (at, add_up(0, n)));
        assert(s@ =~= t.push((at, capped(0, n))) + all.subrange(i as int, all.len() as int));
        if i == 0 {
            assert(t.push((at, capped(0, n))) =~= seq![(at, capped(0, n))]);
        }
    }
}

fn find_busiest(s: &[(u64, u64)]) -> (r: Option<(u64, u64)>)
    ensures
        r == busiest(s@),
{
    let mut best: Option<(u64, u64)> = None;
    let mut i: usize = 0;
    assert(s@.take(0) =~= Seq::empty());
    while i < s.len()
        invariant
            i <= s.len(),
            best == busiest(s@.take(i as int)),
        decreases s.len() - i,
    {
        assert(s@.take(i + 1).drop_last() =~= s@.take(i as int));
        assert(s@.take(i + 1).last() == s@[i as int]);
        best = match best {
            Some(b) => if s[i].1 >= b.1 {
                Some(s[i])
            } else {
                Some(b)
            },
            None => Some(s[i]),
        };
        i += 1;
    }
    assert(s@.take(i as int) =~= s@);
    best
}

fn tally_up(t: Tally, b: &Bucket) -> (r: Tally)
    ensures
        r == tally_plus(t, b@.tally),
{
    Tally {
        turns: add_up(t.turns, b.turns),
        prompt: add_up(t.prompt, b.prompt),
        generated: add_up(t.generated, b.generated),
        reused: add_up(t.reused, b.reused),
    }
}

pub fn report(buckets: &[Bucket], since: Option<u64>, until: Option<u64>) -> (r: Report)
    ensures
        r.fleet == fleet_of(bucket_views(buckets@), since, until),
        r.per_model@ == per_model_of(bucket_views(buckets@), since, until),
        r.per_day@ == series_of(bucket_views(buckets@), since, until, true),
        r.busiest_hour == busiest(series_of(bucket_views(buckets@), since, until, false)),
{
    let ghost all = bucket_views(buckets@);
    let mut fleet = Tally::default();
    let mut per_model: TextMap<Tally> = TextMap::new();
    let mut per_day: Vec<(u64, u64)> = Vec::new();
    let mut per_hour: Vec<(u64, u64)> = Vec::new();
    let mut i: usize = 0;
    assert(all.take(0) =~= Seq::empty());
    while i < buckets.len()
        invariant
            i <= buckets.len(),
            all == bucket_views(buckets@),
            fleet == fleet_of(all.take(i as int), since, until),
            per_model@ == per_model_of(all.take(i as int), since, until),
            per_day@ == series_of(all.take(i as int), since, until, true),
            per_hour@ == series_of(all.take(i as int), since, until, false),
        decreases buckets.len() - i,
    {
        assert(all.take(i + 1).drop_last() =~= all.take(i as int));
        assert(all.take(i + 1).last() == buckets@[i as int]@);
        let b = &buckets[i];
        let late = match since {
            Some(s) => b.when >= s,
            None => true,
        };
        let early = match until {
            Some(u) => b.when < u,
            None => true,
        };
        if late && early {
            fleet = tally_up(fleet, b);
            let sofar = match per_model.get(b.model.as_str()) {
                Some(t) => *t,
                None => Tally::default(),
            };
            per_model.insert(b.model.clone(), tally_up(sofar, b));
            let n = add_up(b.prompt, b.generated);
            add_more(&mut per_hour, b.when, n);
            add_more(&mut per_day, b.when - b.when % 86_400, n);
        }
        i += 1;
    }
    assert(all.take(i as int) =~= all);
    let busiest_hour = find_busiest(&per_hour);
    Report { fleet, per_model, busiest_hour, per_day }
}

// ------------------------------------------------------------------------ in words

/// Digits in groups of three, with commas between them.
pub open spec fn grouped(s: Seq<char>) -> Seq<char>
    decreases s.len(),
{
    if s.len() <= 3 {
        s
    } else {
        grouped(s.take(s.len() - 3)) + ","@ + s.skip(s.len() - 3)
    }
}

fn group_digits(s: &[char]) -> (r: String)
    ensures
        r@ == grouped(s@),
    decreases s.len(),
{
    if s.len() <= 3 {
        text_of(s)
    } else {
        let k = s.len() - 3;
        let mut out = group_digits(head(s, k));
        out.append(",");
        out.append(text_of(tail(s, k)).as_str());
        out
    }
}

/// A number with its digits in groups.
pub fn group(n: u64) -> (r: String)
    ensures
        r@ == grouped(dec(n as nat)),
{
    let d = dec_text(n);
    let c = chars_of(d.as_str());
    group_digits(&c)
}

/// How much of the prompt came from the cache, in percent.
pub open spec fn cache_percent(t: Tally) -> Seq<char> {
    fixed0((t.reused * 100) as nat, t.prompt as nat)
}

fn percent_text(t: &Tally) -> (r: String)
    requires
        t.prompt > 0,
    ensures
        r@ == cache_percent(*t),
{
    fixed0_text(t.reused as u128 * 100, t.prompt as u128)
}

/// Today's usage at a glance.
pub open spec fn summary_of(fleet: Tally) -> Option<Seq<char>> {
    if fleet.turns > 0 {
        Some(
            "Meter today: "@ + dec(fleet.turns as nat) + " turns, "@ + grouped(
                dec(fleet.prompt as nat),
            ) + " prompt + "@ + grouped(dec(fleet.generated as nat)) + " generated tokens"@ + (
            if fleet.prompt > 0 {
                " ("@ + cache_percent(fleet) + "% of prompt served from cache)"@
            } else {
                ""@
            }),
        )
    } else {
        None
    }
}

/// One line for the Server tab: today's usage at a glance.
pub fn summary_line(buckets: &[Bucket], now: u64) -> (r: Option<String>)
    ensures
        crate::text::opt_text(r) == summary_of(
            fleet_of(bucket_views(buckets@), Some((now - now % 86_400) as u64), None),
        ),
{
    let day = now - now % 86_400;
    let f = report(buckets, Some(day), None).fleet;
    if f.turns == 0 {
        return None;
    }
    let mut s = copy_text("Meter today: ");
    s.append(dec_text(f.turns).as_str());
    s.append(" turns, ");
    s.append(group(f.prompt).as_str());
    s.append(" prompt + ");
    s.append(group(f.generated).as_str());
    s.append(" generated tokens");
    if f.prompt > 0 {
        let mut c = copy_text(" (");
        c.append(percent_text(&f).as_str());
        c.append("% of prompt served from cache)");
        s.append(c.as_str());
    } else {
        s.append("");
    }
    Some(s)
}

/// A text without the zeros behind it.
pub open spec fn without_zeros(s: Seq<char>) -> Seq<char> {
    crate::text::trim_end_of(s, seq!['0'])
}

/// Six digits of a fraction.
pub open spec fn six(n: nat) -> Seq<char> {
    dec(n / 100_000) + dec((n / 10_000) % 10) + dec((n / 1_000) % 10) + dec((n / 100) % 10) + dec(
        (n / 10) % 10,
    ) + dec(n % 10)
}

/// A number of millionths, as short as it can be written.
pub open spec fn plain(n: u64) -> Seq<char> {
    let f = (n % 1_000_000) as nat;
    if f == 0 {
        dec((n / 1_000_000) as nat)
    } else {
        dec((n / 1_000_000) as nat) + "."@ + without_zeros(six(f))
    }
}

fn plain_text(n: u64) -> (r: String)
    ensures
        r@ == plain(n),
{
    let f = n % 1_000_000;
    let mut s = dec_text(n / 1_000_000);
    if f == 0 {
        return s;
    }
    let mut d = dec_text(f / 100_000);
    d.append(dec_text((f / 10_000) % 10).as_str());
    d.append(dec_text((f / 1_000) % 10).as_str());
    d.append(dec_text((f / 100) % 10).as_str());
    d.append(dec_text((f / 10) % 10).as_str());
    d.append(dec_text(f % 10).as_str());
    let c = chars_of(d.as_str());
    let zero: [char; 1] = ['0'];
    assert(zero@ =~= seq!['0']);
    s.append(".");
    s.append(text_of(crate::text::trimmed_end_of(&c, &zero)).as_str());
    s
}

/// What tokens cost at a price per million, in cents.
pub open spec fn cents(tokens: u64, price: u64) -> nat {
    round_even((tokens * price) as nat, 10_000_000_000)
}

pub open spec fn dollars(c: nat) -> Seq<char> {
    dec(c / 100) + "."@ + two(c % 100)
}

fn dollar_text(tokens: u64, price: u64) -> (r: String)
    ensures
        r@ == dollars(cents(tokens, price)),
{
    assert(0 <= tokens * price <= 0xffff_ffff_ffff_ffff * 0xffff_ffff_ffff_ffff)
        by (nonlinear_arith)
        requires
            0 <= tokens <= 0xffff_ffff_ffff_ffff,
            0 <= price <= 0xffff_ffff_ffff_ffff,
    ;
    let c = rounded(tokens as u128 * price as u128, 10_000_000_000);
    let mut s = String::new();
    push_dec(&mut s, c / 100);
    assert(s@ =~= dec((c / 100) as nat));
    s.append(".");
    let ghost sofar = s@;
    if c % 100 < 10 {
        s.append("0");
    }
    push_dec(&mut s, c % 100);
    assert(s@ =~= sofar + two((c % 100) as nat));
    s
}

/// The hour of an epoch.
pub open spec fn hour_text(epoch: u64) -> Seq<char> {
    date_of(epoch) + " "@ + two(((epoch % 86_400) / 3600) as nat) + ":00"@
}

fn fmt_hour(epoch: u64) -> (r: String)
    ensures
        r@ == hour_text(epoch),
{
    let mut s = date_from_epoch(epoch);
    s.append(" ");
    let h = (epoch % 86_400) / 3600;
    let ghost sofar = s@;
    if h < 10 {
        s.append("0");
    }
    push_dec(&mut s, h as u128);
    assert(s@ =~= sofar + two(h as nat));
    s.append(":00");
    s
}

/// The fleet's line.
pub open spec fn fleet_line(f: Tally) -> Seq<char> {
    "fleet: "@ + dec(f.turns as nat) + " turns · prompt "@ + grouped(dec(f.prompt as nat))
        + " · generated "@ + grouped(dec(f.generated as nat)) + " · "@ + (if f.prompt > 0 {
        cache_percent(f) + "%"@
    } else {
        "—"@
    }) + " of prompt from cache\n"@
}

/// How prompt-heavy the work is.
pub open spec fn shape_line(f: Tally) -> Seq<char> {
    "shape: "@ + (if f.generated > 0 {
        fixed1(f.prompt as nat, f.generated as nat)
    } else {
        "0.0"@
    }) + " prompt tokens per generated token (agent work is prompt-heavy)\n"@
}

pub open spec fn busiest_line(b: Option<(u64, u64)>) -> Seq<char> {
    match b {
        Some((hour, n)) => "busiest hour: "@ + hour_text(hour) + " UTC — "@ + grouped(
            dec(n as nat),
        ) + " tokens\n"@,
        None => ""@,
    }
}

/// What the generated tokens would have cost elsewhere.
pub open spec fn cloud_line(f: Tally, price: u64) -> Seq<char> {
    "cloud comparison: "@ + grouped(dec(f.generated as nat)) + " generated tokens ≈ $"@ + dollars(
        cents(f.generated, price),
    ) + " at $"@ + plain(price)
        + "/Mtok output (price is YOUR editable config value, not a quote)\n"@
}

pub open spec fn model_lines(m: Seq<(Seq<char>, Tally)>, n: int) -> Seq<char>
    decreases n,
{
    if n <= 0 || n > m.len() {
        Seq::empty()
    } else {
        let t = m[n - 1].1;
        model_lines(m, n - 1) + "  "@ + m[n - 1].0 + ": "@ + dec(t.turns as nat)
            + " turns · prompt "@ + grouped(dec(t.prompt as nat)) + " · generated "@ + grouped(
            dec(t.generated as nat),
        ) + "\n"@
    }
}

pub open spec fn day_lines(d: Seq<(u64, u64)>, n: int) -> Seq<char>
    decreases n,
{
    if n <= 0 || n > d.len() {
        Seq::empty()
    } else {
        day_lines(d, n - 1) + "  "@ + date_of(d[n - 1].0) + ": "@ + grouped(
            dec(d[n - 1].1 as nat),
        ) + " tokens\n"@
    }
}

/// The CLI report.
pub open spec fn report_text(r: Report, label: Seq<char>, price: u64) -> Seq<char> {
    let title = "Meter — "@ + label + " (UTC buckets, hour grain)\n"@;
    if r.fleet.turns == 0 {
        title + "no usage recorded in this range\n"@
    } else {
        title + fleet_line(r.fleet) + shape_line(r.fleet) + busiest_line(r.busiest_hour)
            + cloud_line(r.fleet, price) + "\nper model:\n"@ + model_lines(
            r.per_model@,
            r.per_model@.len() as int,
        ) + (if r.per_day@.len() > 1 {
            "\nper day (UTC):\n"@ + day_lines(r.per_day@, r.per_day@.len() as int)
        } else {
            ""@
        })
    }
}

fn say_fleet(f: &Tally) -> (r: String)
    ensures
        r@ == fleet_line(*f),
{
    let mut s = copy_text("fleet: ");
    s.append(dec_text(f.turns).as_str());
    s.append(" turns · prompt ");
    s.append(group(f.prompt).as_str());
    s.append(" · generated ");
    s.append(group(f.generated).as_str());
    s.append(" · ");
    if f.prompt > 0 {
        let mut p = percent_text(f);
        p.append("%");
        s.append(p.as_str());
    } else {
        s.append("—");
    }
    s.append(" of prompt from cache\n");
    s
}

fn say_shape(f: &Tally) -> (r: String)
    ensures
        r@ == shape_line(*f),
{
    let mut s = copy_text("shape: ");
    if f.generated > 0 {
        s.append(fixed1_text(f.prompt as u128, f.generated as u128).as_str());
    } else {
        s.append("0.0");
    }
    s.append(" prompt tokens per generated token (agent work is prompt-heavy)\n");
    s
}

fn say_cloud(f: &Tally, price: u64) -> (r: String)
    ensures
        r@ == cloud_line(*f, price),
{
    let mut s = copy_text("cloud comparison: ");
    s.append(group(f.generated).as_str());
    s.append(" generated tokens ≈ $");
    s.append(dollar_text(f.generated, price).as_str());
    s.append(" at $");
    s.append(plain_text(price).as_str());
    s.append("/Mtok output (price is YOUR editable config value, not a quote)\n");
    s
}

fn say_models(m: &TextMap<Tally>) -> (r: String)
    ensures
        r@ == model_lines(m@, m@.len() as int),
{
    let mut s = String::new();
    let mut i: usize = 0;
    while i < m.len()
        invariant
            i <= m@.len(),
            s@ == model_lines(m@, i as int),
        decreases m@.len() - i,
    {
        let t = *m.value_at(i);
        s.append("  ");
        s.append(m.key_at(i).as_str());
        s.append(": ");
        s.append(dec_text(t.turns).as_str());
        s.append(" turns · prompt ");
        s.append(group(t.prompt).as_str());
        s.append(" · generated ");
        s.append(group(t.generated).as_str());
        s.append("\n");
        i += 1;
    }
    s
}

fn say_days(d: &[(u64, u64)]) -> (r: String)
    ensures
        r@ == day_lines(d@, d@.len() as int),
{
    let mut s = String::new();
    let mut i: usize = 0;
    while i < d.len()
        invariant
            i <= d.len(),
            s@ == day_lines(d@, i as int),
        decreases d.len() - i,
    {
        s.append("  ");
        s.append(date_from_epoch(d[i].0).as_str());
        s.append(": ");
        s.append(group(d[i].1).as_str());
        s.append(" tokens\n");
        i += 1;
    }
    s
}

/// The CLI report. `cloud_price` is $/Mtok for the comparison counter —
/// user-editable config, deliberately dated in its doc.
pub fn fmt_report(r: &Report, label: &str, cloud_price: u64) -> (s: String)
    ensures
        s@ == report_text(*r, label@, cloud_price),
{
    let mut out = copy_text("Meter — ");
    out.append(label);
    out.append(" (UTC buckets, hour grain)\n");
    if r.fleet.turns == 0 {
        out.append("no usage recorded in this range\n");
        return out;
    }
    out.append(say_fleet(&r.fleet).as_str());
    out.append(say_shape(&r.fleet).as_str());
    match r.busiest_hour {
        Some((hour, n)) => {
            let mut b = copy_text("busiest hour: ");
            b.append(fmt_hour(hour).as_str());
            b.append(" UTC — ");
            b.append(group(n).as_str());
            b.append(" tokens\n");
            out.append(b.as_str());
        },
        None => {
            out.append("");
        },
    }
    out.append(say_cloud(&r.fleet, cloud_price).as_str());
    out.append("\nper model:\n");
    out.append(say_models(&r.per_model).as_str());
    if r.per_day.len() > 1 {
        let mut d = copy_text("\nper day (UTC):\n");
        d.append(say_days(&r.per_day).as_str());
        out.append(d.as_str());
    } else {
        out.append("");
    }
    out
}

// ------------------------------------------------------------------------- laws

/// What is credited never exceeds the log's totals.
pub proof fn credit_never_exceeds_the_totals(
    totals: Seq<(Seq<char>, Tally)>,
    cursor: Cursor,
    fresh: bool,
    n: int,
    k: int,
)
    requires
        0 <= n <= totals.len(),
        0 <= k < new_credit(totals, cursor, fresh, n).len(),
    ensures
        ({
            let c = new_credit(totals, cursor, fresh, n)[k];
            exists|i: int|
                0 <= i < n && (#[trigger] totals[i]).0 == c.0 && c.1.turns <= totals[i].1.turns
                    && c.1.prompt <= totals[i].1.prompt && c.1.generated <= totals[i].1.generated
                    && c.1.reused <= totals[i].1.reused
        }),
    decreases n,
{
    let before = new_credit(totals, cursor, fresh, n - 1);
    if k < before.len() {
        credit_never_exceeds_the_totals(totals, cursor, fresh, n - 1, k);
        let c = before[k];
        let i = choose|i: int|
            0 <= i < n - 1 && (#[trigger] totals[i]).0 == c.0 && c.1.turns <= totals[i].1.turns
                && c.1.prompt <= totals[i].1.prompt && c.1.generated <= totals[i].1.generated
                && c.1.reused <= totals[i].1.reused;
        assert(totals[i].0 == c.0);
    } else {
        assert(totals[n - 1].0 == new_credit(totals, cursor, fresh, n)[k].0);
    }
}

/// Buckets are credited on the hour.
pub proof fn buckets_land_on_the_hour(log: Seq<char>, now: u64, cursor: Cursor, k: int)
    requires
        0 <= k < harvested(log, now, cursor).len(),
    ensures
        harvested(log, now, cursor)[k].when % 3600 == 0,
        harvested(log, now, cursor)[k].when <= now,
{
}

/// What `f` adds up to over the buckets from `from` on and before `to`, in the
/// report's own range, of one model or of all.
pub open spec fn counted(
    v: Seq<BucketView>,
    range: (Option<u64>, Option<u64>),
    span: (int, int),
    model: Option<Seq<char>>,
    f: spec_fn(Tally) -> nat,
) -> nat
    decreases v.len(),
{
    if v.len() == 0 {
        0
    } else {
        let b = v.last();
        let late = match range.0 {
            Some(since) => since <= b.when,
            None => true,
        };
        let early = match range.1 {
            Some(until) => b.when < until,
            None => true,
        };
        let here = late && early && span.0 <= b.when < span.1 && match model {
            Some(m) => b.model == m,
            None => true,
        };
        counted(v.drop_last(), range, span, model, f) + if here {
            f(b.tally)
        } else {
            0
        }
    }
}

/// All time.
pub open spec fn ever() -> (int, int) {
    (0, 0x1_0000_0000_0000_0000)
}

/// Prompt and generated tokens.
pub open spec fn tokens() -> spec_fn(Tally) -> nat {
    |t: Tally| t.prompt as nat + t.generated as nat
}

/// Everything that a tally counts.
pub open spec fn everything() -> spec_fn(Tally) -> nat {
    |t: Tally| t.turns as nat + t.prompt as nat + t.generated as nat + t.reused as nat
}

/// What the second parts of a series add up to.
pub open spec fn series_sum(s: Seq<(u64, u64)>) -> nat
    decreases s.len(),
{
    if s.len() == 0 {
        0
    } else {
        series_sum(s.drop_last()) + s.last().1 as nat
    }
}

/// The times of a series, one behind the other.
pub open spec fn in_time(s: Seq<(u64, u64)>) -> bool {
    forall|i: int, j: int| 0 <= i < j < s.len() ==> (#[trigger] s[i]).0 < (#[trigger] s[j]).0
}

/// What a series says of a time; nothing where it is silent.
pub open spec fn said_of(s: Seq<(u64, u64)>, t: u64) -> nat
    decreases s.len(),
{
    if s.len() == 0 {
        0
    } else if s.last().0 == t {
        s.last().1 as nat
    } else {
        said_of(s.drop_last(), t)
    }
}

/// The series speaks of a time.
pub open spec fn speaks_of(s: Seq<(u64, u64)>, t: u64) -> bool {
    exists|i: int| 0 <= i < s.len() && (#[trigger] s[i]).0 == t
}

proof fn lemma_said_at(s: Seq<(u64, u64)>, i: int)
    requires
        in_time(s),
        0 <= i < s.len(),
    ensures
        said_of(s, s[i].0) == s[i].1,
    decreases s.len(),
{
    if i < s.len() - 1 {
        let t = s.drop_last();
        assert forall|a: int, b: int| 0 <= a < b < t.len() implies (#[trigger] t[a]).0 < (
        #[trigger] t[b]).0 by {
            assert(s[a].0 < s[b].0);
        }
        lemma_said_at(t, i);
        assert(s[i].0 < s[s.len() - 1].0);
        assert(t[i] == s[i]);
    }
}

proof fn lemma_silent(s: Seq<(u64, u64)>, t: u64)
    requires
        !speaks_of(s, t),
    ensures
        said_of(s, t) == 0,
    decreases s.len(),
{
    if s.len() > 0 {
        let r = s.drop_last();
        assert(s[s.len() - 1].0 != t);
        assert forall|i: int| 0 <= i < r.len() implies (#[trigger] r[i]).0 != t by {
            assert(s[i].0 != t);
        }
        lemma_silent(r, t);
    }
}

proof fn lemma_shorter_in_time(s: Seq<(u64, u64)>)
    requires
        in_time(s),
        s.len() > 0,
    ensures
        in_time(s.drop_last()),
        forall|i: int| 0 <= i < s.len() - 1 ==> (#[trigger] s[i]).0 < s.last().0,
{
    let t = s.drop_last();
    assert forall|a: int, b: int| 0 <= a < b < t.len() implies (#[trigger] t[a]).0 < (
    #[trigger] t[b]).0 by {
        assert(s[a].0 < s[b].0);
    }
    assert forall|i: int| 0 <= i < s.len() - 1 implies (#[trigger] s[i]).0 < s.last().0 by {
        assert(s[i].0 < s[s.len() - 1].0);
    }
}

/// More at one time is more at that time and at no other.
proof fn lemma_more_at(s: Seq<(u64, u64)>, at: u64, n: u64, t: u64)
    requires
        in_time(s),
        said_of(s, at) + n <= u64::MAX,
    ensures
        in_time(more_at(s, at, n)),
        said_of(more_at(s, at, n), t) == said_of(s, t) + (if t == at {
            n as nat
        } else {
            0
        }),
        speaks_of(more_at(s, at, n), t) <==> speaks_of(s, t) || t == at,
        series_sum(more_at(s, at, n)) == series_sum(s) + n,
        forall|i: int|
            0 <= i < more_at(s, at, n).len() ==> (#[trigger] more_at(s, at, n)[i]).0 <= at || (
            s.len() > 0 && more_at(s, at, n)[i].0 <= s.last().0),
    decreases s.len(),
{
    let r = more_at(s, at, n);
    reveal_with_fuel(said_of, 2);
    reveal_with_fuel(series_sum, 2);
    if s.len() == 0 {
        assert(r.drop_last() =~= Seq::<(u64, u64)>::empty());
        assert(r[0].0 == at);
    } else {
        lemma_shorter_in_time(s);
        let b = s.drop_last();
        let k = s.len() - 1;
        assert(s[k] == s.last());
        if s.last().0 == at {
            assert(r.drop_last() =~= b);
            assert(r[k].0 == at);
            assert forall|i: int, j: int| 0 <= i < j < r.len() implies (#[trigger] r[i]).0 < (
            #[trigger] r[j]).0 by {
                assert(s[i].0 < s[j].0);
                assert(r[i] == s[i]);
            }
            assert forall|i: int| 0 <= i < k implies r[i] == #[trigger] s[i] by {}
            if speaks_of(s, t) {
                let i = choose|i: int| 0 <= i < s.len() && (#[trigger] s[i]).0 == t;
                assert(r[i].0 == t);
            }
            if speaks_of(r, t) {
                let i = choose|i: int| 0 <= i < r.len() && (#[trigger] r[i]).0 == t;
                assert(s[i].0 == t);
            }
        } else if s.last().0 < at {
            assert(r.drop_last() =~= s);
            assert(r[k + 1].0 == at);
            assert forall|i: int, j: int| 0 <= i < j < r.len() implies (#[trigger] r[i]).0 < (
            #[trigger] r[j]).0 by {
                assert(r[i] == s[i]);
                if j < s.len() {
                    assert(r[j] == s[j]);
                }
            }
            if speaks_of(s, at) {
                let i = choose|i: int| 0 <= i < s.len() && (#[trigger] s[i]).0 == at;
                assert(s[i].0 <= s.last().0);
            }
            lemma_silent(s, at);
            if speaks_of(s, t) {
                let i = choose|i: int| 0 <= i < s.len() && (#[trigger] s[i]).0 == t;
                assert(r[i].0 == t);
            }
            if speaks_of(r, t) {
                let i = choose|i: int| 0 <= i < r.len() && (#[trigger] r[i]).0 == t;
                if i <= k {
                    assert(s[i].0 == t);
                }
            }
        } else {
            lemma_more_at(b, at, n, t);
            let q = more_at(b, at, n);
            assert(r.drop_last() =~= q);
            assert forall|i: int| 0 <= i < q.len() implies (#[trigger] q[i]).0 < s.last().0 by {
                if b.len() > 0 {
                    assert(b.last() == s[k - 1]);
                }
            }
            assert forall|i: int, j: int| 0 <= i < j < r.len() implies (#[trigger] r[i]).0 < (
            #[trigger] r[j]).0 by {
                assert(r[i] == q[i]);
                if j < q.len() {
                    assert(r[j] == q[j]);
                }
            }
            assert(r[q.len() as int] == s.last());
            if speaks_of(s, t) {
                let i = choose|i: int| 0 <= i < s.len() && (#[trigger] s[i]).0 == t;
                if i < k {
                    assert(b[i].0 == t);
                    let j = choose|j: int| 0 <= j < q.len() && (#[trigger] q[j]).0 == t;
                    assert(r[j].0 == t);
                }
            }
            if speaks_of(q, t) {
                let j = choose|j: int| 0 <= j < q.len() && (#[trigger] q[j]).0 == t;
                assert(r[j].0 == t);
            }
            if speaks_of(r, t) {
                let i = choose|i: int| 0 <= i < r.len() && (#[trigger] r[i]).0 == t;
                if i < q.len() {
                    assert(q[i].0 == t);
                    if speaks_of(b, t) {
                        let j = choose|j: int| 0 <= j < b.len() && (#[trigger] b[j]).0 == t;
                        assert(s[j].0 == t);
                    }
                } else {
                    assert(s[k].0 == t);
                }
            }
        }
    }
}

/// A part is no more than the whole.
proof fn lemma_counted_part(
    v: Seq<BucketView>,
    range: (Option<u64>, Option<u64>),
    span: (int, int),
    model: Option<Seq<char>>,
    f: spec_fn(Tally) -> nat,
    g: spec_fn(Tally) -> nat,
)
    requires
        forall|t: Tally| #[trigger] f(t) <= g(t),
    ensures
        counted(v, range, span, model, f) <= counted(v, (None, None), ever(), None, g),
    decreases v.len(),
{
    if v.len() > 0 {
        lemma_counted_part(v.drop_last(), range, span, model, f, g);
        assert(f(v.last().tally) <= g(v.last().tally));
    }
}

/// The span of one time of a series: a day, or the hour that a bucket states.
pub open spec fn span_of(t: u64, daily: bool) -> (int, int) {
    if daily {
        (t as int, t + 86_400)
    } else {
        (t as int, t + 1)
    }
}

proof fn lemma_series(
    v: Seq<BucketView>,
    since: Option<u64>,
    until: Option<u64>,
    daily: bool,
    t: u64,
)
    requires
        counted(v, (None, None), ever(), None, everything()) <= u64::MAX,
        daily ==> t % 86_400 == 0,
    ensures
        in_time(series_of(v, since, until, daily)),
        said_of(series_of(v, since, until, daily), t) == counted(
            v,
            (since, until),
            span_of(t, daily),
            None,
            tokens(),
        ),
        series_sum(series_of(v, since, until, daily)) == counted(
            v,
            (since, until),
            ever(),
            None,
            tokens(),
        ),
        speaks_of(series_of(v, since, until, daily), t) <==> exists|i: int|
            0 <= i < v.len() && falls_in(#[trigger] v[i], since, until, span_of(t, daily)),
        daily ==> forall|i: int|
            0 <= i < series_of(v, since, until, daily).len() ==> (#[trigger] series_of(
                v,
                since,
                until,
                daily,
            )[i]).0 % 86_400 == 0,
    decreases v.len(),
{
    if v.len() > 0 {
        let w = v.drop_last();
        let b = v.last();
        let g = grain_of(b.when, daily);
        let before = series_of(w, since, until, daily);
        lemma_counted_part(w, (since, until), span_of(g, daily), None, tokens(), everything());
        lemma_counted_part(w, (None, None), ever(), None, everything(), everything());
        lemma_series(w, since, until, daily, t);
        lemma_series(w, since, until, daily, g);
        let r = series_of(v, since, until, daily);
        assert(v[v.len() - 1] == b);
        assert forall|i: int| 0 <= i < w.len() implies w[i] == #[trigger] v[i] by {}
        if in_range(b, since, until) {
            assert(traffic(b) == b.tally.prompt + b.tally.generated);
            lemma_more_at(before, g, traffic(b), t);
            assert(falls_in(b, since, until, span_of(t, daily)) <==> t == g);
            if daily {
                assert forall|i: int| 0 <= i < r.len() implies (#[trigger] r[i]).0 % 86_400
                    == 0 by {
                    let x = r[i].0;
                    if x != g {
                        lemma_more_at(before, g, traffic(b), x);
                        assert(speaks_of(r, x));
                        let j = choose|j: int| 0 <= j < before.len() && (#[trigger] before[j]).0
                            == x;
                        assert(before[j].0 % 86_400 == 0);
                    }
                }
            }
        }
        if speaks_of(before, t) {
            let i = choose|i: int|
                0 <= i < w.len() && falls_in(#[trigger] w[i], since, until, span_of(t, daily));
            assert(falls_in(v[i], since, until, span_of(t, daily)));
        }
        if exists|i: int|
            0 <= i < v.len() && falls_in(#[trigger] v[i], since, until, span_of(t, daily)) {
            let i = choose|i: int|
                0 <= i < v.len() && falls_in(#[trigger] v[i], since, until, span_of(t, daily));
            if i < w.len() {
                assert(falls_in(w[i], since, until, span_of(t, daily)));
            }
        }
    }
}

/// The bucket is in the report's range, and in the span.
pub open spec fn falls_in(
    b: BucketView,
    since: Option<u64>,
    until: Option<u64>,
    span: (int, int),
) -> bool {
    &&& since is Some ==> since->0 <= b.when
    &&& until is Some ==> b.when < until->0
    &&& span.0 <= b.when < span.1
}

/// A report's days add up, where nothing overflows. Each day of the series
/// begins at midnight, the days are in order, and each says what the buckets
/// of its 24 hours in range hold in prompt and generated tokens; a day with
/// such a bucket is there. Together they are the fleet's prompt and generated
/// tokens.
pub proof fn the_days_add_up(v: Seq<BucketView>, since: Option<u64>, until: Option<u64>)
    requires
        counted(v, (None, None), ever(), None, everything()) <= u64::MAX,
    ensures
        ({
            let days = series_of(v, since, until, true);
            &&& in_time(days)
            &&& forall|i: int|
                0 <= i < days.len() ==> (#[trigger] days[i]).0 % 86_400 == 0 && days[i].1
                    == counted(
                    v,
                    (since, until),
                    (days[i].0 as int, days[i].0 + 86_400),
                    None,
                    |t: Tally| t.prompt as nat + t.generated as nat,
                )
            &&& forall|k: int|
                0 <= k < v.len() && (since is Some ==> since->0 <= v[k].when) && (until is Some
                    ==> v[k].when < until->0) ==> exists|i: int|
                    0 <= i < days.len() && (#[trigger] days[i]).0 <= (#[trigger] v[k]).when
                        < days[i].0 + 86_400
            &&& series_sum(days) == fleet_of(v, since, until).prompt + fleet_of(
                v,
                since,
                until,
            ).generated
        }),
{
    let days = series_of(v, since, until, true);
    lemma_series(v, since, until, true, 0);
    assert forall|i: int| 0 <= i < days.len() implies (#[trigger] days[i]).0 % 86_400 == 0
        && days[i].1 == counted(
        v,
        (since, until),
        (days[i].0 as int, days[i].0 + 86_400),
        None,
        |t: Tally| t.prompt as nat + t.generated as nat,
    ) by {
        lemma_series(v, since, until, true, days[i].0);
        lemma_said_at(days, i);
        assert(tokens() == (|t: Tally| t.prompt as nat + t.generated as nat));
    }
    assert forall|k: int|
        0 <= k < v.len() && (since is Some ==> since->0 <= v[k].when) && (until is Some
            ==> v[k].when < until->0) implies exists|i: int|
        0 <= i < days.len() && (#[trigger] days[i]).0 <= (#[trigger] v[k]).when < days[i].0
            + 86_400 by {
        let t = (v[k].when - v[k].when % 86_400) as u64;
        lemma_series(v, since, until, true, t);
        assert(falls_in(v[k], since, until, span_of(t, true)));
        assert(speaks_of(days, t));
    }
    lemma_fleet(v, since, until);
}

/// The busiest hour is the one with the most prompt and generated tokens among
/// those of the buckets in range, and its tokens are told; there is none only
/// where no bucket is in range.
pub proof fn the_busiest_hour_has_the_most(v: Seq<BucketView>, since: Option<u64>, until: Option<u64>)
    requires
        counted(v, (None, None), ever(), None, everything()) <= u64::MAX,
    ensures
        ({
            let b = busiest(series_of(v, since, until, false));
            &&& b is None <==> forall|k: int|
                0 <= k < v.len() ==> !falls_in(#[trigger] v[k], since, until, ever())
            &&& b matches Some((hour, n)) ==> {
                &&& n == counted(v, (since, until), (hour as int, hour + 1), None, tokens())
                &&& exists|k: int|
                    0 <= k < v.len() && falls_in(#[trigger] v[k], since, until, ever()) && v[k].when
                        == hour
                &&& forall|k: int|
                    0 <= k < v.len() && falls_in(#[trigger] v[k], since, until, ever())
                        ==> counted(
                        v,
                        (since, until),
                        (v[k].when as int, v[k].when + 1),
                        None,
                        tokens(),
                    ) <= n
            }
        }),
{
    let s = series_of(v, since, until, false);
    lemma_series(v, since, until, false, 0);
    lemma_busiest(s);
    assert forall|k: int|
        0 <= k < v.len() && falls_in(#[trigger] v[k], since, until, ever()) implies speaks_of(
        s,
        v[k].when,
    ) && said_of(s, v[k].when) == counted(
        v,
        (since, until),
        (v[k].when as int, v[k].when + 1),
        None,
        tokens(),
    ) by {
        lemma_series(v, since, until, false, v[k].when);
        assert(falls_in(v[k], since, until, span_of(v[k].when, false)));
    }
    if let Some((hour, n)) = busiest(s) {
        lemma_series(v, since, until, false, hour);
        let j = choose|j: int| 0 <= j < s.len() && #[trigger] s[j] == (hour, n);
        lemma_said_at(s, j);
        assert(speaks_of(s, hour));
        let k = choose|k: int|
            0 <= k < v.len() && falls_in(#[trigger] v[k], since, until, span_of(hour, false));
        assert(falls_in(v[k], since, until, ever()));
        assert forall|k: int|
            0 <= k < v.len() && falls_in(#[trigger] v[k], since, until, ever()) implies counted(
            v,
            (since, until),
            (v[k].when as int, v[k].when + 1),
            None,
            tokens(),
        ) <= n by {
            assert(speaks_of(s, v[k].when));
            let i = choose|i: int| 0 <= i < s.len() && (#[trigger] s[i]).0 == v[k].when;
            lemma_said_at(s, i);
        }
    } else {
        assert(s.len() == 0);
        assert forall|k: int| 0 <= k < v.len() implies !falls_in(
            #[trigger] v[k],
            since,
            until,
            ever(),
        ) by {
            if falls_in(v[k], since, until, ever()) {
                assert(speaks_of(s, v[k].when));
            }
        }
    }
}

proof fn lemma_busiest(s: Seq<(u64, u64)>)
    ensures
        busiest(s) is None <==> s.len() == 0,
        busiest(s) matches Some(b) ==> (exists|j: int| 0 <= j < s.len() && #[trigger] s[j] == b)
            && forall|i: int| 0 <= i < s.len() ==> (#[trigger] s[i]).1 <= b.1,
    decreases s.len(),
{
    if s.len() > 0 {
        let t = s.drop_last();
        lemma_busiest(t);
        assert(s[s.len() - 1] == s.last());
        assert forall|i: int| 0 <= i < t.len() implies t[i] == #[trigger] s[i] by {}
        if let Some(b) = busiest(t) {
            let j = choose|j: int| 0 <= j < t.len() && #[trigger] t[j] == b;
            assert(s[j] == b);
        }
    }
}

proof fn lemma_fleet(v: Seq<BucketView>, since: Option<u64>, until: Option<u64>)
    requires
        counted(v, (None, None), ever(), None, everything()) <= u64::MAX,
    ensures
        ({
            let f = fleet_of(v, since, until);
            let r = (since, until);
            &&& f.turns == counted(v, r, ever(), None, |t: Tally| t.turns as nat)
            &&& f.prompt == counted(v, r, ever(), None, |t: Tally| t.prompt as nat)
            &&& f.generated == counted(v, r, ever(), None, |t: Tally| t.generated as nat)
            &&& f.reused == counted(v, r, ever(), None, |t: Tally| t.reused as nat)
            &&& f.prompt + f.generated == counted(v, r, ever(), None, tokens())
        }),
    decreases v.len(),
{
    if v.len() > 0 {
        let w = v.drop_last();
        let r = (since, until);
        lemma_fleet(w, since, until);
        lemma_counted_part(w, r, ever(), None, |t: Tally| t.turns as nat, everything());
        lemma_counted_part(w, r, ever(), None, |t: Tally| t.prompt as nat, everything());
        lemma_counted_part(w, r, ever(), None, |t: Tally| t.generated as nat, everything());
        lemma_counted_part(w, r, ever(), None, |t: Tally| t.reused as nat, everything());
    }
}

/// The fleet's tally is the sum over the buckets in range, number by number,
/// where nothing overflows.
pub proof fn the_fleet_adds_up(v: Seq<BucketView>, since: Option<u64>, until: Option<u64>)
    requires
        counted(v, (None, None), ever(), None, everything()) <= u64::MAX,
    ensures
        ({
            let f = fleet_of(v, since, until);
            let r = (since, until);
            &&& f.turns == counted(v, r, ever(), None, |t: Tally| t.turns as nat)
            &&& f.prompt == counted(v, r, ever(), None, |t: Tally| t.prompt as nat)
            &&& f.generated == counted(v, r, ever(), None, |t: Tally| t.generated as nat)
            &&& f.reused == counted(v, r, ever(), None, |t: Tally| t.reused as nat)
        }),
{
    lemma_fleet(v, since, until);
}

/// Each model's tally is the sum over its own buckets in range, number by
/// number, where nothing overflows.
pub proof fn each_model_adds_up(
    v: Seq<BucketView>,
    since: Option<u64>,
    until: Option<u64>,
    model: Seq<char>,
)
    requires
        counted(v, (None, None), ever(), None, everything()) <= u64::MAX,
    ensures
        crate::textmap::sorted(per_model_of(v, since, until)),
        lookup(per_model_of(v, since, until), model) is Some <==> exists|k: int|
            0 <= k < v.len() && (#[trigger] v[k]).model == model && falls_in(
                v[k],
                since,
                until,
                ever(),
            ),
        ({
            let t = match lookup(per_model_of(v, since, until), model) {
                Some(t) => t,
                None => Tally { turns: 0, prompt: 0, generated: 0, reused: 0 },
            };
            let r = (since, until);
            &&& t.turns == counted(v, r, ever(), Some(model), |t: Tally| t.turns as nat)
            &&& t.prompt == counted(v, r, ever(), Some(model), |t: Tally| t.prompt as nat)
            &&& t.generated == counted(v, r, ever(), Some(model), |t: Tally| t.generated as nat)
            &&& t.reused == counted(v, r, ever(), Some(model), |t: Tally| t.reused as nat)
        }),
    decreases v.len(),
{
    if v.len() > 0 {
        let w = v.drop_last();
        let b = v.last();
        let r = (since, until);
        each_model_adds_up(w, since, until, model);
        lemma_counted_part(w, r, ever(), Some(model), |t: Tally| t.turns as nat, everything());
        lemma_counted_part(w, r, ever(), Some(model), |t: Tally| t.prompt as nat, everything());
        lemma_counted_part(w, r, ever(), Some(model), |t: Tally| t.generated as nat, everything());
        lemma_counted_part(w, r, ever(), Some(model), |t: Tally| t.reused as nat, everything());
        let before = per_model_of(w, since, until);
        if in_range(b, since, until) {
            let sum = tally_plus(tally_at(before, b.model), b.tally);
            crate::textmap::put_then_lookup(before, b.model, sum, model);
        }
        assert(v[v.len() - 1] == b);
        assert forall|i: int| 0 <= i < w.len() implies w[i] == #[trigger] v[i] by {}
        if exists|k: int|
            0 <= k < w.len() && (#[trigger] w[k]).model == model && falls_in(
                w[k],
                since,
                until,
                ever(),
            ) {
            let k = choose|k: int|
                0 <= k < w.len() && (#[trigger] w[k]).model == model && falls_in(
                    w[k],
                    since,
                    until,
                    ever(),
                );
            assert(v[k].model == model);
        }
    } else {
        crate::textmap::lemma_has_key(per_model_of(v, since, until), model);
    }
}

/// What is credited is what the totals grew by: with what was credited before
/// from the same log it makes the totals, number by number; from another log
/// it is the totals themselves. A model is credited exactly where its turns,
/// its prompt or its generated tokens grew.
pub proof fn credit_makes_up_the_totals(
    totals: Seq<(Seq<char>, Tally)>,
    cursor: Cursor,
    fresh: bool,
    n: int,
    i: int,
)
    requires
        crate::textmap::sorted(totals),
        0 <= i < n <= totals.len(),
        !fresh ==> match lookup(cursor.credited@, totals[i].0) {
            Some(b) => b.turns <= totals[i].1.turns && b.prompt <= totals[i].1.prompt && b.generated
                <= totals[i].1.generated && b.reused <= totals[i].1.reused,
            None => true,
        },
    ensures
        ({
            let new = new_credit(totals, cursor, fresh, n);
            let (model, t) = totals[i];
            let b = match lookup(cursor.credited@, model) {
                Some(b) => if fresh {
                    Tally { turns: 0, prompt: 0, generated: 0, reused: 0 }
                } else {
                    b
                },
                None => Tally { turns: 0, prompt: 0, generated: 0, reused: 0 },
            };
            if t.turns > b.turns || t.prompt > b.prompt || t.generated > b.generated {
                exists|k: int|
                    0 <= k < new.len() && (#[trigger] new[k]).0 == model && b.turns + new[k].1.turns
                        == t.turns && b.prompt + new[k].1.prompt == t.prompt && b.generated
                        + new[k].1.generated == t.generated && b.reused + new[k].1.reused
                        == t.reused
            } else {
                forall|k: int| 0 <= k < new.len() ==> (#[trigger] new[k]).0 != model
            }
        }),
    decreases n,
{
    let new = new_credit(totals, cursor, fresh, n);
    let before = new_credit(totals, cursor, fresh, n - 1);
    let (model, t) = totals[i];
    if i == n - 1 {
        assert forall|k: int| 0 <= k < before.len() implies (#[trigger] before[k]).0 != model by {
            credit_never_exceeds_the_totals(totals, cursor, fresh, n - 1, k);
            let j = choose|j: int|
                0 <= j < n - 1 && (#[trigger] totals[j]).0 == before[k].0 && before[k].1.turns
                    <= totals[j].1.turns && before[k].1.prompt <= totals[j].1.prompt
                    && before[k].1.generated <= totals[j].1.generated && before[k].1.reused
                    <= totals[j].1.reused;
            assert(crate::text::text_lt(totals[j].0, totals[i].0));
            crate::text::lemma_text_lt_irreflexive(model);
        }
        if new.len() > before.len() {
            assert(new[before.len() as int].0 == model);
        }
    } else {
        credit_makes_up_the_totals(totals, cursor, fresh, n - 1, i);
        assert(crate::text::text_lt(totals[i].0, totals[n - 1].0));
        crate::text::lemma_text_lt_irreflexive(model);
        assert forall|k: int| 0 <= k < before.len() implies before[k] == #[trigger] new[k] by {}
        let b = base_of(cursor, fresh, model);
        if t.turns > b.turns || t.prompt > b.prompt || t.generated > b.generated {
            let k = choose|k: int|
                0 <= k < before.len() && (#[trigger] before[k]).0 == model && b.turns
                    + before[k].1.turns == t.turns && b.prompt + before[k].1.prompt == t.prompt
                    && b.generated + before[k].1.generated == t.generated && b.reused
                    + before[k].1.reused == t.reused;
            assert(new[k] == before[k]);
            assert(new[k].0 == model);
        } else {
            assert forall|k: int| 0 <= k < new.len() implies (#[trigger] new[k]).0 != model by {
                if k < before.len() {
                    assert(before[k].0 != model);
                }
            }
        }
    }
}

/// A comma stands behind every third digit from the end, and nowhere else; without the commas
/// the digits are what they were.
pub proof fn commas_part_the_thousands(s: Seq<char>)
    requires
        !s.contains(','),
    ensures
        s.len() > 0 ==> grouped(s).len() == s.len() + (s.len() - 1) / 3,
        forall|i: int|
            0 <= i < grouped(s).len() ==> (#[trigger] grouped(s)[i] == ',' <==> (grouped(s).len() - i)
                % 4 == 0),
        crate::text::remove_char(grouped(s), ',') == s,
    decreases s.len(),
{
    reveal_strlit(",");
    let g = grouped(s);
    if s.len() <= 3 {
        lemma_without_commas(s);
        assert forall|i: int| 0 <= i < g.len() implies (#[trigger] g[i] == ',' <==> (g.len() - i) % 4
            == 0) by {
            assert(s.contains(s[i]));
        }
    } else {
        let a = s.take(s.len() - 3);
        let b = s.skip(s.len() - 3);
        assert(!a.contains(',')) by {
            if a.contains(',') {
                let j = choose|j: int| 0 <= j < a.len() && a[j] == ',';
                assert(s[j] == ',');
            }
        }
        assert(!b.contains(',')) by {
            if b.contains(',') {
                let j = choose|j: int| 0 <= j < b.len() && b[j] == ',';
                assert(s[s.len() - 3 + j] == ',');
            }
        }
        commas_part_the_thousands(a);
        let h = grouped(a);
        assert(g == h + ","@ + b);
        assert(g.len() == h.len() + 4);
        assert forall|i: int| 0 <= i < g.len() implies (#[trigger] g[i] == ',' <==> (g.len() - i) % 4
            == 0) by {
            if i < h.len() {
                assert(g[i] == h[i]);
                assert((g.len() - i) % 4 == (h.len() - i) % 4);
            } else if i == h.len() {
                assert(g[i] == ',');
            } else {
                assert(g[i] == b[i - h.len() - 1]);
                assert(b.contains(g[i]));
            }
        }
        lemma_commas_removed(h, ","@ + b);
        lemma_commas_removed(","@, b);
        assert(h + (","@ + b) =~= g);
        lemma_without_commas(b);
        let one = ","@;
        assert(one.last() == ',');
        assert(one.drop_last().len() == 0);
        assert(crate::text::remove_char(one.drop_last(), ',') =~= Seq::<char>::empty());
        assert(crate::text::remove_char(one, ',') =~= Seq::<char>::empty());
        assert(a + (Seq::<char>::empty() + b) =~= s);
    }
}

proof fn lemma_without_commas(s: Seq<char>)
    requires
        !s.contains(','),
    ensures
        crate::text::remove_char(s, ',') == s,
    decreases s.len(),
{
    if s.len() > 0 {
        let r = s.drop_last();
        assert(s.contains(s[s.len() - 1]));
        assert(!r.contains(',')) by {
            if r.contains(',') {
                let j = choose|j: int| 0 <= j < r.len() && r[j] == ',';
                assert(s[j] == ',');
            }
        }
        lemma_without_commas(r);
        assert(r.push(s.last()) =~= s);
    } else {
        assert(crate::text::remove_char(s, ',') =~= s);
    }
}

proof fn lemma_commas_removed(a: Seq<char>, b: Seq<char>)
    ensures
        crate::text::remove_char(a + b, ',') == crate::text::remove_char(a, ',')
            + crate::text::remove_char(b, ','),
    decreases b.len(),
{
    if b.len() == 0 {
        assert(a + b =~= a);
        assert(crate::text::remove_char(a, ',') + Seq::<char>::empty() =~= crate::text::remove_char(
            a,
            ',',
        ));
    } else {
        lemma_commas_removed(a, b.drop_last());
        assert((a + b).drop_last() =~= a + b.drop_last());
        assert((a + b).last() == b.last());
        let x = crate::text::remove_char(a, ',');
        let y = crate::text::remove_char(b.drop_last(), ',');
        assert((x + y).push(b.last()) =~= x + y.push(b.last()));
    }
}

/// What tokens cost, at a price for a million of them, is told to the nearest cent.
pub proof fn a_price_is_told_to_the_cent(tokens: u64, price: u64)
    ensures
        ({
            // the price is in millionths of a dollar, and of a million tokens
            let c = cents(tokens, price);
            let paid = tokens * price;
            -10_000_000_000 <= 2 * (c * 10_000_000_000 - paid) <= 10_000_000_000
        }),
        cents(1_000_000, 1_000_000) == 100,
{
    crate::num::rounding_is_to_the_nearest(tokens * price, 10_000_000_000);
}

/// The part of the prompts that came from the cache is told in percent, to the nearest one.
pub proof fn the_cached_part_is_told_in_percent(t: Tally)
    requires
        t.prompt > 0,
    ensures
        exists|p: nat|
            #![trigger dec(p)]
            cache_percent(t) == dec(p) && 2 * (p * t.prompt - t.reused * 100) <= t.prompt && 2 * (
            t.reused * 100 - p * t.prompt) <= t.prompt,
{
    crate::num::rounding_is_to_the_nearest(t.reused * 100, t.prompt as nat);
    let p = round_even((t.reused * 100) as nat, t.prompt as nat);
    assert(cache_percent(t) == dec(p));
}

/// Six digits of a fraction read as the fraction.
pub proof fn six_digits_read_as_the_number(n: nat)
    requires
        n < 1_000_000,
    ensures
        six(n).len() == 6,
        crate::num::all_digits(six(n)),
        crate::num::digits_value(six(n)) == n,
{
    let a = n / 100_000;
    let b = (n / 10_000) % 10;
    let c = (n / 1_000) % 10;
    let d = (n / 100) % 10;
    let e = (n / 10) % 10;
    let f = n % 10;
    let s = six(n);
    assert(a < 10);
    assert(dec(a) =~= seq![crate::num::digit_char(a)]);
    assert(s =~= seq![
        crate::num::digit_char(a),
        crate::num::digit_char(b),
        crate::num::digit_char(c),
        crate::num::digit_char(d),
        crate::num::digit_char(e),
        crate::num::digit_char(f),
    ]);
    reveal_with_fuel(crate::num::digits_value, 7);
    assert(s.drop_last() =~= s.take(5));
    assert(s.take(5).drop_last() =~= s.take(4));
    assert(s.take(4).drop_last() =~= s.take(3));
    assert(s.take(3).drop_last() =~= s.take(2));
    assert(s.take(2).drop_last() =~= s.take(1));
    assert(s.take(1).drop_last() =~= s.take(0));
    assert(crate::num::digits_value(s.take(1)) == a);
    assert(crate::num::digits_value(s.take(2)) == a * 10 + b);
    assert(crate::num::digits_value(s.take(3)) == a * 100 + b * 10 + c);
    assert(crate::num::digits_value(s.take(4)) == a * 1000 + b * 100 + c * 10 + d);
    assert(crate::num::digits_value(s.take(5)) == a * 10_000 + b * 1000 + c * 100 + d * 10 + e);
    assert(n == a * 100_000 + b * 10_000 + c * 1000 + d * 100 + e * 10 + f);
}

} // verus!
