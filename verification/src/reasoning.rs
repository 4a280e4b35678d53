//! What reasoning levels a model's OWN chat template accepts.
//!
//! Family folklore is useless here: the levels are read out of the template
//! that will actually render the prompt, so a dropdown never offers a value
//! the model would raise on.
use crate::text::{
    chars_of, chomp, contains, copy_text, find, find_text, has_text, head, holds_text,
    lemma_find_from, lemma_next_of, lemma_texts_push, lines, lines_of, next_index_of, next_of,
    occurs_at, opt_text, tail, text_of, texts, trim, trimmed, views,
};
use vstd::prelude::*;
use vstd::string::*;

verus! {

/// llama.cpp's documented ladder, from `minimal` to `xhigh`. Used only as a
/// LABELLED fallback when a template clearly consumes `reasoning_effort` but
/// states no explicit set.
pub open spec fn ladder() -> Seq<Seq<char>> {
    seq!["minimal"@, "low"@, "medium"@, "high"@, "xhigh"@]
}

/// llama.cpp's documented ladder.
pub fn llama_cpp_levels() -> (r: Vec<String>)
    ensures
        texts(r@) == ladder(),
{
    let v: Vec<String> = vec![
        copy_text("minimal"),
        copy_text("low"),
        copy_text("medium"),
        copy_text("high"),
        copy_text("xhigh"),
    ];
    assert(texts(v@) =~= ladder());
    v
}

#[derive(Debug, Clone, PartialEq)]
pub struct ReasoningSupport {
    /// Accepted effort levels, in the order the template lists them.
    pub levels: Vec<String>,
    /// True when `levels` came from the template's own membership test;
    /// false when they are llama.cpp's documented ladder.
    pub levels_confirmed: bool,
    /// What the template uses when no effort is supplied — the value
    /// worth knowing, since it is often the most expensive one.
    pub default_level: Option<String>,
    /// The template branches on `enable_thinking`, so reasoning can be
    /// switched off wholesale (`--reasoning off`).
    pub can_disable: bool,
}

pub struct SupportView {
    pub levels: Seq<Seq<char>>,
    pub levels_confirmed: bool,
    pub default_level: Option<Seq<char>>,
    pub can_disable: bool,
}

impl View for ReasoningSupport {
    type V = SupportView;

    open spec fn view(&self) -> SupportView {
        SupportView {
            levels: texts(self.levels@),
            levels_confirmed: self.levels_confirmed,
            default_level: opt_text(self.default_level),
            can_disable: self.can_disable,
        }
    }
}

impl Default for ReasoningSupport {
    fn default() -> (r: ReasoningSupport)
        ensures
            r@.levels.len() == 0,
            !r.levels_confirmed,
            r.default_level is None,
            !r.can_disable,
    {
        ReasoningSupport {
            levels: Vec::new(),
            levels_confirmed: false,
            default_level: None,
            can_disable: false,
        }
    }
}

impl ReasoningSupport {
    pub fn is_supported(&self) -> (r: bool)
        ensures
            r == (self@.levels.len() > 0 || self.can_disable),
    {
        self.levels.len() > 0 || self.can_disable
    }
}

// ------------------------------------------------------------------ quoted strings

/// The quotes.
pub open spec fn quotes() -> Seq<char> {
    seq!['\'', '"']
}

/// The first quoted string, and where the text goes on behind it.
pub open spec fn first_quoted(s: Seq<char>) -> Option<(Seq<char>, int)> {
    let start = next_of(s, quotes(), 0);
    if 0 <= start < s.len() {
        let rest = s.skip(start + 1);
        let end = next_of(rest, seq![s[start]], 0);
        if 0 <= end < rest.len() {
            Some((rest.take(end), start + 1 + end + 1))
        } else {
            None
        }
    } else {
        None
    }
}

/// First single- or double-quoted string in `s`.
pub open spec fn quoted(s: Seq<char>) -> Option<Seq<char>> {
    match first_quoted(s) {
        Some(q) => Some(q.0),
        None => None,
    }
}

/// Every quoted string in a fragment.
pub open spec fn all_quoted(s: Seq<char>) -> Seq<Seq<char>>
    decreases s.len(),
{
    match first_quoted(s) {
        Some(q) => if 0 < q.1 <= s.len() {
            seq![q.0] + all_quoted(s.skip(q.1))
        } else {
            Seq::empty()
        },
        None => Seq::empty(),
    }
}

fn next_quoted<'a>(s: &'a [char]) -> (r: Option<(&'a [char], usize)>)
    ensures
        match r {
            Some(q) => first_quoted(s@) == Some((q.0@, q.1 as int)) && 0 < q.1 <= s.len(),
            None => first_quoted(s@) is None,
        },
{
    let marks: [char; 2] = ['\'', '"'];
    assert(marks@ =~= quotes());
    let start = next_index_of(s, &marks, 0);
    if start >= s.len() {
        return None;
    }
    let rest = tail(s, start + 1);
    let one: [char; 1] = [s[start]];
    assert(one@ =~= seq![s@[start as int]]);
    let end = next_index_of(rest, &one, 0);
    if end >= rest.len() {
        return None;
    }
    Some((head(rest, end), start + 1 + end + 1))
}

fn split_quoted(s: &[char]) -> (r: Vec<String>)
    ensures
        texts(r@) == all_quoted(s@),
{
    let mut out: Vec<String> = Vec::new();
    let mut rest: &[char] = s;
    assert(texts(out@) + all_quoted(s@) =~= all_quoted(s@));
    loop
        invariant
            texts(out@) + all_quoted(rest@) == all_quoted(s@),
        decreases rest.len(),
    {
        match next_quoted(rest) {
            Some(q) => {
                let ghost before = out@;
                let t = text_of(q.0);
                out.push(t);
                proof {
                    lemma_texts_push(before, t);
                }
                let next = tail(rest, q.1);
                assert(texts(out@) + all_quoted(next@) =~= texts(before) + (seq![t@] + all_quoted(
                    next@,
                )));
                rest = next;
            },
            None => {
                assert(texts(out@) + all_quoted(rest@) =~= texts(out@));
                return out;
            },
        }
    }
}

/// The quoted argument behind a needle, as in `…|default('X')`.
pub open spec fn default_after_of(template: Seq<char>, needle: Seq<char>) -> Option<Seq<char>> {
    match find(template, needle) {
        Some(i) => quoted(template.skip(i + needle.len())),
        None => None,
    }
}

fn default_after(template: &[char], needle: &str) -> (r: Option<String>)
    ensures
        opt_text(r) == default_after_of(template@, needle@),
{
    let n = chars_of(needle);
    assert(template@.len() == template.len());
    match find_text(template, &n) {
        Some(i) => match next_quoted(tail(template, i + n.len())) {
            Some(q) => Some(text_of(q.0)),
            None => None,
        },
        None => None,
    }
}

// ------------------------------------------------------------------------ aliases

/// The characters that `char::is_alphanumeric` calls letters or numbers.
pub uninterp spec fn is_alphanumeric(c: char) -> bool;

/// Calls `char::is_alphanumeric`, whose answer depends on the character alone.
#[verifier::external_body]
fn alphanumeric(c: char) -> (r: bool)
    ensures
        r == is_alphanumeric(c),
{
    c.is_alphanumeric()
}

/// A name that a template may give a variable.
pub open spec fn is_name(s: Seq<char>) -> bool {
    s.len() > 0 && forall|i: int| 0 <= i < s.len() ==> is_alphanumeric(#[trigger] s[i]) || s[i] == '_'
}

fn name_like(s: &[char]) -> (r: bool)
    ensures
        r == is_name(s@),
{
    if s.len() == 0 {
        return false;
    }
    let mut i: usize = 0;
    while i < s.len()
        invariant
            i <= s.len(),
            forall|k: int| 0 <= k < i ==> is_alphanumeric(#[trigger] s@[k]) || s@[k] == '_',
        decreases s.len() - i,
    {
        if !(alphanumeric(s[i]) || s[i] == '_') {
            return false;
        }
        i += 1;
    }
    true
}

/// What a line assigns from `reasoning_effort`.
pub open spec fn assigned(line: Seq<char>) -> Option<Seq<char>> {
    match find(line, "set "@) {
        Some(at) => {
            let rest = line.skip(at + 4);
            match find(rest, "="@) {
                Some(eq) => if contains(rest.skip(eq), "reasoning_effort"@) && is_name(
                    trim(rest.take(eq)),
                ) {
                    Some(trim(rest.take(eq)))
                } else {
                    None
                },
                None => None,
            }
        },
        None => None,
    }
}

/// Names a template assigns from `reasoning_effort`, so the validity
/// check can be found even when it tests an alias.
pub open spec fn aliases(l: Seq<Seq<char>>) -> Seq<Seq<char>>
    decreases l.len(),
{
    if l.len() == 0 {
        seq!["reasoning_effort"@]
    } else {
        let before = aliases(l.drop_last());
        match assigned(l.last()) {
            Some(name) => if before.contains(name) {
                before
            } else {
                before.push(name)
            },
            None => before,
        }
    }
}

fn assigned_name(line: &[char]) -> (r: Option<String>)
    ensures
        opt_text(r) == assigned(line@),
{
    let set = chars_of("set ");
    proof {
        reveal_strlit("set ");
    }
    assert(line@.len() == line.len());
    match find_text(line, &set) {
        Some(at) => {
            let rest = tail(line, at + 4);
            let equals = chars_of("=");
            match find_text(rest, &equals) {
                Some(eq) => {
                    let name = trimmed(head(rest, eq));
                    if has_text(tail(rest, eq), "reasoning_effort") && name_like(name) {
                        Some(text_of(name))
                    } else {
                        None
                    }
                },
                None => None,
            }
        },
        None => None,
    }
}

fn effort_aliases(l: &[&[char]]) -> (r: Vec<String>)
    ensures
        texts(r@) == aliases(views(l@)),
{
    let ghost all = views(l@);
    let mut names: Vec<String> = vec![copy_text("reasoning_effort")];
    assert(texts(names@) =~= seq!["reasoning_effort"@]);
    let mut i: usize = 0;
    assert(all.take(0) =~= Seq::empty());
    while i < l.len()
        invariant
            i <= l.len(),
            all == views(l@),
            texts(names@) == aliases(all.take(i as int)),
        decreases l.len() - i,
    {
        assert(all.take(i + 1).drop_last() =~= all.take(i as int));
        assert(all.take(i + 1).last() == l@[i as int]@);
        if let Some(name) = assigned_name(l[i]) {
            if !holds_text(&names, name.as_str()) {
                let ghost before = names@;
                names.push(name);
                proof {
                    lemma_texts_push(before, name);
                }
            }
        }
        i += 1;
    }
    assert(all.take(i as int) =~= all);
    names
}

// ------------------------------------------------------------------------- levels

/// What a line's membership test says: nothing; that there is none to be
/// found, where it is never closed; or the levels.
pub enum Test {
    Silent,
    Unclosed,
    Levels(Seq<Seq<char>>),
}

/// What the test behind an opener says.
pub open spec fn test_behind(line: Seq<char>, opener: Seq<char>) -> Test {
    match find(line, opener) {
        Some(at) => {
            let rest = line.skip(at + opener.len());
            let end = next_of(rest, seq![')', ']'], 0);
            if 0 <= end < rest.len() {
                let items = all_quoted(rest.take(end));
                if items.len() >= 2 {
                    Test::Levels(items)
                } else {
                    Test::Silent
                }
            } else {
                Test::Unclosed
            }
        },
        None => Test::Silent,
    }
}

/// What a line says of the levels: the first of its two openers that says
/// anything.
pub open spec fn test_of(line: Seq<char>) -> Test {
    match test_behind(line, " in ("@) {
        Test::Silent => test_behind(line, " in ["@),
        t => t,
    }
}

/// The line speaks of one of the names.
pub open spec fn mentions(line: Seq<char>, names: Seq<Seq<char>>) -> bool {
    exists|i: int| 0 <= i < names.len() && contains(line, #[trigger] names[i])
}

/// The levels from the first membership test on a line that mentions one of
/// the names; templates guard other variables too.
pub open spec fn levels_from(l: Seq<Seq<char>>, names: Seq<Seq<char>>, from: int) -> Option<
    Seq<Seq<char>>,
>
    decreases l.len() - from,
{
    if from < 0 || from >= l.len() {
        None
    } else if mentions(l[from], names) {
        match test_of(l[from]) {
            Test::Silent => levels_from(l, names, from + 1),
            Test::Unclosed => None,
            Test::Levels(v) => Some(v),
        }
    } else {
        levels_from(l, names, from + 1)
    }
}

/// What a test says, as computed.
enum Found {
    Silent,
    Unclosed,
    Levels(Vec<String>),
}

spec fn found(f: Found) -> Test {
    match f {
        Found::Silent => Test::Silent,
        Found::Unclosed => Test::Unclosed,
        Found::Levels(v) => Test::Levels(texts(v@)),
    }
}

fn read_test(line: &[char], opener: &str) -> (r: Found)
    ensures
        found(r) == test_behind(line@, opener@),
{
    let o = chars_of(opener);
    assert(line@.len() == line.len());
    match find_text(line, &o) {
        Some(at) => {
            let rest = tail(line, at + o.len());
            let close: [char; 2] = [')', ']'];
            assert(close@ =~= seq![')', ']']);
            let end = next_index_of(rest, &close, 0);
            if end >= rest.len() {
                return Found::Unclosed;
            }
            let items = split_quoted(head(rest, end));
            assert(texts(items@).len() == items.len());
            if items.len() >= 2 {
                Found::Levels(items)
            } else {
                Found::Silent
            }
        },
        None => Found::Silent,
    }
}

fn speaks_of(line: &[char], names: &[String]) -> (r: bool)
    ensures
        r == mentions(line@, texts(names@)),
{
    let mut i: usize = 0;
    while i < names.len()
        invariant
            i <= names.len(),
            forall|k: int| 0 <= k < i ==> !contains(line@, #[trigger] texts(names@)[k]),
        decreases names.len() - i,
    {
        assert(texts(names@)[i as int] == names@[i as int]@);
        if has_text(line, names[i].as_str()) {
            return true;
        }
        i += 1;
    }
    false
}

/// Levels from the template's own validity check — the authoritative
/// list, e.g. `resolved_reasoning_effort not in ('xhigh','medium','low')`.
fn membership_levels(l: &[&[char]]) -> (r: Option<Vec<String>>)
    ensures
        match r {
            Some(v) => levels_from(views(l@), aliases(views(l@)), 0) == Some(texts(v@)),
            None => levels_from(views(l@), aliases(views(l@)), 0) is None,
        },
{
    let names = effort_aliases(l);
    let ghost all = views(l@);
    let mut i: usize = 0;
    while i < l.len()
        invariant
            i <= l.len(),
            all == views(l@),
            texts(names@) == aliases(all),
            levels_from(all, aliases(all), 0) == levels_from(all, aliases(all), i as int),
        decreases l.len() - i,
    {
        assert(all[i as int] == l@[i as int]@);
        if speaks_of(l[i], &names) {
            let first = read_test(l[i], " in (");
            let test = match first {
                Found::Silent => read_test(l[i], " in ["),
                other => other,
            };
            assert(found(test) == test_of(all[i as int]));
            match test {
                Found::Silent => {},
                Found::Unclosed => {
                    return None;
                },
                Found::Levels(v) => {
                    return Some(v);
                },
            }
        }
        i += 1;
    }
    None
}

/// A template's reasoning contract.
pub open spec fn support_of(template: Seq<char>) -> Option<SupportView> {
    let effort = contains(template, "reasoning_effort"@);
    let can_disable = contains(template, "enable_thinking"@);
    if !effort && !can_disable {
        None
    } else if !effort {
        Some(
            SupportView {
                levels: Seq::empty(),
                levels_confirmed: false,
                default_level: None,
                can_disable,
            },
        )
    } else {
        let default_level = match default_after_of(template, "reasoning_effort|default("@) {
            Some(d) => Some(d),
            None => default_after_of(template, "reasoning_effort | default("@),
        };
        let stated = levels_from(lines(template), aliases(lines(template)), 0);
        let listed = match stated {
            Some(v) => v,
            None => ladder(),
        };
        Some(
            SupportView {
                levels: match default_level {
                    // a stated default that isn't in the set still belongs in
                    // the list — the model plainly accepts it
                    Some(d) => if listed.contains(d) {
                        listed
                    } else {
                        listed.insert(0, d)
                    },
                    None => listed,
                },
                levels_confirmed: stated is Some,
                default_level,
                can_disable,
            },
        )
    }
}

/// Levels that a template states are at least two.
proof fn lemma_levels(l: Seq<Seq<char>>, names: Seq<Seq<char>>, from: int)
    ensures
        match levels_from(l, names, from) {
            Some(v) => v.len() >= 2,
            None => true,
        },
    decreases l.len() - from,
{
    if 0 <= from < l.len() {
        lemma_levels(l, names, from + 1);
    }
}

/// Read a chat template's reasoning contract. `None` when the template
/// never mentions reasoning at all.
pub fn parse_support(template: &str) -> (r: Option<ReasoningSupport>)
    ensures
        match r {
            Some(s) => support_of(template@) == Some(s@),
            None => support_of(template@) is None,
        },
{
    let c = chars_of(template);
    let mentions_effort = has_text(&c, "reasoning_effort");
    let can_disable = has_text(&c, "enable_thinking");
    if !mentions_effort && !can_disable {
        return None;
    }
    let mut s = ReasoningSupport::default();
    s.can_disable = can_disable;
    if mentions_effort {
        s.default_level = match default_after(&c, "reasoning_effort|default(") {
            Some(d) => Some(d),
            None => default_after(&c, "reasoning_effort | default("),
        };
        let l = lines_of(&c);
        proof {
            lemma_levels(lines(template@), aliases(lines(template@)), 0);
        }
        match membership_levels(&l) {
            Some(v) => {
                s.levels = v;
                s.levels_confirmed = true;
            },
            None => {
                s.levels = llama_cpp_levels();
            },
        }
        if let Some(d) = &s.default_level {
            if !holds_text(&s.levels, d.as_str()) {
                let ghost before = texts(s.levels@);
                let d = d.clone();
                s.levels.insert(0, d);
                assert(texts(s.levels@) =~= before.insert(0, d@));
            }
        }
    }
    assert(s@.levels =~= support_of(template@)->0.levels);
    Some(s)
}

// ------------------------------------------------------------------------- laws

/// The level that a template uses by default is always offered.
pub proof fn the_default_is_always_offered(template: Seq<char>)
    requires
        support_of(template) is Some,
        support_of(template)->0.default_level is Some,
    ensures
        support_of(template)->0.levels.contains(support_of(template)->0.default_level->0),
{
    let s = support_of(template)->0;
    let d = s.default_level->0;
    let stated = levels_from(lines(template), aliases(lines(template)), 0);
    let listed = match stated {
        Some(v) => v,
        None => ladder(),
    };
    if !listed.contains(d) {
        assert(listed.insert(0, d)[0] == d);
    }
}

/// The text stands in the other, between quotes.
pub open spec fn quoted_in(s: Seq<char>, w: Seq<char>) -> bool {
    contains(s, seq!['\''] + w + seq!['\'']) || contains(s, seq!['"'] + w + seq!['"'])
}

/// What stands in a part stands in the whole.
proof fn lemma_in_part(h: Seq<char>, at: int, end: int, w: Seq<char>)
    requires
        0 <= at <= end <= h.len(),
        quoted_in(h.subrange(at, end), w),
    ensures
        quoted_in(h, w),
{
    let m = h.subrange(at, end);
    let single = seq!['\''] + w + seq!['\''];
    let double = seq!['"'] + w + seq!['"'];
    if contains(m, single) {
        let i = choose|i: int| occurs_at(m, single, i);
        assert(h.subrange(at + i, at + i + single.len()) =~= m.subrange(i, i + single.len()));
        assert(occurs_at(h, single, at + i));
    } else {
        let i = choose|i: int| occurs_at(m, double, i);
        assert(h.subrange(at + i, at + i + double.len()) =~= m.subrange(i, i + double.len()));
        assert(occurs_at(h, double, at + i));
    }
}

proof fn lemma_first_quoted(s: Seq<char>)
    ensures
        first_quoted(s) matches Some(q) ==> quoted_in(s, q.0) && 0 < q.1 <= s.len(),
{
    let start = next_of(s, quotes(), 0);
    lemma_next_of(s, quotes(), 0);
    if first_quoted(s) is Some {
        let rest = s.skip(start + 1);
        let end = next_of(rest, seq![s[start]], 0);
        lemma_next_of(rest, seq![s[start]], 0);
        assert(seq![s[start]].contains(rest[end]));
        assert(rest[end] == s[start]);
        assert(quotes().contains(s[start]));
        let w = rest.take(end);
        let all = seq![s[start]] + w + seq![s[start]];
        assert(s.subrange(start, start + all.len()) =~= all);
        assert(occurs_at(s, all, start));
        assert(s[start] == quotes()[0] || s[start] == quotes()[1]);
    }
}

proof fn lemma_all_quoted(s: Seq<char>, k: int)
    requires
        0 <= k < all_quoted(s).len(),
    ensures
        quoted_in(s, all_quoted(s)[k]),
    decreases s.len(),
{
    lemma_first_quoted(s);
    let q = first_quoted(s)->0;
    if k > 0 {
        let rest = s.skip(q.1);
        lemma_all_quoted(rest, k - 1);
        assert(rest =~= s.subrange(q.1, s.len() as int));
        lemma_in_part(s, q.1, s.len() as int, all_quoted(s)[k]);
    }
}

/// What stands in a line stands in the text.
proof fn lemma_in_line(t: Seq<char>, k: int, w: Seq<char>)
    requires
        0 <= k < lines(t).len(),
        quoted_in(lines(t)[k], w),
    ensures
        quoted_in(t, w),
    decreases t.len(),
{
    let e = next_of(t, seq!['\n'], 0);
    if 0 <= e < t.len() {
        if k == 0 {
            let line = chomp(t.take(e));
            assert(line =~= t.subrange(0, line.len() as int));
            lemma_in_part(t, 0, line.len() as int, w);
        } else {
            let rest = t.skip(e + 1);
            lemma_in_line(rest, k - 1, w);
            assert(rest =~= t.subrange(e + 1, t.len() as int));
            lemma_in_part(t, e + 1, t.len() as int, w);
        }
    }
}

proof fn lemma_test_behind(line: Seq<char>, opener: Seq<char>, w: Seq<char>)
    requires
        test_behind(line, opener) matches Test::Levels(v) && v.contains(w),
    ensures
        quoted_in(line, w),
{
    lemma_find_from(line, opener, 0);
    let at = find(line, opener)->0;
    let rest = line.skip(at + opener.len());
    let end = next_of(rest, seq![')', ']'], 0);
    let v = all_quoted(rest.take(end));
    let k = choose|k: int| 0 <= k < v.len() && v[k] == w;
    lemma_all_quoted(rest.take(end), k);
    let from = at + opener.len();
    assert(rest.take(end) =~= line.subrange(from, from + end));
    lemma_in_part(line, from, from + end, w);
}

proof fn lemma_levels_from(t: Seq<char>, names: Seq<Seq<char>>, from: int, w: Seq<char>)
    requires
        levels_from(lines(t), names, from) matches Some(v) && v.contains(w),
    ensures
        quoted_in(t, w),
    decreases lines(t).len() - from,
{
    let l = lines(t);
    if mentions(l[from], names) && test_of(l[from]) is Levels {
        if test_behind(l[from], " in ("@) is Silent {
            lemma_test_behind(l[from], " in ["@, w);
        } else {
            lemma_test_behind(l[from], " in ("@, w);
        }
        lemma_in_line(t, from, w);
    } else {
        lemma_levels_from(t, names, from + 1, w);
    }
}

proof fn lemma_default_quoted(t: Seq<char>, needle: Seq<char>)
    ensures
        default_after_of(t, needle) matches Some(d) ==> quoted_in(t, d),
{
    lemma_find_from(t, needle, 0);
    if default_after_of(t, needle) is Some {
        let from = find(t, needle)->0 + needle.len();
        let rest = t.skip(from);
        lemma_first_quoted(rest);
        assert(rest =~= t.subrange(from, t.len() as int));
        lemma_in_part(t, from, t.len() as int, quoted(rest)->0);
    }
}

/// A confirmed level is never made up: it stands in the template itself,
/// between quotes. So does the default level.
pub proof fn confirmed_levels_stand_in_the_template(template: Seq<char>, level: Seq<char>)
    requires
        support_of(template) matches Some(s) && (s.levels_confirmed && s.levels.contains(level)
            || s.default_level == Some(level)),
    ensures
        quoted_in(template, level),
{
    let s = support_of(template)->0;
    lemma_default_quoted(template, "reasoning_effort|default("@);
    lemma_default_quoted(template, "reasoning_effort | default("@);
    if s.default_level != Some(level) {
        let names = aliases(lines(template));
        let v = levels_from(lines(template), names, 0)->0;
        if !v.contains(level) {
            let d = s.default_level->0;
            let k = choose|k: int| 0 <= k < s.levels.len() && s.levels[k] == level;
            assert(k > 0 ==> v.insert(0, d)[k] == v[k - 1]);
            assert(v.contains(level));
        }
        lemma_levels_from(template, names, 0, level);
    }
}

/// Every template that speaks of reasoning gives something to choose.
pub proof fn a_contract_offers_something(template: Seq<char>)
    requires
        support_of(template) is Some,
    ensures
        support_of(template)->0.levels.len() > 0 || support_of(template)->0.can_disable,
{
    lemma_levels(lines(template), aliases(lines(template)), 0);
}

} // verus!
