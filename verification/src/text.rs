//! Text as sequences of characters: searching, splitting, trimming and
//! joining, each stated over `Seq<char>` and computed over `&[char]`.
use vstd::prelude::*;
use vstd::string::*;

verus! {

// ---------------------------------------------------------------- conversions

/// The views of a sequence of strings.
pub open spec fn texts(v: Seq<String>) -> Seq<Seq<char>> {
    Seq::new(v.len(), |i: int| v[i]@)
}

/// The views of a sequence of character slices.
pub open spec fn views(v: Seq<&[char]>) -> Seq<Seq<char>> {
    Seq::new(v.len(), |i: int| v[i]@)
}

pub broadcast proof fn lemma_texts_push(v: Seq<String>, s: String)
    ensures
        #[trigger] texts(v.push(s)) == texts(v).push(s@),
{
    assert(texts(v.push(s)) =~= texts(v).push(s@));
}

pub broadcast proof fn lemma_views_push(v: Seq<&[char]>, s: &[char])
    ensures
        #[trigger] views(v.push(s)) == views(v).push(s@),
{
    assert(views(v.push(s)) =~= views(v).push(s@));
}

/// What `String::push` does: one more character at the end.
pub assume_specification[ String::push ](s: &mut String, c: char)
    ensures
        final(s)@ == old(s)@.push(c),
;

/// The characters of `s`, in order.
pub fn chars_of(s: &str) -> (r: Vec<char>)
    ensures
        r@ == s@,
{
    let mut v: Vec<char> = Vec::new();
    for c in it: s.chars()
        invariant
            it.seq() == s@,
            v@ == it.seq().take(it.index() as int),
    {
        v.push(c);
    }
    v
}

/// The text whose characters are `v`.
pub fn text_of(v: &[char]) -> (r: String)
    ensures
        r@ == v@,
{
    let mut s = String::new();
    let mut i: usize = 0;
    while i < v.len()
        invariant
            i <= v.len(),
            s@ == v@.take(i as int),
        decreases v.len() - i,
    {
        s.push(v[i]);
        i += 1;
    }
    assert(v@.take(v@.len() as int) =~= v@);
    s
}

/// Two texts hold the same characters.
pub fn same(a: &[char], b: &[char]) -> (r: bool)
    ensures
        r == (a@ == b@),
{
    if a.len() != b.len() {
        return false;
    }
    let mut i: usize = 0;
    while i < a.len()
        invariant
            a.len() == b.len(),
            i <= a.len(),
            forall|k: int| 0 <= k < i ==> a@[k] == b@[k],
        decreases a.len() - i,
    {
        if a[i] != b[i] {
            return false;
        }
        i += 1;
    }
    assert(a@ =~= b@);
    true
}

/// `a` and `b` are the same text.
pub fn same_text(a: &str, b: &str) -> (r: bool)
    ensures
        r == (a@ == b@),
{
    let x = chars_of(a);
    let y = chars_of(b);
    same(&x, &y)
}

/// A copy of the text.
pub fn copy_text(s: &str) -> (r: String)
    ensures
        r@ == s@,
{
    s.to_owned()
}

/// A copy of an optional text.
pub open spec fn opt_text(o: Option<String>) -> Option<Seq<char>> {
    match o {
        Some(s) => Some(s@),
        None => None,
    }
}

pub open spec fn opt_str(o: Option<&str>) -> Option<Seq<char>> {
    match o {
        Some(s) => Some(s@),
        None => None,
    }
}

pub fn copy_opt(o: &Option<String>) -> (r: Option<String>)
    ensures
        r == *o,
{
    match o {
        Some(s) => Some(s.clone()),
        None => None,
    }
}

pub fn copy_texts(v: &[String]) -> (r: Vec<String>)
    ensures
        r@ == v@,
{
    let mut out: Vec<String> = Vec::new();
    let mut i: usize = 0;
    while i < v.len()
        invariant
            i <= v.len(),
            out@ == v@.take(i as int),
        decreases v.len() - i,
    {
        out.push(v[i].clone());
        i += 1;
    }
    assert(v@.take(v@.len() as int) =~= v@);
    out
}

/// Some text of `v` is `s`.
pub fn holds_text(v: &[String], s: &str) -> (r: bool)
    ensures
        r == texts(v@).contains(s@),
{
    let want = chars_of(s);
    let mut i: usize = 0;
    while i < v.len()
        invariant
            i <= v.len(),
            want@ == s@,
            forall|k: int| 0 <= k < i ==> texts(v@)[k] != s@,
        decreases v.len() - i,
    {
        let c = chars_of(v[i].as_str());
        if same(&c, &want) {
            assert(texts(v@)[i as int] == s@);
            return true;
        }
        i += 1;
    }
    false
}

// ------------------------------------------------------------------ searching

/// `n` stands in `h` at `i`.
pub open spec fn occurs_at(h: Seq<char>, n: Seq<char>, i: int) -> bool {
    0 <= i && i + n.len() <= h.len() && h.subrange(i, i + n.len()) == n
}

/// `n` stands somewhere in `h`.
pub open spec fn contains(h: Seq<char>, n: Seq<char>) -> bool {
    exists|i: int| occurs_at(h, n, i)
}

/// The first place at or behind `from` where `n` stands in `h`.
pub open spec fn find_from(h: Seq<char>, n: Seq<char>, from: int) -> Option<int>
    decreases h.len() + 1 - from,
{
    if from < 0 || from + n.len() > h.len() {
        None
    } else if occurs_at(h, n, from) {
        Some(from)
    } else {
        find_from(h, n, from + 1)
    }
}

/// The first place where `n` stands in `h`.
pub open spec fn find(h: Seq<char>, n: Seq<char>) -> Option<int> {
    find_from(h, n, 0)
}

/// The last place at or before `from` where `n` stands in `h`.
pub open spec fn rfind_from(h: Seq<char>, n: Seq<char>, from: int) -> Option<int>
    decreases from + 1,
{
    if from < 0 {
        None
    } else if occurs_at(h, n, from) {
        Some(from)
    } else {
        rfind_from(h, n, from - 1)
    }
}

/// The last place where `n` stands in `h`.
pub open spec fn rfind(h: Seq<char>, n: Seq<char>) -> Option<int> {
    rfind_from(h, n, h.len() - n.len())
}

/// What `find_from` returns is the first place, and there is none otherwise.
pub proof fn lemma_find_from(h: Seq<char>, n: Seq<char>, from: int)
    requires
        0 <= from,
    ensures
        match find_from(h, n, from) {
            Some(i) => from <= i && occurs_at(h, n, i) && (forall|j: int|
                from <= j < i ==> !occurs_at(h, n, j)),
            None => forall|j: int| from <= j ==> !occurs_at(h, n, j),
        },
    decreases h.len() + 1 - from,
{
    if from + n.len() <= h.len() && !occurs_at(h, n, from) {
        lemma_find_from(h, n, from + 1);
    }
}

/// `find` finds a place exactly where the text is contained.
pub proof fn lemma_find(h: Seq<char>, n: Seq<char>)
    ensures
        find(h, n) is Some <==> contains(h, n),
        match find(h, n) {
            Some(i) => occurs_at(h, n, i),
            None => true,
        },
{
    lemma_find_from(h, n, 0);
}

pub proof fn lemma_rfind_from(h: Seq<char>, n: Seq<char>, from: int)
    ensures
        match rfind_from(h, n, from) {
            Some(i) => i <= from && occurs_at(h, n, i) && (forall|j: int|
                i < j <= from ==> !occurs_at(h, n, j)),
            None => forall|j: int| j <= from ==> !occurs_at(h, n, j),
        },
    decreases from + 1,
{
    if from >= 0 && !occurs_at(h, n, from) {
        lemma_rfind_from(h, n, from - 1);
    }
}

pub open spec fn starts_with(h: Seq<char>, n: Seq<char>) -> bool {
    occurs_at(h, n, 0)
}

pub open spec fn ends_with(h: Seq<char>, n: Seq<char>) -> bool {
    occurs_at(h, n, h.len() - n.len())
}

/// What stands behind the prefix `n`.
pub open spec fn strip_prefix(h: Seq<char>, n: Seq<char>) -> Option<Seq<char>> {
    if starts_with(h, n) {
        Some(h.skip(n.len() as int))
    } else {
        None
    }
}

/// What stands before the suffix `n`.
pub open spec fn strip_suffix(h: Seq<char>, n: Seq<char>) -> Option<Seq<char>> {
    if ends_with(h, n) {
        Some(h.take(h.len() - n.len()))
    } else {
        None
    }
}

/// The parts before and behind the first `n`.
pub open spec fn split_once(h: Seq<char>, n: Seq<char>) -> Option<(Seq<char>, Seq<char>)> {
    match find(h, n) {
        Some(i) => Some((h.take(i), h.skip(i + n.len()))),
        None => None,
    }
}

/// The parts before and behind the last `n`.
pub open spec fn rsplit_once(h: Seq<char>, n: Seq<char>) -> Option<(Seq<char>, Seq<char>)> {
    match rfind(h, n) {
        Some(i) => Some((h.take(i), h.skip(i + n.len()))),
        None => None,
    }
}

pub fn occurs(h: &[char], n: &[char], i: usize) -> (r: bool)
    requires
        i <= h.len(),
    ensures
        r == occurs_at(h@, n@, i as int),
{
    if n.len() > h.len() - i {
        return false;
    }
    let mut k: usize = 0;
    while k < n.len()
        invariant
            i + n.len() <= h.len(),
            k <= n.len(),
            forall|j: int| 0 <= j < k ==> h@[i + j] == n@[j],
        decreases n.len() - k,
    {
        if h[i + k] != n[k] {
            assert(h@.subrange(i as int, i + n@.len())[k as int] != n@[k as int]);
            return false;
        }
        k += 1;
    }
    assert(h@.subrange(i as int, i + n@.len()) =~= n@);
    true
}

pub fn find_at(h: &[char], n: &[char], from: usize) -> (r: Option<usize>)
    requires
        from <= h.len(),
    ensures
        match r {
            Some(i) => find_from(h@, n@, from as int) == Some(i as int) && from <= i && i
                + n@.len() <= h@.len(),
            None => find_from(h@, n@, from as int) is None,
        },
{
    let mut i: usize = from;
    while i <= h.len() && n.len() <= h.len() - i
        invariant
            from <= i <= h.len() + 1,
            i > h.len() ==> find_from(h@, n@, from as int) is None,
            i <= h.len() ==> find_from(h@, n@, from as int) == find_from(h@, n@, i as int),
        decreases h.len() + 1 - i,
    {
        if occurs(h, n, i) {
            return Some(i);
        }
        if i == h.len() {
            assert(find_from(h@, n@, i + 1) is None);
            return None;
        }
        i += 1;
    }
    None
}

/// The first place where `n` stands in `h`.
pub fn find_text(h: &[char], n: &[char]) -> (r: Option<usize>)
    ensures
        match r {
            Some(i) => find(h@, n@) == Some(i as int) && i + n@.len() <= h@.len(),
            None => find(h@, n@) is None,
        },
{
    find_at(h, n, 0)
}

/// The last place where `n` stands in `h`.
pub fn rfind_text(h: &[char], n: &[char]) -> (r: Option<usize>)
    ensures
        match r {
            Some(i) => rfind(h@, n@) == Some(i as int) && i + n@.len() <= h@.len(),
            None => rfind(h@, n@) is None,
        },
{
    if n.len() > h.len() {
        return None;
    }
    let mut i: usize = h.len() - n.len();
    loop
        invariant
            i + n.len() <= h.len(),
            rfind(h@, n@) == rfind_from(h@, n@, i as int),
        decreases i,
    {
        if occurs(h, n, i) {
            return Some(i);
        }
        if i == 0 {
            assert(rfind_from(h@, n@, -1) is None);
            return None;
        }
        i -= 1;
    }
}

/// `n` stands somewhere in `h`.
pub fn has(h: &[char], n: &[char]) -> (r: bool)
    ensures
        r == contains(h@, n@),
{
    proof {
        lemma_find(h@, n@);
    }
    find_text(h, n).is_some()
}

/// The text `n` stands somewhere in `h`.
pub fn has_text(h: &[char], n: &str) -> (r: bool)
    ensures
        r == contains(h@, n@),
{
    let v = chars_of(n);
    has(h, &v)
}

/// The text begins with `n`.
pub fn begins(h: &[char], n: &str) -> (r: bool)
    ensures
        r == starts_with(h@, n@),
{
    let v = chars_of(n);
    occurs(h, &v, 0)
}

/// The text ends with `n`.
pub fn ends(h: &[char], n: &str) -> (r: bool)
    ensures
        r == ends_with(h@, n@),
{
    let v = chars_of(n);
    if v.len() > h.len() {
        return false;
    }
    occurs(h, &v, h.len() - v.len())
}

/// The views of an optional slice and of an optional pair of slices.
pub open spec fn opt_view(o: Option<&[char]>) -> Option<Seq<char>> {
    match o {
        Some(s) => Some(s@),
        None => None,
    }
}

pub open spec fn opt_pair(o: Option<(&[char], &[char])>) -> Option<(Seq<char>, Seq<char>)> {
    match o {
        Some(p) => Some((p.0@, p.1@)),
        None => None,
    }
}

/// The slice from `i` on.
pub fn tail(h: &[char], i: usize) -> (r: &[char])
    requires
        i <= h.len(),
    ensures
        r@ == h@.skip(i as int),
{
    let r = vstd::slice::slice_subrange(h, i, h.len());
    assert(r@ =~= h@.skip(i as int));
    r
}

/// The slice before `i`.
pub fn head(h: &[char], i: usize) -> (r: &[char])
    requires
        i <= h.len(),
    ensures
        r@ == h@.take(i as int),
{
    let r = vstd::slice::slice_subrange(h, 0, i);
    assert(r@ =~= h@.take(i as int));
    r
}

pub fn without_prefix<'a>(h: &'a [char], n: &str) -> (r: Option<&'a [char]>)
    ensures
        opt_view(r) == strip_prefix(h@, n@),
{
    let v = chars_of(n);
    if occurs(h, &v, 0) {
        Some(tail(h, v.len()))
    } else {
        None
    }
}

pub fn without_suffix<'a>(h: &'a [char], n: &str) -> (r: Option<&'a [char]>)
    ensures
        opt_view(r) == strip_suffix(h@, n@),
{
    let v = chars_of(n);
    if v.len() <= h.len() && occurs(h, &v, h.len() - v.len()) {
        Some(head(h, h.len() - v.len()))
    } else {
        None
    }
}

pub fn cut_once<'a>(h: &'a [char], n: &str) -> (r: Option<(&'a [char], &'a [char])>)
    ensures
        opt_pair(r) == split_once(h@, n@),
{
    let v = chars_of(n);
    assert(h@.len() == h.len());
    match find_text(h, &v) {
        Some(i) => Some((head(h, i), tail(h, i + v.len()))),
        None => None,
    }
}

pub fn rcut_once<'a>(h: &'a [char], n: &str) -> (r: Option<(&'a [char], &'a [char])>)
    ensures
        opt_pair(r) == rsplit_once(h@, n@),
{
    let v = chars_of(n);
    assert(h@.len() == h.len());
    match rfind_text(h, &v) {
        Some(i) => Some((head(h, i), tail(h, i + v.len()))),
        None => None,
    }
}

// ------------------------------------------------------------------- trimming

/// The characters with Unicode's White_Space property.
pub open spec fn is_space(c: char) -> bool {
    let u = c as u32;
    ||| 0x9 <= u <= 0xd
    ||| u == 0x20
    ||| u == 0x85
    ||| u == 0xa0
    ||| u == 0x1680
    ||| 0x2000 <= u <= 0x200a
    ||| u == 0x2028
    ||| u == 0x2029
    ||| u == 0x202f
    ||| u == 0x205f
    ||| u == 0x3000
}

/// Whether the character is whitespace.
pub(crate) fn whitespace(c: char) -> (r: bool)
    ensures
        r == is_space(c),
{
    let u: u32 = c as u32;
    (0x9 <= u && u <= 0xd) || u == 0x20 || u == 0x85 || u == 0xa0 || u == 0x1680 || (0x2000 <= u
        && u <= 0x200a) || u == 0x2028 || u == 0x2029 || u == 0x202f || u == 0x205f || u == 0x3000
}

/// The text without the whitespace before it.
pub open spec fn trim_start(s: Seq<char>) -> Seq<char>
    decreases s.len(),
{
    if s.len() > 0 && is_space(s[0]) {
        trim_start(s.skip(1))
    } else {
        s
    }
}

/// The text without the whitespace behind it.
pub open spec fn trim_end(s: Seq<char>) -> Seq<char>
    decreases s.len(),
{
    if s.len() > 0 && is_space(s.last()) {
        trim_end(s.drop_last())
    } else {
        s
    }
}

/// The text without the whitespace on either side.
pub open spec fn trim(s: Seq<char>) -> Seq<char> {
    trim_end(trim_start(s))
}

/// The text without the characters of `set` before it.
pub open spec fn trim_start_of(s: Seq<char>, set: Seq<char>) -> Seq<char>
    decreases s.len(),
{
    if s.len() > 0 && set.contains(s[0]) {
        trim_start_of(s.skip(1), set)
    } else {
        s
    }
}

/// The text without the characters of `set` behind it.
pub open spec fn trim_end_of(s: Seq<char>, set: Seq<char>) -> Seq<char>
    decreases s.len(),
{
    if s.len() > 0 && set.contains(s.last()) {
        trim_end_of(s.drop_last(), set)
    } else {
        s
    }
}

pub fn trimmed_start(s: &[char]) -> (r: &[char])
    ensures
        r@ == trim_start(s@),
{
    let mut i: usize = 0;
    assert(s@.skip(0) =~= s@);
    while i < s.len() && whitespace(s[i])
        invariant
            i <= s.len(),
            trim_start(s@) == trim_start(s@.skip(i as int)),
        decreases s.len() - i,
    {
        assert(s@.skip(i as int).skip(1) =~= s@.skip(i + 1));
        i += 1;
    }
    tail(s, i)
}

pub fn trimmed_end(s: &[char]) -> (r: &[char])
    ensures
        r@ == trim_end(s@),
{
    let mut i: usize = s.len();
    assert(s@.take(i as int) =~= s@);
    while i > 0 && whitespace(s[i - 1])
        invariant
            i <= s.len(),
            trim_end(s@) == trim_end(s@.take(i as int)),
        decreases i,
    {
        assert(s@.take(i as int).drop_last() =~= s@.take(i - 1));
        i -= 1;
    }
    head(s, i)
}

pub fn trimmed(s: &[char]) -> (r: &[char])
    ensures
        r@ == trim(s@),
{
    trimmed_end(trimmed_start(s))
}

/// `c` is one of `set`.
pub fn one_of(c: char, set: &[char]) -> (r: bool)
    ensures
        r == set@.contains(c),
{
    let mut i: usize = 0;
    while i < set.len()
        invariant
            i <= set.len(),
            forall|k: int| 0 <= k < i ==> set@[k] != c,
        decreases set.len() - i,
    {
        if set[i] == c {
            assert(set@[i as int] == c);
            return true;
        }
        i += 1;
    }
    false
}

pub fn trimmed_start_of<'a>(s: &'a [char], set: &[char]) -> (r: &'a [char])
    ensures
        r@ == trim_start_of(s@, set@),
{
    let mut i: usize = 0;
    assert(s@.skip(0) =~= s@);
    while i < s.len() && one_of(s[i], set)
        invariant
            i <= s.len(),
            trim_start_of(s@, set@) == trim_start_of(s@.skip(i as int), set@),
        decreases s.len() - i,
    {
        assert(s@.skip(i as int).skip(1) =~= s@.skip(i + 1));
        i += 1;
    }
    tail(s, i)
}

pub fn trimmed_end_of<'a>(s: &'a [char], set: &[char]) -> (r: &'a [char])
    ensures
        r@ == trim_end_of(s@, set@),
{
    let mut i: usize = s.len();
    assert(s@.take(i as int) =~= s@);
    while i > 0 && one_of(s[i - 1], set)
        invariant
            i <= s.len(),
            trim_end_of(s@, set@) == trim_end_of(s@.take(i as int), set@),
        decreases i,
    {
        assert(s@.take(i as int).drop_last() =~= s@.take(i - 1));
        i -= 1;
    }
    head(s, i)
}

proof fn lemma_trim_start_len(s: Seq<char>)
    ensures
        trim_start(s).len() <= s.len(),
    decreases s.len(),
{
    if s.len() > 0 && is_space(s[0]) {
        lemma_trim_start_len(s.skip(1));
    }
}

// ------------------------------------------------------------------ splitting

/// The first place at or behind `from` that holds a character of `set`, or
/// the end.
pub open spec fn next_of(s: Seq<char>, set: Seq<char>, from: int) -> int
    decreases s.len() - from,
{
    if from < 0 || from >= s.len() {
        s.len() as int
    } else if set.contains(s[from]) {
        from
    } else {
        next_of(s, set, from + 1)
    }
}

/// The part before the first character of `set`, or the whole.
pub open spec fn before_any(s: Seq<char>, set: Seq<char>) -> Seq<char> {
    s.take(next_of(s, set, 0))
}

pub proof fn lemma_next_of(s: Seq<char>, set: Seq<char>, from: int)
    requires
        0 <= from <= s.len(),
    ensures
        from <= next_of(s, set, from) <= s.len(),
        next_of(s, set, from) < s.len() ==> set.contains(s[next_of(s, set, from)]),
        forall|k: int| from <= k < next_of(s, set, from) ==> !set.contains(s[k]),
    decreases s.len() - from,
{
    if from < s.len() && !set.contains(s[from]) {
        lemma_next_of(s, set, from + 1);
    }
}

pub fn next_index_of(s: &[char], set: &[char], from: usize) -> (r: usize)
    requires
        from <= s.len(),
    ensures
        r as int == next_of(s@, set@, from as int),
        from <= r <= s.len(),
        r < s.len() ==> set@.contains(s@[r as int]),
{
    let mut i: usize = from;
    while i < s.len()
        invariant
            from <= i <= s.len(),
            next_of(s@, set@, from as int) == next_of(s@, set@, i as int),
        decreases s.len() - i,
    {
        if one_of(s[i], set) {
            return i;
        }
        i += 1;
    }
    i
}

pub fn part_before_any<'a>(s: &'a [char], set: &[char]) -> (r: &'a [char])
    ensures
        r@ == before_any(s@, set@),
{
    let i = next_index_of(s, set, 0);
    head(s, i)
}

/// A line without the carriage return that ended it.
pub open spec fn chomp(s: Seq<char>) -> Seq<char> {
    if s.len() > 0 && s.last() == '\r' {
        s.drop_last()
    } else {
        s
    }
}

/// The lines of a text, as `str::lines` gives them: each ends with a line
/// feed, or a carriage return and a line feed; the last line end is optional.
pub open spec fn lines(s: Seq<char>) -> Seq<Seq<char>>
    decreases s.len(),
{
    if s.len() == 0 {
        Seq::empty()
    } else {
        let k = next_of(s, seq!['\n'], 0);
        if 0 <= k < s.len() {
            seq![chomp(s.take(k))] + lines(s.skip(k + 1))
        } else {
            seq![s]
        }
    }
}

pub fn lines_of<'a>(s: &'a [char]) -> (r: Vec<&'a [char]>)
    ensures
        views(r@) == lines(s@),
{
    broadcast use lemma_views_push;

    let nl: [char; 1] = ['\n'];
    assert(nl@ =~= seq!['\n']);
    let mut out: Vec<&'a [char]> = Vec::new();
    let mut rest: &'a [char] = s;
    assert(views(out@) + lines(s@) =~= lines(s@));
    while rest.len() > 0
        invariant
            nl@ == seq!['\n'],
            views(out@) + lines(rest@) == lines(s@),
        decreases rest.len(),
    {
        let k = next_index_of(rest, &nl, 0);
        let ghost before = views(out@);
        if k < rest.len() {
            let line = head(rest, k);
            let line = if line.len() > 0 && line[line.len() - 1] == '\r' {
                let l = head(line, line.len() - 1);
                assert(l@ =~= line@.drop_last());
                l
            } else {
                line
            };
            let next = tail(rest, k + 1);
            out.push(line);
            assert(views(out@) + lines(next@) =~= before + (seq![line@] + lines(next@)));
            rest = next;
        } else {
            out.push(rest);
            let next = tail(rest, rest.len());
            assert(views(out@) + lines(next@) =~= before + seq![rest@]);
            rest = next;
        }
    }
    assert(views(out@) + lines(rest@) =~= views(out@));
    out
}

/// The parts of a text between the characters `sep`; one more than there
/// are separators.
pub open spec fn split_on(s: Seq<char>, sep: char) -> Seq<Seq<char>>
    decreases s.len(),
{
    let k = next_of(s, seq![sep], 0);
    if 0 <= k < s.len() {
        seq![s.take(k)] + split_on(s.skip(k + 1), sep)
    } else {
        seq![s]
    }
}

pub fn parts_of<'a>(s: &'a [char], sep: char) -> (r: Vec<&'a [char]>)
    ensures
        views(r@) == split_on(s@, sep),
        r@.len() > 0,
{
    broadcast use lemma_views_push;

    let set: [char; 1] = [sep];
    assert(set@ =~= seq![sep]);
    let mut out: Vec<&'a [char]> = Vec::new();
    let mut rest: &'a [char] = s;
    assert(views(out@) + split_on(s@, sep) =~= split_on(s@, sep));
    loop
        invariant
            set@ == seq![sep],
            views(out@) + split_on(rest@, sep) == split_on(s@, sep),
        decreases rest.len(),
    {
        let k = next_index_of(rest, &set, 0);
        let ghost before = views(out@);
        if k < rest.len() {
            let part = head(rest, k);
            let next = tail(rest, k + 1);
            out.push(part);
            assert(views(out@) + split_on(next@, sep) =~= before + (seq![part@] + split_on(
                next@,
                sep,
            )));
            rest = next;
        } else {
            out.push(rest);
            assert(views(out@) =~= before + seq![rest@]);
            return out;
        }
    }
}

/// Where the word that begins at `from` ends.
pub open spec fn word_end(s: Seq<char>, from: int) -> int
    decreases s.len() - from,
{
    if from < 0 || from >= s.len() {
        s.len() as int
    } else if is_space(s[from]) {
        from
    } else {
        word_end(s, from + 1)
    }
}

pub proof fn lemma_word_end(s: Seq<char>, from: int)
    requires
        0 <= from <= s.len(),
    ensures
        from <= word_end(s, from) <= s.len(),
        from < s.len() && !is_space(s[from]) ==> from < word_end(s, from),
    decreases s.len() - from,
{
    if from < s.len() && !is_space(s[from]) {
        lemma_word_end(s, from + 1);
    }
}

/// The words of a text: the longest parts without whitespace.
pub open spec fn words(s: Seq<char>) -> Seq<Seq<char>>
    decreases s.len(),
{
    let t = trim_start(s);
    let k = word_end(t, 0);
    if 0 < k <= t.len() && t.len() <= s.len() {
        seq![t.take(k)] + words(t.skip(k))
    } else {
        Seq::empty()
    }
}

pub fn word_end_of(s: &[char]) -> (r: usize)
    ensures
        r as int == word_end(s@, 0),
        r <= s.len(),
{
    let mut i: usize = 0;
    while i < s.len()
        invariant
            i <= s.len(),
            word_end(s@, 0) == word_end(s@, i as int),
        decreases s.len() - i,
    {
        if whitespace(s[i]) {
            return i;
        }
        i += 1;
    }
    i
}

pub fn words_of<'a>(s: &'a [char]) -> (r: Vec<&'a [char]>)
    ensures
        views(r@) == words(s@),
{
    broadcast use lemma_views_push;

    let mut out: Vec<&'a [char]> = Vec::new();
    let mut rest: &'a [char] = s;
    assert(views(out@) + words(s@) =~= words(s@));
    loop
        invariant
            views(out@) + words(rest@) == words(s@),
        decreases rest.len(),
    {
        let t = trimmed_start(rest);
        proof {
            lemma_trim_start_len(rest@);
            lemma_word_end(t@, 0);
        }
        let k = word_end_of(t);
        if k == 0 {
            assert(views(out@) + words(rest@) =~= views(out@));
            return out;
        }
        let ghost before = views(out@);
        let word = head(t, k);
        let next = tail(t, k);
        out.push(word);
        assert(views(out@) + words(next@) =~= before + (seq![word@] + words(next@)));
        rest = next;
    }
}

/// The parts with `sep` between each two.
pub open spec fn join(parts: Seq<Seq<char>>, sep: Seq<char>) -> Seq<char>
    decreases parts.len(),
{
    if parts.len() == 0 {
        Seq::empty()
    } else if parts.len() == 1 {
        parts[0]
    } else {
        join(parts.drop_last(), sep) + sep + parts.last()
    }
}

/// Two runs of parts are joined as one.
pub proof fn lemma_join_append(a: Seq<Seq<char>>, b: Seq<Seq<char>>, sep: Seq<char>)
    requires
        a.len() > 0,
        b.len() > 0,
    ensures
        join(a + b, sep) == join(a, sep) + sep + join(b, sep),
    decreases b.len(),
{
    let all = a + b;
    assert(all.last() == b.last());
    assert(all.drop_last() =~= a + b.drop_last());
    if b.len() > 1 {
        lemma_join_append(a, b.drop_last(), sep);
        assert(join(all, sep) =~= join(a, sep) + sep + join(b, sep));
    } else {
        assert(all.drop_last() =~= a);
    }
}

/// The line feed that a text may end with.
pub open spec fn line_feed_of(s: Seq<char>) -> Seq<char> {
    if s.len() > 0 && s.last() == '\n' {
        "\n"@
    } else {
        Seq::empty()
    }
}

/// The lines of a text without carriage returns, joined again, are the text.
pub proof fn lemma_lines_join(s: Seq<char>)
    requires
        !s.contains('\r'),
    ensures
        s == join(lines(s), "\n"@) + line_feed_of(s),
        s.len() > 0 ==> lines(s).len() > 0,
    decreases s.len(),
{
    reveal_strlit("\n");
    assert("\n"@ =~= seq!['\n']);
    if s.len() > 0 {
        let k = next_of(s, seq!['\n'], 0);
        lemma_next_of(s, seq!['\n'], 0);
        if 0 <= k < s.len() {
            let head = s.take(k);
            let rest = s.skip(k + 1);
            assert(seq!['\n'].contains(s[k]));
            assert(s[k] == '\n');
            assert(chomp(head) == head) by {
                if head.len() > 0 && head.last() == '\r' {
                    assert(s[k - 1] == '\r');
                    assert(s.contains('\r'));
                }
            }
            assert forall|i: int| 0 <= i < rest.len() implies rest[i] != '\r' by {
                assert(s[k + 1 + i] == rest[i]);
            }
            lemma_lines_join(rest);
            assert(s =~= head + seq!['\n'] + rest);
            if rest.len() > 0 {
                lemma_join_append(seq![head], lines(rest), "\n"@);
                assert(rest.last() == s.last());
                assert(s =~= join(lines(s), "\n"@) + line_feed_of(s));
            } else {
                assert(lines(rest) =~= Seq::<Seq<char>>::empty());
                assert(lines(s) =~= seq![head]);
                assert(s.last() == '\n');
                assert(s =~= join(lines(s), "\n"@) + line_feed_of(s));
            }
        } else {
            assert(s.last() != '\n') by {
                assert(!seq!['\n'].contains(s.last()));
                assert(seq!['\n'][0] == '\n');
            }
            assert(s =~= join(lines(s), "\n"@) + line_feed_of(s));
        }
    } else {
        assert(s =~= join(lines(s), "\n"@) + line_feed_of(s));
    }
}

/// A text between two line feeds is one of the lines.
pub proof fn lemma_line_between(before: Seq<char>, line: Seq<char>, behind: Seq<char>)
    requires
        !line.contains('\n'),
        line.len() > 0 ==> line.last() != '\r',
    ensures
        lines(before + seq!['\n'] + line + seq!['\n'] + behind).contains(line),
    decreases before.len(),
{
    let nl = seq!['\n'];
    let t = before + nl + line + nl + behind;
    let k = next_of(t, nl, 0);
    lemma_next_of(t, nl, 0);
    assert(nl[0] == '\n');
    assert(t[before.len() as int] == '\n');
    assert(nl.contains(t[before.len() as int]));
    assert(k <= before.len());
    assert(nl.contains(t[k]));
    assert(t[k] == '\n');
    let rest = t.skip(k + 1);
    let all = seq![chomp(t.take(k))] + lines(rest);
    assert(lines(t) == all);
    if k < before.len() {
        assert(rest =~= before.skip(k + 1) + nl + line + nl + behind);
        lemma_line_between(before.skip(k + 1), line, behind);
        let i = choose|i: int| 0 <= i < lines(rest).len() && lines(rest)[i] == line;
        assert(all[i + 1] == line);
    } else {
        assert(rest =~= line + nl + behind);
        let e = next_of(rest, nl, 0);
        lemma_next_of(rest, nl, 0);
        assert(rest[line.len() as int] == '\n');
        assert(nl.contains(rest[line.len() as int]));
        assert(e <= line.len());
        assert(nl.contains(rest[e]));
        assert(rest[e] == '\n');
        if e < line.len() {
            assert(line[e] == '\n');
        }
        assert(rest.take(e) =~= line);
        assert(lines(rest)[0] == chomp(line));
        assert(all[1] == line);
    }
}

pub fn join_views(parts: &[&[char]], sep: &str) -> (r: String)
    ensures
        r@ == join(views(parts@), sep@),
{
    let mut out = String::new();
    let mut i: usize = 0;
    while i < parts.len()
        invariant
            i <= parts.len(),
            out@ == join(views(parts@).take(i as int), sep@),
        decreases parts.len() - i,
    {
        let ghost sofar = views(parts@).take(i + 1);
        assert(sofar.drop_last() =~= views(parts@).take(i as int));
        let t = text_of(parts[i]);
        if i > 0 {
            out.append(sep);
            out.append(t.as_str());
        } else {
            out = t;
        }
        assert(sofar.last() == parts@[i as int]@);
        i += 1;
    }
    assert(views(parts@).take(i as int) =~= views(parts@));
    out
}

pub fn join_texts(parts: &[String], sep: &str) -> (r: String)
    ensures
        r@ == join(texts(parts@), sep@),
{
    let mut out = String::new();
    let mut i: usize = 0;
    while i < parts.len()
        invariant
            i <= parts.len(),
            out@ == join(texts(parts@).take(i as int), sep@),
        decreases parts.len() - i,
    {
        let ghost sofar = texts(parts@).take(i + 1);
        assert(sofar.drop_last() =~= texts(parts@).take(i as int));
        if i > 0 {
            out.append(sep);
            out.append(parts[i].as_str());
        } else {
            out = parts[i].clone();
        }
        assert(sofar.last() == parts@[i as int]@);
        i += 1;
    }
    assert(texts(parts@).take(i as int) =~= texts(parts@));
    out
}

// --------------------------------------------------------------------- mapping

/// Every `from` replaced by `to`.
pub open spec fn replace_char(s: Seq<char>, from: char, to: char) -> Seq<char> {
    Seq::new(s.len(), |i: int| if s[i] == from { to } else { s[i] })
}

pub fn replaced_char(s: &[char], from: char, to: char) -> (r: Vec<char>)
    ensures
        r@ == replace_char(s@, from, to),
{
    let mut out: Vec<char> = Vec::new();
    let mut i: usize = 0;
    while i < s.len()
        invariant
            i <= s.len(),
            out@ == replace_char(s@, from, to).take(i as int),
        decreases s.len() - i,
    {
        out.push(if s[i] == from { to } else { s[i] });
        i += 1;
    }
    assert(out@ =~= replace_char(s@, from, to));
    out
}

/// The text without the characters `c`.
pub open spec fn remove_char(s: Seq<char>, c: char) -> Seq<char>
    decreases s.len(),
{
    if s.len() == 0 {
        Seq::empty()
    } else if s.last() == c {
        remove_char(s.drop_last(), c)
    } else {
        remove_char(s.drop_last(), c).push(s.last())
    }
}

pub fn removed_char(s: &[char], c: char) -> (r: Vec<char>)
    ensures
        r@ == remove_char(s@, c),
{
    let mut out: Vec<char> = Vec::new();
    let mut i: usize = 0;
    while i < s.len()
        invariant
            i <= s.len(),
            out@ == remove_char(s@.take(i as int), c),
        decreases s.len() - i,
    {
        assert(s@.take(i + 1).drop_last() =~= s@.take(i as int));
        if s[i] != c {
            out.push(s[i]);
        }
        i += 1;
    }
    assert(s@.take(i as int) =~= s@);
    out
}

/// The text is of ASCII characters alone.
pub open spec fn is_ascii(s: Seq<char>) -> bool {
    forall|i: int| 0 <= i < s.len() ==> (#[trigger] s[i] as u32) < 128
}

/// No letter from A to Z occurs.
pub open spec fn no_capitals(s: Seq<char>) -> bool {
    forall|i: int| 0 <= i < s.len() ==> !('A' <= #[trigger] s[i] <= 'Z')
}

/// The text with its ASCII letters in lower case.
pub open spec fn lowered(s: Seq<char>) -> Seq<char> {
    Seq::new(s.len(), |i: int| ascii_lower(s[i]))
}

/// The lower-case form that `str::to_lowercase` gives.
pub uninterp spec fn lowercase(s: Seq<char>) -> Seq<char>;

/// Calls `str::to_lowercase`, whose result depends on the text alone. It
/// gives the lower-case equivalent, in which no capital letter from A to Z is
/// left. Of an ASCII text it lowers the letters and keeps the rest.
#[verifier::external_body]
pub(crate) fn to_lower(s: &str) -> (r: String)
    ensures
        r@ == lowercase(s@),
        no_capitals(r@),
        is_ascii(s@) ==> r@ == lowered(s@),
{
    s.to_lowercase()
}

/// The quoted and escaped form in which `{:?}` shows a text.
pub uninterp spec fn debug_text(s: Seq<char>) -> Seq<char>;

/// Calls std's `Debug` formatting of `str`, which depends on the text alone.
#[verifier::external_body]
pub(crate) fn quote(s: &str) -> (r: String)
    ensures
        r@ == debug_text(s@),
{
    format!("{:?}", s)
}

/// The upper-case form that `str::to_uppercase` gives.
pub uninterp spec fn uppercase(s: Seq<char>) -> Seq<char>;

/// Calls `str::to_uppercase`, whose result depends on the text alone.
#[verifier::external_body]
pub(crate) fn to_upper(s: &str) -> (r: String)
    ensures
        r@ == uppercase(s@),
{
    s.to_uppercase()
}

/// The lower-case form of an ASCII letter; any other character itself.
pub open spec fn ascii_lower(c: char) -> char {
    if 'A' <= c <= 'Z' {
        ((c as u32 + 32) as u8) as char
    } else {
        c
    }
}

/// The texts agree but for the case of ASCII letters.
pub open spec fn same_ignoring_case(a: Seq<char>, b: Seq<char>) -> bool {
    a.len() == b.len() && forall|i: int|
        #![trigger a[i]]
        #![trigger b[i]]
        0 <= i < a.len() ==> ascii_lower(a[i]) == ascii_lower(b[i])
}

fn lower_ascii(c: char) -> (r: char)
    ensures
        r == ascii_lower(c),
{
    if 'A' <= c && c <= 'Z' {
        ((c as u32 + 32) as u8) as char
    } else {
        c
    }
}

pub fn equal_ignoring_case(a: &[char], b: &[char]) -> (r: bool)
    ensures
        r == same_ignoring_case(a@, b@),
{
    if a.len() != b.len() {
        return false;
    }
    let mut i: usize = 0;
    while i < a.len()
        invariant
            a.len() == b.len(),
            i <= a.len(),
            forall|k: int|
                #![trigger a@[k]]
                #![trigger b@[k]]
                0 <= k < i ==> ascii_lower(a@[k]) == ascii_lower(b@[k]),
        decreases a.len() - i,
    {
        if lower_ascii(a[i]) != lower_ascii(b[i]) {
            return false;
        }
        i += 1;
    }
    true
}

pub open spec fn is_digit(c: char) -> bool {
    '0' <= c <= '9'
}

pub fn digit(c: char) -> (r: bool)
    ensures
        r == is_digit(c),
{
    '0' <= c && c <= '9'
}

pub open spec fn is_alnum(c: char) -> bool {
    '0' <= c <= '9' || 'a' <= c <= 'z' || 'A' <= c <= 'Z'
}

pub fn alnum(c: char) -> (r: bool)
    ensures
        r == is_alnum(c),
{
    ('0' <= c && c <= '9') || ('a' <= c && c <= 'z') || ('A' <= c && c <= 'Z')
}

// ---------------------------------------------------------------------- order

/// `a` stands before `b` in the order of their characters, which is the
/// order that std gives strings.
pub open spec fn text_lt(a: Seq<char>, b: Seq<char>) -> bool
    decreases a.len(),
{
    if b.len() == 0 {
        false
    } else if a.len() == 0 {
        true
    } else if a[0] == b[0] {
        text_lt(a.skip(1), b.skip(1))
    } else {
        a[0] < b[0]
    }
}

pub proof fn lemma_text_lt_irreflexive(a: Seq<char>)
    ensures
        !text_lt(a, a),
    decreases a.len(),
{
    if a.len() > 0 {
        lemma_text_lt_irreflexive(a.skip(1));
    }
}

pub proof fn lemma_text_lt_transitive(a: Seq<char>, b: Seq<char>, c: Seq<char>)
    requires
        text_lt(a, b),
        text_lt(b, c),
    ensures
        text_lt(a, c),
    decreases a.len(),
{
    if a.len() > 0 && b.len() > 0 && c.len() > 0 && a[0] == b[0] && b[0] == c[0] {
        lemma_text_lt_transitive(a.skip(1), b.skip(1), c.skip(1));
    }
}

pub proof fn lemma_text_lt_total(a: Seq<char>, b: Seq<char>)
    ensures
        text_lt(a, b) || text_lt(b, a) || a == b,
    decreases a.len(),
{
    if a.len() > 0 && b.len() > 0 && a[0] == b[0] {
        lemma_text_lt_total(a.skip(1), b.skip(1));
        if a.skip(1) == b.skip(1) {
            assert(a =~= seq![a[0]] + a.skip(1));
            assert(b =~= seq![b[0]] + b.skip(1));
        }
    } else if a.len() == 0 && b.len() == 0 {
        assert(a =~= b);
    }
}

pub fn before(a: &[char], b: &[char]) -> (r: bool)
    ensures
        r == text_lt(a@, b@),
{
    let mut i: usize = 0;
    assert(a@.skip(0) =~= a@);
    assert(b@.skip(0) =~= b@);
    while i < a.len() && i < b.len()
        invariant
            i <= a.len(),
            i <= b.len(),
            text_lt(a@, b@) == text_lt(a@.skip(i as int), b@.skip(i as int)),
        decreases a.len() - i,
    {
        if a[i] != b[i] {
            return a[i] < b[i];
        }
        assert(a@.skip(i as int).skip(1) =~= a@.skip(i + 1));
        assert(b@.skip(i as int).skip(1) =~= b@.skip(i + 1));
        i += 1;
    }
    i < b.len()
}

/// The code points that Unicode gives the property White_Space.
pub open spec fn white_spaces() -> Seq<u32> {
    seq![
        9u32, 10, 11, 12, 13, 32, 133, 160, 5760, 8192, 8193, 8194, 8195, 8196, 8197, 8198, 8199,
        8200, 8201, 8202, 8232, 8233, 8239, 8287, 12_288,
    ]
}

/// What is taken for whitespace are the 25 characters that Unicode has for it.
pub proof fn whitespace_is_unicodes(c: char)
    ensures
        is_space(c) <==> white_spaces().contains(c as u32),
{
    let w = white_spaces();
    let u = c as u32;
    if is_space(c) {
        let i: int = if u <= 13 {
            u - 9
        } else if u == 32 {
            5
        } else if u == 133 {
            6
        } else if u == 160 {
            7
        } else if u == 5760 {
            8
        } else if u <= 8202 {
            u - 8192 + 9
        } else if u == 8232 {
            20
        } else if u == 8233 {
            21
        } else if u == 8239 {
            22
        } else if u == 8287 {
            23
        } else {
            24
        };
        assert(w[i] == u);
    }
    if w.contains(u) {
        let i = choose|i: int| 0 <= i < w.len() && w[i] == u;
        assert(w[i] == u);
    }
}

/// Whitespace on either side is taken off, and nothing else.
pub proof fn only_whitespace_is_trimmed(a: Seq<char>, t: Seq<char>, b: Seq<char>)
    requires
        forall|i: int| 0 <= i < a.len() ==> is_space(#[trigger] a[i]),
        forall|i: int| 0 <= i < b.len() ==> is_space(#[trigger] b[i]),
        t.len() > 0,
        !is_space(t[0]),
        !is_space(t.last()),
    ensures
        trim(a + t + b) == t,
        trim_start(a + t + b) == t + b,
        trim_end(a + t + b) == a + t,
{
    lemma_start_trimmed(a, t + b);
    assert(a + (t + b) =~= a + t + b);
    lemma_end_trimmed(t, b);
    lemma_end_trimmed(a + t, b);
    assert((t + b)[0] == t[0]);
    assert((a + t).last() == t.last());
}

proof fn lemma_start_trimmed(a: Seq<char>, t: Seq<char>)
    requires
        forall|i: int| 0 <= i < a.len() ==> is_space(#[trigger] a[i]),
        t.len() > 0,
        !is_space(t[0]),
    ensures
        trim_start(a + t) == t,
    decreases a.len(),
{
    if a.len() > 0 {
        let r = a.skip(1);
        assert((a + t)[0] == a[0]);
        assert((a + t).skip(1) =~= r + t);
        assert forall|i: int| 0 <= i < r.len() implies is_space(#[trigger] r[i]) by {
            assert(r[i] == a[i + 1]);
        }
        lemma_start_trimmed(r, t);
    } else {
        assert(a + t =~= t);
    }
}

proof fn lemma_end_trimmed(t: Seq<char>, b: Seq<char>)
    requires
        forall|i: int| 0 <= i < b.len() ==> is_space(#[trigger] b[i]),
        t.len() > 0,
        !is_space(t.last()),
    ensures
        trim_end(t + b) == t,
    decreases b.len(),
{
    if b.len() > 0 {
        let r = b.drop_last();
        assert((t + b).last() == b.last());
        assert((t + b).drop_last() =~= t + r);
        assert forall|i: int| 0 <= i < r.len() implies is_space(#[trigger] r[i]) by {
            assert(r[i] == b[i]);
        }
        assert(is_space(b[b.len() - 1]));
        lemma_end_trimmed(t, r);
    } else {
        assert(t + b =~= t);
    }
}

/// A text without whitespace is a word, and with whitespace behind it, the first of those
/// that follow.
pub proof fn words_stand_between_whitespace(w: Seq<char>, gap: Seq<char>, rest: Seq<char>)
    requires
        w.len() > 0,
        forall|i: int| 0 <= i < w.len() ==> !is_space(#[trigger] w[i]),
        gap.len() > 0,
        forall|i: int| 0 <= i < gap.len() ==> is_space(#[trigger] gap[i]),
    ensures
        words(w) == seq![w],
        words(w + gap + rest) == seq![w] + words(gap + rest),
{
    let s = w + gap + rest;
    assert(s[0] == w[0]);
    assert(trim_start(s) == s);
    lemma_word_ends(s, 0, w.len() as int);
    assert(s.take(w.len() as int) =~= w);
    assert(s.skip(w.len() as int) =~= gap + rest);
    assert(s[w.len() as int] == gap[0]);
    assert(trim_start(w) == w);
    lemma_word_ends(w, 0, w.len() as int);
    assert(w.take(w.len() as int) =~= w);
    let none = w.skip(w.len() as int);
    assert(none.len() == 0);
    assert(words(none) =~= Seq::<Seq<char>>::empty());
    assert(seq![w] + words(none) =~= seq![w]);
}

proof fn lemma_word_ends(s: Seq<char>, from: int, k: int)
    requires
        0 <= from <= k <= s.len(),
        forall|i: int| 0 <= i < k ==> !is_space(#[trigger] s[i]),
        k < s.len() ==> is_space(s[k]),
    ensures
        word_end(s, from) == k,
    decreases k - from,
{
    if from < k {
        lemma_word_ends(s, from + 1, k);
    }
}

/// A text is the parts between its separators, put together with them again.
pub proof fn parts_make_up_the_text(s: Seq<char>, sep: char)
    ensures
        join(split_on(s, sep), seq![sep]) == s,
        split_on(s, sep).len() > 0,
        forall|i: int|
            0 <= i < split_on(s, sep).len() ==> !(#[trigger] split_on(s, sep)[i]).contains(sep),
    decreases s.len(),
{
    let set = seq![sep];
    let k = next_of(s, set, 0);
    lemma_next_of(s, set, 0);
    assert(set[0] == sep);
    assert forall|x: Seq<char>| x == s.take(k) implies !x.contains(sep) by {
        if x.contains(sep) {
            let j = choose|j: int| 0 <= j < x.len() && x[j] == sep;
            assert(s[j] == sep);
            assert(set.contains(s[j]));
        }
    }
    if k < s.len() {
        let rest = s.skip(k + 1);
        parts_make_up_the_text(rest, sep);
        let p = split_on(rest, sep);
        let a = seq![s.take(k)];
        lemma_join_append(a, p, set);
        assert(split_on(s, sep) == a + p);
        assert(s[k] == sep);
        assert(s.take(k) + set + rest =~= s);
        assert forall|i: int| 0 <= i < (a + p).len() implies !(#[trigger] (a + p)[i]).contains(
            sep,
        ) by {
            if i > 0 {
                assert((a + p)[i] == p[i - 1]);
            }
        }
    } else {
        assert(s.take(k) =~= s);
    }
}

/// A text that begins with another is that text and the rest; so is one that ends with it.
pub proof fn what_is_stripped_makes_up_the_text(n: Seq<char>, rest: Seq<char>)
    ensures
        strip_prefix(n + rest, n) == Some(rest),
        strip_suffix(rest + n, n) == Some(rest),
{
    assert((n + rest).subrange(0, n.len() as int) =~= n);
    assert((n + rest).skip(n.len() as int) =~= rest);
    let t = rest + n;
    assert(t.subrange(t.len() - n.len(), t.len() as int) =~= n);
    assert(t.take(t.len() - n.len()) =~= rest);
}

} // verus!
