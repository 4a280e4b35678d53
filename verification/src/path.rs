//! Unix paths as texts.
use crate::text::{
    chars_of, head, opt_text, parts_of, rfind, rfind_text, same, split_on, tail, text_of, texts,
    views,
};
use vstd::prelude::*;
use vstd::string::*;

verus! {

/// The path without separators and `.` parts at its end.
pub open spec fn bare(p: Seq<char>) -> Seq<char>
    decreases p.len(),
{
    if p.len() > 1 && p.last() == '/' {
        bare(p.drop_last())
    } else if p.len() > 1 && p.last() == '.' && p[p.len() - 2] == '/' {
        bare(p.drop_last())
    } else {
        p
    }
}

/// Where the last part of the path begins.
pub open spec fn last_start(p: Seq<char>) -> int {
    match rfind(p, seq!['/']) {
        Some(i) => i + 1,
        None => 0,
    }
}

/// The last part of the path, where it names a file.
pub open spec fn file_name(p: Seq<char>) -> Option<Seq<char>> {
    let q = bare(p);
    let name = q.skip(last_start(q));
    if name.len() == 0 || name == seq!['.'] || name == seq!['.', '.'] {
        None
    } else {
        Some(name)
    }
}

/// The path without its last part.
pub open spec fn parent(p: Seq<char>) -> Option<Seq<char>> {
    let q = bare(p);
    if q.len() == 0 || q == seq!['/'] {
        None
    } else if last_start(q) == 0 {
        Some(Seq::empty())
    } else if last_start(q) == 1 {
        Some(seq!['/'])
    } else {
        Some(bare(q.take(last_start(q) - 1)))
    }
}

/// How much of a file's name is its stem: what stands before the last dot,
/// or all of it where there is no dot but one at its start.
pub open spec fn stem_len(name: Seq<char>) -> int {
    match rfind(name, seq!['.']) {
        Some(i) => if i > 0 {
            i
        } else {
            name.len() as int
        },
        None => name.len() as int,
    }
}

/// The stem of the file's name.
pub open spec fn file_stem(p: Seq<char>) -> Option<Seq<char>> {
    match file_name(p) {
        Some(n) => Some(n.take(stem_len(n))),
        None => None,
    }
}

/// What stands behind the last dot of the file's name.
pub open spec fn extension(p: Seq<char>) -> Option<Seq<char>> {
    match file_name(p) {
        Some(n) => if stem_len(n) < n.len() {
            Some(n.skip(stem_len(n) + 1))
        } else {
            None
        },
        None => None,
    }
}

/// The relative path `rel` under `p`; an absolute one replaces `p`.
pub open spec fn join_path(p: Seq<char>, rel: Seq<char>) -> Seq<char> {
    if rel.len() > 0 && rel[0] == '/' {
        rel
    } else if p.len() == 0 || p.last() == '/' {
        p + rel
    } else {
        p + seq!['/'] + rel
    }
}

/// The path with its file's name replaced.
pub open spec fn with_file_name(p: Seq<char>, name: Seq<char>) -> Seq<char> {
    match (file_name(p), parent(p)) {
        (Some(_), Some(dir)) => join_path(dir, name),
        _ => join_path(p, name),
    }
}

/// The path with its file's extension replaced by a dot and `ext`.
pub open spec fn with_extension(p: Seq<char>, ext: Seq<char>) -> Seq<char> {
    match file_name(p) {
        Some(n) => {
            let q = bare(p);
            q.take(last_start(q) + stem_len(n)) + seq!['.'] + ext
        },
        None => p,
    }
}

/// The parts that count: neither empty nor a dot that is not the first.
pub open spec fn real_parts(parts: Seq<Seq<char>>) -> Seq<Seq<char>>
    decreases parts.len(),
{
    if parts.len() == 0 {
        Seq::empty()
    } else {
        let before = real_parts(parts.drop_last());
        let last = parts.last();
        if last.len() == 0 || (last == seq!['.'] && parts.len() > 1) {
            before
        } else {
            before.push(last)
        }
    }
}

/// The components of a path, the root among them. Two paths are the same
/// where their components are.
pub open spec fn components(p: Seq<char>) -> Seq<Seq<char>> {
    let parts = real_parts(split_on(p, '/'));
    if p.len() > 0 && p[0] == '/' {
        seq![seq!['/']] + parts
    } else {
        parts
    }
}

fn bare_of(p: &[char]) -> (r: &[char])
    ensures
        r@ == bare(p@),
        r.len() <= p.len(),
{
    let mut i: usize = p.len();
    assert(p@.take(i as int) =~= p@);
    while i > 1 && (p[i - 1] == '/' || (p[i - 1] == '.' && p[i - 2] == '/'))
        invariant
            i <= p.len(),
            bare(p@) == bare(p@.take(i as int)),
        decreases i,
    {
        assert(p@.take(i as int).drop_last() =~= p@.take(i - 1));
        i -= 1;
    }
    head(p, i)
}

fn last_start_of(p: &[char]) -> (r: usize)
    ensures
        r as int == last_start(p@),
        r <= p.len(),
{
    let slash: [char; 1] = ['/'];
    assert(slash@ =~= seq!['/']);
    assert(p@.len() == p.len());
    match rfind_text(p, &slash) {
        Some(i) => i + 1,
        None => 0,
    }
}

fn name_of(p: &[char]) -> (r: Option<&[char]>)
    ensures
        crate::text::opt_view(r) == file_name(p@),
{
    let q = bare_of(p);
    let name = tail(q, last_start_of(q));
    let dot: [char; 1] = ['.'];
    let dots: [char; 2] = ['.', '.'];
    assert(dot@ =~= seq!['.']);
    assert(dots@ =~= seq!['.', '.']);
    if name.len() == 0 || same(name, &dot) || same(name, &dots) {
        None
    } else {
        Some(name)
    }
}

fn stem_len_of(name: &[char]) -> (r: usize)
    ensures
        r as int == stem_len(name@),
        r <= name.len(),
{
    let dot: [char; 1] = ['.'];
    assert(dot@ =~= seq!['.']);
    match rfind_text(name, &dot) {
        Some(i) => if i > 0 {
            i
        } else {
            name.len()
        },
        None => name.len(),
    }
}

/// `file_name` as a string.
pub fn file_name_of(p: &str) -> (r: Option<String>)
    ensures
        opt_text(r) == file_name(p@),
{
    let c = chars_of(p);
    match name_of(&c) {
        Some(n) => Some(text_of(n)),
        None => None,
    }
}

/// `file_stem` as a string.
pub fn file_stem_of(p: &str) -> (r: Option<String>)
    ensures
        opt_text(r) == file_stem(p@),
{
    let c = chars_of(p);
    match name_of(&c) {
        Some(n) => Some(text_of(head(n, stem_len_of(n)))),
        None => None,
    }
}

/// `extension` as a string.
pub fn extension_of(p: &str) -> (r: Option<String>)
    ensures
        opt_text(r) == extension(p@),
{
    let c = chars_of(p);
    match name_of(&c) {
        Some(n) => {
            let k = stem_len_of(n);
            if k < n.len() {
                Some(text_of(tail(n, k + 1)))
            } else {
                None
            }
        },
        None => None,
    }
}

/// `parent` as a string.
pub fn parent_of(p: &str) -> (r: Option<String>)
    ensures
        opt_text(r) == parent(p@),
{
    let c = chars_of(p);
    let q = bare_of(&c);
    let root: [char; 1] = ['/'];
    assert(root@ =~= seq!['/']);
    if q.len() == 0 || same(q, &root) {
        return None;
    }
    let k = last_start_of(q);
    if k == 0 {
        Some(String::new())
    } else if k == 1 {
        Some(text_of(&root))
    } else {
        Some(text_of(bare_of(head(q, k - 1))))
    }
}

/// `join_path` as a string.
pub fn join_of(p: &str, rel: &str) -> (r: String)
    ensures
        r@ == join_path(p@, rel@),
{
    let a = chars_of(p);
    let b = chars_of(rel);
    if b.len() > 0 && b[0] == '/' {
        rel.to_owned()
    } else if a.len() == 0 || a[a.len() - 1] == '/' {
        let mut out = p.to_owned();
        out.append(rel);
        out
    } else {
        let mut out = p.to_owned();
        out.push('/');
        out.append(rel);
        assert(out@ =~= p@ + seq!['/'] + rel@);
        out
    }
}

/// `with_file_name` as a string.
pub fn with_file_name_of(p: &str, name: &str) -> (r: String)
    ensures
        r@ == with_file_name(p@, name@),
{
    match (file_name_of(p), parent_of(p)) {
        (Some(_), Some(dir)) => join_of(dir.as_str(), name),
        _ => join_of(p, name),
    }
}

/// `with_extension` as a string.
pub fn with_extension_of(p: &str, ext: &str) -> (r: String)
    ensures
        r@ == with_extension(p@, ext@),
{
    let c = chars_of(p);
    match name_of(&c) {
        Some(n) => {
            let q = bare_of(&c);
            let from = last_start_of(q);
            assert(n@ == q@.skip(from as int));
            let k = stem_len_of(n);
            let mut out = text_of(head(q, from + k));
            out.push('.');
            out.append(ext);
            assert(out@ =~= q@.take(from + k) + seq!['.'] + ext@);
            out
        },
        None => p.to_owned(),
    }
}

/// `components` as strings.
pub fn components_of(p: &str) -> (r: Vec<String>)
    ensures
        texts(r@) == components(p@),
{
    broadcast use {crate::text::lemma_texts_push, crate::text::lemma_views_push};

    let c = chars_of(p);
    let dot: [char; 1] = ['.'];
    let root: [char; 1] = ['/'];
    assert(dot@ =~= seq!['.']);
    assert(root@ =~= seq!['/']);
    let parts = parts_of(&c, '/');
    let ghost all = views(parts@);
    let mut out: Vec<String> = Vec::new();
    let ghost mut lead: Seq<Seq<char>> = Seq::empty();
    if c.len() > 0 && c[0] == '/' {
        out.push(text_of(&root));
        proof {
            lead = seq![seq!['/']];
        }
    }
    assert(texts(out@) =~= lead);
    let mut i: usize = 0;
    assert(real_parts(all.take(0)) =~= Seq::empty());
    while i < parts.len()
        invariant
            i <= parts.len(),
            all == views(parts@),
            dot@ == seq!['.'],
            texts(out@) == lead + real_parts(all.take(i as int)),
        decreases parts.len() - i,
    {
        assert(all.take(i + 1).drop_last() =~= all.take(i as int));
        assert(all.take(i + 1).last() == parts@[i as int]@);
        let part = parts[i];
        if part.len() == 0 || (i > 0 && same(part, &dot)) {
        } else {
            let ghost before = texts(out@);
            out.push(text_of(part));
            assert(texts(out@) == before.push(part@));
            assert(real_parts(all.take(i + 1)) == real_parts(all.take(i as int)).push(part@));
            assert(texts(out@) =~= lead + real_parts(all.take(i + 1)));
        }
        i += 1;
    }
    assert(all.take(i as int) =~= all);
    assert(texts(out@) =~= components(p@));
    out
}

/// The two paths have the same components.
pub fn same_path(a: &str, b: &str) -> (r: bool)
    ensures
        r == (components(a@) == components(b@)),
{
    let x = components_of(a);
    let y = components_of(b);
    if x.len() != y.len() {
        assert(texts(x@).len() != texts(y@).len());
        return false;
    }
    let mut i: usize = 0;
    while i < x.len()
        invariant
            x.len() == y.len(),
            texts(x@) == components(a@),
            texts(y@) == components(b@),
            i <= x.len(),
            forall|k: int| 0 <= k < i ==> texts(x@)[k] == texts(y@)[k],
        decreases x.len() - i,
    {
        if !(x[i] == y[i]) {
            assert(texts(x@)[i as int] != texts(y@)[i as int]);
            return false;
        }
        assert(texts(x@)[i as int] == texts(y@)[i as int]);
        i += 1;
    }
    assert(texts(x@) =~= texts(y@));
    true
}

/// The components of `dir` begin those of `p`: `p` is `dir` or under it.
pub open spec fn path_under(p: Seq<char>, dir: Seq<char>) -> bool {
    components(dir).is_prefix_of(components(p))
}

pub fn is_under(p: &str, dir: &str) -> (r: bool)
    ensures
        r == path_under(p@, dir@),
{
    let x = components_of(p);
    let y = components_of(dir);
    if y.len() > x.len() {
        assert(texts(y@).len() > texts(x@).len());
        return false;
    }
    let mut i: usize = 0;
    while i < y.len()
        invariant
            y.len() <= x.len(),
            texts(x@) == components(p@),
            texts(y@) == components(dir@),
            i <= y.len(),
            forall|k: int| 0 <= k < i ==> texts(x@)[k] == texts(y@)[k],
        decreases y.len() - i,
    {
        if !(x[i] == y[i]) {
            assert(texts(x@)[i as int] != texts(y@)[i as int]);
            assert(!texts(y@).is_prefix_of(texts(x@))) by {
                assert(texts(x@).subrange(0, y@.len() as int)[i as int] == texts(x@)[i as int]);
            }
            return false;
        }
        assert(texts(x@)[i as int] == texts(y@)[i as int]);
        i += 1;
    }
    assert(texts(y@) =~= texts(x@).subrange(0, y@.len() as int));
    true
}

// ------------------------------------------------------------- texts by path

/// The first place from `from` on whose path has the components of `p`.
pub open spec fn place_of(s: Seq<(Seq<char>, Seq<char>)>, p: Seq<char>, from: int) -> Option<int>
    decreases s.len() - from,
{
    if from < 0 || from >= s.len() {
        None
    } else if components(s[from].0) == components(p) {
        Some(from)
    } else {
        place_of(s, p, from + 1)
    }
}

/// What is kept for a path, however it is spelled.
pub open spec fn at_path(s: Seq<(Seq<char>, Seq<char>)>, p: Seq<char>) -> Option<Seq<char>> {
    match place_of(s, p, 0) {
        Some(i) => Some(s[i].1),
        None => None,
    }
}

/// The entries with a text kept for a path, in place of what was kept for it.
pub open spec fn with_path(s: Seq<(Seq<char>, Seq<char>)>, p: Seq<char>, v: Seq<char>) -> Seq<
    (Seq<char>, Seq<char>),
> {
    match place_of(s, p, 0) {
        Some(i) => s.update(i, (s[i].0, v)),
        None => s.push((p, v)),
    }
}

proof fn lemma_place(s: Seq<(Seq<char>, Seq<char>)>, p: Seq<char>, from: int)
    requires
        0 <= from,
    ensures
        match place_of(s, p, from) {
            Some(i) => from <= i < s.len() && components(s[i].0) == components(p) && forall|k: int|
                from <= k < i ==> components((#[trigger] s[k]).0) != components(p),
            None => forall|k: int|
                from <= k < s.len() ==> components((#[trigger] s[k]).0) != components(p),
        },
    decreases s.len() - from,
{
    if from < s.len() && components(s[from].0) != components(p) {
        lemma_place(s, p, from + 1);
    }
}

/// What is kept for a path is found under every spelling of it, and nothing
/// that is kept for another path changes.
pub proof fn keep_then_find(
    s: Seq<(Seq<char>, Seq<char>)>,
    p: Seq<char>,
    v: Seq<char>,
    q: Seq<char>,
)
    ensures
        at_path(with_path(s, p, v), q) == (if components(q) == components(p) {
            Some(v)
        } else {
            at_path(s, q)
        }),
{
    let t = with_path(s, p, v);
    lemma_place(s, p, 0);
    lemma_place(s, q, 0);
    lemma_place(t, q, 0);
    match place_of(s, p, 0) {
        Some(i) => {
            assert forall|k: int| 0 <= k < s.len() implies components((#[trigger] t[k]).0)
                == components(s[k].0) by {}
            match (place_of(s, q, 0), place_of(t, q, 0)) {
                (Some(a), Some(b)) => {
                    if a < b {
                        assert(components(t[a].0) == components(q));
                    } else if b < a {
                        assert(components(s[b].0) == components(t[b].0));
                    }
                },
                (Some(a), None) => {
                    assert(components(t[a].0) == components(q));
                },
                (None, Some(b)) => {
                    assert(components(s[b].0) == components(t[b].0));
                },
                _ => {},
            }
        },
        None => {
            let n = s.len() as int;
            assert(t[n] == (p, v));
            match (place_of(s, q, 0), place_of(t, q, 0)) {
                (Some(a), Some(b)) => {
                    assert(t[a] == s[a]);
                    if b < a {
                        assert(s[b] == t[b]);
                    }
                },
                (Some(a), None) => {
                    assert(t[a] == s[a]);
                },
                (None, Some(b)) => {
                    if b < n {
                        assert(s[b] == t[b]);
                    }
                },
                _ => {},
            }
        },
    }
}

/// Texts that are kept by path: two spellings of a path are one key.
pub struct PathMap {
    entries: Vec<(String, String)>,
}

pub open spec fn entry_views(v: Seq<(String, String)>) -> Seq<(Seq<char>, Seq<char>)> {
    Seq::new(v.len(), |i: int| (v[i].0@, v[i].1@))
}

impl View for PathMap {
    type V = Seq<(Seq<char>, Seq<char>)>;

    closed spec fn view(&self) -> Seq<(Seq<char>, Seq<char>)> {
        entry_views(self.entries@)
    }
}

impl PathMap {
    pub fn new() -> (r: PathMap)
        ensures
            r@.len() == 0,
    {
        PathMap { entries: Vec::new() }
    }

    fn find(&self, path: &str) -> (r: Option<usize>)
        ensures
            match r {
                Some(i) => i < self.entries@.len() && place_of(self@, path@, 0) == Some(i as int),
                None => place_of(self@, path@, 0) is None,
            },
    {
        let mut i: usize = 0;
        while i < self.entries.len()
            invariant
                i <= self.entries@.len(),
                place_of(self@, path@, 0) == place_of(self@, path@, i as int),
            decreases self.entries.len() - i,
        {
            assert(self@[i as int].0 == self.entries@[i as int].0@);
            if same_path(self.entries[i].0.as_str(), path) {
                return Some(i);
            }
            i += 1;
        }
        None
    }

    pub fn get(&self, path: &str) -> (r: Option<&String>)
        ensures
            match r {
                Some(s) => at_path(self@, path@) == Some(s@),
                None => at_path(self@, path@) is None,
            },
    {
        match self.find(path) {
            Some(i) => Some(&self.entries[i].1),
            None => None,
        }
    }

    pub fn contains_key(&self, path: &str) -> (r: bool)
        ensures
            r == (at_path(self@, path@) is Some),
    {
        self.find(path).is_some()
    }

    pub fn insert(&mut self, path: String, text: String)
        ensures
            final(self)@ == with_path(old(self)@, path@, text@),
    {
        let ghost before = self@;
        match self.find(path.as_str()) {
            Some(i) => {
                let (key, _) = self.entries.remove(i);
                self.entries.insert(i, (key, text));
                assert(self@ =~= before.update(i as int, (before[i as int].0, text@)));
            },
            None => {
                self.entries.push((path, text));
                assert(self@ =~= before.push((path@, text@)));
            },
        }
    }
}

/// A file in a directory is named by its name, and the directory is where it is.
pub proof fn a_joined_path_has_its_name(dir: Seq<char>, name: Seq<char>)
    requires
        dir.len() > 1,
        bare(dir) == dir,
        name.len() > 0,
        !name.contains('/'),
        name != seq!['.'],
        name != seq!['.', '.'],
    ensures
        file_name(join_path(dir, name)) == Some(name),
        parent(join_path(dir, name)) == Some(dir),
{
    let p = dir + seq!['/'] + name;
    assert(name[0] != '/') by {
        if name[0] == '/' {
            assert(name.contains('/'));
        }
    }
    lemma_bare_ends(dir);
    assert(join_path(dir, name) == p);
    lemma_last_slash(dir, name);
    assert(bare(p) == p) by {
        assert(p.last() == name.last());
        if p.last() == '/' {
            assert(name.contains('/'));
        }
        if p.last() == '.' && p[p.len() - 2] == '/' {
            if name.len() > 1 {
                assert(p[p.len() - 2] == name[name.len() - 2]);
                assert(name.contains('/'));
            } else {
                assert(name =~= seq!['.']);
            }
        }
    }
    let k = dir.len() as int;
    assert(last_start(p) == k + 1);
    assert(p.skip(k + 1) =~= name);
    assert(p.take(k) =~= dir);
}

/// A path that is bare does not end with a separator.
proof fn lemma_bare_ends(p: Seq<char>)
    requires
        p.len() > 1,
        bare(p) == p,
    ensures
        p.last() != '/',
{
    lemma_bare_len(p.drop_last());
}

proof fn lemma_bare_len(p: Seq<char>)
    ensures
        bare(p).len() <= p.len(),
    decreases p.len(),
{
    if p.len() > 1 && (p.last() == '/' || p.last() == '.' && p[p.len() - 2] == '/') {
        lemma_bare_len(p.drop_last());
    }
}

/// The last place of a character that stands nowhere behind it.
proof fn lemma_last_place(p: Seq<char>, c: char, k: int, from: int)
    requires
        0 <= k <= from < p.len(),
        p[k] == c,
        forall|j: int| k < j < p.len() ==> #[trigger] p[j] != c,
    ensures
        crate::text::rfind_from(p, seq![c], from) == Some(k),
    decreases from,
{
    let n = seq![c];
    assert(p.subrange(from, from + 1)[0] == p[from]);
    if from == k {
        assert(p.subrange(k, k + 1) =~= n);
    } else {
        assert(p.subrange(from, from + 1) != n) by {
            assert(n[0] == c);
        }
        lemma_last_place(p, c, k, from - 1);
    }
}

proof fn lemma_last_slash(dir: Seq<char>, name: Seq<char>)
    requires
        !name.contains('/'),
    ensures
        rfind(dir + seq!['/'] + name, seq!['/']) == Some(dir.len() as int),
{
    let p = dir + seq!['/'] + name;
    let k = dir.len() as int;
    assert forall|j: int| k < j < p.len() implies #[trigger] p[j] != '/' by {
        assert(p[j] == name[j - k - 1]);
        assert(name.contains(name[j - k - 1]));
    }
    lemma_last_place(p, '/', k, p.len() - 1);
}

/// A name's extension is what stands behind its last point, and its stem what stands before it.
pub proof fn a_point_parts_a_name(dir: Seq<char>, stem: Seq<char>, ext: Seq<char>, other: Seq<char>)
    requires
        dir.len() > 1,
        bare(dir) == dir,
        stem.len() > 0,
        !stem.contains('/'),
        !ext.contains('/'),
        !ext.contains('.'),
        stem + seq!['.'] + ext != seq!['.', '.'],
    ensures
        ({
            let p = join_path(dir, stem + seq!['.'] + ext);
            &&& extension(p) == Some(ext)
            &&& file_stem(p) == Some(stem)
            &&& with_extension(p, other) == dir + seq!['/'] + stem + seq!['.'] + other
        }),
{
    let name = stem + seq!['.'] + ext;
    assert(!name.contains('/')) by {
        if name.contains('/') {
            let j = choose|j: int| 0 <= j < name.len() && name[j] == '/';
            if j < stem.len() {
                assert(stem[j] == '/');
            } else if j > stem.len() {
                assert(ext[j - stem.len() - 1] == '/');
            }
        }
    }
    assert(name != seq!['.']) by {
        assert(name.len() >= 2);
    }
    a_joined_path_has_its_name(dir, name);
    lemma_last_point(stem, ext);
    assert(name.skip(stem.len() as int + 1) =~= ext);
    assert(name.take(stem.len() as int) =~= stem);
    let p = join_path(dir, name);
    assert(name[0] == stem[0]);
    assert(stem[0] != '/') by {
        if stem[0] == '/' {
            assert(stem.contains('/'));
        }
    }
    lemma_bare_ends(dir);
    assert(p == dir + seq!['/'] + name);
    lemma_last_slash(dir, name);
    assert(bare(p) == p) by {
        assert(p.last() == name.last());
        assert(name.contains(name.last()));
        assert(p[p.len() - 2] == name[name.len() - 2]);
        assert(name.contains(name[name.len() - 2]));
    }
    let q = bare(p);
    assert(q.take(last_start(q) + stem_len(name)) + seq!['.'] + other =~= dir + seq!['/'] + stem
        + seq!['.'] + other);
}

proof fn lemma_last_point(stem: Seq<char>, ext: Seq<char>)
    requires
        stem.len() > 0,
        !ext.contains('.'),
    ensures
        stem_len(stem + seq!['.'] + ext) == stem.len(),
{
    let p = stem + seq!['.'] + ext;
    let k = stem.len() as int;
    assert forall|j: int| k < j < p.len() implies #[trigger] p[j] != '.' by {
        assert(p[j] == ext[j - k - 1]);
        assert(ext.contains(ext[j - k - 1]));
    }
    lemma_last_place(p, '.', k, p.len() - 1);
}

/// A relative name below a directory stands behind a separator.
pub proof fn a_joined_path_is_below(dir: Seq<char>, name: Seq<char>)
    requires
        dir.len() > 1,
        bare(dir) == dir,
        name.len() > 0,
        name[0] != '/',
    ensures
        join_path(dir, name) == dir + seq!['/'] + name,
{
    lemma_bare_ends(dir);
}

} // verus!
