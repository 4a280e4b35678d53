//! A map from texts to values that is walked in the order of its keys.
use crate::text::{
    before, chars_of, lemma_text_lt_irreflexive, lemma_text_lt_total, lemma_text_lt_transitive,
    same, text_lt,
};
use vstd::prelude::*;

verus! {

/// The keys stand in strictly increasing order, so none occurs twice.
pub open spec fn sorted<V>(s: Seq<(Seq<char>, V)>) -> bool {
    forall|i: int, j: int| 0 <= i < j < s.len() ==> text_lt(#[trigger] s[i].0, #[trigger] s[j].0)
}

/// The first place at or behind `from` whose key is not before `k`.
pub open spec fn rank_from<V>(s: Seq<(Seq<char>, V)>, k: Seq<char>, from: int) -> int
    decreases s.len() - from,
{
    if 0 <= from < s.len() && text_lt(s[from].0, k) {
        rank_from(s, k, from + 1)
    } else {
        from
    }
}

/// Where `k` stands, or would stand.
pub open spec fn rank<V>(s: Seq<(Seq<char>, V)>, k: Seq<char>) -> int {
    rank_from(s, k, 0)
}

/// The map has the key `k`.
pub open spec fn has_key<V>(s: Seq<(Seq<char>, V)>, k: Seq<char>) -> bool {
    rank(s, k) < s.len() && s[rank(s, k)].0 == k
}

/// The value of `k`.
pub open spec fn lookup<V>(s: Seq<(Seq<char>, V)>, k: Seq<char>) -> Option<V> {
    if has_key(s, k) {
        Some(s[rank(s, k)].1)
    } else {
        None
    }
}

/// The map with the value of `k` set to `v`.
pub open spec fn put<V>(s: Seq<(Seq<char>, V)>, k: Seq<char>, v: V) -> Seq<(Seq<char>, V)> {
    if has_key(s, k) {
        s.update(rank(s, k), (k, v))
    } else {
        s.insert(rank(s, k), (k, v))
    }
}

/// The map without the key `k`.
pub open spec fn drop_key<V>(s: Seq<(Seq<char>, V)>, k: Seq<char>) -> Seq<(Seq<char>, V)> {
    if has_key(s, k) {
        s.remove(rank(s, k))
    } else {
        s
    }
}

proof fn lemma_rank_from<V>(s: Seq<(Seq<char>, V)>, k: Seq<char>, from: int)
    requires
        0 <= from <= s.len(),
    ensures
        from <= rank_from(s, k, from) <= s.len(),
        forall|i: int| from <= i < rank_from(s, k, from) ==> text_lt(#[trigger] s[i].0, k),
        rank_from(s, k, from) < s.len() ==> !text_lt(s[rank_from(s, k, from)].0, k),
    decreases s.len() - from,
{
    if from < s.len() && text_lt(s[from].0, k) {
        lemma_rank_from(s, k, from + 1);
    }
}

/// Every key before the rank of `k` is less than `k`, and none behind it is.
pub proof fn lemma_rank<V>(s: Seq<(Seq<char>, V)>, k: Seq<char>)
    requires
        sorted(s),
    ensures
        0 <= rank(s, k) <= s.len(),
        forall|i: int| 0 <= i < rank(s, k) ==> text_lt(#[trigger] s[i].0, k),
        forall|i: int| rank(s, k) <= i < s.len() ==> !text_lt(#[trigger] s[i].0, k),
        forall|i: int|
            rank(s, k) <= i < s.len() ==> text_lt(k, #[trigger] s[i].0) || (s[i].0 == k && i
                == rank(s, k)),
{
    lemma_rank_from(s, k, 0);
    let r = rank(s, k);
    assert forall|i: int| r <= i < s.len() implies !text_lt(#[trigger] s[i].0, k) && (text_lt(
        k,
        s[i].0,
    ) || (s[i].0 == k && i == r)) by {
        lemma_text_lt_total(s[i].0, k);
        if i > r {
            assert(text_lt(s[r].0, s[i].0));
            lemma_text_lt_total(s[r].0, k);
            if s[r].0 == k {
                if text_lt(s[i].0, k) {
                    lemma_text_lt_transitive(k, s[i].0, k);
                    lemma_text_lt_irreflexive(k);
                }
                if s[i].0 == k {
                    lemma_text_lt_irreflexive(k);
                }
            } else {
                lemma_text_lt_transitive(k, s[r].0, s[i].0);
                if text_lt(s[i].0, k) {
                    lemma_text_lt_transitive(k, s[i].0, k);
                    lemma_text_lt_irreflexive(k);
                }
            }
        }
    }
}

/// A rank is fixed by what it parts.
proof fn lemma_rank_is<V>(s: Seq<(Seq<char>, V)>, k: Seq<char>, r: int)
    requires
        sorted(s),
        0 <= r <= s.len(),
        forall|i: int| 0 <= i < r ==> text_lt(#[trigger] s[i].0, k),
        r < s.len() ==> !text_lt(s[r].0, k),
    ensures
        rank(s, k) == r,
{
    lemma_rank(s, k);
    let q = rank(s, k);
    if q < r {
        assert(text_lt(s[q].0, k));
    }
    if r < q {
        assert(text_lt(s[r].0, k));
    }
}

/// `has_key` says that the key occurs.
pub proof fn lemma_has_key<V>(s: Seq<(Seq<char>, V)>, k: Seq<char>)
    requires
        sorted(s),
    ensures
        has_key(s, k) <==> exists|i: int| 0 <= i < s.len() && #[trigger] s[i].0 == k,
{
    lemma_rank(s, k);
    if has_key(s, k) {
        assert(s[rank(s, k)].0 == k);
    }
    if exists|i: int| 0 <= i < s.len() && #[trigger] s[i].0 == k {
        let i = choose|i: int| 0 <= i < s.len() && #[trigger] s[i].0 == k;
        lemma_text_lt_irreflexive(k);
    }
}

/// The entry at `i` is what its key looks up.
pub proof fn lemma_lookup_at<V>(s: Seq<(Seq<char>, V)>, i: int)
    requires
        sorted(s),
        0 <= i < s.len(),
    ensures
        rank(s, s[i].0) == i,
        has_key(s, s[i].0),
        lookup(s, s[i].0) == Some(s[i].1),
{
    lemma_rank(s, s[i].0);
    lemma_text_lt_irreflexive(s[i].0);
}

/// After a value is set, its key looks it up and every other key looks up
/// what it did before; the order of the keys is kept.
pub proof fn put_then_lookup<V>(s: Seq<(Seq<char>, V)>, k: Seq<char>, v: V, other: Seq<char>)
    requires
        sorted(s),
    ensures
        sorted(put(s, k, v)),
        lookup(put(s, k, v), k) == Some(v),
        other != k ==> lookup(put(s, k, v), other) == lookup(s, other),
{
    lemma_rank(s, k);
    lemma_rank(s, other);
    let r = rank(s, k);
    let t = put(s, k, v);
    let found = has_key(s, k);
    lemma_text_lt_irreflexive(k);
    assert forall|i: int, j: int| 0 <= i < j < t.len() implies text_lt(
        #[trigger] t[i].0,
        #[trigger] t[j].0,
    ) by {
        if !found {
            let a = if i < r {
                i
            } else {
                i - 1
            };
            let b = if j < r {
                j
            } else {
                j - 1
            };
            if i != r {
                assert(t[i] == s[a]);
            }
            if j != r {
                assert(t[j] == s[b]);
            }
            if i != r && j != r {
                assert(text_lt(s[a].0, s[b].0));
            }
        } else {
            assert(text_lt(s[i].0, s[j].0));
        }
    }
    assert(t[r] == (k, v));
    assert forall|i: int| 0 <= i < r implies text_lt(#[trigger] t[i].0, k) by {
        assert(t[i] == s[i]);
    }
    lemma_rank_is(t, k, r);
    if other != k {
        let q = rank(s, other);
        lemma_text_lt_total(k, other);
        let q2 = if !found && text_lt(k, other) {
            q + 1
        } else {
            q
        };
        if text_lt(k, other) {
            if text_lt(other, k) {
                lemma_text_lt_transitive(k, other, k);
            }
            if q < r {
                // s[q] is not before `other`, yet before k
                assert(text_lt(s[q].0, k));
                lemma_text_lt_transitive(s[q].0, k, other);
            }
        } else {
            if q > r {
                assert(text_lt(s[r].0, other));
                lemma_text_lt_transitive(s[r].0, other, k);
            }
        }
        assert forall|i: int| 0 <= i < q2 implies text_lt(#[trigger] t[i].0, other) by {
            if found || i < r {
                assert(t[i].0 == s[i].0);
            } else if i > r {
                assert(t[i] == s[i - 1]);
            }
        }
        if q2 < t.len() {
            if found {
                assert(t[q2].0 == s[q2].0);
            } else if q2 < r {
                assert(t[q2] == s[q2]);
            } else if q2 > r {
                assert(t[q2] == s[q2 - 1]);
            } else {
                assert(t[q2].0 == k);
                if text_lt(k, other) {
                    assert(q + 1 == r);
                    assert(text_lt(s[q].0, k));
                    lemma_text_lt_transitive(s[q].0, k, other);
                }
            }
        }
        lemma_rank_is(t, other, q2);
        if q2 < t.len() {
            if found {
                if q2 == r {
                    assert(t[q2].0 == k);
                    assert(s[q2].0 == k);
                } else {
                    assert(t[q2] == s[q2]);
                }
            } else if q2 < r {
                assert(t[q2] == s[q2]);
            } else if q2 > r {
                assert(t[q2] == s[q2 - 1]);
            } else {
                assert(t[q2].0 == k);
                if q < s.len() && s[q].0 == other {
                    assert(q == r);
                }
            }
        }
    }
}

/// After a key is taken away it looks up nothing and every other key looks up
/// what it did before; the order of the keys is kept.
pub proof fn drop_then_lookup<V>(s: Seq<(Seq<char>, V)>, k: Seq<char>, other: Seq<char>)
    requires
        sorted(s),
    ensures
        sorted(drop_key(s, k)),
        lookup(drop_key(s, k), k) is None,
        other != k ==> lookup(drop_key(s, k), other) == lookup(s, other),
{
    let t = drop_key(s, k);
    lemma_rank(s, k);
    lemma_rank(s, other);
    if has_key(s, k) {
        let r = rank(s, k);
        assert forall|i: int, j: int| 0 <= i < j < t.len() implies text_lt(
            #[trigger] t[i].0,
            #[trigger] t[j].0,
        ) by {
            let a = if i < r {
                i
            } else {
                i + 1
            };
            let b = if j < r {
                j
            } else {
                j + 1
            };
            assert(t[i] == s[a] && t[j] == s[b]);
            assert(text_lt(s[a].0, s[b].0));
        }
        lemma_text_lt_irreflexive(k);
        lemma_has_key(t, k);
        if has_key(t, k) {
            let i = choose|i: int| 0 <= i < t.len() && #[trigger] t[i].0 == k;
            let a = if i < r {
                i
            } else {
                i + 1
            };
            assert(t[i] == s[a]);
        }
        if other != k {
            lemma_has_key(t, other);
            lemma_has_key(s, other);
            if has_key(s, other) {
                let q = rank(s, other);
                assert(q != r);
                let b = if q < r {
                    q
                } else {
                    q - 1
                };
                assert(t[b] == s[q]);
                lemma_lookup_at(t, b);
            } else if has_key(t, other) {
                let i = choose|i: int| 0 <= i < t.len() && #[trigger] t[i].0 == other;
                let a = if i < r {
                    i
                } else {
                    i + 1
                };
                assert(t[i] == s[a]);
            }
        }
    }
}

/// Setting a key that was taken away before is setting it.
pub proof fn lemma_put_after_drop<V>(s: Seq<(Seq<char>, V)>, k: Seq<char>, v: V)
    requires
        sorted(s),
    ensures
        put(drop_key(s, k), k, v) == put(s, k, v),
{
    if has_key(s, k) {
        let t = drop_key(s, k);
        let r = rank(s, k);
        drop_then_lookup(s, k, k);
        lemma_rank(s, k);
        assert forall|i: int| 0 <= i < r implies text_lt(#[trigger] t[i].0, k) by {
            assert(t[i] == s[i]);
        }
        if r < t.len() {
            assert(t[r] == s[r + 1]);
        }
        lemma_rank_is(t, k, r);
        assert(put(t, k, v) =~= put(s, k, v));
    }
}

/// A map from texts to values, kept in the order of its keys.
#[derive(Debug)]
pub struct TextMap<V> {
    entries: Vec<(String, V)>,
}

impl<V> View for TextMap<V> {
    type V = Seq<(Seq<char>, V)>;

    /// The entries in the order of their keys.
    closed spec fn view(&self) -> Seq<(Seq<char>, V)> {
        Seq::new(self.entries@.len(), |i: int| (self.entries@[i].0@, self.entries@[i].1))
    }
}

impl<V> TextMap<V> {

    #[verifier::type_invariant]
    spec fn ordered(self) -> bool {
        sorted(self.view())
    }

    /// A map without entries.
    pub fn new() -> (m: TextMap<V>)
        ensures
            m@.len() == 0,
    {
        TextMap { entries: Vec::new() }
    }

    /// How many entries there are.
    pub fn len(&self) -> (n: usize)
        ensures
            n == self@.len(),
            sorted(self@),
    {
        proof {
            use_type_invariant(self);
        }
        self.entries.len()
    }

    /// Whether there is none.
    pub fn is_empty(&self) -> (r: bool)
        ensures
            r == (self@.len() == 0),
    {
        self.entries.len() == 0
    }

    /// The key of the `i`th entry.
    pub fn key_at(&self, i: usize) -> (k: &String)
        requires
            i < self@.len(),
        ensures
            k@ == self@[i as int].0,
    {
        &self.entries[i].0
    }

    /// The value of the `i`th entry.
    pub fn value_at(&self, i: usize) -> (v: &V)
        requires
            i < self@.len(),
        ensures
            *v == self@[i as int].1,
    {
        &self.entries[i].1
    }

    fn rank_of(&self, k: &[char]) -> (r: usize)
        ensures
            r as int == rank(self@, k@),
            r <= self@.len(),
    {
        let mut i: usize = 0;
        while i < self.entries.len()
            invariant
                i <= self@.len(),
                self@.len() == self.entries@.len(),
                rank(self@, k@) == rank_from(self@, k@, i as int),
            decreases self.entries.len() - i,
        {
            let c = chars_of(self.entries[i].0.as_str());
            if !before(&c, k) {
                return i;
            }
            i += 1;
        }
        i
    }

    fn position(&self, k: &[char]) -> (r: Option<usize>)
        ensures
            match r {
                Some(i) => has_key(self@, k@) && i as int == rank(self@, k@) && i < self@.len(),
                None => !has_key(self@, k@),
            },
    {
        let i = self.rank_of(k);
        if i < self.entries.len() {
            let c = chars_of(self.entries[i].0.as_str());
            if same(&c, k) {
                return Some(i);
            }
        }
        None
    }

    /// The value of `key`.
    pub fn get(&self, key: &str) -> (r: Option<&V>)
        ensures
            match r {
                Some(v) => lookup(self@, key@) == Some(*v),
                None => lookup(self@, key@) is None,
            },
            sorted(self@),
    {
        proof {
            use_type_invariant(self);
        }
        let k = chars_of(key);
        match self.position(&k) {
            Some(i) => Some(&self.entries[i].1),
            None => None,
        }
    }

    /// Whether `key` has a value.
    pub fn contains_key(&self, key: &str) -> (r: bool)
        ensures
            r == has_key(self@, key@),
    {
        let k = chars_of(key);
        self.position(&k).is_some()
    }

    /// Sets the value of `key`.
    pub fn insert(&mut self, key: String, value: V)
        ensures
            final(self)@ == put(old(self)@, key@, value),
            sorted(final(self)@),
    {
        proof {
            use_type_invariant(&*self);
            put_then_lookup(self@, key@, value, key@);
        }
        let ghost before = self@;
        let ghost k = key@;
        let c = chars_of(key.as_str());
        let r = self.rank_of(&c);
        let found = self.position(&c).is_some();
        let mut entries: Vec<(String, V)> = Vec::new();
        let ghost raw = self.entries@;
        core::mem::swap(&mut entries, &mut self.entries);
        if found {
            let _ = entries.remove(r);
            entries.insert(r, (key, value));
            assert(Seq::new(entries@.len(), |i: int| (entries@[i].0@, entries@[i].1)) =~= put(
                before,
                k,
                value,
            ));
        } else {
            entries.insert(r, (key, value));
            assert(Seq::new(entries@.len(), |i: int| (entries@[i].0@, entries@[i].1)) =~= put(
                before,
                k,
                value,
            ));
        }
        *self = TextMap { entries };
    }

    /// Takes `key` away and gives back its value.
    pub fn remove(&mut self, key: &str) -> (r: Option<V>)
        ensures
            final(self)@ == drop_key(old(self)@, key@),
            r == lookup(old(self)@, key@),
            sorted(final(self)@),
    {
        proof {
            use_type_invariant(&*self);
            drop_then_lookup(self@, key@, key@);
        }
        let ghost before = self@;
        let c = chars_of(key);
        match self.position(&c) {
            Some(i) => {
                let mut entries: Vec<(String, V)> = Vec::new();
                core::mem::swap(&mut entries, &mut self.entries);
                let e = entries.remove(i);
                assert(Seq::new(entries@.len(), |i: int| (entries@[i].0@, entries@[i].1))
                    =~= drop_key(before, key@));
                *self = TextMap { entries };
                Some(e.1)
            },
            None => None,
        }
    }
}

} // verus!
