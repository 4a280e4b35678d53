//! The model library: one deduplicated view of every GGUF this machine has,
//! wherever it lives — the user's shelf directories, Ollama's blob store and
//! the HuggingFace hub cache.
//!
//! Servers answer what they're *serving*; the library answers what *could
//! be* served.
use crate::gguf::GgufMeta;
use crate::json::{
    array_of_json, json_document, json_views, member, str_in, text_of_json, Json, JsonView,
};
use crate::path::{
    components, components_of, extension, extension_of, file_stem, file_stem_of, is_under, join_of,
    join_path, path_under,
};
use crate::text::{
    alnum, before, chars_of, contains, copy_text, digit, ends, ends_with, equal_ignoring_case,
    has_text, is_alnum, is_ascii, is_digit, lowercase, lowered, next_index_of, next_of, no_capitals,
    opt_str, opt_text, replace_char, replaced_char, same_ignoring_case, same_text, text_lt, text_of,
    texts, to_lower, trim_end_of, trim_start_of, trimmed_end_of, trimmed_start_of,
};
use vstd::prelude::*;
use vstd::string::*;

verus! {

#[derive(Debug, Clone, PartialEq)]
pub enum Source {
    /// Found under a configured scan directory.
    Shelf,
    /// A weights blob in Ollama's store; `name` is the `model:tag` Ollama
    /// knows it by. The blob is a raw GGUF and llama-server can load it
    /// directly — zero duplication.
    Ollama { name: String },
    /// A file of the HuggingFace hub cache, which the router serves natively.
    HfHub { repo: String },
}

#[derive(Debug, Clone)]
pub struct ModelFile {
    pub path: String,
    pub file_size: u64,
    pub source: Source,
    /// `None` when the header couldn't be read; the file is still listed so
    /// a broken download is visible rather than invisible.
    pub meta: Option<GgufMeta>,
    /// The vision projector that is paired with the file.
    pub mmproj: Option<String>,
}

/// The label a row leads with: Ollama's name, or the file's stem, or the path.
pub open spec fn display_of(m: ModelFile) -> Seq<char> {
    match m.source {
        Source::Ollama { name } => name@,
        _ => match file_stem(m.path@) {
            Some(stem) => stem,
            None => m.path@,
        },
    }
}

/// The parts of a quantization's name begin with one of these letters.
pub open spec fn is_quant_name(t: Seq<char>) -> bool {
    ||| t.len() > 1 && t[0] == 'Q' && is_digit(t[1])
    ||| t.len() > 2 && t[0] == 'I' && t[1] == 'Q' && is_digit(t[2])
    ||| t.len() > 1 && t[0] == 'F' && is_digit(t[1])
    ||| t.len() > 2 && t[0] == 'B' && t[1] == 'F' && is_digit(t[2])
}

/// The upper-case form of an ASCII letter; any other character itself.
pub open spec fn ascii_upper(c: char) -> char {
    if 'a' <= c <= 'z' {
        ((c as u32 - 32) as u8) as char
    } else {
        c
    }
}

pub open spec fn upper_ascii(s: Seq<char>) -> Seq<char> {
    Seq::new(s.len(), |i: int| ascii_upper(s[i]))
}

/// The last part of `s` from `from` on, between dashes and dots, that is the
/// name of a quantization, in upper case.
pub open spec fn quant_from(s: Seq<char>, from: int) -> Option<Seq<char>>
    decreases s.len() - from,
{
    let end = next_of(s, seq!['-', '.'], from);
    if from < 0 || from > s.len() || end < from || end > s.len() {
        None
    } else {
        let part = upper_ascii(s.subrange(from, end));
        let later = if end < s.len() {
            quant_from(s, end + 1)
        } else {
            None
        };
        match later {
            Some(t) => Some(t),
            None => if is_quant_name(part) {
                Some(part)
            } else {
                None
            },
        }
    }
}

/// The quantization that a file's name states.
pub open spec fn quant_token(path: Seq<char>) -> Option<Seq<char>> {
    match file_stem(path) {
        Some(stem) => quant_from(stem, 0),
        None => None,
    }
}

fn upper(s: &[char]) -> (r: Vec<char>)
    ensures
        r@ == upper_ascii(s@),
{
    let mut out: Vec<char> = Vec::new();
    let mut i: usize = 0;
    while i < s.len()
        invariant
            i <= s.len(),
            out@ == upper_ascii(s@).take(i as int),
        decreases s.len() - i,
    {
        let c = s[i];
        out.push(
            if 'a' <= c && c <= 'z' {
                ((c as u32 - 32) as u8) as char
            } else {
                c
            },
        );
        i += 1;
    }
    assert(out@ =~= upper_ascii(s@));
    out
}

fn quant_name(t: &[char]) -> (r: bool)
    ensures
        r == is_quant_name(t@),
{
    (t.len() > 1 && t[0] == 'Q' && digit(t[1])) || (t.len() > 2 && t[0] == 'I' && t[1] == 'Q'
        && digit(t[2])) || (t.len() > 1 && t[0] == 'F' && digit(t[1])) || (t.len() > 2 && t[0]
        == 'B' && t[1] == 'F' && digit(t[2]))
}

fn quant_in(s: &[char], from: usize) -> (r: Option<String>)
    requires
        from <= s.len(),
    ensures
        opt_text(r) == quant_from(s@, from as int),
    decreases s.len() - from,
{
    let seps: [char; 2] = ['-', '.'];
    assert(seps@ =~= seq!['-', '.']);
    let end = next_index_of(s, &seps, from);
    if end < s.len() {
        let later = quant_in(s, end + 1);
        if later.is_some() {
            return later;
        }
    }
    let part = upper(vstd::slice::slice_subrange(s, from, end));
    if quant_name(&part) {
        Some(text_of(&part))
    } else {
        None
    }
}

/// The quantization that a file's name states, in upper case.
pub fn quant_token_from_filename(path: &str) -> (r: Option<String>)
    ensures
        opt_text(r) == quant_token(path@),
{
    match file_stem_of(path) {
        Some(stem) => {
            let c = chars_of(stem.as_str());
            quant_in(&c, 0)
        },
        None => None,
    }
}

/// The architecture is one that embeds texts and does not chat.
pub open spec fn embeds(meta: Option<GgufMeta>) -> bool {
    match meta {
        Some(m) => match m.architecture {
            Some(a) => contains(a@, "bert"@) || contains(a@, "embedding"@),
            None => false,
        },
        None => false,
    }
}

/// Whether the model embeds texts and does not chat.
pub fn is_embedding(meta: &Option<GgufMeta>) -> (r: bool)
    ensures
        r == embeds(*meta),
{
    if let Some(m) = meta {
        if let Some(a) = &m.architecture {
            let c = chars_of(a.as_str());
            return has_text(&c, "bert") || has_text(&c, "embedding");
        }
    }
    false
}

/// The id under which the router serves a file of the hub cache.
pub open spec fn cache_id(m: ModelFile) -> Option<Seq<char>> {
    match (m.source, quant_token(m.path@)) {
        (Source::HfHub { repo }, Some(tag)) => Some(repo@ + ":"@ + tag),
        _ => None,
    }
}

impl ModelFile {
    /// The label a row leads with: Ollama's name, or the file's stem, or the
    /// path where it has none.
    pub fn display_name(&self) -> (r: String)
        ensures
            r@ == display_of(*self),
    {
        match &self.source {
            Source::Ollama { name } => name.clone(),
            _ => match file_stem_of(self.path.as_str()) {
                Some(stem) => stem,
                None => self.path.clone(),
            },
        }
    }

    /// The id under which the router serves a file of the hub cache, where
    /// the file's name states its quantization.
    pub fn router_cache_id(&self) -> (r: Option<String>)
        ensures
            opt_text(r) == cache_id(*self),
    {
        match &self.source {
            Source::HfHub { repo } => match quant_token_from_filename(self.path.as_str()) {
                Some(tag) => {
                    let mut id = repo.clone();
                    id.append(":");
                    id.append(tag.as_str());
                    Some(id)
                },
                None => None,
            },
            _ => None,
        }
    }
}

// --------------------------------------------------------------------- aliases

/// The characters that survive shells, JSON keys and model ids.
pub open spec fn is_plain(c: char) -> bool {
    is_alnum(c) || c == '.' || c == '-' || c == '_'
}

/// Every other character replaced by a dash, and every run of dashes by one.
pub open spec fn dashed(s: Seq<char>) -> Seq<char>
    decreases s.len(),
{
    if s.len() == 0 {
        Seq::empty()
    } else {
        let p = dashed(s.drop_last());
        let c = if is_plain(s.last()) {
            s.last()
        } else {
            '-'
        };
        if c == '-' && p.len() > 0 && p.last() == '-' {
            p
        } else {
            p.push(c)
        }
    }
}

/// The alias made of a name in lower case.
pub open spec fn alias_of(lower: Seq<char>) -> Seq<char> {
    trim_end_of(trim_start_of(dashed(lower), seq!['-']), seq!['-'])
}

/// The alias made of a name in lower case.
pub fn alias_from_lower(lower: &str) -> (r: String)
    ensures
        r@ == alias_of(lower@),
{
    let c = chars_of(lower);
    let mut out: Vec<char> = Vec::new();
    let mut i: usize = 0;
    while i < c.len()
        invariant
            i <= c.len(),
            out@ == dashed(c@.take(i as int)),
        decreases c.len() - i,
    {
        assert(c@.take(i + 1).drop_last() =~= c@.take(i as int));
        let x = if alnum(c[i]) || c[i] == '.' || c[i] == '-' || c[i] == '_' {
            c[i]
        } else {
            '-'
        };
        if x == '-' && out.len() > 0 && out[out.len() - 1] == '-' {
        } else {
            out.push(x);
        }
        i += 1;
    }
    assert(c@.take(i as int) =~= c@);
    let dash: [char; 1] = ['-'];
    assert(dash@ =~= seq!['-']);
    text_of(trimmed_end_of(trimmed_start_of(&out, &dash), &dash))
}

/// Suggested serve alias for a model file: the file stem (or Ollama name),
/// lowercased, restricted to characters that survive shells, JSON keys, and
/// opencode model ids unquoted-ish. The user can always override.
pub fn alias_suggestion(m: &ModelFile) -> (r: String)
    ensures
        r@ == alias_of(lowercase(display_of(*m))),
        is_ascii(display_of(*m)) ==> r@ == alias_of(lowered(display_of(*m))),
        tidy(r@),
        no_capitals(r@),
        r@.len() > 0 ==> r@[0] != '-' && r@.last() != '-',
{
    let name = m.display_name();
    let lower = to_lower(name.as_str());
    proof {
        aliases_are_safe(lower@);
    }
    alias_from_lower(lower.as_str())
}

/// A text in which every character is plain and no two dashes stand together.
pub open spec fn tidy(s: Seq<char>) -> bool {
    &&& forall|i: int| 0 <= i < s.len() ==> is_plain(#[trigger] s[i])
    &&& forall|i: int| 0 <= i < s.len() - 1 ==> !(#[trigger] s[i] == '-' && s[i + 1] == '-')
}

proof fn lemma_dashed_tidy(s: Seq<char>)
    ensures
        tidy(dashed(s)),
    decreases s.len(),
{
    if s.len() > 0 {
        lemma_dashed_tidy(s.drop_last());
    }
}

proof fn lemma_trim_start_tidy(s: Seq<char>)
    requires
        tidy(s),
    ensures
        tidy(trim_start_of(s, seq!['-'])),
        trim_start_of(s, seq!['-']).len() > 0 ==> trim_start_of(s, seq!['-'])[0] != '-',
    decreases s.len(),
{
    if s.len() > 0 {
        assert(seq!['-'].contains(s[0]) <==> s[0] == '-') by {
            assert(seq!['-'][0] == '-');
        }
        if s[0] == '-' {
            let t = s.skip(1);
            assert(forall|i: int| 0 <= i < t.len() ==> #[trigger] t[i] == s[i + 1]);
            assert forall|i: int| 0 <= i < t.len() - 1 implies !(#[trigger] t[i] == '-' && t[i + 1]
                == '-') by {
                assert(!(s[i + 1] == '-' && s[i + 2] == '-'));
            }
            lemma_trim_start_tidy(t);
        }
    }
}

proof fn lemma_trim_end_tidy(s: Seq<char>)
    requires
        tidy(s),
        s.len() > 0 ==> s[0] != '-',
    ensures
        tidy(trim_end_of(s, seq!['-'])),
        trim_end_of(s, seq!['-']).len() > 0 ==> trim_end_of(s, seq!['-'])[0] != '-'
            && trim_end_of(s, seq!['-']).last() != '-',
    decreases s.len(),
{
    if s.len() > 0 {
        assert(seq!['-'].contains(s.last()) <==> s.last() == '-') by {
            assert(seq!['-'][0] == '-');
        }
        if s.last() == '-' {
            let t = s.drop_last();
            assert(forall|i: int| 0 <= i < t.len() ==> #[trigger] t[i] == s[i]);
            assert forall|i: int| 0 <= i < t.len() - 1 implies !(#[trigger] t[i] == '-' && t[i + 1]
                == '-') by {
                assert(!(s[i] == '-' && s[i + 1] == '-'));
            }
            lemma_trim_end_tidy(t);
        }
    }
}

proof fn lemma_dashed_low(s: Seq<char>)
    requires
        no_capitals(s),
    ensures
        no_capitals(dashed(s)),
    decreases s.len(),
{
    if s.len() > 0 {
        let t = s.drop_last();
        assert forall|i: int| 0 <= i < t.len() implies !('A' <= #[trigger] t[i] <= 'Z') by {
            assert(t[i] == s[i]);
        }
        lemma_dashed_low(t);
        assert(!('A' <= s[s.len() - 1] <= 'Z'));
    }
}

proof fn lemma_trim_low(s: Seq<char>)
    requires
        no_capitals(s),
    ensures
        no_capitals(trim_start_of(s, seq!['-'])),
        no_capitals(trim_end_of(s, seq!['-'])),
    decreases s.len(),
{
    if s.len() > 0 {
        let (t, u) = (s.skip(1), s.drop_last());
        assert forall|i: int| 0 <= i < t.len() implies !('A' <= #[trigger] t[i] <= 'Z') by {
            assert(t[i] == s[i + 1]);
        }
        assert forall|i: int| 0 <= i < u.len() implies !('A' <= #[trigger] u[i] <= 'Z') by {
            assert(u[i] == s[i]);
        }
        lemma_trim_low(t);
        lemma_trim_low(u);
    }
}

/// An alias holds only characters that survive shells and config files, has
/// no two dashes together, and neither begins nor ends with one. That of a
/// lower-cased name is in lower case.
pub proof fn aliases_are_safe(lower: Seq<char>)
    ensures
        tidy(alias_of(lower)),
        no_capitals(lower) ==> no_capitals(alias_of(lower)),
        alias_of(lower).len() > 0 ==> alias_of(lower)[0] != '-' && alias_of(lower).last() != '-',
{
    lemma_dashed_tidy(lower);
    lemma_trim_start_tidy(dashed(lower));
    lemma_trim_end_tidy(trim_start_of(dashed(lower), seq!['-']));
    if no_capitals(lower) {
        lemma_dashed_low(lower);
        lemma_trim_low(dashed(lower));
        lemma_trim_low(trim_start_of(dashed(lower), seq!['-']));
    }
}

// -------------------------------------------------------------------- the scan

/// Ollama's models stand behind all others.
pub open spec fn source_rank(m: ModelFile) -> nat {
    if m.source is Ollama {
        1
    } else {
        0
    }
}

/// `a` is listed before `b`: shelf first, then by name without its case.
pub open spec fn listed_before(a: ModelFile, b: ModelFile) -> bool {
    source_rank(a) < source_rank(b) || (source_rank(a) == source_rank(b) && text_lt(
        lowercase(display_of(a)),
        lowercase(display_of(b)),
    ))
}

/// The files whose resolved path none before them has.
pub open spec fn first_of_each(found: Seq<(ModelFile, String)>) -> Seq<ModelFile>
    decreases found.len(),
{
    if found.len() == 0 {
        Seq::empty()
    } else {
        let before = first_of_each(found.drop_last());
        if seen_path(found.drop_last(), found.last().1@) {
            before
        } else {
            before.push(found.last().0)
        }
    }
}

/// Some file of `found` resolves to `path`.
pub open spec fn seen_path(found: Seq<(ModelFile, String)>, path: Seq<char>) -> bool {
    exists|i: int|
        0 <= i < found.len() && crate::path::components(#[trigger] found[i].1@)
            == crate::path::components(path)
}

/// The first place from `from` on whose file is listed behind `m`.
pub open spec fn slot_from(s: Seq<ModelFile>, m: ModelFile, from: int) -> int
    decreases s.len() - from,
{
    if 0 <= from < s.len() && !listed_before(m, s[from]) {
        slot_from(s, m, from + 1)
    } else {
        from
    }
}

/// The files in the order in which they are listed; of two that are listed
/// alike the one that was found first comes first.
pub open spec fn arranged(s: Seq<ModelFile>) -> Seq<ModelFile>
    decreases s.len(),
{
    if s.len() == 0 {
        Seq::empty()
    } else {
        let before = arranged(s.drop_last());
        before.insert(slot_from(before, s.last(), 0), s.last())
    }
}

proof fn lemma_slot(s: Seq<ModelFile>, m: ModelFile, from: int)
    requires
        0 <= from <= s.len(),
    ensures
        from <= slot_from(s, m, from) <= s.len(),
        forall|i: int| from <= i < slot_from(s, m, from) ==> !listed_before(m, #[trigger] s[i]),
        slot_from(s, m, from) < s.len() ==> listed_before(m, s[slot_from(s, m, from)]),
    decreases s.len() - from,
{
    if from < s.len() && !listed_before(m, s[from]) {
        lemma_slot(s, m, from + 1);
    }
}

proof fn lemma_listed_before_transitive(a: ModelFile, b: ModelFile, c: ModelFile)
    requires
        listed_before(a, b),
        !listed_before(c, b),
    ensures
        listed_before(a, c),
{
    let (x, y, z) = (
        lowercase(display_of(a)),
        lowercase(display_of(b)),
        lowercase(display_of(c)),
    );
    crate::text::lemma_text_lt_total(y, z);
    crate::text::lemma_text_lt_total(z, y);
    if source_rank(a) == source_rank(b) && source_rank(b) == source_rank(c) {
        if text_lt(y, z) {
            crate::text::lemma_text_lt_transitive(x, y, z);
        }
    }
}

/// The listing holds the same files, and none stands before one that it
/// should be listed behind.
pub proof fn listing_is_ordered(s: Seq<ModelFile>)
    ensures
        arranged(s).to_multiset() == s.to_multiset(),
        forall|i: int, j: int|
            0 <= i < j < arranged(s).len() ==> !listed_before(
                #[trigger] arranged(s)[j],
                #[trigger] arranged(s)[i],
            ),
    decreases s.len(),
{
    broadcast use vstd::seq_lib::group_to_multiset_ensures;

    if s.len() > 0 {
        let t = s.drop_last();
        let m = s.last();
        listing_is_ordered(t);
        let before = arranged(t);
        let k = slot_from(before, m, 0);
        lemma_slot(before, m, 0);
        let after = before.insert(k, m);
        assert(s =~= t.push(m));
        assert(before.insert(k, m).to_multiset() =~= before.to_multiset().insert(m));
        assert forall|i: int, j: int| 0 <= i < j < after.len() implies !listed_before(
            #[trigger] after[j],
            #[trigger] after[i],
        ) by {
            let a = if i < k {
                i
            } else {
                i - 1
            };
            let b = if j < k {
                j
            } else {
                j - 1
            };
            if i != k {
                assert(after[i] == before[a]);
            }
            if j != k {
                assert(after[j] == before[b]);
            }
            if i != k && j != k {
                assert(!listed_before(before[b], before[a]));
            } else if i == k {
                // m stands at i, and what follows is not listed before it
                if listed_before(before[b], m) {
                    crate::text::lemma_text_lt_irreflexive(lowercase(display_of(m)));
                    if b == k {
                        assert(listed_before(m, before[k]));
                    } else {
                        assert(!listed_before(before[b], before[k]));
                        lemma_listed_before_transitive(m, before[k], before[b]);
                    }
                    assert(listed_before(m, before[b]));
                    if source_rank(m) == source_rank(before[b]) {
                        crate::text::lemma_text_lt_transitive(
                            lowercase(display_of(m)),
                            lowercase(display_of(before[b])),
                            lowercase(display_of(m)),
                        );
                    }
                }
            }
        }
    } else {
        assert(arranged(s) =~= s);
    }
}

/// Collapses the files found under the scan directories and stores — each
/// with the path it resolves to, or its own where that cannot be told — to
/// one entry per path, and lists them: shelf first (alphabetical), then
/// Ollama's entries.
pub fn scan(found: Vec<(ModelFile, String)>) -> (r: Vec<ModelFile>)
    ensures
        r@ == arranged(first_of_each(found@)),
{
    let ghost all = found@;
    let mut seen: Vec<String> = Vec::new();
    let mut kept: Vec<ModelFile> = Vec::new();
    let mut rest = found;
    let ghost mut i: int = 0;
    let n = rest.len();
    while rest.len() > 0
        invariant
            0 <= i <= all.len(),
            rest@ == all.skip(i),
            kept@ == first_of_each(all.take(i)),
            forall|k: Seq<char>| seen_in(seen@, k) == #[trigger] seen_path(all.take(i), k),
        decreases rest.len(),
    {
        let ghost sofar = all.take(i + 1);
        assert(sofar.drop_last() =~= all.take(i));
        assert(sofar.last() == all[i]);
        let (m, key) = rest.remove(0);
        assert(rest@ =~= all.skip(i + 1));
        let dup = holds_path(&seen, key.as_str());
        assert(seen_path(all.take(i), key@) == dup);
        let ghost old_seen = seen@;
        if !dup {
            kept.push(m);
        }
        seen.push(key);
        assert forall|k: Seq<char>| seen_in(seen@, k) == #[trigger] seen_path(sofar, k) by {
            assert(seen_in(old_seen, k) == seen_path(all.take(i), k));
            assert(sofar[i].1@ == key@);
            assert(seen@[old_seen.len() as int]@ == key@);
            if seen_in(old_seen, k) {
                let j = choose|j: int|
                    0 <= j < old_seen.len() && crate::path::components(#[trigger] old_seen[j]@)
                        == crate::path::components(k);
                assert(seen@[j]@ == old_seen[j]@);
                let l = choose|l: int|
                    0 <= l < all.take(i).len() && crate::path::components(
                        #[trigger] all.take(i)[l].1@,
                    ) == crate::path::components(k);
                assert(sofar[l] == all.take(i)[l]);
            }
            if seen_in(seen@, k) && !seen_in(old_seen, k) {
                let j = choose|j: int|
                    0 <= j < seen@.len() && crate::path::components(#[trigger] seen@[j]@)
                        == crate::path::components(k);
                if j < old_seen.len() {
                    assert(old_seen[j]@ == seen@[j]@);
                }
            }
            if seen_path(sofar, k) && !seen_path(all.take(i), k) {
                let l = choose|l: int|
                    0 <= l < sofar.len() && crate::path::components(#[trigger] sofar[l].1@)
                        == crate::path::components(k);
                if l < i {
                    assert(all.take(i)[l] == sofar[l]);
                }
            }
        }
        proof {
            i = i + 1;
        }
    }
    assert(all.take(i) =~= all) by {
        assert(all.skip(i).len() == 0);
    }
    arrange(kept)
}

/// Some path of `seen` is `k`.
pub open spec fn seen_in(seen: Seq<String>, k: Seq<char>) -> bool {
    exists|j: int|
        0 <= j < seen.len() && crate::path::components(#[trigger] seen[j]@)
            == crate::path::components(k)
}

fn holds_path(seen: &[String], k: &str) -> (r: bool)
    ensures
        r == seen_in(seen@, k@),
{
    let mut j: usize = 0;
    while j < seen.len()
        invariant
            j <= seen.len(),
            forall|l: int|
                0 <= l < j ==> crate::path::components(#[trigger] seen@[l]@)
                    != crate::path::components(k@),
        decreases seen.len() - j,
    {
        if crate::path::same_path(seen[j].as_str(), k) {
            assert(crate::path::components(seen@[j as int]@) == crate::path::components(k@));
            return true;
        }
        j += 1;
    }
    false
}

fn behind(a: &ModelFile, b: &ModelFile) -> (r: bool)
    ensures
        r == listed_before(*a, *b),
{
    let ra: u8 = if let Source::Ollama { .. } = a.source {
        1
    } else {
        0
    };
    let rb: u8 = if let Source::Ollama { .. } = b.source {
        1
    } else {
        0
    };
    if ra != rb {
        return ra < rb;
    }
    let x = to_lower(a.display_name().as_str());
    let y = to_lower(b.display_name().as_str());
    let cx = chars_of(x.as_str());
    let cy = chars_of(y.as_str());
    before(&cx, &cy)
}

fn arrange(files: Vec<ModelFile>) -> (r: Vec<ModelFile>)
    ensures
        r@ == arranged(files@),
{
    let ghost all = files@;
    let mut rest = files;
    let mut out: Vec<ModelFile> = Vec::new();
    let ghost mut i: int = 0;
    while rest.len() > 0
        invariant
            0 <= i <= all.len(),
            rest@ == all.skip(i),
            out@ == arranged(all.take(i)),
        decreases rest.len(),
    {
        assert(all.take(i + 1).drop_last() =~= all.take(i));
        assert(all.take(i + 1).last() == all[i]);
        let m = rest.remove(0);
        assert(rest@ =~= all.skip(i + 1));
        let mut k: usize = 0;
        while k < out.len() && !behind(&m, &out[k])
            invariant
                k <= out.len(),
                slot_from(out@, m, 0) == slot_from(out@, m, k as int),
            decreases out.len() - k,
        {
            k += 1;
        }
        out.insert(k, m);
        proof {
            i = i + 1;
        }
    }
    assert(all.take(i) =~= all) by {
        assert(all.skip(i).len() == 0);
    }
    out
}

// ------------------------------------------------------------- where to look

/// Ollama store locations worth probing.
pub open spec fn ollama_stores(env_store: Option<Seq<char>>, home: Option<Seq<char>>) -> Seq<
    Seq<char>,
> {
    (match env_store {
        Some(p) => seq![p],
        None => Seq::empty(),
    }) + (match home {
        Some(h) => seq![join_path(h, ".ollama/models"@)],
        None => Seq::empty(),
    }) + seq!["/usr/share/ollama/.ollama/models"@]
}

/// Ollama store locations worth probing, most specific first: what
/// `OLLAMA_MODELS` names, the per-user store, then the system service's
/// store. Only those that hold a `manifests` directory are stores.
pub fn default_ollama_stores(env_store: Option<&str>, home: Option<&str>) -> (r: Vec<String>)
    ensures
        texts(r@) == ollama_stores(opt_str(env_store), opt_str(home)),
{
    let mut out: Vec<String> = Vec::new();
    assert(texts(out@) =~= Seq::<Seq<char>>::empty());
    let ghost a = match opt_str(env_store) {
        Some(p) => seq![p],
        None => Seq::empty(),
    };
    if let Some(p) = env_store {
        out.push(copy_text(p));
    }
    assert(texts(out@) =~= a);
    let ghost b = match opt_str(home) {
        Some(h) => seq![join_path(h, ".ollama/models"@)],
        None => Seq::empty(),
    };
    if let Some(h) = home {
        out.push(join_of(h, ".ollama/models"));
    }
    assert(texts(out@) =~= a + b);
    out.push(copy_text("/usr/share/ollama/.ollama/models"));
    assert(texts(out@) =~= a + b + seq!["/usr/share/ollama/.ollama/models"@]);
    out
}

/// How deep below a shelf files are looked for: the layout is
/// `~/models/<ModelName>/<file>.gguf`, so a few levels is plenty.
pub const SHELF_DEPTH: usize = 3;

/// The file is a model by its name.
pub open spec fn named_gguf(path: Seq<char>) -> bool {
    match extension(path) {
        Some(x) => same_ignoring_case(x, "gguf"@),
        None => false,
    }
}

/// Whether a file is a model by its name.
pub fn is_gguf(path: &str) -> (r: bool)
    ensures
        r == named_gguf(path@),
{
    match extension_of(path) {
        Some(x) => {
            let a = chars_of(x.as_str());
            let b = chars_of("gguf");
            equal_ignoring_case(&a, &b)
        },
        None => false,
    }
}

// ------------------------------------------------------------ Ollama's manifests

/// The digest of a layer, where it is the one with the weights.
pub open spec fn weights_digest(l: JsonView) -> Option<Seq<char>> {
    match text_of_json(member(l, "mediaType"@)) {
        Some(t) => if ends_with(t, "image.model"@) {
            text_of_json(member(l, "digest"@))
        } else {
            None
        },
        None => None,
    }
}

/// The first layer with weights, from `from` on.
pub open spec fn weights_from(layers: Seq<JsonView>, from: int) -> Option<Seq<char>>
    decreases layers.len() - from,
{
    if from < 0 || from >= layers.len() {
        None
    } else {
        match weights_digest(layers[from]) {
            Some(d) => Some(d),
            None => weights_from(layers, from + 1),
        }
    }
}

/// The digest of the weights that a manifest names.
pub open spec fn manifest_digest(j: JsonView) -> Option<Seq<char>> {
    match array_of_json(member(j, "layers"@)) {
        Some(layers) => weights_from(layers, 0),
        None => None,
    }
}

/// The digest of the weights that a manifest names: its layer whose mediaType
/// ends with `image.model`.
pub fn weights_in(manifest: &Json) -> (r: Option<String>)
    ensures
        opt_text(r) == manifest_digest(manifest@),
{
    let layers = match manifest.get("layers") {
        Some(l) => match l.as_array() {
            Some(a) => a,
            None => {
                return None;
            },
        },
        None => {
            return None;
        },
    };
    let ghost all = json_views(layers@);
    let mut i: usize = 0;
    while i < layers.len()
        invariant
            i <= layers.len(),
            all == json_views(layers@),
            manifest_digest(manifest@) == weights_from(all, 0),
            weights_from(all, 0) == weights_from(all, i as int),
        decreases layers.len() - i,
    {
        assert(all[i as int] == layers@[i as int]@);
        if let Some(t) = str_in(layers[i].get("mediaType")) {
            let c = chars_of(t.as_str());
            if ends(&c, "image.model") {
                if let Some(d) = str_in(layers[i].get("digest")) {
                    return Some(d);
                }
            }
        }
        i += 1;
    }
    None
}

/// The name Ollama knows a model by, from the parts of its manifest's path
/// below `manifests`: `<host>/<namespace>/<name>/<tag>`; the namespace is
/// kept when it isn't `library`.
pub open spec fn ollama_name(parts: Seq<Seq<char>>) -> Option<Seq<char>> {
    if parts.len() != 4 {
        None
    } else if parts[1] == "library"@ {
        Some(parts[2] + ":"@ + parts[3])
    } else {
        Some(parts[1] + "/"@ + parts[2] + ":"@ + parts[3])
    }
}

/// The parts of a path below a directory.
pub open spec fn parts_below(p: Seq<char>, dir: Seq<char>) -> Option<Seq<Seq<char>>> {
    if path_under(p, dir) {
        Some(components(p).skip(components(dir).len() as int))
    } else {
        None
    }
}

/// The weights blob and the name that a manifest's text stands for.
pub open spec fn manifest_entry(
    store: Seq<char>,
    manifests_root: Seq<char>,
    manifest: Seq<char>,
    doc: JsonView,
) -> Option<(Seq<char>, Seq<char>)> {
    match (manifest_digest(doc), parts_below(manifest, manifests_root)) {
        (Some(d), Some(parts)) => match ollama_name(parts) {
            Some(name) => Some(
                (join_path(join_path(store, "blobs"@), replace_char(d, ':', '-')), name),
            ),
            None => None,
        },
        _ => None,
    }
}

/// The weights blob and the name of an Ollama manifest that holds `doc`.
pub fn entry_of_manifest(store: &str, manifests_root: &str, manifest: &str, doc: &Json) -> (r:
    Option<(String, String)>)
    ensures
        match r {
            Some((blob, name)) => manifest_entry(store@, manifests_root@, manifest@, doc@) == Some(
                (blob@, name@),
            ),
            None => manifest_entry(store@, manifests_root@, manifest@, doc@) is None,
        },
{
    let digest = match weights_in(doc) {
        Some(d) => d,
        None => {
            return None;
        },
    };
    if !is_under(manifest, manifests_root) {
        return None;
    }
    let all = components_of(manifest);
    let root = components_of(manifests_root);
    assert(texts(all@).len() == all@.len() && texts(root@).len() == root@.len());
    let n = root.len();
    if all.len() - n != 4 {
        return None;
    }
    let ghost parts = components(manifest@).skip(n as int);
    assert(parts[1] == all@[n + 1]@ && parts[2] == all@[n + 2]@ && parts[3] == all@[n + 3]@);
    let c = chars_of(digest.as_str());
    let plain = replaced_char(&c, ':', '-');
    let blobs = join_of(store, "blobs");
    let blob = join_of(blobs.as_str(), text_of(&plain).as_str());
    let mut name = String::new();
    if same_text(all[n + 1].as_str(), "library") {
        name = all[n + 2].clone();
    } else {
        name = all[n + 1].clone();
        name.append("/");
        name.append(all[n + 2].as_str());
    }
    name.append(":");
    name.append(all[n + 3].as_str());
    Some((blob, name))
}

/// The weights blob and the name that a manifest's text stands for: each
/// manifest is JSON whose layer with mediaType `…image.model` names the
/// weights blob.
pub fn ollama_model_from_manifest(
    store: &str,
    manifests_root: &str,
    manifest: &str,
    text: &str,
) -> (r: Option<(String, String)>)
    ensures
        match json_document(text@) {
            Ok(doc) => match r {
                Some((blob, name)) => manifest_entry(store@, manifests_root@, manifest@, doc)
                    == Some((blob@, name@)),
                None => manifest_entry(store@, manifests_root@, manifest@, doc) is None,
            },
            Err(_) => r is None,
        },
{
    match crate::json::parse(text) {
        Ok(doc) => entry_of_manifest(store, manifests_root, manifest, &doc),
        Err(_) => None,
    }
}

/// Ollama's models stand behind all others, and among either the names, whatever their case,
/// are in order.
pub proof fn ollamas_models_come_last(s: Seq<ModelFile>)
    ensures
        arranged(s).len() == s.len(),
        forall|i: int, j: int|
            0 <= i < j < s.len() ==> ((#[trigger] arranged(s)[i]).source is Ollama
                ==> (#[trigger] arranged(s)[j]).source is Ollama),
        forall|i: int, j: int|
            0 <= i < j < s.len() && (#[trigger] arranged(s)[i]).source is Ollama == (
            #[trigger] arranged(s)[j]).source is Ollama ==> !text_lt(
                lowercase(display_of(arranged(s)[j])),
                lowercase(display_of(arranged(s)[i])),
            ),
{
    listing_is_ordered(s);
    lemma_arranged_len(s);
    assert forall|i: int, j: int|
        0 <= i < j < s.len() && (#[trigger] arranged(s)[i]).source is Ollama implies (
    #[trigger] arranged(s)[j]).source is Ollama by {
        assert(!listed_before(arranged(s)[j], arranged(s)[i]));
    }
    assert forall|i: int, j: int|
        0 <= i < j < s.len() && (#[trigger] arranged(s)[i]).source is Ollama == (
        #[trigger] arranged(s)[j]).source is Ollama implies !text_lt(
        lowercase(display_of(arranged(s)[j])),
        lowercase(display_of(arranged(s)[i])),
    ) by {
        assert(!listed_before(arranged(s)[j], arranged(s)[i]));
    }
}

proof fn lemma_arranged_len(s: Seq<ModelFile>)
    ensures
        arranged(s).len() == s.len(),
    decreases s.len(),
{
    if s.len() > 0 {
        lemma_arranged_len(s.drop_last());
        lemma_slot_bound(arranged(s.drop_last()), s.last(), 0);
    }
}

proof fn lemma_slot_bound(s: Seq<ModelFile>, m: ModelFile, from: int)
    requires
        0 <= from <= s.len(),
    ensures
        from <= slot_from(s, m, from) <= s.len(),
    decreases s.len() - from,
{
    if from < s.len() && !listed_before(m, s[from]) {
        lemma_slot_bound(s, m, from + 1);
    }
}

/// A file that is found under several names is listed once, under the first of them; every
/// other file is listed.
pub proof fn each_file_is_listed_once(found: Seq<(ModelFile, String)>, i: int)
    requires
        0 <= i < found.len(),
        forall|k: int|
            0 <= k < i ==> crate::path::components((#[trigger] found[k]).1@)
                != crate::path::components(found[i].1@),
    ensures
        first_of_each(found).contains(found[i].0),
        first_of_each(found).len() <= found.len(),
    decreases found.len(),
{
    let s = found.drop_last();
    let before = first_of_each(s);
    let now = first_of_each(found);
    lemma_no_more_than_found(found);
    if i < s.len() {
        assert forall|k: int| 0 <= k < i implies crate::path::components((#[trigger] s[k]).1@)
            != crate::path::components(s[i].1@) by {
            assert(s[k] == found[k]);
        }
        each_file_is_listed_once(s, i);
        assert(s[i] == found[i]);
        let k = choose|k: int| 0 <= k < before.len() && before[k] == found[i].0;
        assert(now[k] == found[i].0);
    } else {
        assert(!seen_path(s, found[i].1@)) by {
            if seen_path(s, found[i].1@) {
                let k = choose|k: int|
                    0 <= k < s.len() && crate::path::components(#[trigger] s[k].1@)
                        == crate::path::components(found[i].1@);
                assert(found[k] == s[k]);
            }
        }
        assert(now[now.len() - 1] == found[i].0);
    }
}

proof fn lemma_no_more_than_found(found: Seq<(ModelFile, String)>)
    ensures
        first_of_each(found).len() <= found.len(),
    decreases found.len(),
{
    if found.len() > 0 {
        lemma_no_more_than_found(found.drop_last());
    }
}

/// A file that resolves to what one before it did is not listed again.
pub proof fn a_second_name_adds_nothing(found: Seq<(ModelFile, String)>, m: ModelFile, path: String, k: int)
    requires
        0 <= k < found.len(),
        crate::path::components(found[k].1@) == crate::path::components(path@),
    ensures
        first_of_each(found.push((m, path))) == first_of_each(found),
{
    let f = found.push((m, path));
    assert(f.drop_last() =~= found);
    assert(crate::path::components(found[k].1@) == crate::path::components(f.last().1@));
    assert(seen_path(f.drop_last(), f.last().1@));
}

/// The quantization is the last part of a name that is one, in upper case: a part begins
/// behind a dash or a point.
pub proof fn the_last_part_tells_the_quantization(front: Seq<char>, sep: char, part: Seq<char>)
    requires
        sep == '-' || sep == '.',
        !part.contains('-'),
        !part.contains('.'),
        is_quant_name(upper_ascii(part)),
    ensures
        quant_from(front + seq![sep] + part, 0) == Some(upper_ascii(part)),
        quant_from(part, 0) == Some(upper_ascii(part)),
{
    lemma_last_part(front + seq![sep], part, 0);
    lemma_last_part(Seq::empty(), part, 0);
    assert(Seq::<char>::empty() + part =~= part);
}

proof fn lemma_last_part(front: Seq<char>, part: Seq<char>, from: int)
    requires
        0 <= from <= front.len(),
        front.len() == 0 || front.last() == '-' || front.last() == '.',
        !part.contains('-'),
        !part.contains('.'),
        is_quant_name(upper_ascii(part)),
    ensures
        quant_from(front + part, from) == Some(upper_ascii(part)),
    decreases front.len() - from,
{
    let s = front + part;
    let set = seq!['-', '.'];
    crate::text::lemma_next_of(s, set, from);
    let end = next_of(s, set, from);
    assert(set[0] == '-' && set[1] == '.');
    if from == front.len() {
        if end < s.len() {
            assert(s[end] == part[end - front.len()]);
            assert(set.contains(s[end]));
            assert(part.contains(s[end]));
        }
        assert(s.subrange(from, end) =~= part);
    } else {
        if end >= front.len() {
            assert(s[front.len() - 1] == front.last());
            assert(set.contains(s[front.len() - 1]));
        }
        lemma_last_part(front, part, end + 1);
    }
}

/// A model of the hub's cache is served under its repository and its quantization.
pub proof fn a_cached_model_is_named_by_its_repository(m: ModelFile, repo: String, tag: Seq<char>)
    requires
        m.source == (Source::HfHub { repo }),
        quant_token(m.path@) == Some(tag),
    ensures
        cache_id(m) == Some(repo@ + ":"@ + tag),
{
}

/// The weights are in the first layer that is a model's and has a digest.
pub proof fn the_first_model_layer_has_the_weights(layers: Seq<JsonView>, from: int, i: int, d: Seq<char>)
    requires
        0 <= from <= i < layers.len(),
        weights_digest(layers[i]) == Some(d),
        forall|k: int| from <= k < i ==> weights_digest(#[trigger] layers[k]) is None,
    ensures
        weights_from(layers, from) == Some(d),
    decreases i - from,
{
    if from < i {
        assert(weights_digest(layers[from]) is None);
        the_first_model_layer_has_the_weights(layers, from + 1, i, d);
    }
}

} // verus!
