//! Reading what the router was given and what it said: its preset file and
//! its log.
use crate::text::{
    chars_of, find, find_text, lines, lines_of, opt_text, remove_char, removed_char, same,
    same_text, starts_with, strip_prefix, strip_suffix, tail, text_of, trim, trimmed, views,
    without_prefix, without_suffix,
};
use crate::textmap::{put, TextMap};
use vstd::prelude::*;
use vstd::string::*;

verus! {

/// A set of texts, walked in their order.
pub type TextSet = TextMap<()>;

/// The section that a line opens.
pub open spec fn section_name(line: Seq<char>) -> Option<Seq<char>> {
    match strip_prefix(line, "["@) {
        Some(r) => strip_suffix(r, "]"@),
        None => None,
    }
}

/// What a line of a section says of its model.
#[derive(Debug, Clone, Copy, PartialEq, Eq, Structural)]
pub enum PresetKey {
    /// Served with a vision projector.
    Projector,
    /// Served for embeddings.
    Embedding,
}

/// A line without its spaces sets the key.
pub open spec fn sets_key(line: Seq<char>, key: PresetKey) -> bool {
    match key {
        PresetKey::Projector => starts_with(line, "mmproj="@),
        PresetKey::Embedding => line == "embedding=true"@,
    }
}

/// The section that is open behind the lines.
pub open spec fn open_section(l: Seq<Seq<char>>) -> Option<Seq<char>>
    decreases l.len(),
{
    if l.len() == 0 {
        None
    } else {
        match section_name(trim(l.last())) {
            Some(n) => Some(n),
            None => open_section(l.drop_last()),
        }
    }
}

/// The sections, but for the one that all inherit, in which a line sets the
/// key.
pub open spec fn sections_with(l: Seq<Seq<char>>, key: PresetKey) -> Seq<(Seq<char>, ())>
    decreases l.len(),
{
    if l.len() == 0 {
        Seq::empty()
    } else {
        let before = sections_with(l.drop_last(), key);
        let line = trim(l.last());
        if section_name(line) is Some || !sets_key(remove_char(line, ' '), key) {
            before
        } else {
            match open_section(l.drop_last()) {
                Some(s) => if s != "*"@ {
                    put(before, s, ())
                } else {
                    before
                },
                None => before,
            }
        }
    }
}

/// Every section but the one that all inherit.
pub open spec fn sections_of(l: Seq<Seq<char>>) -> Seq<(Seq<char>, ())>
    decreases l.len(),
{
    if l.len() == 0 {
        Seq::empty()
    } else {
        let before = sections_of(l.drop_last());
        match section_name(trim(l.last())) {
            Some(n) => if n != "*"@ {
                put(before, n, ())
            } else {
                before
            },
            None => before,
        }
    }
}

fn section_of(line: &[char]) -> (r: Option<&[char]>)
    ensures
        crate::text::opt_view(r) == section_name(line@),
{
    match without_prefix(line, "[") {
        Some(rest) => without_suffix(rest, "]"),
        None => None,
    }
}

fn ids_with_key_in_preset(text: &str, key: PresetKey) -> (r: TextSet)
    ensures
        r@ == sections_with(lines(text@), key),
{
    let c = chars_of(text);
    let l = lines_of(&c);
    let ghost all = views(l@);
    let mut out: TextSet = TextMap::new();
    let mut current: Option<String> = None;
    let embed = chars_of("embedding=true");
    let mut i: usize = 0;
    assert(out@ =~= sections_with(all.take(0), key));
    while i < l.len()
        invariant
            i <= l.len(),
            all == views(l@),
            embed@ == "embedding=true"@,
            out@ == sections_with(all.take(i as int), key),
            opt_text(current) == open_section(all.take(i as int)),
        decreases l.len() - i,
    {
        let ghost sofar = all.take(i + 1);
        assert(sofar.drop_last() =~= all.take(i as int));
        assert(sofar.last() == l@[i as int]@);
        let line = trimmed(l[i]);
        match section_of(line) {
            Some(name) => {
                current = Some(text_of(name));
            },
            None => {
                let bare = removed_char(line, ' ');
                let hit = match key {
                    PresetKey::Projector => crate::text::begins(&bare, "mmproj="),
                    PresetKey::Embedding => same(&bare, &embed),
                };
                if hit {
                    if let Some(sec) = &current {
                        if !same_text(sec.as_str(), "*") {
                            out.insert(sec.clone(), ());
                        }
                    }
                }
            },
        }
        i += 1;
    }
    assert(all.take(i as int) =~= all);
    out
}

/// Section names in the preset carrying an `mmproj =` line — models
/// actually SERVED with a vision projector (not merely having one on
/// disk), so their opencode.json entries may declare image input.
pub fn vision_ids_in_preset(text: &str) -> (r: TextSet)
    ensures
        r@ == sections_with(lines(text@), PresetKey::Projector),
{
    ids_with_key_in_preset(text, PresetKey::Projector)
}

/// Section names in the preset carrying `embedding = true` — models served
/// for embeddings, to be excluded from chat sync and tool probes.
pub fn embedding_ids_in_preset(text: &str) -> (r: TextSet)
    ensures
        r@ == sections_with(lines(text@), PresetKey::Embedding),
{
    ids_with_key_in_preset(text, PresetKey::Embedding)
}

/// Every model section in the preset — i.e. what the router is currently
/// able to serve. This is the honest "still in the fleet" signal for
/// connector removals: a model that merely failed to load today is still
/// here, while one whose file is gone (or that the user disabled) has left
/// the preset entirely.
pub fn ids_in_preset(text: &str) -> (r: TextSet)
    ensures
        r@ == sections_of(lines(text@)),
{
    let c = chars_of(text);
    let l = lines_of(&c);
    let ghost all = views(l@);
    let mut out: TextSet = TextMap::new();
    let mut i: usize = 0;
    assert(out@ =~= sections_of(all.take(0)));
    while i < l.len()
        invariant
            i <= l.len(),
            all == views(l@),
            out@ == sections_of(all.take(i as int)),
        decreases l.len() - i,
    {
        let ghost sofar = all.take(i + 1);
        assert(sofar.drop_last() =~= all.take(i as int));
        assert(sofar.last() == l@[i as int]@);
        if let Some(name) = section_of(trimmed(l[i])) {
            let id = text_of(name);
            if !same_text(id.as_str(), "*") {
                out.insert(id, ());
            }
        }
        i += 1;
    }
    assert(all.take(i as int) =~= all);
    out
}

pub const LOAD_ERROR: &'static str = "error loading model:";

/// What a line says behind the first marker, without whitespace around it.
pub open spec fn behind_marker(line: Seq<char>, marker: Seq<char>) -> Option<Seq<char>> {
    match find(line, marker) {
        Some(i) => Some(trim(line.skip(i + marker.len()))),
        None => None,
    }
}

/// The last load error among the lines.
pub open spec fn last_load_error(l: Seq<Seq<char>>) -> Option<Seq<char>>
    decreases l.len(),
{
    if l.len() == 0 {
        None
    } else {
        match behind_marker(l.last(), LOAD_ERROR@) {
            Some(e) => Some(e),
            None => last_load_error(l.drop_last()),
        }
    }
}

pub fn text_behind(line: &[char], marker: &str) -> (r: Option<String>)
    ensures
        opt_text(r) == behind_marker(line@, marker@),
{
    let m = chars_of(marker);
    assert(line@.len() == line.len());
    match find_text(line, &m) {
        Some(i) => Some(text_of(trimmed(tail(line, i + m.len())))),
        None => None,
    }
}

/// The most recent child-load error in the router log's tail — called right
/// after a failed load, when the last "error loading model:" line is that
/// load's. Heuristic by design; worst case it attributes a neighbor's error,
/// which still beats a bare "failed(1)".
pub fn mine_load_error(log_tail: &str) -> (r: Option<String>)
    ensures
        opt_text(r) == last_load_error(lines(log_tail@)),
{
    let c = chars_of(log_tail);
    let l = lines_of(&c);
    let ghost all = views(l@);
    let mut i: usize = l.len();
    assert(all.take(i as int) =~= all);
    while i > 0
        invariant
            i <= l.len(),
            all == views(l@),
            all == lines(log_tail@),
            last_load_error(all) == last_load_error(all.take(i as int)),
        decreases i,
    {
        let ghost sofar = all.take(i as int);
        assert(sofar.drop_last() =~= all.take(i - 1));
        assert(sofar.last() == l@[i - 1]@);
        if let Some(e) = text_behind(l[i - 1], LOAD_ERROR) {
            return Some(e);
        }
        i -= 1;
    }
    None
}

/// A byte that stands for itself in a URL.
pub open spec fn is_unreserved(b: u8) -> bool {
    (65 <= b <= 90) || (97 <= b <= 122) || (48 <= b <= 57) || b == 45 || b == 95 || b == 46 || b
        == 126
}

/// The character of an upper-case hexadecimal digit.
pub open spec fn upper_hex(d: u8) -> char {
    if d < 10 {
        (48 + d) as char
    } else {
        (55 + d) as char
    }
}

/// The bytes with every one that is reserved written as a percent sign and
/// two hexadecimal digits.
pub open spec fn percent_coded(b: Seq<u8>) -> Seq<char>
    decreases b.len(),
{
    if b.len() == 0 {
        Seq::empty()
    } else {
        let before = percent_coded(b.drop_last());
        let x = b.last();
        if is_unreserved(x) {
            before.push(x as char)
        } else {
            before.push('%').push(upper_hex(x / 16)).push(upper_hex(x % 16))
        }
    }
}

fn hex_digit(d: u8) -> (r: char)
    requires
        d < 16,
    ensures
        r == upper_hex(d),
{
    if d < 10 {
        (48u8 + d) as char
    } else {
        (55u8 + d) as char
    }
}

/// The text as a URL's query takes it.
pub fn urlencode(s: &str) -> (r: String)
    ensures
        r@ == percent_coded(vstd::utf8::encode_utf8(s@)),
{
    let b = s.as_bytes();
    let mut out = String::new();
    let mut i: usize = 0;
    assert(out@ =~= percent_coded(b@.take(0)));
    while i < b.len()
        invariant
            i <= b.len(),
            out@ == percent_coded(b@.take(i as int)),
        decreases b.len() - i,
    {
        assert(b@.take(i + 1).drop_last() =~= b@.take(i as int));
        let x = b[i];
        if (65 <= x && x <= 90) || (97 <= x && x <= 122) || (48 <= x && x <= 57) || x == 45 || x
            == 95 || x == 46 || x == 126 {
            out.push(x as char);
        } else {
            out.push('%');
            out.push(hex_digit(x / 16));
            out.push(hex_digit(x % 16));
        }
        i += 1;
    }
    assert(b@.take(i as int) =~= b@);
    out
}

/// What stands for itself in a URL are letters, digits, dashes, underscores, points and
/// tildes; every other byte is a percent sign and its two digits. Parts are coded one by one.
pub proof fn bytes_are_coded_one_by_one(a: Seq<u8>, b: Seq<u8>, x: u8)
    ensures
        percent_coded(a + b) == percent_coded(a) + percent_coded(b),
        ({
            let c = x as char;
            let plain = 'A' <= c <= 'Z' || 'a' <= c <= 'z' || '0' <= c <= '9' || c == '-' || c
                == '_' || c == '.' || c == '~';
            &&& plain ==> percent_coded(seq![x]) == seq![c]
            &&& !plain ==> percent_coded(seq![x]).len() == 3 && percent_coded(seq![x])[0] == '%'
                && upper_value(percent_coded(seq![x])[1]) * 16 + upper_value(
                percent_coded(seq![x])[2],
            ) == x
        }),
    decreases b.len(),
{
    reveal_with_fuel(percent_coded, 2);
    let s = seq![x];
    assert(s.drop_last() =~= Seq::<u8>::empty());
    assert(percent_coded(s.drop_last()) =~= Seq::<char>::empty());
    if is_unreserved(x) {
        assert(percent_coded(s) =~= seq![x as char]);
    }
    if b.len() == 0 {
        assert(a + b =~= a);
        assert(percent_coded(a) + percent_coded(b) =~= percent_coded(a));
    } else {
        bytes_are_coded_one_by_one(a, b.drop_last(), x);
        assert((a + b).drop_last() =~= a + b.drop_last());
        assert((a + b).last() == b.last());
        assert(percent_coded(a + b) =~= percent_coded(a) + percent_coded(b));
    }
}

/// The value of a hexadecimal digit in upper case.
pub open spec fn upper_value(c: char) -> int {
    if '0' <= c <= '9' {
        c as u32 - 48
    } else if 'A' <= c <= 'F' {
        c as u32 - 55
    } else {
        -1000
    }
}

/// The last load error is told by the last line that has one.
pub proof fn the_last_line_with_an_error_tells_it(l: Seq<Seq<char>>, i: int)
    requires
        0 <= i < l.len(),
        crate::text::contains(l[i], "error loading model:"@),
        forall|k: int|
            i < k < l.len() ==> !crate::text::contains(#[trigger] l[k], "error loading model:"@),
    ensures
        last_load_error(l) == behind_marker(l[i], "error loading model:"@),
        last_load_error(l) is Some,
    decreases l.len(),
{
    crate::text::lemma_find(l.last(), "error loading model:"@);
    if i < l.len() - 1 {
        let s = l.drop_last();
        assert(!crate::text::contains(l[l.len() - 1], "error loading model:"@));
        assert forall|k: int| i < k < s.len() implies !crate::text::contains(
            #[trigger] s[k],
            "error loading model:"@,
        ) by {
            assert(s[k] == l[k]);
        }
        the_last_line_with_an_error_tells_it(s, i);
    }
}

} // verus!
