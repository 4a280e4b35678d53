//! YAML documents as the library holds them, and serde_yaml's reading and
//! writing of them.
use crate::text::{copy_text, same_text};
use vstd::prelude::*;
use vstd::string::*;

verus! {

#[verifier::external_type_specification]
#[verifier::external_body]
pub struct ExYamlValue(serde_yaml::Value);

#[verifier::external_type_specification]
#[verifier::external_body]
pub struct ExYamlTag(serde_yaml::value::Tag);

/// A YAML value: what the library looks into, and what it only carries.
pub enum Yaml {
    Mapping(Vec<(Yaml, Yaml)>),
    Sequence(Vec<Yaml>),
    Text(String),
    /// An unsigned integer.
    Pos(u64),
    Tagged(serde_yaml::value::Tag, Box<Yaml>),
    /// Null, a truth value, or any other number.
    Other(serde_yaml::Value),
}

pub enum YamlView {
    Mapping(Seq<(YamlView, YamlView)>),
    Sequence(Seq<YamlView>),
    Text(Seq<char>),
    Pos(u64),
    Tagged(serde_yaml::value::Tag, Box<YamlView>),
    Other(serde_yaml::Value),
}

/// What a value holds.
pub open spec fn yaml_view(y: Yaml) -> YamlView
    decreases y,
{
    match y {
        Yaml::Mapping(v) => YamlView::Mapping(
            Seq::new(
                v@.len(),
                |i: int|
                    if 0 <= i < v@.len() {
                        (yaml_view(v@[i].0), yaml_view(v@[i].1))
                    } else {
                        arbitrary()
                    },
            ),
        ),
        Yaml::Sequence(v) => YamlView::Sequence(
            Seq::new(
                v@.len(),
                |i: int|
                    if 0 <= i < v@.len() {
                        yaml_view(v@[i])
                    } else {
                        arbitrary()
                    },
            ),
        ),
        Yaml::Text(s) => YamlView::Text(s@),
        Yaml::Pos(n) => YamlView::Pos(n),
        Yaml::Tagged(t, b) => YamlView::Tagged(t, Box::new(yaml_view(*b))),
        Yaml::Other(v) => YamlView::Other(v),
    }
}

impl View for Yaml {
    type V = YamlView;

    open spec fn view(&self) -> YamlView {
        yaml_view(*self)
    }
}

pub open spec fn yaml_pairs(v: Seq<(Yaml, Yaml)>) -> Seq<(YamlView, YamlView)> {
    Seq::new(v.len(), |i: int| (v[i].0@, v[i].1@))
}

pub open spec fn yaml_views(v: Seq<Yaml>) -> Seq<YamlView> {
    Seq::new(v.len(), |i: int| v[i]@)
}

/// The view of a mapping or a sequence is that of its parts.
pub broadcast proof fn lemma_yaml_view(y: Yaml)
    ensures
        match y {
            Yaml::Mapping(v) => #[trigger] y@ == YamlView::Mapping(yaml_pairs(v@)),
            Yaml::Sequence(v) => y@ == YamlView::Sequence(yaml_views(v@)),
            Yaml::Tagged(t, b) => y@ == YamlView::Tagged(t, Box::new(b@)),
            _ => true,
        },
{
    reveal_with_fuel(yaml_view, 2);
    match y {
        Yaml::Mapping(v) => {
            assert(y@->Mapping_0 =~= yaml_pairs(v@));
        },
        Yaml::Sequence(v) => {
            assert(y@->Sequence_0 =~= yaml_views(v@));
        },
        _ => {},
    }
}

// -------------------------------------------------------------------- serde_yaml

/// What a serde_yaml value holds.
pub uninterp spec fn yaml_contents(v: serde_yaml::Value) -> YamlView;

/// The value that serde_yaml reads from a text, or the text of its error.
pub uninterp spec fn yaml_document(text: Seq<char>) -> Result<YamlView, Seq<char>>;

/// Calls `serde_yaml::from_str` for a `Value`: what the text holds, or why it
/// is no YAML, depends on the text alone.
#[verifier::external_body]
fn read_yaml(text: &str) -> (r: Result<serde_yaml::Value, String>)
    ensures
        match r {
            Ok(v) => yaml_document(text@) == Ok::<YamlView, Seq<char>>(yaml_contents(v)),
            Err(e) => yaml_document(text@) == Err::<YamlView, Seq<char>>(e@),
        },
{
    serde_yaml::from_str(text).map_err(|e: serde_yaml::Error| e.to_string())
}

/// Converts a `serde_yaml::Value`, variant by variant: the entries of a
/// mapping in their order, a number that `as_u64` takes as such, and what is
/// not looked into as it is.
#[verifier::external_body]
fn yaml_of(v: &serde_yaml::Value) -> (r: Yaml)
    ensures
        r@ == yaml_contents(*v),
{
    match v {
        serde_yaml::Value::Mapping(m) => Yaml::Mapping(m.iter().map(|p| (yaml_of(p.0), yaml_of(p.1))).collect()),
        serde_yaml::Value::Sequence(s) => Yaml::Sequence(s.iter().map(yaml_of).collect()),
        serde_yaml::Value::String(s) => Yaml::Text(s.clone()),
        serde_yaml::Value::Tagged(t) => Yaml::Tagged(t.tag.clone(), Box::new(yaml_of(&t.value))),
        other => match other.as_u64() {
            Some(n) => Yaml::Pos(n),
            None => Yaml::Other(other.clone()),
        },
    }
}

/// What the serde_yaml value that is built from a value holds; of two equal
/// keys of a mapping the later value stays, in the earlier one's place.
pub uninterp spec fn yaml_built(y: YamlView) -> YamlView;

/// A value of texts, unsigned integers, sequences and mappings, whose
/// mappings have texts for keys, no two of them equal.
pub open spec fn plain_yaml(y: YamlView) -> bool
    decreases y,
{
    match y {
        YamlView::Mapping(s) => {
            &&& forall|i: int|
                0 <= i < s.len() ==> (#[trigger] s[i]).0 is Text && plain_yaml(s[i].1)
            &&& forall|i: int, j: int|
                0 <= i < j < s.len() ==> (#[trigger] s[i]).0 != (#[trigger] s[j]).0
        },
        YamlView::Sequence(s) => forall|i: int| 0 <= i < s.len() ==> plain_yaml(#[trigger] s[i]),
        YamlView::Text(_) => true,
        YamlView::Pos(_) => true,
        _ => false,
    }
}

/// Builds a `serde_yaml::Value`, variant by variant. A plain value is kept as
/// it is: `Mapping`'s collecting keeps keys that differ, in their order, and
/// `Value::from` of a `u64` keeps the number.
#[verifier::external_body]
fn yaml_value(y: &Yaml) -> (r: serde_yaml::Value)
    ensures
        yaml_contents(r) == yaml_built(y@),
        plain_yaml(y@) ==> yaml_contents(r) == y@,
{
    match y {
        Yaml::Mapping(v) => serde_yaml::Value::Mapping(v.iter().map(|p| (yaml_value(&p.0), yaml_value(&p.1))).collect()),
        Yaml::Sequence(v) => serde_yaml::Value::Sequence(v.iter().map(yaml_value).collect()),
        Yaml::Text(s) => serde_yaml::Value::String(s.clone()),
        Yaml::Pos(n) => serde_yaml::Value::from(*n),
        Yaml::Tagged(t, b) => {
            let tagged = serde_yaml::value::TaggedValue { tag: t.clone(), value: yaml_value(b) };
            serde_yaml::Value::Tagged(Box::new(tagged))
        },
        Yaml::Other(v) => v.clone(),
    }
}

/// The text that serde_yaml writes a value as, or the text of its error.
pub uninterp spec fn yaml_text(y: YamlView) -> Result<Seq<char>, Seq<char>>;

/// Calls `serde_yaml::to_string`; what it writes, or why it does not, depends
/// on what the value holds alone.
#[verifier::external_body]
fn write_yaml(v: &serde_yaml::Value) -> (r: Result<String, String>)
    ensures
        match r {
            Ok(t) => yaml_text(yaml_contents(*v)) == Ok::<Seq<char>, Seq<char>>(t@),
            Err(e) => yaml_text(yaml_contents(*v)) == Err::<Seq<char>, Seq<char>>(e@),
        },
{
    serde_yaml::to_string(v).map_err(|e| e.to_string())
}

/// The value that a YAML text holds, or why it holds none.
pub fn parse(text: &str) -> (r: Result<Yaml, String>)
    ensures
        match r {
            Ok(y) => yaml_document(text@) == Ok::<YamlView, Seq<char>>(y@),
            Err(e) => yaml_document(text@) == Err::<YamlView, Seq<char>>(e@),
        },
{
    match read_yaml(text) {
        Ok(v) => Ok(yaml_of(&v)),
        Err(e) => Err(e),
    }
}

/// The text of a value, or why it has none.
pub fn print(y: &Yaml) -> (r: Result<String, String>)
    ensures
        match r {
            Ok(t) => yaml_text(yaml_built(y@)) == Ok::<Seq<char>, Seq<char>>(t@),
            Err(e) => yaml_text(yaml_built(y@)) == Err::<Seq<char>, Seq<char>>(e@),
        },
        plain_yaml(y@) ==> yaml_built(y@) == y@,
{
    let v = yaml_value(y);
    write_yaml(&v)
}

// ----------------------------------------------------------------------- reading

/// The value under its tags.
pub open spec fn untagged(y: YamlView) -> YamlView
    decreases y,
{
    match y {
        YamlView::Tagged(_, b) => untagged(*b),
        _ => y,
    }
}

/// The first place from `from` on whose key is this text.
pub open spec fn text_key_from(s: Seq<(YamlView, YamlView)>, key: Seq<char>, from: int) -> Option<
    int,
>
    decreases s.len() - from,
{
    if from < 0 || from >= s.len() {
        None
    } else if s[from].0 == YamlView::Text(key) {
        Some(from)
    } else {
        text_key_from(s, key, from + 1)
    }
}

/// The value of a key among the entries of a mapping.
pub open spec fn value_of_key(s: Seq<(YamlView, YamlView)>, key: Seq<char>) -> Option<YamlView> {
    match text_key_from(s, key, 0) {
        Some(i) => Some(s[i].1),
        None => None,
    }
}

/// The value of a key, where this is a mapping that has it.
pub open spec fn field(y: YamlView, key: Seq<char>) -> Option<YamlView> {
    match untagged(y) {
        YamlView::Mapping(s) => value_of_key(s, key),
        _ => None,
    }
}

pub open spec fn text_of_yaml(y: YamlView) -> Option<Seq<char>> {
    match untagged(y) {
        YamlView::Text(s) => Some(s),
        _ => None,
    }
}

pub open spec fn u64_of_yaml(y: YamlView) -> Option<u64> {
    match untagged(y) {
        YamlView::Pos(n) => Some(n),
        _ => None,
    }
}

pub open spec fn opt_yaml(y: Option<&Yaml>) -> Option<YamlView> {
    match y {
        Some(v) => Some(v@),
        None => None,
    }
}

/// Where a text key stands among the entries of a mapping.
pub fn find_text_key(v: &[(Yaml, Yaml)], key: &str) -> (r: Option<usize>)
    ensures
        match r {
            Some(i) => i < v.len() && text_key_from(yaml_pairs(v@), key@, 0) == Some(i as int),
            None => text_key_from(yaml_pairs(v@), key@, 0) is None,
        },
{
    let mut i: usize = 0;
    while i < v.len()
        invariant
            i <= v.len(),
            text_key_from(yaml_pairs(v@), key@, 0) == text_key_from(
                yaml_pairs(v@),
                key@,
                i as int,
            ),
        decreases v.len() - i,
    {
        proof {
            lemma_yaml_view(v@[i as int].0);
        }
        assert(yaml_pairs(v@)[i as int].0 == v@[i as int].0@);
        if let Yaml::Text(s) = &v[i].0 {
            if same_text(s.as_str(), key) {
                return Some(i);
            }
        }
        i += 1;
    }
    None
}

impl Yaml {
    /// The value under its tags.
    pub fn untag(&self) -> (r: &Yaml)
        ensures
            r@ == untagged(self@),
            !(r is Tagged),
        decreases self,
    {
        broadcast use lemma_yaml_view;

        match self {
            Yaml::Tagged(_, b) => b.untag(),
            _ => self,
        }
    }

    /// The value of a key, where this is a mapping that has it.
    pub fn get(&self, key: &str) -> (r: Option<&Yaml>)
        ensures
            opt_yaml(r) == field(self@, key@),
    {
        broadcast use lemma_yaml_view;

        match self.untag() {
            Yaml::Mapping(v) => match find_text_key(v, key) {
                Some(i) => {
                    assert(yaml_pairs(v@)[i as int].1 == v@[i as int].1@);
                    Some(&v[i].1)
                },
                None => None,
            },
            _ => None,
        }
    }

    pub fn as_str(&self) -> (r: Option<&String>)
        ensures
            match r {
                Some(s) => text_of_yaml(self@) == Some(s@),
                None => text_of_yaml(self@) is None,
            },
    {
        broadcast use lemma_yaml_view;

        match self.untag() {
            Yaml::Text(s) => Some(s),
            _ => None,
        }
    }

    pub fn as_u64(&self) -> (r: Option<u64>)
        ensures
            r == u64_of_yaml(self@),
    {
        broadcast use lemma_yaml_view;

        match self.untag() {
            Yaml::Pos(n) => Some(*n),
            _ => None,
        }
    }
}

// ----------------------------------------------------------------------- writing

/// The entries with the value of a key set; a new key comes last.
pub open spec fn with_value(s: Seq<(YamlView, YamlView)>, key: Seq<char>, v: YamlView) -> Seq<
    (YamlView, YamlView),
> {
    match text_key_from(s, key, 0) {
        Some(i) => s.update(i, (YamlView::Text(key), v)),
        None => s.push((YamlView::Text(key), v)),
    }
}

/// Sets the value of a key.
pub fn set_value(v: &mut Vec<(Yaml, Yaml)>, key: &str, value: Yaml)
    ensures
        yaml_pairs(final(v)@) == with_value(yaml_pairs(old(v)@), key@, value@),
{
    let ghost before = yaml_pairs(v@);
    match find_text_key(v, key) {
        Some(i) => {
            let _ = v.remove(i);
            v.insert(i, (Yaml::Text(copy_text(key)), value));
            assert(yaml_pairs(v@) =~= before.update(i as int, (YamlView::Text(key@), value@)));
        },
        None => {
            v.push((Yaml::Text(copy_text(key)), value));
            assert(yaml_pairs(v@) =~= before.push((YamlView::Text(key@), value@)));
        },
    }
}

pub proof fn lemma_text_key_from(s: Seq<(YamlView, YamlView)>, key: Seq<char>, from: int)
    requires
        0 <= from,
    ensures
        match text_key_from(s, key, from) {
            Some(i) => from <= i < s.len() && s[i].0 == YamlView::Text(key) && (forall|k: int|
                from <= k < i ==> (#[trigger] s[k]).0 != YamlView::Text(key)),
            None => forall|k: int|
                from <= k < s.len() ==> (#[trigger] s[k]).0 != YamlView::Text(key),
        },
    decreases s.len() - from,
{
    if from < s.len() && s[from].0 != YamlView::Text(key) {
        lemma_text_key_from(s, key, from + 1);
    }
}

/// A value that is set is read back; no other key's value changes, and no
/// entry goes away.
pub proof fn set_then_read(
    s: Seq<(YamlView, YamlView)>,
    key: Seq<char>,
    v: YamlView,
    other: Seq<char>,
)
    ensures
        value_of_key(with_value(s, key, v), key) == Some(v),
        other != key ==> value_of_key(with_value(s, key, v), other) == value_of_key(s, other),
        with_value(s, key, v).len() >= s.len(),
        forall|k: int|
            0 <= k < s.len() && (#[trigger] s[k]).0 != YamlView::Text(key) ==> with_value(
                s,
                key,
                v,
            )[k] == s[k],
{
    let t = with_value(s, key, v);
    lemma_text_key_from(s, key, 0);
    lemma_text_key_from(t, key, 0);
    lemma_text_key_from(s, other, 0);
    lemma_text_key_from(t, other, 0);
    match text_key_from(s, key, 0) {
        Some(i) => {
            assert(t[i].0 == YamlView::Text(key));
            let j = text_key_from(t, key, 0)->0;
            if j < i {
                assert(t[j] == s[j]);
            }
            if other != key {
                if let Some(a) = text_key_from(s, other, 0) {
                    assert(t[a] == s[a]);
                    let b = text_key_from(t, other, 0)->0;
                    assert(b != i);
                    assert(s[b] == t[b]);
                } else if let Some(b) = text_key_from(t, other, 0) {
                    assert(b != i);
                    assert(s[b] == t[b]);
                }
            }
        },
        None => {
            let n = s.len() as int;
            assert(t[n].0 == YamlView::Text(key));
            let j = text_key_from(t, key, 0)->0;
            if j < n {
                assert(t[j] == s[j]);
            }
            if other != key {
                if let Some(a) = text_key_from(s, other, 0) {
                    assert(t[a] == s[a]);
                    let b = text_key_from(t, other, 0)->0;
                    assert(b <= a && s[b] == t[b]);
                } else if let Some(b) = text_key_from(t, other, 0) {
                    assert(b != n);
                    assert(s[b] == t[b]);
                }
            }
        },
    }
}

/// To set a plain value in a plain mapping leaves it plain.
pub proof fn setting_keeps_it_plain(s: Seq<(YamlView, YamlView)>, key: Seq<char>, v: YamlView)
    requires
        plain_yaml(YamlView::Mapping(s)),
        plain_yaml(v),
    ensures
        plain_yaml(YamlView::Mapping(with_value(s, key, v))),
{
    let t = with_value(s, key, v);
    lemma_text_key_from(s, key, 0);
    let at = match text_key_from(s, key, 0) {
        Some(i) => i,
        None => s.len() as int,
    };
    assert(t[at] == (YamlView::Text(key), v));
    assert forall|i: int| 0 <= i < t.len() implies (#[trigger] t[i]).0 is Text && plain_yaml(
        t[i].1,
    ) by {
        if i != at {
            assert(t[i] == s[i]);
        }
    }
    assert forall|i: int, j: int| 0 <= i < j < t.len() implies (#[trigger] t[i]).0 != (
    #[trigger] t[j]).0 by {
        if i != at {
            assert(t[i] == s[i]);
        }
        if j != at {
            assert(t[j] == s[j]);
        }
        if at < s.len() {
            assert(s[at].0 == YamlView::Text(key));
        }
    }
}

} // verus!
