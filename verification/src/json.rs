//! JSON values as the library holds them, and serde_json's reading and
//! writing of them.
use crate::num::{parse_micro, parse_micro_of, MICRO_MAX, UNIT};
use crate::text::{chars_of, copy_text, same_text, text_lt};
use serde_json::Value;
use vstd::prelude::*;
use vstd::string::*;

verus! {

/// A JSON number as serde_json tells them apart.
#[derive(Debug, Clone, PartialEq)]
pub enum Number {
    Pos(u64),
    Neg(i64),
    /// The text of a number with a fraction or an exponent.
    Float(String),
}

#[derive(Debug, PartialEq)]
pub enum Json {
    Null,
    Bool(bool),
    Number(Number),
    Text(String),
    Array(Vec<Json>),
    Object(Vec<(String, Json)>),
}

pub enum NumberView {
    Pos(u64),
    Neg(i64),
    Float(Seq<char>),
}

pub enum JsonView {
    Null,
    Bool(bool),
    Number(NumberView),
    Text(Seq<char>),
    Array(Seq<JsonView>),
    Object(Seq<(Seq<char>, JsonView)>),
}

impl View for Number {
    type V = NumberView;

    open spec fn view(&self) -> NumberView {
        match *self {
            Number::Pos(n) => NumberView::Pos(n),
            Number::Neg(n) => NumberView::Neg(n),
            Number::Float(s) => NumberView::Float(s@),
        }
    }
}

impl View for Json {
    type V = JsonView;

    open spec fn view(&self) -> JsonView
        decreases self,
    {
        match *self {
            Json::Null => JsonView::Null,
            Json::Bool(b) => JsonView::Bool(b),
            Json::Number(n) => JsonView::Number(n@),
            Json::Text(s) => JsonView::Text(s@),
            Json::Array(v) => JsonView::Array(
                Seq::new(
                    v@.len(),
                    |i: int|
                        if 0 <= i < v@.len() {
                            v@[i].view()
                        } else {
                            JsonView::Null
                        },
                ),
            ),
            Json::Object(v) => JsonView::Object(
                Seq::new(
                    v@.len(),
                    |i: int|
                        if 0 <= i < v@.len() {
                            (v@[i].0@, v@[i].1.view())
                        } else {
                            (Seq::empty(), JsonView::Null)
                        },
                ),
            ),
        }
    }
}

// -------------------------------------------------------------------- reading

/// The first place from `from` on that has the key.
pub open spec fn key_from(s: Seq<(Seq<char>, JsonView)>, key: Seq<char>, from: int) -> Option<int>
    decreases s.len() - from,
{
    if from < 0 || from >= s.len() {
        None
    } else if s[from].0 == key {
        Some(from)
    } else {
        key_from(s, key, from + 1)
    }
}

/// The value of a key of an object.
pub open spec fn member(j: JsonView, key: Seq<char>) -> Option<JsonView> {
    match j {
        JsonView::Object(s) => match key_from(s, key, 0) {
            Some(i) => Some(s[i].1),
            None => None,
        },
        _ => None,
    }
}

/// The value of a key of a value that may not be there.
pub open spec fn member_of(j: Option<JsonView>, key: Seq<char>) -> Option<JsonView> {
    match j {
        Some(v) => member(v, key),
        None => None,
    }
}

/// The first element of an array that may not be there.
pub open spec fn first_of(j: Option<JsonView>) -> Option<JsonView> {
    match j {
        Some(JsonView::Array(s)) => if s.len() > 0 {
            Some(s[0])
        } else {
            None
        },
        _ => None,
    }
}

pub open spec fn text_of_json(j: Option<JsonView>) -> Option<Seq<char>> {
    match j {
        Some(JsonView::Text(s)) => Some(s),
        _ => None,
    }
}

pub open spec fn bool_of_json(j: Option<JsonView>) -> Option<bool> {
    match j {
        Some(JsonView::Bool(b)) => Some(b),
        _ => None,
    }
}

pub open spec fn u64_of_json(j: Option<JsonView>) -> Option<u64> {
    match j {
        Some(JsonView::Number(NumberView::Pos(n))) => Some(n),
        _ => None,
    }
}

/// An integer that fits `i64`.
pub open spec fn i64_of_json(j: Option<JsonView>) -> Option<i64> {
    match j {
        Some(JsonView::Number(NumberView::Pos(n))) => if n <= i64::MAX {
            Some(n as i64)
        } else {
            None
        },
        Some(JsonView::Number(NumberView::Neg(n))) => Some(n),
        _ => None,
    }
}

/// Millionths as far as they are held.
pub open spec fn held(v: int) -> i64 {
    if v > MICRO_MAX {
        MICRO_MAX as i64
    } else if v < -(MICRO_MAX as int) {
        (-(MICRO_MAX as int)) as i64
    } else {
        v as i64
    }
}

/// A number in millionths.
pub open spec fn micro_of_json(j: Option<JsonView>) -> Option<i64> {
    match j {
        Some(JsonView::Number(NumberView::Pos(n))) => Some(held(n * UNIT)),
        Some(JsonView::Number(NumberView::Neg(n))) => Some(held(n * UNIT)),
        Some(JsonView::Number(NumberView::Float(t))) => match parse_micro_of(t) {
            Some(v) => Some(held(v)),
            None => None,
        },
        _ => None,
    }
}

fn hold(v: i128) -> (r: i64)
    ensures
        r == held(v as int),
{
    if v > MICRO_MAX as i128 {
        MICRO_MAX as i64
    } else if v < -(MICRO_MAX as i128) {
        -(MICRO_MAX as i64)
    } else {
        v as i64
    }
}

pub open spec fn array_of_json(j: Option<JsonView>) -> Option<Seq<JsonView>> {
    match j {
        Some(JsonView::Array(s)) => Some(s),
        _ => None,
    }
}

pub open spec fn object_of_json(j: Option<JsonView>) -> Option<Seq<(Seq<char>, JsonView)>> {
    match j {
        Some(JsonView::Object(s)) => Some(s),
        _ => None,
    }
}

/// A number with a fraction or an exponent is zero; there are two of them.
pub open spec fn is_zero(t: Seq<char>) -> bool {
    t == "0.0"@ || t == "-0.0"@
}

/// The values are the same: numbers by their kind and value, objects by their
/// keys and values. The two zeros of a number with a fraction are one.
pub open spec fn alike(a: JsonView, b: JsonView) -> bool
    decreases a,
{
    match (a, b) {
        (JsonView::Number(NumberView::Float(x)), JsonView::Number(NumberView::Float(y))) => {
            x == y || is_zero(x) && is_zero(y)
        },
        (JsonView::Array(x), JsonView::Array(y)) => {
            &&& x.len() == y.len()
            &&& forall|i: int| 0 <= i < x.len() ==> alike(#[trigger] x[i], y[i])
        },
        (JsonView::Object(x), JsonView::Object(y)) => {
            &&& x.len() == y.len()
            &&& forall|i: int|
                0 <= i < x.len() ==> (#[trigger] x[i]).0 == y[i].0 && alike(x[i].1, y[i].1)
        },
        _ => a == b,
    }
}

/// Beside a value without fractions, only the value itself is the same.
pub proof fn lemma_alike_whole(a: JsonView, b: JsonView)
    requires
        whole(b),
    ensures
        alike(a, b) <==> a == b,
    decreases a,
{
    match (a, b) {
        (JsonView::Array(x), JsonView::Array(y)) => {
            assert forall|i: int| 0 <= i < x.len() && i < y.len() implies (alike(
                #[trigger] x[i],
                y[i],
            ) <==> x[i] == y[i]) by {
                assert(whole(y[i]));
                lemma_alike_whole(x[i], y[i]);
            }
            if alike(a, b) {
                assert(x =~= y);
            }
        },
        (JsonView::Object(x), JsonView::Object(y)) => {
            assert forall|i: int| 0 <= i < x.len() && i < y.len() implies (alike(
                (#[trigger] x[i]).1,
                y[i].1,
            ) <==> x[i].1 == y[i].1) by {
                assert(whole(y[i].1));
                lemma_alike_whole(x[i].1, y[i].1);
            }
            if alike(a, b) {
                assert forall|i: int| 0 <= i < x.len() implies x[i] == y[i] by {
                    assert(x[i].0 == y[i].0 && alike(x[i].1, y[i].1));
                }
                assert(x =~= y);
            }
        },
        _ => {},
    }
}

fn equal_floats(x: &str, y: &str) -> (r: bool)
    ensures
        r == (x@ == y@ || is_zero(x@) && is_zero(y@)),
{
    same_text(x, y) || ((same_text(x, "0.0") || same_text(x, "-0.0")) && (same_text(y, "0.0")
        || same_text(y, "-0.0")))
}

/// The view of a value that may not be there.
pub open spec fn opt_json(j: Option<&Json>) -> Option<JsonView> {
    match j {
        Some(v) => Some(v@),
        None => None,
    }
}

pub open spec fn json_views(v: Seq<Json>) -> Seq<JsonView> {
    Seq::new(v.len(), |i: int| v[i]@)
}

pub open spec fn pair_views(v: Seq<(String, Json)>) -> Seq<(Seq<char>, JsonView)> {
    Seq::new(v.len(), |i: int| (v[i].0@, v[i].1@))
}

/// The views of an array and of an object are those of their parts.
pub broadcast proof fn lemma_json_view(j: Json)
    ensures
        match j {
            Json::Array(v) => #[trigger] j@ == JsonView::Array(json_views(v@)),
            Json::Object(v) => j@ == JsonView::Object(pair_views(v@)),
            _ => true,
        },
{
    reveal_with_fuel(<Json as View>::view, 2);
    match j {
        Json::Array(v) => {
            assert(j@->Array_0 =~= json_views(v@));
        },
        Json::Object(v) => {
            assert(j@->Object_0 =~= pair_views(v@));
        },
        _ => {},
    }
}

/// Where a key stands among the entries of an object.
pub fn find_key(v: &[(String, Json)], key: &str) -> (r: Option<usize>)
    ensures
        match r {
            Some(i) => i < v.len() && key_from(pair_views(v@), key@, 0) == Some(i as int),
            None => key_from(pair_views(v@), key@, 0) is None,
        },
{
    let mut i: usize = 0;
    while i < v.len()
        invariant
            i <= v.len(),
            key_from(pair_views(v@), key@, 0) == key_from(pair_views(v@), key@, i as int),
        decreases v.len() - i,
    {
        if same_text(v[i].0.as_str(), key) {
            return Some(i);
        }
        i += 1;
    }
    None
}

fn copy_array(v: &Vec<Json>) -> (r: Vec<Json>)
    ensures
        json_views(r@) == json_views(v@),
    decreases v,
{
    let mut out: Vec<Json> = Vec::new();
    let mut i: usize = 0;
    while i < v.len()
        invariant
            i <= v.len(),
            json_views(out@) == json_views(v@).take(i as int),
        decreases v.len() - i,
    {
        let ghost before = json_views(out@);
        assert(decreases_to!(*v => v[i as int]));
        let x = v[i].copy();
        out.push(x);
        assert(json_views(out@) =~= before.push(x@));
        assert(json_views(v@).take(i + 1) =~= json_views(v@).take(i as int).push(x@));
        i += 1;
    }
    assert(json_views(v@).take(i as int) =~= json_views(v@));
    out
}

/// The same pairs once more.
pub fn copy_object(v: &Vec<(String, Json)>) -> (r: Vec<(String, Json)>)
    ensures
        pair_views(r@) == pair_views(v@),
    decreases v,
{
    let mut out: Vec<(String, Json)> = Vec::new();
    let mut i: usize = 0;
    while i < v.len()
        invariant
            i <= v.len(),
            pair_views(out@) == pair_views(v@).take(i as int),
        decreases v.len() - i,
    {
        let ghost before = pair_views(out@);
        assert(decreases_to!(*v => v[i as int]));
        let x = (v[i].0.clone(), v[i].1.copy());
        out.push(x);
        assert(pair_views(out@) =~= before.push((x.0@, x.1@)));
        assert(pair_views(v@).take(i + 1) =~= pair_views(v@).take(i as int).push((x.0@, x.1@)));
        i += 1;
    }
    assert(pair_views(v@).take(i as int) =~= pair_views(v@));
    out
}

impl Json {
    /// The value of a key, where this is an object that has it.
    pub fn get(&self, key: &str) -> (r: Option<&Json>)
        ensures
            opt_json(r) == member(self@, key@),
    {
        broadcast use lemma_json_view;

        match self {
            Json::Object(v) => match find_key(v, key) {
                Some(i) => Some(&v[i].1),
                None => None,
            },
            _ => None,
        }
    }

    pub fn as_str(&self) -> (r: Option<&String>)
        ensures
            match r {
                Some(s) => text_of_json(Some(self@)) == Some(s@),
                None => text_of_json(Some(self@)) is None,
            },
    {
        match self {
            Json::Text(s) => Some(s),
            _ => None,
        }
    }

    pub fn as_bool(&self) -> (r: Option<bool>)
        ensures
            r == bool_of_json(Some(self@)),
    {
        match self {
            Json::Bool(b) => Some(*b),
            _ => None,
        }
    }

    pub fn as_u64(&self) -> (r: Option<u64>)
        ensures
            r == u64_of_json(Some(self@)),
    {
        match self {
            Json::Number(Number::Pos(n)) => Some(*n),
            _ => None,
        }
    }

    pub fn as_i64(&self) -> (r: Option<i64>)
        ensures
            r == i64_of_json(Some(self@)),
    {
        match self {
            Json::Number(Number::Pos(n)) => if *n <= i64::MAX as u64 {
                Some(*n as i64)
            } else {
                None
            },
            Json::Number(Number::Neg(n)) => Some(*n),
            _ => None,
        }
    }

    /// The number in millionths.
    pub fn as_micro(&self) -> (r: Option<i64>)
        ensures
            r == micro_of_json(Some(self@)),
    {
        match self {
            Json::Number(Number::Pos(n)) => Some(hold(*n as i128 * UNIT as i128)),
            Json::Number(Number::Neg(n)) => Some(hold(*n as i128 * UNIT as i128)),
            Json::Number(Number::Float(t)) => {
                let c = chars_of(t.as_str());
                match parse_micro(&c) {
                    Some(v) => Some(hold(v)),
                    None => None,
                }
            },
            _ => None,
        }
    }

    pub fn as_array(&self) -> (r: Option<&Vec<Json>>)
        ensures
            match r {
                Some(v) => array_of_json(Some(self@)) == Some(json_views(v@)),
                None => array_of_json(Some(self@)) is None,
            },
    {
        broadcast use lemma_json_view;

        match self {
            Json::Array(v) => Some(v),
            _ => None,
        }
    }

    pub fn as_object(&self) -> (r: Option<&Vec<(String, Json)>>)
        ensures
            match r {
                Some(v) => object_of_json(Some(self@)) == Some(pair_views(v@)),
                None => object_of_json(Some(self@)) is None,
            },
    {
        broadcast use lemma_json_view;

        match self {
            Json::Object(v) => Some(v),
            _ => None,
        }
    }

    /// The same value once more.
    pub fn copy(&self) -> (r: Json)
        ensures
            r@ == self@,
        decreases self,
    {
        broadcast use lemma_json_view;

        match self {
            Json::Null => Json::Null,
            Json::Bool(b) => Json::Bool(*b),
            Json::Number(Number::Pos(n)) => Json::Number(Number::Pos(*n)),
            Json::Number(Number::Neg(n)) => Json::Number(Number::Neg(*n)),
            Json::Number(Number::Float(t)) => Json::Number(Number::Float(t.clone())),
            Json::Text(s) => Json::Text(s.clone()),
            Json::Array(v) => {
                let out = copy_array(v);
                let r = Json::Array(out);
                assert(r@ == JsonView::Array(json_views(out@)));
                assert(self@ == JsonView::Array(json_views(v@)));
                r
            },
            Json::Object(v) => {
                let out = copy_object(v);
                let r = Json::Object(out);
                assert(r@ == JsonView::Object(pair_views(out@)));
                assert(self@ == JsonView::Object(pair_views(v@)));
                r
            },
        }
    }

    /// Whether two values are the same: numbers by their kind and value,
    /// objects by their keys and values.
    pub fn same(&self, other: &Json) -> (r: bool)
        ensures
            r == alike(self@, other@),
        decreases self,
    {
        broadcast use lemma_json_view;

        match (self, other) {
            (Json::Null, Json::Null) => true,
            (Json::Bool(a), Json::Bool(b)) => *a == *b,
            (Json::Number(a), Json::Number(b)) => match (a, b) {
                (Number::Pos(x), Number::Pos(y)) => *x == *y,
                (Number::Neg(x), Number::Neg(y)) => *x == *y,
                (Number::Float(x), Number::Float(y)) => equal_floats(x.as_str(), y.as_str()),
                _ => false,
            },
            (Json::Text(a), Json::Text(b)) => same_text(a.as_str(), b.as_str()),
            (Json::Array(a), Json::Array(b)) => {
                assert(self@ == JsonView::Array(json_views(a@)));
                assert(other@ == JsonView::Array(json_views(b@)));
                if a.len() != b.len() {
                    assert(json_views(a@).len() != json_views(b@).len());
                    return false;
                }
                let mut i: usize = 0;
                while i < a.len()
                    invariant
                        i <= a.len(),
                        a.len() == b.len(),
                        *self == Json::Array(*a),
                        self@ == JsonView::Array(json_views(a@)),
                        other@ == JsonView::Array(json_views(b@)),
                        forall|k: int|
                            0 <= k < i ==> alike(#[trigger] json_views(a@)[k], json_views(b@)[k]),
                    decreases a.len() - i,
                {
                    assert(decreases_to!(*a => a[i as int]));
                    if !a[i].same(&b[i]) {
                        assert(!alike(json_views(a@)[i as int], json_views(b@)[i as int]));
                        return false;
                    }
                    assert(alike(json_views(a@)[i as int], json_views(b@)[i as int]));
                    i += 1;
                }
                true
            },
            (Json::Object(a), Json::Object(b)) => {
                assert(self@ == JsonView::Object(pair_views(a@)));
                assert(other@ == JsonView::Object(pair_views(b@)));
                if a.len() != b.len() {
                    assert(pair_views(a@).len() != pair_views(b@).len());
                    return false;
                }
                let mut i: usize = 0;
                while i < a.len()
                    invariant
                        i <= a.len(),
                        a.len() == b.len(),
                        *self == Json::Object(*a),
                        self@ == JsonView::Object(pair_views(a@)),
                        other@ == JsonView::Object(pair_views(b@)),
                        forall|k: int|
                            0 <= k < i ==> (#[trigger] pair_views(a@)[k]).0 == pair_views(b@)[k].0
                                && alike(pair_views(a@)[k].1, pair_views(b@)[k].1),
                    decreases a.len() - i,
                {
                    assert(decreases_to!(*a => a[i as int]));
                    if !same_text(a[i].0.as_str(), b[i].0.as_str()) || !a[i].1.same(&b[i].1) {
                        assert(pair_views(a@)[i as int].0 != pair_views(b@)[i as int].0 || !alike(
                            pair_views(a@)[i as int].1,
                            pair_views(b@)[i as int].1,
                        ));
                        return false;
                    }
                    assert(pair_views(a@)[i as int].0 == pair_views(b@)[i as int].0 && alike(
                        pair_views(a@)[i as int].1,
                        pair_views(b@)[i as int].1,
                    ));
                    i += 1;
                }
                true
            },
            _ => false,
        }
    }
}

// --------------------------------------------------------------------- writing

/// The text of a key's value.
pub fn text(s: &str) -> (r: Json)
    ensures
        r@ == JsonView::Text(s@),
{
    Json::Text(copy_text(s))
}

pub fn number(n: u64) -> (r: Json)
    ensures
        r@ == JsonView::Number(NumberView::Pos(n)),
{
    Json::Number(Number::Pos(n))
}

/// An entry of an object.
pub fn entry(key: &str, value: Json) -> (r: (String, Json))
    ensures
        r.0@ == key@,
        r.1@ == value@,
{
    (copy_text(key), value)
}

/// The object with these entries.
pub fn object(v: Vec<(String, Json)>) -> (r: Json)
    ensures
        r@ == JsonView::Object(pair_views(v@)),
{
    broadcast use lemma_json_view;

    let r = Json::Object(v);
    assert(r@ == JsonView::Object(pair_views(v@)));
    r
}

/// The array with these elements.
pub fn array(v: Vec<Json>) -> (r: Json)
    ensures
        r@ == JsonView::Array(json_views(v@)),
{
    broadcast use lemma_json_view;

    let r = Json::Array(v);
    assert(r@ == JsonView::Array(json_views(v@)));
    r
}

/// The member of a member that may not be there.
pub fn get_in<'a>(j: Option<&'a Json>, key: &str) -> (r: Option<&'a Json>)
    ensures
        opt_json(r) == member_of(opt_json(j), key@),
{
    match j {
        Some(v) => v.get(key),
        None => None,
    }
}

/// The text that a value may be.
pub fn str_in(j: Option<&Json>) -> (r: Option<String>)
    ensures
        crate::text::opt_text(r) == text_of_json(opt_json(j)),
{
    match j {
        Some(v) => match v.as_str() {
            Some(s) => Some(s.clone()),
            None => None,
        },
        None => None,
    }
}

/// The unsigned integer that a value may be.
pub fn u64_in(j: Option<&Json>) -> (r: Option<u64>)
    ensures
        r == u64_of_json(opt_json(j)),
{
    match j {
        Some(v) => v.as_u64(),
        None => None,
    }
}

/// The truth value that a value may be.
pub fn bool_in(j: Option<&Json>) -> (r: Option<bool>)
    ensures
        r == bool_of_json(opt_json(j)),
{
    match j {
        Some(v) => v.as_bool(),
        None => None,
    }
}

/// The number in millionths that a value may be.
pub fn micro_in(j: Option<&Json>) -> (r: Option<i64>)
    ensures
        r == micro_of_json(opt_json(j)),
{
    match j {
        Some(v) => v.as_micro(),
        None => None,
    }
}

/// The first element of the array that a value may be.
pub fn first_in<'a>(j: Option<&'a Json>) -> (r: Option<&'a Json>)
    ensures
        opt_json(r) == first_of(opt_json(j)),
{
    match j {
        Some(v) => match v.as_array() {
            Some(a) => if a.len() > 0 {
                Some(&a[0])
            } else {
                None
            },
            None => None,
        },
        None => None,
    }
}

/// Where a key stands, or belongs in the order of the keys.
pub open spec fn key_place(s: Seq<(Seq<char>, JsonView)>, key: Seq<char>) -> int {
    crate::textmap::rank(s, key)
}

/// The object with the value of a key set; a new key stands where the order
/// of the keys puts it.
pub open spec fn with_member(s: Seq<(Seq<char>, JsonView)>, key: Seq<char>, v: JsonView) -> Seq<
    (Seq<char>, JsonView),
> {
    match key_from(s, key, 0) {
        Some(i) => s.update(i, (key, v)),
        None => s.insert(key_place(s, key), (key, v)),
    }
}

pub proof fn lemma_key_from(s: Seq<(Seq<char>, JsonView)>, key: Seq<char>, from: int)
    requires
        0 <= from,
    ensures
        match key_from(s, key, from) {
            Some(i) => from <= i < s.len() && s[i].0 == key && (forall|k: int|
                from <= k < i ==> (#[trigger] s[k]).0 != key),
            None => forall|k: int| from <= k < s.len() ==> (#[trigger] s[k]).0 != key,
        },
    decreases s.len() - from,
{
    if from < s.len() && s[from].0 != key {
        lemma_key_from(s, key, from + 1);
    }
}

proof fn lemma_rank_bound(s: Seq<(Seq<char>, JsonView)>, key: Seq<char>, from: int)
    requires
        0 <= from <= s.len(),
    ensures
        from <= crate::textmap::rank_from(s, key, from) <= s.len(),
    decreases s.len() - from,
{
    if from < s.len() && text_lt(s[from].0, key) {
        lemma_rank_bound(s, key, from + 1);
    }
}

/// Sets the value of a key.
pub fn set_member(v: &mut Vec<(String, Json)>, key: &str, value: Json)
    ensures
        pair_views(final(v)@) == with_member(pair_views(old(v)@), key@, value@),
{
    let ghost before = pair_views(v@);
    let ghost raw = v@;
    match find_key(v, key) {
        Some(i) => {
            let _ = v.remove(i);
            v.insert(i, (copy_text(key), value));
            assert(pair_views(v@) =~= before.update(i as int, (key@, value@)));
        },
        None => {
            let k = chars_of(key);
            let mut i: usize = 0;
            while i < v.len() && less(v[i].0.as_str(), &k)
                invariant
                    i <= v.len(),
                    k@ == key@,
                    v@ == raw,
                    before == pair_views(raw),
                    key_place(before, key@) == crate::textmap::rank_from(before, key@, i as int),
                decreases v.len() - i,
            {
                i += 1;
            }
            v.insert(i, (copy_text(key), value));
            assert(pair_views(v@) =~= before.insert(i as int, (key@, value@)));
        },
    }
}

fn less(a: &str, b: &[char]) -> (r: bool)
    ensures
        r == text_lt(a@, b@),
{
    let c = chars_of(a);
    crate::text::before(&c, b)
}

/// Setting a key's value is read back, and no other key's value changes.
pub proof fn set_then_get(
    s: Seq<(Seq<char>, JsonView)>,
    key: Seq<char>,
    v: JsonView,
    other: Seq<char>,
)
    ensures
        member(JsonView::Object(with_member(s, key, v)), key) == Some(v),
        other != key ==> member(JsonView::Object(with_member(s, key, v)), other) == member(
            JsonView::Object(s),
            other,
        ),
{
    let t = with_member(s, key, v);
    lemma_key_from(s, key, 0);
    lemma_key_from(t, key, 0);
    lemma_key_from(s, other, 0);
    lemma_key_from(t, other, 0);
    lemma_rank_bound(s, key, 0);
    match key_from(s, key, 0) {
        Some(i) => {
            assert(t[i].0 == key);
            let j = key_from(t, key, 0)->0;
            if j < i {
                assert(t[j] == s[j]);
            }
            if other != key {
                if let Some(a) = key_from(s, other, 0) {
                    assert(t[a] == s[a]);
                    let b = key_from(t, other, 0)->0;
                    assert(t[b].0 == other && b != i);
                    assert(s[b] == t[b]);
                } else if let Some(b) = key_from(t, other, 0) {
                    assert(b != i);
                    assert(s[b] == t[b]);
                }
            }
        },
        None => {
            let r = key_place(s, key);
            assert(t[r] == (key, v));
            let j = key_from(t, key, 0)->0;
            if j < r {
                assert(t[j] == s[j]);
            }
            if other != key {
                if let Some(a) = key_from(s, other, 0) {
                    let a2 = if a < r {
                        a
                    } else {
                        a + 1
                    };
                    assert(t[a2] == s[a]);
                    let b = key_from(t, other, 0)->0;
                    assert(b <= a2 && b != r);
                    let b2 = if b < r {
                        b
                    } else {
                        b - 1
                    };
                    assert(t[b] == s[b2]);
                    assert(b2 >= a);
                } else if let Some(b) = key_from(t, other, 0) {
                    assert(b != r);
                    let b2 = if b < r {
                        b
                    } else {
                        b - 1
                    };
                    assert(t[b] == s[b2]);
                }
            }
        },
    }
}

// ------------------------------------------------------------------ serde_json

#[verifier::external_type_specification]
#[verifier::external_body]
pub struct ExValue(serde_json::Value);

/// What a serde_json value holds.
pub uninterp spec fn value_view(v: serde_json::Value) -> JsonView;

/// The value that serde_json reads from a text, or the text of its error.
pub uninterp spec fn json_document(text: Seq<char>) -> Result<JsonView, Seq<char>>;

/// Calls `serde_json::from_str` for a `Value`: what the text holds, or why it
/// is no JSON, depends on the text alone.
#[verifier::external_body]
fn read_value(text: &str) -> (r: Result<serde_json::Value, String>)
    ensures
        match r {
            Ok(v) => json_document(text@) == Ok::<JsonView, Seq<char>>(value_view(v)),
            Err(e) => json_document(text@) == Err::<JsonView, Seq<char>>(e@),
        },
{
    serde_json::from_str(text).map_err(|e: serde_json::Error| e.to_string())
}

/// Converts a `serde_json::Value`, variant by variant. The entries of an
/// object come in the order of `serde_json::Map`, which without the feature
/// `preserve_order` is a `BTreeMap`'s: keys strictly increasing. A number is
/// told apart by `as_u64` and `as_i64`; any other is held as the text that
/// serde_json shows it as.
#[verifier::external_body]
pub(crate) fn json_of(v: &serde_json::Value) -> (r: Json)
    ensures
        r@ == value_view(*v),
        keys_sorted(r@),
{
    match v {
        Value::Null => Json::Null,
        Value::Bool(b) => Json::Bool(*b),
        Value::Number(n) => Json::Number(match (n.as_u64(), n.as_i64()) {
            (Some(u), _) => Number::Pos(u),
            (None, Some(i)) => Number::Neg(i),
            _ => Number::Float(n.to_string()),
        }),
        Value::String(s) => Json::Text(s.clone()),
        Value::Array(a) => Json::Array(a.iter().map(json_of).collect()),
        Value::Object(o) => Json::Object(o.iter().map(|p| (p.0.clone(), json_of(p.1))).collect()),
    }
}

/// The keys of a sequence of entries are strictly increasing.
pub open spec fn increasing(s: Seq<(Seq<char>, JsonView)>) -> bool {
    crate::textmap::sorted(s)
}

/// The keys of every object in the value are strictly increasing.
pub open spec fn keys_sorted(j: JsonView) -> bool
    decreases j,
{
    match j {
        JsonView::Array(s) => forall|i: int| 0 <= i < s.len() ==> keys_sorted(#[trigger] s[i]),
        JsonView::Object(s) => increasing(s) && forall|i: int|
            0 <= i < s.len() ==> keys_sorted((#[trigger] s[i]).1),
        _ => true,
    }
}

/// The value holds no number with a fraction or an exponent, and no negative
/// number that is not negative.
pub open spec fn whole(j: JsonView) -> bool
    decreases j,
{
    match j {
        JsonView::Number(NumberView::Float(_)) => false,
        JsonView::Number(NumberView::Neg(n)) => n < 0,
        JsonView::Array(s) => forall|i: int| 0 <= i < s.len() ==> whole(#[trigger] s[i]),
        JsonView::Object(s) => forall|i: int| 0 <= i < s.len() ==> whole((#[trigger] s[i]).1),
        _ => true,
    }
}

/// Setting a key's value keeps the keys in order.
pub proof fn setting_keeps_the_order(s: Seq<(Seq<char>, JsonView)>, key: Seq<char>, v: JsonView)
    requires
        keys_sorted(JsonView::Object(s)),
        keys_sorted(v),
    ensures
        keys_sorted(JsonView::Object(with_member(s, key, v))),
{
    let t = with_member(s, key, v);
    lemma_key_from(s, key, 0);
    match key_from(s, key, 0) {
        Some(i) => {
            assert forall|k: int| 0 <= k < t.len() implies keys_sorted((#[trigger] t[k]).1) by {
                assert(k != i ==> t[k] == s[k]);
            }
            assert(increasing(t)) by {
                assert forall|a: int, b: int| 0 <= a < b < t.len() implies crate::text::text_lt(
                    #[trigger] t[a].0,
                    #[trigger] t[b].0,
                ) by {
                    assert(t[a].0 == s[a].0 && t[b].0 == s[b].0);
                }
            }
        },
        None => {
            crate::textmap::put_then_lookup(s, key, v, key);
            assert(t =~= crate::textmap::put(s, key, v)) by {
                crate::textmap::lemma_has_key(s, key);
            }
            let r = key_place(s, key);
            lemma_rank_bound(s, key, 0);
            assert forall|k: int| 0 <= k < t.len() implies keys_sorted((#[trigger] t[k]).1) by {
                if k < r {
                    assert(t[k] == s[k]);
                } else if k > r {
                    assert(t[k] == s[k - 1]);
                }
            }
        },
    }
}

/// What the serde_json value that is built from a value holds. A text that
/// serde_json does not read as a number, where one should stand, becomes
/// null; of two equal keys the later one stays.
pub uninterp spec fn built(j: JsonView) -> JsonView;

/// Builds a `serde_json::Value`, variant by variant. A value whose keys are
/// sorted and whose numbers are integers is kept as it is: `Value::from` of a
/// `u64` and of an `i64`, and `Map`'s collecting, lose nothing of those.
#[verifier::external_body]
fn value_of(j: &Json) -> (r: serde_json::Value)
    ensures
        value_view(r) == built(j@),
        keys_sorted(j@) && whole(j@) ==> value_view(r) == j@,
{
    match j {
        Json::Null => Value::Null,
        Json::Bool(b) => Value::Bool(*b),
        Json::Number(Number::Pos(n)) => Value::from(*n),
        Json::Number(Number::Neg(n)) => Value::from(*n),
        Json::Number(Number::Float(t)) => serde_json::from_str(t).unwrap_or_default(),
        Json::Text(s) => Value::String(s.clone()),
        Json::Array(a) => Value::Array(a.iter().map(value_of).collect()),
        Json::Object(o) => Value::Object(o.iter().map(|p| (p.0.clone(), value_of(&p.1))).collect()),
    }
}

/// The indented text that serde_json writes a value as.
pub uninterp spec fn json_pretty(j: JsonView) -> Seq<char>;

/// Arrays and objects stand at most `n` deep in each other.
pub open spec fn nests_within(j: JsonView, n: nat) -> bool
    decreases n,
{
    match j {
        JsonView::Array(s) => n > 0 && forall|i: int|
            0 <= i < s.len() ==> nests_within(#[trigger] s[i], (n - 1) as nat),
        JsonView::Object(s) => n > 0 && forall|i: int|
            0 <= i < s.len() ==> nests_within((#[trigger] s[i]).1, (n - 1) as nat),
        _ => true,
    }
}

/// A value that serde_json reads back as it wrote it: its numbers are
/// integers, and it stays well within the depth that the parser allows.
pub open spec fn plain(j: JsonView) -> bool {
    whole(j) && nests_within(j, 100)
}

/// The text holds this value.
pub open spec fn reads_as(text: Seq<char>, j: JsonView) -> bool {
    json_document(text) == Ok::<JsonView, Seq<char>>(j)
}

/// Calls `serde_json::to_string_pretty`, which never fails on a `Value` and
/// whose text depends on what the value holds alone. `from_str` gives a plain
/// value back, with or without a line feed behind the text: it undoes the
/// escapes, reads each integer as it was, skips whitespace at the end, and
/// refuses only what nests deeper than its limit.
#[verifier::external_body]
fn pretty_value(v: &serde_json::Value) -> (r: String)
    ensures
        r@ == json_pretty(value_view(*v)),
        plain(value_view(*v)) ==> reads_as(r@, value_view(*v)) && reads_as(
            r@ + "\n"@,
            value_view(*v),
        ),
{
    serde_json::to_string_pretty(v).unwrap_or_default()
}

/// The quoted and escaped text that serde_json writes a string as.
pub uninterp spec fn json_string(s: Seq<char>) -> Seq<char>;

/// Calls `serde_json::to_string` for a string, which never fails and whose
/// text depends on the string alone.
#[verifier::external_body]
pub(crate) fn quoted_string(s: &str) -> (r: String)
    ensures
        r@ == json_string(s@),
{
    serde_json::to_string(s).unwrap_or_default()
}

/// The value that a JSON text holds, or why it is none.
pub fn parse(text: &str) -> (r: Result<Json, String>)
    ensures
        match r {
            Ok(j) => json_document(text@) == Ok::<JsonView, Seq<char>>(j@) && keys_sorted(j@),
            Err(e) => json_document(text@) == Err::<JsonView, Seq<char>>(e@),
        },
{
    match read_value(text) {
        Ok(v) => Ok(json_of(&v)),
        Err(e) => Err(e),
    }
}

/// The indented text of a value.
pub fn pretty(j: &Json) -> (r: String)
    ensures
        r@ == json_pretty(built(j@)),
        keys_sorted(j@) && whole(j@) ==> r@ == json_pretty(j@),
        keys_sorted(j@) && plain(j@) ==> reads_as(r@, j@) && reads_as(r@ + "\n"@, j@),
{
    let v = value_of(j);
    pretty_value(&v)
}

/// A whole number is held in millionths: a million times what it is, as far as that fits.
pub proof fn whole_numbers_are_held_in_millionths(n: u64)
    ensures
        n <= 4_611_686_018_427 ==> micro_of_json(
            Some(JsonView::Number(NumberView::Pos(n))),
        ) == Some((n * 1_000_000) as i64),
        n > 4_611_686_018_427 ==> micro_of_json(
            Some(JsonView::Number(NumberView::Pos(n))),
        ) == Some(4_611_686_018_427_387_904i64),
        u64_of_json(Some(JsonView::Number(NumberView::Pos(n)))) == Some(n),
        n <= 9_223_372_036_854_775_807 ==> i64_of_json(
            Some(JsonView::Number(NumberView::Pos(n))),
        ) == Some(n as i64),
        n > 9_223_372_036_854_775_807 ==> i64_of_json(
            Some(JsonView::Number(NumberView::Pos(n))),
        ) is None,
{
}

} // verus!
