//! Ollama as a peer provider: never managed, always observed.
//!
//! Two facts matter to this app: what Ollama *has* (its library, which the
//! model scanner already reads from disk) and what it currently *holds in
//! VRAM* (`/api/ps`) — because a 20GB Ollama resident plus a 20GB router
//! load on one 24GB card is the single most common way local setups fall
//! over. We surface the collision; the user decides who wins.
use crate::json::{
    array_of_json, json_views, member, str_in, text_of_json, u64_in, u64_of_json, Json, JsonView,
};
use crate::text::{copy_text, opt_text};
use vstd::prelude::*;
use vstd::string::*;

verus! {

pub const DEFAULT_PORT: u16 = 11434;

#[derive(Debug, Clone, PartialEq)]
pub struct OllamaStatus {
    /// Daemon answered /api/ps. False ≠ "models gone".
    pub reachable: bool,
    /// Models currently resident, with how much VRAM each holds.
    pub loaded: Vec<LoadedModel>,
}

#[derive(Debug, Clone, PartialEq)]
pub struct LoadedModel {
    pub name: String,
    pub size_vram: u64,
}

pub struct LoadedView {
    pub name: Seq<char>,
    pub size_vram: u64,
}

impl View for LoadedModel {
    type V = LoadedView;

    open spec fn view(&self) -> LoadedView {
        LoadedView { name: self.name@, size_vram: self.size_vram }
    }
}

pub open spec fn loaded_views(v: Seq<LoadedModel>) -> Seq<LoadedView> {
    Seq::new(v.len(), |i: int| v[i]@)
}

impl Default for OllamaStatus {
    fn default() -> (r: OllamaStatus)
        ensures
            !r.reachable,
            r.loaded@.len() == 0,
    {
        OllamaStatus { reachable: false, loaded: Vec::new() }
    }
}

/// The resident model that an entry tells of; a missing size is zero.
pub open spec fn resident(m: JsonView) -> Option<LoadedView> {
    match text_of_json(member(m, "name"@)) {
        Some(name) => Some(
            LoadedView {
                name,
                size_vram: match u64_of_json(member(m, "size_vram"@)) {
                    Some(n) => n,
                    None => 0,
                },
            },
        ),
        None => None,
    }
}

pub open spec fn residents(a: Seq<JsonView>) -> Seq<LoadedView>
    decreases a.len(),
{
    if a.len() == 0 {
        Seq::empty()
    } else {
        let sofar = residents(a.drop_last());
        match resident(a.last()) {
            Some(m) => sofar.push(m),
            None => sofar,
        }
    }
}

/// The resident models of an `/api/ps` answer.
pub open spec fn residents_in(body: JsonView) -> Seq<LoadedView> {
    match array_of_json(member(body, "models"@)) {
        Some(a) => residents(a),
        None => Seq::empty(),
    }
}

/// Parse `/api/ps`: `{"models":[{"name":…,"size_vram":…},…]}`.
pub fn parse_ps(body: &Json) -> (r: Vec<LoadedModel>)
    ensures
        loaded_views(r@) == residents_in(body@),
{
    let mut out: Vec<LoadedModel> = Vec::new();
    assert(loaded_views(out@) =~= Seq::<LoadedView>::empty());
    let models = match body.get("models") {
        Some(m) => match m.as_array() {
            Some(a) => a,
            None => {
                return out;
            },
        },
        None => {
            return out;
        },
    };
    let ghost all = json_views(models@);
    let mut i: usize = 0;
    assert(all.take(0) =~= Seq::empty());
    while i < models.len()
        invariant
            i <= models.len(),
            all == json_views(models@),
            loaded_views(out@) == residents(all.take(i as int)),
        decreases models.len() - i,
    {
        assert(all.take(i + 1).drop_last() =~= all.take(i as int));
        assert(all.take(i + 1).last() == models@[i as int]@);
        let m = &models[i];
        if let Some(name) = str_in(m.get("name")) {
            let size_vram = match u64_in(m.get("size_vram")) {
                Some(n) => n,
                None => 0,
            };
            let ghost sofar = loaded_views(out@);
            let e = LoadedModel { name, size_vram };
            out.push(e);
            assert(loaded_views(out@) =~= sofar.push(e@));
        }
        i += 1;
    }
    assert(all.take(i as int) =~= all);
    out
}

/// The first model from `from` on that holds VRAM.
pub open spec fn holder_from(v: Seq<LoadedView>, from: int) -> Option<Seq<char>>
    decreases v.len() - from,
{
    if from < 0 || from >= v.len() {
        None
    } else if v[from].size_vram > 0 {
        Some(v[from].name)
    } else {
        holder_from(v, from + 1)
    }
}

/// Who holds the GPU on the peer's side, in words; none where nothing of it
/// is in VRAM.
pub fn tenant(s: &OllamaStatus) -> (r: Option<String>)
    ensures
        opt_text(r) == (match holder_from(loaded_views(s.loaded@), 0) {
            Some(name) => Some("Ollama ("@ + name + ")"@),
            None => None,
        }),
{
    let mut i: usize = 0;
    while i < s.loaded.len()
        invariant
            i <= s.loaded.len(),
            holder_from(loaded_views(s.loaded@), 0) == holder_from(
                loaded_views(s.loaded@),
                i as int,
            ),
        decreases s.loaded.len() - i,
    {
        let m = &s.loaded[i];
        assert(loaded_views(s.loaded@)[i as int] == m@);
        if m.size_vram > 0 {
            let mut t = copy_text("Ollama (");
            t.append(m.name.as_str());
            t.append(")");
            return Some(t);
        }
        i += 1;
    }
    None
}

/// What the daemon's answer to `/api/ps` tells; no answer means that it is
/// out of reach.
pub fn probe(answer: Option<&Json>) -> (r: OllamaStatus)
    ensures
        match answer {
            Some(body) => r.reachable && loaded_views(r.loaded@) == residents_in(body@),
            None => !r.reachable && r.loaded@.len() == 0,
        },
{
    match answer {
        Some(body) => OllamaStatus { reachable: true, loaded: parse_ps(body) },
        None => Default::default(),
    }
}

/// Every named model that is resident is told of, with the memory that it holds.
pub proof fn every_resident_is_told_of(a: Seq<JsonView>, i: int, name: Seq<char>)
    requires
        0 <= i < a.len(),
        text_of_json(member(a[i], "name"@)) == Some(name),
    ensures
        exists|k: int|
            0 <= k < residents(a).len() && (#[trigger] residents(a)[k]).name == name && (u64_of_json(
                member(a[i], "size_vram"@),
            ) is Some ==> Some(residents(a)[k].size_vram) == u64_of_json(
                member(a[i], "size_vram"@),
            )) && (u64_of_json(member(a[i], "size_vram"@)) is None ==> residents(a)[k].size_vram
                == 0),
    decreases a.len(),
{
    let s = a.drop_last();
    let before = residents(s);
    let now = residents(a);
    if i < s.len() {
        assert(s[i] == a[i]);
        every_resident_is_told_of(s, i, name);
        let k = choose|k: int|
            0 <= k < before.len() && (#[trigger] before[k]).name == name && (u64_of_json(
                member(a[i], "size_vram"@),
            ) is Some ==> Some(before[k].size_vram) == u64_of_json(member(a[i], "size_vram"@))) && (
            u64_of_json(member(a[i], "size_vram"@)) is None ==> before[k].size_vram == 0);
        assert(now[k] == before[k]);
    } else {
        assert(now[now.len() - 1].name == name);
    }
}

/// The GPU is held by a resident model just where one has memory on it, and the first such
/// one is named.
pub proof fn the_first_with_memory_holds_the_gpu(v: Seq<LoadedView>, from: int)
    requires
        0 <= from <= v.len(),
    ensures
        match holder_from(v, from) {
            Some(name) => exists|i: int|
                from <= i < v.len() && (#[trigger] v[i]).name == name && v[i].size_vram > 0
                    && forall|k: int| from <= k < i ==> (#[trigger] v[k]).size_vram == 0,
            None => forall|k: int| from <= k < v.len() ==> (#[trigger] v[k]).size_vram == 0,
        },
    decreases v.len() - from,
{
    if from < v.len() {
        if v[from].size_vram > 0 {
            assert(v[from].name == v[from].name);
        } else {
            the_first_with_memory_holds_the_gpu(v, from + 1);
            if holder_from(v, from + 1) is Some {
                let name = holder_from(v, from + 1)->0;
                let i = choose|i: int|
                    from + 1 <= i < v.len() && (#[trigger] v[i]).name == name && v[i].size_vram > 0
                        && forall|k: int| from + 1 <= k < i ==> (#[trigger] v[k]).size_vram == 0;
                assert(v[i].name == name);
                assert forall|k: int| from <= k < i implies (#[trigger] v[k]).size_vram == 0 by {}
            }
        }
    }
}

} // verus!
