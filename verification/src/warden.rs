//! Reading **modelwarden's** published inventory — the family's storage
//! truth — so this app stops re-deriving what a sibling already knows.
//!
//! The tools agree on a content-addressed identity (`sha256:<hex>`). We read
//! warden's published `inventory.json` and never write it. Warden not being
//! installed is normal and silent; a *damaged* inventory is reported rather
//! than read as empty.
use crate::num::{dec, dec_text};
use crate::path::{components, components_of, join_of, join_path, same_path};
use crate::safefs::Loaded;
use crate::settings::{base_dir, xdg_base, Env};
use crate::text::{
    before, begins, chars_of, copy_text, holds_text, opt_str, opt_text, same_text, starts_with,
    text_lt, texts,
};
use crate::textmap::{lookup, put_then_lookup, TextMap};
use vstd::prelude::*;
use vstd::string::*;

verus! {

/// Schema we know how to read. Warden freezes its schema and bumps this
/// when the shape changes; reading a future version as if it were this one
/// would silently mis-join models, so a mismatch refuses instead.
pub const SUPPORTED_SCHEMA: u32 = 1;

#[derive(Debug)]
pub struct Inventory {
    pub schema_version: u32,
    pub roots: Vec<Root>,
    pub models: TextMap<Entry>,
}

#[derive(Debug)]
pub struct Root {
    pub id: String,
    pub path: String,
    /// "shelf" | "ollama" | "hf_hub" | "removable" — warden's own
    /// classification of the store.
    pub kind: Option<String>,
}

#[derive(Debug)]
pub struct Entry {
    pub display_name: Option<String>,
    pub locations: Vec<Location>,
    pub size: u64,
}

#[derive(Debug)]
pub struct Location {
    pub root_id: String,
    pub rel_path: String,
    pub accessible: bool,
    pub dev: Option<u64>,
    pub ino: Option<u64>,
}

impl Default for Inventory {
    fn default() -> (r: Inventory)
        ensures
            r.schema_version == 0,
            r.roots@.len() == 0,
            r.models@.len() == 0,
    {
        Inventory { schema_version: 0, roots: Vec::new(), models: TextMap::new() }
    }
}

/// Where warden publishes, honouring `XDG_STATE_HOME` the same way our own
/// state dir does. A sibling's file does not live under our app dir.
pub fn inventory_path(e: &Env) -> (r: String)
    ensures
        r@ == join_path(
            join_path(base_dir(e.state_home, *e, ".local/state"@), "modelwarden"@),
            "inventory.json"@,
        ),
{
    let base = xdg_base(&e.state_home, e, ".local/state");
    join_of(join_of(base.as_str(), "modelwarden").as_str(), "inventory.json")
}

pub const MISJOIN: &'static str = " — \
             upgrade modelsteward, or it would mis-join models";

/// Validate what was read. `Missing` means warden isn't installed or hasn't
/// run — a normal state this app must work without. A schema that this build
/// does not read is refused.
pub fn load(read: Loaded<Inventory>) -> (r: Loaded<Inventory>)
    ensures
        match read {
            Loaded::Parsed(inv) => if inv.schema_version == SUPPORTED_SCHEMA {
                r == read
            } else {
                r is Damaged && r->Damaged_0@ == "inventory.json is schema v"@ + dec(
                    inv.schema_version as nat,
                ) + " but this build reads v"@ + dec(SUPPORTED_SCHEMA as nat) + MISJOIN@
            },
            _ => r == read,
        },
{
    match read {
        Loaded::Parsed(inv) => {
            if inv.schema_version != SUPPORTED_SCHEMA {
                let mut s = copy_text("inventory.json is schema v");
                s.append(dec_text(inv.schema_version as u64).as_str());
                s.append(" but this build reads v");
                s.append(dec_text(SUPPORTED_SCHEMA as u64).as_str());
                s.append(MISJOIN);
                Loaded::Damaged(s)
            } else {
                Loaded::Parsed(inv)
            }
        },
        other => other,
    }
}

// ------------------------------------------------------------------ identities

/// The key names hashed bytes.
pub open spec fn names_content(key: Seq<char>) -> bool {
    starts_with(key, "sha256:"@) && key.len() > "sha256:"@.len()
}

/// A content identity is only usable as a join key once warden has
/// actually hashed the bytes. Its other key forms — `pending:<dev>:<ino>:<size>`
/// while the hash worker is behind, `unknown:<root>:<rel>` when the bytes
/// are unreachable — are placeholders that change, so they are never
/// recorded as an identity.
pub fn is_content_id(key: &str) -> (r: bool)
    ensures
        r == names_content(key@),
{
    let c = chars_of(key);
    let p = chars_of("sha256:");
    begins(&c, "sha256:") && c.len() > p.len()
}

/// The root with the id, from `from` on.
pub open spec fn root_from(roots: Seq<Root>, id: Seq<char>, from: int) -> Option<int>
    decreases roots.len() - from,
{
    if from < 0 || from >= roots.len() {
        None
    } else if roots[from].id@ == id {
        Some(from)
    } else {
        root_from(roots, id, from + 1)
    }
}

/// Where a location is on disk.
pub open spec fn absolute_of(roots: Seq<Root>, loc: Location) -> Option<Seq<char>> {
    match root_from(roots, loc.root_id@, 0) {
        Some(i) => Some(join_path(roots[i].path@, loc.rel_path@)),
        None => None,
    }
}

/// The location is the file with this device and inode.
pub open spec fn is_inode(loc: Location, ids: Option<(u64, u64)>) -> bool {
    match ids {
        Some((dev, ino)) => loc.dev == Some(dev) && loc.ino == Some(ino),
        None => false,
    }
}

/// The location is the file at this path.
pub open spec fn is_at(roots: Seq<Root>, loc: Location, path: Seq<char>) -> bool {
    match absolute_of(roots, loc) {
        Some(p) => components(p) == components(path),
        None => false,
    }
}

/// One of the entry's locations is that file: by inode, or by path.
pub open spec fn entry_is(
    roots: Seq<Root>,
    e: Entry,
    path: Seq<char>,
    ids: Option<(u64, u64)>,
    by_inode: bool,
) -> bool {
    exists|i: int|
        0 <= i < e.locations@.len() && (if by_inode {
            is_inode(#[trigger] e.locations@[i], ids)
        } else {
            is_at(roots, e.locations@[i], path)
        })
}

/// The first hashed model that is that file, from `from` on.
pub open spec fn model_from(
    inv: Inventory,
    path: Seq<char>,
    ids: Option<(u64, u64)>,
    by_inode: bool,
    from: int,
) -> Option<int>
    decreases inv.models@.len() - from,
{
    if from < 0 || from >= inv.models@.len() {
        None
    } else if names_content(inv.models@[from].0) && entry_is(
        inv.roots@,
        inv.models@[from].1,
        path,
        ids,
        by_inode,
    ) {
        Some(from)
    } else {
        model_from(inv, path, ids, by_inode, from + 1)
    }
}

/// The identity of a file: that of the first model with its inode, else that
/// of the first model with its path.
pub open spec fn identity_of(inv: Inventory, path: Seq<char>, ids: Option<(u64, u64)>) -> Option<
    Seq<char>,
> {
    match model_from(inv, path, ids, true, 0) {
        Some(i) => Some(inv.models@[i].0),
        None => match model_from(inv, path, ids, false, 0) {
            Some(i) => Some(inv.models@[i].0),
            None => None,
        },
    }
}

impl Inventory {
    /// Resolve a location against its root. Returns `None` for a
    /// location whose root warden no longer lists.
    pub fn absolute(&self, loc: &Location) -> (r: Option<String>)
        ensures
            opt_text(r) == absolute_of(self.roots@, *loc),
    {
        let mut i: usize = 0;
        while i < self.roots.len()
            invariant
                i <= self.roots@.len(),
                root_from(self.roots@, loc.root_id@, 0) == root_from(
                    self.roots@,
                    loc.root_id@,
                    i as int,
                ),
            decreases self.roots.len() - i,
        {
            if same_text(self.roots[i].id.as_str(), loc.root_id.as_str()) {
                return Some(join_of(self.roots[i].path.as_str(), loc.rel_path.as_str()));
            }
            i += 1;
        }
        None
    }

    fn holds(&self, e: &Entry, path: &str, ids: Option<(u64, u64)>, by_inode: bool) -> (r: bool)
        ensures
            r == entry_is(self.roots@, *e, path@, ids, by_inode),
    {
        let mut i: usize = 0;
        while i < e.locations.len()
            invariant
                i <= e.locations@.len(),
                forall|k: int|
                    0 <= k < i ==> !(if by_inode {
                        is_inode(#[trigger] e.locations@[k], ids)
                    } else {
                        is_at(self.roots@, e.locations@[k], path@)
                    }),
            decreases e.locations.len() - i,
        {
            let loc = &e.locations[i];
            let found = if by_inode {
                match ids {
                    Some((dev, ino)) => loc.dev == Some(dev) && loc.ino == Some(ino),
                    None => false,
                }
            } else {
                match self.absolute(loc) {
                    Some(p) => same_path(p.as_str(), path),
                    None => false,
                }
            };
            if found {
                assert(e.locations@[i as int] == *loc);
                return true;
            }
            i += 1;
        }
        false
    }

    fn first_holding(&self, path: &str, ids: Option<(u64, u64)>, by_inode: bool) -> (r: Option<
        usize,
    >)
        ensures
            match r {
                Some(i) => i < self.models@.len() && model_from(*self, path@, ids, by_inode, 0)
                    == Some(i as int),
                None => model_from(*self, path@, ids, by_inode, 0) is None,
            },
    {
        let mut i: usize = 0;
        while i < self.models.len()
            invariant
                i <= self.models@.len(),
                model_from(*self, path@, ids, by_inode, 0) == model_from(
                    *self,
                    path@,
                    ids,
                    by_inode,
                    i as int,
                ),
            decreases self.models@.len() - i,
        {
            if is_content_id(self.models.key_at(i).as_str()) && self.holds(
                self.models.value_at(i),
                path,
                ids,
                by_inode,
            ) {
                return Some(i);
            }
            i += 1;
        }
        None
    }

    /// The identity of the file at `path`, if warden knows it; `ids` are the
    /// device and the inode of the file, where it is there.
    ///
    /// Matched on `(dev, ino)` first and the resolved absolute path
    /// second. Inode is the stronger credential: it survives a model reached
    /// through a different mount point, a symlink, or a hard link — all
    /// normal for the Ollama blob store and the HF cache.
    pub fn content_id_for(&self, path: &str, ids: Option<(u64, u64)>) -> (r: Option<&str>)
        ensures
            opt_str(r) == identity_of(*self, path@, ids),
    {
        match self.first_holding(path, ids, true) {
            Some(i) => Some(self.models.key_at(i).as_str()),
            None => match self.first_holding(path, ids, false) {
                Some(i) => Some(self.models.key_at(i).as_str()),
                None => None,
            },
        }
    }
}

/// An alias, the path of its file, and the device and inode of that file.
pub struct Aliased {
    pub alias: String,
    pub path: String,
    pub ids: Option<(u64, u64)>,
}

/// The identity of an alias: that of its last file that warden knows.
pub open spec fn identity_for(aliased: Seq<Aliased>, inv: Inventory, alias: Seq<char>) -> Option<
    Seq<char>,
>
    decreases aliased.len(),
{
    if aliased.len() == 0 {
        None
    } else {
        let a = aliased.last();
        let id = identity_of(inv, a.path@, a.ids);
        if a.alias@ == alias && id is Some {
            id
        } else {
            identity_for(aliased.drop_last(), inv, alias)
        }
    }
}

/// Map this app's aliases to warden identities, for every model warden
/// knows about.
///
/// Aliases warden does not recognise are simply absent — a model can be
/// servable here without warden having catalogued it, and that is not an
/// error.
pub fn identities(aliased: &[Aliased], inv: &Inventory) -> (r: TextMap<String>)
    ensures
        forall|alias: Seq<char>|
            opt_text(#[trigger] lookup(r@, alias)) == identity_for(aliased@, *inv, alias),
{
    let mut out: TextMap<String> = TextMap::new();
    let mut i: usize = 0;
    assert(aliased@.take(0) =~= Seq::empty());
    while i < aliased.len()
        invariant
            i <= aliased.len(),
            forall|alias: Seq<char>|
                opt_text(#[trigger] lookup(out@, alias)) == identity_for(
                    aliased@.take(i as int),
                    *inv,
                    alias,
                ),
        decreases aliased.len() - i,
    {
        let a = &aliased[i];
        let ghost sofar = aliased@.take(i as int);
        assert(aliased@.take(i + 1).drop_last() =~= sofar);
        assert(aliased@.take(i + 1).last() == *a);
        if let Some(id) = inv.content_id_for(a.path.as_str(), a.ids) {
            let v = copy_text(id);
            let ghost before = out@;
            let _ = out.len();
            out.insert(a.alias.clone(), v);
            proof {
                assert forall|alias: Seq<char>|
                    opt_text(#[trigger] lookup(out@, alias)) == identity_for(
                        aliased@.take(i + 1),
                        *inv,
                        alias,
                    ) by {
                    put_then_lookup(before, a.alias@, v, alias);
                    assert(opt_text(lookup(before, alias)) == identity_for(sofar, *inv, alias));
                }
            }
        }
        i += 1;
    }
    assert(aliased@.take(i as int) =~= aliased@);
    out
}

// ----------------------------------------------------------------------- roots

/// Where warden says models live, filtered to what is usable right now.
///
/// Asking warden for roots means a shelf the user added there, or a backup
/// drive they just plugged in, becomes servable here without being configured
/// twice. Offline roots are skipped rather than reported: an unplugged drive
/// is a normal state. `hf_hub` is deliberately not returned — this app
/// already locates the hub cache itself, and the router serves those
/// natively.
#[derive(Debug, PartialEq)]
pub struct Roots {
    /// Directories to walk for GGUFs: warden's shelves, plus removable
    /// roots that are currently mounted.
    pub shelves: Vec<String>,
    /// Ollama blob stores.
    pub ollama: Vec<String>,
}

impl Default for Roots {
    fn default() -> (r: Roots)
        ensures
            r.shelves@.len() == 0,
            r.ollama@.len() == 0,
    {
        Roots { shelves: Vec::new(), ollama: Vec::new() }
    }
}

/// What a component of a path is: the root, this directory, the one above, or
/// a name.
pub open spec fn component_kind(c: Seq<char>) -> nat {
    if c == seq!['/'] {
        0
    } else if c == seq!['.'] {
        1
    } else if c == seq!['.', '.'] {
        2
    } else {
        3
    }
}

pub open spec fn component_lt(a: Seq<char>, b: Seq<char>) -> bool {
    component_kind(a) < component_kind(b) || (component_kind(a) == component_kind(b) && text_lt(
        a,
        b,
    ))
}

/// The order of paths: by their components, one after the other.
pub open spec fn parts_lt(a: Seq<Seq<char>>, b: Seq<Seq<char>>) -> bool
    decreases a.len(),
{
    if b.len() == 0 {
        false
    } else if a.len() == 0 {
        true
    } else if a[0] == b[0] {
        parts_lt(a.skip(1), b.skip(1))
    } else {
        component_lt(a[0], b[0])
    }
}

/// The first place at or behind `from` whose path is not before `p`.
pub open spec fn path_place(s: Seq<Seq<char>>, p: Seq<char>, from: int) -> int
    decreases s.len() - from,
{
    if 0 <= from < s.len() && parts_lt(components(s[from]), components(p)) {
        path_place(s, p, from + 1)
    } else {
        from
    }
}

/// The paths with one more, in order; a path that is there already is not
/// added.
pub open spec fn with_path(s: Seq<Seq<char>>, p: Seq<char>) -> Seq<Seq<char>> {
    let i = path_place(s, p, 0);
    if i < s.len() && components(s[i]) == components(p) {
        s
    } else {
        s.insert(i, p)
    }
}

/// What a root is to this app: a directory to walk, or an Ollama store.
/// Anything unknown is left alone rather than guessed at — a future root kind
/// must not silently become a directory we walk.
pub open spec fn root_use(r: Root) -> Option<bool> {
    match r.kind {
        Some(k) => if k@ == "ollama"@ {
            Some(true)
        } else if k@ == "shelf"@ || k@ == "removable"@ {
            Some(false)
        } else {
            None
        },
        None => None,
    }
}

/// The mounted roots of one use, in the order of their paths and each once.
pub open spec fn usable(roots: Seq<Root>, mounted: Seq<Seq<char>>, ollama: bool) -> Seq<Seq<char>>
    decreases roots.len(),
{
    if roots.len() == 0 {
        Seq::empty()
    } else {
        let sofar = usable(roots.drop_last(), mounted, ollama);
        let r = roots.last();
        if mounted.contains(r.path@) && root_use(r) == Some(ollama) {
            with_path(sofar, r.path@)
        } else {
            sofar
        }
    }
}

fn kind_of(c: &[char]) -> (r: u8)
    ensures
        r as nat == component_kind(c@),
{
    if c.len() == 1 && c[0] == '/' {
        assert(c@ =~= seq!['/']);
        0
    } else if c.len() == 1 && c[0] == '.' {
        assert(c@ =~= seq!['.']);
        1
    } else if c.len() == 2 && c[0] == '.' && c[1] == '.' {
        assert(c@ =~= seq!['.', '.']);
        2
    } else {
        3
    }
}

fn component_before(a: &str, b: &str) -> (r: bool)
    ensures
        r == component_lt(a@, b@),
{
    let x = chars_of(a);
    let y = chars_of(b);
    let k = kind_of(&x);
    let l = kind_of(&y);
    k < l || (k == l && before(&x, &y))
}

/// Whether `a` comes before `b` in the order of paths.
pub fn path_before(a: &str, b: &str) -> (r: bool)
    ensures
        r == parts_lt(components(a@), components(b@)),
{
    let x = components_of(a);
    let y = components_of(b);
    let ghost xs = texts(x@);
    let ghost ys = texts(y@);
    let mut i: usize = 0;
    assert(xs.skip(0) =~= xs);
    assert(ys.skip(0) =~= ys);
    while i < x.len() && i < y.len()
        invariant
            i <= x.len(),
            i <= y.len(),
            xs == texts(x@),
            ys == texts(y@),
            xs == components(a@),
            ys == components(b@),
            parts_lt(xs, ys) == parts_lt(xs.skip(i as int), ys.skip(i as int)),
        decreases x.len() - i,
    {
        assert(xs.skip(i as int)[0] == x@[i as int]@);
        assert(ys.skip(i as int)[0] == y@[i as int]@);
        if !same_text(x[i].as_str(), y[i].as_str()) {
            return component_before(x[i].as_str(), y[i].as_str());
        }
        assert(xs.skip(i as int).skip(1) =~= xs.skip(i + 1));
        assert(ys.skip(i as int).skip(1) =~= ys.skip(i + 1));
        i += 1;
    }
    i < y.len()
}

fn insert_path(v: &mut Vec<String>, p: &str)
    ensures
        texts(final(v)@) == with_path(texts(old(v)@), p@),
{
    let ghost all = texts(v@);
    let ghost raw = v@;
    let mut i: usize = 0;
    while i < v.len() && path_before(v[i].as_str(), p)
        invariant
            i <= v.len(),
            v@ == raw,
            all == texts(raw),
            path_place(all, p@, 0) == path_place(all, p@, i as int),
        decreases v.len() - i,
    {
        i += 1;
    }
    assert(path_place(all, p@, 0) == i);
    if i < v.len() && same_path(v[i].as_str(), p) {
        return;
    }
    v.insert(i, copy_text(p));
    assert(texts(v@) =~= all.insert(i as int, p@));
}

/// The directories of warden's roots that are there now: `mounted` are those
/// of its roots' paths that are directories.
pub fn servable_roots(inv: &Inventory, mounted: &[String]) -> (r: Roots)
    ensures
        texts(r.shelves@) == usable(inv.roots@, texts(mounted@), false),
        texts(r.ollama@) == usable(inv.roots@, texts(mounted@), true),
{
    let mut shelves: Vec<String> = Vec::new();
    let mut ollama: Vec<String> = Vec::new();
    let ghost all = inv.roots@;
    let ghost m = texts(mounted@);
    let mut i: usize = 0;
    assert(all.take(0) =~= Seq::empty());
    assert(texts(shelves@) =~= Seq::<Seq<char>>::empty());
    assert(texts(ollama@) =~= Seq::<Seq<char>>::empty());
    while i < inv.roots.len()
        invariant
            i <= inv.roots@.len(),
            all == inv.roots@,
            m == texts(mounted@),
            texts(shelves@) == usable(all.take(i as int), m, false),
            texts(ollama@) == usable(all.take(i as int), m, true),
        decreases inv.roots.len() - i,
    {
        assert(all.take(i + 1).drop_last() =~= all.take(i as int));
        assert(all.take(i + 1).last() == all[i as int]);
        let r = &inv.roots[i];
        if holds_text(mounted, r.path.as_str()) {
            if let Some(k) = &r.kind {
                if same_text(k.as_str(), "ollama") {
                    insert_path(&mut ollama, r.path.as_str());
                } else if same_text(k.as_str(), "shelf") || same_text(k.as_str(), "removable") {
                    insert_path(&mut shelves, r.path.as_str());
                }
            }
        }
        i += 1;
    }
    assert(all.take(i as int) =~= all);
    Roots { shelves, ollama }
}

// ------------------------------------------------------------------------ laws

/// A placeholder is never an identity: what is offered as one names hashed
/// bytes, and belongs to a model of the inventory that has the file.
pub proof fn placeholders_are_never_identities(
    inv: Inventory,
    path: Seq<char>,
    ids: Option<(u64, u64)>,
)
    ensures
        identity_of(inv, path, ids) is Some ==> names_content(identity_of(inv, path, ids)->0)
            && exists|i: int|
            0 <= i < inv.models@.len() && (#[trigger] inv.models@[i]).0 == identity_of(
                inv,
                path,
                ids,
            )->0 && (entry_is(inv.roots@, inv.models@[i].1, path, ids, true) || entry_is(
                inv.roots@,
                inv.models@[i].1,
                path,
                ids,
                false,
            )),
{
    lemma_model_from(inv, path, ids, true, 0);
    lemma_model_from(inv, path, ids, false, 0);
    if let Some(i) = model_from(inv, path, ids, true, 0) {
        assert(inv.models@[i].0 == identity_of(inv, path, ids)->0);
    } else if let Some(i) = model_from(inv, path, ids, false, 0) {
        assert(inv.models@[i].0 == identity_of(inv, path, ids)->0);
    }
}

proof fn lemma_model_from(
    inv: Inventory,
    path: Seq<char>,
    ids: Option<(u64, u64)>,
    by_inode: bool,
    from: int,
)
    requires
        0 <= from,
    ensures
        match model_from(inv, path, ids, by_inode, from) {
            Some(i) => from <= i < inv.models@.len() && names_content(inv.models@[i].0) && entry_is(
                inv.roots@,
                inv.models@[i].1,
                path,
                ids,
                by_inode,
            ),
            None => forall|i: int|
                from <= i < inv.models@.len() ==> !(names_content((#[trigger] inv.models@[i]).0)
                    && entry_is(inv.roots@, inv.models@[i].1, path, ids, by_inode)),
        },
    decreases inv.models@.len() - from,
{
    if from < inv.models@.len() && !(names_content(inv.models@[from].0) && entry_is(
        inv.roots@,
        inv.models@[from].1,
        path,
        ids,
        by_inode,
    )) {
        lemma_model_from(inv, path, ids, by_inode, from + 1);
    }
}

/// The inode wins: where a hashed model has the file's inode, whatever path
/// it was recorded under, the identity is that of such a model.
pub proof fn the_inode_wins(inv: Inventory, path: Seq<char>, ids: Option<(u64, u64)>, k: int)
    requires
        0 <= k < inv.models@.len(),
        names_content(inv.models@[k].0),
        entry_is(inv.roots@, inv.models@[k].1, path, ids, true),
    ensures
        exists|i: int|
            0 <= i <= k && identity_of(inv, path, ids) == Some((#[trigger] inv.models@[i]).0)
                && entry_is(inv.roots@, inv.models@[i].1, path, ids, true),
{
    lemma_first(inv, path, ids, true, 0, k);
    let i = model_from(inv, path, ids, true, 0)->0;
    lemma_model_from(inv, path, ids, true, 0);
    assert(identity_of(inv, path, ids) == Some(inv.models@[i].0));
}

proof fn lemma_first(
    inv: Inventory,
    path: Seq<char>,
    ids: Option<(u64, u64)>,
    by_inode: bool,
    from: int,
    k: int,
)
    requires
        0 <= from <= k < inv.models@.len(),
        names_content(inv.models@[k].0),
        entry_is(inv.roots@, inv.models@[k].1, path, ids, by_inode),
    ensures
        model_from(inv, path, ids, by_inode, from) is Some,
        model_from(inv, path, ids, by_inode, from)->0 <= k,
    decreases k - from,
{
    if from < k {
        lemma_first(inv, path, ids, by_inode, from + 1, k);
    }
}

/// Only mounted roots of the wanted kind are handed to the scanner.
pub proof fn offline_roots_are_skipped(
    roots: Seq<Root>,
    mounted: Seq<Seq<char>>,
    ollama: bool,
    p: Seq<char>,
)
    requires
        usable(roots, mounted, ollama).contains(p),
    ensures
        mounted.contains(p),
        exists|i: int|
            0 <= i < roots.len() && (#[trigger] roots[i]).path@ == p && root_use(roots[i]) == Some(
                ollama,
            ),
    decreases roots.len(),
{
    if roots.len() > 0 {
        let rest = roots.drop_last();
        let sofar = usable(rest, mounted, ollama);
        let r = roots.last();
        let at = path_place(sofar, r.path@, 0);
        if sofar.contains(p) {
            offline_roots_are_skipped(rest, mounted, ollama, p);
            let i = choose|i: int|
                0 <= i < rest.len() && (#[trigger] rest[i]).path@ == p && root_use(rest[i]) == Some(
                    ollama,
                );
            assert(roots[i] == rest[i]);
        } else {
            lemma_path_place(sofar, r.path@, 0);
            let s = sofar.insert(at, r.path@);
            let j = choose|j: int| 0 <= j < s.len() && s[j] == p;
            if j < at {
                assert(s[j] == sofar[j]);
            } else if j > at {
                assert(s[j] == sofar[j - 1]);
            }
            assert(roots[roots.len() - 1].path@ == p);
        }
    }
}

proof fn lemma_path_place(s: Seq<Seq<char>>, p: Seq<char>, from: int)
    requires
        0 <= from <= s.len(),
    ensures
        from <= path_place(s, p, from) <= s.len(),
    decreases s.len() - from,
{
    if from < s.len() && parts_lt(components(s[from]), components(p)) {
        lemma_path_place(s, p, from + 1);
    }
}

/// Every mounted shelf, and every mounted removable one, is walked for files, and every
/// mounted store of Ollama's as such.
pub proof fn every_mounted_root_is_used(
    roots: Seq<Root>,
    mounted: Seq<Seq<char>>,
    i: int,
)
    requires
        0 <= i < roots.len(),
        mounted.contains(roots[i].path@),
        roots[i].kind is Some,
    ensures
        roots[i].kind->0@ == "shelf"@ || roots[i].kind->0@ == "removable"@ ==> exists|k: int|
            0 <= k < usable(roots, mounted, false).len() && components(
                #[trigger] usable(roots, mounted, false)[k],
            ) == components(roots[i].path@),
        roots[i].kind->0@ == "ollama"@ ==> exists|k: int|
            0 <= k < usable(roots, mounted, true).len() && components(
                #[trigger] usable(roots, mounted, true)[k],
            ) == components(roots[i].path@),
{
    reveal_strlit("ollama");
    reveal_strlit("shelf");
    reveal_strlit("removable");
    assert("ollama"@.len() == 6 && "shelf"@.len() == 5 && "removable"@.len() == 9);
    if root_use(roots[i]) is Some {
        lemma_used(roots, mounted, root_use(roots[i])->0, i);
    }
}

proof fn lemma_used(roots: Seq<Root>, mounted: Seq<Seq<char>>, ollama: bool, i: int)
    requires
        0 <= i < roots.len(),
        mounted.contains(roots[i].path@),
        root_use(roots[i]) == Some(ollama),
    ensures
        exists|k: int|
            0 <= k < usable(roots, mounted, ollama).len() && components(
                #[trigger] usable(roots, mounted, ollama)[k],
            ) == components(roots[i].path@),
    decreases roots.len(),
{
    let s = roots.drop_last();
    let before = usable(s, mounted, ollama);
    let now = usable(roots, mounted, ollama);
    let p = roots.last().path@;
    lemma_place_bound(before, p, 0);
    let at = path_place(before, p, 0);
    let adds = mounted.contains(p) && root_use(roots.last()) == Some(ollama);
    let there = at < before.len() && components(before[at]) == components(p);
    if i < s.len() {
        assert(s[i] == roots[i]);
        lemma_used(s, mounted, ollama, i);
        let k = choose|k: int|
            0 <= k < before.len() && components(#[trigger] before[k]) == components(roots[i].path@);
        if adds && !there {
            assert(now == before.insert(at, p));
            if k < at {
                assert(now[k] == before[k]);
            } else {
                assert(now[k + 1] == before[k]);
            }
        } else {
            assert(now[k] == before[k]);
        }
    } else if there {
        assert(components(now[at]) == components(p));
    } else {
        assert(now == before.insert(at, p));
        assert(now[at] == p);
    }
}

proof fn lemma_place_bound(s: Seq<Seq<char>>, p: Seq<char>, from: int)
    requires
        0 <= from <= s.len(),
    ensures
        from <= path_place(s, p, from) <= s.len(),
    decreases s.len() - from,
{
    if from < s.len() && parts_lt(components(s[from]), components(p)) {
        lemma_place_bound(s, p, from + 1);
    }
}

/// A file that the inventory knows by its path, and under no inode, has the identity of the
/// first model that is there; one that it does not know has none.
pub proof fn a_known_path_has_an_identity(
    inv: Inventory,
    path: Seq<char>,
    k: int,
    j: int,
    r: int,
)
    requires
        0 <= k < inv.models@.len(),
        starts_with(inv.models@[k].0, "sha256:"@),
        inv.models@[k].0.len() > 7,
        0 <= j < inv.models@[k].1.locations@.len(),
        0 <= r < inv.roots@.len(),
        inv.roots@[r].id@ == inv.models@[k].1.locations@[j].root_id@,
        forall|q: int| 0 <= q < r ==> (#[trigger] inv.roots@[q]).id@ != inv.roots@[r].id@,
        components(join_path(inv.roots@[r].path@, inv.models@[k].1.locations@[j].rel_path@))
            == components(path),
    ensures
        identity_of(inv, path, None) is Some,
{
    reveal_strlit("sha256:");
    let loc = inv.models@[k].1.locations@[j];
    lemma_root_found(inv.roots@, loc.root_id@, 0, r);
    assert(absolute_of(inv.roots@, loc) == Some(join_path(inv.roots@[r].path@, loc.rel_path@)));
    assert(is_at(inv.roots@, inv.models@[k].1.locations@[j], path));
    assert(entry_is(inv.roots@, inv.models@[k].1, path, None, false));
    lemma_model_found(inv, path, None, false, 0, k);
}

proof fn lemma_root_found(roots: Seq<Root>, id: Seq<char>, from: int, r: int)
    requires
        0 <= from <= r < roots.len(),
        roots[r].id@ == id,
        forall|q: int| 0 <= q < r ==> (#[trigger] roots[q]).id@ != id,
    ensures
        root_from(roots, id, from) == Some(r),
    decreases roots.len() - from,
{
    if from < r {
        assert(roots[from].id@ != id);
        lemma_root_found(roots, id, from + 1, r);
    }
}

proof fn lemma_model_found(
    inv: Inventory,
    path: Seq<char>,
    ids: Option<(u64, u64)>,
    by_inode: bool,
    from: int,
    k: int,
)
    requires
        0 <= from <= k < inv.models@.len(),
        names_content(inv.models@[k].0),
        entry_is(inv.roots@, inv.models@[k].1, path, ids, by_inode),
    ensures
        model_from(inv, path, ids, by_inode, from) is Some,
    decreases inv.models@.len() - from,
{
    if from < k {
        lemma_model_found(inv, path, ids, by_inode, from + 1, k);
    }
}

} // verus!
