//! The app-managed llama.cpp checkout: what bootstraps llama.cpp for
//! non-experts at all, and what closes the loop from freshness to a tagged
//! candidate build whose binaries are archived, to be pinned or rolled back.
//!
//! - The clone lives in the app's data dir. The USER'S checkout is never
//!   touched by anything here.
//! - The managed install is offered through the normal installs picker
//!   and pin buttons — never forced.
//! - Every completed build's binaries are copied to builds/bN/ before the
//!   next build can overwrite build/bin — rollback is a pin, never a rebuild.
use crate::advisor::{build_commands, build_steps, step_views, BackendSelection, BuildCheck, Step};
use crate::num::{dec, dec_text, parse_number, parse_u64};
use crate::path::{components, join_of, join_path, same_path};
use crate::settings::{base_dir, xdg_dir, Env, APP_NAME};
use crate::text::{
    alnum, before, begins, chars_of, contains, copy_text, debug_text, has_text, holds_text,
    is_alnum, join, join_texts, lemma_texts_push, lines, lines_of, opt_str, quote, starts_with,
    strip_prefix, text_lt, texts, trim, trimmed, views, without_prefix,
};
use vstd::prelude::*;
use vstd::string::*;

verus! {

pub const REPO_URL: &'static str = "https://github.com/ggml-org/llama.cpp";

// ------------------------------------------------------------------- the places

pub open spec fn data_dir_of(e: Env) -> Seq<char> {
    join_path(base_dir(e.data_home, e, ".local/share"@), APP_NAME@)
}

/// Code and binaries, distinct from the state dir's measurements and logs.
pub fn data_dir(e: &Env) -> (r: String)
    ensures
        r@ == data_dir_of(*e),
{
    xdg_dir(&e.data_home, e, ".local/share")
}

pub open spec fn checkout_of(e: Env) -> Seq<char> {
    join_path(data_dir_of(e), "llama.cpp"@)
}

pub fn checkout_dir(e: &Env) -> (r: String)
    ensures
        r@ == checkout_of(*e),
{
    join_of(data_dir(e).as_str(), "llama.cpp")
}

pub fn archive_dir(e: &Env) -> (r: String)
    ensures
        r@ == join_path(data_dir_of(*e), "builds"@),
{
    join_of(data_dir(e).as_str(), "builds")
}

/// The managed checkout's freshly-built server binary (may not exist).
pub fn managed_server_bin(e: &Env) -> (r: String)
    ensures
        r@ == join_path(checkout_of(*e), "build/bin/llama-server"@),
{
    join_of(checkout_dir(e).as_str(), "build/bin/llama-server")
}

/// The directory whose presence says that the checkout is there.
pub fn checkout_present(e: &Env) -> (r: String)
    ensures
        r@ == join_path(checkout_of(*e), ".git"@),
{
    join_of(checkout_dir(e).as_str(), ".git")
}

// -------------------------------------------------------------------- the steps

/// A git step in the managed checkout.
pub open spec fn git_step(e: Env, args: Seq<Seq<char>>) -> Step {
    ("git"@, seq!["-C"@, checkout_of(e)] + args)
}

/// Clone the repository (a full clone; tags are how builds are addressed, so
/// they must come along): the step, and what is said of it.
pub fn clone_step(e: &Env) -> (r: ((String, Vec<String>), String))
    ensures
        ((r.0).0@, texts((r.0).1@)) == ("git"@, seq!["clone"@, REPO_URL@, checkout_of(*e)]),
        r.1@ == "cloning "@ + REPO_URL@ + " into "@ + checkout_of(*e),
{
    let dir = checkout_dir(e);
    let args: Vec<String> = vec![copy_text("clone"), copy_text(REPO_URL), dir.clone()];
    assert(texts(args@) =~= seq!["clone"@, REPO_URL@, checkout_of(*e)]);
    let mut s = copy_text("cloning ");
    s.append(REPO_URL);
    s.append(" into ");
    s.append(dir.as_str());
    ((copy_text("git"), args), s)
}

/// Fetch tags so that the newest known build is upstream's.
pub fn fetch_tags(e: &Env) -> (r: (String, Vec<String>))
    ensures
        (r.0@, texts(r.1@)) == git_step(*e, seq!["fetch"@, "--tags"@, "origin"@]),
{
    let args: Vec<String> = vec![
        copy_text("-C"),
        checkout_dir(e),
        copy_text("fetch"),
        copy_text("--tags"),
        copy_text("origin"),
    ];
    assert(texts(args@) =~= seq!["-C"@, checkout_of(*e)] + seq!["fetch"@, "--tags"@, "origin"@]);
    (copy_text("git"), args)
}

/// The tag of a release.
pub open spec fn tag_of(build: u64) -> Seq<char> {
    "b"@ + dec(build as nat)
}

fn tag(build: u64) -> (r: String)
    ensures
        r@ == tag_of(build),
{
    let mut s = copy_text("b");
    s.append(dec_text(build).as_str());
    s
}

/// Check out the tag for `build` (detached HEAD — the managed tree is
/// always at an exact tagged release, never tracking master): the step, and
/// what a failure of it is told with.
pub fn checkout_release(e: &Env, build: u64) -> (r: ((String, Vec<String>), String))
    ensures
        ((r.0).0@, texts((r.0).1@)) == git_step(
            *e,
            seq!["checkout"@, "--force"@, tag_of(build)],
        ),
        r.1@ == "checking out "@ + tag_of(build),
{
    let t = tag(build);
    let mut s = copy_text("checking out ");
    s.append(t.as_str());
    let args: Vec<String> = vec![
        copy_text("-C"),
        checkout_dir(e),
        copy_text("checkout"),
        copy_text("--force"),
        t,
    ];
    assert(texts(args@) =~= seq!["-C"@, checkout_of(*e)] + seq![
        "checkout"@,
        "--force"@,
        tag_of(build),
    ]);
    ((copy_text("git"), args), s)
}

/// Build the managed checkout with the same backend selection logic the
/// guided rebuild uses (no git step — the tree is tag-pinned).
pub fn build_tree(e: &Env, c: &BuildCheck, sel: BackendSelection) -> (r: Vec<(String, Vec<String>)>)
    ensures
        step_views(r@) == build_steps(checkout_of(*e), *c, sel),
{
    build_commands(checkout_dir(e).as_str(), c, sel)
}

/// The build that a tag names.
pub open spec fn tagged(line: Seq<char>) -> Option<u64> {
    match strip_prefix(trim(line), "b"@) {
        Some(n) => parse_u64(n),
        None => None,
    }
}

pub open spec fn newest_among(l: Seq<Seq<char>>) -> Option<u64>
    decreases l.len(),
{
    if l.len() == 0 {
        None
    } else {
        match (newest_among(l.drop_last()), tagged(l.last())) {
            (Some(a), Some(b)) => Some(if b > a { b } else { a }),
            (None, Some(b)) => Some(b),
            (a, None) => a,
        }
    }
}

/// The newest build among the tags that `git tag --list b*` printed: tags are
/// bNNNN, so the max numeric suffix is the newest release.
pub fn parse_newest_tag(tags: &str) -> (r: Option<u64>)
    ensures
        r == newest_among(lines(tags@)),
{
    let c = chars_of(tags);
    let l = lines_of(&c);
    let ghost all = lines(tags@);
    let mut best: Option<u64> = None;
    let mut i: usize = 0;
    assert(all.take(0) =~= Seq::empty());
    while i < l.len()
        invariant
            i <= l.len(),
            all == views(l@),
            best == newest_among(all.take(i as int)),
        decreases l.len() - i,
    {
        assert(all.take(i + 1).drop_last() =~= all.take(i as int));
        assert(all.take(i + 1).last() == l@[i as int]@);
        if let Some(n) = without_prefix(trimmed(l[i]), "b") {
            if let Some(b) = parse_number(n) {
                best = match best {
                    Some(a) => Some(
                        if b > a {
                            b
                        } else {
                            a
                        },
                    ),
                    None => Some(b),
                };
            }
        }
        i += 1;
    }
    assert(all.take(i as int) =~= all);
    best
}

// ----------------------------------------------------------------- the archives

/// One pinnable archived build.
#[derive(Debug, Clone, PartialEq)]
pub struct Archive {
    /// Directory name: bNNNN for release archives, free label otherwise.
    pub label: String,
    /// Parsed build number when the label carries one.
    pub build: Option<u64>,
    pub server: String,
}

pub struct ArchiveView {
    pub label: Seq<char>,
    pub build: Option<u64>,
    pub server: Seq<char>,
}

impl View for Archive {
    type V = ArchiveView;

    open spec fn view(&self) -> ArchiveView {
        ArchiveView { label: self.label@, build: self.build, server: self.server@ }
    }
}

pub open spec fn archive_views(v: Seq<Archive>) -> Seq<ArchiveView> {
    Seq::new(v.len(), |i: int| v[i]@)
}

/// The label can name an archive: filesystem-plain, and it neither escapes
/// nor aliases nor hides the archive's directory.
pub open spec fn plain_label(label: Seq<char>) -> bool {
    label.len() > 0 && forall|i: int|
        0 <= i < label.len() ==> is_alnum(#[trigger] label[i]) || label[i] == '-' || label[i] == '_'
            || label[i] == '.'
}

fn is_plain_label(label: &[char]) -> (r: bool)
    ensures
        r == plain_label(label@),
{
    let mut i: usize = 0;
    while i < label.len()
        invariant
            i <= label.len(),
            forall|k: int|
                0 <= k < i ==> is_alnum(#[trigger] label@[k]) || label@[k] == '-' || label@[k] == '_'
                    || label@[k] == '.',
        decreases label.len() - i,
    {
        let c = label[i];
        if !(alnum(c) || c == '-' || c == '_' || c == '.') {
            assert(!(is_alnum(label@[i as int]) || label@[i as int] == '-' || label@[i as int]
                == '_' || label@[i as int] == '.'));
            return false;
        }
        i += 1;
    }
    label.len() > 0
}

pub const LABEL_PLAIN: &'static str = "label must be filesystem-plain (letters, digits, -_.)";

pub const LABEL_DOT: &'static str = "label can't start with a dot";

pub const PICK_ANOTHER: &'static str = " already exists — pick another label \
         (overwriting could swap the binary behind an existing pin)";

/// Why binaries cannot be archived under a label.
pub open spec fn archive_refusal(
    src: Seq<char>,
    label: Seq<char>,
    taken: bool,
    built: bool,
) -> Option<Seq<char>> {
    if !plain_label(label) {
        Some(LABEL_PLAIN@)
    } else if label[0] == '.' {
        Some(LABEL_DOT@)
    } else if taken {
        Some("an archive named "@ + debug_text(label) + PICK_ANOTHER@)
    } else if !built {
        Some("no built llama-server at "@ + src)
    } else {
        None
    }
}

/// Archive ANY checkout's built binaries under a user-chosen label: custom
/// builds become pinnable side by side with release archives. `taken` says
/// that the label's archive holds a server already, `built` that the source
/// holds one. Gives back where the files go.
pub fn archive_from(e: &Env, src: &str, label: &str, taken: bool, built: bool) -> (r: Result<
    String,
    String,
>)
    ensures
        match archive_refusal(src@, label@, taken, built) {
            Some(why) => r is Err && r->Err_0@ == why,
            None => r is Ok && r->Ok_0@ == join_path(
                join_path(data_dir_of(*e), "builds"@),
                label@,
            ),
        },
{
    let c = chars_of(label);
    if !is_plain_label(&c) {
        return Err(copy_text(LABEL_PLAIN));
    }
    if c[0] == '.' {
        return Err(copy_text(LABEL_DOT));
    }
    if taken {
        let mut s = copy_text("an archive named ");
        s.append(quote(label).as_str());
        s.append(PICK_ANOTHER);
        return Err(s);
    }
    if !built {
        let mut s = copy_text("no built llama-server at ");
        s.append(src);
        return Err(s);
    }
    Ok(join_of(archive_dir(e).as_str(), label))
}

/// The label of a release's archive, where the just-built binaries are copied
/// from the managed checkout.
pub fn archive_build(e: &Env, build: u64) -> (r: (String, String))
    ensures
        r.0@ == join_path(checkout_of(*e), "build/bin"@),
        r.1@ == tag_of(build),
{
    (join_of(checkout_dir(e).as_str(), "build/bin"), tag(build))
}

/// What is said of an archive of so many files.
pub fn archived_line(n: u64, dst: &str) -> (r: String)
    ensures
        r@ == "archived "@ + dec(n as nat) + " files to "@ + dst@,
{
    let mut s = copy_text("archived ");
    s.append(dec_text(n).as_str());
    s.append(" files to ");
    s.append(dst);
    s
}

/// The archives with a build number.
pub open spec fn numbered(a: Seq<ArchiveView>) -> Seq<ArchiveView>
    decreases a.len(),
{
    if a.len() == 0 {
        Seq::empty()
    } else {
        let sofar = numbered(a.drop_last());
        if a.last().build is Some {
            sofar.push(a.last())
        } else {
            sofar
        }
    }
}

/// The labels of the archives from `from` on that are not serving.
pub open spec fn idle_labels(a: Seq<ArchiveView>, from: int, serving: Option<Seq<char>>) -> Seq<
    Seq<char>,
>
    decreases a.len(),
{
    if a.len() == 0 || a.len() <= from {
        Seq::empty()
    } else {
        let sofar = idle_labels(a.drop_last(), from, serving);
        let serves = match serving {
            Some(s) => components(a.last().server) == components(s),
            None => false,
        };
        if serves {
            sofar
        } else {
            sofar.push(a.last().label)
        }
    }
}

/// Which archives the retention policy gives up.
pub open spec fn pruned_labels(a: Seq<ArchiveView>, keep: nat, serving: Option<Seq<char>>) -> Seq<
    Seq<char>,
> {
    if keep == 0 {
        Seq::empty()
    } else {
        idle_labels(numbered(a), keep as int, serving)
    }
}

/// Which archives auto-prune may delete: among BUILD-NUMBERED archives,
/// newest-first, everything past `keep` — except the one currently
/// serving. Custom-labeled archives (no parseable build number) are a
/// deliberate act and never pruned. keep == 0 means unlimited.
pub fn prune_candidates(archives: &[Archive], keep: usize, serving: Option<&str>) -> (r: Vec<String>)
    ensures
        texts(r@) == pruned_labels(archive_views(archives@), keep as nat, opt_str(serving)),
{
    let mut out: Vec<String> = Vec::new();
    assert(texts(out@) =~= Seq::<Seq<char>>::empty());
    if keep == 0 {
        return out;
    }
    let ghost all = archive_views(archives@);
    let ghost sv = opt_str(serving);
    let mut seen: usize = 0;
    let mut i: usize = 0;
    assert(all.take(0) =~= Seq::empty());
    while i < archives.len()
        invariant
            i <= archives.len(),
            seen <= i,
            all == archive_views(archives@),
            sv == opt_str(serving),
            seen as nat == numbered(all.take(i as int)).len(),
            texts(out@) == idle_labels(numbered(all.take(i as int)), keep as int, sv),
        decreases archives.len() - i,
    {
        let ghost before = numbered(all.take(i as int));
        assert(all.take(i + 1).drop_last() =~= all.take(i as int));
        assert(all.take(i + 1).last() == archives@[i as int]@);
        let a = &archives[i];
        if a.build.is_some() {
            assert(before.push(a@).drop_last() =~= before);
            if seen >= keep {
                let serves = match serving {
                    Some(s) => same_path(a.server.as_str(), s),
                    None => false,
                };
                if !serves {
                    proof {
                        lemma_texts_push(out@, a.label);
                    }
                    out.push(a.label.clone());
                }
            } else {
                assert(idle_labels(before, keep as int, sv) =~= Seq::<Seq<char>>::empty());
            }
            seen += 1;
        }
        i += 1;
    }
    assert(all.take(i as int) =~= all);
    out
}

/// The label names a directory inside the archive.
pub open spec fn names_archive(label: Seq<char>) -> bool {
    label.len() > 0 && !contains(label, "/"@) && !contains(label, ".."@) && !starts_with(
        label,
        "."@,
    )
}

/// Whether one archived build may be deleted: refuses anything that isn't a
/// real archive directory (labels that lead elsewhere never reach the disk).
/// `present` says that its server is there.
pub fn delete_archive(e: &Env, label: &str, present: bool) -> (r: Result<String, String>)
    ensures
        if !names_archive(label@) {
            r is Err && r->Err_0@ == "not a valid archive label: "@ + debug_text(label@)
        } else if !present {
            r is Err && r->Err_0@ == "no archived build named "@ + debug_text(label@)
        } else {
            r is Ok && r->Ok_0@ == join_path(join_path(data_dir_of(*e), "builds"@), label@)
        },
{
    let c = chars_of(label);
    if c.len() == 0 || has_text(&c, "/") || has_text(&c, "..") || begins(&c, ".") {
        let mut s = copy_text("not a valid archive label: ");
        s.append(quote(label).as_str());
        return Err(s);
    }
    if !present {
        let mut s = copy_text("no archived build named ");
        s.append(quote(label).as_str());
        return Err(s);
    }
    Ok(join_of(archive_dir(e).as_str(), label))
}

/// The archive in a directory of this name.
pub open spec fn archive_named(dir: Seq<char>, label: Seq<char>) -> ArchiveView {
    ArchiveView {
        label,
        build: match strip_prefix(label, "b"@) {
            Some(n) => parse_u64(n),
            None => None,
        },
        server: join_path(join_path(dir, label), "llama-server"@),
    }
}

/// `a` is listed before `b`: release tags newest first, then labels.
pub open spec fn listed_before(a: ArchiveView, b: ArchiveView) -> bool {
    match (a.build, b.build) {
        (Some(x), Some(y)) => x > y,
        (Some(_), None) => true,
        (None, Some(_)) => false,
        (None, None) => text_lt(a.label, b.label),
    }
}

/// The first place from `from` on whose archive `a` is listed before.
pub open spec fn archive_place(s: Seq<ArchiveView>, a: ArchiveView, from: int) -> int
    decreases s.len() - from,
{
    if 0 <= from < s.len() && !listed_before(a, s[from]) {
        archive_place(s, a, from + 1)
    } else {
        from
    }
}

/// The archives in the directories of these names, in their order.
pub open spec fn archives_of(dir: Seq<char>, labels: Seq<Seq<char>>) -> Seq<ArchiveView>
    decreases labels.len(),
{
    if labels.len() == 0 {
        Seq::empty()
    } else {
        let sofar = archives_of(dir, labels.drop_last());
        let a = archive_named(dir, labels.last());
        sofar.insert(archive_place(sofar, a, 0), a)
    }
}

fn comes_before(a: &Archive, b: &Archive) -> (r: bool)
    ensures
        r == listed_before(a@, b@),
{
    match (a.build, b.build) {
        (Some(x), Some(y)) => x > y,
        (Some(_), None) => true,
        (None, Some(_)) => false,
        (None, None) => {
            let x = chars_of(a.label.as_str());
            let y = chars_of(b.label.as_str());
            before(&x, &y)
        },
    }
}

/// Archived builds: release tags newest first, then labeled variants. Given
/// the names of the directories that hold a server binary.
pub fn list_archives_in(dir: &str, labels: &[String]) -> (r: Vec<Archive>)
    ensures
        archive_views(r@) == archives_of(dir@, texts(labels@)),
{
    let ghost all = texts(labels@);
    let mut out: Vec<Archive> = Vec::new();
    let mut i: usize = 0;
    assert(all.take(0) =~= Seq::empty());
    assert(archive_views(out@) =~= Seq::<ArchiveView>::empty());
    while i < labels.len()
        invariant
            i <= labels.len(),
            all == texts(labels@),
            archive_views(out@) == archives_of(dir@, all.take(i as int)),
        decreases labels.len() - i,
    {
        assert(all.take(i + 1).drop_last() =~= all.take(i as int));
        assert(all.take(i + 1).last() == labels@[i as int]@);
        let c = chars_of(labels[i].as_str());
        let build = match without_prefix(&c, "b") {
            Some(n) => parse_number(n),
            None => None,
        };
        let home = join_of(dir, labels[i].as_str());
        let a = Archive {
            label: labels[i].clone(),
            build,
            server: join_of(home.as_str(), "llama-server"),
        };
        let ghost sofar = archive_views(out@);
        let ghost raw = out@;
        assert(a@ == archive_named(dir@, all[i as int]));
        let mut k: usize = 0;
        while k < out.len() && !comes_before(&a, &out[k])
            invariant
                k <= out.len(),
                out@ == raw,
                sofar == archive_views(raw),
                archive_place(sofar, a@, 0) == archive_place(sofar, a@, k as int),
            decreases out.len() - k,
        {
            assert(sofar[k as int] == out@[k as int]@);
            k += 1;
        }
        if k < out.len() {
            assert(sofar[k as int] == out@[k as int]@);
        }
        out.insert(k, a);
        assert(archive_views(out@) =~= sofar.insert(k as int, a@));
        i += 1;
    }
    assert(all.take(i as int) =~= all);
    out
}

/// Archived builds of the app's own archive.
pub fn list_archives(e: &Env, labels: &[String]) -> (r: Vec<Archive>)
    ensures
        archive_views(r@) == archives_of(
            join_path(data_dir_of(*e), "builds"@),
            texts(labels@),
        ),
{
    list_archives_in(archive_dir(e).as_str(), labels)
}

// -------------------------------------------------------------- the release build

pub const NO_TAGS: &'static str = "no bNNNN release tags found";

pub const ALREADY_RUNNING: &'static str = "a managed build is already running — let it finish";

pub const ALREADY_ARCHIVED: &'static str = " is the newest release and it's already built + archived \
                 with these backends — nothing new upstream";

pub const OTHER_BACKENDS: &'static str = " but with different backends — building the \
             requested variant";

/// The first archive of a build, from `from` on.
pub open spec fn archive_from_build(a: Seq<ArchiveView>, build: u64, from: int) -> Option<int>
    decreases a.len() - from,
{
    if from < 0 || from >= a.len() {
        None
    } else if a[from].build == Some(build) {
        Some(from)
    } else {
        archive_from_build(a, build, from + 1)
    }
}

/// The first archive of a build.
pub fn archive_of<'a>(archives: &'a [Archive], build: u64) -> (r: Option<&'a Archive>)
    ensures
        match r {
            Some(a) => archive_from_build(archive_views(archives@), build, 0) is Some
                && archives@[archive_from_build(archive_views(archives@), build, 0)->0] == *a,
            None => archive_from_build(archive_views(archives@), build, 0) is None,
        },
{
    let ghost all = archive_views(archives@);
    let mut i: usize = 0;
    while i < archives.len()
        invariant
            i <= archives.len(),
            all == archive_views(archives@),
            archive_from_build(all, build, 0) == archive_from_build(all, build, i as int),
        decreases archives.len() - i,
    {
        assert(all[i as int].build == archives@[i as int].build);
        if archives[i].build == Some(build) {
            return Some(&archives[i]);
        }
        i += 1;
    }
    None
}

/// An archive's backends are exactly the selected ones.
pub open spec fn same_backends(backends: Seq<Seq<char>>, sel: BackendSelection) -> bool {
    backends.contains("cuda"@) == sel.cuda && backends.contains("vulkan"@) == sel.vulkan
        && backends.contains("hip"@) == sel.hip
}

/// What the newest release needs: whether it is built, and what is said of
/// it. `found` is the label and the backends of an archive of that build.
pub open spec fn release_of(
    build: u64,
    found: Option<(Seq<char>, Seq<Seq<char>>)>,
    sel: BackendSelection,
) -> (bool, Seq<Seq<char>>) {
    let newest = "newest release: "@ + tag_of(build) + " — checking out + building"@;
    match found {
        Some((label, backends)) => if same_backends(backends, sel) {
            (false, seq![tag_of(build) + ALREADY_ARCHIVED@])
        } else {
            (true, seq![tag_of(build) + " exists as "@ + label + OTHER_BACKENDS@, newest])
        },
        None => (true, seq![newest]),
    }
}

pub open spec fn opt_found(found: Option<(&str, &[String])>) -> Option<
    (Seq<char>, Seq<Seq<char>>),
> {
    match found {
        Some((label, backends)) => Some((label@, texts(backends@))),
        None => None,
    }
}

/// What the newest release needs. Already built + archived WITH THE SAME
/// BACKENDS means that there is nothing to do; an archive of the same build
/// with other backends is built in the requested variant.
pub fn plan_release(build: u64, found: Option<(&str, &[String])>, sel: BackendSelection) -> (r: (
    bool,
    Vec<String>,
))
    ensures
        (r.0, texts(r.1@)) == release_of(build, opt_found(found), sel),
{
    let mut newest = copy_text("newest release: ");
    newest.append(tag(build).as_str());
    newest.append(" — checking out + building");
    match found {
        Some((label, backends)) => {
            let wanted = holds_text(backends, "cuda") == sel.cuda && holds_text(backends, "vulkan")
                == sel.vulkan && holds_text(backends, "hip") == sel.hip;
            if wanted {
                let mut s = tag(build);
                s.append(ALREADY_ARCHIVED);
                let out: Vec<String> = vec![s];
                assert(texts(out@) =~= seq![tag_of(build) + ALREADY_ARCHIVED@]);
                (false, out)
            } else {
                let mut s = tag(build);
                s.append(" exists as ");
                s.append(label);
                s.append(OTHER_BACKENDS);
                let out: Vec<String> = vec![s, newest];
                assert(texts(out@) =~= release_of(build, opt_found(found), sel).1);
                (true, out)
            }
        },
        None => {
            let out: Vec<String> = vec![newest];
            assert(texts(out@) =~= release_of(build, opt_found(found), sel).1);
            (true, out)
        },
    }
}

pub open spec fn named_if(on: bool, name: Seq<char>) -> Seq<Seq<char>> {
    if on {
        seq![name]
    } else {
        Seq::empty()
    }
}

/// The names of the selected backends.
pub open spec fn backend_names(sel: BackendSelection) -> Seq<Seq<char>> {
    let names = named_if(sel.cuda, "cuda"@) + named_if(sel.vulkan, "vulkan"@) + named_if(
        sel.hip,
        "hip"@,
    );
    if names.len() == 0 {
        seq!["cpu"@]
    } else {
        names
    }
}

/// The label that a release is archived under: same-number variants get a
/// backend-suffixed one so both stay pinnable side by side. `taken` says that
/// the plain label holds a server already.
pub fn release_label(build: u64, taken: bool, sel: BackendSelection) -> (r: String)
    ensures
        r@ == (if taken {
            tag_of(build) + "-"@ + join(backend_names(sel), "-"@)
        } else {
            tag_of(build)
        }),
{
    let mut s = tag(build);
    if !taken {
        return s;
    }
    let mut names: Vec<String> = Vec::new();
    if sel.cuda {
        names.push(copy_text("cuda"));
    }
    assert(texts(names@) =~= named_if(sel.cuda, "cuda"@));
    if sel.vulkan {
        names.push(copy_text("vulkan"));
    }
    assert(texts(names@) =~= named_if(sel.cuda, "cuda"@) + named_if(sel.vulkan, "vulkan"@));
    if sel.hip {
        names.push(copy_text("hip"));
    }
    assert(texts(names@) =~= named_if(sel.cuda, "cuda"@) + named_if(sel.vulkan, "vulkan"@)
        + named_if(sel.hip, "hip"@));
    assert(texts(names@).len() == names@.len());
    if names.len() == 0 {
        names.push(copy_text("cpu"));
        assert(texts(names@) =~= seq!["cpu"@]);
    }
    s.append("-");
    s.append(join_texts(&names, "-").as_str());
    s
}

/// What the Settings/Build-Advisor surface shows about the managed side.
#[derive(Debug, Clone)]
pub struct ManagedStatus {
    pub present: bool,
    /// Build of the binary sitting in the managed build tree, if built.
    pub built: Option<u64>,
    pub archives: Vec<Archive>,
}

impl Default for ManagedStatus {
    fn default() -> (r: ManagedStatus)
        ensures
            !r.present,
            r.built is None,
            r.archives@.len() == 0,
    {
        ManagedStatus { present: false, built: None, archives: Vec::new() }
    }
}

/// The managed side as it was found: `version` is what the built server's
/// `--version` printed, where there is one.
pub fn status(present: bool, version: Option<&str>, archives: Vec<Archive>) -> (r: ManagedStatus)
    ensures
        r.present == present,
        r.built == (match version {
            Some(v) => crate::discover::version_of(lines(v@)).build,
            None => None,
        }),
        r.archives == archives,
{
    let built = match version {
        Some(v) => crate::discover::build_of(v),
        None => None,
    };
    ManagedStatus { present, built, archives }
}

// ------------------------------------------------------------------------ laws

proof fn lemma_idle(a: Seq<ArchiveView>, from: int, serving: Option<Seq<char>>, l: Seq<char>)
    requires
        0 <= from,
        idle_labels(a, from, serving).contains(l),
    ensures
        exists|i: int|
            from <= i < a.len() && (#[trigger] a[i]).label == l && !(serving is Some && components(
                a[i].server,
            ) == components(serving->0)),
    decreases a.len(),
{
    let rest = a.drop_last();
    let sofar = idle_labels(rest, from, serving);
    if a.len() > from {
        if sofar.contains(l) {
            lemma_idle(rest, from, serving, l);
            let i = choose|i: int|
                from <= i < rest.len() && (#[trigger] rest[i]).label == l && !(serving is Some
                    && components(rest[i].server) == components(serving->0));
            assert(a[i] == rest[i]);
        } else {
            let out = idle_labels(a, from, serving);
            let j = choose|j: int| 0 <= j < out.len() && out[j] == l;
            if j < sofar.len() {
                assert(out[j] == sofar[j]);
            }
            assert(a[a.len() - 1].label == l);
        }
    }
}

/// Pruning keeps the newest, what is serving, and custom labels: what it
/// gives up is a numbered archive past the first `keep` of them, and not the
/// one that serves.
pub proof fn pruning_spares_the_newest_the_serving_and_the_custom(
    a: Seq<ArchiveView>,
    keep: nat,
    serving: Option<Seq<char>>,
    l: Seq<char>,
)
    requires
        pruned_labels(a, keep, serving).contains(l),
    ensures
        keep > 0,
        exists|i: int|
            keep <= i < numbered(a).len() && (#[trigger] numbered(a)[i]).label == l && !(serving
                is Some && components(numbered(a)[i].server) == components(serving->0)),
        forall|i: int| 0 <= i < numbered(a).len() ==> (#[trigger] numbered(a)[i]).build is Some,
{
    lemma_idle(numbered(a), keep as int, serving, l);
    lemma_numbered(a);
}

proof fn lemma_numbered(a: Seq<ArchiveView>)
    ensures
        forall|i: int| 0 <= i < numbered(a).len() ==> (#[trigger] numbered(a)[i]).build is Some,
    decreases a.len(),
{
    if a.len() > 0 {
        lemma_numbered(a.drop_last());
        let sofar = numbered(a.drop_last());
        assert forall|i: int| 0 <= i < numbered(a).len() implies (#[trigger] numbered(a)[i]).build
            is Some by {
            if i < sofar.len() {
                assert(numbered(a)[i] == sofar[i]);
            }
        }
    }
}

/// A label that is accepted stays inside the archive: it is neither empty nor
/// hidden, and holds no separator.
pub proof fn archives_stay_inside(src: Seq<char>, label: Seq<char>, taken: bool, built: bool)
    requires
        archive_refusal(src, label, taken, built) is None,
    ensures
        label.len() > 0,
        label[0] != '.',
        forall|i: int| 0 <= i < label.len() ==> label[i] != '/',
{
}

/// The newest release among the tags is one of them, and none is newer.
pub proof fn no_tag_is_newer_than_the_newest(l: Seq<Seq<char>>)
    ensures
        match newest_among(l) {
            Some(n) => {
                &&& exists|i: int| 0 <= i < l.len() && tagged(#[trigger] l[i]) == Some(n)
                &&& forall|i: int|
                    0 <= i < l.len() && tagged(#[trigger] l[i]) is Some ==> tagged(l[i])->0 <= n
            },
            None => forall|i: int| 0 <= i < l.len() ==> tagged(#[trigger] l[i]) is None,
        },
    decreases l.len(),
{
    if l.len() > 0 {
        let s = l.drop_last();
        no_tag_is_newer_than_the_newest(s);
        assert(l[l.len() - 1] == l.last());
        if newest_among(s) is Some {
            let i = choose|i: int| 0 <= i < s.len() && tagged(#[trigger] s[i]) == newest_among(s);
            assert(tagged(l[i]) == newest_among(s));
        }
        assert forall|i: int| 0 <= i < l.len() && tagged(#[trigger] l[i]) is Some implies
            newest_among(l) is Some && tagged(l[i])->0 <= newest_among(l)->0 by {
            if i < s.len() {
                assert(s[i] == l[i]);
            }
        }
    }
}

/// Of the archives with a build number every one behind the first `keep` that does not
/// serve is given up.
pub proof fn every_other_archive_is_given_up(
    a: Seq<ArchiveView>,
    keep: nat,
    serving: Option<Seq<char>>,
    i: int,
)
    requires
        0 < keep <= i < numbered(a).len(),
        serving is None || components(numbered(a)[i].server) != components(serving->0),
    ensures
        pruned_labels(a, keep, serving).contains(numbered(a)[i].label),
{
    lemma_idle_is_listed(numbered(a), keep as int, serving, i);
}

proof fn lemma_idle_is_listed(a: Seq<ArchiveView>, from: int, serving: Option<Seq<char>>, i: int)
    requires
        from <= i < a.len(),
        0 <= i,
        serving is None || components(a[i].server) != components(serving->0),
    ensures
        idle_labels(a, from, serving).contains(a[i].label),
    decreases a.len(),
{
    let s = a.drop_last();
    let before = idle_labels(s, from, serving);
    let now = idle_labels(a, from, serving);
    if i < s.len() {
        assert(s[i] == a[i]);
        lemma_idle_is_listed(s, from, serving, i);
        let k = choose|k: int| 0 <= k < before.len() && before[k] == a[i].label;
        assert(now[k] == a[i].label);
    } else {
        assert(now[now.len() - 1] == a[i].label);
    }
}

/// Every archive with a build number counts, in the order in which they are listed.
pub proof fn numbered_archives_count(a: Seq<ArchiveView>)
    ensures
        numbered(a) == a.filter(|x: ArchiveView| x.build is Some),
    decreases a.len(),
{
    reveal(Seq::filter);
    if a.len() > 0 {
        numbered_archives_count(a.drop_last());
    }
}

/// Nothing is listed behind an archive that it ought to be before: releases come before
/// other archives, and newer ones before older ones.
pub proof fn archives_are_listed_newest_first(dir: Seq<char>, labels: Seq<Seq<char>>)
    ensures
        archives_of(dir, labels).len() == labels.len(),
        forall|i: int, j: int|
            0 <= i < j < labels.len() ==> in_order(
                #[trigger] archives_of(dir, labels)[i],
                #[trigger] archives_of(dir, labels)[j],
            ),
        forall|k: int|
            0 <= k < labels.len() ==> archives_of(dir, labels).contains(
                archive_named(dir, #[trigger] labels[k]),
            ),
    decreases labels.len(),
{
    if labels.len() > 0 {
        let s = labels.drop_last();
        archives_are_listed_newest_first(dir, s);
        let before = archives_of(dir, s);
        let a = archive_named(dir, labels.last());
        let now = archives_of(dir, labels);
        lemma_archive_place(before, a, 0);
        let p = archive_place(before, a, 0);
        assert(now == before.insert(p, a));
        assert forall|i: int, j: int| 0 <= i < j < labels.len() implies in_order(
            #[trigger] now[i],
            #[trigger] now[j],
        ) by {
            if i != p && j != p {
                let x = if i < p {
                    i
                } else {
                    i - 1
                };
                let y = if j < p {
                    j
                } else {
                    j - 1
                };
                assert(now[i] == before[x] && now[j] == before[y]);
                assert(in_order(before[x], before[y]));
            } else if j == p {
                assert(now[i] == before[i]);
                lemma_order_total(a, before[i]);
            } else {
                assert(now[j] == before[j - 1]);
                assert(listed_before(a, before[p]));
                lemma_order_total(a, before[p]);
                if j - 1 > p {
                    assert(in_order(before[p], before[j - 1]));
                    lemma_order_chain(a, before[p], before[j - 1]);
                }
            }
        }
        assert forall|k: int| 0 <= k < labels.len() implies now.contains(
            archive_named(dir, #[trigger] labels[k]),
        ) by {
            if k < s.len() {
                assert(s[k] == labels[k]);
                let x = archive_named(dir, s[k]);
                assert(before.contains(x));
                let i = choose|i: int| 0 <= i < before.len() && before[i] == x;
                if i < p {
                    assert(now[i] == x);
                } else {
                    assert(now[i + 1] == x);
                }
            } else {
                assert(now[p] == a);
            }
        }
    }
}

/// The first is not to be listed behind the second.
pub open spec fn in_order(a: ArchiveView, b: ArchiveView) -> bool {
    match (a.build, b.build) {
        (Some(x), Some(y)) => x >= y,
        (Some(_), None) => true,
        (None, Some(_)) => false,
        (None, None) => a.label == b.label || text_lt(a.label, b.label),
    }
}

proof fn lemma_archive_place(s: Seq<ArchiveView>, a: ArchiveView, from: int)
    requires
        0 <= from <= s.len(),
    ensures
        from <= archive_place(s, a, from) <= s.len(),
        archive_place(s, a, from) < s.len() ==> listed_before(a, s[archive_place(s, a, from)]),
        forall|k: int|
            from <= k < archive_place(s, a, from) ==> !listed_before(a, #[trigger] s[k]),
    decreases s.len() - from,
{
    if from < s.len() && !listed_before(a, s[from]) {
        lemma_archive_place(s, a, from + 1);
    }
}

proof fn lemma_order_total(a: ArchiveView, b: ArchiveView)
    ensures
        listed_before(a, b) ==> in_order(a, b),
        !listed_before(a, b) ==> in_order(b, a),
{
    crate::text::lemma_text_lt_total(a.label, b.label);
}

proof fn lemma_order_chain(a: ArchiveView, b: ArchiveView, c: ArchiveView)
    requires
        in_order(a, b),
        in_order(b, c),
    ensures
        in_order(a, c),
{
    if text_lt(a.label, b.label) && text_lt(b.label, c.label) {
        crate::text::lemma_text_lt_transitive(a.label, b.label, c.label);
    }
}

/// A release is built unless an archive of that build has just the backends that are selected.
pub proof fn a_release_is_built_once(
    build: u64,
    label: Seq<char>,
    backends: Seq<Seq<char>>,
    sel: BackendSelection,
)
    ensures
        release_of(build, None, sel).0,
        release_of(build, Some((label, backends)), sel).0 <==> backends.contains("cuda"@)
            != sel.cuda || backends.contains("vulkan"@) != sel.vulkan || backends.contains("hip"@)
            != sel.hip,
{
}

/// The names that an archive's backends are kept under are those of the selection, so that
/// an archive is found to have what it was built with, and nothing else.
pub proof fn backends_are_told_apart(sel: BackendSelection, other: BackendSelection)
    ensures
        same_backends(backend_names(sel), other) <==> sel.cuda == other.cuda && sel.vulkan
            == other.vulkan && sel.hip == other.hip,
        !sel.cuda && !sel.vulkan && !sel.hip <==> backend_names(sel).contains("cpu"@),
{
    reveal_strlit("cuda");
    reveal_strlit("vulkan");
    reveal_strlit("hip");
    reveal_strlit("cpu");
    assert("cuda"@.len() == 4 && "vulkan"@.len() == 6 && "hip"@.len() == 3 && "cpu"@.len() == 3);
    assert("hip"@[0] == 'h' && "cpu"@[0] == 'c');
    let n = backend_names(sel);
    let c = if sel.cuda {
        1int
    } else {
        0
    };
    let v = if sel.vulkan {
        1int
    } else {
        0
    };
    if sel.cuda {
        assert(n[0] == "cuda"@);
        assert(n.contains("cuda"@));
    }
    if sel.vulkan {
        assert(n[c] == "vulkan"@);
        assert(n.contains("vulkan"@));
    }
    if sel.hip {
        assert(n[c + v] == "hip"@);
        assert(n.contains("hip"@));
    }
    if !sel.cuda && !sel.vulkan && !sel.hip {
        assert(n[0] == "cpu"@);
        assert(n.contains("cpu"@));
    }
}

/// Binaries are archived under any label of letters, digits, dashes, underscores and points
/// that does not begin with a point, where none is archived under it and they were built.
pub proof fn a_plain_label_is_accepted(src: Seq<char>, label: Seq<char>, taken: bool, built: bool)
    requires
        label.len() > 0,
        label[0] != '.',
        forall|i: int|
            0 <= i < label.len() ==> 'a' <= (#[trigger] label[i]) <= 'z' || 'A' <= label[i] <= 'Z'
                || '0' <= label[i] <= '9' || label[i] == '-' || label[i] == '_' || label[i] == '.',
    ensures
        archive_refusal(src, label, taken, built) is None <==> !taken && built,
{
}

} // verus!
