//! Discovery: which llama.cpp installations exist on this machine, and which
//! compute devices the chosen one can see.
//!
//! An "install" is a `llama-server` binary. Candidates come from the user's
//! PATH, a set of conventional build locations, and any manually configured
//! paths; each is interrogated with `--version`. Devices come from
//! `--list-devices` — asked of the *binary*, not the OS, because what matters
//! is what that build can actually use (a CUDA card is invisible to a
//! CPU-only build).
use crate::num::{parse_number, parse_u64};
use crate::path::{join_of, join_path};
use crate::preset::TextSet;
use crate::text::{
    before_any, chars_of, contains, copy_text, copy_texts, cut_once, find, find_text, has_text,
    head, holds_text, lemma_texts_push, lines, lines_of, opt_str, opt_text, part_before_any, rfind,
    rfind_text, same_text, split_once, strip_prefix, strip_suffix, tail, text_of, texts, trim,
    trim_end_of, trim_start_of, trimmed, trimmed_end_of, trimmed_start_of, views, without_prefix,
    without_suffix,
};
use crate::textmap::{has_key, put, put_then_lookup, TextMap};
use vstd::prelude::*;
use vstd::string::*;

verus! {

#[derive(Debug, Clone)]
pub struct LlamaInstall {
    /// Absolute path to the `llama-server` binary.
    pub server_path: String,
    /// Build number from `--version` (e.g. 10216). `None` if the binary
    /// didn't answer — still listed, so a broken install is visible.
    pub build: Option<u64>,
    /// Commit hash from `--version` (e.g. "876a43211").
    pub commit: Option<String>,
    /// The full "built with …" line, verbatim (compiler, target, vendor
    /// annotations).
    pub built_with: Option<String>,
    /// Backend libraries sitting next to the binary (cuda, vulkan, cpu, …).
    /// Empty for static builds — absence of evidence only.
    pub backends: Vec<String>,
}

#[derive(Debug, Clone, PartialEq)]
pub struct Device {
    /// Backend-qualified id as llama.cpp names it: "CUDA0", "Vulkan1", …
    pub id: String,
    pub name: String,
    pub total_mib: u64,
    pub free_mib: u64,
}

pub struct DeviceView {
    pub id: Seq<char>,
    pub name: Seq<char>,
    pub total_mib: u64,
    pub free_mib: u64,
}

impl View for Device {
    type V = DeviceView;

    open spec fn view(&self) -> DeviceView {
        DeviceView {
            id: self.id@,
            name: self.name@,
            total_mib: self.total_mib,
            free_mib: self.free_mib,
        }
    }
}

pub open spec fn device_views(v: Seq<Device>) -> Seq<DeviceView> {
    Seq::new(v.len(), |i: int| v[i]@)
}

// ----------------------------------------------------------------- the version

/// What a `--version` banner tells.
pub struct VersionView {
    pub build: Option<u64>,
    pub commit: Option<Seq<char>>,
    pub built_with: Option<Seq<char>>,
}

/// What ends a number or a hash of the newer banner.
pub open spec fn field_ends() -> Seq<char> {
    seq![',', ')', ' ']
}

/// The field that stands behind a label.
pub open spec fn field_behind(rest: Seq<char>, label: Seq<char>) -> Option<Seq<char>> {
    match find(rest, label) {
        Some(i) => Some(before_any(rest.skip(i + label.len()), field_ends())),
        None => None,
    }
}

/// A hash in its brackets.
pub open spec fn bare_hash(h: Seq<char>) -> Seq<char> {
    trim_end_of(trim_start_of(trim(h), seq!['(']), seq![')'])
}

/// What the banner tells once a line is read. The build and the commit stand
/// in "(build N, commit H)", or as "N (H)" in older builds.
pub open spec fn with_line(v: VersionView, line: Seq<char>) -> VersionView {
    let l = trim(line);
    match strip_prefix(l, "version:"@) {
        Some(rest) => {
            let rest = trim(rest);
            match field_behind(rest, "build "@) {
                Some(n) => VersionView {
                    build: parse_u64(n),
                    commit: match field_behind(rest, "commit "@) {
                        Some(h) => Some(h),
                        None => v.commit,
                    },
                    ..v
                },
                None => match split_once(rest, " "@) {
                    Some((n, h)) => VersionView {
                        build: parse_u64(n),
                        commit: Some(bare_hash(h)),
                        ..v
                    },
                    None => VersionView { build: parse_u64(rest), commit: None, ..v },
                },
            }
        },
        None => match strip_prefix(l, "built with"@) {
            Some(rest) => VersionView { built_with: Some(trim(rest)), ..v },
            None => v,
        },
    }
}

pub open spec fn version_of(l: Seq<Seq<char>>) -> VersionView
    decreases l.len(),
{
    if l.len() == 0 {
        VersionView { build: None, commit: None, built_with: None }
    } else {
        with_line(version_of(l.drop_last()), l.last())
    }
}

fn field_in(rest: &[char], label: &str) -> (r: Option<Vec<char>>)
    ensures
        match r {
            Some(v) => field_behind(rest@, label@) == Some(v@),
            None => field_behind(rest@, label@) is None,
        },
{
    let n = chars_of(label);
    match find_text(rest, &n) {
        Some(i) => {
            let set: [char; 3] = [',', ')', ' '];
            assert(set@ =~= field_ends());
            assert(rest@.len() == rest.len());
            let f = part_before_any(tail(rest, i + n.len()), &set);
            let s = text_of(f);
            Some(chars_of(s.as_str()))
        },
        None => None,
    }
}

fn hash_in(h: &[char]) -> (r: String)
    ensures
        r@ == bare_hash(h@),
{
    let open: [char; 1] = ['('];
    let close: [char; 1] = [')'];
    assert(open@ =~= seq!['(']);
    assert(close@ =~= seq![')']);
    text_of(trimmed_end_of(trimmed_start_of(trimmed(h), &open), &close))
}

fn read_version_line(
    line: &[char],
    build: Option<u64>,
    commit: Option<String>,
    built_with: Option<String>,
) -> (r: (Option<u64>, Option<String>, Option<String>))
    ensures
        (VersionView { build: r.0, commit: opt_text(r.1), built_with: opt_text(r.2) })
            == with_line(
            VersionView { build, commit: opt_text(commit), built_with: opt_text(built_with) },
            line@,
        ),
{
    let l = trimmed(line);
    if let Some(rest) = without_prefix(l, "version:") {
        let rest = trimmed(rest);
        return match field_in(rest, "build ") {
            Some(n) => {
                let c = match field_in(rest, "commit ") {
                    Some(h) => Some(text_of(&h)),
                    None => commit,
                };
                (parse_number(&n), c, built_with)
            },
            None => match cut_once(rest, " ") {
                Some((n, h)) => (parse_number(n), Some(hash_in(h)), built_with),
                None => (parse_number(rest), None, built_with),
            },
        };
    }
    match without_prefix(l, "built with") {
        Some(rest) => (build, commit, Some(text_of(trimmed(rest)))),
        None => (build, commit, built_with),
    }
}

/// Parse `llama-server --version` output. Two dialects exist:
/// ```text
/// version: 10216 (876a43211)                        # up to ~b10216
/// version: 0.1.0-dev (build 10454, commit 4df29be4f) # newer builds
/// built with GNU 15.2.0 for Linux x86_64
/// ```
pub fn parse_version_output(out: &str) -> (r: (Option<u64>, Option<String>, Option<String>))
    ensures
        (VersionView { build: r.0, commit: opt_text(r.1), built_with: opt_text(r.2) })
            == version_of(lines(out@)),
{
    let c = chars_of(out);
    let l = lines_of(&c);
    let ghost all = lines(out@);
    let mut build: Option<u64> = None;
    let mut commit: Option<String> = None;
    let mut built_with: Option<String> = None;
    let mut i: usize = 0;
    assert(all.take(0) =~= Seq::empty());
    while i < l.len()
        invariant
            i <= l.len(),
            all == views(l@),
            (VersionView { build, commit: opt_text(commit), built_with: opt_text(built_with) })
                == version_of(all.take(i as int)),
        decreases l.len() - i,
    {
        assert(all.take(i + 1).drop_last() =~= all.take(i as int));
        assert(all.take(i + 1).last() == l@[i as int]@);
        let r = read_version_line(l[i], build, commit, built_with);
        build = r.0;
        commit = r.1;
        built_with = r.2;
        i += 1;
    }
    assert(all.take(i as int) =~= all);
    (build, commit, built_with)
}

/// The build number that a binary's `--version` output names.
pub fn build_of(version_output: &str) -> (r: Option<u64>)
    ensures
        r == version_of(lines(version_output@)).build,
{
    parse_version_output(version_output).0
}

// ----------------------------------------------------------------- the devices

/// A figure in its unit.
pub open spec fn figure(t: Seq<char>, unit: Seq<char>) -> Option<u64> {
    match strip_suffix(trim(t), unit) {
        Some(n) => parse_u64(n),
        None => None,
    }
}

/// The device that a line tells of. The name itself may contain parentheses,
/// so the memory figures are taken from the *last* parenthesised group.
pub open spec fn device_on(line: Seq<char>) -> Option<DeviceView> {
    match split_once(trim(line), ": "@) {
        Some((id, rest)) => if id.len() == 0 || contains(id, " "@) {
            None
        } else {
            match rfind(rest, "("@) {
                Some(open) => match split_once(
                    trim_end_of(rest.skip(open + "("@.len()), seq![')']),
                    ","@,
                ) {
                    Some((total, free)) => match (figure(total, " MiB"@), figure(
                        free,
                        " MiB free"@,
                    )) {
                        (Some(t), Some(f)) => Some(
                            DeviceView {
                                id,
                                name: trim(rest.take(open)),
                                total_mib: t,
                                free_mib: f,
                            },
                        ),
                        _ => None,
                    },
                    None => None,
                },
                None => None,
            }
        },
        None => None,
    }
}

pub open spec fn devices_on(l: Seq<Seq<char>>) -> Seq<DeviceView>
    decreases l.len(),
{
    if l.len() == 0 {
        Seq::empty()
    } else {
        let sofar = devices_on(l.drop_last());
        match device_on(l.last()) {
            Some(d) => sofar.push(d),
            None => sofar,
        }
    }
}

fn figure_in(t: &[char], unit: &str) -> (r: Option<u64>)
    ensures
        r == figure(t@, unit@),
{
    match without_suffix(trimmed(t), unit) {
        Some(n) => parse_number(n),
        None => None,
    }
}

fn read_device(line: &[char]) -> (r: Option<Device>)
    ensures
        match r {
            Some(d) => device_on(line@) == Some(d@),
            None => device_on(line@) is None,
        },
{
    let (id, rest) = match cut_once(trimmed(line), ": ") {
        Some(p) => p,
        None => {
            return None;
        },
    };
    if id.len() == 0 || has_text(id, " ") {
        return None;
    }
    let bracket = chars_of("(");
    let open = match rfind_text(rest, &bracket) {
        Some(i) => i,
        None => {
            return None;
        },
    };
    let close: [char; 1] = [')'];
    assert(close@ =~= seq![')']);
    assert(rest@.len() == rest.len());
    let mem = trimmed_end_of(tail(rest, open + bracket.len()), &close);
    let (total, free) = match cut_once(mem, ",") {
        Some(p) => p,
        None => {
            return None;
        },
    };
    match (figure_in(total, " MiB"), figure_in(free, " MiB free")) {
        (Some(total_mib), Some(free_mib)) => Some(
            Device {
                id: text_of(id),
                name: text_of(trimmed(head(rest, open))),
                total_mib,
                free_mib,
            },
        ),
        _ => None,
    }
}

/// Parse `--list-devices` output:
/// ```text
/// Available devices:
///   CUDA0: NVIDIA GeForce RTX 3090 Ti (24111 MiB, 23328 MiB free)
///   Vulkan1: Intel(R) UHD Graphics 770 (ADL-S GT1) (48012 MiB, 43210 MiB free)
/// ```
/// Lines that tell of no device are passed over.
pub fn parse_device_list(out: &str) -> (r: Vec<Device>)
    ensures
        device_views(r@) == devices_on(lines(out@)),
{
    let c = chars_of(out);
    let l = lines_of(&c);
    let ghost all = lines(out@);
    let mut found: Vec<Device> = Vec::new();
    let mut i: usize = 0;
    assert(all.take(0) =~= Seq::empty());
    assert(device_views(found@) =~= Seq::<DeviceView>::empty());
    while i < l.len()
        invariant
            i <= l.len(),
            all == views(l@),
            device_views(found@) == devices_on(all.take(i as int)),
        decreases l.len() - i,
    {
        assert(all.take(i + 1).drop_last() =~= all.take(i as int));
        assert(all.take(i + 1).last() == l@[i as int]@);
        if let Some(d) = read_device(l[i]) {
            let ghost sofar = device_views(found@);
            found.push(d);
            assert(device_views(found@) =~= sofar.push(d@));
        }
        i += 1;
    }
    assert(all.take(i as int) =~= all);
    found
}

/// The free and total memory that a line of nvidia-smi tells of.
pub open spec fn vram_on(line: Seq<char>) -> Option<(u64, u64)> {
    match split_once(line, ","@) {
        Some((used, total)) => match (parse_u64(trim(used)), parse_u64(trim(total))) {
            (Some(u), Some(t)) => Some((if u < t { (t - u) as u64 } else { 0 }, t)),
            _ => None,
        },
        None => None,
    }
}

/// Live VRAM (free, total) in MiB for the primary NVIDIA card, from what
/// `nvidia-smi --query-gpu=memory.used,memory.total
/// --format=csv,noheader,nounits` printed.
pub fn nvidia_vram_mib(stdout: &str) -> (r: Option<(u64, u64)>)
    ensures
        r == (if lines(stdout@).len() > 0 {
            vram_on(lines(stdout@)[0])
        } else {
            None
        }),
{
    let c = chars_of(stdout);
    let l = lines_of(&c);
    assert(views(l@).len() == l@.len());
    if l.len() == 0 {
        return None;
    }
    assert(views(l@)[0] == l@[0]@);
    let (used, total) = match cut_once(l[0], ",") {
        Some(p) => p,
        None => {
            return None;
        },
    };
    match (parse_number(trimmed(used)), parse_number(trimmed(total))) {
        (Some(u), Some(t)) => Some(
            (
                if u < t {
                    t - u
                } else {
                    0
                },
                t,
            ),
        ),
        _ => None,
    }
}

// ------------------------------------------------------------ the physical GPUs

/// One physical GPU, deduped across backend views: the same card appears
/// as CUDA0 AND Vulkan0 (with different memory figures — CUDA reports
/// usable, Vulkan the raw heap), and an iGPU advertises borrowed system
/// RAM as if it were VRAM. Summing the raw device list triples reality.
#[derive(Debug, Clone, PartialEq)]
pub struct PhysicalGpu {
    pub name: String,
    /// The smallest figure across backend views — the conservative
    /// usable number.
    pub vram_mib: u64,
    /// Backend ids that are views of this card ("CUDA0", "Vulkan0", …).
    pub ids: Vec<String>,
    /// Integrated / shared-memory device: its "VRAM" is system RAM in a
    /// costume and must not count toward serving capacity.
    pub shared_memory: bool,
}

pub struct GpuView {
    pub name: Seq<char>,
    pub vram_mib: u64,
    pub ids: Seq<Seq<char>>,
    pub shared_memory: bool,
}

impl View for PhysicalGpu {
    type V = GpuView;

    open spec fn view(&self) -> GpuView {
        GpuView {
            name: self.name@,
            vram_mib: self.vram_mib,
            ids: texts(self.ids@),
            shared_memory: self.shared_memory,
        }
    }
}

pub open spec fn gpu_views(v: Seq<PhysicalGpu>) -> Seq<GpuView> {
    Seq::new(v.len(), |i: int| v[i]@)
}

/// The name marks shared-memory graphics.
pub open spec fn is_shared(name: Seq<char>) -> bool {
    contains(name, "UHD Graphics"@) || contains(name, "Iris"@) || contains(
        name,
        "Radeon(TM) Graphics"@,
    ) || contains(name, "Radeon Graphics"@) || contains(name, "llvmpipe"@)
}

/// The first GPU with the name, from `from` on.
pub open spec fn gpu_from(g: Seq<GpuView>, name: Seq<char>, from: int) -> Option<int>
    decreases g.len() - from,
{
    if from < 0 || from >= g.len() {
        None
    } else if g[from].name == name {
        Some(from)
    } else {
        gpu_from(g, name, from + 1)
    }
}

/// The GPUs once one more device is seen.
pub open spec fn with_device(g: Seq<GpuView>, d: DeviceView) -> Seq<GpuView> {
    match gpu_from(g, d.name, 0) {
        Some(i) => g.update(
            i,
            GpuView {
                ids: g[i].ids.push(d.id),
                vram_mib: if d.total_mib < g[i].vram_mib {
                    d.total_mib
                } else {
                    g[i].vram_mib
                },
                ..g[i]
            },
        ),
        None => g.push(
            GpuView {
                name: d.name,
                vram_mib: d.total_mib,
                ids: seq![d.id],
                shared_memory: is_shared(d.name),
            },
        ),
    }
}

pub open spec fn gpus_of(devices: Seq<DeviceView>) -> Seq<GpuView>
    decreases devices.len(),
{
    if devices.len() == 0 {
        Seq::empty()
    } else {
        with_device(gpus_of(devices.drop_last()), devices.last())
    }
}

/// Marker heuristic for shared-memory graphics; wrong in exotic cases,
/// but wrong in the safe direction (a discrete card misread as shared
/// only shrinks advice thresholds, never inflates them).
fn is_shared_memory_gpu(name: &str) -> (r: bool)
    ensures
        r == is_shared(name@),
{
    let c = chars_of(name);
    has_text(&c, "UHD Graphics") || has_text(&c, "Iris") || has_text(&c, "Radeon(TM) Graphics")
        || has_text(&c, "Radeon Graphics") || has_text(&c, "llvmpipe")
}

fn find_gpu(g: &[PhysicalGpu], name: &str) -> (r: Option<usize>)
    ensures
        match r {
            Some(i) => i < g.len() && gpu_from(gpu_views(g@), name@, 0) == Some(i as int),
            None => gpu_from(gpu_views(g@), name@, 0) is None,
        },
{
    let ghost all = gpu_views(g@);
    let mut i: usize = 0;
    while i < g.len()
        invariant
            i <= g.len(),
            all == gpu_views(g@),
            gpu_from(all, name@, 0) == gpu_from(all, name@, i as int),
        decreases g.len() - i,
    {
        assert(all[i as int].name == g@[i as int].name@);
        if same_text(g[i].name.as_str(), name) {
            return Some(i);
        }
        i += 1;
    }
    None
}

/// Group backend device views into physical GPUs by name, first-seen order.
pub fn physical_gpus(devices: &[Device]) -> (r: Vec<PhysicalGpu>)
    ensures
        gpu_views(r@) == gpus_of(device_views(devices@)),
{
    let ghost all = device_views(devices@);
    let mut out: Vec<PhysicalGpu> = Vec::new();
    let mut i: usize = 0;
    assert(all.take(0) =~= Seq::empty());
    assert(gpu_views(out@) =~= Seq::<GpuView>::empty());
    while i < devices.len()
        invariant
            i <= devices.len(),
            all == device_views(devices@),
            gpu_views(out@) == gpus_of(all.take(i as int)),
        decreases devices.len() - i,
    {
        assert(all.take(i + 1).drop_last() =~= all.take(i as int));
        assert(all.take(i + 1).last() == devices@[i as int]@);
        let d = &devices[i];
        let ghost before = gpu_views(out@);
        match find_gpu(&out, d.name.as_str()) {
            Some(k) => {
                let g = out.remove(k);
                let mut ids = g.ids;
                proof {
                    lemma_texts_push(ids@, d.id);
                }
                ids.push(d.id.clone());
                let vram_mib = if d.total_mib < g.vram_mib {
                    d.total_mib
                } else {
                    g.vram_mib
                };
                let new = PhysicalGpu {
                    name: g.name,
                    vram_mib,
                    ids,
                    shared_memory: g.shared_memory,
                };
                out.insert(k, new);
                assert(gpu_views(out@) =~= before.update(k as int, new@));
            },
            None => {
                let ids: Vec<String> = vec![d.id.clone()];
                assert(texts(ids@) =~= seq![d.id@]);
                let new = PhysicalGpu {
                    name: d.name.clone(),
                    vram_mib: d.total_mib,
                    ids,
                    shared_memory: is_shared_memory_gpu(d.name.as_str()),
                };
                out.push(new);
                assert(gpu_views(out@) =~= before.push(new@));
            },
        }
        i += 1;
    }
    assert(all.take(i as int) =~= all);
    out
}

/// The largest memory among the GPUs; `dedicated` leaves shared memory out.
pub open spec fn largest(g: Seq<GpuView>, dedicated: bool) -> Option<u64>
    decreases g.len(),
{
    if g.len() == 0 {
        None
    } else {
        let before = largest(g.drop_last(), dedicated);
        if dedicated && g.last().shared_memory {
            before
        } else {
            match before {
                Some(b) => if b > g.last().vram_mib {
                    Some(b)
                } else {
                    Some(g.last().vram_mib)
                },
                None => Some(g.last().vram_mib),
            }
        }
    }
}

/// What advice counts on: the largest dedicated card, else the largest of any
/// kind, else nothing.
pub open spec fn advised_vram(g: Seq<GpuView>) -> u64 {
    match largest(g, true) {
        Some(v) => v,
        None => match largest(g, false) {
            Some(v) => v,
            None => 0,
        },
    }
}

fn largest_of(g: &[PhysicalGpu], dedicated: bool) -> (r: Option<u64>)
    ensures
        r == largest(gpu_views(g@), dedicated),
{
    let ghost all = gpu_views(g@);
    let mut best: Option<u64> = None;
    let mut i: usize = 0;
    assert(all.take(0) =~= Seq::empty());
    while i < g.len()
        invariant
            i <= g.len(),
            all == gpu_views(g@),
            best == largest(all.take(i as int), dedicated),
        decreases g.len() - i,
    {
        assert(all.take(i + 1).drop_last() =~= all.take(i as int));
        assert(all.take(i + 1).last() == g@[i as int]@);
        if !(dedicated && g[i].shared_memory) {
            best = match best {
                Some(b) => if b > g[i].vram_mib {
                    Some(b)
                } else {
                    Some(g[i].vram_mib)
                },
                None => Some(g[i].vram_mib),
            };
        }
        i += 1;
    }
    assert(all.take(i as int) =~= all);
    best
}

/// The VRAM figure serving advice should use: the largest DEDICATED
/// physical GPU. Falls back to the largest anything only when no
/// dedicated card exists at all.
pub fn advice_vram_mib(devices: &[Device]) -> (r: u64)
    ensures
        r == advised_vram(gpus_of(device_views(devices@))),
{
    let g = physical_gpus(devices);
    match largest_of(&g, true) {
        Some(v) => v,
        None => match largest_of(&g, false) {
            Some(v) => v,
            None => 0,
        },
    }
}

// ---------------------------------------------------------------- the installs

/// Conventional places a self-built or vendored llama-server lives, relative
/// to the home directory.
pub const HOME_SRC: &'static str = "src/llama.cpp/build/bin/llama-server";

pub const HOME_PLAIN: &'static str = "llama.cpp/build/bin/llama-server";

pub const HOME_UNSLOTH: &'static str = ".unsloth/llama.cpp/llama-server";

/// A server in each directory.
pub open spec fn servers_in(dirs: Seq<Seq<char>>) -> Seq<Seq<char>> {
    Seq::new(dirs.len(), |i: int| join_path(dirs[i], "llama-server"@))
}

pub open spec fn home_servers(home: Option<Seq<char>>) -> Seq<Seq<char>> {
    match home {
        Some(h) => seq![
            join_path(h, HOME_SRC@),
            join_path(h, HOME_PLAIN@),
            join_path(h, HOME_UNSLOTH@),
        ],
        None => Seq::empty(),
    }
}

/// Where llama-server binaries are looked for: manual paths first (they
/// outrank guesses), then PATH's directories, then conventional build
/// locations; the app-managed checkout's build and its pinnable archives are
/// installs like any other — offered, never forced.
pub fn install_candidates(
    manual: &[String],
    path_dirs: &[String],
    home: Option<&str>,
    managed: &str,
    archives: &[String],
) -> (r: Vec<String>)
    ensures
        texts(r@) == texts(manual@) + servers_in(texts(path_dirs@)) + home_servers(opt_str(home))
            + seq![managed@] + texts(archives@),
{
    let mut out = copy_texts(manual);
    let mut i: usize = 0;
    let ghost a = texts(manual@);
    let ghost b = servers_in(texts(path_dirs@));
    assert(texts(out@) =~= a + b.take(0));
    while i < path_dirs.len()
        invariant
            i <= path_dirs.len(),
            b == servers_in(texts(path_dirs@)),
            texts(out@) == a + b.take(i as int),
        decreases path_dirs.len() - i,
    {
        let p = join_of(path_dirs[i].as_str(), "llama-server");
        proof {
            lemma_texts_push(out@, p);
        }
        assert(b.take(i + 1) =~= b.take(i as int).push(b[i as int]));
        assert(a + b.take(i + 1) =~= (a + b.take(i as int)).push(p@));
        out.push(p);
        i += 1;
    }
    assert(b.take(i as int) =~= b);
    let ghost c = home_servers(opt_str(home));
    match home {
        Some(h) => {
            let x = join_of(h, HOME_SRC);
            let y = join_of(h, HOME_PLAIN);
            let z = join_of(h, HOME_UNSLOTH);
            let ghost before = texts(out@);
            out.push(x);
            out.push(y);
            out.push(z);
            assert(texts(out@) =~= before + c);
        },
        None => {
            assert(texts(out@) =~= texts(out@) + c);
        },
    }
    let ghost before = texts(out@);
    out.push(copy_text(managed));
    assert(texts(out@) =~= before + seq![managed@]);
    let ghost d = texts(out@);
    let ghost e = texts(archives@);
    let mut k: usize = 0;
    assert(d + e.take(0) =~= d);
    while k < archives.len()
        invariant
            k <= archives.len(),
            e == texts(archives@),
            texts(out@) == d + e.take(k as int),
        decreases archives.len() - k,
    {
        proof {
            lemma_texts_push(out@, archives@[k as int]);
        }
        assert(d + e.take(k + 1) =~= (d + e.take(k as int)).push(e[k as int]));
        out.push(archives[k].clone());
        k += 1;
    }
    assert(e.take(k as int) =~= e);
    out
}

/// What a candidate resolves to: nothing, or a path and whether a file is
/// there.
pub open spec fn is_install(c: (Option<String>, bool)) -> bool {
    c.0 is Some && c.1
}

/// The installs among the candidates, each once, in their order.
pub open spec fn installs_among(c: Seq<(Option<String>, bool)>) -> Seq<Seq<char>>
    decreases c.len(),
{
    if c.len() == 0 {
        Seq::empty()
    } else {
        let sofar = installs_among(c.drop_last());
        if is_install(c.last()) && !sofar.contains((c.last().0->0)@) {
            sofar.push((c.last().0->0)@)
        } else {
            sofar
        }
    }
}

/// The installs among the resolved candidates: deduplicated by their resolved
/// path; one that is no file is skipped.
pub fn distinct_installs(resolved: &[(Option<String>, bool)]) -> (r: Vec<String>)
    ensures
        texts(r@) == installs_among(resolved@),
{
    let mut out: Vec<String> = Vec::new();
    let mut i: usize = 0;
    assert(resolved@.take(0) =~= Seq::empty());
    assert(texts(out@) =~= Seq::<Seq<char>>::empty());
    while i < resolved.len()
        invariant
            i <= resolved.len(),
            texts(out@) == installs_among(resolved@.take(i as int)),
        decreases resolved.len() - i,
    {
        assert(resolved@.take(i + 1).drop_last() =~= resolved@.take(i as int));
        assert(resolved@.take(i + 1).last() == resolved@[i as int]);
        if let Some(p) = &resolved[i].0 {
            if resolved[i].1 && !holds_text(&out, p.as_str()) {
                proof {
                    lemma_texts_push(out@, *p);
                }
                out.push(p.clone());
            }
        }
        i += 1;
    }
    assert(resolved@.take(i as int) =~= resolved@);
    out
}

/// The backend that a library's file name tells of.
pub open spec fn backend_in(name: Seq<char>) -> Option<Seq<char>> {
    match strip_prefix(name, "libggml-"@) {
        Some(rest) => {
            let b = match split_once(rest, ".so"@) {
                Some((b, _)) => b,
                None => rest,
            };
            if b.len() > 0 && b != "base"@ {
                Some(b)
            } else {
                None
            }
        },
        None => None,
    }
}

/// The backends that the names tell of, in their order and each once.
pub open spec fn backends_among(names: Seq<Seq<char>>) -> Seq<(Seq<char>, ())>
    decreases names.len(),
{
    if names.len() == 0 {
        Seq::empty()
    } else {
        let sofar = backends_among(names.drop_last());
        match backend_in(names.last()) {
            Some(b) => put(sofar, b, ()),
            None => sofar,
        }
    }
}

/// The keys of a map, in their order.
pub open spec fn keys_of(s: Seq<(Seq<char>, ())>) -> Seq<Seq<char>> {
    Seq::new(s.len(), |i: int| s[i].0)
}

/// Backend names from `libggml-<backend>.so*` files next to the binary, given
/// the names of the files there. "base" is plumbing, not a backend, and is
/// excluded.
pub fn sibling_backends(names: &[String]) -> (r: Vec<String>)
    ensures
        texts(r@) == keys_of(backends_among(texts(names@))),
{
    let ghost all = texts(names@);
    let mut set: TextSet = TextMap::new();
    let mut i: usize = 0;
    assert(all.take(0) =~= Seq::empty());
    assert(set@ =~= Seq::<(Seq<char>, ())>::empty());
    while i < names.len()
        invariant
            i <= names.len(),
            all == texts(names@),
            set@ == backends_among(all.take(i as int)),
        decreases names.len() - i,
    {
        assert(all.take(i + 1).drop_last() =~= all.take(i as int));
        assert(all.take(i + 1).last() == names@[i as int]@);
        let c = chars_of(names[i].as_str());
        if let Some(rest) = without_prefix(&c, "libggml-") {
            let b = match cut_once(rest, ".so") {
                Some((b, _)) => b,
                None => rest,
            };
            let t = text_of(b);
            if b.len() > 0 && !same_text(t.as_str(), "base") {
                set.insert(t, ());
            }
        }
        i += 1;
    }
    assert(all.take(i as int) =~= all);
    keys_in_order(&set)
}

/// The texts of a set, in their order.
pub fn keys_in_order(set: &TextSet) -> (r: Vec<String>)
    ensures
        texts(r@) == keys_of(set@),
{
    let mut out: Vec<String> = Vec::new();
    let mut i: usize = 0;
    let ghost all = keys_of(set@);
    assert(texts(out@) =~= all.take(0));
    while i < set.len()
        invariant
            i <= set@.len(),
            all == keys_of(set@),
            texts(out@) == all.take(i as int),
        decreases set@.len() - i,
    {
        let k = set.key_at(i);
        proof {
            lemma_texts_push(out@, *k);
        }
        assert(all.take(i + 1) =~= all.take(i as int).push(all[i as int]));
        out.push(k.clone());
        i += 1;
    }
    assert(all.take(i as int) =~= all);
    out
}

// ------------------------------------------------------------------------ laws

proof fn lemma_gpu_from(g: Seq<GpuView>, name: Seq<char>, from: int)
    requires
        0 <= from,
    ensures
        match gpu_from(g, name, from) {
            Some(i) => from <= i < g.len() && g[i].name == name,
            None => forall|k: int| from <= k < g.len() ==> (#[trigger] g[k]).name != name,
        },
    decreases g.len() - from,
{
    if from < g.len() && g[from].name != name {
        lemma_gpu_from(g, name, from + 1);
    }
}

/// Every device belongs to exactly one physical GPU, and that GPU's memory is
/// no more than what any view of it reports.
pub proof fn every_view_has_one_card(devices: Seq<DeviceView>, k: int)
    requires
        0 <= k < devices.len(),
    ensures
        exists|i: int|
            0 <= i < gpus_of(devices).len() && (#[trigger] gpus_of(devices)[i]).name
                == devices[k].name && gpus_of(devices)[i].vram_mib <= devices[k].total_mib,
        forall|i: int, j: int|
            0 <= i < j < gpus_of(devices).len() ==> (#[trigger] gpus_of(devices)[i]).name != (
            #[trigger] gpus_of(devices)[j]).name,
    decreases devices.len(),
{
    let rest = devices.drop_last();
    let g = gpus_of(rest);
    let d = devices.last();
    let out = gpus_of(devices);
    lemma_gpu_from(g, d.name, 0);
    if rest.len() > 0 {
        every_view_has_one_card(rest, if k < rest.len() { k } else { 0 });
    }
    let place = match gpu_from(g, d.name, 0) {
        Some(i) => i,
        None => g.len() as int,
    };
    assert(out[place].name == d.name && out[place].vram_mib <= d.total_mib);
    if k < rest.len() {
        assert(rest[k] == devices[k]);
        let i = choose|i: int|
            0 <= i < g.len() && (#[trigger] g[i]).name == rest[k].name && g[i].vram_mib
                <= rest[k].total_mib;
        assert(out[i].name == devices[k].name && out[i].vram_mib <= devices[k].total_mib);
    }
    assert forall|i: int, j: int| 0 <= i < j < out.len() implies (#[trigger] out[i]).name != (
    #[trigger] out[j]).name by {
        if j < g.len() {
            assert(out[i].name == g[i].name);
            assert(out[j].name == g[j].name);
        } else {
            assert(out[i].name == g[i].name);
        }
    }
}

/// A card's memory is the least that any of its devices tells of, and one of them does.
pub proof fn a_card_has_the_least_memory_told(devices: Seq<DeviceView>, i: int)
    requires
        0 <= i < gpus_of(devices).len(),
    ensures
        exists|k: int|
            0 <= k < devices.len() && (#[trigger] devices[k]).name == gpus_of(devices)[i].name
                && devices[k].total_mib == gpus_of(devices)[i].vram_mib,
        gpus_of(devices)[i].shared_memory == is_shared(gpus_of(devices)[i].name),
    decreases devices.len(),
{
    let s = devices.drop_last();
    let d = devices.last();
    let before = gpus_of(s);
    let now = gpus_of(devices);
    let n = devices.len() - 1;
    assert(devices[n] == d);
    lemma_gpu_from(before, d.name, 0);
    if i < before.len() {
        a_card_has_the_least_memory_told(s, i);
        let k = choose|k: int|
            0 <= k < s.len() && (#[trigger] s[k]).name == before[i].name && s[k].total_mib
                == before[i].vram_mib;
        assert(devices[k] == s[k]);
    }
}

/// Advice goes by the largest card with memory of its own; by the largest of all where none
/// has, and by nothing where there is no card.
pub proof fn advice_goes_by_the_largest_card(g: Seq<GpuView>, i: int)
    requires
        0 <= i < g.len(),
    ensures
        !g[i].shared_memory ==> g[i].vram_mib <= advised_vram(g),
        (forall|k: int| 0 <= k < g.len() ==> (#[trigger] g[k]).shared_memory) ==> g[i].vram_mib
            <= advised_vram(g),
        exists|k: int| 0 <= k < g.len() && (#[trigger] g[k]).vram_mib == advised_vram(g),
        !g[i].shared_memory ==> exists|k: int|
            0 <= k < g.len() && (#[trigger] g[k]).vram_mib == advised_vram(g)
                && !g[k].shared_memory,
        advised_vram(Seq::empty()) == 0,
{
    lemma_largest(g, true);
    lemma_largest(g, false);
}

proof fn lemma_largest(g: Seq<GpuView>, dedicated: bool)
    ensures
        match largest(g, dedicated) {
            Some(v) => {
                &&& exists|k: int|
                    0 <= k < g.len() && (#[trigger] g[k]).vram_mib == v && !(dedicated
                        && g[k].shared_memory)
                &&& forall|k: int|
                    0 <= k < g.len() && !(dedicated && (#[trigger] g[k]).shared_memory) ==> g[k].vram_mib
                        <= v
            },
            None => forall|k: int|
                0 <= k < g.len() ==> dedicated && (#[trigger] g[k]).shared_memory,
        },
    decreases g.len(),
{
    if g.len() > 0 {
        let s = g.drop_last();
        let n = g.len() - 1;
        lemma_largest(s, dedicated);
        assert(g[n] == g.last());
        if largest(s, dedicated) is Some {
            let v = largest(s, dedicated)->0;
            let k = choose|k: int|
                0 <= k < s.len() && (#[trigger] s[k]).vram_mib == v && !(dedicated
                    && s[k].shared_memory);
            assert(g[k] == s[k]);
        }
        assert forall|k: int| 0 <= k < n implies #[trigger] g[k] == s[k] by {}
    }
}

/// Free memory is what is left of the whole beside what is used, and none where more is used.
pub proof fn used_and_free_come_to_the_whole(
    line: Seq<char>,
    before: Seq<char>,
    behind: Seq<char>,
    used: u64,
    total: u64,
)
    requires
        split_once(line, ","@) == Some((before, behind)),
        parse_u64(trim(before)) == Some(used),
        parse_u64(trim(behind)) == Some(total),
    ensures
        match vram_on(line) {
            Some((free, all)) => all == total && (used <= total ==> free + used == total) && (used
                > total ==> free == 0),
            None => false,
        },
{
}

/// Every install among the candidates is listed, and each once.
pub proof fn every_install_is_listed_once(c: Seq<(Option<String>, bool)>, i: int)
    requires
        0 <= i < c.len(),
        c[i].0 is Some,
        c[i].1,
    ensures
        installs_among(c).contains((c[i].0->0)@),
        installs_among(c).no_duplicates(),
    decreases c.len(),
{
    let s = c.drop_last();
    let before = installs_among(s);
    let now = installs_among(c);
    lemma_installs_differ(c);
    let p = (c[i].0->0)@;
    if i < s.len() {
        assert(s[i] == c[i]);
        every_install_is_listed_once(s, i);
        let k = choose|k: int| 0 <= k < before.len() && before[k] == p;
        assert(now[k] == p);
    } else if !before.contains(p) {
        assert(now[now.len() - 1] == p);
    }
}

proof fn lemma_installs_differ(c: Seq<(Option<String>, bool)>)
    ensures
        installs_among(c).no_duplicates(),
    decreases c.len(),
{
    if c.len() > 0 {
        lemma_installs_differ(c.drop_last());
    }
}

/// Every library of a backend tells of it, and the one that all have tells of none.
pub proof fn every_library_tells_its_backend(names: Seq<Seq<char>>, i: int, b: Seq<char>)
    requires
        0 <= i < names.len(),
        backend_in(names[i]) == Some(b),
    ensures
        crate::textmap::sorted(backends_among(names)),
        has_key(backends_among(names), b),
    decreases names.len(),
{
    let s = names.drop_last();
    lemma_backends_sorted(s);
    let sofar = backends_among(s);
    if i < s.len() {
        assert(s[i] == names[i]);
        every_library_tells_its_backend(s, i, b);
        crate::textmap::lemma_has_key(sofar, b);
    }
    if backend_in(names.last()) is Some {
        put_then_lookup(sofar, backend_in(names.last())->0, (), b);
        put_then_lookup(
            sofar,
            backend_in(names.last())->0,
            (),
            backend_in(names.last())->0,
        );
    }
    lemma_backends_sorted(names);
    crate::textmap::lemma_has_key(backends_among(names), b);
}

proof fn lemma_backends_sorted(names: Seq<Seq<char>>)
    ensures
        crate::textmap::sorted(backends_among(names)),
    decreases names.len(),
{
    if names.len() > 0 {
        lemma_backends_sorted(names.drop_last());
        if backend_in(names.last()) is Some {
            let b = backend_in(names.last())->0;
            put_then_lookup(backends_among(names.drop_last()), b, (), b);
        }
    }
}

} // verus!
