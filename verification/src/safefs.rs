//! Durable file writing, and reads that tell the truth when they fail.
//!
//! 1. **Write to a temp file in the same directory, fsync it, rename.**
//!    The rename is atomic within a filesystem, so a reader sees either
//!    the whole old file or the whole new one.
//! 2. **A read failure is not an empty file.** Missing is silent and
//!    default; anything else is loud, and the unreadable original is
//!    rescued beside itself rather than overwritten.
//!
//! This module decides the names and the meaning of what was read; the bytes
//! are moved by its caller.
use crate::json::{json_document, Json};
use crate::num::{dec, push_dec};
use crate::path::{
    extension, extension_of, file_name, file_name_of, join_of, join_path, parent, parent_of,
    with_extension, with_extension_of,
};
use crate::settings::is_absolute;
use crate::text::{chars_of, copy_text};
use vstd::prelude::*;
use vstd::string::*;

verus! {

/// What a read of a state file found.
#[derive(Debug, PartialEq)]
pub enum Loaded<T> {
    /// No file yet — start from defaults, silently.
    Missing,
    /// Parsed cleanly.
    Parsed(T),
    /// The file exists but could not be read or parsed. Carries the
    /// reason, so callers can be loud instead of pretending it was
    /// empty.
    Damaged(String),
}

/// What reading a file's text came to.
#[derive(Debug, PartialEq)]
pub enum FileRead {
    NotFound,
    /// Any other failure: a permission change, an I/O error.
    Failed(String),
    Text(String),
}

/// Read + parse JSON, distinguishing "missing" from "damaged".
pub fn read_json(read: FileRead) -> (r: Loaded<Json>)
    ensures
        match read {
            FileRead::NotFound => r is Missing,
            FileRead::Failed(e) => r is Damaged && r->Damaged_0@ == "unreadable: "@ + e@,
            FileRead::Text(t) => match json_document(t@) {
                Ok(j) => r is Parsed && r->Parsed_0@ == j,
                Err(e) => r is Damaged && r->Damaged_0@ == "unparseable: "@ + e,
            },
        },
{
    match read {
        FileRead::NotFound => Loaded::Missing,
        FileRead::Failed(e) => {
            let mut s = copy_text("unreadable: ");
            s.append(e.as_str());
            Loaded::Damaged(s)
        },
        FileRead::Text(t) => match crate::json::parse(t.as_str()) {
            Ok(j) => Loaded::Parsed(j),
            Err(e) => {
                let mut s = copy_text("unparseable: ");
                s.append(e.as_str());
                Loaded::Damaged(s)
            },
        },
    }
}

/// Where a damaged file is moved so that the next write cannot destroy it.
pub open spec fn rescue_of(path: Seq<char>) -> Seq<char> {
    match extension(path) {
        Some(e) => with_extension(path, e + ".corrupt"@),
        None => with_extension(path, "corrupt"@),
    }
}

/// Where a damaged file is moved aside to.
pub fn rescue(path: &str) -> (r: String)
    ensures
        r@ == rescue_of(path@),
{
    match extension_of(path) {
        Some(e) => {
            let mut x = e;
            x.append(".corrupt");
            with_extension_of(path, x.as_str())
        },
        None => with_extension_of(path, "corrupt"),
    }
}

/// The staging path of a write.
pub open spec fn staging_of(target: Seq<char>, pid: u32, stamp: u128) -> Option<Seq<char>> {
    match parent(target) {
        Some(dir) => Some(
            join_path(
                dir,
                "."@ + (match file_name(target) {
                    Some(n) => n,
                    None => "file"@,
                }) + "."@ + dec(pid as nat) + "."@ + dec(stamp as nat) + ".tmp"@,
            ),
        ),
        None => None,
    }
}

/// The staging path of a write, in the directory of its target. Two processes
/// writing the same file must not share one, so the name carries the process
/// and the time.
pub fn staging_path(target: &str, pid: u32, stamp: u128) -> (r: Result<String, String>)
    ensures
        match staging_of(target@, pid, stamp) {
            Some(p) => r is Ok && r->Ok_0@ == p,
            None => r is Err && r->Err_0@ == target@ + " has no parent directory"@,
        },
{
    let dir = match parent_of(target) {
        Some(d) => d,
        None => {
            let mut e = copy_text(target);
            e.append(" has no parent directory");
            return Err(e);
        },
    };
    let mut name = copy_text(".");
    match file_name_of(target) {
        Some(n) => {
            name.append(n.as_str());
        },
        None => {
            name.append("file");
        },
    }
    name.append(".");
    push_dec(&mut name, pid as u128);
    name.append(".");
    push_dec(&mut name, stamp);
    name.append(".tmp");
    Ok(join_of(dir.as_str(), name.as_str()))
}

/// How many links are followed before a write gives up on resolving them, so
/// that a loop cannot spin it.
pub const LINK_HOPS: u32 = 8;

/// Where a link leads.
pub open spec fn link_leads(link: Seq<char>, to: Seq<char>) -> Seq<char> {
    if is_absolute(to) {
        to
    } else {
        match parent(link) {
            Some(dir) => join_path(dir, to),
            None => to,
        }
    }
}

/// Where a symbolic link at `link` that holds `to` leads: a relative one is
/// read from the link's own directory.
pub fn follow_link(link: &str, to: &str) -> (r: String)
    ensures
        r@ == link_leads(link@, to@),
{
    let c = chars_of(to);
    if c.len() > 0 && c[0] == '/' {
        return copy_text(to);
    }
    match parent_of(link) {
        Some(dir) => join_of(dir.as_str(), to),
        None => copy_text(to),
    }
}

/// The mode that a written file gets: that of the file it replaces, else the
/// conventional one of a new file.
pub fn final_mode(existing: Option<u32>) -> (r: u32)
    ensures
        r == (match existing {
            Some(m) => m,
            None => 0o644,
        }),
{
    match existing {
        Some(m) => m,
        None => 0o644,
    }
}

/// A damaged file stays beside its place, under its own name with `.corrupt` behind it.
pub proof fn a_damaged_file_keeps_its_name(dir: Seq<char>, stem: Seq<char>, ext: Seq<char>)
    requires
        dir.len() > 1,
        crate::path::bare(dir) == dir,
        stem.len() > 0,
        !stem.contains('/'),
        !ext.contains('/'),
        !ext.contains('.'),
        stem + seq!['.'] + ext != seq!['.', '.'],
    ensures
        rescue_of(join_path(dir, stem + seq!['.'] + ext)) == join_path(
            dir,
            stem + seq!['.'] + ext,
        ) + ".corrupt"@,
{
    let name = stem + seq!['.'] + ext;
    let other = ext + ".corrupt"@;
    crate::path::a_point_parts_a_name(dir, stem, ext, other);
    crate::path::a_point_parts_a_name(dir, stem, ext, ext);
    let p = join_path(dir, name);
    assert(name[0] == stem[0]);
    assert(stem.contains(stem[0]));
    assert(p == dir + seq!['/'] + name || p == dir + name);
    crate::path::a_joined_path_is_below(dir, name);
    assert(dir + seq!['/'] + stem + seq!['.'] + other =~= p + ".corrupt"@);
}

/// A write is staged beside its target, under a hidden name of its own that ends in `.tmp`.
pub proof fn a_write_is_staged_beside_its_target(
    dir: Seq<char>,
    name: Seq<char>,
    pid: u32,
    stamp: u128,
)
    requires
        dir.len() > 1,
        crate::path::bare(dir) == dir,
        name.len() > 0,
        !name.contains('/'),
        name != seq!['.'],
        name != seq!['.', '.'],
    ensures
        staging_of(join_path(dir, name), pid, stamp) == Some(
            join_path(
                dir,
                "."@ + name + "."@ + dec(pid as nat) + "."@ + dec(stamp as nat) + ".tmp"@,
            ),
        ),
{
    crate::path::a_joined_path_has_its_name(dir, name);
}

} // verus!
