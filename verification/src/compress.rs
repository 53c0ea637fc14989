//! The names under which files and directories go into a new archive,
//! and the choices around writing and extracting an archive.
use vstd::prelude::*;

use crate::error::ZipError;
use crate::paint::{green, paint_green, painted};
use crate::path::{file_name, file_name_of};
use crate::text::{
    chars_of, decimal, has_prefix, push_chars, push_decimal, push_str, starts_with,
    string_from_chars, string_of,
};

verus! {

/// `name` without one leading `/` (`strip_prefix("/").unwrap_or(name)`).
pub open spec fn stripped_name(name: Seq<char>) -> Seq<char> {
    if name.len() > 0 && name[0] == '/' {
        name.drop_first()
    } else {
        name
    }
}

/// `name` without one leading `/`.
pub fn strip_name(name: &str) -> (r: String)
    ensures
        r@ == stripped_name(name@),
{
    let cs = chars_of(name);
    if cs.len() > 0 && cs[0] == '/' {
        string_from_chars(cs.as_slice().split_at(1).1)
    } else {
        string_from_chars(cs.as_slice())
    }
}

/// What a path met while walking a directory adds to the archive.
pub enum WalkAction {
    /// Nothing: the path is the walked directory itself.
    Nothing,
    /// A directory entry of this name.
    AddDirectory(String),
    /// A file entry of this name, with the file's contents.
    AddFile(String),
}

/// The name inside the archive of `path`, met while walking under `base`:
/// `path` without `base` and without one leading `/`.
pub open spec fn walk_name(path: Seq<char>, base: Seq<char>) -> Seq<char> {
    stripped_name(path.skip(base.len() as int))
}

/// What the path `path` (a directory when `is_dir`) adds when the walk
/// started under `base`; none when `path` does not start with `base`.
pub fn walk_action(path: &str, base: &str, is_dir: bool) -> (r: Option<WalkAction>)
    ensures
        match r {
            None => !has_prefix(path@, base@),
            Some(WalkAction::Nothing) => has_prefix(path@, base@) && walk_name(path@, base@).len()
                == 0,
            Some(WalkAction::AddDirectory(n)) => has_prefix(path@, base@) && is_dir && walk_name(
                path@,
                base@,
            ).len() > 0 && n@ == walk_name(path@, base@).push('/'),
            Some(WalkAction::AddFile(n)) => has_prefix(path@, base@) && !is_dir && walk_name(
                path@,
                base@,
            ).len() > 0 && n@ == walk_name(path@, base@),
        },
{
    let p = chars_of(path);
    let b = chars_of(base);
    if !starts_with(p.as_slice(), b.as_slice()) {
        return None;
    }
    let rest = string_from_chars(p.as_slice().split_at(b.len()).1);
    let name = strip_name(rest.as_str());
    let name_chars = chars_of(name.as_str());
    if name_chars.len() == 0 {
        Some(WalkAction::Nothing)
    } else if is_dir {
        let mut d = string_from_chars(name_chars.as_slice());
        push_chars(&mut d, &['/']);
        Some(WalkAction::AddDirectory(d))
    } else {
        Some(WalkAction::AddFile(name))
    }
}

/// The name a new archive gets when none is given: `new_archive_N.zip`
/// for the first `N` not yet taken.
pub fn get_default_file_name(count: u32) -> (r: String)
    ensures
        r@ == "new_archive_"@ + decimal(count as nat) + ".zip"@,
{
    let mut s = string_of("new_archive_");
    push_decimal(&mut s, count as u128);
    push_str(&mut s, ".zip");
    s
}

/// What to do with the destination `dst` of a new archive: when it
/// exists, remove it first if overwriting is allowed (`Ok(true)`), else
/// fail; when it does not exist, nothing (`Ok(false)`).
pub fn check_destination(dst: &str, exists: bool, overwrite: bool) -> (r: Result<bool, ZipError>)
    ensures
        match r {
            Ok(remove) => remove == (exists && overwrite) && (exists ==> overwrite),
            Err(ZipError::FileExist(p)) => exists && !overwrite && p@ == dst@,
            Err(_) => false,
        },
{
    if exists {
        if overwrite {
            Ok(true)
        } else {
            Err(ZipError::FileExist(string_of(dst)))
        }
    } else {
        Ok(false)
    }
}

/// Where and whether an archive is extracted.
pub struct ExtractPlan {
    /// The directory to extract into.
    pub output: String,
    /// Whether the entries are written: a password is not supported, and
    /// with one nothing is extracted.
    pub extract: bool,
}

/// Where and whether to extract: into `output`, or the current directory
/// `./`; only without a password.
pub fn extract_plan(output: Option<String>, password: &Option<String>) -> (r: ExtractPlan)
    ensures
        r.output@ == match output {
            Some(o) => o@,
            None => "./"@,
        },
        r.extract == (password is None),
{
    let output_path = match output {
        Some(output) => output,
        None => string_of("./"),
    };
    ExtractPlan { output: output_path, extract: password.is_none() }
}

/// The message after extracting into `path`: `Extracted to ` and the path
/// in green, all of it in green again.
pub fn extracted_message(path: &str) -> (r: String)
    ensures
        exists|inner: Seq<char>|
            painted(path@, inner, green()) && #[trigger] painted(
                "Extracted to "@ + inner,
                r@,
                green(),
            ),
{
    let inner = paint_green(path);
    let mut text = string_of("Extracted to ");
    push_str(&mut text, inner.as_str());
    let r = paint_green(text.as_str());
    assert(painted(path@, inner@, green()) && painted("Extracted to "@ + inner@, r@, green()));
    r
}

/// The parent of the path `p`, as std's `Path::parent` gives it: the path
/// without its last component; none for the empty path or one that ends
/// in the root.
pub uninterp spec fn parent_text(p: Seq<char>) -> Option<Seq<char>>;

/// `Path::new(p).parent()` of std: its result is named, not spelled out.
/// The parent of a path held in a `str` is a prefix of it that ends at a
/// separator, so its text converts without loss.
#[verifier::external_body]
fn path_parent(p: &str) -> (r: Option<String>)
    ensures
        match r {
            Some(q) => parent_text(p@) == Some(q@),
            None => parent_text(p@) is None,
        },
{
    match std::path::Path::new(p).parent() {
        Some(q) => Some(q.to_string_lossy().into_owned()),
        None => None,
    }
}

/// What a path given to pack is on disk.
pub enum PathKind {
    /// It does not exist.
    Missing,
    /// It is not a directory.
    File,
    /// A directory, with its canonical path.
    Dir(String),
}

/// What packing one of the given paths does.
pub enum PackStep {
    /// Walk the directory at the canonical path `dir`, naming what is met
    /// relative to `base` (see [`walk_action`]).
    Walk { dir: String, base: String },
    /// Add the file under this name.
    AddFile(String),
    /// Stop with this error; the archive written so far is removed.
    Fail(ZipError),
}

/// What packing the path `path` does, given what it is on disk. A file
/// goes in under its file name; a directory is walked, its entries named
/// relative to its parent when `dir` asks for the directory itself to go
/// in, else relative to the directory; a missing path is an error. None
/// when a file has no file name, or a directory that must go in itself
/// has no parent.
pub fn pack_step(path: &str, kind: PathKind, dir: bool) -> (r: Option<PackStep>)
    ensures
        match kind {
            PathKind::Missing => r matches Some(PackStep::Fail(ZipError::FileNotFound(p)))
                && p@ == path@,
            PathKind::File => match file_name_of(path@) {
                Some(n) => r matches Some(PackStep::AddFile(a)) && a@ == stripped_name(n),
                None => r is None,
            },
            PathKind::Dir(c) => if dir {
                match parent_text(c@) {
                    Some(b) => r matches Some(PackStep::Walk { dir: d, base: b2 }) && d@ == c@
                        && b2@ == b,
                    None => r is None,
                }
            } else {
                r matches Some(PackStep::Walk { dir: d, base: b2 }) && d@ == c@ && b2@ == c@
            },
        },
{
    match kind {
        PathKind::Missing => Some(PackStep::Fail(ZipError::FileNotFound(string_of(path)))),
        PathKind::File => match file_name(path) {
            Some(n) => Some(PackStep::AddFile(strip_name(n.as_str()))),
            None => None,
        },
        PathKind::Dir(c) => {
            if dir {
                match path_parent(c.as_str()) {
                    Some(b) => Some(PackStep::Walk { dir: c, base: b }),
                    None => None,
                }
            } else {
                let base = string_of(c.as_str());
                Some(PackStep::Walk { dir: c, base })
            }
        },
    }
}

} // verus!
