//! Which entries a deletion keeps, and the names of its temporary copy.
use vstd::prelude::*;

use crate::path::{file_name, file_name_of};
use crate::text::{
    chars_of, decimal, has_prefix, push_decimal, push_str, starts_with, string_of, trim_end,
    trim_end_chars,
};

verus! {

/// What the desktop application asks to delete from an archive.
pub struct DelOptions {
    /// The paths inside the archive to delete.
    pub files: Vec<String>,
    /// The archive.
    pub target: String,
    pub password: Option<String>,
}

/// What becomes of one entry of the archive being rewritten.
#[derive(PartialEq, Eq, Structural, Debug, Clone, Copy)]
pub enum EntryAction {
    /// Left out.
    Skip,
    /// Copied as a directory.
    AddDirectory,
    /// Copied as a file, with its contents.
    CopyFile,
}

/// Entry `name` goes when one of the paths to delete, without trailing
/// `/`, starts it; so do the `__MACOSX` and `.DS_Store` entries, as soon
/// as anything is to be deleted at all.
pub open spec fn is_deleted(name: Seq<char>, files: Seq<Seq<char>>) -> bool {
    exists|k: int|
        0 <= k < files.len() && (has_prefix(name, trim_end(#[trigger] files[k], '/')) || has_prefix(
            name,
            "__MACOSX"@,
        ) || has_prefix(name, ".DS_Store"@))
}

/// What becomes of the entry `name` when the paths `files` are deleted.
pub open spec fn action_of(name: Seq<char>, is_dir: bool, files: Seq<Seq<char>>) -> EntryAction {
    if is_deleted(name, files) {
        EntryAction::Skip
    } else if is_dir {
        EntryAction::AddDirectory
    } else {
        EntryAction::CopyFile
    }
}

/// What becomes of the entry `name` when the paths `files` are deleted.
pub fn entry_action(name: &str, is_dir: bool, files: &Vec<String>) -> (r: EntryAction)
    ensures
        r == action_of(name@, is_dir, files.deep_view()),
        (r == EntryAction::Skip) <==> ((exists|k: int|
            0 <= k < files@.len() && has_prefix(name@, trim_end(#[trigger] files.deep_view()[k], '/')))
            || (files@.len() > 0 && (has_prefix(name@, "__MACOSX"@) || has_prefix(name@, ".DS_Store"@)))),
        r == EntryAction::AddDirectory ==> is_dir,
        r == EntryAction::CopyFile ==> !is_dir,
{
    proof {
        lemma_skipped_exactly(name@, is_dir, files.deep_view());
    }
    let cs = chars_of(name);
    let macosx = chars_of("__MACOSX");
    let ds_store = chars_of(".DS_Store");
    let n: usize = files.len();
    let mut i: usize = 0;
    while i < n
        invariant
            n == files@.len(),
            i <= n,
            cs@ == name@,
            macosx@ == "__MACOSX"@,
            ds_store@ == ".DS_Store"@,
            forall|k: int|
                0 <= k < i ==> !(has_prefix(name@, trim_end(#[trigger] files.deep_view()[k], '/'))
                    || has_prefix(name@, "__MACOSX"@) || has_prefix(name@, ".DS_Store"@)),
        decreases n - i,
    {
        let to_del = chars_of(files[i].as_str());
        let to_del_str = trim_end_chars(to_del.as_slice(), '/');
        assert(files.deep_view()[i as int] == files@[i as int]@);
        if starts_with(cs.as_slice(), to_del_str.as_slice()) || starts_with(
            cs.as_slice(),
            macosx.as_slice(),
        ) || starts_with(cs.as_slice(), ds_store.as_slice()) {
            return EntryAction::Skip;
        }
        i = i + 1;
    }
    if is_dir {
        EntryAction::AddDirectory
    } else {
        EntryAction::CopyFile
    }
}

/// With nothing to delete, every entry is kept.
pub proof fn lemma_nothing_to_delete(name: Seq<char>, is_dir: bool)
    ensures
        action_of(name, is_dir, Seq::empty()) != EntryAction::Skip,
{
}

/// Every entry under a path being deleted goes, with or without the
/// path's trailing `/`.
pub proof fn lemma_deleted_under(name: Seq<char>, is_dir: bool, files: Seq<Seq<char>>, k: int)
    requires
        0 <= k < files.len(),
        has_prefix(name, trim_end(files[k], '/')),
    ensures
        action_of(name, is_dir, files) == EntryAction::Skip,
{
}

/// An entry is left out exactly when one of the paths to delete, without
/// its trailing `/`, starts its name, or, when anything is to be deleted
/// at all, its name starts with `__MACOSX` or `.DS_Store`. A path that
/// only ends the name, as `a.txt` ends `docs/a.txt`, leaves it in.
pub proof fn lemma_skipped_exactly(name: Seq<char>, is_dir: bool, files: Seq<Seq<char>>)
    ensures
        (action_of(name, is_dir, files) == EntryAction::Skip) <==> ((exists|k: int|
            0 <= k < files.len() && has_prefix(name, trim_end(#[trigger] files[k], '/'))) || (
        files.len() > 0 && (has_prefix(name, "__MACOSX"@) || has_prefix(name, ".DS_Store"@)))),
{
    if files.len() > 0 && (has_prefix(name, "__MACOSX"@) || has_prefix(name, ".DS_Store"@)) {
        assert(files[0] == files[0]);
        assert(exists|k: int|
            0 <= k < files.len() && (has_prefix(name, trim_end(#[trigger] files[k], '/')) || has_prefix(
                name,
                "__MACOSX"@,
            ) || has_prefix(name, ".DS_Store"@)));
        assert(is_deleted(name, files));
    }
    if exists|k: int| 0 <= k < files.len() && has_prefix(name, trim_end(#[trigger] files[k], '/')) {
        let k = choose|k: int| 0 <= k < files.len() && has_prefix(name, trim_end(#[trigger] files[k], '/'));
        assert(is_deleted(name, files)) by {
            assert(has_prefix(name, trim_end(files[k], '/')));
        }
    }
}

/// The name of the temporary copy that the desktop application writes:
/// `.tmp_` and the time in milliseconds.
pub fn get_tmp_name(millis: u128) -> (r: String)
    ensures
        r@ == ".tmp_"@ + decimal(millis as nat),
{
    let mut s = string_of(".tmp_");
    push_decimal(&mut s, millis);
    s
}

/// The name of the temporary copy that the command line writes: `.tmp_`
/// and the archive's file name; none when the archive's path has no file
/// name.
pub fn tmp_name_for_target(target: &str) -> (r: Option<String>)
    ensures
        match r {
            Some(s) => file_name_of(target@) matches Some(n) && s@ == ".tmp_"@ + n,
            None => file_name_of(target@) is None,
        },
{
    match file_name(target) {
        Some(n) => {
            let mut s = string_of(".tmp_");
            push_str(&mut s, n.as_str());
            Some(s)
        },
        None => None,
    }
}

} // verus!
