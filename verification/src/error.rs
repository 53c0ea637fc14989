//! The errors of the archive commands.
use vstd::prelude::*;

use crate::text::{push_str, string_of};

verus! {

/// What `format!("{:?}", Path::new(p))` writes for the path `p`: the
/// quoted and escaped form that `Debug` gives a path.
pub uninterp spec fn path_debug_text(p: Seq<char>) -> Seq<char>;

/// `format!("{:?}", Path::new(p))` (std's `Debug` for `Path`): its result
/// is named, not spelled out.
#[verifier::external_body]
pub(crate) fn path_debug(p: &str) -> (r: String)
    ensures
        r@ == path_debug_text(p@),
{
    format!("{:?}", std::path::Path::new(p))
}

/// An error of an archive command, naming the path at fault.
pub enum ZipError {
    /// The path does not exist.
    FileNotFound(String),
    /// The path exists already and may not be overwritten.
    FileExist(String),
}

/// The message of an error: the path as `Debug` prints it, then what is
/// wrong with it.
pub open spec fn error_message(e: ZipError) -> Seq<char> {
    match e {
        ZipError::FileNotFound(p) => path_debug_text(p@) + " can not be found"@,
        ZipError::FileExist(p) => path_debug_text(p@) + " already exists"@,
    }
}

impl ZipError {
    /// The message of the error.
    pub fn message(&self) -> (r: String)
        ensures
            r@ == error_message(*self),
    {
        match self {
            ZipError::FileNotFound(file_path) => {
                let mut s = path_debug(file_path.as_str());
                push_str(&mut s, " can not be found");
                s
            },
            ZipError::FileExist(file_path) => {
                let mut s = path_debug(file_path.as_str());
                push_str(&mut s, " already exists");
                s
            },
        }
    }
}

} // verus!
