//! Verified core of an archive browser: the tree that a zip archive's
//! entry names describe, the listings drawn from it, and the rules that
//! decide which entries a deletion keeps.
use vstd::prelude::*;

pub mod archive;
pub mod compress;
pub mod date;
pub mod delete;
pub mod desktop;
pub mod error;
pub mod icon;
pub mod listing;
pub mod paint;
pub mod path;
pub mod text;

verus! {
} // verus!
