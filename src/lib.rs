//! Applies parsed unified-diff patches to text, either strictly at the line
//! numbers that each hunk declares or by searching for each hunk's old block.
use vstd::prelude::*;

pub mod ast;
pub mod lines;
pub mod applier;
pub mod lemmas;

pub use applier::{apply, find_replace_apply, ApplyError};
pub use ast::{File, Hunk, Line, Patch, Range};

verus! {

} // verus!
