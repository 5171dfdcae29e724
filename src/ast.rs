//! The parsed form of a unified diff: a patch is a list of hunks, a hunk a
//! list of context, added and removed lines.
use vstd::prelude::*;

verus! {

/// A span of lines: `start` is 1-based, `count` the number of lines.
#[derive(Debug, Clone, Copy, PartialEq, Eq)]
pub struct Range {
    pub start: u64,
    pub count: u64,
}

/// One side of a patch header: a path and what follows it, if anything.
#[derive(Debug, Clone, PartialEq, Eq)]
pub struct File {
    pub path: String,
    pub meta: Option<String>,
}

/// One line of a hunk.
#[derive(Debug, Clone, PartialEq, Eq)]
pub enum Line {
    /// A line present unchanged before and after.
    Context(String),
    /// A line that the patch adds.
    Add(String),
    /// A line that the patch removes.
    Remove(String),
}

/// One contiguous edit.
#[derive(Debug, Clone, PartialEq, Eq)]
pub struct Hunk {
    pub old_range: Range,
    pub new_range: Range,
    pub range_hint: String,
    pub lines: Vec<Line>,
}

/// A patch to one file.
#[derive(Debug, Clone, PartialEq, Eq)]
pub struct Patch {
    pub old: File,
    pub new: File,
    pub hunks: Vec<Hunk>,
    /// Whether the patched text ends with a line terminator.
    pub end_newline: bool,
}

impl Line {
    pub open spec fn text(self) -> Seq<char> {
        match self {
            Line::Context(t) => t@,
            Line::Add(t) => t@,
            Line::Remove(t) => t@,
        }
    }

    /// Whether the line belongs to the text before the patch.
    pub open spec fn in_old(self) -> bool {
        !(self is Add)
    }

    /// Whether the line belongs to the text after the patch.
    pub open spec fn in_new(self) -> bool {
        !(self is Remove)
    }
}

/// The block of lines that a hunk expects: its context and removed lines.
pub open spec fn old_text(hl: Seq<Line>) -> Seq<Seq<char>>
    decreases hl.len(),
{
    if hl.len() == 0 {
        seq![]
    } else if hl.last().in_old() {
        old_text(hl.drop_last()).push(hl.last().text())
    } else {
        old_text(hl.drop_last())
    }
}

/// The block of lines that a hunk leaves: its context and added lines.
pub open spec fn new_text(hl: Seq<Line>) -> Seq<Seq<char>>
    decreases hl.len(),
{
    if hl.len() == 0 {
        seq![]
    } else if hl.last().in_new() {
        new_text(hl.drop_last()).push(hl.last().text())
    } else {
        new_text(hl.drop_last())
    }
}

} // verus!
