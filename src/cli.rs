//! The commands the program can be launched with.
use vstd::prelude::*;

use crate::text::{chars_of, lower_of, lowercase_chars, trim_chars, trimmed};

verus! {

/// What the program was asked to do.
#[derive(Debug)]
#[allow(inconsistent_fields)]
pub enum Mode {
    /// Bookmark a path.
    AddPath { path: String },
    /// Remember a directory (with a path) or go back to the remembered one.
    Pwd { path: Option<String> },
    /// Browse the bookmarks; with `edit`, mark them for deletion.
    Tui { edit: bool, input: Vec<String> },
}

/// The parsed command line.
#[derive(Debug)]
pub struct Args {
    mode: Mode,
}

impl Args {
    pub fn new(mode: Mode) -> (r: Self)
        ensures
            r.spec_mode() == mode,
    {
        Args { mode }
    }

    pub closed spec fn spec_mode(&self) -> Mode {
        self.mode
    }

    pub fn mode(&self) -> (r: &Mode)
        ensures
            *r == self.spec_mode(),
    {
        &self.mode
    }
}


/// An answer to "override?" declines when, trimmed and lowercased, it starts
/// with `n`.
pub open spec fn declines(answer: Seq<char>) -> bool {
    let l = lower_of(trimmed(answer));
    l.len() > 0 && l[0] == 'n'
}

/// Whether the answer to the override question declines it.
pub fn declines_override(answer: &str) -> (r: bool)
    ensures
        r == declines(answer@),
{
    let l = lowercase_chars(&trim_chars(&chars_of(answer)));
    l.len() > 0 && l[0] == 'n'
}

} // verus!
