//! The terminal multiplexer pane that the program runs in.
use vstd::prelude::*;

use std::marker::PhantomData;

use crate::text::{
    chars_of, chars_view, decimal_value, is_u32_text, parse_u32, pieces_of, split_on, string_of,
    trim_chars, trimmed, unsigned_digits,
};

verus! {

/// A pane whose position is not known yet.
#[derive(Debug)]
pub struct Uninit;

/// A pane whose position is known.
#[derive(Debug)]
pub struct Initialized;

/// A multiplexer pane, identified by its window and pane index.
#[derive(Debug)]
pub struct Tmux<State> {
    pane_index: u32,
    window_index: u32,
    state: PhantomData<State>,
}

impl<State> Tmux<State> {
    pub closed spec fn spec_pane_index(&self) -> u32 {
        self.pane_index
    }

    pub closed spec fn spec_window_index(&self) -> u32 {
        self.window_index
    }

    pub fn pane_index(&self) -> (r: u32)
        ensures
            r == self.spec_pane_index(),
    {
        self.pane_index
    }

    pub fn window_index(&self) -> (r: u32)
        ensures
            r == self.spec_window_index(),
    {
        self.window_index
    }
}

impl Tmux<Uninit> {
    pub fn new() -> (r: Self)
        ensures
            r.spec_pane_index() == 0,
            r.spec_window_index() == 0,
    {
        Tmux { pane_index: 0, window_index: 0, state: PhantomData }
    }

    /// The same pane, now that its window and pane index are known.
    pub fn located(self, window_index: u32, pane_index: u32) -> (r: Tmux<Initialized>)
        ensures
            r.spec_pane_index() == pane_index,
            r.spec_window_index() == window_index,
    {
        Tmux { pane_index, window_index, state: PhantomData }
    }
}


/// The window and pane index that `tmux display -p "#{window_index} #{pane_index}"`
/// prints: the first two space-separated fields of the trimmed output, each
/// the text of a `u32`.
pub open spec fn pane_position_of(out: Seq<char>) -> Option<(u32, u32)> {
    let f = pieces_of(trimmed(out), ' ');
    if f.len() >= 2 && is_u32_text(f[0]) && is_u32_text(f[1]) {
        Some(
            (
                decimal_value(unsigned_digits(f[0])) as u32,
                decimal_value(unsigned_digits(f[1])) as u32,
            ),
        )
    } else {
        None
    }
}

/// The value that `tmux showenv NAME` prints as `NAME=value`: what follows
/// the last `=`, trimmed.
pub open spec fn shown_value(out: Seq<char>) -> Seq<char> {
    trimmed(pieces_of(out, '=').last())
}

/// Reads the window and pane index out of the multiplexer's answer.
pub fn parse_pane_position(out: &str) -> (r: Option<(u32, u32)>)
    ensures
        r == pane_position_of(out@),
{
    let fields = split_on(&trim_chars(&chars_of(out)), ' ');
    proof {
        assert(fields@.len() >= 2 ==> chars_view(fields@)[0] == fields@[0]@ && chars_view(
            fields@,
        )[1] == fields@[1]@);
    }
    if fields.len() < 2 {
        return None;
    }
    let window = match parse_u32(&fields[0]) {
        Some(v) => v,
        None => {
            return None;
        },
    };
    let pane = match parse_u32(&fields[1]) {
        Some(v) => v,
        None => {
            return None;
        },
    };
    Some((window, pane))
}

/// Reads the remembered directory out of the multiplexer's answer.
pub fn saved_pwd_of(out: &str) -> (r: String)
    ensures
        r@ == shown_value(out@),
{
    let pieces = split_on(&chars_of(out), '=');
    let last = pieces.len() - 1;
    proof {
        assert(chars_view(pieces@)[last as int] == pieces@[last as int]@);
    }
    string_of(&trim_chars(&pieces[last]))
}

} // verus!
