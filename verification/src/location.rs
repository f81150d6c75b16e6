//! Positions in the source text: row, column and byte offset.
use vstd::prelude::*;

use crate::text::{decimal, push_char, push_decimal};

verus! {

/// The number of line feeds among the first `p` bytes of `src`: the zero-based row of position `p`.
pub open spec fn rows_before(src: Seq<u8>, p: int) -> nat
    decreases p,
{
    if p <= 0 {
        0
    } else {
        rows_before(src, p - 1) + if src[p - 1] == 10u8 { 1nat } else { 0nat }
    }
}

/// The offset at which the line holding position `p` begins: just after the last line feed before `p`,
/// or 0 on the first line.
pub open spec fn line_start(src: Seq<u8>, p: int) -> int
    decreases p,
{
    if p <= 0 {
        0
    } else if src[p - 1] == 10u8 {
        p
    } else {
        line_start(src, p - 1)
    }
}

/// A line holds at most as many line feeds as bytes, and a line starts at or before any position on it.
pub proof fn lemma_position_bounds(src: Seq<u8>, p: int)
    requires
        0 <= p,
    ensures
        rows_before(src, p) <= p,
        0 <= line_start(src, p) <= p,
    decreases p,
{
    if p > 0 {
        lemma_position_bounds(src, p - 1);
    }
}

/// A place in a source file.
#[derive(Debug)]
pub struct Location {
    /// Path to the source code
    pub filepath: String,
    /// Current row in the file
    pub row: usize,
    /// Current column of the line
    pub col: usize,
    /// Offset of the place from the start of the file
    pub idx: usize,
}

impl Clone for Location {
    fn clone(&self) -> (res: Self)
        ensures
            res == *self,
    {
        Location { filepath: self.filepath.clone(), row: self.row, col: self.col, idx: self.idx }
    }
}

impl Location {
    /// This location is byte offset `p` of source `src`, read from the file `path`.
    pub open spec fn describes(&self, path: Seq<char>, src: Seq<u8>, p: int) -> bool {
        &&& self.filepath@ == path
        &&& self.idx == p
        &&& self.row == rows_before(src, p)
        &&& self.col == p - line_start(src, p)
    }

    /// The text `path:row:col`, with row and column counted from one.
    pub open spec fn display_text(&self) -> Seq<char> {
        self.filepath@ + seq![':'] + decimal((self.row + 1) as nat) + seq![':'] + decimal(
            (self.col + 1) as nat,
        )
    }

    /// Renders the location as `path:row:col`, with row and column counted from one.
    pub fn display(&self) -> (res: String)
        ensures
            res@ == self.display_text(),
    {
        let mut s = self.filepath.clone();
        push_char(&mut s, ':');
        push_decimal(&mut s, self.row as u128 + 1);
        push_char(&mut s, ':');
        push_decimal(&mut s, self.col as u128 + 1);
        s
    }
}

} // verus!
