//! A cursor position as a line and a column, the form in which it is
//! remembered for a file between sessions.
use vstd::prelude::*;

use crate::lines::{lemma_line_start, line_start};

verus! {

/// A zero-based line index and a zero-based column, in characters from the
/// start of the line.
#[derive(Clone, Copy, Debug, PartialEq, Eq, Structural)]
pub struct FilePosition {
    pub line: usize,
    pub column: usize,
}

/// The number of line feeds among the first `k` characters of `text`.
pub open spec fn newlines_before(text: Seq<char>, k: int) -> nat
    decreases k,
{
    if k <= 0 {
        0
    } else {
        newlines_before(text, k - 1) + if text[k - 1] == '\n' {
            1nat
        } else {
            0nat
        }
    }
}

proof fn lemma_newlines_before_bound(text: Seq<char>, k: int)
    requires
        0 <= k,
    ensures
        newlines_before(text, k) <= k,
    decreases k,
{
    if k > 0 {
        lemma_newlines_before_bound(text, k - 1);
    }
}

/// The line and column of position `pos` of `text`: the line is the number
/// of line feeds before `pos` (no other character ends a line), the column
/// the distance from the start of that line counted in characters (Unicode
/// scalar values), not in grapheme clusters.
pub fn position_at(text: &[char], pos: usize) -> (r: FilePosition)
    requires
        pos <= text@.len(),
    ensures
        r.line == newlines_before(text@, pos as int),
        r.column == pos - line_start(text@, pos as int),
{
    let mut line: usize = 0;
    let mut start: usize = 0;
    let mut k: usize = 0;
    while k < pos
        invariant
            k <= pos <= text@.len(),
            line == newlines_before(text@, k as int),
            start == line_start(text@, k as int),
        decreases pos - k,
    {
        proof {
            lemma_newlines_before_bound(text@, k as int);
        }
        if text[k] == '\n' {
            line = line + 1;
            start = k + 1;
        }
        k = k + 1;
    }
    proof {
        lemma_line_start(text@, pos as int);
    }
    FilePosition { line, column: pos - start }
}

} // verus!
