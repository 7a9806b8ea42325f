//! Lines of a text held as a sequence of characters. Only a line feed
//! ends a line: a carriage return, U+2028 and the other Unicode line
//! separators are ordinary characters here.
use vstd::prelude::*;

verus! {

/// Whether a line begins at index `k` of `text`.
pub open spec fn starts_line(text: Seq<char>, k: int) -> bool {
    k == 0 || (0 < k <= text.len() && text[k - 1] == '\n')
}

/// Whether a line ends at index `k` of `text` (before its line feed).
pub open spec fn ends_line(text: Seq<char>, k: int) -> bool {
    k == text.len() || (0 <= k < text.len() && text[k] == '\n')
}

/// Whether no line feed stands in `text[lo..hi)`.
pub open spec fn no_newline_in(text: Seq<char>, lo: int, hi: int) -> bool {
    forall|j: int| lo <= j < hi ==> #[trigger] text[j] != '\n'
}

/// The index at which the line holding position `pos` begins.
pub open spec fn line_start(text: Seq<char>, pos: int) -> int
    decreases pos,
{
    if pos <= 0 {
        0
    } else if pos <= text.len() && text[pos - 1] == '\n' {
        pos
    } else {
        line_start(text, pos - 1)
    }
}

/// The index at which the line holding position `pos` ends, its line feed
/// excluded.
pub open spec fn line_end(text: Seq<char>, pos: int) -> int
    decreases text.len() - pos,
{
    if pos >= text.len() {
        text.len() as int
    } else if pos >= 0 && text[pos] == '\n' {
        pos
    } else {
        line_end(text, pos + 1)
    }
}

/// The characters of the line holding position `pos`.
pub open spec fn line_of(text: Seq<char>, pos: int) -> Seq<char> {
    text.subrange(line_start(text, pos), line_end(text, pos))
}

pub proof fn lemma_line_start(text: Seq<char>, pos: int)
    requires
        0 <= pos <= text.len(),
    ensures
        0 <= line_start(text, pos) <= pos,
        starts_line(text, line_start(text, pos)),
        no_newline_in(text, line_start(text, pos), pos),
    decreases pos,
{
    if pos > 0 && text[pos - 1] != '\n' {
        lemma_line_start(text, pos - 1);
    }
}

pub proof fn lemma_line_end(text: Seq<char>, pos: int)
    requires
        0 <= pos <= text.len(),
    ensures
        pos <= line_end(text, pos) <= text.len(),
        ends_line(text, line_end(text, pos)),
        no_newline_in(text, pos, line_end(text, pos)),
    decreases text.len() - pos,
{
    if pos < text.len() && text[pos] != '\n' {
        lemma_line_end(text, pos + 1);
    }
}

/// A line start is recognised by what it is: a start of line with no line
/// feed between it and the position.
pub proof fn lemma_line_start_is(text: Seq<char>, pos: int, k: int)
    requires
        0 <= k <= pos <= text.len(),
        starts_line(text, k),
        no_newline_in(text, k, pos),
    ensures
        line_start(text, pos) == k,
    decreases pos - k,
{
    if pos > k {
        assert(text[pos - 1] != '\n');
        lemma_line_start_is(text, pos - 1, k);
    }
}

/// A line end is recognised by what it is: an end of line with no line feed
/// between the position and it.
pub proof fn lemma_line_end_is(text: Seq<char>, pos: int, k: int)
    requires
        0 <= pos <= k <= text.len(),
        ends_line(text, k),
        no_newline_in(text, pos, k),
    ensures
        line_end(text, pos) == k,
    decreases k - pos,
{
    if pos < k {
        assert(text[pos] != '\n');
        lemma_line_end_is(text, pos + 1, k);
    }
}

/// Finds the bounds `[start, end)` of the line that holds position `pos`;
/// `end` excludes the line feed. Lines end at line feeds only.
pub fn line_bounds(text: &[char], pos: usize) -> (r: (usize, usize))
    requires
        pos <= text@.len(),
    ensures
        r.0 == line_start(text@, pos as int),
        r.1 == line_end(text@, pos as int),
        r.0 <= pos <= r.1 <= text@.len(),
{
    let mut s: usize = pos;
    while s > 0 && text[s - 1] != '\n'
        invariant
            s <= pos <= text@.len(),
            line_start(text@, s as int) == line_start(text@, pos as int),
        decreases s,
    {
        s = s - 1;
    }
    let mut e: usize = pos;
    while e < text.len() && text[e] != '\n'
        invariant
            pos <= e <= text@.len(),
            line_end(text@, e as int) == line_end(text@, pos as int),
        decreases text@.len() - e,
    {
        e = e + 1;
    }
    proof {
        lemma_line_start(text@, pos as int);
        lemma_line_end(text@, pos as int);
    }
    (s, e)
}

} // verus!
