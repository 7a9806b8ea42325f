//! Wrap requests: which whitespace run of which line becomes a line break.
use vstd::prelude::*;

use crate::chars::{char_is_whitespace, is_whitespace};
use crate::lines::{line_bounds, line_end, line_of, line_start};
use crate::locate::{break_point, has_ws_in, lemma_break_point, locate_in};

verus! {

/// A request to replace `text[break_offset..skip_to_offset)`, a run of
/// whitespace, with a line break and the continuation line's indentation.
/// `break_offset` is the whitespace character chosen as break point and
/// `skip_to_offset` the first character after the run (or the line's end).
#[derive(Clone, Copy, Debug, PartialEq, Eq, Structural)]
pub struct WrapRequest {
    pub break_offset: usize,
    pub skip_to_offset: usize,
}

/// The first index at or after `k` whose character is not whitespace, or
/// the length of `line` when there is none.
pub open spec fn skip_ws(line: Seq<char>, k: int) -> int
    decreases line.len() - k,
{
    if k >= line.len() {
        line.len() as int
    } else if k >= 0 && is_whitespace(line[k]) {
        skip_ws(line, k + 1)
    } else {
        k
    }
}

/// The request for a line that begins at `start`, holds `line`, and is
/// measured against `width`: none when the line fits or holds no
/// whitespace.
pub open spec fn line_request(start: int, line: Seq<char>, width: nat) -> Option<WrapRequest> {
    if width == 0 || line.len() <= width {
        None
    } else {
        match break_point(line, width) {
            None => None,
            Some(i) => Some(
                WrapRequest {
                    break_offset: (start + i) as usize,
                    skip_to_offset: (start + skip_ws(line, i + 1)) as usize,
                },
            ),
        }
    }
}

/// The request made for a cursor at `pos` of `text` under `width`.
pub open spec fn request_at(text: Seq<char>, pos: int, width: nat) -> Option<WrapRequest> {
    line_request(line_start(text, pos), line_of(text, pos), width)
}

pub proof fn lemma_skip_ws(line: Seq<char>, k: int)
    requires
        0 <= k <= line.len(),
    ensures
        k <= skip_ws(line, k) <= line.len(),
        forall|j: int| k <= j < skip_ws(line, k) ==> #[trigger] is_whitespace(line[j]),
        skip_ws(line, k) < line.len() ==> !is_whitespace(line[skip_ws(line, k)]),
    decreases line.len() - k,
{
    if k < line.len() && is_whitespace(line[k]) {
        lemma_skip_ws(line, k + 1);
    }
}

/// Computes the wrap request for a cursor at `cursor`: `None` when its line
/// has at most `width_limit` characters, when `width_limit` is zero, or when
/// the line holds no whitespace. Otherwise the break point is the one
/// `locate` gives, and the request takes in the whole whitespace run that
/// follows it, up to the next other character or the line's end.
pub fn request_for_cursor(text: &[char], cursor: usize, width_limit: usize) -> (r: Option<
    WrapRequest,
>)
    requires
        cursor <= text@.len(),
    ensures
        r == request_at(text@, cursor as int, width_limit as nat),
        line_of(text@, cursor as int).len() <= width_limit ==> r is None,
        width_limit == 0 ==> r is None,
        !has_ws_in(line_of(text@, cursor as int), 0, line_of(text@, cursor as int).len() as int)
            ==> r is None,
        r matches Some(q) ==> {
            &&& line_start(text@, cursor as int) <= q.break_offset
            &&& q.break_offset < q.skip_to_offset
            &&& q.skip_to_offset <= line_end(text@, cursor as int)
            &&& q.skip_to_offset <= text@.len()
            &&& is_whitespace(text@[q.break_offset as int])
            &&& forall|j: int|
                q.break_offset < j < q.skip_to_offset ==> #[trigger] is_whitespace(text@[j])
            &&& q.skip_to_offset < line_end(text@, cursor as int) ==> !is_whitespace(
                text@[q.skip_to_offset as int],
            )
        },
{
    let (start, end) = line_bounds(text, cursor);
    let ghost line = text@.subrange(start as int, end as int);
    proof {
        lemma_break_point(line, width_limit as nat);
    }
    if width_limit == 0 || end - start <= width_limit {
        return None;
    }
    match locate_in(text, start, end, width_limit) {
        None => None,
        Some(i) => {
            let break_offset = start + i;
            let mut next: usize = break_offset + 1;
            proof {
                lemma_skip_ws(line, i + 1);
            }
            while next < end && char_is_whitespace(text[next])
                invariant
                    start <= break_offset < next <= end <= text@.len(),
                    line == text@.subrange(start as int, end as int),
                    i + 1 <= next - start <= line.len(),
                    break_offset == start + i,
                    skip_ws(line, next - start) == skip_ws(line, i + 1),
                decreases end - next,
            {
                next = next + 1;
            }
            proof {
                lemma_skip_ws(line, i + 1);
                assert forall|j: int| break_offset < j < next implies #[trigger] is_whitespace(
                    text@[j],
                ) by {
                    assert(line[j - start] == text@[j]);
                }
            }
            Some(WrapRequest { break_offset, skip_to_offset: next })
        },
    }
}

/// The requests that a pass makes for `cursors`, in cursor order, against
/// one snapshot of `text`: one for each cursor whose line needs breaking.
pub open spec fn collect_spec(text: Seq<char>, cursors: Seq<usize>, width: nat) -> Seq<
    WrapRequest,
>
    decreases cursors.len(),
{
    if cursors.len() == 0 {
        Seq::empty()
    } else {
        let rest = collect_spec(text, cursors.drop_last(), width);
        match request_at(text, cursors.last() as int, width) {
            Some(q) => rest.push(q),
            None => rest,
        }
    }
}

/// Collects the wrap requests of all `cursors` against one snapshot of
/// `text`, before anything is changed.
pub fn collect_wraps(text: &[char], cursors: &[usize], width_limit: usize) -> (r: Vec<
    WrapRequest,
>)
    requires
        forall|k: int| 0 <= k < cursors@.len() ==> #[trigger] cursors@[k] <= text@.len(),
    ensures
        r@ == collect_spec(text@, cursors@, width_limit as nat),
        forall|k: int|
            0 <= k < r@.len() ==> #[trigger] r@[k].break_offset < r@[k].skip_to_offset
                <= text@.len(),
{
    let mut out: Vec<WrapRequest> = Vec::new();
    let mut k: usize = 0;
    while k < cursors.len()
        invariant
            k <= cursors@.len(),
            forall|m: int| 0 <= m < cursors@.len() ==> #[trigger] cursors@[m] <= text@.len(),
            out@ == collect_spec(text@, cursors@.subrange(0, k as int), width_limit as nat),
            forall|m: int|
                0 <= m < out@.len() ==> #[trigger] out@[m].break_offset < out@[m].skip_to_offset
                    <= text@.len(),
        decreases cursors@.len() - k,
    {
        let q = request_for_cursor(text, cursors[k], width_limit);
        proof {
            let next = cursors@.subrange(0, k + 1);
            assert(next.drop_last() =~= cursors@.subrange(0, k as int));
        }
        match q {
            Some(q) => out.push(q),
            None => {},
        }
        k = k + 1;
    }
    proof {
        assert(cursors@.subrange(0, cursors@.len() as int) =~= cursors@);
    }
    out
}

} // verus!
