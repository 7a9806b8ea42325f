//! The boundary locator: where to break one over-long line.
use vstd::prelude::*;

use crate::chars::{char_is_whitespace, is_whitespace};

verus! {

/// The index of the last whitespace character among the first `k`
/// characters of `line`, if any.
pub open spec fn last_ws_before(line: Seq<char>, k: int) -> Option<int>
    decreases k,
{
    if k <= 0 {
        None
    } else if is_whitespace(line[k - 1]) {
        Some(k - 1)
    } else {
        last_ws_before(line, k - 1)
    }
}

/// The index of the first whitespace character of `line` at or after index
/// `k`, if any.
pub open spec fn first_ws_from(line: Seq<char>, k: int) -> Option<int>
    decreases line.len() - k,
{
    if k >= line.len() || k < 0 {
        None
    } else if is_whitespace(line[k]) {
        Some(k)
    } else {
        first_ws_from(line, k + 1)
    }
}

/// The break point of `line` under `width`: the last whitespace character
/// at or before index `width` (the line feed that replaces it leaves at
/// most `width` characters before it); failing that, the first whitespace
/// character strictly after index `width`; `None` when the line holds no
/// whitespace at all.
pub open spec fn break_point(line: Seq<char>, width: nat) -> Option<int> {
    let k = if width as int + 1 <= line.len() { width as int + 1 } else { line.len() as int };
    match last_ws_before(line, k) {
        Some(i) => Some(i),
        None => first_ws_from(line, width as int + 1),
    }
}

/// Whether some character of `line` in `[lo, hi)` is whitespace.
pub open spec fn has_ws_in(line: Seq<char>, lo: int, hi: int) -> bool {
    exists|j: int| lo <= j < hi && 0 <= j < line.len() && #[trigger] is_whitespace(line[j])
}

pub proof fn lemma_last_ws_before(line: Seq<char>, k: int)
    requires
        0 <= k <= line.len(),
    ensures
        match last_ws_before(line, k) {
            Some(i) => 0 <= i < k && is_whitespace(line[i]) && !has_ws_in(line, i + 1, k),
            None => !has_ws_in(line, 0, k),
        },
    decreases k,
{
    if k > 0 {
        lemma_last_ws_before(line, k - 1);
    }
}

pub proof fn lemma_first_ws_from(line: Seq<char>, k: int)
    requires
        0 <= k,
    ensures
        match first_ws_from(line, k) {
            Some(i) => k <= i < line.len() && is_whitespace(line[i]) && !has_ws_in(line, k, i),
            None => !has_ws_in(line, k, line.len() as int),
        },
    decreases line.len() - k,
{
    if k < line.len() {
        lemma_first_ws_from(line, k + 1);
    }
}

/// The break point, described by what it is rather than how it is found.
pub proof fn lemma_break_point(line: Seq<char>, width: nat)
    ensures
        match break_point(line, width) {
            Some(i) => 0 <= i < line.len() && is_whitespace(line[i]) && ((i <= width
                && !has_ws_in(line, i + 1, width as int + 1)) || (i > width && !has_ws_in(line, 0, i))),
            None => !has_ws_in(line, 0, line.len() as int),
        },
{
    let k = if width as int + 1 <= line.len() { width as int + 1 } else { line.len() as int };
    lemma_last_ws_before(line, k);
    lemma_first_ws_from(line, width as int + 1);
}

/// Finds the break point of `text[start..end]` under `width`, as an index
/// relative to `start`. Stops reading at the first whitespace after index
/// `width`.
pub(crate) fn locate_in(text: &[char], start: usize, end: usize, width: usize) -> (r: Option<
    usize,
>)
    requires
        start <= end <= text@.len(),
    ensures
        r matches Some(i) ==> break_point(text@.subrange(start as int, end as int), width as nat)
            == Some(i as int),
        r is None ==> break_point(text@.subrange(start as int, end as int), width as nat) is None,
{
    let ghost line = text@.subrange(start as int, end as int);
    let n = end - start;
    let mut last: Option<usize> = None;
    let mut j: usize = 0;
    while j < n && j <= width
        invariant
            start <= end <= text@.len(),
            n == end - start,
            line == text@.subrange(start as int, end as int),
            j <= n,
            j <= width as int + 1,
            match last {
                Some(i) => last_ws_before(line, j as int) == Some(i as int),
                None => last_ws_before(line, j as int) is None,
            },
        decreases n - j,
    {
        if char_is_whitespace(text[start + j]) {
            last = Some(j);
        }
        j = j + 1;
    }
    if last.is_some() {
        return last;
    }
    assert(first_ws_from(line, width as int + 1) == first_ws_from(line, j as int)) by {
        if j < width as int + 1 {
            assert(j == n);
        }
    }
    while j < n
        invariant
            start <= end <= text@.len(),
            n == end - start,
            line == text@.subrange(start as int, end as int),
            j <= n,
            first_ws_from(line, width as int + 1) == first_ws_from(line, j as int),
            break_point(line, width as nat) == first_ws_from(line, width as int + 1),
        decreases n - j,
    {
        if char_is_whitespace(text[start + j]) {
            return Some(j);
        }
        j = j + 1;
    }
    None
}

/// Finds where to break `line` so that it fits in `width_limit` characters:
/// the index of the last whitespace character at or before index
/// `width_limit`, so that at most `width_limit` characters stand before the
/// break; where there is none, the index of the first whitespace character
/// after it. `None` when the line holds no whitespace.
pub fn locate(line: &[char], width_limit: usize) -> (r: Option<usize>)
    ensures
        r matches Some(i) ==> break_point(line@, width_limit as nat) == Some(i as int),
        r is None ==> break_point(line@, width_limit as nat) is None,
        match r {
            Some(i) => i < line@.len() && is_whitespace(line@[i as int]) && (i <= width_limit
                ==> !has_ws_in(line@, i + 1, width_limit as int + 1)) && (i > width_limit
                ==> !has_ws_in(line@, 0, i as int)),
            None => !has_ws_in(line@, 0, line@.len() as int),
        },
{
    let r = locate_in(line, 0, line.len(), width_limit);
    proof {
        assert(line@.subrange(0, line@.len() as int) =~= line@);
        lemma_break_point(line@, width_limit as nat);
    }
    r
}

} // verus!
