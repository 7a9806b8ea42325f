//! What a reflow pass guarantees, stated over the spec functions of the
//! other modules and proved.
use vstd::prelude::*;

use crate::chars::is_whitespace;
use crate::edit::{apply_edit, map_pos, shift_request};
use crate::lines::{
    ends_line, lemma_line_end, lemma_line_end_is, lemma_line_start, lemma_line_start_is, line_end,
    line_of, line_start, no_newline_in, starts_line,
};
use crate::locate::{break_point, has_ws_in, lemma_break_point};
use crate::pass::initial_requests;
use crate::request::{collect_spec, lemma_skip_ws, line_request, request_at, WrapRequest};

verus! {

/// The characters of `apply_edit(text, q, indent)`, piece by piece.
proof fn lemma_apply_edit_index(text: Seq<char>, q: WrapRequest, indent: Seq<char>)
    requires
        q.break_offset < q.skip_to_offset <= text.len(),
    ensures
        ({
            let t2 = apply_edit(text, q, indent);
            let b = q.break_offset as int;
            let s = q.skip_to_offset as int;
            let n = indent.len() + 1;
            &&& t2.len() == text.len() - (s - b) + n
            &&& forall|j: int| 0 <= j < b ==> #[trigger] t2[j] == text[j]
            &&& t2[b] == '\n'
            &&& forall|j: int| 0 <= j < indent.len() ==> #[trigger] t2[b + 1 + j] == indent[j]
            &&& forall|j: int| s <= j < text.len() ==> #[trigger] t2[j - (s - b) + n] == text[j]
        }),
{
    let t2 = apply_edit(text, q, indent);
    let b = q.break_offset as int;
    let s = q.skip_to_offset as int;
    let n = indent.len() + 1;
    let pre = text.subrange(0, b) + seq!['\n'];
    assert forall|j: int| 0 <= j < indent.len() implies #[trigger] t2[b + 1 + j] == indent[j] by {
        assert((pre + indent)[b + 1 + j] == indent[j]);
    }
    assert forall|j: int| s <= j < text.len() implies #[trigger] t2[j - (s - b) + n]
        == text[j] by {
        assert(t2[j - (s - b) + n] == text.subrange(s, text.len() as int)[j - s]);
    }
}

/// No line start lies strictly between the line start of `pos` and `pos`.
proof fn lemma_line_start_max(text: Seq<char>, pos: int, k: int)
    requires
        0 <= k <= pos <= text.len(),
        starts_line(text, k),
    ensures
        k <= line_start(text, pos),
    decreases pos - k,
{
    if pos > k && text[pos - 1] != '\n' {
        lemma_line_start_max(text, pos - 1, k);
    }
}

/// No line end lies strictly between `pos` and the line end of `pos`.
proof fn lemma_line_end_min(text: Seq<char>, pos: int, k: int)
    requires
        0 <= pos <= k <= text.len(),
        ends_line(text, k),
    ensures
        line_end(text, pos) <= k,
    decreases k - pos,
{
    if pos < k && text[pos] != '\n' {
        lemma_line_end_min(text, pos + 1, k);
    }
}

/// The request for a line depends on its characters alone; where the line
/// begins only moves the offsets.
proof fn lemma_line_request_moves(start1: int, start2: int, line: Seq<char>, width: nat)
    requires
        0 <= start1,
        0 <= start2,
        start1 + line.len() <= usize::MAX,
        start2 + line.len() <= usize::MAX,
    ensures
        match line_request(start1, line, width) {
            None => line_request(start2, line, width) is None,
            Some(q) => line_request(start2, line, width) == Some(
                WrapRequest {
                    break_offset: (q.break_offset - start1 + start2) as usize,
                    skip_to_offset: (q.skip_to_offset - start1 + start2) as usize,
                },
            ),
        },
{
    lemma_break_point(line, width);
    if let Some(i) = break_point(line, width) {
        lemma_skip_ws(line, i + 1);
    }
}

/// A cursor whose line has at most `width` characters gets no request.
pub proof fn lemma_fitting_line_untouched(text: Seq<char>, pos: int, width: nat)
    requires
        0 <= pos <= text.len(),
        line_of(text, pos).len() <= width,
    ensures
        request_at(text, pos, width) is None,
{
}

/// A pass over cursors that all stand on lines of at most `width`
/// characters makes no edit.
pub proof fn lemma_fitting_lines_no_edit(
    text: Seq<char>,
    cursors: Seq<usize>,
    width: nat,
    enabled: bool,
)
    requires
        forall|k: int| 0 <= k < cursors.len() ==> #[trigger] cursors[k] <= text.len(),
        forall|k: int|
            0 <= k < cursors.len() ==> (#[trigger] line_of(text, cursors[k] as int)).len()
                <= width,
    ensures
        initial_requests(text, cursors, width, enabled) == Seq::<WrapRequest>::empty(),
    decreases cursors.len(),
{
    if cursors.len() > 0 {
        let init = cursors.drop_last();
        assert forall|k: int| 0 <= k < init.len() implies (#[trigger] line_of(
            text,
            init[k] as int,
        )).len() <= width by {
            assert(init[k] == cursors[k]);
        }
        assert forall|k: int| 0 <= k < init.len() implies #[trigger] init[k] <= text.len() by {
            assert(init[k] == cursors[k]);
        }
        lemma_fitting_lines_no_edit(text, init, width, true);
        assert(line_of(text, cursors[cursors.len() - 1] as int).len() <= width);
    }
}

/// Where whitespace stands at or before index `width` of an over-long
/// line, the break point is the last such whitespace character.
pub proof fn lemma_prefers_last_within_width(line: Seq<char>, width: nat)
    requires
        0 < width < line.len(),
        has_ws_in(line, 0, width as int + 1),
    ensures
        break_point(line, width) matches Some(i) && i <= width && is_whitespace(line[i])
            && !has_ws_in(line, i + 1, width as int + 1),
{
    lemma_break_point(line, width);
}

/// Where the first whitespace character of a line stands at index `f`
/// beyond `width`, the break point is `f`, and the first line that
/// results, of `f` characters, is longer than `width`.
pub proof fn lemma_overflow_fallback(line: Seq<char>, width: nat, f: int)
    requires
        0 < width < f < line.len(),
        is_whitespace(line[f]),
        !has_ws_in(line, 0, f),
    ensures
        break_point(line, width) == Some(f),
        line.subrange(0, f).len() > width,
{
    lemma_break_point(line, width);
    if let Some(i) = break_point(line, width) {
        assert(!(i < f));
        assert(!(i > f));
    }
}

/// A cursor whose line holds no whitespace gets no request.
pub proof fn lemma_no_whitespace_untouched(text: Seq<char>, pos: int, width: nat)
    requires
        0 <= pos <= text.len(),
        !has_ws_in(line_of(text, pos), 0, line_of(text, pos).len() as int),
    ensures
        request_at(text, pos, width) is None,
{
    lemma_break_point(line_of(text, pos), width);
}

/// A request takes in the whole whitespace run after its break point: all
/// of it is whitespace, and it stops at the line's end or at a character
/// that is not whitespace.
pub proof fn lemma_whitespace_run_consumed(text: Seq<char>, pos: int, width: nat)
    requires
        0 <= pos <= text.len(),
        text.len() <= usize::MAX,
    ensures
        request_at(text, pos, width) matches Some(q) ==> {
            &&& line_start(text, pos) <= q.break_offset < q.skip_to_offset <= line_end(text, pos)
            &&& is_whitespace(text[q.break_offset as int])
            &&& forall|j: int|
                q.break_offset < j < q.skip_to_offset ==> #[trigger] is_whitespace(text[j])
            &&& q.skip_to_offset < line_end(text, pos) ==> !is_whitespace(
                text[q.skip_to_offset as int],
            )
        },
{
    let line = line_of(text, pos);
    let s = line_start(text, pos);
    lemma_line_start(text, pos);
    lemma_line_end(text, pos);
    lemma_break_point(line, width);
    if let Some(q) = request_at(text, pos, width) {
        let i = break_point(line, width).unwrap();
        lemma_skip_ws(line, i + 1);
        assert(line[i] == text[s + i]);
        assert forall|j: int| q.break_offset < j < q.skip_to_offset implies #[trigger] is_whitespace(
            text[j],
        ) by {
            assert(line[j - s] == text[j]);
        }
        if q.skip_to_offset < line_end(text, pos) {
            assert(line[q.skip_to_offset - s] == text[q.skip_to_offset as int]);
        }
    }
}


/// A pass that wrapped the line of a single cursor, run again at once on
/// the result, makes no further edit: neither on the first line of the
/// split, where the cursor stayed before the break point, nor on the
/// continuation line, where the cursor moved onto it, provided that line
/// (its indentation, free of line feeds, and the rest of the old line) now
/// fits in `width`.
pub proof fn lemma_second_pass_no_edit(
    text: Seq<char>,
    pos: int,
    width: nat,
    indent: Seq<char>,
    enabled: bool,
)
    requires
        0 <= pos <= text.len(),
        text.len() + indent.len() + 1 <= usize::MAX,
        request_at(text, pos, width) matches Some(q) ==> (pos < q.break_offset || (no_newline_in(
            indent,
            0,
            indent.len() as int,
        ) && indent.len() + (line_end(text, pos) - q.skip_to_offset) <= width)),
    ensures
        request_at(text, pos, width) matches Some(q) ==> request_at(
            apply_edit(text, q, indent),
            map_pos(pos, q, (indent.len() + 1) as nat),
            width,
        ) is None,
        request_at(text, pos, width) matches Some(q) ==> initial_requests(
            apply_edit(text, q, indent),
            seq![map_pos(pos, q, (indent.len() + 1) as nat) as usize],
            width,
            enabled,
        ) == Seq::<WrapRequest>::empty(),
{
    lemma_second_pass_line(text, pos, width, indent);
    lemma_whitespace_run_consumed(text, pos, width);
    lemma_line_end(text, pos);
    lemma_line_start(text, pos);
    if let Some(q) = request_at(text, pos, width) {
        let t2 = apply_edit(text, q, indent);
        let c2 = map_pos(pos, q, (indent.len() + 1) as nat);
        lemma_apply_edit_index(text, q, indent);
        assert(c2 <= t2.len());
        assert(t2.len() <= usize::MAX);
        lemma_collect_one(t2, c2 as usize, width);
    }
}

/// The request of one cursor is what a pass over it alone collects.
proof fn lemma_collect_one(text: Seq<char>, c: usize, width: nat)
    ensures
        collect_spec(text, seq![c], width) == opt_seq(request_at(text, c as int, width)),
{
    assert(seq![c].drop_last() =~= Seq::<usize>::empty());
    assert(collect_spec(text, Seq::<usize>::empty(), width) == Seq::<WrapRequest>::empty());
    match request_at(text, c as int, width) {
        Some(q) => {
            assert(Seq::<WrapRequest>::empty().push(q) =~= seq![q]);
        },
        None => {},
    }
}

proof fn lemma_second_pass_line(text: Seq<char>, pos: int, width: nat, indent: Seq<char>)
    requires
        0 <= pos <= text.len(),
        text.len() + indent.len() + 1 <= usize::MAX,
        request_at(text, pos, width) matches Some(q) ==> (pos < q.break_offset || (no_newline_in(
            indent,
            0,
            indent.len() as int,
        ) && indent.len() + (line_end(text, pos) - q.skip_to_offset) <= width)),
    ensures
        request_at(text, pos, width) matches Some(q) ==> request_at(
            apply_edit(text, q, indent),
            map_pos(pos, q, (indent.len() + 1) as nat),
            width,
        ) is None,
        request_at(text, pos, width) matches Some(q) ==> 0 <= map_pos(pos, q, (indent.len() + 1) as nat) <= apply_edit(text, q, indent).len(),
{
    lemma_whitespace_run_consumed(text, pos, width);
    if let Some(q) = request_at(text, pos, width) {
        let t2 = apply_edit(text, q, indent);
        let b = q.break_offset as int;
        let s = q.skip_to_offset as int;
        let n = indent.len() + 1;
        let ls = line_start(text, pos);
        let le = line_end(text, pos);
        let line = line_of(text, pos);
        lemma_line_start(text, pos);
        lemma_line_end(text, pos);
        lemma_apply_edit_index(text, q, indent);
        lemma_break_point(line, width);
        let i = break_point(line, width).unwrap();
        assert(b == ls + i);
        if pos < b {
            assert(map_pos(pos, q, n as nat) == pos);
            if ls > 0 {
                assert(t2[ls - 1] == text[ls - 1]);
            }
            assert forall|j: int| ls <= j < pos implies #[trigger] t2[j] != '\n' by {
                assert(t2[j] == text[j]);
            }
            lemma_line_start_is(t2, pos, ls);
            assert forall|j: int| pos <= j < b implies #[trigger] t2[j] != '\n' by {
                assert(t2[j] == text[j]);
            }
            lemma_line_end_is(t2, pos, b);
            let seg = line_of(t2, pos);
            assert(seg =~= line.subrange(0, i));
            if i > width {
                lemma_break_point(seg, width);
                if let Some(j) = break_point(seg, width) {
                    assert(seg[j] == line[j]);
                    assert(has_ws_in(line, 0, i));
                }
            }
        } else {
            let d = n - (s - b);
            let c2 = map_pos(pos, q, n as nat);
            assert(b + n <= c2 <= le + d);
            assert forall|j: int| b + 1 <= j < c2 implies #[trigger] t2[j] != '\n' by {
                if j < b + n {
                    assert(t2[b + 1 + (j - b - 1)] == indent[j - b - 1]);
                    assert(indent[j - b - 1] != '\n');
                } else {
                    let j0 = j - d;
                    assert(t2[j0 - (s - b) + n] == text[j0]);
                }
            }
            lemma_line_start_is(t2, c2, b + 1);
            assert forall|j: int| c2 <= j < le + d implies #[trigger] t2[j] != '\n' by {
                let j0 = j - d;
                assert(t2[j0 - (s - b) + n] == text[j0]);
            }
            if le < text.len() {
                assert(t2[le - (s - b) + n] == text[le]);
            }
            lemma_line_end_is(t2, c2, le + d);
        }
    }
}


/// The requests of an optional request: one or none.
pub open spec fn opt_seq(o: Option<WrapRequest>) -> Seq<WrapRequest> {
    match o {
        Some(q) => seq![q],
        None => Seq::empty(),
    }
}

/// The requests of two cursors, in cursor order.
proof fn lemma_collect_two(text: Seq<char>, c1: usize, c2: usize, width: nat)
    ensures
        collect_spec(text, seq![c1, c2], width) == opt_seq(request_at(text, c1 as int, width))
            + opt_seq(request_at(text, c2 as int, width)),
{
    let first = opt_seq(request_at(text, c1 as int, width));
    assert(seq![c1, c2].drop_last() =~= seq![c1]);
    assert(seq![c1].drop_last() =~= Seq::<usize>::empty());
    assert(collect_spec(text, Seq::<usize>::empty(), width) == Seq::<WrapRequest>::empty());
    assert(collect_spec(text, seq![c1], width) =~= first);
    match request_at(text, c2 as int, width) {
        Some(q2) => {
            assert(first.push(q2) =~= first + seq![q2]);
        },
        None => {
            assert(first =~= first + Seq::<WrapRequest>::empty());
        },
    }
}

/// The request of a cursor on a line before the edited one is untouched
/// by the edit.
proof fn lemma_other_line_before(
    text: Seq<char>,
    q1: WrapRequest,
    p1: int,
    p2: int,
    width: nat,
    indent: Seq<char>,
)
    requires
        0 <= p1 <= text.len(),
        0 <= p2 <= text.len(),
        line_start(text, p2) < line_start(text, p1),
        text.len() + indent.len() + 1 <= usize::MAX,
        request_at(text, p1, width) == Some(q1),
    ensures
        ({
            let n = (indent.len() + 1) as nat;
            let after = request_at(apply_edit(text, q1, indent), map_pos(p2, q1, n), width);
            match request_at(text, p2, width) {
                None => after is None,
                Some(q2) => after is Some && shift_request(q2, q1, n) == after,
            }
        }),
{
    let n = indent.len() + 1;
    let t2 = apply_edit(text, q1, indent);
    let ls1 = line_start(text, p1);
    let ls2 = line_start(text, p2);
    let le2 = line_end(text, p2);
    lemma_line_start(text, p1);
    lemma_line_end(text, p1);
    lemma_line_start(text, p2);
    lemma_line_end(text, p2);
    lemma_whitespace_run_consumed(text, p1, width);
    lemma_whitespace_run_consumed(text, p2, width);
    lemma_apply_edit_index(text, q1, indent);
    if p2 >= ls1 {
        lemma_line_start_max(text, p2, ls1);
    }
    lemma_line_end_min(text, p2, ls1 - 1);
    assert(map_pos(p2, q1, n as nat) == p2);
    if ls2 > 0 {
        assert(t2[ls2 - 1] == text[ls2 - 1]);
    }
    assert forall|j: int| ls2 <= j < p2 implies #[trigger] t2[j] != '\n' by {
        assert(t2[j] == text[j]);
    }
    lemma_line_start_is(t2, p2, ls2);
    assert forall|j: int| p2 <= j < le2 implies #[trigger] t2[j] != '\n' by {
        assert(t2[j] == text[j]);
    }
    assert(t2[le2] == text[le2]);
    lemma_line_end_is(t2, p2, le2);
    assert(line_of(t2, p2) =~= line_of(text, p2));
}

/// The request of a cursor on a line after the edited one moves with the
/// text after the edit and is otherwise the same.
proof fn lemma_other_line_after(
    text: Seq<char>,
    q1: WrapRequest,
    p1: int,
    p2: int,
    width: nat,
    indent: Seq<char>,
)
    requires
        0 <= p1 <= text.len(),
        0 <= p2 <= text.len(),
        line_start(text, p1) < line_start(text, p2),
        text.len() + indent.len() + 1 <= usize::MAX,
        request_at(text, p1, width) == Some(q1),
    ensures
        ({
            let n = (indent.len() + 1) as nat;
            let after = request_at(apply_edit(text, q1, indent), map_pos(p2, q1, n), width);
            match request_at(text, p2, width) {
                None => after is None,
                Some(q2) => after is Some && shift_request(q2, q1, n) == after,
            }
        }),
{
    let n = indent.len() + 1;
    let t2 = apply_edit(text, q1, indent);
    let b = q1.break_offset as int;
    let s = q1.skip_to_offset as int;
    let ls2 = line_start(text, p2);
    let le2 = line_end(text, p2);
    let line2 = line_of(text, p2);
    lemma_line_start(text, p1);
    lemma_line_end(text, p1);
    lemma_line_start(text, p2);
    lemma_line_end(text, p2);
    lemma_whitespace_run_consumed(text, p1, width);
    lemma_whitespace_run_consumed(text, p2, width);
    lemma_apply_edit_index(text, q1, indent);
    if p1 >= ls2 {
        lemma_line_start_max(text, p1, ls2);
    }
    lemma_line_end_min(text, p1, ls2 - 1);
    let d = n - (s - b);
    let p2n = map_pos(p2, q1, n as nat);
    assert(p2n == p2 + d);
    assert(t2[(ls2 - 1) - (s - b) + n] == text[ls2 - 1]);
    assert forall|j: int| ls2 + d <= j < p2n implies #[trigger] t2[j] != '\n' by {
        assert(t2[(j - d) - (s - b) + n] == text[j - d]);
    }
    lemma_line_start_is(t2, p2n, ls2 + d);
    assert forall|j: int| p2n <= j < le2 + d implies #[trigger] t2[j] != '\n' by {
        assert(t2[(j - d) - (s - b) + n] == text[j - d]);
    }
    if le2 < text.len() {
        assert(t2[le2 - (s - b) + n] == text[le2]);
    }
    lemma_line_end_is(t2, p2n, le2 + d);
    assert forall|j: int| 0 <= j < line2.len() implies #[trigger] line_of(t2, p2n)[j]
        == line2[j] by {
        assert(t2[(ls2 + j) - (s - b) + n] == text[ls2 + j]);
    }
    assert(line_of(t2, p2n) =~= line2);
    lemma_line_request_moves(ls2, ls2 + d, line2, width);
}

/// Two cursors on two different lines are wrapped independently in one
/// pass: each gets the request it would get alone, and once the first
/// request is carried out, the second, mapped through that edit, is exactly
/// the request that its cursor gets on the edited text. A cursor whose
/// line needs no break gets none, before or after the other's edit. Where
/// both lines are broken, with indentations `indent` and `indent2`, the
/// final text is the original with both whitespace runs replaced at their
/// original places.
pub proof fn lemma_cursors_independent(
    text: Seq<char>,
    c1: usize,
    c2: usize,
    width: nat,
    indent: Seq<char>,
    indent2: Seq<char>,
)
    requires
        c1 <= text.len(),
        c2 <= text.len(),
        line_start(text, c1 as int) != line_start(text, c2 as int),
        text.len() + indent.len() + 1 <= usize::MAX,
    ensures
        collect_spec(text, seq![c1, c2], width) == opt_seq(request_at(text, c1 as int, width))
            + opt_seq(request_at(text, c2 as int, width)),
        request_at(text, c1 as int, width) matches Some(q1) ==> ({
            let n = (indent.len() + 1) as nat;
            let after = request_at(apply_edit(text, q1, indent), map_pos(c2 as int, q1, n), width);
            match request_at(text, c2 as int, width) {
                None => after is None,
                Some(q2) => after is Some && shift_request(q2, q1, n) == after,
            }
        }),
        request_at(text, c1 as int, width) matches Some(q1) ==> request_at(text, c2 as int, width) matches Some(q2) ==> ({
            let n = (indent.len() + 1) as nat;
            shift_request(q2, q1, n) matches Some(q2n) && apply_edit(
                apply_edit(text, q1, indent),
                q2n,
                indent2,
            ) == if q1.break_offset < q2.break_offset {
                apply_two(text, q1, indent, q2, indent2)
            } else {
                apply_two(text, q2, indent2, q1, indent)
            }
        }),
{
    lemma_collect_two(text, c1, c2, width);
    lemma_two_lines_final_text(text, c1 as int, c2 as int, width, indent, indent2);
    if let Some(q1) = request_at(text, c1 as int, width) {
        if line_start(text, c2 as int) < line_start(text, c1 as int) {
            lemma_other_line_before(text, q1, c1 as int, c2 as int, width, indent);
        } else {
            lemma_other_line_after(text, q1, c1 as int, c2 as int, width, indent);
        }
    }
}


/// The text after two disjoint edits, `a` before `b`, each carried out
/// against the original offsets.
pub open spec fn apply_two(
    text: Seq<char>,
    a: WrapRequest,
    ia: Seq<char>,
    b: WrapRequest,
    ib: Seq<char>,
) -> Seq<char> {
    text.subrange(0, a.break_offset as int) + seq!['\n'] + ia + text.subrange(
        a.skip_to_offset as int,
        b.break_offset as int,
    ) + seq!['\n'] + ib + text.subrange(b.skip_to_offset as int, text.len() as int)
}

/// Carrying out `a`, then `b` mapped through it, gives the text in which
/// both runs were replaced at their original places.
proof fn lemma_edit_then_later(
    text: Seq<char>,
    a: WrapRequest,
    ia: Seq<char>,
    b: WrapRequest,
    ib: Seq<char>,
)
    requires
        a.break_offset < a.skip_to_offset <= b.break_offset < b.skip_to_offset <= text.len(),
        text.len() + ia.len() + 1 <= usize::MAX,
    ensures
        shift_request(b, a, (ia.len() + 1) as nat) matches Some(b2) && apply_edit(
            apply_edit(text, a, ia),
            b2,
            ib,
        ) == apply_two(text, a, ia, b, ib),
{
    let n = (ia.len() + 1) as nat;
    let t1 = apply_edit(text, a, ia);
    let b2 = shift_request(b, a, n).unwrap();
    let d = n - (a.skip_to_offset - a.break_offset);
    assert(b2.break_offset == b.break_offset + d);
    assert(b2.skip_to_offset == b.skip_to_offset + d);
    lemma_apply_edit_index(text, a, ia);
    let lhs = apply_edit(t1, b2, ib);
    let rhs = apply_two(text, a, ia, b, ib);
    let head = text.subrange(0, a.break_offset as int) + seq!['\n'] + ia;
    assert(t1.subrange(0, b2.break_offset as int) =~= head + text.subrange(
        a.skip_to_offset as int,
        b.break_offset as int,
    )) by {
        assert forall|j: int| 0 <= j < b2.break_offset implies #[trigger] t1.subrange(
            0,
            b2.break_offset as int,
        )[j] == (head + text.subrange(a.skip_to_offset as int, b.break_offset as int))[j] by {
            if j >= head.len() {
                let j0 = j - d;
                assert(t1[j0 - (a.skip_to_offset - a.break_offset) + n] == text[j0]);
            }
        }
    }
    assert(t1.subrange(b2.skip_to_offset as int, t1.len() as int) =~= text.subrange(
        b.skip_to_offset as int,
        text.len() as int,
    )) by {
        assert forall|j: int| 0 <= j < text.len() - b.skip_to_offset implies #[trigger] t1.subrange(
            b2.skip_to_offset as int,
            t1.len() as int,
        )[j] == text.subrange(b.skip_to_offset as int, text.len() as int)[j] by {
            let j0 = b.skip_to_offset + j;
            assert(t1[j0 - (a.skip_to_offset - a.break_offset) + n] == text[j0]);
        }
    }
    assert(lhs =~= rhs);
}

/// Carrying out `a`, then `b` that lies before it and stays where it was,
/// gives the text in which both runs were replaced at their original
/// places.
proof fn lemma_edit_then_earlier(
    text: Seq<char>,
    a: WrapRequest,
    ia: Seq<char>,
    b: WrapRequest,
    ib: Seq<char>,
)
    requires
        b.break_offset < b.skip_to_offset <= a.break_offset < a.skip_to_offset <= text.len(),
    ensures
        shift_request(b, a, (ia.len() + 1) as nat) == Some(b) && apply_edit(
            apply_edit(text, a, ia),
            b,
            ib,
        ) == apply_two(text, b, ib, a, ia),
{
    let t1 = apply_edit(text, a, ia);
    lemma_apply_edit_index(text, a, ia);
    assert(t1.subrange(0, b.break_offset as int) =~= text.subrange(0, b.break_offset as int));
    let tail = text.subrange(b.skip_to_offset as int, a.break_offset as int) + seq!['\n'] + ia
        + text.subrange(a.skip_to_offset as int, text.len() as int);
    assert(t1.subrange(b.skip_to_offset as int, t1.len() as int) =~= tail);
    assert(apply_edit(t1, b, ib) =~= apply_two(text, b, ib, a, ia));
}


proof fn lemma_two_lines_final_text(
    text: Seq<char>,
    p1: int,
    p2: int,
    width: nat,
    indent: Seq<char>,
    indent2: Seq<char>,
)
    requires
        0 <= p1 <= text.len(),
        0 <= p2 <= text.len(),
        line_start(text, p1) != line_start(text, p2),
        text.len() + indent.len() + 1 <= usize::MAX,
    ensures
        request_at(text, p1, width) matches Some(q1) ==> request_at(text, p2, width) matches Some(q2) ==> ({
            let n = (indent.len() + 1) as nat;
            shift_request(q2, q1, n) matches Some(q2n) && apply_edit(
                apply_edit(text, q1, indent),
                q2n,
                indent2,
            ) == if q1.break_offset < q2.break_offset {
                apply_two(text, q1, indent, q2, indent2)
            } else {
                apply_two(text, q2, indent2, q1, indent)
            }
        }),
{
    if let Some(q1) = request_at(text, p1, width) {
        if let Some(q2) = request_at(text, p2, width) {
            let ls1 = line_start(text, p1);
            let ls2 = line_start(text, p2);
            lemma_line_start(text, p1);
            lemma_line_end(text, p1);
            lemma_line_start(text, p2);
            lemma_line_end(text, p2);
            lemma_whitespace_run_consumed(text, p1, width);
            lemma_whitespace_run_consumed(text, p2, width);
            if ls2 < ls1 {
                if p2 >= ls1 {
                    lemma_line_start_max(text, p2, ls1);
                }
                lemma_line_end_min(text, p2, ls1 - 1);
                lemma_edit_then_earlier(text, q1, indent, q2, indent2);
            } else {
                if p1 >= ls2 {
                    lemma_line_start_max(text, p1, ls2);
                }
                lemma_line_end_min(text, p1, ls2 - 1);
                lemma_edit_then_later(text, q1, indent, q2, indent2);
            }
        }
    }
}


/// A cursor whose line has its first whitespace character at index `f`
/// beyond `width` gets its line broken there, and in the edited text the
/// first line of the split is the line's first `f` characters, longer than
/// `width`.
pub proof fn lemma_overflow_first_line(
    text: Seq<char>,
    pos: int,
    width: nat,
    indent: Seq<char>,
    f: int,
)
    requires
        0 <= pos <= text.len(),
        text.len() <= usize::MAX,
        0 < width < f < line_of(text, pos).len(),
        is_whitespace(line_of(text, pos)[f]),
        !has_ws_in(line_of(text, pos), 0, f),
    ensures
        request_at(text, pos, width) matches Some(q) && q.break_offset == line_start(text, pos)
            + f && line_of(apply_edit(text, q, indent), line_start(text, pos)) == line_of(
            text,
            pos,
        ).subrange(0, f) && line_of(apply_edit(text, q, indent), line_start(text, pos)).len()
            > width,
{
    let line = line_of(text, pos);
    let ls = line_start(text, pos);
    lemma_overflow_fallback(line, width, f);
    lemma_line_start(text, pos);
    lemma_line_end(text, pos);
    lemma_whitespace_run_consumed(text, pos, width);
    let q = request_at(text, pos, width).unwrap();
    let b = q.break_offset as int;
    let t2 = apply_edit(text, q, indent);
    lemma_apply_edit_index(text, q, indent);
    if ls > 0 {
        assert(t2[ls - 1] == text[ls - 1]);
    }
    lemma_line_start_is(t2, ls, ls);
    assert forall|j: int| ls <= j < b implies #[trigger] t2[j] != '\n' by {
        assert(t2[j] == text[j]);
    }
    lemma_line_end_is(t2, ls, b);
    assert(line_of(t2, ls) =~= line.subrange(0, f));
}

} // verus!
