//! Carrying out a wrap request on the text, and keeping other positions
//! valid across it.
use vstd::prelude::*;

use crate::request::WrapRequest;

verus! {

/// Whether `q` names a non-empty range that lies within a text of length
/// `len`.
pub open spec fn fits_in(q: WrapRequest, len: nat) -> bool {
    q.break_offset < q.skip_to_offset <= len
}

/// `text` after `q` is carried out with `indent`: the range
/// `[break_offset, skip_to_offset)` becomes a line feed followed by
/// `indent`.
pub open spec fn apply_edit(text: Seq<char>, q: WrapRequest, indent: Seq<char>) -> Seq<char> {
    text.subrange(0, q.break_offset as int) + seq!['\n'] + indent + text.subrange(
        q.skip_to_offset as int,
        text.len() as int,
    )
}

/// Where position `pos` goes when `q` is carried out with a replacement of
/// `inserted` characters: a position before the range stays, one at or
/// after its end moves by the change in length, and one inside the range
/// goes to the end of the replacement.
pub open spec fn map_pos(pos: int, q: WrapRequest, inserted: nat) -> int {
    if pos < q.break_offset {
        pos
    } else if pos >= q.skip_to_offset {
        pos - (q.skip_to_offset - q.break_offset) + inserted
    } else {
        q.break_offset + inserted
    }
}

/// Maps `pos` through the edit that carries out `q` with a replacement of
/// `inserted_len` characters.
pub fn map_position(pos: usize, q: WrapRequest, inserted_len: usize) -> (r: usize)
    requires
        q.break_offset < q.skip_to_offset,
        pos + inserted_len <= usize::MAX,
        q.break_offset + inserted_len <= usize::MAX,
    ensures
        r == map_pos(pos as int, q, inserted_len as nat),
{
    if pos < q.break_offset {
        pos
    } else if pos >= q.skip_to_offset {
        (pos - q.skip_to_offset) + q.break_offset + inserted_len
    } else {
        q.break_offset + inserted_len
    }
}

/// Replaces `text[break_offset..skip_to_offset)` with a line feed followed
/// by `indent`.
pub fn apply_wrap(text: &mut Vec<char>, q: WrapRequest, indent: &[char])
    requires
        fits_in(q, old(text)@.len()),
    ensures
        final(text)@ == apply_edit(old(text)@, q, indent@),
{
    let ghost t = text@;
    let mut out: Vec<char> = Vec::new();
    let mut k: usize = 0;
    while k < q.break_offset
        invariant
            text@ == t,
            fits_in(q, t.len()),
            k <= q.break_offset,
            out@ == t.subrange(0, k as int),
        decreases q.break_offset - k,
    {
        out.push(text[k]);
        proof {
            assert(t.subrange(0, k + 1) =~= t.subrange(0, k as int).push(t[k as int]));
        }
        k = k + 1;
    }
    out.push('\n');
    let ghost head = out@;
    let mut m: usize = 0;
    while m < indent.len()
        invariant
            m <= indent@.len(),
            out@ == head + indent@.subrange(0, m as int),
        decreases indent@.len() - m,
    {
        out.push(indent[m]);
        proof {
            assert(indent@.subrange(0, m + 1) =~= indent@.subrange(0, m as int).push(
                indent@[m as int],
            ));
        }
        m = m + 1;
    }
    proof {
        assert(indent@.subrange(0, indent@.len() as int) =~= indent@);
    }
    let ghost mid = out@;
    k = q.skip_to_offset;
    while k < text.len()
        invariant
            text@ == t,
            fits_in(q, t.len()),
            q.skip_to_offset <= k <= t.len(),
            out@ == mid + t.subrange(q.skip_to_offset as int, k as int),
        decreases t.len() - k,
    {
        out.push(text[k]);
        proof {
            assert(t.subrange(q.skip_to_offset as int, k + 1) =~= t.subrange(
                q.skip_to_offset as int,
                k as int,
            ).push(t[k as int]));
        }
        k = k + 1;
    }
    proof {
        assert(out@ =~= apply_edit(t, q, indent@));
    }
    *text = out;
}

/// Where a pending request goes once `a` has been carried out with a
/// replacement of `inserted` characters: unchanged when it lies before
/// `a`, shifted when it lies after `a`, and dropped when it overlaps `a`
/// (a duplicate included), since its whitespace run is already gone.
pub open spec fn shift_request(p: WrapRequest, a: WrapRequest, inserted: nat) -> Option<
    WrapRequest,
> {
    if p.skip_to_offset <= a.break_offset {
        Some(p)
    } else if p.break_offset >= a.skip_to_offset {
        Some(
            WrapRequest {
                break_offset: map_pos(p.break_offset as int, a, inserted) as usize,
                skip_to_offset: map_pos(p.skip_to_offset as int, a, inserted) as usize,
            },
        )
    } else {
        None
    }
}

/// The pending requests `ps` once `a` has been carried out, in order.
pub open spec fn remap_spec(ps: Seq<WrapRequest>, a: WrapRequest, inserted: nat) -> Seq<
    WrapRequest,
>
    decreases ps.len(),
{
    if ps.len() == 0 {
        Seq::empty()
    } else {
        let rest = remap_spec(ps.drop_last(), a, inserted);
        match shift_request(ps.last(), a, inserted) {
            Some(p) => rest.push(p),
            None => rest,
        }
    }
}

/// Whether each request of `ps` names a range within a text of length
/// `len`.
pub open spec fn all_fit(ps: Seq<WrapRequest>, len: nat) -> bool {
    forall|k: int| 0 <= k < ps.len() ==> fits_in(#[trigger] ps[k], len)
}

pub proof fn lemma_remap_fits(ps: Seq<WrapRequest>, a: WrapRequest, inserted: nat, len: nat)
    requires
        all_fit(ps, len),
        fits_in(a, len),
        len - (a.skip_to_offset - a.break_offset) + inserted <= usize::MAX,
    ensures
        all_fit(remap_spec(ps, a, inserted), (len - (a.skip_to_offset - a.break_offset)
            + inserted) as nat),
    decreases ps.len(),
{
    if ps.len() > 0 {
        let init = ps.drop_last();
        assert forall|k: int| 0 <= k < init.len() implies fits_in(#[trigger] init[k], len) by {
            assert(init[k] == ps[k]);
        }
        lemma_remap_fits(init, a, inserted, len);
        assert(fits_in(ps[ps.len() - 1], len));
        let rest = remap_spec(init, a, inserted);
        let nl = (len - (a.skip_to_offset - a.break_offset) + inserted) as nat;
        match shift_request(ps.last(), a, inserted) {
            Some(p) => {
                assert(fits_in(p, nl));
                assert forall|k: int| 0 <= k < rest.len() + 1 implies fits_in(
                    #[trigger] rest.push(p)[k],
                    nl,
                ) by {
                    if k < rest.len() {
                        assert(rest.push(p)[k] == rest[k]);
                    }
                }
            },
            None => {},
        }
    }
}

/// The pending requests `pending` as they stand once `applied` has been
/// carried out with a replacement of `inserted_len` characters: those
/// before it unchanged, those after it shifted, those that overlap it
/// dropped.
pub fn remap_pending(pending: &[WrapRequest], applied: WrapRequest, inserted_len: usize) -> (r: Vec<
    WrapRequest,
>)
    requires
        applied.break_offset < applied.skip_to_offset,
        forall|k: int|
            0 <= k < pending@.len() ==> #[trigger] pending@[k].skip_to_offset + inserted_len
                <= usize::MAX && pending@[k].break_offset < pending@[k].skip_to_offset,
    ensures
        r@ == remap_spec(pending@, applied, inserted_len as nat),
{
    let mut out: Vec<WrapRequest> = Vec::new();
    let mut k: usize = 0;
    while k < pending.len()
        invariant
            k <= pending@.len(),
            applied.break_offset < applied.skip_to_offset,
            forall|m: int|
                0 <= m < pending@.len() ==> #[trigger] pending@[m].skip_to_offset + inserted_len
                    <= usize::MAX && pending@[m].break_offset < pending@[m].skip_to_offset,
            out@ == remap_spec(pending@.subrange(0, k as int), applied, inserted_len as nat),
        decreases pending@.len() - k,
    {
        let p = pending[k];
        proof {
            assert(pending@.subrange(0, k + 1).drop_last() =~= pending@.subrange(0, k as int));
        }
        if p.skip_to_offset <= applied.break_offset {
            out.push(p);
        } else if p.break_offset >= applied.skip_to_offset {
            let b = map_position(p.break_offset, applied, inserted_len);
            let s = map_position(p.skip_to_offset, applied, inserted_len);
            out.push(WrapRequest { break_offset: b, skip_to_offset: s });
        }
        k = k + 1;
    }
    proof {
        assert(pending@.subrange(0, pending@.len() as int) =~= pending@);
    }
    out
}

} // verus!
