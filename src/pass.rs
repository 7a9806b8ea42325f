//! One reflow pass, run after a character was typed: the requests are
//! collected against the text as it stands, then carried out one at a
//! time. After each edit the requests still pending are mapped through it
//! (those it overlaps are dropped), so each edit is made at offsets that
//! are valid in the text as it then stands.
use vstd::prelude::*;

use crate::edit::{
    all_fit, apply_edit, apply_wrap, fits_in, lemma_remap_fits, map_pos, map_position,
    remap_pending, remap_spec,
};
use crate::request::{collect_spec, collect_wraps, WrapRequest};

verus! {

/// The cursors `cs` once `q` has been carried out with a replacement of
/// `inserted` characters.
pub open spec fn map_cursors(cs: Seq<usize>, q: WrapRequest, inserted: nat) -> Seq<usize> {
    Seq::new(cs.len(), |k: int| map_pos(cs[k] as int, q, inserted) as usize)
}

/// The requests a pass begins with: none when the feature is off or the
/// width limit is zero.
pub open spec fn initial_requests(text: Seq<char>, cursors: Seq<usize>, width: nat, enabled: bool) -> Seq<
    WrapRequest,
> {
    if enabled && width > 0 {
        collect_spec(text, cursors, width)
    } else {
        Seq::empty()
    }
}

/// The state of a reflow pass: the requests not yet carried out, first
/// one first, in the coordinates of the text as it now stands.
pub struct WrapPass {
    pending: Vec<WrapRequest>,
}

impl View for WrapPass {
    type V = Seq<WrapRequest>;

    closed spec fn view(&self) -> Seq<WrapRequest> {
        self.pending@
    }
}

impl WrapPass {
    /// Begins a pass for `cursors` over `text`, collecting every request
    /// against this one snapshot.
    pub fn start(text: &[char], cursors: &[usize], width_limit: usize, enabled: bool) -> (r:
        WrapPass)
        requires
            forall|k: int| 0 <= k < cursors@.len() ==> #[trigger] cursors@[k] <= text@.len(),
        ensures
            r@ == initial_requests(text@, cursors@, width_limit as nat, enabled),
            all_fit(r@, text@.len()),
    {
        if !enabled || width_limit == 0 {
            return WrapPass { pending: Vec::new() };
        }
        let pending = collect_wraps(text, cursors, width_limit);
        proof {
            assert forall|k: int| 0 <= k < pending@.len() implies fits_in(
                #[trigger] pending@[k],
                text@.len(),
            ) by {
                assert(pending@[k].break_offset < pending@[k].skip_to_offset <= text@.len());
            }
        }
        WrapPass { pending }
    }

    /// Whether every pending request names a range within a text of length
    /// `len`.
    pub fn fits_text(&self, len: usize) -> (r: bool)
        ensures
            r == all_fit(self@, len as nat),
    {
        let mut k: usize = 0;
        while k < self.pending.len()
            invariant
                k <= self.pending@.len(),
                forall|m: int| 0 <= m < k ==> fits_in(#[trigger] self.pending@[m], len as nat),
            decreases self.pending@.len() - k,
        {
            let q = self.pending[k];
            if !(q.break_offset < q.skip_to_offset && q.skip_to_offset <= len) {
                return false;
            }
            k = k + 1;
        }
        true
    }

    /// Whether no request is left.
    pub fn is_done(&self) -> (r: bool)
        ensures
            r == (self@.len() == 0),
    {
        self.pending.len() == 0
    }

    /// The request to carry out next, in the text's current coordinates.
    pub fn next_request(&self) -> (r: Option<WrapRequest>)
        ensures
            self@.len() == 0 ==> r is None,
            self@.len() > 0 ==> r == Some(self@[0]),
    {
        if self.pending.len() == 0 {
            None
        } else {
            Some(self.pending[0])
        }
    }

    /// Records that the next request was carried out with a replacement of
    /// `inserted_len` characters, and maps the rest through that edit.
    pub fn advance(&mut self, inserted_len: usize)
        requires
            old(self)@.len() > 0,
            forall|k: int|
                0 <= k < old(self)@.len() ==> #[trigger] old(self)@[k].skip_to_offset
                    + inserted_len <= usize::MAX && old(self)@[k].break_offset < old(
                    self,
                )@[k].skip_to_offset,
        ensures
            final(self)@ == remap_spec(old(self)@.drop_first(), old(self)@[0], inserted_len as nat),
    {
        let first = self.pending.remove(0);
        let rest = remap_pending(self.pending.as_slice(), first, inserted_len);
        self.pending = rest;
    }

    /// Carries out the next request on `text` with the continuation line's
    /// indentation `indent`, maps `cursors` through the edit, and maps the
    /// requests still pending through it.
    pub fn apply_next(&mut self, text: &mut Vec<char>, cursors: &mut Vec<usize>, indent: &[char])
        requires
            old(self)@.len() > 0,
            all_fit(old(self)@, old(text)@.len()),
            old(text)@.len() + 1 + indent@.len() <= usize::MAX,
            forall|k: int| 0 <= k < old(cursors)@.len() ==> #[trigger] old(cursors)@[k] <= old(text)@.len(),
        ensures
            final(text)@ == apply_edit(old(text)@, old(self)@[0], indent@),
            final(cursors)@ == map_cursors(old(cursors)@, old(self)@[0], (indent@.len() + 1) as nat),
            final(self)@ == remap_spec(old(self)@.drop_first(), old(self)@[0], (indent@.len() + 1) as nat),
            all_fit(final(self)@, final(text)@.len()),
            forall|k: int| 0 <= k < final(cursors)@.len() ==> #[trigger] final(cursors)@[k] <= final(text)@.len(),
    {
        let q = self.pending[0];
        proof {
            assert(fits_in(old(self)@[0], old(text)@.len()));
        }
        let inserted = indent.len() + 1;
        let ghost t0 = text@;
        let ghost c0 = cursors@;
        let ghost p0 = self@;
        apply_wrap(text, q, indent);
        assert(text@.len() == t0.len() - (q.skip_to_offset - q.break_offset) + inserted);
        let mut k: usize = 0;
        while k < cursors.len()
            invariant
                fits_in(q, t0.len()),
                inserted == indent@.len() + 1,
                t0.len() + inserted <= usize::MAX,
                text@.len() == t0.len() - (q.skip_to_offset - q.break_offset) + inserted,
                cursors@.len() == c0.len(),
                k <= c0.len(),
                forall|m: int| 0 <= m < c0.len() ==> #[trigger] c0[m] <= t0.len(),
                forall|m: int| 0 <= m < k ==> #[trigger] cursors@[m] == map_pos(c0[m] as int, q, inserted as nat),
                forall|m: int| k <= m < c0.len() ==> #[trigger] cursors@[m] == c0[m],
                forall|m: int| 0 <= m < k ==> #[trigger] cursors@[m] <= text@.len(),
            decreases c0.len() - k,
        {
            let c = cursors[k];
            let d = map_position(c, q, inserted);
            cursors.set(k, d);
            k = k + 1;
        }
        proof {
            assert(cursors@ =~= map_cursors(c0, q, inserted as nat));
            let rest = p0.drop_first();
            assert forall|m: int| 0 <= m < rest.len() implies fits_in(#[trigger] rest[m], t0.len()) by {
                assert(rest[m] == p0[m + 1]);
            }
            lemma_remap_fits(rest, q, inserted as nat, t0.len());
        }
        assert(forall|m: int| 0 <= m < self@.len() ==> fits_in(#[trigger] self@[m], t0.len()));
        self.advance(inserted);
    }
}

} // verus!
