//! What every item looks like.

use crate::model::{closes_at, closing, delimiters_at, item_at, lawful_eq, pair_for, run_end, same};
use crate::runs::{lemma_closing, lemma_item_at_run, lemma_next_opening, lemma_pair_for, lemma_run};
use crate::nonzero::{lemma_value_determines, offset_view, NonZeroUsize};
use crate::state::{LimiterPair, State, StateView, Variant};
use vstd::prelude::*;

verus! {

/// An item starts where it was asked for, its offsets lie in the buffer in
/// order, and exactly those are present that its kind defines.
///
/// Where something is left to read, an item with a known end takes at least
/// one element of it, so that reading item by item comes to an end. An
/// undecided limiter slice reaches the end of the buffer.
pub proof fn law_item_fits<T: PartialEq>(
    s: Seq<T>,
    pairs: Seq<LimiterPair<T>>,
    variant: Variant,
    head: int,
    recommended: bool,
)
    requires
        lawful_eq::<T>(),
        0 <= head <= s.len(),
    ensures
        ({
            let item = item_at(s, pairs, variant, head, recommended);
            &&& item.head_offset() == head
            &&& item.fits(s.len() as int)
            &&& head < s.len() ==> (item.end() matches Some(end) ==> head < end)
            &&& head == s.len() ==> item.end() == Some(head)
            &&& item is OnLimiter ==> run_end(s, head) == s.len()
        }),
{
    lemma_next_opening(s, pairs, head, recommended);
    if head < s.len() {
        lemma_run(s, head);
        let n = run_end(s, head) - head;
        lemma_item_at_run(s, pairs, variant, head, recommended);
        lemma_pair_for(pairs, s[head], n, recommended);
        if run_end(s, head) < s.len() {
            lemma_next_opening(s, pairs, head + n, recommended);
            if let Some(k) = pair_for(pairs, s[head], n, recommended) {
                lemma_closing(s, pairs[k].delimiter, variant, n, head + n);
            }
        }
    }
}

/// The limiter slice of an envelope is the run at its head, long enough for
/// the pair that opens it, and followed by another element. A complete
/// envelope ends with as many delimiters of that pair; its payload is what is
/// between. It has no payload offsets exactly when the payload is empty, and
/// then the limiter of the pair is not its delimiter.
pub proof fn law_complete_envelope<T: PartialEq>(
    s: Seq<T>,
    pairs: Seq<LimiterPair<T>>,
    variant: Variant,
    head: int,
    recommended: bool,
)
    requires
        lawful_eq::<T>(),
        0 <= head <= s.len(),
    ensures
        item_at(s, pairs, variant, head, recommended) matches StateView::OK(e) ==> {
            let n = run_end(s, head) - head;
            let k = pair_for(pairs, s[head], n, recommended)->0;
            let end = e.tail_offset->0;
            &&& pair_for(pairs, s[head], n, recommended) is Some
            &&& delimiters_at(s, pairs[k].delimiter, end - n, n)
            &&& variant is V2 ==> end < s.len() && !same(s[end], pairs[k].delimiter)
            &&& (match e.payload_head_offset {
                Some(payload_head) => {
                    payload_head == head + n && e.payload_tail_offset == Some(end - n)
                },
                None => end - n == head + n && e.payload_tail_offset is None,
            })
            &&& e.payload_head_offset is None ==> !same(pairs[k].limiter, pairs[k].delimiter)
        },
{
    if head < s.len() {
        lemma_run(s, head);
        let n = run_end(s, head) - head;
        lemma_item_at_run(s, pairs, variant, head, recommended);
        lemma_pair_for(pairs, s[head], n, recommended);
        if let Some(k) = pair_for(pairs, s[head], n, recommended) {
            if head + n < s.len() {
                let d = pairs[k].delimiter;
                lemma_closing(s, d, variant, n, head + n);
                let q = closing(s, d, variant, n, head + n);
                if q == head + n && q < s.len() && same(pairs[k].limiter, d) {
                    assert(same(s[q], d));
                    assert(same(d, pairs[k].limiter));
                    assert(same(d, s[head]));
                    assert(same(s[q], s[head]));
                }
            }
        }
    }
}

/// While an envelope is pending its payload starts right after the limiter
/// slice. With [`Variant::V1`] its end is unknown. With [`Variant::V2`] the
/// end is given exactly when the buffer ends with a full delimiter slice that
/// is not confirmed yet.
pub proof fn law_pending_envelope<T: PartialEq>(
    s: Seq<T>,
    pairs: Seq<LimiterPair<T>>,
    variant: Variant,
    head: int,
    recommended: bool,
)
    requires
        lawful_eq::<T>(),
        0 <= head <= s.len(),
    ensures
        item_at(s, pairs, variant, head, recommended) matches StateView::Pending(e) ==> {
            let n = run_end(s, head) - head;
            let k = pair_for(pairs, s[head], n, recommended)->0;
            let last = s.len() - n;
            &&& pair_for(pairs, s[head], n, recommended) is Some
            &&& e.payload_head_offset == Some(head + n)
            &&& variant is V1 ==> e.payload_tail_offset is None
            &&& variant is V2 ==> (e.payload_tail_offset is Some <==> head + n <= last
                && delimiters_at(s, pairs[k].delimiter, last, n))
            &&& e.payload_tail_offset is Some ==> e.payload_tail_offset == Some(last)
            &&& forall|q: int|
                head + n <= q < s.len() ==> !(#[trigger] closes_at(
                    s,
                    pairs[k].delimiter,
                    variant,
                    n,
                    q,
                ))
        },
{
    if head < s.len() {
        lemma_run(s, head);
        let n = run_end(s, head) - head;
        lemma_item_at_run(s, pairs, variant, head, recommended);
        if let Some(k) = pair_for(pairs, s[head], n, recommended) {
            if head + n < s.len() {
                lemma_closing(s, pairs[k].delimiter, variant, n, head + n);
            }
        }
    }
}

/// In a state that fits a buffer of `len` elements every offset lies in the
/// buffer, none is before the start of the item, a payload does not end before
/// it starts, and an end is there exactly when the extent of the item is known.
pub proof fn law_fitting_offsets(state: StateView, len: int)
    requires
        state.fits(len),
    ensures
        match state {
            StateView::No(non) => {
                &&& 0 <= non.head_offset <= non.tail_offset <= len
                &&& state.end() == Some(non.tail_offset)
            },
            StateView::OnLimiter(head) => 0 <= head < len && state.end() is None,
            StateView::Pending(e) => {
                let payload_head = e.payload_head_offset->0;
                let payload_tail = e.payload_tail_offset->0;
                &&& e.payload_head_offset is Some
                &&& 0 <= e.head_offset < payload_head < len
                &&& e.payload_tail_offset is Some ==> payload_head <= payload_tail < len
                &&& e.tail_offset is None
                &&& state.end() is None
            },
            StateView::OK(e) => {
                let payload_head = e.payload_head_offset->0;
                let payload_tail = e.payload_tail_offset->0;
                let tail = e.tail_offset->0;
                &&& e.tail_offset is Some
                &&& 0 <= e.head_offset < tail <= len
                &&& e.payload_head_offset is Some == e.payload_tail_offset is Some
                &&& e.payload_head_offset is Some ==> e.head_offset < payload_head < payload_tail
                    < tail
                &&& state.end() == Some(tail)
            },
        },
{
}

/// The offsets determine a state: two states with the same view are the same
/// state.
pub proof fn law_offsets_determine_state(a: State, b: State)
    ensures
        a@ == b@ ==> a == b,
{
    if a@ == b@ {
        match (a, b) {
            (State::OK(x), State::OK(y)) | (State::Pending(x), State::Pending(y)) => {
                lemma_same_offset(x.payload_head_offset, y.payload_head_offset);
                lemma_same_offset(x.payload_tail_offset, y.payload_tail_offset);
                lemma_same_offset(x.tail_offset, y.tail_offset);
            },
            _ => {},
        }
    }
}

/// Optional offsets with the same number are the same offset.
proof fn lemma_same_offset(a: Option<NonZeroUsize>, b: Option<NonZeroUsize>)
    requires
        offset_view(a) == offset_view(b),
    ensures
        a == b,
{
    if let (Some(x), Some(y)) = (a, b) {
        lemma_value_determines(x, y);
    }
}

} // verus!
