//! Which states a buffer holds, and what becomes of the others.

use crate::laws::growth::{law_item_grows, lemma_opens_grows, lemma_run_grows};
use crate::laws::shape::{law_item_fits, law_pending_envelope};
use crate::model::{
    consistent, describes, held, is_limiter, item_at, lawful_eq, next_opening, opens_at, pair_for,
    run_end, update,
};
use crate::runs::{
    lemma_closed_run, lemma_item_at_run, lemma_next_opening, lemma_next_opening_is, lemma_run,
    lemma_run_is, lemma_run_suffix,
};
use crate::state::{EnvelopView, LimiterPair, NonEnvelopView, StateView, Variant};
use vstd::prelude::*;

verus! {

/// The start of a buffer is a prefix of every longer start.
proof fn lemma_take_is_prefix<T>(s: Seq<T>, m: int, longer: int)
    requires
        0 <= m <= longer <= s.len(),
    ensures
        s.take(m).is_prefix_of(s.take(longer)),
        s.take(m).is_prefix_of(s),
{
    assert(s.take(m) =~= s.take(longer).subrange(0, m));
    assert(s.take(m) =~= s.subrange(0, m));
}

/// An undecided limiter slice is held by a start of the buffer exactly when a
/// limiter is at its head.
pub proof fn law_held_limiter_slice<T: PartialEq>(
    s: Seq<T>,
    pairs: Seq<LimiterPair<T>>,
    variant: Variant,
    head: int,
    recommended: bool,
)
    requires
        lawful_eq::<T>(),
        0 <= head,
    ensures
        held(StateView::OnLimiter(head), s, pairs, variant, recommended) <==> head < s.len()
            && is_limiter(pairs, s[head]),
{
    let state = StateView::OnLimiter(head);
    if held(state, s, pairs, variant, recommended) {
        let m = choose|m: int|
            0 <= m <= s.len() && describes(
                state,
                #[trigger] s.take(m),
                pairs,
                variant,
                recommended,
            );
        lemma_next_opening(s.take(m), pairs, head, recommended);
        assert(opens_at(s.take(m), pairs, recommended, head));
    }
    if head < s.len() && is_limiter(pairs, s[head]) {
        let t = s.take(head + 1);
        lemma_run(t, head);
        lemma_item_at_run(t, pairs, variant, head, recommended);
        assert(describes(state, t, pairs, variant, recommended));
    }
}

/// How much of the buffer tells whether it held the non-envelope slice that
/// ends at `tail`: all before `tail`, and the element at `tail` if that is a
/// limiter.
pub open spec fn non_envelop_prefix<T: PartialEq>(
    s: Seq<T>,
    pairs: Seq<LimiterPair<T>>,
    tail: int,
) -> int {
    if tail < s.len() && is_limiter(pairs, s[tail]) {
        tail + 1
    } else {
        tail
    }
}

/// A non-envelope slice is held by a start of the buffer exactly when it lies in
/// the buffer and no potential limiter slice starts in it.
pub proof fn law_held_non_envelop<T: PartialEq>(
    s: Seq<T>,
    pairs: Seq<LimiterPair<T>>,
    variant: Variant,
    non: NonEnvelopView,
    recommended: bool,
)
    requires
        lawful_eq::<T>(),
    ensures
        held(StateView::No(non), s, pairs, variant, recommended) <==> {
            &&& 0 <= non.head_offset <= non.tail_offset <= s.len()
            &&& next_opening(
                s.take(non_envelop_prefix(s, pairs, non.tail_offset)),
                pairs,
                non.head_offset,
                recommended,
            ) == non.tail_offset || non.head_offset == non.tail_offset
        },
{
    let state = StateView::No(non);
    let h = non.head_offset;
    let t = non.tail_offset;
    let p = non_envelop_prefix(s, pairs, t);
    if held(state, s, pairs, variant, recommended) {
        let m = choose|m: int|
            0 <= m <= s.len() && describes(
                state,
                #[trigger] s.take(m),
                pairs,
                variant,
                recommended,
            );
        let a = s.take(m);
        law_item_fits(a, pairs, variant, h, recommended);
        lemma_next_opening(a, pairs, h, recommended);
        if h < t {
            let b = s.take(p);
            assert(next_opening(a, pairs, h, recommended) == t);
            if t < m {
                assert(opens_at(a, pairs, recommended, t));
                assert(a[t] == s[t]);
            }
            assert forall|j: int| h <= j < t implies !(#[trigger] opens_at(
                b,
                pairs,
                recommended,
                j,
            )) by {
                assert(!opens_at(a, pairs, recommended, j));
                if m <= p {
                    lemma_take_is_prefix(s, m, p);
                    lemma_opens_grows(a, b, pairs, recommended, j);
                } else {
                    lemma_take_is_prefix(s, p, m);
                    lemma_opens_grows(b, a, pairs, recommended, j);
                    lemma_run(b, j);
                    if run_end(b, j) == p {
                        // The run takes in `t`, which opens.
                        lemma_run_suffix(b, j, t);
                        lemma_reaches_opening(a, b, pairs, recommended, j, t);
                    }
                }
            }
            if t < p {
                lemma_run(b, t);
                assert(b[t] == s[t]);
                assert(opens_at(b, pairs, recommended, t));
            }
            lemma_next_opening_is(b, pairs, h, recommended, t);
        }
    }
    if 0 <= h == t <= s.len() {
        lemma_next_opening(s.take(t), pairs, h, recommended);
        assert(describes(state, s.take(t), pairs, variant, recommended));
    }
    if 0 <= h < t <= s.len() && next_opening(s.take(p), pairs, h, recommended) == t {
        assert(describes(state, s.take(p), pairs, variant, recommended));
    }
}

/// Where a run takes in a position that opens in the longer buffer, its head
/// opens there too.
proof fn lemma_reaches_opening<T: PartialEq>(
    longer: Seq<T>,
    s: Seq<T>,
    pairs: Seq<LimiterPair<T>>,
    recommended: bool,
    j: int,
    t: int,
)
    requires
        lawful_eq::<T>(),
        s.is_prefix_of(longer),
        0 <= j < t < run_end(s, j),
        j < s.len(),
        opens_at(longer, pairs, recommended, t),
    ensures
        opens_at(longer, pairs, recommended, j),
{
    lemma_run(s, j);
    lemma_run_grows(s, longer, j);
    if !opens_at(longer, pairs, recommended, j) {
        lemma_closed_run(longer, pairs, recommended, j);
    }
}

/// A complete envelope is held by a start of the buffer exactly when the buffer
/// still holds it.
pub proof fn law_held_complete<T: PartialEq>(
    s: Seq<T>,
    pairs: Seq<LimiterPair<T>>,
    variant: Variant,
    e: EnvelopView,
    recommended: bool,
)
    requires
        lawful_eq::<T>(),
    ensures
        held(StateView::OK(e), s, pairs, variant, recommended) <==> describes(
            StateView::OK(e),
            s,
            pairs,
            variant,
            recommended,
        ),
{
    let state = StateView::OK(e);
    if held(state, s, pairs, variant, recommended) {
        let m = choose|m: int|
            0 <= m <= s.len() && describes(
                state,
                #[trigger] s.take(m),
                pairs,
                variant,
                recommended,
            );
        lemma_take_is_prefix(s, m, m);
        law_item_grows(s.take(m), s, pairs, variant, e.head_offset, recommended);
    }
    if describes(state, s, pairs, variant, recommended) {
        assert(s.take(s.len() as int) =~= s);
        assert(describes(state, s.take(s.len() as int), pairs, variant, recommended));
    }
}

/// How much of the buffer tells whether it held the pending envelope: one
/// element of the payload when no payload end is given, and up to the end of
/// the unconfirmed delimiter slice otherwise.
pub open spec fn pending_prefix(e: EnvelopView) -> int {
    match e.payload_tail_offset {
        None => e.payload_head_offset->0 + 1,
        Some(t) => t + (e.payload_head_offset->0 - e.head_offset),
    }
}

/// A pending envelope is held by a start of the buffer exactly when the start of
/// the buffer that its offsets point to held it.
pub proof fn law_held_pending<T: PartialEq>(
    s: Seq<T>,
    pairs: Seq<LimiterPair<T>>,
    variant: Variant,
    e: EnvelopView,
    recommended: bool,
)
    requires
        lawful_eq::<T>(),
    ensures
        held(StateView::Pending(e), s, pairs, variant, recommended) <==> {
            &&& e.payload_head_offset is Some
            &&& 0 <= pending_prefix(e) <= s.len()
            &&& describes(
                StateView::Pending(e),
                s.take(pending_prefix(e)),
                pairs,
                variant,
                recommended,
            )
        },
{
    let state = StateView::Pending(e);
    let h = e.head_offset;
    let p = pending_prefix(e);
    if held(state, s, pairs, variant, recommended) {
        let m = choose|m: int|
            0 <= m <= s.len() && describes(
                state,
                #[trigger] s.take(m),
                pairs,
                variant,
                recommended,
            );
        let a = s.take(m);
        let b = s.take(p);
        law_item_fits(a, pairs, variant, h, recommended);
        law_pending_envelope(a, pairs, variant, h, recommended);
        lemma_run(a, h);
        let start = run_end(a, h);
        if e.payload_tail_offset is None {
            assert(p == start + 1 <= m);
            lemma_take_is_prefix(s, p, m);
            assert forall|j: int| 0 <= j < p implies #[trigger] b[j] == a[j] by {}
            lemma_run_is(b, h, start);
            lemma_item_at_run(a, pairs, variant, h, recommended);
            lemma_item_at_run(b, pairs, variant, h, recommended);
            law_item_fits(b, pairs, variant, h, recommended);
            law_item_grows(b, a, pairs, variant, h, recommended);
            law_pending_envelope(b, pairs, variant, h, recommended);
        } else {
            assert(p == m);
        }
    }
}

/// Offsets that a buffer cannot have make a state inconsistent with it, and
/// the front of the buffer takes its place: those of a complete envelope
/// without an end or with one beyond the buffer, of a non-envelope slice that
/// ends before it starts or beyond the buffer, of an undecided limiter slice
/// with no limiter at its head, and of a pending envelope whose payload does
/// not start right after a terminated run that is long enough for a pair.
pub proof fn law_impossible_offsets<T: PartialEq>(
    state: StateView,
    s: Seq<T>,
    pairs: Seq<LimiterPair<T>>,
    variant: Variant,
    recommended: bool,
)
    requires
        lawful_eq::<T>(),
        0 <= state.head_offset(),
        match state {
            StateView::OK(e) => e.tail_offset is None || s.len() < e.tail_offset->0,
            StateView::No(non) => non.tail_offset < non.head_offset || s.len() < non.tail_offset,
            StateView::OnLimiter(head) => s.len() <= head || !is_limiter(pairs, s[head]),
            StateView::Pending(e) => {
                let h = e.head_offset;
                ||| s.len() <= h
                ||| e.payload_head_offset != Some(run_end(s, h))
                ||| run_end(s, h) == s.len()
                ||| pair_for(pairs, s[h], run_end(s, h) - h, recommended) is None
            },
        },
    ensures
        update(s, pairs, variant, state, recommended) == item_at(s, pairs, variant, 0, recommended),
{
    let h = state.head_offset();
    if consistent(state, s, pairs) {
        let (v, look_up) = choose|v: Variant, look_up: bool| #[trigger]
            held(state, s, pairs, v, look_up);
        let m = choose|m: int|
            0 <= m <= s.len() && describes(state, #[trigger] s.take(m), pairs, v, look_up);
        let a = s.take(m);
        law_item_fits(a, pairs, v, h, look_up);
        match state {
            StateView::OnLimiter(_) => {
                law_held_limiter_slice(s, pairs, v, h, look_up);
            },
            StateView::Pending(_) => {
                law_pending_envelope(a, pairs, v, h, look_up);
                lemma_run(a, h);
                lemma_take_is_prefix(s, m, m);
                lemma_run_grows(a, s, h);
                assert(a[h] == s[h]);
                lemma_run(s, h);
                lemma_item_at_run(s, pairs, variant, h, recommended);
            },
            _ => {},
        }
    }
}

} // verus!
