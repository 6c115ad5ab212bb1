//! Draining the front of the buffer.

use crate::laws::growth::law_update_is_reading_again;
use crate::laws::shape::law_item_fits;
use crate::model::{
    closes_at, closing, delimiters_at, describes, envelope, item_at, lawful_eq, next_opening,
    opens_at, pair_for, run_end, same, update,
};
use crate::runs::{
    lemma_closing, lemma_closing_is, lemma_next_opening, lemma_next_opening_is, lemma_run,
    lemma_run_is,
};
use crate::state::{LimiterPair, State, StateView, Variant};
use vstd::prelude::*;

verus! {

/// A run ends at the same element after a drain.
proof fn lemma_run_drained<T: PartialEq>(s: Seq<T>, k: int, i: int)
    requires
        0 <= k <= i < s.len(),
    ensures
        run_end(s.skip(k), i - k) == run_end(s, i) - k,
{
    let t = s.skip(k);
    lemma_run(s, i);
    assert forall|j: int| i - k < j < run_end(s, i) - k implies same(#[trigger] t[j], t[i - k]) by {
        assert(same(s[j + k], s[i]));
    }
    lemma_run_is(t, i - k, run_end(s, i) - k);
}

/// The next opening is the same element after a drain.
proof fn lemma_next_opening_drained<T: PartialEq>(
    s: Seq<T>,
    pairs: Seq<LimiterPair<T>>,
    k: int,
    from: int,
    recommended: bool,
)
    requires
        0 <= k <= from <= s.len(),
    ensures
        next_opening(s.skip(k), pairs, from - k, recommended) == next_opening(
            s,
            pairs,
            from,
            recommended,
        ) - k,
{
    let t = s.skip(k);
    lemma_next_opening(s, pairs, from, recommended);
    let r = next_opening(s, pairs, from, recommended);
    assert forall|j: int| from - k <= j < r - k implies !(#[trigger] opens_at(
        t,
        pairs,
        recommended,
        j,
    )) by {
        lemma_run_drained(s, k, j + k);
        assert(!opens_at(s, pairs, recommended, j + k));
        assert(t[j] == s[j + k]);
    }
    if r < s.len() {
        lemma_run_drained(s, k, r);
        assert(t[r - k] == s[r]);
    }
    lemma_next_opening_is(t, pairs, from - k, recommended, r - k);
}

/// A slice closes after a drain exactly when it did before.
proof fn lemma_closes_drained<T: PartialEq>(
    s: Seq<T>,
    delimiter: T,
    variant: Variant,
    n: int,
    k: int,
    q: int,
)
    requires
        0 <= k <= q,
        k <= s.len(),
        0 <= n,
    ensures
        delimiters_at(s.skip(k), delimiter, q - k, n) == delimiters_at(s, delimiter, q, n),
        closes_at(s.skip(k), delimiter, variant, n, q - k) == closes_at(
            s,
            delimiter,
            variant,
            n,
            q,
        ),
{
    let t = s.skip(k);
    if delimiters_at(s, delimiter, q, n) {
        assert forall|i: int| q - k <= i < q - k + n implies same(#[trigger] t[i], delimiter) by {
            assert(same(s[i + k], delimiter));
        }
    }
    if delimiters_at(t, delimiter, q - k, n) {
        assert forall|i: int| q <= i < q + n implies same(#[trigger] s[i], delimiter) by {
            assert(same(t[i - k], delimiter));
        }
    }
}

/// An envelope is the same, with shifted offsets, after a drain.
proof fn lemma_envelope_drained<T: PartialEq>(
    s: Seq<T>,
    delimiter: T,
    variant: Variant,
    head: int,
    n: int,
    k: int,
)
    requires
        0 <= k <= head,
        1 <= n,
        head + n < s.len(),
    ensures
        envelope(s.skip(k), delimiter, variant, head - k, n) == envelope(
            s,
            delimiter,
            variant,
            head,
            n,
        ).shift(k),
{
    let t = s.skip(k);
    let start = head + n;
    lemma_closing(s, delimiter, variant, n, start);
    let r = closing(s, delimiter, variant, n, start);
    assert forall|q: int| start - k <= q < r - k implies !(#[trigger] closes_at(
        t,
        delimiter,
        variant,
        n,
        q,
    )) by {
        lemma_closes_drained(s, delimiter, variant, n, k, q + k);
        assert(!closes_at(s, delimiter, variant, n, q + k));
    }
    lemma_closes_drained(s, delimiter, variant, n, k, r);
    lemma_closing_is(t, delimiter, variant, n, start - k, r - k);
    if start <= s.len() - n {
        lemma_closes_drained(s, delimiter, variant, n, k, s.len() - n);
    }
}

/// After the application drained `k` elements from the front of the buffer,
/// an item that starts behind them is the same item with all offsets shifted
/// down by `k`, and the shift keeps every offset valid.
pub proof fn law_item_drained<T: PartialEq>(
    s: Seq<T>,
    pairs: Seq<LimiterPair<T>>,
    variant: Variant,
    head: int,
    recommended: bool,
    k: int,
)
    requires
        lawful_eq::<T>(),
        0 <= k <= head <= s.len(),
    ensures
        item_at(s, pairs, variant, head, recommended).can_shift(k),
        item_at(s.skip(k), pairs, variant, head - k, recommended) == item_at(
            s,
            pairs,
            variant,
            head,
            recommended,
        ).shift(k),
{
    law_item_fits(s, pairs, variant, head, recommended);
    lemma_next_opening_drained(s, pairs, k, head, recommended);
    lemma_next_opening(s, pairs, head, recommended);
    if head < s.len() {
        lemma_run(s, head);
        lemma_run_drained(s, k, head);
        assert(s.skip(k)[head - k] == s[head]);
        let n = run_end(s, head) - head;
        if run_end(s, head) < s.len() {
            let p = pair_for(pairs, s[head], n, recommended)->0;
            lemma_envelope_drained(s, pairs[p].delimiter, variant, head, n, k);
        }
    }
}

/// What lies before an item has no influence on it: the item at `head` is the
/// front of what follows, with all offsets raised by `head`.
pub proof fn law_contents_before_do_not_matter<T: PartialEq>(
    s: Seq<T>,
    pairs: Seq<LimiterPair<T>>,
    variant: Variant,
    head: int,
    recommended: bool,
)
    requires
        lawful_eq::<T>(),
        0 <= head <= s.len(),
    ensures
        item_at(s, pairs, variant, head, recommended) == item_at(
            s.skip(head),
            pairs,
            variant,
            0,
            recommended,
        ).shift(-head),
{
    law_item_drained(s, pairs, variant, head, recommended, head);
}

/// A state that describes the buffer goes on after a drain: shifted down with
/// the buffer, it describes what is left, and updating it against the drained
/// buffer gives the shifted update.
pub proof fn law_update_drained<T: PartialEq>(
    state: StateView,
    s: Seq<T>,
    longer: Seq<T>,
    pairs: Seq<LimiterPair<T>>,
    variant: Variant,
    recommended: bool,
    k: int,
)
    requires
        lawful_eq::<T>(),
        s.is_prefix_of(longer),
        describes(state, s, pairs, variant, recommended),
        0 <= k <= state.head_offset(),
    ensures
        state.can_shift(k),
        describes(state.shift(k), s.skip(k), pairs, variant, recommended),
        update(longer.skip(k), pairs, variant, state.shift(k), recommended) == update(
            longer,
            pairs,
            variant,
            state,
            recommended,
        ).shift(k),
{
    let head = state.head_offset();
    assert(s.skip(k).is_prefix_of(longer.skip(k))) by {
        assert(s =~= longer.subrange(0, s.len() as int));
        assert(s.skip(k) =~= longer.skip(k).subrange(0, s.skip(k).len() as int));
    }
    law_item_fits(s, pairs, variant, head, recommended);
    law_item_drained(s, pairs, variant, head, recommended, k);
    law_item_drained(longer, pairs, variant, head, recommended, k);
    law_update_is_reading_again(s, longer, pairs, variant, head, recommended);
    law_update_is_reading_again(s.skip(k), longer.skip(k), pairs, variant, head - k, recommended);
    if let Some(end) = state.end() {
        if end <= longer.len() {
            law_item_drained(longer, pairs, variant, end, recommended, k);
        }
    }
    lemma_shift_injective(state, item_at(longer, pairs, variant, head, recommended), k);
}

/// A shift moves every offset that a state has by the same amount and leaves
/// everything else about it as it is.
pub proof fn law_shift_moves_every_offset(state: StateView, k: int)
    ensures
        match (state, state.shift(k)) {
            (StateView::No(a), StateView::No(b)) => {
                &&& b.head_offset == a.head_offset - k
                &&& b.tail_offset == a.tail_offset - k
            },
            (StateView::OnLimiter(a), StateView::OnLimiter(b)) => b == a - k,
            (StateView::Pending(a), StateView::Pending(b)) | (
                StateView::OK(a),
                StateView::OK(b),
            ) => {
                &&& b.head_offset == a.head_offset - k
                &&& a.payload_head_offset is Some == b.payload_head_offset is Some
                &&& a.payload_head_offset is Some ==> b.payload_head_offset->0
                    == a.payload_head_offset->0 - k
                &&& a.payload_tail_offset is Some == b.payload_tail_offset is Some
                &&& a.payload_tail_offset is Some ==> b.payload_tail_offset->0
                    == a.payload_tail_offset->0 - k
                &&& a.tail_offset is Some == b.tail_offset is Some
                &&& a.tail_offset is Some ==> b.tail_offset->0 == a.tail_offset->0 - k
            },
            _ => false,
        },
{
}

/// Draining in two steps is draining once.
pub proof fn law_shifts_add_up(state: StateView, a: int, b: int)
    ensures
        state.shift(a).shift(b) == state.shift(a + b),
        state.shift(0) == state,
{
}

/// A shift is possible exactly when every offset stays valid: the start of the
/// item, and the end of a non-envelope slice, do not become negative, and the
/// offsets of an envelope that are never zero do not become zero.
pub proof fn law_possible_shifts(state: StateView, k: int)
    ensures
        state.can_shift(k) <==> match state {
            StateView::No(a) => k <= a.head_offset && k <= a.tail_offset,
            StateView::OnLimiter(a) => k <= a,
            StateView::Pending(a) | StateView::OK(a) => {
                &&& k <= a.head_offset
                &&& a.payload_head_offset is Some ==> k < a.payload_head_offset->0
                &&& a.payload_tail_offset is Some ==> k < a.payload_tail_offset->0
                &&& a.tail_offset is Some ==> k < a.tail_offset->0
            },
        },
{
}

/// The view of a state has its kind and its offsets, as numbers.
pub proof fn law_view_keeps_offsets(state: State)
    ensures
        match (state, state@) {
            (State::No(a), StateView::No(b)) => {
                &&& b.head_offset == a.head_offset
                &&& b.tail_offset == a.tail_offset
            },
            (State::OnLimiter(a), StateView::OnLimiter(b)) => b == a,
            (State::Pending(a), StateView::Pending(b)) | (State::OK(a), StateView::OK(b)) => {
                &&& b.head_offset == a.head_offset
                &&& a.payload_head_offset is Some == b.payload_head_offset is Some
                &&& a.payload_head_offset is Some ==> b.payload_head_offset->0
                    == a.payload_head_offset->0@
                &&& a.payload_tail_offset is Some == b.payload_tail_offset is Some
                &&& a.payload_tail_offset is Some ==> b.payload_tail_offset->0
                    == a.payload_tail_offset->0@
                &&& a.tail_offset is Some == b.tail_offset is Some
                &&& a.tail_offset is Some ==> b.tail_offset->0 == a.tail_offset->0@
            },
            _ => false,
        },
        state@.head_offset() == match state {
            State::No(a) => a.head_offset,
            State::OnLimiter(a) => a,
            State::Pending(a) => a.head_offset,
            State::OK(a) => a.head_offset,
        },
{
}

/// Shifting tells states apart.
proof fn lemma_shift_injective(a: StateView, b: StateView, k: int)
    ensures
        a.shift(k) == b.shift(k) ==> a == b,
{
}

} // verus!
