//! Updating a state while the buffer grows.

use crate::laws::shape::law_item_fits;
use crate::model::{
    closes_at, closing, consistent, delimiters_at, describes, envelope, held, item_at, lawful_eq,
    next_opening, opens_at, pair_for, run_end, same, update,
};
use crate::runs::{
    lemma_closing, lemma_closing_is, lemma_delimiter_run, lemma_item_at_run, lemma_next_opening,
    lemma_next_opening_skip, lemma_pair_for, lemma_run, lemma_run_is,
};
use crate::state::{LimiterPair, NonEnvelopView, StateView, Variant};
use vstd::prelude::*;

verus! {

/// A run that is terminated keeps its end; one that is not can only grow.
pub(crate) proof fn lemma_run_grows<T: PartialEq>(s: Seq<T>, longer: Seq<T>, i: int)
    requires
        s.is_prefix_of(longer),
        0 <= i < s.len(),
    ensures
        run_end(s, i) < s.len() ==> run_end(longer, i) == run_end(s, i),
        run_end(s, i) == s.len() ==> run_end(longer, i) >= s.len(),
{
    lemma_run(s, i);
    lemma_run(longer, i);
    assert forall|j: int| 0 <= j < s.len() implies s[j] == #[trigger] longer[j] by {
        assert(s[j] == longer.subrange(0, s.len() as int)[j]);
    }
    let e = run_end(s, i);
    let e2 = run_end(longer, i);
    if e < s.len() {
        lemma_run_is(longer, i, e);
    } else if e2 < s.len() {
        assert(same(s[e2], s[i]));
    }
}

/// Nothing starts to open by what comes later, and a terminated limiter run
/// that opens keeps opening.
pub(crate) proof fn lemma_opens_grows<T: PartialEq>(
    s: Seq<T>,
    longer: Seq<T>,
    pairs: Seq<LimiterPair<T>>,
    recommended: bool,
    i: int,
)
    requires
        s.is_prefix_of(longer),
        0 <= i < s.len(),
    ensures
        opens_at(longer, pairs, recommended, i) ==> opens_at(s, pairs, recommended, i),
        run_end(s, i) < s.len() ==> opens_at(longer, pairs, recommended, i) == opens_at(
            s,
            pairs,
            recommended,
            i,
        ),
{
    lemma_run_grows(s, longer, i);
    lemma_run(s, i);
    assert(s[i] == longer.subrange(0, s.len() as int)[i]);
    lemma_pair_for(pairs, longer[i], run_end(longer, i) - i, recommended);
}

/// The next opening can only move on.
proof fn lemma_next_opening_grows<T: PartialEq>(
    s: Seq<T>,
    longer: Seq<T>,
    pairs: Seq<LimiterPair<T>>,
    from: int,
    recommended: bool,
)
    requires
        s.is_prefix_of(longer),
        0 <= from <= s.len(),
    ensures
        ({
            let t = next_opening(s, pairs, from, recommended);
            next_opening(longer, pairs, from, recommended) == next_opening(
                longer,
                pairs,
                t,
                recommended,
            )
        }),
{
    lemma_next_opening(s, pairs, from, recommended);
    let t = next_opening(s, pairs, from, recommended);
    assert forall|j: int| from <= j < t implies !(#[trigger] opens_at(
        longer,
        pairs,
        recommended,
        j,
    )) by {
        lemma_opens_grows(s, longer, pairs, recommended, j);
    }
    lemma_next_opening_skip(longer, pairs, from, t, recommended);
}

/// A slice that closes keeps closing, and what comes later closes no slice
/// that lies before the last full one.
proof fn lemma_closes_grows<T: PartialEq>(
    s: Seq<T>,
    longer: Seq<T>,
    delimiter: T,
    variant: Variant,
    n: int,
    q: int,
)
    requires
        s.is_prefix_of(longer),
        0 <= q,
        0 <= n,
    ensures
        closes_at(s, delimiter, variant, n, q) ==> closes_at(longer, delimiter, variant, n, q),
        q + n < s.len() && closes_at(longer, delimiter, variant, n, q) ==> closes_at(
            s,
            delimiter,
            variant,
            n,
            q,
        ),
        q + n == s.len() && variant is V1 && closes_at(longer, delimiter, variant, n, q)
            ==> closes_at(s, delimiter, variant, n, q),
{
    assert forall|j: int| 0 <= j < s.len() implies s[j] == #[trigger] longer[j] by {
        assert(s[j] == longer.subrange(0, s.len() as int)[j]);
    }
    if closes_at(s, delimiter, variant, n, q) {
        assert(delimiters_at(longer, delimiter, q, n));
    }
    if q + n <= s.len() && delimiters_at(longer, delimiter, q, n) {
        assert forall|i: int| q <= i < q + n implies same(#[trigger] s[i], delimiter) by {
            assert(same(longer[i], delimiter));
        }
    }
}

/// An envelope, when the buffer grows.
proof fn lemma_envelope_grows<T: PartialEq>(
    s: Seq<T>,
    longer: Seq<T>,
    delimiter: T,
    variant: Variant,
    head: int,
    n: int,
)
    requires
        lawful_eq::<T>(),
        s.is_prefix_of(longer),
        0 <= head,
        1 <= n,
        head + n < s.len(),
    ensures
        ({
            let a = envelope(s, delimiter, variant, head, n);
            let b = envelope(longer, delimiter, variant, head, n);
            &&& a is OK ==> b == a
            &&& a matches StateView::Pending(old_e) ==> match b {
                StateView::Pending(e) => {
                    &&& e.payload_head_offset == old_e.payload_head_offset
                    &&& old_e.payload_tail_offset matches Some(t) ==> {
                        &&& e.payload_tail_offset matches Some(t2)
                        &&& t <= t2
                    }
                },
                StateView::OK(e) => old_e.payload_tail_offset matches Some(t) ==> t <= e.tail_offset->0
                    - n,
                _ => false,
            }
        }),
{
    let start = head + n;
    let len = s.len() as int;
    let len2 = longer.len() as int;
    let q = closing(s, delimiter, variant, n, start);
    let q2 = closing(longer, delimiter, variant, n, start);
    lemma_closing(s, delimiter, variant, n, start);
    lemma_closing(longer, delimiter, variant, n, start);
    if q < len {
        assert forall|j: int| start <= j < q implies !(#[trigger] closes_at(
            longer,
            delimiter,
            variant,
            n,
            j,
        )) by {
            lemma_closes_grows(s, longer, delimiter, variant, n, j);
            assert(!closes_at(s, delimiter, variant, n, j));
        }
        lemma_closes_grows(s, longer, delimiter, variant, n, q);
        lemma_closing_is(longer, delimiter, variant, n, start, q);
    } else if variant is V2 && start <= len - n && delimiters_at(s, delimiter, len - n, n) {
        if q2 < len - n {
            lemma_closes_grows(s, longer, delimiter, variant, n, q2);
            assert(!closes_at(s, delimiter, variant, n, q2));
        }
        if q2 == len2 {
            let t = len - n;
            assert forall|j: int| 0 <= j < s.len() implies s[j] == #[trigger] longer[j] by {
                assert(s[j] == longer.subrange(0, s.len() as int)[j]);
            }
            assert(same(s[t], delimiter));
            assert(same(delimiter, longer[t]));
            lemma_run(longer, t);
            lemma_delimiter_run(longer, delimiter, t);
            let e = run_end(longer, t);
            if e < len {
                assert(same(s[e], delimiter));
            }
            if e < len2 {
                assert(closes_at(longer, delimiter, variant, n, e - n));
            }
            assert(delimiters_at(longer, delimiter, len2 - n, n));
        }
    }
}

/// How the item at `head` can change while the buffer grows.
///
/// - A non-envelope slice stays one, and its end can only increase. (At the
///   very end of the buffer, where nothing has been read, anything can come.)
/// - An undecided limiter slice stays undecided while it reaches the end of
///   the buffer. Once terminated it is an envelope when it is long enough for
///   a pair, and a non-envelope slice that takes in all of the run otherwise.
/// - A pending envelope stays pending, with the same payload start and a
///   payload end that can only increase, or becomes complete; a payload end
///   given while pending can only increase then as well.
/// - A complete envelope is final.
pub proof fn law_item_grows<T: PartialEq>(
    s: Seq<T>,
    longer: Seq<T>,
    pairs: Seq<LimiterPair<T>>,
    variant: Variant,
    head: int,
    recommended: bool,
)
    requires
        lawful_eq::<T>(),
        s.is_prefix_of(longer),
        0 <= head <= s.len(),
    ensures
        ({
            let before = item_at(s, pairs, variant, head, recommended);
            let after = item_at(longer, pairs, variant, head, recommended);
            let end = run_end(longer, head);
            match before {
                StateView::No(non) => head < s.len() ==> {
                    &&& after matches StateView::No(non2)
                    &&& non2.head_offset == non.head_offset
                    &&& non.tail_offset <= non2.tail_offset
                },
                StateView::OnLimiter(_) => if end == longer.len() {
                    after == before
                } else if pair_for(pairs, s[head], end - head, recommended) is Some {
                    after is Pending || after is OK
                } else {
                    &&& after matches StateView::No(non2)
                    &&& non2.head_offset == head
                    &&& end <= non2.tail_offset
                },
                StateView::Pending(old_e) => match after {
                    StateView::Pending(e) => {
                        &&& e.head_offset == head
                        &&& e.payload_head_offset == old_e.payload_head_offset
                        &&& old_e.payload_tail_offset matches Some(t) ==> {
                            &&& e.payload_tail_offset matches Some(t2)
                            &&& t <= t2
                        }
                    },
                    StateView::OK(e) => {
                        &&& e.head_offset == head
                        &&& e.payload_head_offset is Some ==> e.payload_head_offset
                            == old_e.payload_head_offset
                        &&& old_e.payload_tail_offset matches Some(t) ==> match e.payload_tail_offset {
                            Some(t2) => t <= t2,
                            None => old_e.payload_head_offset == Some(t),
                        }
                    },
                    _ => false,
                },
                StateView::OK(_) => after == before,
            }
        }),
{
    law_item_fits(s, pairs, variant, head, recommended);
    law_item_fits(longer, pairs, variant, head, recommended);
    if head < s.len() {
        assert(s[head] == longer.subrange(0, s.len() as int)[head]);
        lemma_run(s, head);
        lemma_run(longer, head);
        lemma_run_grows(s, longer, head);
        lemma_item_at_run(s, pairs, variant, head, recommended);
        lemma_item_at_run(longer, pairs, variant, head, recommended);
        let n = run_end(s, head) - head;
        lemma_pair_for(pairs, s[head], n, recommended);
        if run_end(s, head) < s.len() {
            lemma_next_opening_grows(s, longer, pairs, head + n, recommended);
            lemma_next_opening(s, pairs, head + n, recommended);
            lemma_next_opening(
                longer,
                pairs,
                next_opening(s, pairs, head + n, recommended),
                recommended,
            );
            if let Some(k) = pair_for(pairs, s[head], n, recommended) {
                lemma_envelope_grows(s, longer, pairs[k].delimiter, variant, head, n);
            }
        } else {
            lemma_next_opening_grows(s, longer, pairs, head, recommended);
            lemma_next_opening(longer, pairs, head, recommended);
            lemma_next_opening(longer, pairs, run_end(longer, head), recommended);
            lemma_next_opening(longer, pairs, s.len() as int, recommended);
        }
    }
}

/// A non-envelope slice keeps its head, and ends at the next opening after
/// the end it had.
pub(crate) proof fn lemma_non_envelop_grows<T: PartialEq>(
    s: Seq<T>,
    longer: Seq<T>,
    pairs: Seq<LimiterPair<T>>,
    variant: Variant,
    head: int,
    recommended: bool,
)
    requires
        lawful_eq::<T>(),
        s.is_prefix_of(longer),
        0 <= head <= s.len(),
    ensures
        item_at(s, pairs, variant, head, recommended) matches StateView::No(non) ==> {
            &&& non.tail_offset == next_opening(s, pairs, head, recommended)
            &&& next_opening(longer, pairs, head, recommended) == next_opening(
                longer,
                pairs,
                non.tail_offset,
                recommended,
            )
            &&& head < s.len() ==> head < non.tail_offset
            &&& head < non.tail_offset ==> item_at(longer, pairs, variant, head, recommended)
                == StateView::No(
                NonEnvelopView {
                    head_offset: head,
                    tail_offset: next_opening(longer, pairs, non.tail_offset, recommended),
                },
            )
        },
{
    law_item_fits(s, pairs, variant, head, recommended);
    lemma_next_opening(s, pairs, head, recommended);
    lemma_next_opening_grows(s, longer, pairs, head, recommended);
    let t = next_opening(s, pairs, head, recommended);
    lemma_next_opening(longer, pairs, t, recommended);
    if head < s.len() {
        lemma_item_at_run(s, pairs, variant, head, recommended);
    }
}

/// Updating is reading again: the state of the item at `head`, updated when
/// the buffer has grown, is the state that the item at `head` has in the
/// longer buffer. Only where that item is the same as before, has a known end
/// and something follows it, the update is the item that follows.
pub proof fn law_update_is_reading_again<T: PartialEq>(
    s: Seq<T>,
    longer: Seq<T>,
    pairs: Seq<LimiterPair<T>>,
    variant: Variant,
    head: int,
    recommended: bool,
)
    requires
        lawful_eq::<T>(),
        s.is_prefix_of(longer),
        0 <= head <= s.len(),
    ensures
        ({
            let before = item_at(s, pairs, variant, head, recommended);
            let after = item_at(longer, pairs, variant, head, recommended);
            update(longer, pairs, variant, before, recommended) == match before.end() {
                Some(end) if before == after && end < longer.len() => item_at(
                    longer,
                    pairs,
                    variant,
                    end,
                    recommended,
                ),
                _ => after,
            }
        }),
{
    let before = item_at(s, pairs, variant, head, recommended);
    law_item_fits(s, pairs, variant, head, recommended);
    law_item_fits(longer, pairs, variant, head, recommended);
    law_item_grows(s, longer, pairs, variant, head, recommended);
    lemma_held(before, s, longer, pairs, variant, recommended);
    match before {
        StateView::No(non) => {
            lemma_non_envelop_grows(s, longer, pairs, variant, head, recommended);
            lemma_next_opening(longer, pairs, non.tail_offset, recommended);
        },
        StateView::OnLimiter(_) => {},
        StateView::Pending(_) => {},
        StateView::OK(_) => {},
    }
}

/// A state that describes a buffer is consistent with every longer one.
proof fn lemma_held<T: PartialEq>(
    state: StateView,
    s: Seq<T>,
    longer: Seq<T>,
    pairs: Seq<LimiterPair<T>>,
    variant: Variant,
    recommended: bool,
)
    requires
        s.is_prefix_of(longer),
        describes(state, s, pairs, variant, recommended),
    ensures
        held(state, longer, pairs, variant, recommended),
        consistent(state, longer, pairs),
{
    assert(longer.take(s.len() as int) =~= s);
    assert(describes(state, longer.take(s.len() as int), pairs, variant, recommended));
    assert(held(state, longer, pairs, variant, recommended));
}

/// A state that describes the buffer still does after an update, however the
/// buffer has grown. The head tells what the update did: while it stays, the
/// item has been updated in place; once it moves on, the old state was final
/// and still describes the longer buffer, and the new one is the item that
/// starts where the old one ends.
pub proof fn law_update_describes<T: PartialEq>(
    state: StateView,
    s: Seq<T>,
    longer: Seq<T>,
    pairs: Seq<LimiterPair<T>>,
    variant: Variant,
    recommended: bool,
)
    requires
        lawful_eq::<T>(),
        s.is_prefix_of(longer),
        describes(state, s, pairs, variant, recommended),
    ensures
        ({
            let next = update(longer, pairs, variant, state, recommended);
            &&& describes(next, longer, pairs, variant, recommended)
            &&& state.head_offset() <= next.head_offset()
            &&& state.head_offset() != next.head_offset() ==> {
                &&& describes(state, longer, pairs, variant, recommended)
                &&& state.end() == Some(next.head_offset())
            }
        }),
{
    let head = state.head_offset();
    law_update_is_reading_again(s, longer, pairs, variant, head, recommended);
    law_item_fits(s, pairs, variant, head, recommended);
    law_item_fits(longer, pairs, variant, head, recommended);
    if let Some(end) = state.end() {
        if end <= longer.len() {
            law_item_fits(longer, pairs, variant, end, recommended);
        }
    }
}

/// What is read at a position describes the buffer; in particular the front
/// of the buffer does.
pub proof fn law_item_describes<T: PartialEq>(
    s: Seq<T>,
    pairs: Seq<LimiterPair<T>>,
    variant: Variant,
    head: int,
    recommended: bool,
)
    requires
        lawful_eq::<T>(),
        0 <= head <= s.len(),
    ensures
        describes(
            item_at(s, pairs, variant, head, recommended),
            s,
            pairs,
            variant,
            recommended,
        ),
{
    law_item_fits(s, pairs, variant, head, recommended);
}

/// The variant may change between calls: a state that was read with either
/// variant goes on as the variant of the update says. A non-envelope slice and
/// an undecided limiter slice are the same for both; a pending envelope is
/// read again from its head; a complete envelope stays final.
pub proof fn law_variant_may_change<T: PartialEq>(
    state: StateView,
    s: Seq<T>,
    longer: Seq<T>,
    pairs: Seq<LimiterPair<T>>,
    read_with: Variant,
    variant: Variant,
    recommended: bool,
)
    requires
        lawful_eq::<T>(),
        s.is_prefix_of(longer),
        describes(state, s, pairs, read_with, recommended),
    ensures
        ({
            let next = update(longer, pairs, variant, state, recommended);
            match state {
                StateView::OK(e) => {
                    &&& e.tail_offset is Some
                    &&& next == if e.tail_offset->0 < longer.len() {
                        item_at(longer, pairs, variant, e.tail_offset->0, recommended)
                    } else {
                        state
                    }
                },
                StateView::Pending(e) => {
                    &&& next == item_at(longer, pairs, variant, e.head_offset, recommended)
                    &&& next is Pending || next is OK
                },
                _ => describes(state, s, pairs, variant, recommended),
            }
        }),
{
    let head = state.head_offset();
    lemma_held(state, s, longer, pairs, read_with, recommended);
    law_item_fits(s, pairs, read_with, head, recommended);
    if head < s.len() {
        assert(s[head] == longer.subrange(0, s.len() as int)[head]);
        lemma_run(s, head);
        lemma_run_grows(s, longer, head);
        lemma_item_at_run(s, pairs, read_with, head, recommended);
        lemma_item_at_run(s, pairs, variant, head, recommended);
        lemma_item_at_run(longer, pairs, variant, head, recommended);
    }
}

/// An update goes on with every item that was read in some start of the
/// buffer, whichever variant and look-up it was read with.
///
/// A complete envelope gives way to the item at its end, once there is one. A
/// non-envelope slice takes in the plain contents that follow it, and gives
/// way to anything else. An undecided limiter slice is read again where it
/// starts, and so is a pending envelope; the front of the buffer is read where
/// the look-up of this update finds no envelope there.
pub proof fn law_update_goes_on<T: PartialEq>(
    s: Seq<T>,
    pairs: Seq<LimiterPair<T>>,
    variant: Variant,
    recommended: bool,
    m: int,
    head: int,
    read_with: Variant,
    look_up: bool,
)
    requires
        lawful_eq::<T>(),
        0 <= head <= m <= s.len(),
    ensures
        ({
            let state = item_at(s.take(m), pairs, read_with, head, look_up);
            let next = update(s, pairs, variant, state, recommended);
            match state {
                StateView::OK(e) => {
                    let end = e.tail_offset->0;
                    &&& e.tail_offset is Some
                    &&& end < s.len() ==> next == item_at(s, pairs, variant, end, recommended)
                    &&& end == s.len() ==> next == state
                    &&& end <= s.len()
                },
                StateView::No(non) => {
                    let after = item_at(s, pairs, variant, non.tail_offset, recommended);
                    match after {
                        StateView::No(rest) => next == StateView::No(
                            NonEnvelopView { head_offset: head, tail_offset: rest.tail_offset },
                        ),
                        _ => next == after,
                    }
                },
                StateView::OnLimiter(_) => next == item_at(s, pairs, variant, head, recommended),
                StateView::Pending(_) => {
                    let again = item_at(s, pairs, variant, head, recommended);
                    &&& again is Pending || again is OK ==> next == again
                    &&& again is No || again is OnLimiter ==> next == item_at(
                        s,
                        pairs,
                        variant,
                        0,
                        recommended,
                    )
                },
            }
        }),
{
    let t = s.take(m);
    let state = item_at(t, pairs, read_with, head, look_up);
    law_item_fits(t, pairs, read_with, head, look_up);
    assert(t.is_prefix_of(s)) by {
        assert(t =~= s.subrange(0, m));
    }
    lemma_held(state, t, s, pairs, read_with, look_up);
    if let StateView::No(non) = state {
        let tail = non.tail_offset;
        lemma_next_opening(s, pairs, tail, recommended);
        if tail < s.len() {
            law_item_fits(s, pairs, variant, tail, recommended);
            lemma_run(s, tail);
            lemma_item_at_run(s, pairs, variant, tail, recommended);
        }
    }
}

/// A state that no start of the buffer ever gave, at any position, with any
/// variant and look-up, is replaced by the front of the buffer.
pub proof fn law_foreign_state_recovers<T: PartialEq>(
    state: StateView,
    s: Seq<T>,
    pairs: Seq<LimiterPair<T>>,
    variant: Variant,
    recommended: bool,
)
    requires
        forall|m: int, head: int, read_with: Variant, look_up: bool|
            0 <= head <= m <= s.len() ==> state != #[trigger] item_at(
                s.take(m),
                pairs,
                read_with,
                head,
                look_up,
            ),
    ensures
        update(s, pairs, variant, state, recommended) == item_at(s, pairs, variant, 0, recommended),
{
}

/// A state inconsistent with the buffer, one that no start of it holds with
/// either variant, is recovered by re-parsing from the front.
pub proof fn law_lost_state_recovers<T: PartialEq>(
    state: StateView,
    s: Seq<T>,
    pairs: Seq<LimiterPair<T>>,
    variant: Variant,
    recommended: bool,
)
    requires
        !(exists|m: int, read_with: Variant, look_up: bool|
            0 <= m <= s.len() && #[trigger] describes(
                state,
                s.take(m),
                pairs,
                read_with,
                look_up,
            )),
    ensures
        update(s, pairs, variant, state, recommended) == item_at(s, pairs, variant, 0, recommended),
{
}

} // verus!
