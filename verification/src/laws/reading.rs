//! Reading a whole buffer, at once or while it grows.

use crate::laws::growth::{law_item_describes, law_item_grows, law_update_describes};
use crate::laws::shape::law_item_fits;
use crate::model::{describes, item_at, lawful_eq, update};
use crate::runs::{lemma_next_opening, lemma_next_opening_skip};
use crate::state::{LimiterPair, NonEnvelopView, StateView, Variant};
use vstd::prelude::*;

verus! {

/// The segments that start with `item` and go on with `rest`. Adjacent
/// non-envelope slices are one, and an empty one is none.
pub open spec fn prepend(item: StateView, rest: Seq<StateView>) -> Seq<StateView> {
    match item {
        StateView::No(non) => if non.head_offset == non.tail_offset {
            rest
        } else if rest.len() > 0 && rest[0] is No && rest[0].head_offset() == non.tail_offset {
            seq![
                StateView::No(
                    NonEnvelopView {
                        head_offset: non.head_offset,
                        tail_offset: rest[0]->No_0.tail_offset,
                    },
                ),
            ] + rest.skip(1)
        } else {
            seq![item] + rest
        },
        _ => seq![item] + rest,
    }
}

/// The segments that start with `items` and go on with `rest`.
pub open spec fn prepend_all(items: Seq<StateView>, rest: Seq<StateView>) -> Seq<StateView>
    decreases items.len(),
{
    if items.len() == 0 {
        rest
    } else {
        prepend_all(items.drop_last(), prepend(items.last(), rest))
    }
}

/// The segments of the buffer from `head` on, read item by item: non-envelope
/// slices, complete envelopes, and last a pending envelope or an undecided
/// limiter slice where the buffer ends with such.
pub open spec fn segments_from<T: PartialEq>(
    s: Seq<T>,
    pairs: Seq<LimiterPair<T>>,
    variant: Variant,
    head: int,
    recommended: bool,
) -> Seq<StateView>
    decreases s.len() - head,
{
    let item = item_at(s, pairs, variant, head, recommended);
    match item.end() {
        Some(end) => if head < end <= s.len() {
            prepend(item, segments_from(s, pairs, variant, end, recommended))
        } else {
            seq![]
        },
        None => seq![item],
    }
}

/// Two adjacent non-envelope slices before the rest are as good as one.
proof fn lemma_prepend_joins(a: int, b: int, c: int, rest: Seq<StateView>)
    requires
        a < b < c,
    ensures
        ({
            let first = StateView::No(NonEnvelopView { head_offset: a, tail_offset: b });
            let second = StateView::No(NonEnvelopView { head_offset: b, tail_offset: c });
            let both = StateView::No(NonEnvelopView { head_offset: a, tail_offset: c });
            prepend(first, prepend(second, rest)) == prepend(both, rest)
        }),
{
    let first = StateView::No(NonEnvelopView { head_offset: a, tail_offset: b });
    let second = StateView::No(NonEnvelopView { head_offset: b, tail_offset: c });
    let both = StateView::No(NonEnvelopView { head_offset: a, tail_offset: c });
    assert(prepend(first, prepend(second, rest)) =~= prepend(both, rest));
}

/// A non-envelope slice may later turn out to go on behind its end, where an
/// undecided limiter slice was. Read from its head it then has the later end;
/// read in two parts, the second part is the adjacent non-envelope slice up
/// to that end.
pub proof fn law_non_envelop_goes_on<T: PartialEq>(
    s: Seq<T>,
    longer: Seq<T>,
    pairs: Seq<LimiterPair<T>>,
    variant: Variant,
    head: int,
    recommended: bool,
)
    requires
        lawful_eq::<T>(),
        s.is_prefix_of(longer),
        0 <= head < s.len(),
    ensures
        item_at(s, pairs, variant, head, recommended) matches StateView::No(non) ==> {
            &&& item_at(longer, pairs, variant, head, recommended) matches StateView::No(non2)
            &&& non2.head_offset == head
            &&& non.tail_offset <= non2.tail_offset
            &&& non.tail_offset < non2.tail_offset ==> item_at(
                longer,
                pairs,
                variant,
                non.tail_offset,
                recommended,
            ) == StateView::No(
                NonEnvelopView { head_offset: non.tail_offset, tail_offset: non2.tail_offset },
            )
        },
{
    law_item_fits(s, pairs, variant, head, recommended);
    law_item_grows(s, longer, pairs, variant, head, recommended);
    law_item_fits(longer, pairs, variant, head, recommended);
    if let StateView::No(non) = item_at(s, pairs, variant, head, recommended) {
        lemma_next_opening(longer, pairs, head, recommended);
        lemma_next_opening_skip(longer, pairs, head, non.tail_offset, recommended);
    }
}

/// Nothing that comes later changes an item that has a known end: in every
/// longer buffer the segments from its head on are the item and then the
/// segments from its end on.
pub proof fn law_known_end_is_final<T: PartialEq>(
    state: StateView,
    s: Seq<T>,
    longer: Seq<T>,
    pairs: Seq<LimiterPair<T>>,
    variant: Variant,
    recommended: bool,
)
    requires
        lawful_eq::<T>(),
        s.is_prefix_of(longer),
        describes(state, s, pairs, variant, recommended),
        state.end() is Some,
    ensures
        segments_from(longer, pairs, variant, state.head_offset(), recommended) == prepend(
            state,
            segments_from(longer, pairs, variant, state.end()->0, recommended),
        ),
{
    let head = state.head_offset();
    let end = state.end()->0;
    law_item_fits(s, pairs, variant, head, recommended);
    law_item_grows(s, longer, pairs, variant, head, recommended);
    law_item_fits(longer, pairs, variant, head, recommended);
    if head < s.len() && state is No {
        law_non_envelop_goes_on(s, longer, pairs, variant, head, recommended);
        let end2 = item_at(longer, pairs, variant, head, recommended).end()->0;
        if end < end2 {
            lemma_prepend_joins(
                head,
                end,
                end2,
                segments_from(longer, pairs, variant, end2, recommended),
            );
        }
    }
}

/// A reader that has given out the items `given` and holds `state` is in step
/// with the buffer `s`: the state describes the buffer, and whatever comes
/// later, the segments of the whole buffer are those given out and then those
/// from the state's head on.
pub open spec fn in_step<T: PartialEq>(
    given: Seq<StateView>,
    state: StateView,
    s: Seq<T>,
    pairs: Seq<LimiterPair<T>>,
    variant: Variant,
    recommended: bool,
) -> bool {
    &&& describes(state, s, pairs, variant, recommended)
    &&& forall|longer: Seq<T>| #[trigger]
        s.is_prefix_of(longer) ==> segments_from(longer, pairs, variant, 0, recommended)
            == prepend_all(
            given,
            segments_from(longer, pairs, variant, state.head_offset(), recommended),
        )
}

/// A reader that starts with the front of the buffer, and has given out
/// nothing, is in step.
pub proof fn law_front_is_in_step<T: PartialEq>(
    s: Seq<T>,
    pairs: Seq<LimiterPair<T>>,
    variant: Variant,
    recommended: bool,
)
    requires
        lawful_eq::<T>(),
    ensures
        in_step(
            seq![],
            item_at(s, pairs, variant, 0, recommended),
            s,
            pairs,
            variant,
            recommended,
        ),
{
    law_item_describes(s, pairs, variant, 0, recommended);
    law_item_fits(s, pairs, variant, 0, recommended);
}

/// A reader that updates its state whenever the buffer has grown, and gives
/// out the old state when the head moves on from it, stays in step. So, in
/// whatever pieces a buffer arrives, the segments read from it are those that
/// are read from it at once; only a non-envelope slice may be given out in
/// adjacent parts.
pub proof fn law_update_stays_in_step<T: PartialEq>(
    given: Seq<StateView>,
    state: StateView,
    s: Seq<T>,
    longer: Seq<T>,
    pairs: Seq<LimiterPair<T>>,
    variant: Variant,
    recommended: bool,
)
    requires
        lawful_eq::<T>(),
        s.is_prefix_of(longer),
        in_step(given, state, s, pairs, variant, recommended),
    ensures
        ({
            let next = update(longer, pairs, variant, state, recommended);
            let moved = next.head_offset() != state.head_offset();
            in_step(
                if moved {
                    given.push(state)
                } else {
                    given
                },
                next,
                longer,
                pairs,
                variant,
                recommended,
            )
        }),
{
    let next = update(longer, pairs, variant, state, recommended);
    law_update_describes(state, s, longer, pairs, variant, recommended);
    assert forall|longest: Seq<T>| #[trigger] longer.is_prefix_of(longest) implies segments_from(
        longest,
        pairs,
        variant,
        0,
        recommended,
    ) == prepend_all(
        if next.head_offset() != state.head_offset() {
            given.push(state)
        } else {
            given
        },
        segments_from(longest, pairs, variant, next.head_offset(), recommended),
    ) by {
        assert(s.is_prefix_of(longest)) by {
            assert(s =~= longer.subrange(0, s.len() as int));
            assert(longer =~= longest.subrange(0, longer.len() as int));
            assert(s =~= longest.subrange(0, s.len() as int));
        }
        if next.head_offset() != state.head_offset() {
            law_known_end_is_final(state, s, longest, pairs, variant, recommended);
            assert(given.push(state).drop_last() =~= given);
        }
    }
}

/// The segments of a buffer that is not empty start at its start, each starts
/// where the one before it ends, and only the last can have no known end;
/// where it has one, it is the end of the buffer.
pub proof fn law_segments_tile_buffer<T: PartialEq>(
    s: Seq<T>,
    pairs: Seq<LimiterPair<T>>,
    variant: Variant,
    head: int,
    recommended: bool,
)
    requires
        lawful_eq::<T>(),
        0 <= head < s.len(),
    ensures
        ({
            let segments = segments_from(s, pairs, variant, head, recommended);
            &&& segments.len() > 0
            &&& segments[0].head_offset() == head
            &&& forall|i: int|
                0 <= i < segments.len() - 1 ==> (#[trigger] segments[i]).end() == Some(
                    segments[i + 1].head_offset(),
                )
            &&& segments.last().end() matches Some(end) ==> end == s.len()
        }),
    decreases s.len() - head,
{
    law_item_fits(s, pairs, variant, head, recommended);
    let item = item_at(s, pairs, variant, head, recommended);
    let segments = segments_from(s, pairs, variant, head, recommended);
    if let Some(end) = item.end() {
        let rest = segments_from(s, pairs, variant, end, recommended);
        if end < s.len() {
            law_segments_tile_buffer(s, pairs, variant, end, recommended);
            if segments.len() == rest.len() {
                assert forall|i: int| 0 <= i < segments.len() - 1 implies (
                #[trigger] segments[i]).end() == Some(segments[i + 1].head_offset()) by {
                    assert(segments[i + 1] == rest[i + 1]);
                    assert(rest[i].end() == Some(rest[i + 1].head_offset()));
                }
                if segments.len() > 1 {
                    assert(segments.last() == rest.last());
                }
            } else {
                assert forall|i: int| 0 <= i < segments.len() - 1 implies (
                #[trigger] segments[i]).end() == Some(segments[i + 1].head_offset()) by {
                    assert(segments[i + 1] == rest[i]);
                    if i > 0 {
                        assert(segments[i] == rest[i - 1]);
                    }
                }
                assert(segments.last() == rest.last());
            }
        } else {
            law_item_fits(s, pairs, variant, end, recommended);
            assert(rest =~= seq![]);
            assert(segments =~= seq![item]);
        }
    }
}

} // verus!
