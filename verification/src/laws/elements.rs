//! What every answer says of the buffer, element by element.
//!
//! These laws speak of the elements of the buffer, of the limiters, delimiters
//! and repeat counts of the pairs, and of `==` of the element type, and of
//! nothing else but the answer. Together they leave one answer for every
//! buffer, set, variant and position.

use crate::model::{
    closes_at, closing, considers, envelope, is_limiter, item_at, lawful_eq, next_opening, opens_at,
    pair_for, run_end, same,
};
use crate::runs::{
    lemma_closing, lemma_item_at_run, lemma_next_opening, lemma_next_opening_is, lemma_pair_for,
    lemma_pair_for_is, lemma_pair_for_none, lemma_run, lemma_run_is,
};
use crate::state::{LimiterPair, NonEnvelopView, StateView, Variant};
use vstd::prelude::*;
use vstd::std_specs::cmp::PartialEqSpec;

verus! {

/// Elements are the same when `==` of their type says so.
pub proof fn law_same_is_equality<T: PartialEq>(a: T, b: T)
    ensures
        same(a, b) == a.eq_spec(&b),
{
}

/// A symmetric and transitive `==` with a specification is all that the exact
/// contracts ask of an element type.
pub proof fn law_lawful_types<T: PartialEq>()
    ensures
        lawful_eq::<T>() <==> {
            &&& T::obeys_eq_spec()
            &&& forall|a: T, b: T| #[trigger] a.eq_spec(&b) ==> b.eq_spec(&a)
            &&& forall|a: T, b: T, c: T| #[trigger]
                a.eq_spec(&b) && #[trigger] b.eq_spec(&c) ==> a.eq_spec(&c)
        },
{
    if lawful_eq::<T>() {
        assert forall|a: T, b: T| #[trigger] a.eq_spec(&b) implies b.eq_spec(&a) by {
            assert(same(a, b) ==> same(b, a));
        }
        assert forall|a: T, b: T, c: T| #[trigger]
            a.eq_spec(&b) && #[trigger] b.eq_spec(&c) implies a.eq_spec(&c) by {
            assert(same(a, b) && same(b, c) ==> same(a, c));
        }
    }
}

/// The exact contracts hold for buffers of bytes, of every other integer and
/// of truth values.
pub proof fn law_plain_values_are_lawful()
    ensures
        lawful_eq::<u8>(),
        lawful_eq::<u16>(),
        lawful_eq::<u32>(),
        lawful_eq::<u64>(),
        lawful_eq::<u128>(),
        lawful_eq::<usize>(),
        lawful_eq::<i8>(),
        lawful_eq::<i16>(),
        lawful_eq::<i32>(),
        lawful_eq::<i64>(),
        lawful_eq::<i128>(),
        lawful_eq::<isize>(),
        lawful_eq::<bool>(),
{
}

/// A run takes every element that equals its first and stops at the first one
/// that does not, or at the end of the buffer.
pub proof fn law_run_is_maximal<T: PartialEq>(s: Seq<T>, i: int, e: int)
    requires
        0 <= i < s.len(),
    ensures
        run_end(s, i) == e <==> {
            &&& i < e <= s.len()
            &&& forall|j: int| i < j < e ==> (#[trigger] s[j]).eq_spec(&s[i])
            &&& e < s.len() ==> !s[e].eq_spec(&s[i])
        },
{
    lemma_run(s, i);
    assert forall|j: int| i < j < run_end(s, i) implies (#[trigger] s[j]).eq_spec(&s[i]) by {
        assert(same(s[j], s[i]));
    }
    if i < e <= s.len() && (forall|j: int| i < j < e ==> (#[trigger] s[j]).eq_spec(&s[i])) && (e
        < s.len() ==> !s[e].eq_spec(&s[i])) {
        lemma_run_is(s, i, e);
    }
}

/// The limiters of a set are the limiters of its pairs; a delimiter alone is
/// none.
pub proof fn law_limiters_of_set<T: PartialEq>(pairs: Seq<LimiterPair<T>>, c: T)
    ensures
        is_limiter(pairs, c) <==> exists|k: int|
            0 <= k < pairs.len() && (#[trigger] pairs[k]).limiter.eq_spec(&c),
{
    if exists|k: int| 0 <= k < pairs.len() && (#[trigger] pairs[k]).limiter.eq_spec(&c) {
        let k = choose|k: int| 0 <= k < pairs.len() && (#[trigger] pairs[k]).limiter.eq_spec(&c);
        assert(same(pairs[k].limiter, c));
    }
}

/// The checked look-up gives a run of `c` of length `r` the first pair, in set
/// order, whose limiter is `c` and whose `least_repeat` the run reaches,
/// whether or not other pairs share the limiter; and none only when there is
/// no such pair.
pub proof fn law_checked_pair<T: PartialEq>(pairs: Seq<LimiterPair<T>>, c: T, r: int, k: int)
    ensures
        pair_for(pairs, c, r, false) == Some(k) <==> {
            &&& 0 <= k < pairs.len()
            &&& pairs[k].limiter.eq_spec(&c)
            &&& pairs[k].least_repeat <= r
            &&& forall|j: int|
                0 <= j < k ==> !((#[trigger] pairs[j]).limiter.eq_spec(&c) && pairs[j].least_repeat
                    <= r)
        },
        pair_for(pairs, c, r, false) is None <==> forall|j: int|
            0 <= j < pairs.len() ==> !((#[trigger] pairs[j]).limiter.eq_spec(&c)
                && pairs[j].least_repeat <= r),
{
    lemma_pair_for(pairs, c, r, false);
    assert forall|j: int| considers(pairs, c, r, false, j) == ((
    #[trigger] pairs[j]).limiter.eq_spec(&c) && pairs[j].least_repeat <= r) by {}
    if 0 <= k < pairs.len() && pairs[k].limiter.eq_spec(&c) && pairs[k].least_repeat <= r && (
    forall|j: int|
        0 <= j < k ==> !((#[trigger] pairs[j]).limiter.eq_spec(&c) && pairs[j].least_repeat <= r)) {
        assert forall|j: int| 0 <= j < k implies !(#[trigger] considers(pairs, c, r, false, j)) by {
            assert(!(pairs[j].limiter.eq_spec(&c) && pairs[j].least_repeat <= r));
        }
        lemma_pair_for_is(pairs, c, r, false, k);
    }
    if pair_for(pairs, c, r, false) is None {
        assert forall|j: int| 0 <= j < pairs.len() implies !((
        #[trigger] pairs[j]).limiter.eq_spec(&c) && pairs[j].least_repeat <= r) by {
            assert(!considers(pairs, c, r, false, j));
        }
    }
}

/// The unchecked look-up knows the first pair of each limiter only: it gives
/// a run of `c` of length `r` that pair, when the run reaches its
/// `least_repeat`.
pub proof fn law_unchecked_pair<T: PartialEq>(pairs: Seq<LimiterPair<T>>, c: T, r: int, k: int)
    requires
        0 <= k < pairs.len(),
        pairs[k].limiter.eq_spec(&c),
        forall|j: int| 0 <= j < k ==> !(#[trigger] pairs[j]).limiter.eq_spec(&c),
    ensures
        pair_for(pairs, c, r, true) == if pairs[k].least_repeat <= r {
            Some(k)
        } else {
            None
        },
{
    lemma_pair_for_is(pairs, c, r, true, k);
}

/// An element that is no limiter has no pair, in either look-up.
pub proof fn law_no_limiter_no_pair<T: PartialEq>(
    pairs: Seq<LimiterPair<T>>,
    c: T,
    r: int,
    recommended: bool,
)
    requires
        forall|j: int| 0 <= j < pairs.len() ==> !(#[trigger] pairs[j]).limiter.eq_spec(&c),
    ensures
        pair_for(pairs, c, r, recommended) is None,
        !is_limiter(pairs, c),
{
    lemma_pair_for_none(pairs, c, r, recommended);
}

/// At the end of the buffer there is an empty non-envelope slice, and nothing
/// else.
pub proof fn law_nothing_at_end<T: PartialEq>(
    s: Seq<T>,
    pairs: Seq<LimiterPair<T>>,
    variant: Variant,
    recommended: bool,
)
    ensures
        item_at(s, pairs, variant, s.len() as int, recommended) == StateView::No(
            NonEnvelopView { head_offset: s.len() as int, tail_offset: s.len() as int },
        ),
{
    lemma_next_opening(s, pairs, s.len() as int, recommended);
}

/// Contents without a limiter of any pair are plain to the end of the buffer,
/// whatever delimiters are in them.
pub proof fn law_without_limiters_all_is_plain<T: PartialEq>(
    s: Seq<T>,
    pairs: Seq<LimiterPair<T>>,
    variant: Variant,
    head: int,
    recommended: bool,
)
    requires
        0 <= head <= s.len(),
        forall|j: int, k: int|
            head <= j < s.len() && 0 <= k < pairs.len() ==> !(
            #[trigger] pairs[k]).limiter.eq_spec(#[trigger] &s[j]),
    ensures
        item_at(s, pairs, variant, head, recommended) == StateView::No(
            NonEnvelopView { head_offset: head, tail_offset: s.len() as int },
        ),
{
    assert forall|i: int| head <= i < s.len() implies !(#[trigger] opens_at(
        s,
        pairs,
        recommended,
        i,
    )) by {
        assert forall|k: int| 0 <= k < pairs.len() implies !same(#[trigger] pairs[k].limiter, s[i]) by {
            assert(!pairs[k].limiter.eq_spec(&s[i]));
        }
    }
    lemma_next_opening_is(s, pairs, head, recommended, s.len() as int);
}

/// A limiter slice is undecided exactly when some pair has its element as the
/// limiter and everything up to the end of the buffer equals that element.
pub proof fn law_undecided_limiter_slice<T: PartialEq>(
    s: Seq<T>,
    pairs: Seq<LimiterPair<T>>,
    variant: Variant,
    head: int,
    recommended: bool,
)
    requires
        lawful_eq::<T>(),
        0 <= head <= s.len(),
    ensures
        ({
            let item = item_at(s, pairs, variant, head, recommended);
            &&& item is OnLimiter <==> {
                &&& head < s.len()
                &&& exists|k: int|
                    0 <= k < pairs.len() && (#[trigger] pairs[k]).limiter.eq_spec(&s[head])
                &&& forall|j: int| head < j < s.len() ==> (#[trigger] s[j]).eq_spec(&s[head])
            }
            &&& item is OnLimiter ==> item == StateView::OnLimiter(head)
        }),
{
    lemma_next_opening(s, pairs, head, recommended);
    if head < s.len() {
        law_limiters_of_set(pairs, s[head]);
        law_run_is_maximal(s, head, run_end(s, head));
        law_run_is_maximal(s, head, s.len() as int);
        lemma_item_at_run(s, pairs, variant, head, recommended);
        lemma_pair_for(pairs, s[head], run_end(s, head) - head, recommended);
    }
}

/// Contents that start with the limiter of no pair start a non-envelope slice;
/// when everything up to the end of the buffer equals that element, the slice
/// takes all of it.
pub proof fn law_other_run_is_plain<T: PartialEq>(
    s: Seq<T>,
    pairs: Seq<LimiterPair<T>>,
    variant: Variant,
    head: int,
    recommended: bool,
)
    requires
        lawful_eq::<T>(),
        0 <= head < s.len(),
        forall|k: int| 0 <= k < pairs.len() ==> !(#[trigger] pairs[k]).limiter.eq_spec(&s[head]),
    ensures
        item_at(s, pairs, variant, head, recommended) is No,
        (forall|j: int| head < j < s.len() ==> (#[trigger] s[j]).eq_spec(&s[head])) ==> item_at(
            s,
            pairs,
            variant,
            head,
            recommended,
        ) == StateView::No(NonEnvelopView { head_offset: head, tail_offset: s.len() as int }),
{
    law_no_limiter_no_pair(pairs, s[head], run_end(s, head) - head, recommended);
    law_run_is_maximal(s, head, run_end(s, head));
    law_run_is_maximal(s, head, s.len() as int);
    lemma_item_at_run(s, pairs, variant, head, recommended);
}

/// A run of `n` that is followed by another element is an envelope, pending or
/// complete, as soon as it reaches the `least_repeat` of any pair with its
/// element as the limiter, however many pairs share that limiter; when it
/// reaches none, it starts a non-envelope slice.
pub proof fn law_terminated_run<T: PartialEq>(
    s: Seq<T>,
    pairs: Seq<LimiterPair<T>>,
    variant: Variant,
    head: int,
    n: int,
)
    requires
        lawful_eq::<T>(),
        0 <= head,
        1 <= n,
        head + n < s.len(),
        forall|j: int| head < j < head + n ==> (#[trigger] s[j]).eq_spec(&s[head]),
        !s[head + n].eq_spec(&s[head]),
    ensures
        ({
            let item = item_at(s, pairs, variant, head, false);
            let reached = exists|k: int|
                {
                    &&& 0 <= k < pairs.len()
                    &&& (#[trigger] pairs[k]).limiter.eq_spec(&s[head])
                    &&& pairs[k].least_repeat <= n
                };
            &&& reached ==> item is Pending || item is OK
            &&& !reached ==> item is No
        }),
{
    law_run_is_maximal(s, head, head + n);
    law_checked_pair(pairs, s[head], n, 0);
    lemma_item_at_run(s, pairs, variant, head, false);
    if let Some(k) = pair_for(pairs, s[head], n, false) {
        law_checked_pair(pairs, s[head], n, k);
    }
}

/// In the unchecked look-up a run of `n` that is followed by another element
/// is an envelope exactly when it reaches the `least_repeat` of the first pair
/// with its element as the limiter.
pub proof fn law_terminated_run_unchecked<T: PartialEq>(
    s: Seq<T>,
    pairs: Seq<LimiterPair<T>>,
    variant: Variant,
    head: int,
    n: int,
    k: int,
)
    requires
        lawful_eq::<T>(),
        0 <= head,
        1 <= n,
        head + n < s.len(),
        forall|j: int| head < j < head + n ==> (#[trigger] s[j]).eq_spec(&s[head]),
        !s[head + n].eq_spec(&s[head]),
        0 <= k < pairs.len(),
        pairs[k].limiter.eq_spec(&s[head]),
        forall|j: int| 0 <= j < k ==> !(#[trigger] pairs[j]).limiter.eq_spec(&s[head]),
    ensures
        ({
            let item = item_at(s, pairs, variant, head, true);
            if pairs[k].least_repeat <= n {
                item is Pending || item is OK
            } else {
                item is No
            }
        }),
{
    law_run_is_maximal(s, head, head + n);
    law_unchecked_pair(pairs, s[head], n, k);
    lemma_item_at_run(s, pairs, variant, head, true);
}

/// A non-envelope slice ends at the first potential limiter slice.
///
/// In it, every limiter run is followed by another element and is too short
/// for every pair with that limiter (for the first such pair, in the unchecked
/// look-up). Where it ends before the buffer does, a limiter run starts that
/// is long enough for such a pair, or that reaches the end of the buffer.
pub proof fn law_non_envelop_slice<T: PartialEq>(
    s: Seq<T>,
    pairs: Seq<LimiterPair<T>>,
    variant: Variant,
    head: int,
    recommended: bool,
)
    requires
        lawful_eq::<T>(),
        0 <= head <= s.len(),
    ensures
        item_at(s, pairs, variant, head, recommended) matches StateView::No(non) ==> {
            let t = non.tail_offset;
            &&& non.head_offset == head
            &&& head <= t <= s.len()
            &&& head < s.len() ==> head < t
            &&& forall|i: int, k: int|
                {
                    &&& head <= i < t
                    &&& 0 <= k < pairs.len()
                    &&& (#[trigger] pairs[k]).limiter.eq_spec(#[trigger] &s[i])
                    &&& recommended ==> forall|j: int|
                        0 <= j < k ==> !(#[trigger] pairs[j]).limiter.eq_spec(&s[i])
                } ==> exists|e: int|
                    {
                        &&& i < e < s.len()
                        &&& forall|j: int| i < j < e ==> (#[trigger] s[j]).eq_spec(&s[i])
                        &&& !(#[trigger] s[e]).eq_spec(&s[i])
                        &&& e - i < pairs[k].least_repeat
                    }
            &&& t < s.len() ==> exists|k: int|
                {
                    &&& 0 <= k < pairs.len()
                    &&& (#[trigger] pairs[k]).limiter.eq_spec(&s[t])
                    &&& {
                        ||| forall|j: int| t < j < s.len() ==> (#[trigger] s[j]).eq_spec(&s[t])
                        ||| {
                            &&& recommended ==> forall|j: int|
                                0 <= j < k ==> !(#[trigger] pairs[j]).limiter.eq_spec(&s[t])
                            &&& exists|e: int|
                                {
                                    &&& t < e < s.len()
                                    &&& forall|j: int|
                                        t < j < e ==> (#[trigger] s[j]).eq_spec(&s[t])
                                    &&& !(#[trigger] s[e]).eq_spec(&s[t])
                                    &&& pairs[k].least_repeat <= e - t
                                }
                        }
                    }
                }
        },
{
    let item = item_at(s, pairs, variant, head, recommended);
    let t = next_opening(s, pairs, head, recommended);
    lemma_next_opening(s, pairs, head, recommended);
    if let StateView::No(non) = item {
        if head < s.len() {
            lemma_run(s, head);
            lemma_item_at_run(s, pairs, variant, head, recommended);
        }
        lemma_slice_ends_at_opening(s, pairs, variant, head, recommended);
        assert forall|i: int, k: int|
            {
                &&& head <= i < t
                &&& 0 <= k < pairs.len()
                &&& (#[trigger] pairs[k]).limiter.eq_spec(#[trigger] &s[i])
                &&& recommended ==> forall|j: int|
                    0 <= j < k ==> !(#[trigger] pairs[j]).limiter.eq_spec(&s[i])
            } implies exists|e: int|
            {
                &&& i < e < s.len()
                &&& forall|j: int| i < j < e ==> (#[trigger] s[j]).eq_spec(&s[i])
                &&& !(#[trigger] s[e]).eq_spec(&s[i])
                &&& e - i < pairs[k].least_repeat
            } by {
            let e = run_end(s, i);
            law_run_is_maximal(s, i, e);
            law_limiters_of_set(pairs, s[i]);
            assert(!opens_at(s, pairs, recommended, i));
            if recommended {
                law_unchecked_pair(pairs, s[i], e - i, k);
            } else {
                law_checked_pair(pairs, s[i], e - i, k);
            }
            assert(!s[e].eq_spec(&s[i]));
        }
        if t < s.len() {
            let e = run_end(s, t);
            law_run_is_maximal(s, t, e);
            law_limiters_of_set(pairs, s[t]);
            if e < s.len() {
                lemma_pair_for(pairs, s[t], e - t, recommended);
                let k = pair_for(pairs, s[t], e - t, recommended)->0;
                assert(same(pairs[k].limiter, s[t]));
                assert forall|j: int| recommended && 0 <= j < k implies !(
                #[trigger] pairs[j]).limiter.eq_spec(&s[t]) by {
                    assert(!considers(pairs, s[t], e - t, recommended, j));
                }
                assert(!s[e].eq_spec(&s[t]));
                assert(pairs[k].limiter.eq_spec(&s[t]));
            }
        }
    }
}

/// An item that is a non-envelope slice ends at the next opening.
proof fn lemma_slice_ends_at_opening<T: PartialEq>(
    s: Seq<T>,
    pairs: Seq<LimiterPair<T>>,
    variant: Variant,
    head: int,
    recommended: bool,
)
    requires
        0 <= head <= s.len(),
    ensures
        item_at(s, pairs, variant, head, recommended) matches StateView::No(non)
            ==> non.head_offset == head && non.tail_offset == next_opening(
            s,
            pairs,
            head,
            recommended,
        ),
{
}

/// What an envelope is, for a limiter slice of `n` elements that is followed
/// by another element and opens pair `k`.
///
/// A complete envelope ends with `n` delimiters of the pair, followed with
/// [`Variant::V2`] by an element that is not the delimiter. Its payload is all
/// between the two slices; an empty one has no offsets.
///
/// While it is pending its payload starts after the limiter slice, and the
/// payload's end is told with [`Variant::V2`] exactly when the last `n`
/// elements are delimiters after the limiter slice.
pub proof fn law_envelope_elements<T: PartialEq>(
    s: Seq<T>,
    pairs: Seq<LimiterPair<T>>,
    variant: Variant,
    head: int,
    recommended: bool,
    n: int,
    k: int,
)
    requires
        lawful_eq::<T>(),
        0 <= head,
        1 <= n,
        head + n < s.len(),
        forall|j: int| head < j < head + n ==> (#[trigger] s[j]).eq_spec(&s[head]),
        !s[head + n].eq_spec(&s[head]),
        0 <= k < pairs.len(),
        pairs[k].limiter.eq_spec(&s[head]),
        pairs[k].least_repeat <= n,
        forall|j: int|
            0 <= j < k ==> !((#[trigger] pairs[j]).limiter.eq_spec(&s[head]) && (recommended
                || pairs[j].least_repeat <= n)),
    ensures
        ({
            let d = pairs[k].delimiter;
            let start = head + n;
            match item_at(s, pairs, variant, head, recommended) {
                StateView::OK(e) => {
                    let end = e.tail_offset->0;
                    let q = end - n;
                    &&& e.head_offset == head
                    &&& e.tail_offset is Some
                    &&& start <= q
                    &&& end <= s.len()
                    &&& e.payload_head_offset == if q == start {
                        None
                    } else {
                        Some(start)
                    }
                    &&& e.payload_tail_offset == if q == start {
                        None
                    } else {
                        Some(q)
                    }
                    &&& forall|i: int| q <= i < end ==> (#[trigger] s[i]).eq_spec(&d)
                    &&& variant == Variant::V2 ==> end < s.len() && !s[end].eq_spec(&d)
                },
                StateView::Pending(e) => {
                    let last = s.len() - n;
                    &&& e.head_offset == head
                    &&& e.payload_head_offset == Some(start)
                    &&& e.tail_offset is None
                    &&& e.payload_tail_offset is Some ==> e.payload_tail_offset == Some(last)
                    &&& e.payload_tail_offset is Some <==> {
                        &&& variant == Variant::V2
                        &&& start <= last
                        &&& forall|i: int| last <= i < s.len() ==> (#[trigger] s[i]).eq_spec(&d)
                    }
                },
                _ => false,
            }
        }),
{
    let d = pairs[k].delimiter;
    let start = head + n;
    law_run_is_maximal(s, head, start);
    lemma_first_considered(pairs, s[head], n, recommended, k);
    lemma_item_at_run(s, pairs, variant, head, recommended);
    lemma_closing(s, d, variant, n, start);
    let q = closing(s, d, variant, n, start);
    assert(item_at(s, pairs, variant, head, recommended) == envelope(s, d, variant, head, n));
    if q < s.len() {
        assert forall|i: int| q <= i < q + n implies (#[trigger] s[i]).eq_spec(&d) by {
            assert(same(s[i], d));
        }
    } else {
        let last = s.len() - n;
        if start <= last {
            if forall|i: int| last <= i < s.len() ==> (#[trigger] s[i]).eq_spec(&d) {
                assert forall|i: int| last <= i < last + n implies same(#[trigger] s[i], d) by {
                    assert(s[i].eq_spec(&d));
                }
            }
            if forall|i: int| last <= i < last + n ==> same(#[trigger] s[i], d) {
                assert forall|i: int| last <= i < s.len() implies (#[trigger] s[i]).eq_spec(&d) by {
                    assert(same(s[i], d));
                }
            }
        }
    }
}

/// The first delimiter slice ends the envelope.
///
/// Wherever `n` delimiters stand after a limiter slice of `n` elements that
/// opens pair `k`, followed with [`Variant::V2`] by an element that is not the
/// delimiter, the envelope is complete, and ends with these or earlier.
pub proof fn law_first_delimiter_slice_ends<T: PartialEq>(
    s: Seq<T>,
    pairs: Seq<LimiterPair<T>>,
    variant: Variant,
    head: int,
    recommended: bool,
    n: int,
    k: int,
    q: int,
)
    requires
        lawful_eq::<T>(),
        0 <= head,
        1 <= n,
        head + n < s.len(),
        forall|j: int| head < j < head + n ==> (#[trigger] s[j]).eq_spec(&s[head]),
        !s[head + n].eq_spec(&s[head]),
        0 <= k < pairs.len(),
        pairs[k].limiter.eq_spec(&s[head]),
        pairs[k].least_repeat <= n,
        forall|j: int|
            0 <= j < k ==> !((#[trigger] pairs[j]).limiter.eq_spec(&s[head]) && (recommended
                || pairs[j].least_repeat <= n)),
        head + n <= q <= s.len() - n,
        forall|i: int| q <= i < q + n ==> (#[trigger] s[i]).eq_spec(&pairs[k].delimiter),
        variant == Variant::V2 ==> q + n < s.len() && !s[q + n].eq_spec(&pairs[k].delimiter),
    ensures
        item_at(s, pairs, variant, head, recommended) matches StateView::OK(e) && e.tail_offset->0
            <= q + n,
{
    let d = pairs[k].delimiter;
    law_run_is_maximal(s, head, head + n);
    lemma_first_considered(pairs, s[head], n, recommended, k);
    lemma_item_at_run(s, pairs, variant, head, recommended);
    lemma_closing(s, d, variant, n, head + n);
    assert(closes_at(s, d, variant, n, q));
}

/// The first pair that is considered and reached is the pair.
proof fn lemma_first_considered<T: PartialEq>(
    pairs: Seq<LimiterPair<T>>,
    c: T,
    n: int,
    recommended: bool,
    k: int,
)
    requires
        0 <= k < pairs.len(),
        pairs[k].limiter.eq_spec(&c),
        pairs[k].least_repeat <= n,
        forall|j: int|
            0 <= j < k ==> !((#[trigger] pairs[j]).limiter.eq_spec(&c) && (recommended
                || pairs[j].least_repeat <= n)),
    ensures
        pair_for(pairs, c, n, recommended) == Some(k),
{
    assert forall|j: int| 0 <= j < k implies !(#[trigger] considers(pairs, c, n, recommended, j)) by {
        assert(!(pairs[j].limiter.eq_spec(&c) && (recommended || pairs[j].least_repeat <= n)));
    }
    lemma_pair_for_is(pairs, c, n, recommended, k);
}

} // verus!
