//! What a limiter pair set decides.

use crate::laws::shape::law_item_fits;
use crate::model::{
    considers, consistent, describes, held, is_limiter, item_at, lawful_eq, next_opening, opens_at,
    pair_for, recommended_set, run_end, same, update,
};
use crate::runs::{
    lemma_next_opening, lemma_next_opening_is, lemma_pair_for, lemma_pair_for_is,
    lemma_pair_for_none, lemma_run,
};
use crate::state::{LimiterPair, StateView, Variant};
use vstd::prelude::*;
use vstd::std_specs::cmp::PartialEqSpec;

verus! {

/// No two pairs of the set share a limiter.
pub open spec fn distinct_limiters<T: PartialEq>(pairs: Seq<LimiterPair<T>>) -> bool {
    forall|i: int, j: int| #![trigger pairs[i], pairs[j]]
        0 <= i < j < pairs.len() ==> !same(pairs[i].limiter, pairs[j].limiter)
}

/// No two pairs of the set share a delimiter.
pub open spec fn distinct_delimiters<T: PartialEq>(pairs: Seq<LimiterPair<T>>) -> bool {
    forall|i: int, j: int| #![trigger pairs[i], pairs[j]]
        0 <= i < j < pairs.len() ==> !same(pairs[i].delimiter, pairs[j].delimiter)
}

/// Two ways to find pairs agree: the same elements are limiters, and every
/// run has the same pair, with the same delimiter, in both.
spec fn agree<T: PartialEq>(
    a: Seq<LimiterPair<T>>,
    a_recommended: bool,
    b: Seq<LimiterPair<T>>,
    b_recommended: bool,
) -> bool {
    &&& a.len() == b.len()
    &&& forall|k: int| #![trigger a[k]] 0 <= k < a.len() ==> a[k].delimiter == b[k].delimiter
    &&& forall|c: T| #[trigger] is_limiter(a, c) == is_limiter(b, c)
    &&& forall|c: T, r: int|
        r >= 1 ==> #[trigger] pair_for(a, c, r, a_recommended) == pair_for(b, c, r, b_recommended)
}

/// What opens is the same when the pairs are.
proof fn lemma_agree_opening<T: PartialEq>(
    s: Seq<T>,
    a: Seq<LimiterPair<T>>,
    a_recommended: bool,
    b: Seq<LimiterPair<T>>,
    b_recommended: bool,
    from: int,
)
    requires
        agree(a, a_recommended, b, b_recommended),
        0 <= from <= s.len(),
    ensures
        next_opening(s, a, from, a_recommended) == next_opening(s, b, from, b_recommended),
{
    assert forall|i: int| 0 <= i < s.len() implies opens_at(s, a, a_recommended, i)
        == #[trigger] opens_at(s, b, b_recommended, i) by {
        lemma_run(s, i);
        assert(is_limiter(a, s[i]) == is_limiter(b, s[i]));
        assert(pair_for(a, s[i], run_end(s, i) - i, a_recommended) == pair_for(
            b,
            s[i],
            run_end(s, i) - i,
            b_recommended,
        ));
    }
    lemma_next_opening(s, a, from, a_recommended);
    lemma_next_opening_is(
        s,
        b,
        from,
        b_recommended,
        next_opening(s, a, from, a_recommended),
    );
}

/// Items are the same when the pairs are.
proof fn lemma_agree_item<T: PartialEq>(
    s: Seq<T>,
    a: Seq<LimiterPair<T>>,
    a_recommended: bool,
    b: Seq<LimiterPair<T>>,
    b_recommended: bool,
    variant: Variant,
    head: int,
)
    requires
        agree(a, a_recommended, b, b_recommended),
        0 <= head <= s.len(),
    ensures
        item_at(s, a, variant, head, a_recommended) == item_at(s, b, variant, head, b_recommended),
{
    lemma_agree_opening(s, a, a_recommended, b, b_recommended, head);
    lemma_next_opening(s, a, head, a_recommended);
    if head < s.len() {
        lemma_run(s, head);
        let n = run_end(s, head) - head;
        assert(pair_for(a, s[head], n, a_recommended) == pair_for(b, s[head], n, b_recommended));
        lemma_pair_for(a, s[head], n, a_recommended);
        if let Some(k) = pair_for(a, s[head], n, a_recommended) {
            assert(a[k].delimiter == b[k].delimiter);
        }
    }
}

/// The same states are held when the pairs are the same.
proof fn lemma_agree_held<T: PartialEq>(
    s: Seq<T>,
    a: Seq<LimiterPair<T>>,
    a_recommended: bool,
    b: Seq<LimiterPair<T>>,
    b_recommended: bool,
    variant: Variant,
    state: StateView,
)
    requires
        agree(a, a_recommended, b, b_recommended),
    ensures
        held(state, s, a, variant, a_recommended) == held(state, s, b, variant, b_recommended),
{
    let head = state.head_offset();
    assert forall|m: int| 0 <= m <= s.len() implies describes(
        state,
        #[trigger] s.take(m),
        a,
        variant,
        a_recommended,
    ) == describes(state, s.take(m), b, variant, b_recommended) by {
        if 0 <= head <= m {
            lemma_agree_item(s.take(m), a, a_recommended, b, b_recommended, variant, head);
        }
    }
}

/// The same states are consistent when both look-ups agree.
proof fn lemma_agree_consistent<T: PartialEq>(
    s: Seq<T>,
    a: Seq<LimiterPair<T>>,
    b: Seq<LimiterPair<T>>,
    state: StateView,
)
    requires
        agree(a, true, b, true),
        agree(a, false, b, false),
    ensures
        consistent(state, s, a) == consistent(state, s, b),
{
    assert forall|variant: Variant, recommended: bool| #[trigger]
        held(state, s, a, variant, recommended) == held(state, s, b, variant, recommended) by {
        lemma_agree_held(s, a, recommended, b, recommended, variant, state);
    }
    if consistent(state, s, b) {
        let (v, look_up) = choose|v: Variant, look_up: bool| #[trigger]
            held(state, s, b, v, look_up);
        assert(held(state, s, a, v, look_up));
    }
}

/// Updates are the same when the pairs are.
proof fn lemma_agree_update<T: PartialEq>(
    s: Seq<T>,
    a: Seq<LimiterPair<T>>,
    a_recommended: bool,
    b: Seq<LimiterPair<T>>,
    b_recommended: bool,
    variant: Variant,
    state: StateView,
)
    requires
        lawful_eq::<T>(),
        agree(a, a_recommended, b, b_recommended),
        consistent(state, s, a) == consistent(state, s, b),
    ensures
        update(s, a, variant, state, a_recommended) == update(s, b, variant, state, b_recommended),
{
    lemma_agree_item(s, a, a_recommended, b, b_recommended, variant, 0);
    if consistent(state, s, a) {
        let (v, look_up) = choose|v: Variant, look_up: bool| #[trigger]
            held(state, s, a, v, look_up);
        let m = choose|m: int|
            0 <= m <= s.len() && describes(state, #[trigger] s.take(m), a, v, look_up);
        law_item_fits(s.take(m), a, v, state.head_offset(), look_up);
        lemma_agree_item(s, a, a_recommended, b, b_recommended, variant, state.head_offset());
        if let Some(end) = state.end() {
            lemma_agree_item(s, a, a_recommended, b, b_recommended, variant, end);
            lemma_agree_opening(s, a, a_recommended, b, b_recommended, end);
        }
    }
}

/// In a set with distinct limiters a pair is the one for every run of its
/// limiter that reaches its `least_repeat`, however pairs are looked up.
pub proof fn law_distinct_limiter_resolves<T: PartialEq>(
    pairs: Seq<LimiterPair<T>>,
    k: int,
    c: T,
    r: int,
    recommended: bool,
)
    requires
        lawful_eq::<T>(),
        distinct_limiters(pairs),
        0 <= k < pairs.len(),
        same(pairs[k].limiter, c),
    ensures
        pair_for(pairs, c, r, recommended) == if pairs[k].least_repeat <= r {
            Some(k)
        } else {
            None
        },
{
    assert forall|j: int| 0 <= j < pairs.len() && j != k implies !(#[trigger] considers(
        pairs,
        c,
        r,
        recommended,
        j,
    )) by {
        if same(pairs[j].limiter, c) {
            assert(same(c, pairs[j].limiter));
            assert(same(c, pairs[k].limiter));
            assert(same(pairs[k].limiter, pairs[j].limiter));
            assert(same(pairs[j].limiter, pairs[k].limiter));
        }
    }
    if considers(pairs, c, r, recommended, k) {
        lemma_pair_for_is(pairs, c, r, recommended, k);
    } else {
        lemma_pair_for_none(pairs, c, r, recommended);
    }
}

/// With distinct limiters both ways to look up a pair agree.
proof fn lemma_distinct_agree<T: PartialEq>(pairs: Seq<LimiterPair<T>>)
    requires
        lawful_eq::<T>(),
        distinct_limiters(pairs),
    ensures
        agree(pairs, true, pairs, false),
{
    assert forall|c: T, r: int| r >= 1 implies #[trigger] pair_for(pairs, c, r, true) == pair_for(
        pairs,
        c,
        r,
        false,
    ) by {
        if is_limiter(pairs, c) {
            let k = choose|k: int| 0 <= k < pairs.len() && same(#[trigger] pairs[k].limiter, c);
            law_distinct_limiter_resolves(pairs, k, c, r, true);
            law_distinct_limiter_resolves(pairs, k, c, r, false);
        } else {
            lemma_pair_for(pairs, c, r, true);
            lemma_pair_for(pairs, c, r, false);
        }
    }
}

/// A set that passes the best-practice check has distinct limiters and
/// distinct delimiters.
pub proof fn law_recommended_set_is_distinct<T: PartialEq>(pairs: Seq<LimiterPair<T>>)
    requires
        recommended_set(pairs),
    ensures
        distinct_limiters(pairs),
        distinct_delimiters(pairs),
{
    assert forall|i: int, j: int| #![trigger pairs[i], pairs[j]]
        0 <= i < j < pairs.len() implies !same(pairs[i].limiter, pairs[j].limiter) && !same(
        pairs[i].delimiter,
        pairs[j].delimiter,
    ) by {}
}

/// In a set that passes the best-practice check no limiter, of whichever pair,
/// is a delimiter of the set, and two pairs share neither.
pub proof fn law_recommended_set_is_unambiguous<T: PartialEq>(
    pairs: Seq<LimiterPair<T>>,
    i: int,
    j: int,
)
    requires
        recommended_set(pairs),
        0 <= i < pairs.len(),
        0 <= j < pairs.len(),
    ensures
        !pairs[i].limiter.eq_spec(&pairs[j].delimiter),
        i < j ==> !pairs[i].limiter.eq_spec(&pairs[j].limiter),
        i < j ==> !pairs[i].delimiter.eq_spec(&pairs[j].delimiter),
{
    assert(!same(pairs[i].limiter, pairs[j].delimiter));
    if i < j {
        assert(!same(pairs[i].limiter, pairs[j].limiter));
        assert(!same(pairs[i].delimiter, pairs[j].delimiter));
    }
}

/// Every set whose limiters and delimiters are all different passes the
/// best-practice check, however many pairs it has and whatever their
/// `least_repeat`.
pub proof fn law_different_elements_are_recommended<T: PartialEq>(pairs: Seq<LimiterPair<T>>)
    requires
        forall|i: int, j: int| #![trigger pairs[i], pairs[j]]
            0 <= i < pairs.len() && 0 <= j < pairs.len() ==> !pairs[i].limiter.eq_spec(
                &pairs[j].delimiter,
            ),
        forall|i: int, j: int| #![trigger pairs[i], pairs[j]]
            0 <= i < j < pairs.len() ==> !pairs[i].limiter.eq_spec(&pairs[j].limiter)
                && !pairs[i].delimiter.eq_spec(&pairs[j].delimiter),
    ensures
        recommended_set(pairs),
{
}

/// The best-practice check does not look at `least_repeat`: sets with the same
/// limiters and delimiters both pass or both fail.
pub proof fn law_recommended_ignores_least_repeat<T: PartialEq>(
    a: Seq<LimiterPair<T>>,
    b: Seq<LimiterPair<T>>,
)
    requires
        a.len() == b.len(),
        forall|i: int| #![trigger a[i]] #![trigger b[i]]
            0 <= i < a.len() ==> a[i].limiter == b[i].limiter && a[i].delimiter == b[i].delimiter,
    ensures
        recommended_set(a) == recommended_set(b),
{
    if recommended_set(a) {
        lemma_recommended_transfers(a, b);
    }
    if recommended_set(b) {
        lemma_recommended_transfers(b, a);
    }
}

/// A set with the limiters and delimiters of a set that passes passes.
proof fn lemma_recommended_transfers<T: PartialEq>(
    a: Seq<LimiterPair<T>>,
    b: Seq<LimiterPair<T>>,
)
    requires
        recommended_set(a),
        a.len() == b.len(),
        forall|i: int| #![trigger a[i]] #![trigger b[i]]
            0 <= i < a.len() ==> a[i].limiter == b[i].limiter && a[i].delimiter == b[i].delimiter,
    ensures
        recommended_set(b),
{
    assert forall|i: int, j: int| #![trigger b[i], b[j]]
        0 <= i < b.len() && 0 <= j < b.len() implies {
        &&& !b[i].limiter.eq_spec(&b[j].delimiter)
        &&& i < j ==> !b[i].limiter.eq_spec(&b[j].limiter) && !b[i].delimiter.eq_spec(
            &b[j].delimiter,
        )
    } by {
        law_recommended_set_is_unambiguous(a, i, j);
    }
    law_different_elements_are_recommended(b);
}

/// The order of the pairs does not matter to the best-practice check.
pub proof fn law_recommended_ignores_order<T: PartialEq>(
    pairs: Seq<LimiterPair<T>>,
    i: int,
    j: int,
)
    requires
        lawful_eq::<T>(),
        0 <= i < pairs.len(),
        0 <= j < pairs.len(),
    ensures
        recommended_set(pairs.update(i, pairs[j]).update(j, pairs[i])) == recommended_set(pairs),
{
    let swapped = pairs.update(i, pairs[j]).update(j, pairs[i]);
    if recommended_set(pairs) {
        lemma_recommended_swapped(pairs, i, j);
    }
    if recommended_set(swapped) {
        lemma_recommended_swapped(swapped, i, j);
        assert(swapped.update(i, swapped[j]).update(j, swapped[i]) =~= pairs);
    }
}

/// A set that passes still passes with two of its pairs swapped.
proof fn lemma_recommended_swapped<T: PartialEq>(pairs: Seq<LimiterPair<T>>, i: int, j: int)
    requires
        lawful_eq::<T>(),
        recommended_set(pairs),
        0 <= i < pairs.len(),
        0 <= j < pairs.len(),
    ensures
        recommended_set(pairs.update(i, pairs[j]).update(j, pairs[i])),
{
    let swapped = pairs.update(i, pairs[j]).update(j, pairs[i]);
    assert forall|a: int, b: int| #![trigger swapped[a], swapped[b]]
        0 <= a < swapped.len() && 0 <= b < swapped.len() implies {
        &&& !swapped[a].limiter.eq_spec(&swapped[b].delimiter)
        &&& a < b ==> !swapped[a].limiter.eq_spec(&swapped[b].limiter)
            && !swapped[a].delimiter.eq_spec(&swapped[b].delimiter)
    } by {
        let at = |x: int|
            if x == i {
                j
            } else if x == j {
                i
            } else {
                x
            };
        let (x, y) = (at(a), at(b));
        assert(swapped[a] == pairs[x] && swapped[b] == pairs[y]);
        law_recommended_set_is_unambiguous(pairs, x, y);
        law_recommended_set_is_unambiguous(pairs, y, x);
        if same(pairs[x].limiter, pairs[y].limiter) {
            assert(same(pairs[y].limiter, pairs[x].limiter));
        }
        if same(pairs[x].delimiter, pairs[y].delimiter) {
            assert(same(pairs[y].delimiter, pairs[x].delimiter));
        }
    }
    law_different_elements_are_recommended(swapped);
}

/// A set passes the best-practice check with one more pair exactly when it
/// passes without it and the limiter and the delimiter of the new pair differ
/// from each other and from all that are there.
pub proof fn law_recommended_with_one_more<T: PartialEq>(
    pairs: Seq<LimiterPair<T>>,
    pair: LimiterPair<T>,
)
    ensures
        recommended_set(pairs.push(pair)) <==> {
            &&& recommended_set(pairs)
            &&& !pair.limiter.eq_spec(&pair.delimiter)
            &&& forall|i: int|
                0 <= i < pairs.len() ==> {
                    &&& !(#[trigger] pairs[i]).limiter.eq_spec(&pair.limiter)
                    &&& !pairs[i].limiter.eq_spec(&pair.delimiter)
                    &&& !pairs[i].delimiter.eq_spec(&pair.delimiter)
                    &&& !pair.limiter.eq_spec(&pairs[i].delimiter)
                }
        },
{
    let more = pairs.push(pair);
    let last = pairs.len() as int;
    if recommended_set(more) {
        assert forall|i: int, j: int| #![trigger pairs[i], pairs[j]]
            0 <= i < pairs.len() && 0 <= j < pairs.len() implies {
            &&& !pairs[i].limiter.eq_spec(&pairs[j].delimiter)
            &&& i < j ==> !pairs[i].limiter.eq_spec(&pairs[j].limiter)
                && !pairs[i].delimiter.eq_spec(&pairs[j].delimiter)
        } by {
            assert(more[i] == pairs[i] && more[j] == pairs[j]);
            law_recommended_set_is_unambiguous(more, i, j);
        }
        law_different_elements_are_recommended(pairs);
        law_recommended_set_is_unambiguous(more, last, last);
        assert forall|i: int| 0 <= i < pairs.len() implies {
            &&& !(#[trigger] pairs[i]).limiter.eq_spec(&pair.limiter)
            &&& !pairs[i].limiter.eq_spec(&pair.delimiter)
            &&& !pairs[i].delimiter.eq_spec(&pair.delimiter)
            &&& !pair.limiter.eq_spec(&pairs[i].delimiter)
        } by {
            assert(more[i] == pairs[i]);
            law_recommended_set_is_unambiguous(more, i, last);
            law_recommended_set_is_unambiguous(more, last, i);
        }
    }
    if recommended_set(pairs) && !pair.limiter.eq_spec(&pair.delimiter) && (forall|i: int|
        0 <= i < pairs.len() ==> {
            &&& !(#[trigger] pairs[i]).limiter.eq_spec(&pair.limiter)
            &&& !pairs[i].limiter.eq_spec(&pair.delimiter)
            &&& !pairs[i].delimiter.eq_spec(&pair.delimiter)
            &&& !pair.limiter.eq_spec(&pairs[i].delimiter)
        }) {
        assert forall|i: int, j: int| #![trigger more[i], more[j]]
            0 <= i < more.len() && 0 <= j < more.len() implies {
            &&& !more[i].limiter.eq_spec(&more[j].delimiter)
            &&& i < j ==> !more[i].limiter.eq_spec(&more[j].limiter)
                && !more[i].delimiter.eq_spec(&more[j].delimiter)
        } by {
            if i < last {
                assert(more[i] == pairs[i]);
            }
            if j < last {
                assert(more[j] == pairs[j]);
            }
            if i < last && j < last {
                law_recommended_set_is_unambiguous(pairs, i, j);
            }
        }
        law_different_elements_are_recommended(more);
    }
}

/// On a set with distinct limiters, which every set that passes the
/// best-practice check is, the unchecked look-up reads every item as the
/// checked one does.
pub proof fn law_unchecked_item<T: PartialEq>(
    s: Seq<T>,
    pairs: Seq<LimiterPair<T>>,
    variant: Variant,
    head: int,
)
    requires
        lawful_eq::<T>(),
        distinct_limiters(pairs),
        0 <= head <= s.len(),
    ensures
        item_at(s, pairs, variant, head, true) == item_at(s, pairs, variant, head, false),
{
    lemma_distinct_agree(pairs);
    lemma_agree_item(s, pairs, true, pairs, false, variant, head);
}

/// On a set with distinct limiters the unchecked look-up updates every state
/// as the checked one does.
pub proof fn law_unchecked_update<T: PartialEq>(
    s: Seq<T>,
    pairs: Seq<LimiterPair<T>>,
    variant: Variant,
    state: StateView,
)
    requires
        lawful_eq::<T>(),
        distinct_limiters(pairs),
    ensures
        update(s, pairs, variant, state, true) == update(s, pairs, variant, state, false),
{
    lemma_distinct_agree(pairs);
    lemma_agree_update(s, pairs, true, pairs, false, variant, state);
}

/// The set with every `least_repeat` of `0` replaced by `1`.
pub open spec fn at_least_one<T>(pairs: Seq<LimiterPair<T>>) -> Seq<LimiterPair<T>> {
    Seq::new(
        pairs.len(),
        |k: int|
            LimiterPair {
                limiter: pairs[k].limiter,
                delimiter: pairs[k].delimiter,
                least_repeat: if pairs[k].least_repeat == 0 {
                    1u32
                } else {
                    pairs[k].least_repeat
                },
            },
    )
}

/// Raising a `least_repeat` from `0` to `1` finds the same pairs.
proof fn lemma_at_least_one_agrees<T: PartialEq>(
    pairs: Seq<LimiterPair<T>>,
    recommended: bool,
)
    ensures
        agree(pairs, recommended, at_least_one(pairs), recommended),
{
    let raised = at_least_one(pairs);
    assert forall|c: T| #[trigger] is_limiter(pairs, c) == is_limiter(raised, c) by {
        if is_limiter(pairs, c) {
            let k = choose|k: int| 0 <= k < pairs.len() && same(#[trigger] pairs[k].limiter, c);
            assert(same(raised[k].limiter, c));
        }
        if is_limiter(raised, c) {
            let k = choose|k: int| 0 <= k < raised.len() && same(#[trigger] raised[k].limiter, c);
            assert(same(pairs[k].limiter, c));
        }
    }
    assert forall|c: T, r: int| r >= 1 implies #[trigger] pair_for(pairs, c, r, recommended)
        == pair_for(raised, c, r, recommended) by {
        assert forall|j: int| 0 <= j < pairs.len() implies considers(pairs, c, r, recommended, j)
            == #[trigger] considers(raised, c, r, recommended, j) by {}
        lemma_pair_for(raised, c, r, recommended);
        match pair_for(raised, c, r, recommended) {
            Some(k) => {
                assert forall|j: int| 0 <= j < k implies !(#[trigger] considers(
                    pairs,
                    c,
                    r,
                    recommended,
                    j,
                )) by {
                    assert(!considers(raised, c, r, recommended, j));
                }
                lemma_pair_for_is(pairs, c, r, recommended, k);
            },
            None => {
                if forall|j: int|
                    0 <= j < raised.len() ==> !(#[trigger] considers(
                        raised,
                        c,
                        r,
                        recommended,
                        j,
                    )) {
                    assert forall|j: int| 0 <= j < pairs.len() implies !(#[trigger] considers(
                        pairs,
                        c,
                        r,
                        recommended,
                        j,
                    )) by {
                        assert(!considers(raised, c, r, recommended, j));
                    }
                    lemma_pair_for_none(pairs, c, r, recommended);
                } else {
                    let k = choose|k: int|
                        {
                            &&& 0 <= k < raised.len()
                            &&& #[trigger] considers(raised, c, r, recommended, k)
                            &&& r < raised[k].least_repeat
                            &&& forall|j: int|
                                0 <= j < k ==> !(#[trigger] considers(
                                    raised,
                                    c,
                                    r,
                                    recommended,
                                    j,
                                ))
                        };
                    assert forall|j: int| 0 <= j < k implies !(#[trigger] considers(
                        pairs,
                        c,
                        r,
                        recommended,
                        j,
                    )) by {
                        assert(!considers(raised, c, r, recommended, j));
                    }
                    lemma_pair_for_is(pairs, c, r, recommended, k);
                }
            },
        }
    }
}

/// A `least_repeat` of `0` behaves exactly like `1`: every item and every
/// update is the same.
pub proof fn law_least_repeat_zero_is_one<T: PartialEq>(
    s: Seq<T>,
    pairs: Seq<LimiterPair<T>>,
    variant: Variant,
    head: int,
    state: StateView,
    recommended: bool,
)
    requires
        lawful_eq::<T>(),
        0 <= head <= s.len(),
    ensures
        item_at(s, pairs, variant, head, recommended) == item_at(
            s,
            at_least_one(pairs),
            variant,
            head,
            recommended,
        ),
        update(s, pairs, variant, state, recommended) == update(
            s,
            at_least_one(pairs),
            variant,
            state,
            recommended,
        ),
{
    lemma_at_least_one_agrees(pairs, true);
    lemma_at_least_one_agrees(pairs, false);
    lemma_agree_consistent(s, pairs, at_least_one(pairs), state);
    lemma_agree_item(s, pairs, recommended, at_least_one(pairs), recommended, variant, head);
    lemma_agree_update(s, pairs, recommended, at_least_one(pairs), recommended, variant, state);
}

} // verus!
