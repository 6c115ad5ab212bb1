//! What is written is read back verbatim.

use crate::laws::sets::{distinct_delimiters, distinct_limiters, law_distinct_limiter_resolves};
use crate::model::{closes_at, complete, item_at, lawful_eq, opens_at, pair_for, run_end, same};
use crate::runs::{
    lemma_closing_is, lemma_item_at_run, lemma_next_opening_is, lemma_pair_for, lemma_run,
    lemma_run_is,
};
use crate::state::{LimiterPair, NonEnvelopView, StateView, Variant};
use vstd::prelude::*;

verus! {

/// `n` repeats of `c`.
pub open spec fn repeated<T>(c: T, n: int) -> Seq<T> {
    Seq::new(n as nat, |i: int| c)
}

/// An envelope as it is written: the limiter slice, the payload, and the
/// delimiter slice of the same length.
pub open spec fn written<T>(pair: LimiterPair<T>, n: int, payload: Seq<T>) -> Seq<T> {
    repeated(pair.limiter, n) + payload + repeated(pair.delimiter, n)
}

/// A pair whose limiter and delimiter equal themselves, as every element
/// does whose type has a reflexive `==`.
pub open spec fn reflexive_pair<T: PartialEq>(pair: LimiterPair<T>) -> bool {
    same(pair.limiter, pair.limiter) && same(pair.delimiter, pair.delimiter)
}

/// What follows the limiter slice is not the limiter: the payload does not
/// start with it, and an empty payload is not written with a pair whose
/// limiter is its delimiter.
pub open spec fn head_free<T: PartialEq>(pair: LimiterPair<T>, payload: Seq<T>) -> bool {
    if payload.len() > 0 {
        !same(payload[0], pair.limiter)
    } else {
        !same(pair.delimiter, pair.limiter)
    }
}

/// The payload does not end with the delimiter.
pub open spec fn tail_free<T: PartialEq>(pair: LimiterPair<T>, payload: Seq<T>) -> bool {
    payload.len() > 0 ==> !same(payload.last(), pair.delimiter)
}

/// `n` repeats do not collide with the payload: none of its own slices would
/// end the envelope.
pub open spec fn count_free<T: PartialEq>(
    pair: LimiterPair<T>,
    variant: Variant,
    n: int,
    payload: Seq<T>,
) -> bool {
    forall|q: int|
        0 <= q < payload.len() ==> !(#[trigger] closes_at(
            payload,
            pair.delimiter,
            variant,
            n,
            q,
        ))
}

/// The payload can be written with `n` repeats of the pair. The tail of the
/// payload matters with [`Variant::V1`] only.
pub open spec fn writable<T: PartialEq>(
    pair: LimiterPair<T>,
    variant: Variant,
    n: int,
    payload: Seq<T>,
) -> bool {
    &&& head_free(pair, payload)
    &&& variant is V1 ==> tail_free(pair, payload)
    &&& count_free(pair, variant, n, payload)
}

/// What comes after an envelope lets it be confirmed: anything with
/// [`Variant::V1`], a non-delimiter with [`Variant::V2`].
pub open spec fn confirms<T: PartialEq>(
    pair: LimiterPair<T>,
    variant: Variant,
    rest: Seq<T>,
) -> bool {
    variant is V2 ==> rest.len() > 0 && !same(rest[0], pair.delimiter)
}

/// The run at a written envelope is its limiter slice.
proof fn lemma_written_head<T: PartialEq>(
    before: Seq<T>,
    pair: LimiterPair<T>,
    n: int,
    payload: Seq<T>,
    rest: Seq<T>,
)
    requires
        reflexive_pair(pair),
        1 <= n,
        head_free(pair, payload),
    ensures
        ({
            let s = before + written(pair, n, payload) + rest;
            let head = before.len() as int;
            &&& s[head] == pair.limiter
            &&& run_end(s, head) == head + n
            &&& head + n < s.len()
        }),
{
    let s = before + written(pair, n, payload) + rest;
    let head = before.len() as int;
    assert forall|j: int| head <= j < head + n implies #[trigger] s[j] == pair.limiter by {}
    if payload.len() > 0 {
        assert(s[head + n] == payload[0]);
    } else {
        assert(s[head + n] == pair.delimiter);
    }
    lemma_run_is(s, head, head + n);
}

/// An envelope written at the end of `before`, and followed by `rest`, is
/// read as a complete envelope whose payload offsets give back the payload
/// verbatim. The pair it is written with is the one that `n` repeats of its
/// limiter open, and neither the payload nor what follows collides with it.
pub proof fn law_written_is_read<T: PartialEq>(
    before: Seq<T>,
    rest: Seq<T>,
    pairs: Seq<LimiterPair<T>>,
    k: int,
    variant: Variant,
    n: int,
    payload: Seq<T>,
    recommended: bool,
)
    requires
        lawful_eq::<T>(),
        1 <= n,
        reflexive_pair(pairs[k]),
        pair_for(pairs, pairs[k].limiter, n, recommended) == Some(k),
        writable(pairs[k], variant, n, payload),
        confirms(pairs[k], variant, rest),
    ensures
        ({
            let s = before + written(pairs[k], n, payload) + rest;
            let head = before.len() as int;
            let start = head + n;
            let end = start + payload.len();
            &&& item_at(s, pairs, variant, head, recommended) == complete(head, start, end, end + n)
            &&& s.subrange(start, end) == payload
        }),
{
    let pair = pairs[k];
    let d = pair.delimiter;
    let s = before + written(pair, n, payload) + rest;
    let head = before.len() as int;
    let start = head + n;
    let end = start + payload.len();
    lemma_written_head(before, pair, n, payload, rest);
    lemma_item_at_run(s, pairs, variant, head, recommended);
    assert forall|j: int| start <= j < end implies #[trigger] s[j] == payload[j - start] by {}
    assert forall|j: int| end <= j < end + n implies #[trigger] s[j] == d by {}
    if variant is V2 {
        assert(s[end + n] == rest[0]);
    }
    assert(closes_at(s, d, variant, n, end));
    assert forall|q: int| start <= q < end implies !(#[trigger] closes_at(s, d, variant, n, q)) by {
        if closes_at(s, d, variant, n, q) {
            let p = q - start;
            assert(!closes_at(payload, d, variant, n, p));
            if q + n < end || (variant is V1 && q + n == end) {
                assert forall|i: int| p <= i < p + n implies same(#[trigger] payload[i], d) by {
                    assert(same(s[i + start], d));
                }
                if variant is V2 {
                    assert(s[q + n] == payload[p + n]);
                }
                assert(closes_at(payload, d, variant, n, p));
            } else if variant is V1 {
                assert(same(s[end - 1], d));
                assert(s[end - 1] == payload.last());
            } else {
                assert(s[q + n] == d);
            }
        }
    }
    lemma_closing_is(s, d, variant, n, start, end);
    assert(s.subrange(start, end) =~= payload);
}

/// A writer can always pick a repeat count that does not collide with the
/// payload: every count longer than the payload is one.
pub proof fn law_writer_can_pick_count<T: PartialEq>(
    pair: LimiterPair<T>,
    variant: Variant,
    payload: Seq<T>,
)
    requires
        head_free(pair, payload),
        variant is V1 ==> tail_free(pair, payload),
    ensures
        forall|n: int| payload.len() < n ==> #[trigger] writable(pair, variant, n, payload),
        exists|n: int|
            1 <= n && pair.least_repeat <= n && #[trigger] writable(pair, variant, n, payload),
{
    assert forall|n: int| payload.len() < n implies #[trigger] writable(
        pair,
        variant,
        n,
        payload,
    ) by {
        assert forall|q: int| 0 <= q < payload.len() implies !(#[trigger] closes_at(
            payload,
            pair.delimiter,
            variant,
            n,
            q,
        )) by {}
    }
    assert(writable(pair, variant, payload.len() + 1 + pair.least_repeat, payload));
}

/// From `from` on, `s` holds plain contents: no run in it, taken up to the end
/// of `s`, is a limiter run that is long enough for a pair.
pub open spec fn plain_from<T: PartialEq>(
    s: Seq<T>,
    pairs: Seq<LimiterPair<T>>,
    from: int,
    recommended: bool,
) -> bool {
    forall|j: int|
        from <= j < s.len() ==> (#[trigger] pair_for(
            pairs,
            s[j],
            run_end(s, j) - j,
            recommended,
        )) is None
}

/// Plain contents before an envelope are a non-envelope slice that ends
/// exactly where the envelope starts, as long as they do not end with the
/// envelope's limiter.
pub proof fn law_plain_contents_end_at_envelope<T: PartialEq>(
    before: Seq<T>,
    rest: Seq<T>,
    pairs: Seq<LimiterPair<T>>,
    k: int,
    variant: Variant,
    n: int,
    payload: Seq<T>,
    from: int,
    recommended: bool,
)
    requires
        lawful_eq::<T>(),
        1 <= n,
        reflexive_pair(pairs[k]),
        pair_for(pairs, pairs[k].limiter, n, recommended) == Some(k),
        head_free(pairs[k], payload),
        0 <= from < before.len(),
        plain_from(before, pairs, from, recommended),
        !same(before.last(), pairs[k].limiter),
    ensures
        item_at(
            before + written(pairs[k], n, payload) + rest,
            pairs,
            variant,
            from,
            recommended,
        ) == StateView::No(
            NonEnvelopView { head_offset: from, tail_offset: before.len() as int },
        ),
{
    let pair = pairs[k];
    let s = before + written(pair, n, payload) + rest;
    let head = before.len() as int;
    lemma_written_head(before, pair, n, payload, rest);
    lemma_pair_for(pairs, pair.limiter, n, recommended);
    assert(opens_at(s, pairs, recommended, head));
    assert forall|j: int| from <= j < head implies !(#[trigger] opens_at(
        s,
        pairs,
        recommended,
        j,
    )) by {
        lemma_run(before, j);
        let e = run_end(before, j);
        assert forall|i: int| 0 <= i < head implies #[trigger] s[i] == before[i] by {}
        if e == head && same(s[head], s[j]) {
            assert(same(s[j], pair.limiter));
            if j < head - 1 {
                assert(same(before[head - 1], before[j]));
                assert(same(before[head - 1], pair.limiter));
            }
        }
        assert forall|i: int| j < i < e implies same(#[trigger] s[i], s[j]) by {
            assert(same(before[i], before[j]));
        }
        lemma_run_is(s, j, e);
        assert(pair_for(pairs, before[j], e - j, recommended) is None);
    }
    lemma_next_opening_is(s, pairs, from, recommended, head);
}

/// Two envelopes right behind each other are both read. With [`Variant::V1`]
/// they may share a pair; with [`Variant::V2`] the limiter of the second must
/// not be the delimiter of the first, so they may share a pair whose limiter
/// is not its delimiter.
pub proof fn law_contiguous_envelopes<T: PartialEq>(
    before: Seq<T>,
    rest: Seq<T>,
    pairs: Seq<LimiterPair<T>>,
    variant: Variant,
    k1: int,
    n1: int,
    payload1: Seq<T>,
    k2: int,
    n2: int,
    payload2: Seq<T>,
    recommended: bool,
)
    requires
        lawful_eq::<T>(),
        1 <= n1,
        1 <= n2,
        reflexive_pair(pairs[k1]),
        reflexive_pair(pairs[k2]),
        pair_for(pairs, pairs[k1].limiter, n1, recommended) == Some(k1),
        pair_for(pairs, pairs[k2].limiter, n2, recommended) == Some(k2),
        writable(pairs[k1], variant, n1, payload1),
        writable(pairs[k2], variant, n2, payload2),
        variant is V2 ==> !same(pairs[k2].limiter, pairs[k1].delimiter),
        confirms(pairs[k2], variant, rest),
    ensures
        ({
            let s = before + written(pairs[k1], n1, payload1) + written(pairs[k2], n2, payload2)
                + rest;
            let head1 = before.len() as int;
            let end1 = head1 + n1 + payload1.len();
            let head2 = end1 + n1;
            let end2 = head2 + n2 + payload2.len();
            &&& item_at(s, pairs, variant, head1, recommended) == complete(
                head1,
                head1 + n1,
                end1,
                head2,
            )
            &&& item_at(s, pairs, variant, head2, recommended) == complete(
                head2,
                head2 + n2,
                end2,
                end2 + n2,
            )
            &&& s.subrange(head1 + n1, end1) == payload1
            &&& s.subrange(head2 + n2, end2) == payload2
        }),
{
    let w1 = written(pairs[k1], n1, payload1);
    let w2 = written(pairs[k2], n2, payload2);
    let s = before + w1 + w2 + rest;
    assert(s =~= before + w1 + (w2 + rest));
    assert((w2 + rest)[0] == pairs[k2].limiter);
    law_written_is_read(
        before,
        w2 + rest,
        pairs,
        k1,
        variant,
        n1,
        payload1,
        recommended,
    );
    law_written_is_read(
        before + w1,
        rest,
        pairs,
        k2,
        variant,
        n2,
        payload2,
        recommended,
    );
}

/// With [`Variant::V2`], two envelopes right behind each other that share a
/// pair whose limiter is its delimiter fuse: the delimiter slice of the first
/// and the limiter slice of the second are one run, and only the last repeats
/// of that run end the first envelope. What is before them is its payload.
pub proof fn law_shared_pair_fuses<T: PartialEq>(
    before: Seq<T>,
    rest: Seq<T>,
    pairs: Seq<LimiterPair<T>>,
    k: int,
    n1: int,
    payload1: Seq<T>,
    n2: int,
    payload2: Seq<T>,
    recommended: bool,
)
    requires
        lawful_eq::<T>(),
        1 <= n1,
        1 <= n2,
        reflexive_pair(pairs[k]),
        same(pairs[k].limiter, pairs[k].delimiter),
        pair_for(pairs, pairs[k].limiter, n1, recommended) == Some(k),
        writable(pairs[k], Variant::V2, n1, payload1),
        head_free(pairs[k], payload2),
    ensures
        ({
            let s = before + written(pairs[k], n1, payload1) + written(pairs[k], n2, payload2)
                + rest;
            let head = before.len() as int;
            let end = head + n1 + payload1.len() + n2;
            item_at(s, pairs, Variant::V2, head, recommended) == complete(
                head,
                head + n1,
                end,
                end + n1,
            )
        }),
{
    let pair = pairs[k];
    let d = pair.delimiter;
    let w1 = written(pair, n1, payload1);
    let w2 = written(pair, n2, payload2);
    let s = before + w1 + w2 + rest;
    let head = before.len() as int;
    let start = head + n1;
    let p_end = start + payload1.len();
    let end = p_end + n2;
    assert(same(d, pair.limiter));
    assert(s =~= before + w1 + (w2 + rest));
    lemma_written_head(before, pair, n1, payload1, w2 + rest);
    lemma_item_at_run(s, pairs, Variant::V2, head, recommended);
    assert forall|j: int| start <= j < p_end implies #[trigger] s[j] == payload1[j - start] by {}
    assert forall|j: int| p_end <= j < end + n1 implies same(#[trigger] s[j], d) by {
        if j < p_end + n1 {
            assert(s[j] == d);
        } else {
            assert(s[j] == pair.limiter);
        }
    }
    assert(payload2.len() > 0);
    assert(s[end + n1] == payload2[0]);
    if same(s[end + n1], d) {
        assert(same(payload2[0], pair.limiter));
    }
    assert(closes_at(s, d, Variant::V2, n1, end));
    assert forall|q: int| start <= q < end implies !(#[trigger] closes_at(
        s,
        d,
        Variant::V2,
        n1,
        q,
    )) by {
        if closes_at(s, d, Variant::V2, n1, q) {
            let p = q - start;
            if q + n1 < p_end {
                assert(!closes_at(payload1, d, Variant::V2, n1, p));
                assert forall|i: int| p <= i < p + n1 implies same(#[trigger] payload1[i], d) by {
                    assert(same(s[i + start], d));
                }
                assert(s[q + n1] == payload1[p + n1]);
            } else {
                assert(same(s[q + n1], d));
            }
        }
    }
    lemma_closing_is(s, d, Variant::V2, n1, start, end);
}

/// An envelope with this payload, written after contents that end with
/// `before` (`None` when there are none, or when they end with a complete
/// [`Variant::V1`] envelope), cannot use the pair: the payload starts with
/// its limiter, the contents before end with its limiter, or, with
/// [`Variant::V1`], the payload ends with its delimiter.
pub open spec fn disabled<T: PartialEq>(
    pair: LimiterPair<T>,
    variant: Variant,
    before: Option<T>,
    payload: Seq<T>,
) -> bool {
    ||| payload.len() > 0 && same(payload[0], pair.limiter)
    ||| before matches Some(c) && same(c, pair.limiter)
    ||| variant is V1 && payload.len() > 0 && same(payload.last(), pair.delimiter)
}

/// With distinct limiters and delimiters at most three pairs are disabled for
/// an envelope with [`Variant::V1`]: of any four, one is not.
pub proof fn law_at_most_three_disabled<T: PartialEq>(
    pairs: Seq<LimiterPair<T>>,
    before: Option<T>,
    payload: Seq<T>,
    a: int,
    b: int,
    c: int,
    d: int,
)
    requires
        lawful_eq::<T>(),
        distinct_limiters(pairs),
        distinct_delimiters(pairs),
        0 <= a < b < c < d < pairs.len(),
    ensures
        ({
            ||| !disabled(pairs[a], Variant::V1, before, payload)
            ||| !disabled(pairs[b], Variant::V1, before, payload)
            ||| !disabled(pairs[c], Variant::V1, before, payload)
            ||| !disabled(pairs[d], Variant::V1, before, payload)
        }),
{
    lemma_one_disabled_each(pairs, before, payload, a, b);
    lemma_one_disabled_each(pairs, before, payload, a, c);
    lemma_one_disabled_each(pairs, before, payload, a, d);
    lemma_one_disabled_each(pairs, before, payload, b, c);
    lemma_one_disabled_each(pairs, before, payload, b, d);
    lemma_one_disabled_each(pairs, before, payload, c, d);
}

/// With distinct limiters at most two pairs are disabled for an envelope with
/// [`Variant::V2`]: of any three, one is not.
pub proof fn law_at_most_two_disabled<T: PartialEq>(
    pairs: Seq<LimiterPair<T>>,
    before: Option<T>,
    payload: Seq<T>,
    a: int,
    b: int,
    c: int,
)
    requires
        lawful_eq::<T>(),
        distinct_limiters(pairs),
        0 <= a < b < c < pairs.len(),
    ensures
        ({
            ||| !disabled(pairs[a], Variant::V2, before, payload)
            ||| !disabled(pairs[b], Variant::V2, before, payload)
            ||| !disabled(pairs[c], Variant::V2, before, payload)
        }),
{
    lemma_one_disabled_each(pairs, before, payload, a, b);
    lemma_one_disabled_each(pairs, before, payload, a, c);
    lemma_one_disabled_each(pairs, before, payload, b, c);
}

/// Head of payload, tail of payload and tail of what is before disable at
/// most one pair each.
proof fn lemma_one_disabled_each<T: PartialEq>(
    pairs: Seq<LimiterPair<T>>,
    before: Option<T>,
    payload: Seq<T>,
    a: int,
    b: int,
)
    requires
        lawful_eq::<T>(),
        distinct_limiters(pairs),
        0 <= a < b < pairs.len(),
    ensures
        !(same(payload[0], pairs[a].limiter) && same(payload[0], pairs[b].limiter)),
        before matches Some(x) ==> !(same(x, pairs[a].limiter) && same(x, pairs[b].limiter)),
        distinct_delimiters(pairs) ==> !(same(payload.last(), pairs[a].delimiter) && same(
            payload.last(),
            pairs[b].delimiter,
        )),
{
    lemma_not_both(payload[0], pairs[a].limiter, pairs[b].limiter);
    lemma_not_both(payload.last(), pairs[a].delimiter, pairs[b].delimiter);
    if let Some(x) = before {
        lemma_not_both(x, pairs[a].limiter, pairs[b].limiter);
    }
}

/// One element does not equal two different ones.
proof fn lemma_not_both<T: PartialEq>(x: T, a: T, b: T)
    requires
        lawful_eq::<T>(),
    ensures
        same(x, a) && same(x, b) ==> same(a, b),
{
    if same(x, a) {
        assert(same(a, x));
    }
}

/// A pair that is not disabled does for an envelope, in a set with distinct
/// limiters and with a repeat count that reaches its `least_repeat` and is
/// longer than the payload: written after any contents, the envelope is read
/// back verbatim, and plain contents before it, those from `from` on, end where
/// it starts. Where no plain contents are right before it, as after a complete
/// [`Variant::V1`] envelope, the tail of what is before disables nothing. (An
/// empty payload is not written with a pair whose limiter is its delimiter.)
pub proof fn law_enabled_pair_does<T: PartialEq>(
    before: Seq<T>,
    rest: Seq<T>,
    pairs: Seq<LimiterPair<T>>,
    k: int,
    variant: Variant,
    n: int,
    payload: Seq<T>,
    from: int,
    recommended: bool,
)
    requires
        lawful_eq::<T>(),
        distinct_limiters(pairs),
        0 <= k < pairs.len(),
        reflexive_pair(pairs[k]),
        !disabled(
            pairs[k],
            variant,
            if from < before.len() {
                Some(before.last())
            } else {
                None
            },
            payload,
        ),
        payload.len() == 0 ==> !same(pairs[k].delimiter, pairs[k].limiter),
        pairs[k].least_repeat <= n,
        payload.len() < n,
        confirms(pairs[k], variant, rest),
        0 <= from <= before.len(),
        plain_from(before, pairs, from, recommended),
    ensures
        ({
            let s = before + written(pairs[k], n, payload) + rest;
            let head = before.len() as int;
            let start = head + n;
            let end = start + payload.len();
            &&& from < head ==> item_at(s, pairs, variant, from, recommended) == StateView::No(
                NonEnvelopView { head_offset: from, tail_offset: head },
            )
            &&& item_at(s, pairs, variant, head, recommended) == complete(head, start, end, end + n)
            &&& s.subrange(start, end) == payload
        }),
{
    law_writer_can_pick_count(pairs[k], variant, payload);
    law_distinct_limiter_resolves(pairs, k, pairs[k].limiter, n, recommended);
    assert(writable(pairs[k], variant, n, payload));
    law_written_is_read(before, rest, pairs, k, variant, n, payload, recommended);
    if from < before.len() {
        law_plain_contents_end_at_envelope(
            before,
            rest,
            pairs,
            k,
            variant,
            n,
            payload,
            from,
            recommended,
        );
    }
}

} // verus!
