//! When a delimiter slice is confirmed.

use crate::laws::shape::{law_complete_envelope, law_item_fits};
use crate::model::{
    closes_at, closing, complete, delimiters_at, envelope, item_at, lawful_eq, pair_for, run_end,
    same,
};
use crate::runs::{
    lemma_closing, lemma_closing_is, lemma_delimiter_run, lemma_item_at_run, lemma_pair_for,
    lemma_run, lemma_run_is,
};
use crate::state::{LimiterPair, StateView, Variant};
use vstd::prelude::*;

verus! {

/// The latency of [`Variant::V2`] is solvable by pushing a non-delimiter: a
/// pending envelope whose payload end is given becomes complete with that
/// very payload end, and ends where the buffer ended.
pub proof fn law_non_delimiter_confirms<T: PartialEq>(
    s: Seq<T>,
    pairs: Seq<LimiterPair<T>>,
    head: int,
    recommended: bool,
    c: T,
)
    requires
        lawful_eq::<T>(),
        0 <= head < s.len(),
        item_at(s, pairs, Variant::V2, head, recommended) matches StateView::Pending(e)
            && e.payload_tail_offset is Some,
        !same(
            c,
            pairs[pair_for(pairs, s[head], run_end(s, head) - head, recommended)->0].delimiter,
        ),
    ensures
        ({
            let e = item_at(s, pairs, Variant::V2, head, recommended)->Pending_0;
            item_at(s.push(c), pairs, Variant::V2, head, recommended) == complete(
                head,
                e.payload_head_offset->0,
                e.payload_tail_offset->0,
                s.len() as int,
            )
        }),
{
    let longer = s.push(c);
    let end = run_end(s, head);
    let n = end - head;
    lemma_run(s, head);
    lemma_item_at_run(s, pairs, Variant::V2, head, recommended);
    let k = pair_for(pairs, s[head], n, recommended)->0;
    let d = pairs[k].delimiter;
    assert forall|j: int| 0 <= j < s.len() implies #[trigger] longer[j] == s[j] by {}
    lemma_run_is(longer, head, end);
    lemma_item_at_run(longer, pairs, Variant::V2, head, recommended);
    let t = s.len() - n;
    lemma_closing(s, d, Variant::V2, n, end);
    assert forall|q: int| end <= q < t implies !(#[trigger] closes_at(
        longer,
        d,
        Variant::V2,
        n,
        q,
    )) by {
        if closes_at(longer, d, Variant::V2, n, q) {
            assert forall|i: int| q <= i < q + n implies same(#[trigger] s[i], d) by {
                assert(same(longer[i], d));
            }
            assert(closes_at(s, d, Variant::V2, n, q));
        }
    }
    assert forall|i: int| t <= i < t + n implies same(#[trigger] longer[i], d) by {
        assert(same(s[i], d));
    }
    assert(closes_at(longer, d, Variant::V2, n, t));
    lemma_closing_is(longer, d, Variant::V2, n, end, t);
}

/// A complete envelope is complete as soon as its delimiter slice is there
/// with [`Variant::V1`], and one element later with [`Variant::V2`]. In
/// between, a [`Variant::V2`] envelope is pending and its payload end is
/// given.
pub proof fn law_confirmation_latency<T: PartialEq>(
    s: Seq<T>,
    pairs: Seq<LimiterPair<T>>,
    variant: Variant,
    head: int,
    recommended: bool,
)
    requires
        lawful_eq::<T>(),
        0 <= head <= s.len(),
    ensures
        item_at(s, pairs, variant, head, recommended) matches StateView::OK(e) ==> {
            let n = run_end(s, head) - head;
            let end = e.tail_offset->0;
            let arrived = item_at(s.take(end), pairs, variant, head, recommended);
            match variant {
                Variant::V1 => arrived == item_at(s, pairs, variant, head, recommended),
                Variant::V2 => {
                    &&& arrived matches StateView::Pending(p)
                    &&& p.payload_head_offset == Some(head + n)
                    &&& p.payload_tail_offset == Some(end - n)
                    &&& item_at(s.take(end + 1), pairs, variant, head, recommended) == item_at(
                        s,
                        pairs,
                        variant,
                        head,
                        recommended,
                    )
                },
            }
        },
{
    law_item_fits(s, pairs, variant, head, recommended);
    law_complete_envelope(s, pairs, variant, head, recommended);
    if let StateView::OK(e) = item_at(s, pairs, variant, head, recommended) {
        let start = run_end(s, head);
        let n = start - head;
        let end = e.tail_offset->0;
        lemma_run(s, head);
        lemma_item_at_run(s, pairs, variant, head, recommended);
        lemma_pair_for(pairs, s[head], n, recommended);
        let d = pairs[pair_for(pairs, s[head], n, recommended)->0].delimiter;
        lemma_closing(s, d, variant, n, start);
        assert(closing(s, d, variant, n, start) == end - n);
        assert forall|cut: int|
            (cut == end || (variant is V2 && cut == end + 1)) implies #[trigger] item_at(
            s.take(cut),
            pairs,
            variant,
            head,
            recommended,
        ) == envelope(s.take(cut), d, variant, head, n) && closing(s.take(cut), d, variant, n, start)
            == (if variant is V2 && cut == end {
            cut
        } else {
            end - n
        }) && delimiters_at(s.take(cut), d, end - n, n) by {
            let t = s.take(cut);
            assert forall|j: int| 0 <= j < cut implies #[trigger] t[j] == s[j] by {}
            lemma_run_is(t, head, start);
            lemma_item_at_run(t, pairs, variant, head, recommended);
            assert(delimiters_at(t, d, end - n, n)) by {
                assert forall|i: int| end - n <= i < end implies same(#[trigger] t[i], d) by {
                    assert(same(s[i], d));
                }
            }
            let r = if variant is V2 && cut == end {
                cut
            } else {
                end - n
            };
            assert forall|q: int| start <= q < r implies !(#[trigger] closes_at(
                t,
                d,
                variant,
                n,
                q,
            )) by {
                if closes_at(t, d, variant, n, q) {
                    assert forall|i: int| q <= i < q + n implies same(#[trigger] s[i], d) by {
                        assert(same(t[i], d));
                    }
                    assert(closes_at(s, d, variant, n, q));
                }
            }
            lemma_closing_is(t, d, variant, n, start, r);
        }
        assert(item_at(s.take(end), pairs, variant, head, recommended).head_offset() == head);
        if variant is V2 {
            assert(item_at(s.take(end + 1), pairs, variant, head, recommended).head_offset()
                == head);
        }
    }
}

/// The two variants on one envelope: [`Variant::V1`] is complete exactly when
/// [`Variant::V2`] is complete or is pending with a payload end, and it never
/// ends later than [`Variant::V2`] does, or will when its payload end is
/// confirmed.
pub proof fn law_variants_agree_on_envelope<T: PartialEq>(
    s: Seq<T>,
    delimiter: T,
    head: int,
    n: int,
)
    requires
        lawful_eq::<T>(),
        0 <= head,
        1 <= n,
        head + n < s.len(),
    ensures
        ({
            let first = envelope(s, delimiter, Variant::V1, head, n);
            let second = envelope(s, delimiter, Variant::V2, head, n);
            &&& first is OK <==> second is OK || (second matches StateView::Pending(e)
                && e.payload_tail_offset is Some)
            &&& first matches StateView::OK(e1) ==> match second {
                StateView::OK(e2) => e1.tail_offset->0 <= e2.tail_offset->0,
                StateView::Pending(e2) => e1.tail_offset->0 <= e2.payload_tail_offset->0 + n,
                _ => false,
            }
        }),
{
    let start = head + n;
    let q1 = closing(s, delimiter, Variant::V1, n, start);
    let q2 = closing(s, delimiter, Variant::V2, n, start);
    lemma_closing(s, delimiter, Variant::V1, n, start);
    lemma_closing(s, delimiter, Variant::V2, n, start);
    if q1 < s.len() {
        assert(same(s[q1], delimiter));
        lemma_run(s, q1);
        lemma_delimiter_run(s, delimiter, q1);
        let e = run_end(s, q1);
        if e < q1 + n {
            assert(same(s[e], delimiter));
        }
        if e < s.len() {
            assert(closes_at(s, delimiter, Variant::V2, n, e - n));
        } else {
            assert(delimiters_at(s, delimiter, s.len() - n, n));
        }
        if q2 < q1 {
            assert(closes_at(s, delimiter, Variant::V1, n, q2));
        }
    }
    if q2 < s.len() {
        assert(closes_at(s, delimiter, Variant::V1, n, q2));
    }
    if start <= s.len() - n && delimiters_at(s, delimiter, s.len() - n, n) {
        assert(closes_at(s, delimiter, Variant::V1, n, s.len() - n));
    }
}

/// The two variants on one buffer: they tell non-envelope slices, undecided
/// limiter slices and envelopes apart alike. An envelope is complete with
/// [`Variant::V1`] exactly when it is complete, or pending with a payload end,
/// with [`Variant::V2`], and never ends later.
pub proof fn law_variants_agree<T: PartialEq>(
    s: Seq<T>,
    pairs: Seq<LimiterPair<T>>,
    head: int,
    recommended: bool,
)
    requires
        lawful_eq::<T>(),
        0 <= head <= s.len(),
    ensures
        ({
            let first = item_at(s, pairs, Variant::V1, head, recommended);
            let second = item_at(s, pairs, Variant::V2, head, recommended);
            &&& first is No || first is OnLimiter || second is No || second is OnLimiter ==> first
                == second
            &&& first is OK <==> second is OK || (second matches StateView::Pending(e)
                && e.payload_tail_offset is Some)
            &&& first matches StateView::OK(e1) ==> (second matches StateView::OK(e2)
                ==> e1.tail_offset->0 <= e2.tail_offset->0)
        }),
{
    if head < s.len() {
        lemma_run(s, head);
        let n = run_end(s, head) - head;
        lemma_item_at_run(s, pairs, Variant::V1, head, recommended);
        lemma_item_at_run(s, pairs, Variant::V2, head, recommended);
        if let Some(k) = pair_for(pairs, s[head], n, recommended) {
            if run_end(s, head) < s.len() {
                law_variants_agree_on_envelope(s, pairs[k].delimiter, head, n);
            }
        }
    }
}

} // verus!
