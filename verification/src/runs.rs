//! Facts about runs, limiter slices and delimiter slices.

use crate::model::{
    closes_at, closing, considers, envelope, first, is_limiter, item_at, lawful_eq, next_opening,
    opens_at, pair_for, run_end, same,
};
use crate::state::{LimiterPair, NonEnvelopView, StateView, Variant};
use vstd::prelude::*;

verus! {

/// What [`first`] is: nothing before it satisfies `p`, and it does unless it
/// is `hi`.
pub(crate) proof fn lemma_first(lo: int, hi: int, p: spec_fn(int) -> bool)
    requires
        lo <= hi,
    ensures
        lo <= first(lo, hi, p) <= hi,
        forall|j: int| lo <= j < first(lo, hi, p) ==> !(#[trigger] p(j)),
        first(lo, hi, p) < hi ==> p(first(lo, hi, p)),
    decreases hi - lo,
{
    if lo < hi && !p(lo) {
        lemma_first(lo + 1, hi, p);
    }
}

/// Only one position is the first.
pub(crate) proof fn lemma_first_is(lo: int, hi: int, p: spec_fn(int) -> bool, r: int)
    requires
        lo <= r <= hi,
        forall|j: int| lo <= j < r ==> !(#[trigger] p(j)),
        r < hi ==> p(r),
    ensures
        first(lo, hi, p) == r,
{
    lemma_first(lo, hi, p);
    let f = first(lo, hi, p);
    if f < r {
        assert(p(f));
    } else if r < f {
        assert(p(r));
    }
}


/// A run is a maximal stretch of elements equal to its first.
pub(crate) proof fn lemma_run<T: PartialEq>(s: Seq<T>, i: int)
    requires
        0 <= i < s.len(),
    ensures
        i < run_end(s, i) <= s.len(),
        forall|j: int| i < j < run_end(s, i) ==> same(#[trigger] s[j], s[i]),
        run_end(s, i) < s.len() ==> !same(s[run_end(s, i)], s[i]),
{
    let p = |j: int| !same(s[j], s[i]);
    lemma_first(i + 1, s.len() as int, p);
    assert forall|j: int| i < j < run_end(s, i) implies same(#[trigger] s[j], s[i]) by {
        assert(!p(j));
    }
}

/// Only one position ends a run.
pub(crate) proof fn lemma_run_is<T: PartialEq>(s: Seq<T>, i: int, e: int)
    requires
        0 <= i < e <= s.len(),
        forall|j: int| i < j < e ==> same(#[trigger] s[j], s[i]),
        e < s.len() ==> !same(s[e], s[i]),
    ensures
        run_end(s, i) == e,
{
    lemma_first_is(i + 1, s.len() as int, |j: int| !same(s[j], s[i]), e);
}

/// A run, entered in its middle, ends where it ends.
pub(crate) proof fn lemma_run_suffix<T: PartialEq>(s: Seq<T>, i: int, j: int)
    requires
        lawful_eq::<T>(),
        0 <= i < s.len(),
        i <= j < run_end(s, i),
    ensures
        run_end(s, j) == run_end(s, i),
        i < j ==> same(s[j], s[i]),
{
    lemma_run(s, i);
    let e = run_end(s, i);
    if i < j {
        assert(same(s[i], s[j]));
        assert forall|k: int| j < k < e implies same(#[trigger] s[k], s[j]) by {
            assert(same(s[k], s[i]));
        }
        if e < s.len() && same(s[e], s[j]) {
            assert(same(s[e], s[i]));
        }
        lemma_run_is(s, j, e);
    }
}

/// The pair for a run has the run's element as its limiter, is reached by the
/// run, and no earlier pair is considered.
pub(crate) proof fn lemma_pair_for<T: PartialEq>(
    pairs: Seq<LimiterPair<T>>,
    c: T,
    r: int,
    recommended: bool,
)
    ensures
        pair_for(pairs, c, r, recommended) matches Some(k) ==> {
            &&& 0 <= k < pairs.len()
            &&& considers(pairs, c, r, recommended, k)
            &&& pairs[k].least_repeat <= r
            &&& forall|j: int| 0 <= j < k ==> !(#[trigger] considers(pairs, c, r, recommended, j))
            &&& is_limiter(pairs, c)
        },
        pair_for(pairs, c, r, recommended) is None ==> (forall|j: int|
            0 <= j < pairs.len() ==> !(#[trigger] considers(pairs, c, r, recommended, j))) || (
        recommended && exists|k: int|
            {
                &&& 0 <= k < pairs.len()
                &&& #[trigger] considers(pairs, c, r, recommended, k)
                &&& r < pairs[k].least_repeat
                &&& forall|j: int|
                    0 <= j < k ==> !(#[trigger] considers(pairs, c, r, recommended, j))
            }),
{
    let p = |k: int| considers(pairs, c, r, recommended, k);
    lemma_first(0, pairs.len() as int, p);
    let k = first(0, pairs.len() as int, p);
    assert forall|j: int| 0 <= j < k implies !(#[trigger] considers(pairs, c, r, recommended, j)) by {
        assert(!p(j));
    }
    if k < pairs.len() {
        assert(p(k));
        assert(considers(pairs, c, r, recommended, k));
    }
}

/// The first considered pair, when the run reaches it, is the pair.
pub(crate) proof fn lemma_pair_for_is<T: PartialEq>(
    pairs: Seq<LimiterPair<T>>,
    c: T,
    r: int,
    recommended: bool,
    k: int,
)
    requires
        0 <= k < pairs.len(),
        considers(pairs, c, r, recommended, k),
        forall|j: int| 0 <= j < k ==> !(#[trigger] considers(pairs, c, r, recommended, j)),
    ensures
        pair_for(pairs, c, r, recommended) == if pairs[k].least_repeat <= r {
            Some(k)
        } else {
            None
        },
{
    lemma_first_is(
        0,
        pairs.len() as int,
        |k: int| considers(pairs, c, r, recommended, k),
        k,
    );
}

/// With no considered pair there is no pair.
pub(crate) proof fn lemma_pair_for_none<T: PartialEq>(
    pairs: Seq<LimiterPair<T>>,
    c: T,
    r: int,
    recommended: bool,
)
    requires
        forall|j: int| 0 <= j < pairs.len() ==> !(#[trigger] considers(pairs, c, r, recommended, j)),
    ensures
        pair_for(pairs, c, r, recommended) is None,
{
    lemma_pair_for(pairs, c, r, recommended);
}

/// Equal elements have the same pair.
pub(crate) proof fn lemma_pair_for_same<T: PartialEq>(
    pairs: Seq<LimiterPair<T>>,
    c: T,
    d: T,
    r: int,
    recommended: bool,
)
    requires
        lawful_eq::<T>(),
        same(c, d),
    ensures
        pair_for(pairs, c, r, recommended) == pair_for(pairs, d, r, recommended),
        is_limiter(pairs, c) == is_limiter(pairs, d),
{
    assert(same(d, c));
    assert forall|k: int| #![trigger pairs[k]] same(pairs[k].limiter, c) == same(pairs[k].limiter, d) by {
    }
    let p = |k: int| considers(pairs, c, r, recommended, k);
    let q = |k: int| considers(pairs, d, r, recommended, k);
    assert(p =~= q);
    if is_limiter(pairs, c) {
        let k = choose|k: int| 0 <= k < pairs.len() && same(#[trigger] pairs[k].limiter, c);
        assert(same(pairs[k].limiter, d));
    }
    if is_limiter(pairs, d) {
        let k = choose|k: int| 0 <= k < pairs.len() && same(#[trigger] pairs[k].limiter, d);
        assert(same(pairs[k].limiter, c));
    }
}

/// A longer run has a pair when a shorter one has.
pub(crate) proof fn lemma_pair_for_longer<T: PartialEq>(
    pairs: Seq<LimiterPair<T>>,
    c: T,
    r: int,
    longer: int,
    recommended: bool,
)
    requires
        r <= longer,
        pair_for(pairs, c, r, recommended) is Some,
    ensures
        pair_for(pairs, c, longer, recommended) is Some,
{
    lemma_pair_for(pairs, c, r, recommended);
    lemma_pair_for(pairs, c, longer, recommended);
    let k = pair_for(pairs, c, r, recommended)->0;
    assert(considers(pairs, c, longer, recommended, k));
    if recommended {
        assert forall|j: int| 0 <= j < k implies !(#[trigger] considers(
            pairs,
            c,
            longer,
            recommended,
            j,
        )) by {
            assert(!considers(pairs, c, r, recommended, j));
        }
        lemma_pair_for_is(pairs, c, longer, recommended, k);
    }
}

/// Where the head of a run does not open, no element of the run does.
pub(crate) proof fn lemma_closed_run<T: PartialEq>(
    s: Seq<T>,
    pairs: Seq<LimiterPair<T>>,
    recommended: bool,
    i: int,
)
    requires
        lawful_eq::<T>(),
        0 <= i < s.len(),
        !opens_at(s, pairs, recommended, i),
    ensures
        forall|j: int| i <= j < run_end(s, i) ==> !(#[trigger] opens_at(s, pairs, recommended, j)),
{
    let e = run_end(s, i);
    assert forall|j: int| i <= j < e implies !(#[trigger] opens_at(s, pairs, recommended, j)) by {
        lemma_run_suffix(s, i, j);
        if i < j && opens_at(s, pairs, recommended, j) {
            lemma_pair_for_same(pairs, s[j], s[i], e - j, recommended);
            if e != s.len() {
                lemma_pair_for_longer(pairs, s[i], e - j, e - i, recommended);
            }
        }
    }
}

/// The next opening is the first position that opens.
pub(crate) proof fn lemma_next_opening<T: PartialEq>(
    s: Seq<T>,
    pairs: Seq<LimiterPair<T>>,
    from: int,
    recommended: bool,
)
    requires
        0 <= from <= s.len(),
    ensures
        from <= next_opening(s, pairs, from, recommended) <= s.len(),
        forall|j: int|
            from <= j < next_opening(s, pairs, from, recommended) ==> !(#[trigger] opens_at(
                s,
                pairs,
                recommended,
                j,
            )),
        next_opening(s, pairs, from, recommended) < s.len() ==> opens_at(
            s,
            pairs,
            recommended,
            next_opening(s, pairs, from, recommended),
        ),
{
    let p = |i: int| opens_at(s, pairs, recommended, i);
    lemma_first(from, s.len() as int, p);
    assert forall|j: int| from <= j < next_opening(s, pairs, from, recommended) implies !(
    #[trigger] opens_at(s, pairs, recommended, j)) by {
        assert(!p(j));
    }
}

/// Only one position is the next opening.
pub(crate) proof fn lemma_next_opening_is<T: PartialEq>(
    s: Seq<T>,
    pairs: Seq<LimiterPair<T>>,
    from: int,
    recommended: bool,
    r: int,
)
    requires
        0 <= from <= r <= s.len(),
        forall|j: int| from <= j < r ==> !(#[trigger] opens_at(s, pairs, recommended, j)),
        r < s.len() ==> opens_at(s, pairs, recommended, r),
    ensures
        next_opening(s, pairs, from, recommended) == r,
{
    lemma_first_is(from, s.len() as int, |i: int| opens_at(s, pairs, recommended, i), r);
}

/// A stretch in which nothing opens can be skipped.
pub(crate) proof fn lemma_next_opening_skip<T: PartialEq>(
    s: Seq<T>,
    pairs: Seq<LimiterPair<T>>,
    from: int,
    to: int,
    recommended: bool,
)
    requires
        0 <= from <= to <= s.len(),
        forall|j: int| from <= j < to ==> !(#[trigger] opens_at(s, pairs, recommended, j)),
    ensures
        next_opening(s, pairs, from, recommended) == next_opening(s, pairs, to, recommended),
{
    lemma_next_opening(s, pairs, to, recommended);
    lemma_next_opening_is(s, pairs, from, recommended, next_opening(s, pairs, to, recommended));
}

/// The delimiter slice is the first slice that closes.
pub(crate) proof fn lemma_closing<T: PartialEq>(
    s: Seq<T>,
    delimiter: T,
    variant: Variant,
    n: int,
    start: int,
)
    requires
        0 <= start <= s.len(),
    ensures
        start <= closing(s, delimiter, variant, n, start) <= s.len(),
        forall|q: int|
            start <= q < closing(s, delimiter, variant, n, start) ==> !(#[trigger] closes_at(
                s,
                delimiter,
                variant,
                n,
                q,
            )),
        closing(s, delimiter, variant, n, start) < s.len() ==> closes_at(
            s,
            delimiter,
            variant,
            n,
            closing(s, delimiter, variant, n, start),
        ),
{
    let p = |q: int| closes_at(s, delimiter, variant, n, q);
    lemma_first(start, s.len() as int, p);
    assert forall|q: int| start <= q < closing(s, delimiter, variant, n, start) implies !(
    #[trigger] closes_at(s, delimiter, variant, n, q)) by {
        assert(!p(q));
    }
}

/// Only one position starts the delimiter slice.
pub(crate) proof fn lemma_closing_is<T: PartialEq>(
    s: Seq<T>,
    delimiter: T,
    variant: Variant,
    n: int,
    start: int,
    r: int,
)
    requires
        0 <= start <= r <= s.len(),
        forall|q: int| start <= q < r ==> !(#[trigger] closes_at(s, delimiter, variant, n, q)),
        r < s.len() ==> closes_at(s, delimiter, variant, n, r),
    ensures
        closing(s, delimiter, variant, n, start) == r,
{
    lemma_first_is(start, s.len() as int, |q: int| closes_at(s, delimiter, variant, n, q), r);
}

/// A run of delimiters: all of it is delimiters, and what follows is not.
pub(crate) proof fn lemma_delimiter_run<T: PartialEq>(s: Seq<T>, delimiter: T, q: int)
    requires
        lawful_eq::<T>(),
        0 <= q < s.len(),
        same(s[q], delimiter),
    ensures
        forall|j: int| q <= j < run_end(s, q) ==> same(#[trigger] s[j], delimiter),
        run_end(s, q) < s.len() ==> !same(s[run_end(s, q)], delimiter),
{
    lemma_run(s, q);
    assert(same(delimiter, s[q]));
    assert forall|j: int| q <= j < run_end(s, q) implies same(#[trigger] s[j], delimiter) by {
        if q < j {
            assert(same(s[j], s[q]));
        }
    }
    if run_end(s, q) < s.len() && same(s[run_end(s, q)], delimiter) {
        assert(same(s[run_end(s, q)], s[q]));
    }
}

/// In a delimiter run that is too short, or that ends before its delimiter
/// slice is confirmed, no slice closes.
pub(crate) proof fn lemma_unclosed_run<T: PartialEq>(
    s: Seq<T>,
    delimiter: T,
    variant: Variant,
    n: int,
    q: int,
)
    requires
        lawful_eq::<T>(),
        0 <= q < s.len(),
        same(s[q], delimiter),
        n >= 1,
        run_end(s, q) - q < n || (variant is V2 && run_end(s, q) == s.len()),
    ensures
        forall|j: int| q <= j < run_end(s, q) ==> !(#[trigger] closes_at(s, delimiter, variant, n, j)),
{
    lemma_run(s, q);
    lemma_delimiter_run(s, delimiter, q);
    let e = run_end(s, q);
    assert forall|j: int| q <= j < e implies !(#[trigger] closes_at(s, delimiter, variant, n, j)) by {
        if closes_at(s, delimiter, variant, n, j) {
            if e - q < n {
                assert(same(s[e], delimiter));
            } else {
                assert(same(s[j + n], delimiter));
            }
        }
    }
}

/// In a long enough delimiter run the first full slice closes; with
/// [`Variant::V2`] it is the last full slice of a run that is followed by
/// another element.
pub(crate) proof fn lemma_closed_by_run<T: PartialEq>(
    s: Seq<T>,
    delimiter: T,
    variant: Variant,
    n: int,
    q: int,
)
    requires
        lawful_eq::<T>(),
        0 <= q < s.len(),
        same(s[q], delimiter),
        1 <= n <= run_end(s, q) - q,
        variant is V2 ==> run_end(s, q) < s.len(),
    ensures
        closing(s, delimiter, variant, n, q) == if variant is V2 {
            run_end(s, q) - n
        } else {
            q
        },
{
    lemma_run(s, q);
    lemma_delimiter_run(s, delimiter, q);
    let e = run_end(s, q);
    match variant {
        Variant::V1 => {
            lemma_closing_is(s, delimiter, variant, n, q, q);
        },
        Variant::V2 => {
            assert forall|j: int| q <= j < e - n implies !(#[trigger] closes_at(
                s,
                delimiter,
                variant,
                n,
                j,
            )) by {
                assert(same(s[j + n], delimiter));
            }
            lemma_closing_is(s, delimiter, variant, n, q, e - n);
        },
    }
}

/// A stretch in which no slice closes can be skipped.
pub(crate) proof fn lemma_closing_skip<T: PartialEq>(
    s: Seq<T>,
    delimiter: T,
    variant: Variant,
    n: int,
    start: int,
    to: int,
)
    requires
        0 <= start <= to <= s.len(),
        forall|q: int| start <= q < to ==> !(#[trigger] closes_at(s, delimiter, variant, n, q)),
    ensures
        closing(s, delimiter, variant, n, start) == closing(s, delimiter, variant, n, to),
{
    lemma_closing(s, delimiter, variant, n, to);
    lemma_closing_is(s, delimiter, variant, n, start, closing(s, delimiter, variant, n, to));
}

/// The item at a terminated run: an envelope when the run has a pair, and
/// otherwise a non-envelope slice that reaches beyond the run.
pub(crate) proof fn lemma_item_at_run<T: PartialEq>(
    s: Seq<T>,
    pairs: Seq<LimiterPair<T>>,
    variant: Variant,
    head: int,
    recommended: bool,
)
    requires
        lawful_eq::<T>(),
        0 <= head < s.len(),
    ensures
        ({
            let end = run_end(s, head);
            let item = item_at(s, pairs, variant, head, recommended);
            match pair_for(pairs, s[head], end - head, recommended) {
                Some(k) => if end < s.len() {
                    item == envelope(s, pairs[k].delimiter, variant, head, end - head)
                } else {
                    item == StateView::OnLimiter(head)
                },
                None => if end < s.len() {
                    item == StateView::No(
                        NonEnvelopView {
                            head_offset: head,
                            tail_offset: next_opening(s, pairs, end, recommended),
                        },
                    )
                } else if is_limiter(pairs, s[head]) {
                    item == StateView::OnLimiter(head)
                } else {
                    item == StateView::No(
                        NonEnvelopView { head_offset: head, tail_offset: s.len() as int },
                    )
                },
            }
        }),
{
    let end = run_end(s, head);
    lemma_run(s, head);
    lemma_pair_for(pairs, s[head], end - head, recommended);
    lemma_next_opening(s, pairs, head, recommended);
    if opens_at(s, pairs, recommended, head) {
        lemma_next_opening_is(s, pairs, head, recommended, head);
    } else {
        lemma_closed_run(s, pairs, recommended, head);
        lemma_next_opening_skip(s, pairs, head, end, recommended);
        lemma_next_opening(s, pairs, end, recommended);
    }
}

} // verus!
