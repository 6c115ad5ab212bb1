//! What the items of a mixed buffer are, stated over sequences.
//!
//! Every definition here reads a buffer `s`, a set of limiter pairs and a
//! position; nothing depends on how the buffer is scanned.

use crate::state::{EnvelopView, LimiterPair, NonEnvelopView, StateView, Variant};
use vstd::prelude::*;
use vstd::std_specs::cmp::PartialEqSpec;

verus! {

/// Equality of elements, as `==` of the element type decides it.
pub open spec fn same<T: PartialEq>(a: T, b: T) -> bool {
    a.eq_spec(&b)
}

/// The element type's `==` is a function of its operands and keeps what
/// `PartialEq` asks of every implementation: it is symmetric and transitive.
/// It need not be reflexive.
pub open spec fn lawful_eq<T: PartialEq>() -> bool {
    &&& T::obeys_eq_spec()
    &&& forall|a: T, b: T| #[trigger] same(a, b) ==> same(b, a)
    &&& forall|a: T, b: T, c: T| #[trigger]
        same(a, b) && #[trigger] same(b, c) ==> same(a, c)
}

/// The least position of `lo..hi` at which `p` holds; `hi` when there is none.
pub open spec fn first(lo: int, hi: int, p: spec_fn(int) -> bool) -> int
    decreases hi - lo,
{
    if lo >= hi {
        hi
    } else if p(lo) {
        lo
    } else {
        first(lo + 1, hi, p)
    }
}

/// Exclusive end of the run of `s[i]` that starts at `i`.
pub open spec fn run_end<T: PartialEq>(s: Seq<T>, i: int) -> int {
    first(i + 1, s.len() as int, |j: int| !same(s[j], s[i]))
}

/// `c` is the limiter of some pair.
pub open spec fn is_limiter<T: PartialEq>(pairs: Seq<LimiterPair<T>>, c: T) -> bool {
    exists|k: int| 0 <= k < pairs.len() && same(#[trigger] pairs[k].limiter, c)
}

/// Pair `k` is considered for a run of `c` of length `r`: its limiter is `c`
/// and, unless the set is taken as recommended, the run reaches its
/// `least_repeat`.
pub open spec fn considers<T: PartialEq>(
    pairs: Seq<LimiterPair<T>>,
    c: T,
    r: int,
    recommended: bool,
    k: int,
) -> bool {
    same(pairs[k].limiter, c) && (recommended || pairs[k].least_repeat <= r)
}

/// Index of the pair that a run of `c` of length `r` opens an envelope with:
/// the first considered pair in set order, provided the run reaches its
/// `least_repeat`.
pub open spec fn pair_for<T: PartialEq>(
    pairs: Seq<LimiterPair<T>>,
    c: T,
    r: int,
    recommended: bool,
) -> Option<int> {
    let k = first(0, pairs.len() as int, |k: int| considers(pairs, c, r, recommended, k));
    if k < pairs.len() && pairs[k].least_repeat <= r {
        Some(k)
    } else {
        None
    }
}

/// A potential limiter slice starts at `i`: a limiter run that is either
/// still growing at the end of the buffer or long enough for a pair.
pub open spec fn opens_at<T: PartialEq>(
    s: Seq<T>,
    pairs: Seq<LimiterPair<T>>,
    recommended: bool,
    i: int,
) -> bool {
    &&& is_limiter(pairs, s[i])
    &&& run_end(s, i) == s.len() || pair_for(pairs, s[i], run_end(s, i) - i, recommended) is Some
}

/// The first position from `from` on where a potential limiter slice starts;
/// the end of the buffer when there is none.
pub open spec fn next_opening<T: PartialEq>(
    s: Seq<T>,
    pairs: Seq<LimiterPair<T>>,
    from: int,
    recommended: bool,
) -> int {
    first(from, s.len() as int, |i: int| opens_at(s, pairs, recommended, i))
}

/// `s[q..q + n]` is `n` repeats of `delimiter`.
pub open spec fn delimiters_at<T: PartialEq>(s: Seq<T>, delimiter: T, q: int, n: int) -> bool {
    &&& q + n <= s.len()
    &&& forall|i: int| q <= i < q + n ==> same(#[trigger] s[i], delimiter)
}

/// `s[q..q + n]` is a delimiter slice that ends an envelope: a full match,
/// and for [`Variant::V2`] one that is followed by a non-delimiter.
pub open spec fn closes_at<T: PartialEq>(
    s: Seq<T>,
    delimiter: T,
    variant: Variant,
    n: int,
    q: int,
) -> bool {
    &&& delimiters_at(s, delimiter, q, n)
    &&& variant is V2 ==> q + n < s.len() && !same(s[q + n], delimiter)
}

/// Where the delimiter slice of a payload that starts at `payload_start`
/// starts; the end of the buffer when it has not arrived.
pub open spec fn closing<T: PartialEq>(
    s: Seq<T>,
    delimiter: T,
    variant: Variant,
    n: int,
    payload_start: int,
) -> int {
    first(payload_start, s.len() as int, |q: int| closes_at(s, delimiter, variant, n, q))
}

/// A complete envelope at `head` whose payload is
/// `payload_start..payload_end` and which ends at `end`.
pub open spec fn complete(head: int, payload_start: int, payload_end: int, end: int) -> StateView {
    let payload = payload_start != payload_end;
    StateView::OK(
        EnvelopView {
            head_offset: head,
            payload_head_offset: if payload {
                Some(payload_start)
            } else {
                None
            },
            payload_tail_offset: if payload {
                Some(payload_end)
            } else {
                None
            },
            tail_offset: Some(end),
        },
    )
}

/// The envelope whose limiter slice is the `n` elements at `head`: complete
/// when its delimiter slice is there, pending otherwise. While pending, a
/// [`Variant::V2`] payload ends before the last `n` elements if these already
/// make a full delimiter slice.
pub open spec fn envelope<T: PartialEq>(
    s: Seq<T>,
    delimiter: T,
    variant: Variant,
    head: int,
    n: int,
) -> StateView {
    let start = head + n;
    let len = s.len() as int;
    let q = closing(s, delimiter, variant, n, start);
    if q < len {
        complete(head, start, q, q + n)
    } else {
        StateView::Pending(
            EnvelopView {
                head_offset: head,
                payload_head_offset: Some(start),
                payload_tail_offset: if variant is V2 && start <= len - n && delimiters_at(
                    s,
                    delimiter,
                    len - n,
                    n,
                ) {
                    Some(len - n)
                } else {
                    None
                },
                tail_offset: None,
            },
        )
    }
}

/// The item that starts at `head`.
///
/// Contents up to the next potential limiter slice are a non-envelope slice.
/// A limiter slice at `head` is an envelope once it is terminated, that is,
/// followed by another element, and undecided while it is not.
pub open spec fn item_at<T: PartialEq>(
    s: Seq<T>,
    pairs: Seq<LimiterPair<T>>,
    variant: Variant,
    head: int,
    recommended: bool,
) -> StateView {
    let i = next_opening(s, pairs, head, recommended);
    let end = run_end(s, head);
    if head < i || head == s.len() {
        StateView::No(NonEnvelopView { head_offset: head, tail_offset: i })
    } else if end == s.len() {
        StateView::OnLimiter(head)
    } else {
        let k = pair_for(pairs, s[head], end - head, recommended)->0;
        envelope(s, pairs[k].delimiter, variant, head, end - head)
    }
}

/// The state is what the buffer `s` holds at the state's own head.
pub open spec fn describes<T: PartialEq>(
    state: StateView,
    s: Seq<T>,
    pairs: Seq<LimiterPair<T>>,
    variant: Variant,
    recommended: bool,
) -> bool {
    &&& 0 <= state.head_offset() <= s.len()
    &&& state == item_at(s, pairs, variant, state.head_offset(), recommended)
}

/// Some start of the buffer `s` holds the state at its head, as the variant
/// and the pair look-up read it.
pub open spec fn held<T: PartialEq>(
    state: StateView,
    s: Seq<T>,
    pairs: Seq<LimiterPair<T>>,
    variant: Variant,
    recommended: bool,
) -> bool {
    exists|m: int|
        0 <= m <= s.len() && describes(state, #[trigger] s.take(m), pairs, variant, recommended)
}

/// The state is consistent with the buffer `s`: with this set of pairs some
/// start of `s` holds it, whichever variant and look-up it was read with.
///
/// The set is fixed at parse time. A state of another set that this set does
/// not give as well is not consistent.
pub open spec fn consistent<T: PartialEq>(
    state: StateView,
    s: Seq<T>,
    pairs: Seq<LimiterPair<T>>,
) -> bool {
    exists|variant: Variant, recommended: bool| #[trigger]
        held(state, s, pairs, variant, recommended)
}

/// What a state becomes when it is updated against the buffer `s`.
///
/// - A complete envelope is final; the item after it comes next, once there
///   is one.
/// - A non-envelope slice goes on to the next potential limiter slice; when
///   it does not grow and something follows it, that item comes next.
/// - A limiter slice or a pending envelope is what is at its head now. Where
///   the run at the head of a pending envelope has no pair in the look-up of
///   this update, there is no envelope to go on with, and the front of the
///   buffer takes its place.
///
/// A state that is not consistent with the buffer is replaced by the front of
/// the buffer.
pub open spec fn update<T: PartialEq>(
    s: Seq<T>,
    pairs: Seq<LimiterPair<T>>,
    variant: Variant,
    state: StateView,
    recommended: bool,
) -> StateView {
    let front = item_at(s, pairs, variant, 0, recommended);
    let again = item_at(s, pairs, variant, state.head_offset(), recommended);
    if !consistent(state, s, pairs) {
        front
    } else {
        match state {
            StateView::OK(e) => match e.tail_offset {
                Some(tail) if tail < s.len() => item_at(s, pairs, variant, tail, recommended),
                _ => state,
            },
            StateView::No(non) => {
                let tail = non.tail_offset;
                let next = next_opening(s, pairs, tail, recommended);
                if next == tail && tail < s.len() {
                    item_at(s, pairs, variant, tail, recommended)
                } else {
                    StateView::No(
                        NonEnvelopView { head_offset: non.head_offset, tail_offset: next },
                    )
                }
            },
            StateView::OnLimiter(_) => again,
            StateView::Pending(_) => if again is Pending || again is OK {
                again
            } else {
                front
            },
        }
    }
}

/// No pair's limiter is also its delimiter, no limiter of the set is a
/// delimiter of the set, and no two pairs share a limiter or a delimiter.
pub open spec fn recommended_set<T: PartialEq>(pairs: Seq<LimiterPair<T>>) -> bool {
    &&& forall|i: int| #![trigger pairs[i]]
        0 <= i < pairs.len() ==> !same(pairs[i].limiter, pairs[i].delimiter)
    &&& forall|i: int, j: int| #![trigger pairs[i], pairs[j]]
        0 <= i < pairs.len() && 0 <= j < pairs.len() ==> !same(
            pairs[i].limiter,
            pairs[j].delimiter,
        )
    &&& forall|i: int, j: int| #![trigger pairs[i], pairs[j]]
        0 <= i < j < pairs.len() ==> !same(pairs[i].limiter, pairs[j].limiter) && !same(
            pairs[i].delimiter,
            pairs[j].delimiter,
        )
}

} // verus!
