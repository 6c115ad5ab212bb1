//! Telling envelopes and non-envelope slices of a buffer apart.

use crate::laws::recovery::{
    law_held_complete, law_held_limiter_slice, law_held_non_envelop, law_held_pending,
    pending_prefix,
};
use crate::laws::shape::{law_item_fits, law_offsets_determine_state};
use crate::model::{
    closes_at, complete, considers, consistent, describes, envelope, held, is_limiter as limits,
    item_at, lawful_eq, next_opening, opens_at, pair_for, recommended_set, run_end, same, update,
};
use crate::nonzero::NonZeroUsize;
use crate::runs::{
    lemma_closed_by_run, lemma_closed_run, lemma_closing_is, lemma_closing_skip,
    lemma_delimiter_run, lemma_next_opening, lemma_next_opening_is, lemma_pair_for_is,
    lemma_pair_for_none, lemma_run_is, lemma_unclosed_run,
};
use crate::state::{Envelop, LimiterPair, NonEnvelop, State, StateView, Variant};
use vstd::prelude::*;
use vstd::std_specs::cmp::PartialEqSpec;

verus! {

/// Best-practice check for a limiter pair set (recommended for agentic
/// harness usage):
///
/// - every pair has limiter != delimiter;
/// - no limiter of the set equals any delimiter of the set;
/// - no two distinct pairs share a limiter or a delimiter.
///
/// Sharing one limiter between pairs is not recommended, but the safe
/// parse fns still support it (see [`get_envelop`]). The `_unchecked`
/// variants may assume this check holds.
pub fn is_recommended_set<T: PartialEq>(limiter_pairs: &[LimiterPair<T>]) -> (r: bool)
    ensures
        T::obeys_eq_spec() ==> r == recommended_set(limiter_pairs@),
{
    let n: usize = limiter_pairs.len();
    let mut i: usize = 0;
    while i < n
        invariant
            i <= n == limiter_pairs@.len(),
            T::obeys_eq_spec() ==> forall|a: int, b: int|
                #![trigger limiter_pairs@[a], limiter_pairs@[b]]
                0 <= a < i && 0 <= b < n ==> !same(
                    limiter_pairs@[a].limiter,
                    limiter_pairs@[b].delimiter,
                ) && (a < b ==> !same(limiter_pairs@[a].limiter, limiter_pairs@[b].limiter)
                    && !same(limiter_pairs@[a].delimiter, limiter_pairs@[b].delimiter)),
        decreases n - i,
    {
        let p = &limiter_pairs[i];
        let mut j: usize = 0;
        while j < n
            invariant
                i < n == limiter_pairs@.len(),
                j <= n,
                *p == limiter_pairs@[i as int],
                T::obeys_eq_spec() ==> forall|b: int|
                    #![trigger limiter_pairs@[b]]
                    0 <= b < j ==> !same(p.limiter, limiter_pairs@[b].delimiter) && (i < b
                        ==> !same(p.limiter, limiter_pairs@[b].limiter) && !same(
                        p.delimiter,
                        limiter_pairs@[b].delimiter,
                    )),
            decreases n - j,
        {
            let q = &limiter_pairs[j];
            if p.limiter == q.delimiter {
                assert(*q == limiter_pairs@[j as int]);
                return false;
            }
            if i < j && (p.limiter == q.limiter || p.delimiter == q.delimiter) {
                assert(*q == limiter_pairs@[j as int]);
                return false;
            }
            j = j + 1;
        }
        i = i + 1;
    }
    true
}

/// Length of the run of `s[from]` starting at `from`. `from < s.len()`.
pub(crate) fn run_len<T: PartialEq>(s: &[T], from: usize) -> (n: usize)
    requires
        from < s@.len(),
    ensures
        n >= 1,
        from + n <= s@.len(),
        lawful_eq::<T>() ==> from + n == run_end(s@, from as int),
{
    let mut n: usize = 1;
    while n < s.len() - from && s[from + n] == s[from]
        invariant
            from < s@.len(),
            1 <= n <= s@.len() - from,
            lawful_eq::<T>() ==> forall|j: int|
                from < j < from + n ==> same(#[trigger] s@[j], s@[from as int]),
        ensures
            1 <= n <= s@.len() - from,
            lawful_eq::<T>() ==> forall|j: int|
                from < j < from + n ==> same(#[trigger] s@[j], s@[from as int]),
            lawful_eq::<T>() && from + n < s@.len() ==> !same(s@[from + n], s@[from as int]),
        decreases s@.len() - from - n,
    {
        n = n + 1;
    }
    proof {
        if lawful_eq::<T>() {
            lemma_run_is(s@, from as int, from + n);
        }
    }
    n
}

/// Whether `c` is a limiter of the set.
pub(crate) fn is_limiter<T: PartialEq>(limiter_pairs: &[LimiterPair<T>], c: &T) -> (r: bool)
    ensures
        lawful_eq::<T>() ==> r == limits(limiter_pairs@, *c),
{
    let mut k: usize = 0;
    while k < limiter_pairs.len()
        invariant
            k <= limiter_pairs@.len(),
            lawful_eq::<T>() ==> forall|j: int|
                0 <= j < k ==> !same(#[trigger] limiter_pairs@[j].limiter, *c),
        decreases limiter_pairs@.len() - k,
    {
        if limiter_pairs[k].limiter == *c {
            assert(lawful_eq::<T>() ==> same(limiter_pairs@[k as int].limiter, *c));
            return true;
        }
        k = k + 1;
    }
    false
}

/// The pair opening an envelope for a run of `c` of length `r`.
///
/// Not recommended (see [`is_recommended_set`]) but supported: several pairs
/// may share the limiter `c`. The safe resolution (`recommended == false`)
/// picks the first pair in set order whose limiter is `c` and whose
/// `least_repeat <= r`. The `recommended == true` resolution relies on the
/// application asserting unique limiters: the first pair whose limiter is
/// `c` is THE pair, and the run must reach its `least_repeat`.
pub(crate) fn pair_for_run<'a, T: PartialEq>(
    limiter_pairs: &'a [LimiterPair<T>],
    c: &T,
    r: usize,
    recommended: bool,
) -> (pair: Option<&'a LimiterPair<T>>)
    ensures
        lawful_eq::<T>() ==> match pair_for(limiter_pairs@, *c, r as int, recommended) {
            Some(k) => pair == Some(&limiter_pairs@[k]),
            None => pair is None,
        },
{
    let mut k: usize = 0;
    while k < limiter_pairs.len()
        invariant
            k <= limiter_pairs@.len(),
            lawful_eq::<T>() ==> forall|j: int|
                0 <= j < k ==> !(#[trigger] considers(
                    limiter_pairs@,
                    *c,
                    r as int,
                    recommended,
                    j,
                )),
        decreases limiter_pairs@.len() - k,
    {
        let p = &limiter_pairs[k];
        let reached: bool = p.least_repeat as usize <= r;
        if p.limiter == *c && (recommended || reached) {
            proof {
                if lawful_eq::<T>() {
                    lemma_pair_for_is(limiter_pairs@, *c, r as int, recommended, k as int);
                }
            }
            return if reached {
                Some(p)
            } else {
                None
            };
        }
        k = k + 1;
    }
    proof {
        if lawful_eq::<T>() {
            lemma_pair_for_none(limiter_pairs@, *c, r as int, recommended);
        }
    }
    None
}

/// First index `>= from` where a potential limiter slice starts: a limiter
/// run that is either confirmed (terminated by a non-limiter and long
/// enough) or still growing at the end of the buffer. Returns `s.len()` when
/// there is none.
pub(crate) fn scan_non_envelop<T: PartialEq>(
    s: &[T],
    limiter_pairs: &[LimiterPair<T>],
    from: usize,
    recommended: bool,
) -> (r: usize)
    requires
        from <= s@.len(),
    ensures
        from <= r <= s@.len(),
        lawful_eq::<T>() ==> r == next_opening(s@, limiter_pairs@, from as int, recommended),
{
    let mut i: usize = from;
    while i < s.len()
        invariant
            from <= i <= s@.len(),
            lawful_eq::<T>() ==> forall|j: int|
                from <= j < i ==> !(#[trigger] opens_at(s@, limiter_pairs@, recommended, j)),
        decreases s@.len() - i,
    {
        if is_limiter(limiter_pairs, &s[i]) {
            let end: usize = i + run_len(s, i);
            if end == s.len() || pair_for_run(limiter_pairs, &s[i], end - i, recommended).is_some() {
                proof {
                    if lawful_eq::<T>() {
                        lemma_next_opening_is(
                            s@,
                            limiter_pairs@,
                            from as int,
                            recommended,
                            i as int,
                        );
                    }
                }
                return i;
            }
            // Terminated run shorter than every matching least_repeat:
            // plain non-envelope contents.
            proof {
                if lawful_eq::<T>() {
                    lemma_closed_run(s@, limiter_pairs@, recommended, i as int);
                }
            }
            i = end;
        } else {
            i = i + 1;
        }
    }
    proof {
        if lawful_eq::<T>() {
            lemma_next_opening_is(s@, limiter_pairs@, from as int, recommended, i as int);
        }
    }
    s.len()
}

/// A complete envelope. An empty payload has no payload offsets; it is only
/// possible when limiter != delimiter.
pub(crate) fn ok_envelop(head: usize, payload_start: usize, payload_end: usize, end: usize) -> (r: State)
    requires
        0 < payload_start,
        0 < payload_end,
        0 < end,
    ensures
        r@ == complete(head as int, payload_start as int, payload_end as int, end as int),
{
    if payload_end == payload_start {
        State::OK(
            Envelop {
                head_offset: head,
                payload_head_offset: None,
                payload_tail_offset: None,
                tail_offset: NonZeroUsize::new(end),
            },
        )
    } else {
        State::OK(
            Envelop {
                head_offset: head,
                payload_head_offset: NonZeroUsize::new(payload_start),
                payload_tail_offset: NonZeroUsize::new(payload_end),
                tail_offset: NonZeroUsize::new(end),
            },
        )
    }
}

/// Parse an envelope whose limiter slice starts at `head`, has length `n`,
/// and is already terminated (a non-limiter `T` follows the run).
/// Returns [`State::Pending`] or [`State::OK`].
///
/// `head < s.len()` and `head + n < s.len()`.
pub(crate) fn parse_envelop<T: PartialEq>(
    s: &[T],
    pair: &LimiterPair<T>,
    variant: Variant,
    head: usize,
    n: usize,
) -> (r: State)
    requires
        1 <= n,
        head + n < s@.len(),
    ensures
        r@ is Pending || r@ is OK,
        r@.head_offset() == head,
        r@.fits(s@.len() as int),
        variant is V1 ==> (r@ matches StateView::Pending(e) ==> e.payload_tail_offset is None),
        lawful_eq::<T>() ==> r@ == envelope(s@, pair.delimiter, variant, head as int, n as int),
{
    let payload_start: usize = head + n;
    let mut q: usize = payload_start;
    while q < s.len()
        invariant
            1 <= n,
            payload_start == head + n,
            payload_start < s@.len(),
            payload_start <= q <= s@.len(),
            lawful_eq::<T>() ==> forall|j: int|
                payload_start <= j < q ==> !(#[trigger] closes_at(
                    s@,
                    pair.delimiter,
                    variant,
                    n as int,
                    j,
                )),
            // Two delimiters are never on both sides of `q`.
            lawful_eq::<T>() && variant is V2 && payload_start < q ==> !same(s@[q - 1], pair.delimiter) || (q
                < s@.len() && !same(s@[q as int], pair.delimiter)),
        decreases s@.len() - q,
    {
        if s[q] == pair.delimiter {
            let run_end: usize = q + run_len(s, q);
            proof {
                if lawful_eq::<T>() {
                    lemma_delimiter_run(s@, pair.delimiter, q as int);
                }
            }
            match variant {
                Variant::V1 => {
                    if run_end - q >= n {
                        // The every first full matched delimiter slice: the
                        // first `n` repeats of the run.
                        proof {
                            if lawful_eq::<T>() {
                                lemma_closed_by_run(
                                    s@,
                                    pair.delimiter,
                                    variant,
                                    n as int,
                                    q as int,
                                );
                                lemma_closing_skip(
                                    s@,
                                    pair.delimiter,
                                    variant,
                                    n as int,
                                    payload_start as int,
                                    q as int,
                                );
                            }
                        }
                        return ok_envelop(head, payload_start, q, q + n);
                    }
                },
                Variant::V2 => {
                    if run_end == s.len() {
                        // Trailing delimiter run, confirmation latency. When
                        // the run already holds a full delimiter slice, the
                        // delimiter MUST exist but its exact offset is not
                        // confirmed yet.
                        proof {
                            if lawful_eq::<T>() {
                                lemma_unclosed_run(
                                    s@,
                                    pair.delimiter,
                                    variant,
                                    n as int,
                                    q as int,
                                );
                                lemma_closing_is(
                                    s@,
                                    pair.delimiter,
                                    variant,
                                    n as int,
                                    payload_start as int,
                                    s@.len() as int,
                                );
                                if run_end - q < n && payload_start <= run_end - n {
                                    assert(!same(s@[q - 1], pair.delimiter));
                                }
                            }
                        }
                        return State::Pending(
                            Envelop {
                                head_offset: head,
                                payload_head_offset: NonZeroUsize::new(payload_start),
                                payload_tail_offset: if run_end - q >= n {
                                    NonZeroUsize::new(run_end - n)
                                } else {
                                    None
                                },
                                tail_offset: None,
                            },
                        );
                    }
                    if run_end - q >= n {
                        // The delimiter slice followed by a non-delimiter:
                        // the last `n` repeats of the run.
                        proof {
                            if lawful_eq::<T>() {
                                lemma_closed_by_run(
                                    s@,
                                    pair.delimiter,
                                    variant,
                                    n as int,
                                    q as int,
                                );
                                lemma_closing_skip(
                                    s@,
                                    pair.delimiter,
                                    variant,
                                    n as int,
                                    payload_start as int,
                                    q as int,
                                );
                            }
                        }
                        return ok_envelop(head, payload_start, run_end - n, run_end);
                    }
                },
            }
            proof {
                if lawful_eq::<T>() {
                    lemma_unclosed_run(s@, pair.delimiter, variant, n as int, q as int);
                }
            }
            q = run_end;
        } else {
            q = q + 1;
        }
    }
    proof {
        if lawful_eq::<T>() {
            lemma_closing_is(
                s@,
                pair.delimiter,
                variant,
                n as int,
                payload_start as int,
                s@.len() as int,
            );
        }
    }
    State::Pending(
        Envelop {
            head_offset: head,
            payload_head_offset: NonZeroUsize::new(payload_start),
            payload_tail_offset: None,
            tail_offset: None,
        },
    )
}

/// Parse the item starting at `head` (`head <= s.len()`).
pub(crate) fn parse_front<T: PartialEq>(
    s: &[T],
    limiter_pairs: &[LimiterPair<T>],
    variant: Variant,
    head: usize,
    recommended: bool,
) -> (r: State)
    requires
        head <= s@.len(),
    ensures
        r@.head_offset() == head,
        r@.fits(s@.len() as int),
        variant is V1 ==> (r@ matches StateView::Pending(e) ==> e.payload_tail_offset is None),
        lawful_eq::<T>() ==> r@ == item_at(
            s@,
            limiter_pairs@,
            variant,
            head as int,
            recommended,
        ),
{
    let i: usize = scan_non_envelop(s, limiter_pairs, head, recommended);
    if i > head || head == s.len() {
        return State::No(NonEnvelop { head_offset: head, tail_offset: i });
    }
    // `s[head..]` starts with a limiter run.
    let n: usize = run_len(s, head);
    proof {
        if lawful_eq::<T>() {
            lemma_next_opening(s@, limiter_pairs@, head as int, recommended);
        }
    }
    match pair_for_run(limiter_pairs, &s[head], n, recommended) {
        Some(pair) if n < s.len() - head => parse_envelop(s, pair, variant, head, n),
        // Run still growing at the end of the buffer: its length (and thus
        // the delimiter slice) is not defined yet.
        _ => State::OnLimiter(head),
    }
}

pub(crate) fn get_envelop_impl<T: PartialEq>(
    s: &[T],
    limiter_pairs: &[LimiterPair<T>],
    variant: Variant,
    recommended: bool,
) -> (r: State)
    ensures
        r@.head_offset() == 0,
        r@.fits(s@.len() as int),
        variant is V1 ==> (r@ matches StateView::Pending(e) ==> e.payload_tail_offset is None),
        lawful_eq::<T>() ==> r@ == item_at(s@, limiter_pairs@, variant, 0, recommended),
{
    parse_front(s, limiter_pairs, variant, 0, recommended)
}

/// Whether the first `m` elements of `s` hold `state`.
pub(crate) fn prefix_holds<T: PartialEq>(
    s: &[T],
    limiter_pairs: &[LimiterPair<T>],
    variant: Variant,
    m: usize,
    state: &State,
    recommended: bool,
) -> (r: bool)
    requires
        m <= s@.len(),
    ensures
        r ==> state@.fits(m as int),
        lawful_eq::<T>() ==> r == describes(
            state@,
            s@.take(m as int),
            limiter_pairs@,
            variant,
            recommended,
        ),
{
    let head: usize = state.head_offset();
    if head > m {
        return false;
    }
    let item: State = parse_front(&s[0..m], limiter_pairs, variant, head, recommended);
    proof {
        law_offsets_determine_state(item, *state);
    }
    item == *state
}

/// Whether some start of `s` holds `state`, as `variant` and the look-up read
/// it.
///
/// The offsets of the state tell which start of `s` to look at.
pub(crate) fn is_held<T: PartialEq>(
    s: &[T],
    limiter_pairs: &[LimiterPair<T>],
    variant: Variant,
    state: &State,
    recommended: bool,
) -> (r: bool)
    ensures
        r ==> state@.fits(s@.len() as int),
        lawful_eq::<T>() ==> r == held(state@, s@, limiter_pairs@, variant, recommended),
{
    let len: usize = s.len();
    match state {
        State::OK(envelop) => {
            proof {
                assert(s@.take(len as int) =~= s@);
                if lawful_eq::<T>() {
                    law_held_complete(s@, limiter_pairs@, variant, envelop@, recommended);
                }
            }
            prefix_holds(s, limiter_pairs, variant, len, state, recommended)
        },
        State::No(non) => {
            let head: usize = non.head_offset;
            let tail: usize = non.tail_offset;
            proof {
                if lawful_eq::<T>() {
                    law_held_non_envelop(s@, limiter_pairs@, variant, non@, recommended);
                }
            }
            if head > tail || tail > len {
                return false;
            }
            let m: usize = if tail < len && is_limiter(limiter_pairs, &s[tail]) {
                tail + 1
            } else {
                tail
            };
            head == tail || scan_non_envelop(&s[0..m], limiter_pairs, head, recommended) == tail
        },
        State::OnLimiter(start) => {
            let start: usize = *start;
            proof {
                if lawful_eq::<T>() {
                    law_held_limiter_slice(
                        s@,
                        limiter_pairs@,
                        variant,
                        start as int,
                        recommended,
                    );
                }
            }
            start < len && is_limiter(limiter_pairs, &s[start])
        },
        State::Pending(envelop) => {
            proof {
                if lawful_eq::<T>() {
                    law_held_pending(s@, limiter_pairs@, variant, envelop@, recommended);
                }
            }
            let head: usize = envelop.head_offset;
            let payload_head: usize = match envelop.payload_head_offset {
                Some(offset) => offset.get(),
                None => {
                    return false;
                },
            };
            if payload_head <= head || payload_head >= len {
                proof {
                    let m = pending_prefix(envelop@);
                    if lawful_eq::<T>() && head <= m <= len {
                        law_item_fits(
                            s@.take(m),
                            limiter_pairs@,
                            variant,
                            head as int,
                            recommended,
                        );
                    }
                }
                return false;
            }
            let m: usize = match envelop.payload_tail_offset {
                None => payload_head + 1,
                Some(offset) => {
                    let n: usize = payload_head - head;
                    if offset.get() > len || n > len - offset.get() {
                        return false;
                    }
                    offset.get() + n
                },
            };
            prefix_holds(s, limiter_pairs, variant, m, state, recommended)
        },
    }
}

/// Whether `state` is consistent with `s`: some start of `s` holds it, with
/// either variant and either look-up.
pub(crate) fn is_consistent<T: PartialEq>(
    s: &[T],
    limiter_pairs: &[LimiterPair<T>],
    state: &State,
) -> (r: bool)
    ensures
        r ==> state@.fits(s@.len() as int),
        lawful_eq::<T>() ==> r == consistent(state@, s@, limiter_pairs@),
{
    let r: bool = is_held(s, limiter_pairs, Variant::V1, state, false) || is_held(
        s,
        limiter_pairs,
        Variant::V2,
        state,
        false,
    ) || is_held(s, limiter_pairs, Variant::V1, state, true) || is_held(
        s,
        limiter_pairs,
        Variant::V2,
        state,
        true,
    );
    proof {
        if lawful_eq::<T>() && consistent(state@, s@, limiter_pairs@) {
            let (v, look_up) = choose|v: Variant, look_up: bool| #[trigger]
                held(state@, s@, limiter_pairs@, v, look_up);
            assert(v == Variant::V1 || v == Variant::V2);
        }
    }
    r
}

pub(crate) fn get_envelop_incremental_impl<T: PartialEq>(
    s: &[T],
    limiter_pairs: &[LimiterPair<T>],
    variant: Variant,
    state: &State,
    recommended: bool,
) -> (r: State)
    ensures
        r@.fits(s@.len() as int),
        variant is V1 ==> (r@ matches StateView::Pending(e) ==> e.payload_tail_offset is None),
        lawful_eq::<T>() ==> r@ == update(s@, limiter_pairs@, variant, state@, recommended),
{
    if !is_consistent(s, limiter_pairs, state) {
        // Corrupt state: recover by re-parsing from the front.
        return parse_front(s, limiter_pairs, variant, 0, recommended);
    }
    let len: usize = s.len();
    match state {
        // Final item followed by unread buffer: parse the next item.
        State::OK(envelop) => {
            if let Some(tail) = envelop.tail_offset {
                if tail.get() < len {
                    return parse_front(s, limiter_pairs, variant, tail.get(), recommended);
                }
            }
            // Nothing after it: unchanged.
            state.clone()
        },
        State::No(non) => {
            let tail: usize = non.tail_offset;
            let next: usize = scan_non_envelop(s, limiter_pairs, tail, recommended);
            if next == tail && tail < len {
                // The non-envelope slice did not change and is followed by
                // another (potential) item: parse it.
                parse_front(s, limiter_pairs, variant, tail, recommended)
            } else {
                State::No(NonEnvelop { head_offset: non.head_offset, tail_offset: next })
            }
        },
        // Growing, terminated and long enough, or terminated too early: what
        // the limiter run is now.
        State::OnLimiter(start) => parse_front(s, limiter_pairs, variant, *start, recommended),
        // Go on searching for the delimiter slice.
        State::Pending(envelop) => {
            let again: State = parse_front(
                s,
                limiter_pairs,
                variant,
                envelop.head_offset,
                recommended,
            );
            match again {
                State::Pending(_) | State::OK(_) => again,
                // No pair for the run in this look-up: recover from the
                // front.
                _ => parse_front(s, limiter_pairs, variant, 0, recommended),
            }
        },
    }
}

/// From the every start of `s`, tell what the front slice is: once a valid
/// limiter slice exists, this fn only cares about its matched delimiter
/// slice: if there is a matched delimiter slice, then [`State::OK`],
/// otherwise [`State::Pending`]; if no valid limiter slice, [`State::No`] (or
/// [`State::OnLimiter`] while a limiter run is still growing at the end of
/// the buffer).
///
/// All offsets of the returned [`State`] are relative to the start of `s`.
///
/// Any limiter pair set is supported, including ones breaking the
/// [`is_recommended_set`] best practice (e.g. several pairs sharing one
/// limiter; the first matching pair in set order wins). Never panics.
pub fn get_envelop<T: PartialEq>(
    s: &[T],
    limiter_pairs: &[LimiterPair<T>],
    variant: Variant,
) -> (r: State)
    ensures
        r@.head_offset() == 0,
        r@.fits(s@.len() as int),
        variant is V1 ==> (r@ matches StateView::Pending(e) ==> e.payload_tail_offset is None),
        lawful_eq::<T>() ==> r@ == item_at(s@, limiter_pairs@, variant, 0, false),
{
    get_envelop_impl(s, limiter_pairs, variant, false)
}

/// Incremental version of [`get_envelop`]: `s` is the same buffer the
/// previous `state` was computed from, with zero or more elements appended,
/// and the update of `state` is returned.
///
/// When the previous state is confirmed to not need an update (it is final
/// and followed by another item, i.e. the buffer is not all read) the next
/// item is parsed instead. Detect this by comparing head offsets:
///
/// ```text
/// let buf = b"%%A%%rest".as_slice();
/// let state = get_envelop(&buf[..5], &pairs, variant); // OK envelope `%%A%%`
/// let next = get_envelop_incremental(buf, &pairs, variant, &state);
/// if next.head_offset() != state.head_offset() {
///     // `state` is finalized; `next` describes the following item.
/// }
/// ```
///
/// Per-variant update rules (while the item is still the front item):
///
/// - [`State::No`]: `tail_offset` can monotonic increase.
/// - [`State::OnLimiter`]: stays OnLimiter while the run grows; becomes
///   [`State::Pending`]/[`State::OK`] once the limiter slice is terminated
///   and long enough, or [`State::No`] when the run turns out too short.
/// - [`State::Pending`]: continues the delimiter slice search; for
///   [`Variant::V2`], `payload_tail_offset` can monotonic increase.
/// - [`State::OK`]: final; never updated in place.
///
/// The buffer is expected to be the very same one `state` was computed from
/// (contents at existing offsets unchanged, only appended to), or `state`
/// shifted with [`State::offset`] to match. A state inconsistent with `s`
/// is recovered by re-parsing from the front; never panics.
///
/// The limiter pair set is fixed at parse time: `state` is expected to come
/// from the same set, and a state that the passed set does not give for any
/// start of `s` counts as inconsistent with `s`. The variant may change: a
/// state that was computed with the other one is consistent, and goes on from
/// its head (or, when complete, from its tail) with the passed one.
pub fn get_envelop_incremental<T: PartialEq>(
    s: &[T],
    limiter_pairs: &[LimiterPair<T>],
    variant: Variant,
    state: &State,
) -> (r: State)
    ensures
        r@.fits(s@.len() as int),
        variant is V1 ==> (r@ matches StateView::Pending(e) ==> e.payload_tail_offset is None),
        lawful_eq::<T>() ==> r@ == update(s@, limiter_pairs@, variant, state@, false),
{
    get_envelop_incremental_impl(s, limiter_pairs, variant, state, false)
}

/// [`get_envelop`], with the application asserting the limiter pair set
/// obeys the [`is_recommended_set`] best practice, allowing faster limiter
/// pair lookup.
///
/// With a set in which several pairs share one limiter, only the first of
/// them is ever used. Never panics.
pub fn get_envelop_unchecked<T: PartialEq>(
    s: &[T],
    limiter_pairs: &[LimiterPair<T>],
    variant: Variant,
) -> (r: State)
    ensures
        r@.head_offset() == 0,
        r@.fits(s@.len() as int),
        variant is V1 ==> (r@ matches StateView::Pending(e) ==> e.payload_tail_offset is None),
        lawful_eq::<T>() ==> r@ == item_at(s@, limiter_pairs@, variant, 0, true),
{
    get_envelop_impl(s, limiter_pairs, variant, true)
}

/// [`get_envelop_incremental`], with the application asserting the limiter
/// pair set obeys the [`is_recommended_set`] best practice, allowing faster
/// limiter pair lookup.
///
/// With a set in which several pairs share one limiter, only the first of
/// them is ever used. Never panics.
pub fn get_envelop_incremental_unchecked<T: PartialEq>(
    s: &[T],
    limiter_pairs: &[LimiterPair<T>],
    variant: Variant,
    state: &State,
) -> (r: State)
    ensures
        r@.fits(s@.len() as int),
        variant is V1 ==> (r@ matches StateView::Pending(e) ==> e.payload_tail_offset is None),
        lawful_eq::<T>() ==> r@ == update(s@, limiter_pairs@, variant, state@, true),
{
    get_envelop_incremental_impl(s, limiter_pairs, variant, state, true)
}

} // verus!
