use sdave::{
    get_envelop, get_envelop_incremental, get_envelop_incremental_unchecked, get_envelop_unchecked,
    is_recommended_set, Envelop, LimiterPair, NonEnvelop, NonZeroUsize, State, Variant,
};

/// `[('^', '~', 2), ('?', '!', 2), ('%', '%', 2), ('{', '}', 2)]`
fn pairs() -> Vec<LimiterPair<u8>> {
    vec![
        LimiterPair::new(b'^', b'~', 2),
        LimiterPair::new(b'?', b'!', 2),
        LimiterPair::new(b'%', b'%', 2),
        LimiterPair::new(b'{', b'}', 2),
    ]
}

/// Bad example: `A.delimiter == B.limiter`.
fn bad_pairs() -> Vec<LimiterPair<u8>> {
    vec![LimiterPair::new(b'^', b'~', 2), LimiterPair::new(b'~', b'%', 2)]
}

#[derive(Debug, PartialEq, Eq)]
enum Seg {
    Non(Vec<u8>),
    Payload(Vec<u8>),
    Pending(Vec<u8>),
    OnLimiter,
}

fn payload_slice<'a>(s: &'a [u8], e: &Envelop) -> &'a [u8] {
    match (e.payload_head_offset, e.payload_tail_offset) {
        (None, None) => &[],
        (Some(h), Some(t)) => &s[h.get()..t.get()],
        (Some(h), None) => &s[h.get()..],
        (None, Some(_)) => unreachable!(),
    }
}

fn seg_of(s: &[u8], st: &State) -> Seg {
    match st {
        State::No(n) => Seg::Non(s[n.head_offset..n.tail_offset].to_vec()),
        State::OK(e) => Seg::Payload(payload_slice(s, e).to_vec()),
        State::Pending(e) => Seg::Pending(payload_slice(s, e).to_vec()),
        State::OnLimiter(_) => Seg::OnLimiter,
    }
}

fn get(s: &[u8], pairs: &[LimiterPair<u8>], variant: Variant, trusted: bool) -> State {
    if trusted {
        get_envelop_unchecked(s, pairs, variant)
    } else {
        get_envelop(s, pairs, variant)
    }
}

fn get_inc(
    s: &[u8],
    pairs: &[LimiterPair<u8>],
    variant: Variant,
    state: &State,
    trusted: bool,
) -> State {
    if trusted {
        get_envelop_incremental_unchecked(s, pairs, variant, state)
    } else {
        get_envelop_incremental(s, pairs, variant, state)
    }
}

/// One-shot driver: repeatedly parse the front slice and consume it.
fn parse_all(s: &[u8], pairs: &[LimiterPair<u8>], variant: Variant, trusted: bool) -> Vec<Seg> {
    let mut segs = Vec::new();
    let mut rest = s;
    loop {
        match get(rest, pairs, variant, trusted) {
            State::No(non) => {
                if non.tail_offset == 0 {
                    break;
                }
                segs.push(Seg::Non(rest[..non.tail_offset].to_vec()));
                rest = &rest[non.tail_offset..];
            }
            State::OnLimiter(_) => {
                segs.push(Seg::OnLimiter);
                break;
            }
            State::Pending(e) => {
                segs.push(Seg::Pending(payload_slice(rest, &e).to_vec()));
                break;
            }
            State::OK(e) => {
                segs.push(Seg::Payload(payload_slice(rest, &e).to_vec()));
                rest = &rest[e.tail_offset.unwrap().get()..];
                if rest.is_empty() {
                    break;
                }
            }
        }
    }
    segs
}

/// Incremental driver: feed one element at a time, updating the state
/// with the incremental fn; finalized items are emitted when the head
/// offset advances.
fn parse_all_incremental(
    s: &[u8],
    pairs: &[LimiterPair<u8>],
    variant: Variant,
    trusted: bool,
) -> Vec<Seg> {
    let mut segs = Vec::new();
    let mut state: Option<State> = None;
    for end in 1..=s.len() {
        let cur = &s[..end];
        let st = match state.take() {
            None => get(cur, pairs, variant, trusted),
            Some(prev) => {
                let mut prev = prev;
                loop {
                    let next = get_inc(cur, pairs, variant, &prev, trusted);
                    if next.head_offset() != prev.head_offset() {
                        // Head advanced: `prev` is finalized.
                        segs.push(seg_of(cur, &prev));
                        prev = next;
                        continue;
                    }
                    prev = next;
                    // Final but followed by unread buffer: the next call
                    // advances to the following item; do it now.
                    let followed = match &prev {
                        State::OK(e) => e.tail_offset.is_some_and(|t| t.get() < end),
                        State::No(n) => {
                            n.tail_offset < end && n.tail_offset > n.head_offset
                        }
                        _ => false,
                    };
                    if !followed {
                        break;
                    }
                }
                prev
            }
        };
        state = Some(st);
    }
    if let Some(st) = state {
        segs.push(seg_of(s, &st));
    }
    segs
}

/// Adjacent non-envelope slices may be reported separately by the
/// incremental driver; merge them for comparison.
fn normalize(segs: Vec<Seg>) -> Vec<Seg> {
    let mut out: Vec<Seg> = Vec::new();
    for seg in segs {
        match (out.last_mut(), &seg) {
            (Some(Seg::Non(prev)), Seg::Non(_)) => {
                if let Seg::Non(v) = seg {
                    prev.extend(v);
                }
            }
            _ => out.push(seg),
        }
    }
    out
}

fn assert_scene(s: &str, pairs: &[LimiterPair<u8>], variant: Variant, expected: Vec<Seg>) {
    for trusted in [false, true] {
        let one_shot = parse_all(s.as_bytes(), pairs, variant, trusted);
        assert_eq!(one_shot, expected, "one-shot (trusted={trusted}) mismatch for {s:?}");
        let incremental = parse_all_incremental(s.as_bytes(), pairs, variant, trusted);
        assert_eq!(
            normalize(incremental),
            expected,
            "incremental (trusted={trusted}) mismatch for {s:?}"
        );
    }
}

fn non(s: &str) -> Seg {
    Seg::Non(s.as_bytes().to_vec())
}
fn payload(s: &str) -> Seg {
    Seg::Payload(s.as_bytes().to_vec())
}
fn pending(s: &str) -> Seg {
    Seg::Pending(s.as_bytes().to_vec())
}

#[test]
fn v1_example_basic() {
    // `0%%A%%%%B%%%%C%%1` -> [0, payload A, payload B, payload C, 1]
    assert_scene(
        "0%%A%%%%B%%%%C%%1",
        &pairs(),
        Variant::V1,
        vec![
            non("0"),
            payload("A"),
            payload("B"),
            payload("C"),
            non("1"),
        ],
    );
}

#[test]
fn v1_example_trailing_limiter_char() {
    // `0%%A%%%%B%%%%C%%1%` -> [0, payload A, payload B, payload C, 1, ...]
    // The trailing single `%` is a potential limiter slice.
    assert_scene(
        "0%%A%%%%B%%%%C%%1%",
        &pairs(),
        Variant::V1,
        vec![
            non("0"),
            payload("A"),
            payload("B"),
            payload("C"),
            non("1"),
            Seg::OnLimiter,
        ],
    );
}

#[test]
fn v1_example_long_limiter_run() {
    // `0%%%%%%B%%%%C%%1` -> [0, pending B%%%%C%%1]
    assert_scene(
        "0%%%%%%B%%%%C%%1",
        &pairs(),
        Variant::V1,
        vec![non("0"), pending("B%%%%C%%1")],
    );
}

#[test]
fn v1_example_empty_payload() {
    // `0^^~~^^B~~{{C}}1` -> [0, payload (offset range None), payload B, payload C, 1]
    assert_scene(
        "0^^~~^^B~~{{C}}1",
        &pairs(),
        Variant::V1,
        vec![
            non("0"),
            payload(""),
            payload("B"),
            payload("C"),
            non("1"),
        ],
    );
    // Empty payload: both payload offsets are None.
    let st = get_envelop(b"^^~~", &pairs(), Variant::V1);
    assert_eq!(
        st,
        State::OK(Envelop {
            head_offset: 0,
            payload_head_offset: None,
            payload_tail_offset: None,
            tail_offset: NonZeroUsize::new(4),
        })
    );
}

#[test]
fn v1_example_bad_pair_set() {
    // pairs [('^', '~', 2), ('~', '%', 2)]:
    // `0^^A~~~~B%%~~C%%1` -> [0, payload A, payload B, payload C, 1]
    assert_scene(
        "0^^A~~~~B%%~~C%%1",
        &bad_pairs(),
        Variant::V1,
        vec![
            non("0"),
            payload("A"),
            payload("B"),
            payload("C"),
            non("1"),
        ],
    );
}

#[test]
fn v2_example_basic() {
    // `0%%A%%%%B%%%%C%%1` -> [0, payload A%%, B, pending C%%1]
    assert_scene(
        "0%%A%%%%B%%%%C%%1",
        &pairs(),
        Variant::V2,
        vec![non("0"), payload("A%%"), non("B"), pending("C%%1")],
    );
}

#[test]
fn v2_example_multi_pairs() {
    // `0{{A}}{{B}}??C!!1` -> [0, payload A, payload B, payload C, 1]
    assert_scene(
        "0{{A}}{{B}}??C!!1",
        &pairs(),
        Variant::V2,
        vec![
            non("0"),
            payload("A"),
            payload("B"),
            payload("C"),
            non("1"),
        ],
    );
}

#[test]
fn v2_example_confirmation_latency() {
    // `0{{A}}{{B}}??C!!!` -> [0, payload A, payload B, pending C!]
    assert_scene(
        "0{{A}}{{B}}??C!!!",
        &pairs(),
        Variant::V2,
        vec![non("0"), payload("A"), payload("B"), pending("C!")],
    );
}

#[test]
fn v2_example_bad_pair_set() {
    // `0^^A~~~~B%%~~C%%1` -> [0, payload A~~, B%%, payload C, 1]
    assert_scene(
        "0^^A~~~~B%%~~C%%1",
        &bad_pairs(),
        Variant::V2,
        vec![
            non("0"),
            payload("A~~"),
            non("B%%"),
            payload("C"),
            non("1"),
        ],
    );
}

#[test]
fn v2_contiguous_envelopes_sharing_pair() {
    // `0^^1~~^^2~~3` is well defined: two contiguous envelopes can share
    // a limiter pair whose limiter != delimiter.
    assert_scene(
        "0^^1~~^^2~~3",
        &pairs(),
        Variant::V2,
        vec![non("0"), payload("1"), payload("2"), non("3")],
    );
}

#[test]
fn shared_limiter_supported() {
    // Not recommended, but supported: two pairs sharing the limiter `^`.
    let pairs = [
        LimiterPair::new(b'^', b'~', 2),
        LimiterPair::new(b'^', b'!', 3),
    ];
    // First matching pair in set order wins.
    assert_scene(
        "0^^a~~1",
        &pairs,
        Variant::V1,
        vec![non("0"), payload("a"), non("1")],
    );
    assert_scene(
        "0^^^a~~~1",
        &pairs,
        Variant::V1,
        vec![non("0"), payload("a"), non("1")],
    );
}

#[test]
fn incremental_advances_to_next_item() {
    let state = get_envelop(b"%%A%%", &pairs(), Variant::V1);
    assert_eq!(
        state,
        State::OK(Envelop {
            head_offset: 0,
            payload_head_offset: NonZeroUsize::new(2),
            payload_tail_offset: NonZeroUsize::new(3),
            tail_offset: NonZeroUsize::new(5),
        })
    );
    // Old state is final and the buffer is not all read: parse new item.
    let next = get_envelop_incremental(b"%%A%%rest", &pairs(), Variant::V1, &state);
    assert_eq!(
        next,
        State::No(NonEnvelop {
            head_offset: 5,
            tail_offset: 9
        })
    );
    // Nothing new: unchanged.
    let same = get_envelop_incremental(b"%%A%%", &pairs(), Variant::V1, &state);
    assert_eq!(same, state);
}

#[test]
fn v1_pending_tail_offsets_are_none() {
    let st = get_envelop(b"%%A", &pairs(), Variant::V1);
    assert_eq!(
        st,
        State::Pending(Envelop {
            head_offset: 0,
            payload_head_offset: NonZeroUsize::new(2),
            payload_tail_offset: None,
            tail_offset: None,
        })
    );
}

#[test]
fn v2_pending_payload_tail_monotonic_increase() {
    let st = get_envelop(b"??C!!", &pairs(), Variant::V2);
    assert_eq!(
        st,
        State::Pending(Envelop {
            head_offset: 0,
            payload_head_offset: NonZeroUsize::new(2),
            payload_tail_offset: NonZeroUsize::new(3),
            tail_offset: None,
        })
    );
    let st = get_envelop_incremental(b"??C!!!", &pairs(), Variant::V2, &st);
    assert_eq!(
        st,
        State::Pending(Envelop {
            head_offset: 0,
            payload_head_offset: NonZeroUsize::new(2),
            payload_tail_offset: NonZeroUsize::new(4),
            tail_offset: None,
        })
    );
}

#[test]
fn onlimiter_falls_back_to_non_envelop() {
    // Single `%` can still grow into a limiter slice...
    let st = get_envelop(b"abc%", &pairs(), Variant::V1);
    assert_eq!(
        st,
        State::No(NonEnvelop {
            head_offset: 0,
            tail_offset: 3
        })
    );
    // ...but a terminated too-short run is plain non-envelope content.
    let st = get_envelop_incremental(b"%x", &pairs(), Variant::V1, &State::OnLimiter(0));
    assert_eq!(
        st,
        State::No(NonEnvelop {
            head_offset: 0,
            tail_offset: 2
        })
    );
}

#[test]
fn state_offset_shift() {
    let mut e = Envelop {
        head_offset: 3,
        payload_head_offset: NonZeroUsize::new(5),
        payload_tail_offset: NonZeroUsize::new(7),
        tail_offset: NonZeroUsize::new(9),
    };
    e.offset(3);
    assert_eq!(
        e,
        Envelop {
            head_offset: 0,
            payload_head_offset: NonZeroUsize::new(2),
            payload_tail_offset: NonZeroUsize::new(4),
            tail_offset: NonZeroUsize::new(6),
        }
    );
    let mut st = State::OnLimiter(2);
    st.offset(2);
    assert_eq!(st, State::OnLimiter(0));
}

#[test]
fn recommended_set_check() {
    // `%` is both limiter and delimiter of one pair: not recommended.
    assert!(!is_recommended_set(&pairs()));
    assert!(is_recommended_set(&[
        LimiterPair::new(b'^', b'~', 2),
        LimiterPair::new(b'?', b'!', 2),
    ]));
    assert!(!is_recommended_set(&bad_pairs()));
}
