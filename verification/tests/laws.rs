use sdave::{
    get_envelop, get_envelop_incremental, get_envelop_incremental_unchecked, get_envelop_unchecked,
    is_recommended_set, Envelop, LimiterPair, NonEnvelop, NonZeroUsize, State, Variant,
};

fn set() -> Vec<LimiterPair<u8>> {
    vec![
        LimiterPair::new(b'^', b'~', 2),
        LimiterPair::new(b'?', b'!', 2),
        LimiterPair::new(b'%', b'%', 2),
        LimiterPair::new(b'{', b'}', 2),
    ]
}

fn no(head_offset: usize, tail_offset: usize) -> State {
    State::No(NonEnvelop { head_offset, tail_offset })
}

fn ok(head: usize, payload: Option<(usize, usize)>, tail: usize) -> State {
    State::OK(Envelop {
        head_offset: head,
        payload_head_offset: payload.and_then(|p| NonZeroUsize::new(p.0)),
        payload_tail_offset: payload.and_then(|p| NonZeroUsize::new(p.1)),
        tail_offset: NonZeroUsize::new(tail),
    })
}

fn pending(head: usize, payload_head: usize, payload_tail: usize) -> State {
    State::Pending(Envelop {
        head_offset: head,
        payload_head_offset: NonZeroUsize::new(payload_head),
        payload_tail_offset: NonZeroUsize::new(payload_tail),
        tail_offset: None,
    })
}

const VARIANTS: [Variant; 2] = [Variant::V1, Variant::V2];

const BUFFERS: [&[u8]; 9] = [
    b"",
    b"plain",
    b"0%%A%%%%B%%%%C%%1%",
    b"0^^~~^^B~~{{C}}1",
    b"0{{A}}{{B}}??C!!!",
    b"^x^^^a~b~~~~c%",
    b"?!??!!!?",
    b"%%%%%%B%%%%C%%1",
    b"a^^b~~~^^^c~~~~d",
];

/// Repeats of `limiter`, the payload, and as many repeats of `delimiter`.
fn write(pair: &LimiterPair<u8>, n: usize, payload: &[u8]) -> Vec<u8> {
    let mut out = vec![pair.limiter; n];
    out.extend_from_slice(payload);
    out.extend(vec![pair.delimiter; n]);
    out
}

fn end_of(state: &State) -> Option<usize> {
    match state {
        State::No(non) => Some(non.tail_offset),
        State::OK(e) => e.tail_offset.map(|t| t.get()),
        _ => None,
    }
}

/// The item at `head`, read from the front of what follows.
fn item_at(s: &[u8], head: usize, variant: Variant) -> State {
    shift_up(get_envelop(&s[head..], &set(), variant), head)
}

fn shift_up(state: State, by: usize) -> State {
    let up = |o: Option<NonZeroUsize>| o.and_then(|v| NonZeroUsize::new(v.get() + by));
    let env = |e: Envelop| Envelop {
        head_offset: e.head_offset + by,
        payload_head_offset: up(e.payload_head_offset),
        payload_tail_offset: up(e.payload_tail_offset),
        tail_offset: up(e.tail_offset),
    };
    match state {
        State::No(n) => no(n.head_offset + by, n.tail_offset + by),
        State::OnLimiter(h) => State::OnLimiter(h + by),
        State::Pending(e) => State::Pending(env(e)),
        State::OK(e) => State::OK(env(e)),
    }
}

#[test]
fn nonzero_values() {
    assert_eq!(NonZeroUsize::new(0), None);
    assert_eq!(NonZeroUsize::new(7).unwrap().get(), 7);
    assert_ne!(NonZeroUsize::new(7), NonZeroUsize::new(8));
}

#[test]
fn limiter_pair_new_keeps_fields() {
    let p = LimiterPair::new('a', 'b', 9);
    assert_eq!(p.limiter, 'a');
    assert_eq!(p.delimiter, 'b');
    assert_eq!(p.least_repeat, 9);
    assert_eq!(p.clone(), p);
}

#[test]
fn front_of_small_buffers() {
    for variant in VARIANTS {
        assert_eq!(get_envelop(b"", &set(), variant), no(0, 0));
        assert_eq!(get_envelop(b"abc", &set(), variant), no(0, 3));
        assert_eq!(get_envelop(b"^", &set(), variant), State::OnLimiter(0));
        assert_eq!(get_envelop(b"^^^", &set(), variant), State::OnLimiter(0));
        assert_eq!(get_envelop(b"^a", &set(), variant), no(0, 2));
        assert_eq!(get_envelop(b"^a^^b", &set(), variant), no(0, 2));
        assert_eq!(get_envelop(b"^^a", &set(), variant), pending(0, 2, 0));
        let none: [LimiterPair<u8>; 0] = [];
        assert_eq!(get_envelop(b"^^a", &none, variant), no(0, 3));
    }
}

#[test]
fn first_full_delimiter_slice_ends_v1() {
    assert_eq!(get_envelop(b"^^a~b~~~", &set(), Variant::V1), ok(0, Some((2, 5)), 7));
    assert_eq!(get_envelop(b"^^^a~~b~~~", &set(), Variant::V1), ok(0, Some((3, 7)), 10));
}

#[test]
fn last_repeats_of_confirmed_run_end_v2() {
    assert_eq!(get_envelop(b"^^a~b~~~c", &set(), Variant::V2), ok(0, Some((2, 6)), 8));
    assert_eq!(get_envelop(b"^^~~c", &set(), Variant::V2), ok(0, None, 4));
    assert_eq!(get_envelop(b"^^~~", &set(), Variant::V2), pending(0, 2, 2));
    assert_eq!(get_envelop(b"^^a~", &set(), Variant::V2), pending(0, 2, 0));
}

#[test]
fn head_offset_of_every_state() {
    assert_eq!(no(3, 4).head_offset(), 3);
    assert_eq!(State::OnLimiter(5).head_offset(), 5);
    assert_eq!(pending(6, 8, 0).head_offset(), 6);
    assert_eq!(ok(7, Some((9, 10)), 12).head_offset(), 7);
}

#[test]
fn head_offset_tells_that_parsing_advanced() {
    let pairs = [LimiterPair::new(b'%', b'%', 2u32)];
    let buf = b"%%A%%rest".as_slice();
    let state = get_envelop(&buf[..5], &pairs, Variant::V1);
    let next = get_envelop_incremental(buf, &pairs, Variant::V1, &state);
    assert_ne!(next.head_offset(), state.head_offset());
    assert_eq!(next.head_offset(), 5);
}

#[test]
fn offset_shifts_every_state() {
    let mut non = NonEnvelop { head_offset: 4, tail_offset: 9 };
    non.offset(4);
    assert_eq!(non, NonEnvelop { head_offset: 0, tail_offset: 5 });
    let mut st = no(4, 9);
    st.offset(3);
    assert_eq!(st, no(1, 6));
    let mut st = pending(4, 6, 7);
    st.offset(4);
    assert_eq!(st, pending(0, 2, 3));
    let mut st = ok(4, None, 8);
    st.offset(1);
    assert_eq!(st, ok(3, None, 7));
    let mut st = State::OnLimiter(4);
    st.offset(0);
    assert_eq!(st, State::OnLimiter(4));
}

#[test]
fn update_is_reading_again() {
    for variant in VARIANTS {
        for buf in BUFFERS {
            for cut in 0..=buf.len() {
                for head in 0..=cut {
                    let before = item_at(&buf[..cut], head, variant);
                    let after = item_at(buf, head, variant);
                    let updated = get_envelop_incremental(buf, &set(), variant, &before);
                    match end_of(&before) {
                        Some(end) if before == after && end < buf.len() => {
                            assert_eq!(updated, item_at(buf, end, variant));
                        }
                        _ => assert_eq!(updated, after),
                    }
                }
            }
        }
    }
}

#[test]
fn complete_envelope_is_final() {
    for variant in VARIANTS {
        let state = get_envelop(b"^^A~~x", &set(), variant);
        assert_eq!(state, ok(0, Some((2, 3)), 5));
        assert_eq!(get_envelop(b"^^A~~x~~~~~y", &set(), variant), state);
    }
}

/// Adds an item to the segments; adjacent non-envelope slices are one.
fn add(segments: &mut Vec<State>, item: State) {
    if let State::No(n) = &item {
        if n.head_offset == n.tail_offset {
            return;
        }
        if let Some(State::No(last)) = segments.last_mut() {
            if last.tail_offset == n.head_offset {
                last.tail_offset = n.tail_offset;
                return;
            }
        }
    }
    segments.push(item);
}

#[test]
fn pieces_do_not_matter() {
    for variant in VARIANTS {
        for buf in BUFFERS {
            let mut at_once = Vec::new();
            let mut head = 0;
            loop {
                let item = item_at(buf, head, variant);
                add(&mut at_once, item.clone());
                match end_of(&item) {
                    Some(end) if end > head => head = end,
                    _ => break,
                }
            }
            for step in 1..4 {
                let mut given = Vec::new();
                let mut state = get_envelop(&buf[..0], &set(), variant);
                let mut len = 0;
                while len < buf.len() {
                    len = buf.len().min(len + step);
                    loop {
                        let next = get_envelop_incremental(&buf[..len], &set(), variant, &state);
                        if next == state {
                            break;
                        }
                        if next.head_offset() != state.head_offset() {
                            add(&mut given, state);
                        }
                        state = next;
                    }
                }
                add(&mut given, state);
                assert_eq!(given, at_once);
            }
        }
    }
}

#[test]
fn drained_buffer_shifts_states() {
    for variant in VARIANTS {
        let buf = b"0^^~~^^B~~{{C}}1";
        for k in 0..=5 {
            let mut state = item_at(&buf[..8], 5, variant);
            let mut next = get_envelop_incremental(buf, &set(), variant, &state);
            state.offset(k);
            next.offset(k);
            assert_eq!(get_envelop_incremental(&buf[k..], &set(), variant, &state), next);
        }
    }
}

#[test]
fn written_is_read_verbatim() {
    let payloads: [&[u8]; 4] = [b"A", b"a~b", b"{{nested}}", b"x~~y"];
    for variant in VARIANTS {
        for payload in payloads {
            for n in [3usize, 5] {
                let mut buf = b"0".to_vec();
                buf.extend(write(&set()[0], n, payload));
                buf.extend_from_slice(b"rest");
                let end = 1 + n + payload.len();
                assert_eq!(get_envelop(&buf, &set(), variant), no(0, 1));
                assert_eq!(item_at(&buf, 1, variant), ok(1, Some((1 + n, end)), end + n));
                assert_eq!(&buf[1 + n..end], payload);
            }
        }
    }
}

#[test]
fn count_longer_than_payload_never_collides() {
    let payload = b"a~~~~b";
    let n = payload.len() + 1;
    let mut buf = write(&set()[0], n, payload);
    buf.push(b'.');
    for variant in VARIANTS {
        assert_eq!(
            get_envelop(&buf, &set(), variant),
            ok(0, Some((n, n + payload.len())), 2 * n + payload.len())
        );
    }
    // A colliding count cuts the payload short.
    let buf = write(&set()[0], 2, payload);
    assert_eq!(get_envelop(&buf, &set(), Variant::V1), ok(0, Some((2, 3)), 5));
}

#[test]
fn payload_tail_may_be_delimiter_with_v2_only() {
    let mut buf = write(&set()[0], 2, b"a~");
    buf.push(b'.');
    assert_eq!(get_envelop(&buf, &set(), Variant::V2), ok(0, Some((2, 4)), 6));
    assert_eq!(get_envelop(&buf, &set(), Variant::V1), ok(0, Some((2, 3)), 5));
}

#[test]
fn contiguous_envelopes_share_a_pair() {
    let mut buf = write(&set()[2], 2, b"A");
    buf.extend(write(&set()[2], 2, b"B"));
    assert_eq!(item_at(&buf, 0, Variant::V1), ok(0, Some((2, 3)), 5));
    assert_eq!(item_at(&buf, 5, Variant::V1), ok(5, Some((7, 8)), 10));
}

#[test]
fn shared_pair_with_equal_limiter_fuses_with_v2() {
    let mut buf = write(&set()[2], 2, b"A");
    buf.extend(write(&set()[2], 3, b"B"));
    assert_eq!(item_at(&buf, 0, Variant::V2), ok(0, Some((2, 6)), 8));
}

#[test]
fn payload_head_disables_its_pair() {
    // The payload starts with the limiter: the limiter slice is longer.
    let buf = write(&set()[0], 2, b"^a");
    assert_eq!(get_envelop(&buf, &set(), Variant::V1), pending(0, 3, 0));
    // Another pair does.
    let buf = write(&set()[1], 2, b"^a");
    assert_eq!(get_envelop(&buf, &set(), Variant::V1), ok(0, Some((2, 4)), 6));
}

#[test]
fn contents_before_disable_their_pair() {
    let mut buf = b"0^".to_vec();
    buf.extend(write(&set()[0], 2, b"a"));
    assert_eq!(get_envelop(&buf, &set(), Variant::V1), no(0, 1));
    let mut buf = b"0^".to_vec();
    buf.extend(write(&set()[1], 2, b"a"));
    assert_eq!(get_envelop(&buf, &set(), Variant::V1), no(0, 2));
}

#[test]
fn envelope_before_disables_nothing_with_v1() {
    // What is before ends with the limiter, but as a part of an envelope.
    let mut buf = write(&set()[2], 2, b"A");
    let state = get_envelop(&buf, &set(), Variant::V1);
    assert_eq!(state, ok(0, Some((2, 3)), 5));
    buf.extend(write(&set()[2], 2, b"B"));
    buf.push(b'x');
    let next = get_envelop_incremental(&buf, &set(), Variant::V1, &state);
    assert_eq!(next, ok(5, Some((7, 8)), 10));
    assert_eq!(&buf[7..8], b"B");
}

#[test]
fn non_delimiter_confirms_v2() {
    let state = get_envelop(b"??C!!!", &set(), Variant::V2);
    assert_eq!(state, pending(0, 2, 4));
    let state = get_envelop_incremental(b"??C!!!\n", &set(), Variant::V2, &state);
    assert_eq!(state, ok(0, Some((2, 4)), 6));
}

#[test]
fn v1_confirms_at_once() {
    assert_eq!(get_envelop(b"??C!", &set(), Variant::V1), pending(0, 2, 0));
    assert_eq!(get_envelop(b"??C!!", &set(), Variant::V1), ok(0, Some((2, 3)), 5));
}

#[test]
fn lost_states_recover_from_the_front() {
    let buf = b"^^A~~x";
    for variant in VARIANTS {
        let front = get_envelop(buf, &set(), variant);
        for state in [State::OnLimiter(6), State::OnLimiter(99), pending(6, 8, 0), pending(2, 4, 0)] {
            assert_eq!(get_envelop_incremental(buf, &set(), variant, &state), front);
        }
        // Ends at the end of the buffer: no terminated limiter slice there.
        assert_eq!(get_envelop_incremental(b"x^^", &set(), variant, &pending(1, 3, 0)), no(0, 1));
    }
}

#[test]
fn complete_envelope_that_is_not_there_recovers() {
    for variant in VARIANTS {
        // Ends beyond the buffer, has no end, or is another envelope.
        let no_end = State::OK(Envelop {
            head_offset: 0,
            payload_head_offset: None,
            payload_tail_offset: None,
            tail_offset: None,
        });
        for state in [ok(0, Some((2, 3)), 5), ok(9, None, 50), no_end, ok(0, Some((1, 2)), 3)] {
            assert_eq!(get_envelop_incremental(b"abc", &set(), variant, &state), no(0, 3));
            assert_eq!(get_envelop_incremental_unchecked(b"abc", &set(), variant, &state), no(0, 3));
        }
        let state = ok(0, Some((2, 4)), 6);
        assert_eq!(
            get_envelop_incremental(b"^^A~~x", &set(), variant, &state),
            ok(0, Some((2, 3)), 5)
        );
    }
}

#[test]
fn non_envelop_that_is_not_there_recovers() {
    for variant in VARIANTS {
        // Offsets beyond the buffer, or in the wrong order.
        for state in [no(4, 9), no(7, 9), no(1, 9), no(2, 1)] {
            assert_eq!(get_envelop_incremental(b"abc", &set(), variant, &state), no(0, 3));
        }
        // A limiter slice starts in it.
        assert_eq!(get_envelop_incremental(b"%%A", &set(), variant, &no(0, 1)), pending(0, 2, 0));
        assert_eq!(get_envelop_incremental(b"a%%A", &set(), variant, &no(0, 3)), no(0, 1));
        // One that was there goes on.
        assert_eq!(get_envelop_incremental(b"abc", &set(), variant, &no(1, 2)), no(1, 3));
        assert_eq!(get_envelop_incremental(b"a%b", &set(), variant, &no(0, 1)), no(0, 3));
        assert_eq!(get_envelop_incremental(b"a%%b", &set(), variant, &no(0, 1)), pending(1, 3, 0));
        assert_eq!(get_envelop_incremental(b"^^a", &set(), variant, &no(0, 0)), pending(0, 2, 0));
    }
}

#[test]
fn limiter_run_that_is_not_there_recovers() {
    for variant in VARIANTS {
        assert_eq!(get_envelop_incremental(b"xx", &set(), variant, &State::OnLimiter(0)), no(0, 2));
        assert_eq!(get_envelop_incremental(b"abc", &set(), variant, &State::OnLimiter(2)), no(0, 3));
        assert_eq!(get_envelop_incremental(b"abcd", &set(), variant, &State::OnLimiter(2)), no(0, 4));
        assert_eq!(get_envelop_incremental(b"ab%d", &set(), variant, &State::OnLimiter(2)), no(2, 4));
    }
}

#[test]
fn pending_envelope_that_is_not_there_recovers() {
    for variant in VARIANTS {
        // The payload starts elsewhere.
        assert_eq!(get_envelop_incremental(b"x%%A", &set(), variant, &pending(1, 2, 0)), no(0, 1));
        assert_eq!(
            get_envelop_incremental(b"x%%A", &set(), variant, &pending(1, 3, 0)),
            pending(1, 3, 0)
        );
        // No payload start, or an end.
        for state in [
            State::Pending(Envelop {
                head_offset: 1,
                payload_head_offset: None,
                payload_tail_offset: None,
                tail_offset: None,
            }),
            State::Pending(Envelop {
                head_offset: 1,
                payload_head_offset: NonZeroUsize::new(3),
                payload_tail_offset: None,
                tail_offset: NonZeroUsize::new(4),
            }),
            pending(1, 3, 3),
            pending(1, 3, usize::MAX),
            pending(1, usize::MAX, 0),
        ] {
            assert_eq!(get_envelop_incremental(b"x%%A", &set(), variant, &state), no(0, 1));
        }
    }
    // A payload end that was given goes on.
    let buf = b"x??C!!!y";
    let done = ok(1, Some((3, 5)), 7);
    assert_eq!(get_envelop_incremental(buf, &set(), Variant::V2, &pending(1, 3, 4)), done);
    assert_eq!(get_envelop_incremental(buf, &set(), Variant::V2, &pending(1, 3, 5)), done);
    assert_eq!(get_envelop_incremental(buf, &set(), Variant::V2, &pending(1, 3, 6)), no(0, 1));
    assert_eq!(get_envelop_incremental(buf, &set(), Variant::V1, &pending(1, 3, 6)), no(0, 1));
}

#[test]
fn variant_may_change_between_calls() {
    let buf = b"x??C!!!y";
    // Pending with V2 goes on with V1, from its head.
    let state = item_at(b"x??C!!!", 1, Variant::V2);
    assert_eq!(state, pending(1, 3, 5));
    let done = ok(1, Some((3, 4)), 6);
    assert_eq!(get_envelop_incremental(buf, &set(), Variant::V1, &state), done);
    assert_eq!(get_envelop_incremental(buf, &set(), Variant::V1, &pending(1, 3, 4)), done);
    let pairs = [LimiterPair::new(b'?', b'!', 2)];
    assert_eq!(get_envelop_incremental(buf, &pairs, Variant::V1, &state), done);
    // Pending with V1 goes on with V2.
    assert_eq!(
        get_envelop_incremental(buf, &set(), Variant::V2, &pending(1, 3, 0)),
        ok(1, Some((3, 5)), 7)
    );
    // A complete envelope stays final, with what follows its own end.
    assert_eq!(get_envelop_incremental(buf, &set(), Variant::V2, &done), no(6, 8));
    let longest = ok(1, Some((3, 5)), 7);
    assert_eq!(get_envelop_incremental(buf, &set(), Variant::V1, &longest), no(7, 8));
    let whole = ok(1, Some((3, 4)), 6);
    assert_eq!(get_envelop_incremental(b"x??C!!", &set(), Variant::V2, &whole), whole);
}

#[test]
fn look_up_may_change_between_calls() {
    // The trusted look-up knows the first pair of a limiter only.
    let pairs = [LimiterPair::new(b'^', b'~', 3), LimiterPair::new(b'^', b'!', 2)];
    for variant in VARIANTS {
        let state = get_envelop_unchecked(b"a^^b", &pairs, variant);
        assert_eq!(state, no(0, 4));
        assert_eq!(get_envelop_incremental(b"a^^b", &pairs, variant, &state), no(0, 4));
        // The pending envelope of the second pair is unknown to it.
        let state = get_envelop(b"^^b", &pairs, variant);
        assert_eq!(state, pending(0, 2, 0));
        assert_eq!(
            get_envelop_incremental_unchecked(b"^^b", &pairs, variant, &state),
            no(0, 3)
        );
    }
}

#[test]
fn state_of_another_set_recovers() {
    for variant in VARIANTS {
        let other = [LimiterPair::new(b'x', b'y', 2)];
        let state = get_envelop(b"xx", &other, variant);
        assert_eq!(state, State::OnLimiter(0));
        assert_eq!(get_envelop_incremental(b"xxa", &set(), variant, &state), no(0, 3));
        // A state that both sets give goes on.
        let state = get_envelop(b"ab", &other, variant);
        assert_eq!(get_envelop_incremental(b"abc", &set(), variant, &state), no(0, 3));
    }
}

#[test]
fn states_recover_exactly_when_no_prefix_held_them() {
    let buf = b"a%%?b%%%c";
    let front_of = |m: usize, head: usize, variant: Variant| item_at(&buf[..m], head, variant);
    for variant in VARIANTS {
        let mut states = Vec::new();
        for h in 0..11 {
            states.push(State::OnLimiter(h));
            for t in 0..11 {
                states.push(no(h, t));
                for u in 0..11 {
                    states.push(pending(h, t, u));
                    for e in [5, 8, 9] {
                        states.push(ok(h, Some((t, u)), e));
                    }
                }
            }
        }
        for state in states {
            let head = state.head_offset();
            let held = (head..=buf.len())
                .any(|m| VARIANTS.iter().any(|with| front_of(m, head, *with) == state));
            let updated = get_envelop_incremental(buf, &set(), variant, &state);
            if !held {
                assert_eq!(updated, get_envelop(buf, &set(), variant), "{state:?}");
            } else {
                let again = item_at(buf, head, variant);
                let is_final = again == state || matches!(state, State::OK(_));
                match end_of(&state) {
                    Some(end) if is_final && end < buf.len() => {
                        assert_eq!(updated, item_at(buf, end, variant), "{state:?}")
                    }
                    Some(_) if is_final => assert_eq!(updated, state),
                    _ => assert_eq!(updated, again, "{state:?}"),
                }
            }
        }
    }
}

#[test]
fn variants_agree_on_an_envelope() {
    for buf in BUFFERS {
        for head in 0..=buf.len() {
            let first = item_at(buf, head, Variant::V1);
            let second = item_at(buf, head, Variant::V2);
            match (&first, &second) {
                (State::OK(a), State::OK(b)) => {
                    assert!(a.tail_offset.unwrap().get() <= b.tail_offset.unwrap().get())
                }
                (State::OK(_), State::Pending(b)) => assert!(b.payload_tail_offset.is_some()),
                (State::Pending(_), State::Pending(b)) => assert!(b.payload_tail_offset.is_none()),
                _ => assert_eq!(first, second),
            }
        }
    }
    assert_eq!(get_envelop(b"^^a~~~b", &set(), Variant::V1), ok(0, Some((2, 3)), 5));
    assert_eq!(get_envelop(b"^^a~~~b", &set(), Variant::V2), ok(0, Some((2, 4)), 6));
}

#[test]
fn least_repeat_zero_is_one() {
    let zero = [LimiterPair::new(b'<', b'>', 0)];
    let one = [LimiterPair::new(b'<', b'>', 1)];
    for variant in VARIANTS {
        for buf in [b"<a>b".as_slice(), b"a<<b>>c", b"<", b"<<>>."] {
            assert_eq!(get_envelop(buf, &zero, variant), get_envelop(buf, &one, variant));
            assert_eq!(
                get_envelop_unchecked(buf, &zero, variant),
                get_envelop_unchecked(buf, &one, variant)
            );
        }
    }
    assert_eq!(get_envelop(b"<a>b", &zero, Variant::V2), ok(0, Some((1, 2)), 3));
}

#[test]
fn unchecked_agrees_on_distinct_limiters() {
    for variant in VARIANTS {
        for buf in BUFFERS {
            let state = get_envelop(buf, &set(), variant);
            assert_eq!(get_envelop_unchecked(buf, &set(), variant), state);
            assert_eq!(
                get_envelop_incremental_unchecked(buf, &set(), variant, &state),
                get_envelop_incremental(buf, &set(), variant, &state)
            );
        }
    }
}

#[test]
fn shared_limiter_look_up() {
    // The first pair needs a longer run than the second.
    let pairs = [LimiterPair::new(b'^', b'~', 3), LimiterPair::new(b'^', b'!', 2)];
    assert_eq!(get_envelop(b"^^a!!", &pairs, Variant::V1), ok(0, Some((2, 3)), 5));
    assert_eq!(get_envelop(b"^^^a~~~", &pairs, Variant::V1), ok(0, Some((3, 4)), 7));
    // Taken as recommended, only the first pair with the limiter counts.
    assert_eq!(get_envelop_unchecked(b"^^a!!", &pairs, Variant::V1), no(0, 5));
    assert_eq!(
        get_envelop_incremental_unchecked(b"^^a!!", &pairs, Variant::V1, &State::OnLimiter(0)),
        no(0, 5)
    );
    assert_eq!(get_envelop_unchecked(b"^^^a~~~", &pairs, Variant::V1), ok(0, Some((3, 4)), 7));
}

#[test]
fn recommended_set_rules() {
    let none: [LimiterPair<u8>; 0] = [];
    assert!(is_recommended_set(&none));
    assert!(!is_recommended_set(&[LimiterPair::new(1, 1, 2)]));
    assert!(!is_recommended_set(&[LimiterPair::new(1, 2, 2), LimiterPair::new(3, 1, 2)]));
    assert!(!is_recommended_set(&[LimiterPair::new(1, 2, 2), LimiterPair::new(2, 3, 2)]));
    assert!(!is_recommended_set(&[LimiterPair::new(1, 2, 2), LimiterPair::new(1, 3, 2)]));
    assert!(!is_recommended_set(&[LimiterPair::new(1, 2, 2), LimiterPair::new(3, 2, 2)]));
    assert!(is_recommended_set(&[LimiterPair::new(1, 2, 2), LimiterPair::new(3, 4, 0)]));
}

#[test]
fn elements_of_other_types() {
    let pairs = [LimiterPair::new('«', '»', 1)];
    let s: Vec<char> = "a«é»".chars().collect();
    assert_eq!(get_envelop(&s, &pairs, Variant::V1), no(0, 1));
    assert_eq!(get_envelop(&s[1..], &pairs, Variant::V1), ok(0, Some((1, 2)), 3));
    let pairs = [LimiterPair::new("<".to_string(), ">".to_string(), 1)];
    let s: Vec<String> = ["<", "a b", ">"].iter().map(|t| t.to_string()).collect();
    assert_eq!(get_envelop(&s, &pairs, Variant::V1), ok(0, Some((1, 2)), 3));
    // An element that does not equal itself is plain contents.
    let pairs = [LimiterPair::new(f64::NAN, 1.0, 1)];
    assert_eq!(get_envelop(&[f64::NAN, 2.0, 1.0], &pairs, Variant::V1), no(0, 3));
}
