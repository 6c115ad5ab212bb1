//! Limiter pairs, match variants and the states that describe the front of a
//! buffer.

use crate::nonzero::{offset_view, NonZeroUsize};
use vstd::prelude::*;

verus! {

/// One of a configurable, SDAVE-parse-time-fixed set of limiter pairs.
///
/// The limiter slice is `least_repeat` or more repeats of `limiter`;
/// the matching delimiter slice is `delimiter` repeated the same number
/// of times.
///
/// For `u8` buffers in agentic harnesses, ASCII only uses `0x00..0x7F` and
/// an LLM can output UTF-8, so it is best practice to reserve UTF-8-only
/// chars; see [`is_recommended_set`](crate::is_recommended_set).
#[derive(Debug, Clone, PartialEq, Eq)]
pub struct LimiterPair<T> {
    pub limiter: T,
    pub delimiter: T,
    /// Minimum repeat count of `limiter` for a run to open an envelope.
    /// Meant to be `>= 1`; `0` behaves exactly like `1` (a run always has
    /// length `>= 1`).
    pub least_repeat: u32,
}

impl<T> LimiterPair<T> {
    pub fn new(limiter: T, delimiter: T, least_repeat: u32) -> (r: Self)
        ensures
            r == (LimiterPair { limiter, delimiter, least_repeat }),
    {
        LimiterPair { limiter, delimiter, least_repeat }
    }
}

/// Delimiter match algorithm. There is not a full winner; choose based on
/// the scene.
#[derive(Debug, Clone, Copy, PartialEq, Eq, Structural)]
pub enum Variant {
    /// The every first full matched delimiter slice is just the delimiter
    /// slice. No delimiter slice confirmation latency, but the tail of the
    /// payload MUST NOT collide with the delimiter. This limiter pair mental
    /// burden addon is NOT solvable on application level.
    ///
    /// Head and tail of payload, plus the tail of existing contents (if NOT
    /// ended by a complete variant1 envelope) in the mixed buffer before this
    /// envelope, can at most each disable one limiter pair: at most 3 limiter
    /// pairs disabled per envelope. Two contiguous envelopes can share the
    /// same limiter pair.
    V1,
    /// The every first full matched delimiter slice FOLLOWED by a
    /// non-delimiter is the delimiter slice. The tail of the payload won't
    /// disable a limiter pair, but this introduces delimiter slice
    /// confirmation latency. The latency is solvable on application level, by
    /// automatically pushing a non-delimiter to the mixed channel.
    ///
    /// Head of payload and tail of existing contents in the mixed buffer
    /// before this envelope can at most each disable one limiter pair: at
    /// most 2 limiter pairs disabled per envelope. Two contiguous envelopes
    /// can share a limiter pair whose limiter != delimiter, e.g.
    /// `0^^1~~^^2~~3` is well defined. (Sharing a pair whose limiter ==
    /// delimiter merges the two envelopes into one, since the delimiter run
    /// and the next limiter run fuse.)
    V2,
}

/// A non-envelope slice of the mixed buffer.
#[derive(Debug, PartialEq, Eq, Structural)]
pub struct NonEnvelop {
    pub head_offset: usize,
    /// Exclusive end. Can monotonic increase on next update while this slice
    /// is still the front slice of the buffer.
    pub tail_offset: usize,
}

/// The offsets of a [`NonEnvelop`] as numbers.
pub struct NonEnvelopView {
    pub head_offset: int,
    pub tail_offset: int,
}

impl View for NonEnvelop {
    type V = NonEnvelopView;

    open spec fn view(&self) -> NonEnvelopView {
        NonEnvelopView {
            head_offset: self.head_offset as int,
            tail_offset: self.tail_offset as int,
        }
    }
}

impl NonEnvelopView {
    /// Every offset stays valid when shifted down by `offset`.
    pub open spec fn can_shift(self, offset: int) -> bool {
        offset <= self.head_offset && offset <= self.tail_offset
    }

    /// Every offset shifted down by `offset`.
    pub open spec fn shift(self, offset: int) -> Self {
        NonEnvelopView {
            head_offset: self.head_offset - offset,
            tail_offset: self.tail_offset - offset,
        }
    }
}

impl Clone for NonEnvelop {
    fn clone(&self) -> (r: Self)
        ensures
            r == *self,
    {
        NonEnvelop { head_offset: self.head_offset, tail_offset: self.tail_offset }
    }
}

impl NonEnvelop {
    /// Shift all offsets down by `offset`, after the application drained
    /// `offset` elements from the front of the buffer.
    ///
    /// `offset` must not exceed `head_offset` or `tail_offset`; every offset
    /// of this slice must stay valid after the shift.
    pub fn offset(&mut self, offset: usize)
        requires
            old(self)@.can_shift(offset as int),
        ensures
            final(self)@ == old(self)@.shift(offset as int),
    {
        self.head_offset = self.head_offset - offset;
        self.tail_offset = self.tail_offset - offset;
    }
}

/// A serialized envelope (or a potentially streaming one, see
/// [`State::Pending`]).
///
/// All offsets are relative to the slice the [`State`] was computed from.
#[derive(Debug, PartialEq, Eq, Structural)]
pub struct Envelop {
    /// Offset of the first element of the limiter slice.
    pub head_offset: usize,
    /// Offset of the first payload element. `Some` when and only when well
    /// defined (at least one non-limiter `T` exists following the limiter
    /// slice).
    pub payload_head_offset: Option<NonZeroUsize>,
    /// Exclusive end offset of the payload.
    ///
    /// For [`Variant::V1`], this is always `None` while
    /// [`State::Pending`]. For [`Variant::V2`], it can be `Some` when and only
    /// when the delimiter slice MUST exist but its exact offset is not
    /// confirmed yet, and thus its value can monotonic increase on next
    /// update.
    pub payload_tail_offset: Option<NonZeroUsize>,
    /// Exclusive end offset of the whole envelope (one past the delimiter
    /// slice). `Some` when and only when [`State::OK`].
    pub tail_offset: Option<NonZeroUsize>,
}

/// The offsets of an [`Envelop`] as numbers.
pub struct EnvelopView {
    pub head_offset: int,
    pub payload_head_offset: Option<int>,
    pub payload_tail_offset: Option<int>,
    pub tail_offset: Option<int>,
}

impl View for Envelop {
    type V = EnvelopView;

    open spec fn view(&self) -> EnvelopView {
        EnvelopView {
            head_offset: self.head_offset as int,
            payload_head_offset: offset_view(self.payload_head_offset),
            payload_tail_offset: offset_view(self.payload_tail_offset),
            tail_offset: offset_view(self.tail_offset),
        }
    }
}

/// An offset, where present, is still non-zero when shifted down by `offset`.
pub open spec fn can_shift_offset(o: Option<int>, offset: int) -> bool {
    o matches Some(v) ==> offset < v
}

/// An offset, where present, shifted down by `offset`.
pub open spec fn shift_offset(o: Option<int>, offset: int) -> Option<int> {
    match o {
        Some(v) => Some(v - offset),
        None => None,
    }
}

impl EnvelopView {
    /// Every offset stays valid when shifted down by `offset`.
    pub open spec fn can_shift(self, offset: int) -> bool {
        &&& offset <= self.head_offset
        &&& can_shift_offset(self.payload_head_offset, offset)
        &&& can_shift_offset(self.payload_tail_offset, offset)
        &&& can_shift_offset(self.tail_offset, offset)
    }

    /// Every offset shifted down by `offset`.
    pub open spec fn shift(self, offset: int) -> Self {
        EnvelopView {
            head_offset: self.head_offset - offset,
            payload_head_offset: shift_offset(self.payload_head_offset, offset),
            payload_tail_offset: shift_offset(self.payload_tail_offset, offset),
            tail_offset: shift_offset(self.tail_offset, offset),
        }
    }
}

impl Clone for Envelop {
    fn clone(&self) -> (r: Self)
        ensures
            r == *self,
    {
        Envelop {
            head_offset: self.head_offset,
            payload_head_offset: self.payload_head_offset,
            payload_tail_offset: self.payload_tail_offset,
            tail_offset: self.tail_offset,
        }
    }
}

/// A present offset shifted down by `offset`.
fn shifted(o: Option<NonZeroUsize>, offset: usize) -> (r: Option<NonZeroUsize>)
    requires
        can_shift_offset(offset_view(o), offset as int),
    ensures
        offset_view(r) == shift_offset(offset_view(o), offset as int),
{
    match o {
        Some(v) => NonZeroUsize::new(v.get() - offset),
        None => None,
    }
}

impl Envelop {
    /// Shift all offsets down by `offset`, after the application drained
    /// `offset` elements from the front of the buffer.
    ///
    /// `offset` must not exceed `head_offset`; every present offset of this
    /// envelope must stay valid (`payload_*_offset` and `tail_offset` must
    /// stay non-zero) after the shift.
    pub fn offset(&mut self, offset: usize)
        requires
            old(self)@.can_shift(offset as int),
        ensures
            final(self)@ == old(self)@.shift(offset as int),
    {
        self.head_offset = self.head_offset - offset;
        self.payload_head_offset = shifted(self.payload_head_offset, offset);
        self.payload_tail_offset = shifted(self.payload_tail_offset, offset);
        self.tail_offset = shifted(self.tail_offset, offset);
    }
}

/// What the front of the passed slice currently is.
#[derive(Debug, PartialEq, Eq, Structural)]
pub enum State {
    /// A non-envelope slice.
    No(NonEnvelop),
    /// `s[usize..]` are potentially still defining a limiter slice; `usize`
    /// is the every first offset of the potential limiter slice.
    ///
    /// `s[usize..]` can still turn out to be a [`State::No`] if later
    /// followed by a not-same `T` AND its length does not reach
    /// `least_repeat`.
    OnLimiter(usize),
    /// A potentially streaming envelope: a valid limiter slice exists, but
    /// the matched delimiter slice has not (fully) arrived yet.
    ///
    /// WARNING: PENDING contents can later become PENDING or a valid envelope,
    /// or the stream may end before the envelope completes; in that case the
    /// application should handle the malformed tail data.
    Pending(Envelop),
    /// A complete envelope.
    ///
    /// When and only when an empty payload was serialized with a
    /// [`LimiterPair`] whose limiter != delimiter, an OK envelope's
    /// `payload_head_offset` and `payload_tail_offset` are `None`.
    /// (An empty payload MUST NOT be serialized with a [`LimiterPair`] whose
    /// limiter == delimiter.)
    OK(Envelop),
}

/// A [`State`] with its offsets as numbers.
pub enum StateView {
    No(NonEnvelopView),
    OnLimiter(int),
    Pending(EnvelopView),
    OK(EnvelopView),
}

impl View for State {
    type V = StateView;

    open spec fn view(&self) -> StateView {
        match self {
            State::No(non) => StateView::No(non@),
            State::OnLimiter(head) => StateView::OnLimiter(*head as int),
            State::Pending(envelop) => StateView::Pending(envelop@),
            State::OK(envelop) => StateView::OK(envelop@),
        }
    }
}

impl StateView {
    /// Offset of the first element of the item.
    pub open spec fn head_offset(self) -> int {
        match self {
            StateView::No(non) => non.head_offset,
            StateView::OnLimiter(head) => head,
            StateView::Pending(envelop) => envelop.head_offset,
            StateView::OK(envelop) => envelop.head_offset,
        }
    }

    /// Exclusive end of an item whose extent is known: a non-envelope slice
    /// or a complete envelope.
    pub open spec fn end(self) -> Option<int> {
        match self {
            StateView::No(non) => Some(non.tail_offset),
            StateView::OnLimiter(_) => None,
            StateView::Pending(_) => None,
            StateView::OK(envelop) => envelop.tail_offset,
        }
    }

    /// The offsets are ordered as in an item of a buffer of `len` elements,
    /// and exactly those are present that the kind of item defines.
    pub open spec fn fits(self, len: int) -> bool {
        match self {
            StateView::No(non) => 0 <= non.head_offset <= non.tail_offset <= len,
            StateView::OnLimiter(head) => 0 <= head < len,
            StateView::Pending(e) => {
                &&& e.payload_head_offset matches Some(payload_head)
                &&& 0 <= e.head_offset < payload_head < len
                &&& e.payload_tail_offset matches Some(payload_tail) ==> payload_head
                    <= payload_tail < len
                &&& e.tail_offset is None
            },
            StateView::OK(e) => {
                &&& e.tail_offset matches Some(tail)
                &&& 0 <= e.head_offset < tail <= len
                &&& e.payload_head_offset is Some <==> e.payload_tail_offset is Some
                &&& (e.payload_head_offset matches Some(payload_head)
                    ==> e.payload_tail_offset matches Some(payload_tail)
                    ==> e.head_offset < payload_head < payload_tail < tail)
            },
        }
    }

    /// Every offset stays valid when shifted down by `offset`.
    pub open spec fn can_shift(self, offset: int) -> bool {
        match self {
            StateView::No(non) => non.can_shift(offset),
            StateView::OnLimiter(head) => offset <= head,
            StateView::Pending(envelop) => envelop.can_shift(offset),
            StateView::OK(envelop) => envelop.can_shift(offset),
        }
    }

    /// Every offset shifted down by `offset`.
    pub open spec fn shift(self, offset: int) -> Self {
        match self {
            StateView::No(non) => StateView::No(non.shift(offset)),
            StateView::OnLimiter(head) => StateView::OnLimiter(head - offset),
            StateView::Pending(envelop) => StateView::Pending(envelop.shift(offset)),
            StateView::OK(envelop) => StateView::OK(envelop.shift(offset)),
        }
    }
}

impl Clone for State {
    fn clone(&self) -> (r: Self)
        ensures
            r == *self,
    {
        match self {
            State::No(non) => State::No(non.clone()),
            State::OnLimiter(head) => State::OnLimiter(*head),
            State::Pending(envelop) => State::Pending(envelop.clone()),
            State::OK(envelop) => State::OK(envelop.clone()),
        }
    }
}

impl State {
    /// Offset of the first element of this item, whatever variant the state
    /// is. Comparing it across a
    /// [`get_envelop_incremental`](crate::get_envelop_incremental) call tells
    /// whether parsing advanced to the next item.
    pub fn head_offset(&self) -> (r: usize)
        ensures
            r == self@.head_offset(),
    {
        match self {
            State::No(non) => non.head_offset,
            State::OnLimiter(head) => *head,
            State::Pending(envelop) => envelop.head_offset,
            State::OK(envelop) => envelop.head_offset,
        }
    }

    /// Shift all offsets down by `offset`, after the application drained
    /// `offset` elements from the front of the buffer.
    ///
    /// Same contract as [`Envelop::offset`] / [`NonEnvelop::offset`].
    pub fn offset(&mut self, offset: usize)
        requires
            old(self)@.can_shift(offset as int),
        ensures
            final(self)@ == old(self)@.shift(offset as int),
    {
        match self {
            State::No(non) => non.offset(offset),
            State::OnLimiter(head) => {
                *head = *head - offset;
            },
            State::Pending(envelop) => envelop.offset(offset),
            State::OK(envelop) => envelop.offset(offset),
        }
    }
}

} // verus!
