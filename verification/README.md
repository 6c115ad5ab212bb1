# SDAVE

**S**treamable **D**elimiter-**A**daptive **V**erbatim **E**nvelope protocol,
as a Rust library verified with Verus.

One buffer mixes plain contents with envelopes
`<limiter slice><payload><delimiter slice>`. The limiter slice is `n` repeats
of a limiter, the delimiter slice `n` repeats of the matching delimiter; the
writer picks `n` so that the payload needs no escaping. `get_envelop` tells
what the front of a buffer is, `get_envelop_incremental` updates that answer
while the buffer grows.

## Layout

- `src/state.rs`: limiter pairs, variants, and the states a buffer can be in.
- `src/nonzero.rs`: offsets that are not zero.
- `src/model.rs`: what the items of a buffer are, over sequences: runs,
  openings, closings, `item_at` and `update`.
- `src/parse.rs`: the executable functions, each with the model as its
  contract.
- `src/runs.rs`: lemmas about the model.
- `src/laws/`: laws over the model.
  - `shape`: what every item looks like.
  - `growth`: updating a state is reading again; the variant may change.
  - `recovery`: which states are consistent with a buffer; the others are
    recovered by reading its front.
  - `reading`: the pieces in which a buffer arrives do not matter.
  - `latency`: when a delimiter slice is confirmed.
  - `drain`: draining the front of the buffer shifts offsets.
  - `roundtrip`: what is written is read back verbatim.
  - `sets`: what a limiter pair set decides.

## Element types

The functions take any `T: PartialEq`. Their exact contracts hold for element
types whose `==` is symmetric and transitive, as `PartialEq` asks of every
implementation (`model::lawful_eq`); it need not be reflexive. For every other
type the offsets of what is read still lie in the buffer, in order, and nothing
panics.

There is no trusted code: every function is proved from vstd alone.
