//! # SDAVE
//!
//! **S**treamable **D**elimiter-**A**daptive **V**erbatim **E**nvelope protocol.
//!
//! SDAVE is a fundamental, flat (nesting-agnostic, payload-agnostic)
//! serialization protocol. It reserves a serialize-time-defined delimiter
//! slice from the payload and decodes the payload verbatim, byte-identical
//! to what was written. From one slice (channel) mixing serialized envelopes,
//! potentially streaming envelopes and non-envelope slices, it tells them
//! apart, and those non-envelope slices are not considered unexpected results.
//!
//! An envelope is:
//!
//! ```text
//! <limiter slice><payload><delimiter slice>
//! ```
//!
//! where the limiter slice is `n` repeats (`n >= least_repeat`) of a
//! [`LimiterPair::limiter`], and the delimiter slice is exactly `n` repeats of
//! the matching [`LimiterPair::delimiter`]. Because the repeat count `n` is
//! chosen at serialize time, the writer can always pick an `n` that does not
//! collide with the payload: no escaping, verbatim payload.
//!
//! This crate never owns the buffer. The application controls the buffer
//! lifetime and tells SDAVE about (monotonically growing) slices; SDAVE
//! answers with offsets into the passed slice. See [`get_envelop`] and
//! [`get_envelop_incremental`].
//!
//! No fn of SDAVE ever panics when its precondition is met, and only the
//! `offset` methods have one.
//!
//! What the items of a buffer are is defined in [`model`]; the functions of
//! [`parse`] are proved to compute it, and [`laws`] states what follows for
//! writers and readers.

pub mod laws;
pub mod model;
pub mod nonzero;
pub mod parse;
mod runs;
pub mod state;

pub use nonzero::NonZeroUsize;
pub use parse::{
    get_envelop, get_envelop_incremental, get_envelop_incremental_unchecked, get_envelop_unchecked,
    is_recommended_set,
};
pub use state::{Envelop, LimiterPair, NonEnvelop, State, Variant};
