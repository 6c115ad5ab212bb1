//! What holds of the library as a whole: laws that relate several calls, or
//! that speak of every buffer.

pub mod drain;
pub mod elements;
pub mod growth;
pub mod latency;
pub mod reading;
pub mod recovery;
pub mod roundtrip;
pub mod sets;
pub mod shape;
