//! Decoder for SQLite's variable-length integers ("varints").
//!
//! A varint spells a 64-bit two's-complement integer in one to nine bytes,
//! most significant part first. Each of the first eight bytes gives seven
//! bits and announces with its high bit that another byte follows; a ninth
//! byte, when it is reached, gives all eight of its bits and ends the
//! encoding.
//!
//! * [`model`] says, over sequences of bytes and unbounded integers, what a
//!   buffer decodes to.
//! * [`lemmas`] holds the facts about the model that the proofs rest on.
//! * [`decoder`] holds the executable decoder, proved against the model.
//! * [`laws`] states and proves what holds of every buffer: how many bytes
//!   are looked at, what a cut-off encoding gives, and that decoding is
//!   repeatable.

pub mod model;
pub mod lemmas;
pub mod decoder;
pub mod laws;

pub use crate::decoder::{_high_bit, _lower7, decode_leading_bytes, varint, VarintError};
