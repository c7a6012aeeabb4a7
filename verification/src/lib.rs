//! Delayed arithmetic coding of 16-bit-probability symbol streams.
//!
//! An encoder turns a sequence of symbols, each drawn from a normalized
//! frequency model, into a payload of big-endian 16-bit words; a decoder reads
//! the payload forward, one symbol per call, with the same models. Up to eight
//! independent coding states ("lanes") can share one payload round-robin.
use vstd::prelude::*;

pub mod arith;
pub mod codec;
pub mod error;
pub mod format;
pub mod lanes;
pub mod laws;
pub mod model;
pub mod roundtrip;

pub use codec::{
    decode_interleaved_into, decode_into, encode, encode_events_interleaved_into,
    encode_events_into, encode_interleaved_into, encode_into, max_encoded_size, quotient,
    Decoder, Event, Workspace,
};
pub use error::Error;
pub use model::{Decoded, Model, Symbol};

verus! {

} // verus!
