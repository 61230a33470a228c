//! A codec for the events of a GitHub timeline.
//!
//! Events are put in order and split into arrays of values of the same kind, mostly as differences
//! to what came before. The arrays become sections of bytes, and a context mixing compressor makes
//! them small. `codec::LifthrasiirCodec` does all of it; the modules `codec_law` and `sections_law`
//! prove what comes back.

pub mod arrays;
pub mod binary;
pub mod buffer;
pub mod case;
pub mod case_law;
pub mod clock;
pub mod codec;
pub mod codec_law;
pub mod decimal;
pub mod decoding_law;
pub mod errors;
pub mod events;
pub mod indexing;
pub mod indexing_law;
pub mod interner;
pub mod names;
pub mod names_law;
pub mod order;
pub mod order_law;
pub mod reader;
pub mod rebuilding;
pub mod sections;
pub mod sections_law;
pub mod text;
pub mod unicode;
pub mod varint;
pub mod varint_law;
pub mod zpaq;

pub use codec::LifthrasiirCodec;
