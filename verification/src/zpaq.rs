//! Entropy coding by context mixing.
//!
//! A predictor estimates the next bit of a text from the bits before it. An arithmetic coder turns
//! the bits into a number, and spends less of it on the bits that were expected. The model is that
//! of ZPAQ, in its configuration for the best compression.

pub mod coder;
pub mod component;
pub mod component_law;
pub mod component_state;
pub mod compress;
pub mod context_law;
pub mod decoder;
pub mod encoder;
pub mod estimation_law;
pub mod history;
pub mod history_law;
pub mod learning_law;
pub mod logistic;
pub mod m5;
pub mod match_law;
pub mod predictor;
pub mod predictor_law;
pub mod roundtrip;
pub mod start_law;
pub mod state_law;
pub mod tables;

pub use component::Component;
pub use compress::{compress_m5, decompress_m5};
pub use decoder::Decoder;
pub use encoder::Encoder;
pub use m5::{configure_m5, hcomp_m5};
pub use predictor::Predictor;
