//! Hides a byte stream in the least significant bits of a carrier byte
//! sequence (an image's raw pixel bytes) and recovers it.
//!
//! [`byte_mask::ByteMask`] splits a byte into chunks of a chosen width and
//! joins chunks back; [`encoder::Encoder`] writes a secret's chunks into the
//! low bits of a carrier, right-aligned behind a run of zero chunks;
//! [`decoder::Decoder`] finds where the secret starts and joins its chunks
//! back into bytes. [`pipeline`] ties them together and proves that the two
//! directions undo each other.

pub mod byte_mask;
pub mod decoder;
pub mod encoder;
pub mod errors;
pub mod pipeline;
