//! Decoder for the "quite OK" image format: a 14-byte header followed by a
//! stream of run-length, delta, literal and cache-lookup tokens.

pub mod decoder;
pub mod header;
pub mod laws;
pub mod pixel;

pub use header::{Colors, DecodeError, Qoi, QOI_HEADER_SIZE, QOI_MAGIC, QOI_PADDING};
pub use pixel::Rgba;
