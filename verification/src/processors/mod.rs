//! # Processors
//!
//! Processors consume the data stream from the source and write some
//! output to the sink. Every submodule implements a processor for
//! `crate::streaming::Process`.
pub mod adler32;
pub mod crc32;
pub mod duplicate;
pub mod rle;

pub use adler32::Adler32;
pub use crc32::CRC32;
pub use duplicate::Duplicate;
pub use rle::{
    ConditionalRleDecoder, ConditionalRleEncoder, LossyRleDecoder, LossyRleEncoder,
    RleClassicDecoder, RleClassicEncoder, TelemetryRleDecoder, TelemetryRleEncoder,
};
