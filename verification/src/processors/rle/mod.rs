//! # Run-Length Encoding
//!
//! This module implements Run-Length Encoding (RLE) in different modes.
//! In RLE the byte stream is compressed by coding consecutive bytes of the
//! same value together.
//!
//! - *Classic*: a run is written as the symbol repeated up to a threshold,
//!   followed by a count of the repetitions beyond it. No special
//!   character is needed: the repetition itself announces the count.
//! - *Lossy*: runs shorter than a threshold are merged into the run that
//!   follows, so that fewer pairs of symbol and count are written.
//! - *Telemetry*: numerical data is written as differences between
//!   consecutive values; an information byte after each block of eight
//!   tells differences from actual values.
//! - *Conditional*: a symbol is written as the code of its rank among the
//!   symbols that were seen in the same context, so that the most frequent
//!   symbols become the lowest values.
pub mod classic;
pub mod conditional;
pub mod lossy;
pub mod telemetry;

pub use classic::{RleClassicDecoder, RleClassicEncoder};
pub use conditional::{ConditionalRleDecoder, ConditionalRleEncoder};
pub use lossy::{LossyRleDecoder, LossyRleEncoder};
pub use telemetry::{TelemetryRleDecoder, TelemetryRleEncoder};
