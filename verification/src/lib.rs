//! # Squash Compression Library
//!
//! A streaming byte-codec framework and a family of run-length style
//! compressors and checksums built on it. Every processor comes with a
//! mathematical model of its state and of the bytes it emits; the
//! executable code is proved against that model, and so are the laws
//! that hold between encoders and decoders.
//!
//! - [`streaming`]: the processor interface and the driver of a stream
//! - [`processors`]: the checksums and the codecs
//! - [`stats`]: the rank table that the context-based codec is built on
//! - [`text`]: numbers and symbols as texts for a reader
//! - [`benchmark`]: the settings of benchmark runs
pub mod benchmark;
pub mod processors;
pub mod stats;
pub mod streaming;
pub mod text;
