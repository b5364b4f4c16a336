//! # Streaming framework
//!
//! The abstractions shared by all processors.
//!
//! Data travels from a source to a sink. In between sits a *processor*,
//! which folds chunks of input bytes into output bytes and flushes what it
//! still holds once the source is exhausted.
//!
//! ## Terms
//!
//! - A *stream* is data traveling from a source to a sink.
//! - An *encoder* compresses a stream of data.
//! - A *decoder* decompresses a stream of data.
//! - A *codec* defines a pair of encoder and decoder.
pub mod checksum;
pub mod process;
pub mod stream;

pub use checksum::Checksum;
pub use process::{Process, StreamProcess};
pub use stream::Stream;
