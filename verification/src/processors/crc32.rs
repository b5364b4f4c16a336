//! CRC32 checksum
//!
//! The cyclic redundancy checksum of 32 bits with the IEEE polynomial.
//! The running value is kept here; the arithmetic is that of the `crc`
//! crate.
use crate::streaming::checksum::{ascii_chars, format_checksum, formatted, write_formatted};
use crate::streaming::{Checksum, Process};
use vstd::prelude::*;
use vstd::string::StringSliceAdditionalSpecFns;

verus! {

/// The running checksum after `bytes`, where it was `value` before them:
/// what `crc::crc32::update` returns with the table of the IEEE
/// polynomial.
pub uninterp spec fn crc32_ieee(value: u32, bytes: Seq<u8>) -> u32;

/// Calls `crc::crc32::update` with the table of the IEEE polynomial. Its
/// result depends on the running value and the bytes alone, and is
/// given the name [`crc32_ieee`]. Without bytes the running value comes
/// back as it is: it is inverted, no byte is folded in, and it is
/// inverted again.
#[verifier::external_body]
fn ieee_update(value: u32, bytes: &[u8]) -> (r: u32)
    ensures
        r == crc32_ieee(value, bytes@),
        bytes@.len() == 0 ==> r == value,
{
    crc::crc32::update(value, &crc::crc32::IEEE_TABLE, bytes)
}

/// The name of the algorithm in ASCII: `CRC32`.
pub open spec fn crc_name() -> Seq<u8> {
    seq![67u8, 82u8, 67u8, 51u8, 50u8]
}

/// CRC32 struct to save the running checksum
pub struct CRC32 {
    a: u32,
}

impl View for CRC32 {
    type V = u32;

    /// The running checksum.
    closed spec fn view(&self) -> u32 {
        self.a
    }
}

impl CRC32 {
    /// Generate new CRC32 struct
    pub fn new() -> (r: Self)
        ensures
            r@ == 0,
    {
        CRC32 { a: 0 }
    }

    /// The checksum as it is written at the end: `CRC32<0x...>`.
    pub fn to_string(&self) -> (r: String)
        ensures
            r@ == ascii_chars(formatted(crc_name(), self@)),
    {
        proof {
            reveal_strlit("CRC32");
            assert("CRC32".is_ascii());
            assert("CRC32".spec_bytes() == crc_name());
        }
        format_checksum("CRC32", self.a)
    }
}

/// Use the new function for generating the default implementation
impl Default for CRC32 {
    fn default() -> (r: Self)
        ensures
            r@ == 0,
    {
        Self::new()
    }
}

/// Implementation of the Checksum trait for CRC32
impl Process for CRC32 {
    open spec fn inv(&self) -> bool {
        true
    }

    open spec fn next_state(state: u32, source: Seq<u8>) -> u32 {
        crc32_ieee(state, source)
    }

    open spec fn output(state: u32, source: Seq<u8>) -> Seq<u8> {
        Seq::empty()
    }

    open spec fn count(state: u32, source: Seq<u8>) -> nat {
        source.len()
    }

    open spec fn end_state(state: u32) -> u32 {
        state
    }

    open spec fn end_output(state: u32) -> Seq<u8> {
        formatted(crc_name(), state)
    }

    open spec fn end_count(state: u32) -> nat {
        0
    }

    /// Folds the bytes of `source` into the running checksum. An empty
    /// chunk leaves it as it is.
    fn process(&mut self, source: &[u8], _sink: &mut Vec<u8>) -> (r: Result<usize, std::io::Error>)
        ensures
            source@.len() == 0 ==> final(self)@ == old(self)@,
    {
        self.a = ieee_update(self.a, source);
        Ok(source.len())
    }

    fn finish(&mut self, sink: &mut Vec<u8>) -> (r: Result<usize, std::io::Error>) {
        let name: [u8; 5] = [67, 82, 67, 51, 50];
        proof {
            assert(name@ == crc_name());
        }
        write_formatted(name.as_slice(), self.a, sink);
        Ok(0)
    }
}

impl Checksum for CRC32 {
    type Output = u32;

    open spec fn checksum_of(state: u32) -> u32 {
        state
    }

    fn checksum(&self) -> (r: u32) {
        self.a
    }
}

/// A checksum writes nothing before the end, whatever it is given.
pub proof fn lemma_crc_silent(state: u32, source: Seq<u8>)
    ensures
        CRC32::output(state, source) == Seq::<u8>::empty(),
{
}

} // verus!
