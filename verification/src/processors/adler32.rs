//! # Adler32
//!
//! A rolling checksum of two sums of sixteen bits: the sum of the bytes,
//! which starts at one, and the sum of the values that the first sum went
//! through. Both sums wrap around at their width.
use crate::streaming::checksum::{ascii_chars, format_checksum, formatted, write_formatted};
use crate::streaming::{Checksum, Process};
use vstd::prelude::*;
use vstd::string::StringSliceAdditionalSpecFns;

verus! {

/// The two sums.
pub struct AdlerState {
    pub a: u16,
    pub b: u16,
}

/// The sums before any byte.
pub open spec fn adler_start() -> AdlerState {
    AdlerState { a: 1, b: 0 }
}

/// A sum of two numbers of sixteen bits, which starts again from zero
/// where it passes the largest of them.
pub open spec fn wrapped_sum(x: u16, y: u16) -> u16 {
    if x + y > 0xffff {
        (x + y - 0x1_0000) as u16
    } else {
        (x + y) as u16
    }
}

/// The sums after one more byte: the byte, taken modulo 65535, is added
/// to the first sum, and then the first sum, taken modulo 65535, to the
/// second.
pub open spec fn adler_step(state: AdlerState, byte: u8) -> AdlerState {
    let a = wrapped_sum(state.a, (byte as u16 % 65535u16) as u16);
    let b = wrapped_sum(state.b, (a % 65535u16) as u16);
    AdlerState { a, b }
}

/// The sums after all of `source`.
pub open spec fn adler_sums(state: AdlerState, source: Seq<u8>) -> AdlerState
    decreases source.len(),
{
    if source.len() == 0 {
        state
    } else {
        adler_step(adler_sums(state, source.drop_last()), source.last())
    }
}

/// The checksum of the two sums: the second in the high half, the first
/// in the low half.
pub open spec fn adler_value(state: AdlerState) -> u32 {
    (state.b * 0x1_0000 + state.a) as u32
}

/// The name of the algorithm in ASCII: `Adler32`.
pub open spec fn adler_name() -> Seq<u8> {
    seq![65u8, 100u8, 108u8, 101u8, 114u8, 51u8, 50u8]
}

/// Adler32 struct to save normal and aggregated sum
#[derive(Debug)]
pub struct Adler32 {
    a: u16,
    b: u16,
}

impl View for Adler32 {
    type V = AdlerState;

    closed spec fn view(&self) -> AdlerState {
        AdlerState { a: self.a, b: self.b }
    }
}

impl Adler32 {
    /// Generate new Adler32 struct
    pub fn new() -> (r: Self)
        ensures
            r@ == adler_start(),
    {
        Adler32 { a: 1, b: 0 }
    }

    /// The checksum as it is written at the end: `Adler32<0x...>`.
    pub fn to_string(&self) -> (r: String)
        ensures
            r@ == ascii_chars(formatted(adler_name(), adler_value(self@))),
    {
        proof {
            reveal_strlit("Adler32");
            assert("Adler32".is_ascii());
            assert("Adler32".spec_bytes() == adler_name());
        }
        format_checksum("Adler32", self.checksum())
    }
}

impl Checksum for Adler32 {
    type Output = u32;

    open spec fn checksum_of(state: AdlerState) -> u32 {
        adler_value(state)
    }

    fn checksum(&self) -> (r: u32) {
        let a: u16 = self.a;
        let b: u16 = self.b;
        let result: u32 = ((b as u32) << 16) | a as u32;
        assert(((b as u32) << 16) | (a as u32) == (b as u32) * 0x1_0000 + (a as u32)) by (bit_vector);
        result
    }
}

/// Use the new function for generating the default implementation
impl Default for Adler32 {
    fn default() -> (r: Self)
        ensures
            r@ == adler_start(),
    {
        Self::new()
    }
}

/// Implementation of the Process trait for Adler32
impl Process for Adler32 {
    open spec fn inv(&self) -> bool {
        true
    }

    open spec fn next_state(state: AdlerState, source: Seq<u8>) -> AdlerState {
        adler_sums(state, source)
    }

    open spec fn output(state: AdlerState, source: Seq<u8>) -> Seq<u8> {
        Seq::empty()
    }

    open spec fn count(state: AdlerState, source: Seq<u8>) -> nat {
        source.len()
    }

    open spec fn end_state(state: AdlerState) -> AdlerState {
        state
    }

    open spec fn end_output(state: AdlerState) -> Seq<u8> {
        formatted(adler_name(), adler_value(state))
    }

    open spec fn end_count(state: AdlerState) -> nat {
        0
    }

    fn process(&mut self, source: &[u8], _sink: &mut Vec<u8>) -> (r: Result<usize, std::io::Error>) {
        let mut i: usize = 0;
        while i < source.len()
            invariant
                i <= source@.len(),
                self@ == adler_sums(old(self)@, source@.take(i as int)),
            decreases source.len() - i,
        {
            proof {
                assert(source@.take(i + 1).drop_last() == source@.take(i as int));
            }
            let byte: u8 = source[i];
            self.a = self.a.wrapping_add(byte as u16 % u16::MAX);
            self.b = self.b.wrapping_add(self.a % u16::MAX);
            i += 1;
        }
        proof {
            assert(source@.take(i as int) == source@);
        }
        Ok(source.len())
    }

    fn finish(&mut self, sink: &mut Vec<u8>) -> (r: Result<usize, std::io::Error>) {
        let name: [u8; 7] = [65, 100, 108, 101, 114, 51, 50];
        let value: u32 = self.checksum();
        proof {
            assert(name@ == adler_name());
        }
        write_formatted(name.as_slice(), value, sink);
        Ok(0)
    }
}

/// Where a source is cut into chunks makes no difference to the sums.
pub proof fn lemma_adler_chunks(state: AdlerState, first: Seq<u8>, second: Seq<u8>)
    ensures
        adler_sums(adler_sums(state, first), second) == adler_sums(state, first + second),
    decreases second.len(),
{
    if second.len() == 0 {
        assert(first + second == first);
    } else {
        lemma_adler_chunks(state, first, second.drop_last());
        assert((first + second).drop_last() == first + second.drop_last());
    }
}

/// A checksum writes nothing before the end, whatever it is given.
pub proof fn lemma_adler_silent(state: AdlerState, source: Seq<u8>)
    ensures
        Adler32::output(state, source) == Seq::<u8>::empty(),
        Adler32::next_state(state, Seq::empty()) == state,
{
}

} // verus!
