//! # Checksums
//!
//! Checksums are used to check the integrity of the data after
//! decompression. A checksum is a processor that writes nothing until the
//! end, and then its value in a readable form.
use super::Process;
use vstd::prelude::*;
use vstd::string::{StringExecFns, StringSliceAdditionalSpecFns};

verus! {

/// Checksum trait for calculating the checksum from the internal state
pub trait Checksum: Process {
    type Output;

    /// The checksum of a state.
    spec fn checksum_of(state: Self::V) -> Self::Output;

    /// Calculate the checksum from the inner state
    fn checksum(&self) -> (r: Self::Output)
        requires
            self.inv(),
        ensures
            r == Self::checksum_of(self@),
    ;
}

/// The digit of the base sixteen for a number below sixteen, in ASCII
/// and with capital letters.
pub open spec fn hex_digit(nibble: u32) -> u8 {
    if nibble < 10 {
        (48 + nibble) as u8
    } else {
        (55 + nibble) as u8
    }
}

/// The eight digits of `value` in the base sixteen, the highest first.
pub open spec fn hex_digits(value: u32) -> Seq<u8> {
    Seq::new(8, |i: int| hex_digit((value >> ((28 - 4 * i) as u32)) & 0xf))
}

/// A checksum as it is written: the name of the algorithm, then the
/// value in angle brackets, as `0x` and eight digits of the base sixteen.
pub open spec fn formatted(name: Seq<u8>, value: u32) -> Seq<u8> {
    name + seq![60u8, 48u8, 120u8] + hex_digits(value) + seq![62u8]
}

/// Appends a checksum to `sink` as it is written.
pub fn write_formatted(name: &[u8], value: u32, sink: &mut Vec<u8>)
    ensures
        final(sink)@ == old(sink)@ + formatted(name@, value),
{
    sink.extend_from_slice(name);
    sink.push(60u8);
    sink.push(48u8);
    sink.push(120u8);
    let ghost head = sink@;
    assert(head == old(sink)@ + (name@ + seq![60u8, 48u8, 120u8]));
    let mut i: u32 = 0;
    while i < 8
        invariant
            i <= 8,
            sink@ == head + hex_digits(value).take(i as int),
        decreases 8 - i,
    {
        let shift: u32 = 28 - 4 * i;
        let nibble: u32 = (value >> shift) & 0xf;
        assert(nibble < 16) by (bit_vector)
            requires
                nibble == (value >> shift) & 0xf,
        ;
        let digit: u8 = if nibble < 10 {
            (48 + nibble) as u8
        } else {
            (55 + nibble) as u8
        };
        sink.push(digit);
        i += 1;
        proof {
            let digits = hex_digits(value);
            assert(digits.take(i as int) == digits.take(i - 1).push(digits[i - 1]));
        }
    }
    sink.push(62u8);
    proof {
        let digits = hex_digits(value);
        assert(digits.take(8) == digits);
        assert(sink@ == old(sink)@ + formatted(name@, value));
    }
}

/// The characters that ASCII bytes stand for.
pub open spec fn ascii_chars(bytes: Seq<u8>) -> Seq<char> {
    Seq::new(bytes.len(), |i: int| bytes[i] as char)
}

fn hex_str(nibble: u32) -> (r: &'static str)
    requires
        nibble < 16,
    ensures
        r@ == seq![hex_digit(nibble) as char],
{
    proof {
        reveal_strlit("0");
        reveal_strlit("1");
        reveal_strlit("2");
        reveal_strlit("3");
        reveal_strlit("4");
        reveal_strlit("5");
        reveal_strlit("6");
        reveal_strlit("7");
        reveal_strlit("8");
        reveal_strlit("9");
        reveal_strlit("A");
        reveal_strlit("B");
        reveal_strlit("C");
        reveal_strlit("D");
        reveal_strlit("E");
        reveal_strlit("F");
    }
    let r = if nibble == 0 {
        "0"
    } else if nibble == 1 {
        "1"
    } else if nibble == 2 {
        "2"
    } else if nibble == 3 {
        "3"
    } else if nibble == 4 {
        "4"
    } else if nibble == 5 {
        "5"
    } else if nibble == 6 {
        "6"
    } else if nibble == 7 {
        "7"
    } else if nibble == 8 {
        "8"
    } else if nibble == 9 {
        "9"
    } else if nibble == 10 {
        "A"
    } else if nibble == 11 {
        "B"
    } else if nibble == 12 {
        "C"
    } else if nibble == 13 {
        "D"
    } else if nibble == 14 {
        "E"
    } else {
        "F"
    };
    assert(r@ =~= seq![hex_digit(nibble) as char]);
    r
}

/// A checksum as a text: the characters of what [`write_formatted`]
/// writes. `name` is the name of the algorithm, in ASCII.
pub fn format_checksum(name: &str, value: u32) -> (r: String)
    requires
        name.is_ascii(),
    ensures
        r@ == ascii_chars(formatted(name.spec_bytes(), value)),
{
    let mut text = String::from_str(name);
    proof {
        reveal_strlit("<0x");
        reveal_strlit(">");
    }
    text.append("<0x");
    let ghost head = text@;
    assert(head == ascii_chars(name.spec_bytes() + seq![60u8, 48u8, 120u8]));
    let mut i: u32 = 0;
    while i < 8
        invariant
            i <= 8,
            text@ == head + ascii_chars(hex_digits(value).take(i as int)),
        decreases 8 - i,
    {
        let shift: u32 = 28 - 4 * i;
        let nibble: u32 = (value >> shift) & 0xf;
        assert(nibble < 16) by (bit_vector)
            requires
                nibble == (value >> shift) & 0xf,
        ;
        text.append(hex_str(nibble));
        i += 1;
        proof {
            let digits = hex_digits(value);
            assert(digits.take(i as int) == digits.take(i - 1).push(digits[i - 1]));
            assert(ascii_chars(digits.take(i as int)) == ascii_chars(digits.take(i - 1)).push(
                digits[i - 1] as char,
            ));
        }
    }
    text.append(">");
    proof {
        let digits = hex_digits(value);
        assert(digits.take(8) == digits);
        assert(text@ == ascii_chars(formatted(name.spec_bytes(), value)));
    }
    text
}

} // verus!
