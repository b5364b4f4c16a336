//! # Text
//!
//! Numbers and symbols as they are shown to a reader.
use vstd::prelude::*;
use vstd::string::StringExecFns;

verus! {

/// The character of a digit.
pub open spec fn digit_char(digit: nat) -> char {
    ((48 + digit) as u8) as char
}

/// A number in the base ten.
pub open spec fn decimal_text(n: nat) -> Seq<char>
    decreases n,
{
    if n < 10 {
        seq![digit_char(n)]
    } else {
        decimal_text(n / 10).push(digit_char(n % 10))
    }
}

/// A symbol that may be missing, on one line: `None`, or the symbol in
/// the base ten as in `Some(97)`.
pub open spec fn symbol_text(symbol: Option<u8>) -> Seq<char> {
    match symbol {
        None => "None"@,
        Some(value) => "Some("@ + decimal_text(value as nat) + ")"@,
    }
}

/// A symbol that may be missing, spread out: `None`, or the symbol in the
/// base ten on a line of its own, indented by four spaces and followed by
/// a comma, between `Some(` and `)`.
pub open spec fn symbol_text_spread(symbol: Option<u8>) -> Seq<char> {
    match symbol {
        None => "None"@,
        Some(value) => "Some(\n    "@ + decimal_text(value as nat) + ",\n)"@,
    }
}

/// Bytes in the base ten, with a comma and a space between them.
pub open spec fn list_text(bytes: Seq<u8>) -> Seq<char>
    decreases bytes.len(),
{
    if bytes.len() == 0 {
        Seq::empty()
    } else if bytes.len() == 1 {
        decimal_text(bytes[0] as nat)
    } else {
        list_text(bytes.drop_last()) + ", "@ + decimal_text(bytes.last() as nat)
    }
}

/// Bytes that may be missing: `None`, or the bytes in square brackets
/// as in `Some([1, 2])`.
pub open spec fn bytes_text(bytes: Option<Seq<u8>>) -> Seq<char> {
    match bytes {
        None => "None"@,
        Some(list) => "Some(["@ + list_text(list) + "])"@,
    }
}

fn digit_str(digit: usize) -> (r: &'static str)
    requires
        digit < 10,
    ensures
        r@ == seq![digit_char(digit as nat)],
{
    proof {
        reveal_strlit("0");
        reveal_strlit("1");
        reveal_strlit("2");
        reveal_strlit("3");
        reveal_strlit("4");
        reveal_strlit("5");
        reveal_strlit("6");
        reveal_strlit("7");
        reveal_strlit("8");
        reveal_strlit("9");
    }
    let r = if digit == 0 {
        "0"
    } else if digit == 1 {
        "1"
    } else if digit == 2 {
        "2"
    } else if digit == 3 {
        "3"
    } else if digit == 4 {
        "4"
    } else if digit == 5 {
        "5"
    } else if digit == 6 {
        "6"
    } else if digit == 7 {
        "7"
    } else if digit == 8 {
        "8"
    } else {
        "9"
    };
    assert(r@ =~= seq![digit_char(digit as nat)]);
    r
}

/// Appends `n` in the base ten.
pub fn append_decimal(text: &mut String, n: usize)
    ensures
        final(text)@ == old(text)@ + decimal_text(n as nat),
    decreases n,
{
    if n >= 10 {
        append_decimal(text, n / 10);
    }
    text.append(digit_str(n % 10));
}

/// Appends a symbol that may be missing, on one line.
pub fn append_symbol(text: &mut String, symbol: Option<u8>)
    ensures
        final(text)@ == old(text)@ + symbol_text(symbol),
{
    match symbol {
        None => text.append("None"),
        Some(value) => {
            text.append("Some(");
            append_decimal(text, value as usize);
            text.append(")");
        },
    }
}

/// Appends a symbol that may be missing, spread out.
pub fn append_symbol_spread(text: &mut String, symbol: Option<u8>)
    ensures
        final(text)@ == old(text)@ + symbol_text_spread(symbol),
{
    match symbol {
        None => text.append("None"),
        Some(value) => {
            text.append("Some(\n    ");
            append_decimal(text, value as usize);
            text.append(",\n)");
        },
    }
}

/// Appends bytes, with a comma and a space between them.
pub fn append_list(text: &mut String, bytes: &[u8])
    ensures
        final(text)@ == old(text)@ + list_text(bytes@),
{
    let mut i: usize = 0;
    while i < bytes.len()
        invariant
            i <= bytes@.len(),
            text@ == old(text)@ + list_text(bytes@.take(i as int)),
        decreases bytes.len() - i,
    {
        proof {
            let now = bytes@.take(i + 1);
            assert(now.drop_last() == bytes@.take(i as int));
            assert(now.last() == bytes@[i as int]);
            if i == 0 {
                assert(now[0] == bytes@[0]);
                assert(list_text(bytes@.take(0)) == Seq::<char>::empty());
            }
        }
        if i > 0 {
            text.append(", ");
        }
        append_decimal(text, bytes[i] as usize);
        i += 1;
    }
    proof {
        assert(bytes@.take(i as int) == bytes@);
    }
}

} // verus!
