//! # Telemetry RLE
//!
//! This RLE algorithm looks at the difference between two consecutive
//! symbols. If the difference is within a threshold, the difference is
//! written, otherwise the symbol itself.
//!
//! Which of the two was written is recorded in an information byte that
//! follows each block of eight symbols. A trailing block of fewer symbols
//! is followed by an information byte too, with one bit per symbol in its
//! low bits.
//!
//! Symbols that do not fill a block are kept. They are the first symbols
//! of the next chunk's first block, or they make the trailing block that
//! is written at the end.
use crate::streaming::stream::streamed;
use crate::streaming::Process;
use crate::text::{append_decimal, append_list, bytes_text, decimal_text};
use vstd::prelude::*;
use vstd::slice::{slice_subrange, slice_to_vec};
use vstd::string::StringExecFns;

verus! {

/// Default for the largest difference that is written as a difference.
pub const TELEMETRY_RLE_MAX_THRESHOLD: u8 = 10;

/// The distance between two symbols.
pub open spec fn distance(a: u8, b: u8) -> int {
    if a > b {
        a - b
    } else {
        b - a
    }
}

/// Whether `symbol` is written as it is when it follows `last`.
pub open spec fn stored_raw(threshold: u8, last: u8, symbol: u8) -> bool {
    distance(last, symbol) > threshold
}

/// A number between -256 and 511 as a byte: what is beyond a byte at
/// either end comes back in at the other.
pub open spec fn wrapped(n: int) -> u8 {
    if n < 0 {
        (n + 256) as u8
    } else if n > 255 {
        (n - 256) as u8
    } else {
        n as u8
    }
}

/// The byte for the step from `last` to `symbol`: `128` plus the
/// difference where the value went up, `128` minus the difference where
/// it went down, wrapping around at the width of a byte.
pub open spec fn delta_byte(last: u8, symbol: u8) -> u8 {
    if last > symbol {
        wrapped(128 - (last - symbol))
    } else {
        wrapped(128 + (symbol - last))
    }
}

/// The symbol that the step `byte` leads to from `last`: up by what
/// `byte` is above `128`, or down by what it is below, wrapping around
/// at the width of a byte. It is the inverse of [`delta_byte`].
pub open spec fn undelta_byte(last: u8, byte: u8) -> u8 {
    if byte >= 128 {
        wrapped(last + (byte - 128))
    } else {
        wrapped(last - (128 - byte))
    }
}

/// The byte written for `symbol` when it follows `last`.
pub open spec fn symbol_code(threshold: u8, last: u8, symbol: u8) -> u8 {
    if stored_raw(threshold, last, symbol) {
        symbol
    } else {
        delta_byte(last, symbol)
    }
}

/// The symbol before position `i` of `symbols`, where `last` came before
/// all of them.
pub open spec fn previous(last: u8, symbols: Seq<u8>, i: int) -> u8 {
    if i <= 0 {
        last
    } else {
        symbols[i - 1]
    }
}

/// The bytes written for the symbols of a block.
pub open spec fn group_codes(threshold: u8, last: u8, group: Seq<u8>) -> Seq<u8> {
    Seq::new(
        group.len(),
        |i: int| symbol_code(threshold, previous(last, group, i), group[i]),
    )
}

/// The information of a block as a number: one binary digit per symbol,
/// the first symbol's digit in the highest place, `1` where the symbol
/// was written as it is.
pub open spec fn group_info(threshold: u8, last: u8, group: Seq<u8>) -> nat
    decreases group.len(),
{
    if group.len() == 0 {
        0
    } else {
        let digit: nat = if stored_raw(
            threshold,
            previous(last, group, group.len() - 1),
            group.last(),
        ) {
            1
        } else {
            0
        };
        2 * group_info(threshold, last, group.drop_last()) + digit
    }
}

/// A block as it is written: the bytes of its symbols, then its
/// information byte.
pub open spec fn encode_group(threshold: u8, last: u8, group: Seq<u8>) -> Seq<u8> {
    group_codes(threshold, last, group).push(group_info(threshold, last, group) as u8)
}

/// The full blocks of `source` as they are written. Symbols behind the
/// last full block are left out.
pub open spec fn encode_blocks(threshold: u8, last: u8, source: Seq<u8>) -> Seq<u8>
    decreases source.len(),
{
    let n: int = source.len() as int / 8;
    if n == 0 {
        Seq::empty()
    } else {
        encode_blocks(threshold, last, source.take(8 * (n - 1))) + encode_group(
            threshold,
            previous(last, source, 8 * (n - 1)),
            source.subrange(8 * (n - 1), 8 * n),
        )
    }
}

/// The symbols that `data` stands for, where `info` holds one binary
/// digit per byte of `data`, the first byte's digit in the highest place.
pub open spec fn decode_symbols(last: u8, data: Seq<u8>, info: nat) -> Seq<u8>
    decreases data.len(),
{
    if data.len() == 0 {
        Seq::empty()
    } else {
        let front = decode_symbols(last, data.drop_last(), info / 2);
        let before = if front.len() == 0 {
            last
        } else {
            front.last()
        };
        front.push(
            if info % 2 == 1 {
                data.last()
            } else {
                undelta_byte(before, data.last())
            },
        )
    }
}

/// The symbols of a written block: its last byte is the information
/// byte. An empty block holds no symbols.
pub open spec fn decode_group(last: u8, chunk: Seq<u8>) -> Seq<u8> {
    if chunk.len() == 0 {
        Seq::empty()
    } else {
        decode_symbols(last, chunk.drop_last(), chunk.last() as nat)
    }
}

/// The last of `symbols`, or `last` where there are none.
pub open spec fn last_of(last: u8, symbols: Seq<u8>) -> u8 {
    previous(last, symbols, symbols.len() as int)
}

/// The symbols of the full written blocks of `source`, nine bytes each.
/// Bytes behind the last full block are left out.
pub open spec fn decode_blocks(last: u8, source: Seq<u8>) -> Seq<u8>
    decreases source.len(),
{
    let n: int = source.len() as int / 9;
    if n == 0 {
        Seq::empty()
    } else {
        let front = decode_blocks(last, source.take(9 * (n - 1)));
        front + decode_group(last_of(last, front), source.subrange(9 * (n - 1), 9 * n))
    }
}

/// `info` with its `k` lowest binary digits dropped.
pub open spec fn drop_digits(info: nat, k: nat) -> nat
    decreases k,
{
    if k == 0 {
        info
    } else {
        drop_digits(info, (k - 1) as nat) / 2
    }
}

/// A number of `n` binary digits is less than this.
pub open spec fn digits_bound(n: nat) -> nat
    decreases n,
{
    if n == 0 {
        1
    } else {
        2 * digits_bound((n - 1) as nat)
    }
}

/// The information of a block has one binary digit per symbol.
pub proof fn lemma_group_info_bound(threshold: u8, last: u8, group: Seq<u8>)
    ensures
        group_info(threshold, last, group) < digits_bound(group.len()),
    decreases group.len(),
{
    if group.len() > 0 {
        lemma_group_info_bound(threshold, last, group.drop_last());
    }
}

proof fn lemma_digits_bound_small(n: nat)
    requires
        n <= 8,
    ensures
        digits_bound(n) <= 256,
        n < 8 ==> digits_bound(n) <= 128,
{
    reveal_with_fuel(digits_bound, 10);
}

proof fn lemma_shift_drops_digits(info: u8, k: u8)
    requires
        k <= 7,
    ensures
        (info >> k) as nat == drop_digits(info as nat, k as nat),
    decreases k,
{
    if k == 0 {
        assert(info >> 0u8 == info) by (bit_vector);
    } else {
        lemma_shift_drops_digits(info, (k - 1) as u8);
        let j: u8 = (k - 1) as u8;
        assert((info >> j) / 2 == info >> k) by (bit_vector)
            requires
                1 <= k <= 7,
                j == k - 1,
        ;
    }
}

/// The last symbol of two runs of symbols, one after the other.
pub proof fn lemma_last_of_append(last: u8, front: Seq<u8>, back: Seq<u8>)
    ensures
        last_of(last, front + back) == last_of(last_of(last, front), back),
{
    if back.len() > 0 {
        assert((front + back)[front.len() + back.len() - 1] == back[back.len() - 1]);
    } else {
        assert(front + back == front);
    }
}

/// What is kept of a chunk, as it is shown: nothing where it is empty.
pub open spec fn kept(remainder: Seq<u8>) -> Option<Seq<u8>> {
    if remainder.len() == 0 {
        None
    } else {
        Some(remainder)
    }
}

/// Appends what is kept of a chunk.
fn append_kept(text: &mut String, remainder: &Option<Vec<u8>>)
    requires
        remainder matches Some(v) ==> v@.len() > 0,
    ensures
        final(text)@ == old(text)@ + bytes_text(
            kept(
                match remainder {
                    Some(v) => v@,
                    None => Seq::empty(),
                },
            ),
        ),
{
    match remainder {
        None => text.append("None"),
        Some(v) => {
            text.append("Some([");
            append_list(text, v.as_slice());
            text.append("])");
        },
    }
}

/// The abstract state of the telemetry encoder.
pub struct TelemetryEncoderState {
    /// The largest difference that is written as a difference.
    pub max_threshold: u8,
    /// The symbols behind the last full block, which are kept.
    pub remainder: Seq<u8>,
    /// The last symbol that was written.
    pub last_byte: u8,
}

/// Telemetry with differences and infobytes following each byte block
pub struct TelemetryRleEncoder {
    max_threshold: u8,
    remainder: Option<Vec<u8>>,
    last_byte: u8,
}

impl View for TelemetryRleEncoder {
    type V = TelemetryEncoderState;

    closed spec fn view(&self) -> TelemetryEncoderState {
        TelemetryEncoderState {
            max_threshold: self.max_threshold,
            remainder: match self.remainder {
                Some(v) => v@,
                None => Seq::empty(),
            },
            last_byte: self.last_byte,
        }
    }
}

impl TelemetryRleEncoder {
    /// A stored remainder is never empty and never a full block, and the
    /// threshold is at most 128.
    #[verifier::type_invariant]
    spec fn well_formed(self) -> bool {
        &&& self.max_threshold <= 128
        &&& self.remainder matches Some(v) ==> 0 < v@.len() < 8
    }

    /// The state of an encoder that has seen nothing.
    pub open spec fn initial(threshold: u8) -> TelemetryEncoderState {
        TelemetryEncoderState { max_threshold: threshold, remainder: Seq::empty(), last_byte: 0 }
    }

    /// An encoder with the default threshold that has seen nothing.
    pub fn new() -> (r: Self)
        ensures
            r@ == Self::initial(TELEMETRY_RLE_MAX_THRESHOLD),
    {
        TelemetryRleEncoder {
            max_threshold: TELEMETRY_RLE_MAX_THRESHOLD,
            remainder: None,
            last_byte: 0,
        }
    }

    /// An encoder that has seen nothing and writes differences up to
    /// `threshold` as differences.
    pub fn with_threshold(threshold: u8) -> (r: Self)
        requires
            threshold <= 128,
        ensures
            r@ == Self::initial(threshold),
    {
        TelemetryRleEncoder { max_threshold: threshold, remainder: None, last_byte: 0 }
    }

    /// Writes one block: a byte for each symbol of `chunk`, then the
    /// information byte.
    fn process_chunk(&mut self, chunk: &[u8], sink: &mut Vec<u8>)
        requires
            chunk@.len() <= 8,
        ensures
            final(self)@ == (TelemetryEncoderState {
                last_byte: last_of(old(self)@.last_byte, chunk@),
                ..old(self)@
            }),
            final(sink)@ == old(sink)@ + encode_group(
                old(self)@.max_threshold,
                old(self)@.last_byte,
                chunk@,
            ),
    {
        proof {
            use_type_invariant(&*self);
        }
        let ghost first = self.last_byte;
        let ghost threshold = self.max_threshold;
        let mut infobyte: u8 = 0;
        let mut i: usize = 0;
        while i < chunk.len()
            invariant
                i <= chunk@.len() <= 8,
                threshold <= 128,
                self.max_threshold == threshold,
                self.remainder == old(self).remainder,
                self.last_byte == previous(first, chunk@, i as int),
                infobyte == group_info(threshold, first, chunk@.take(i as int)),
                sink@ == old(sink)@ + group_codes(threshold, first, chunk@.take(i as int)),
            decreases chunk.len() - i,
        {
            proof {
                use_type_invariant(&*self);
            }
            let c: u8 = chunk[i];
            let last: u8 = self.last_byte;
            let diff: u8 = if last > c {
                last - c
            } else {
                c - last
            };
            proof {
                let before = chunk@.take(i as int);
                let now = chunk@.take(i + 1);
                assert(now.drop_last() == before);
                assert(previous(first, now, i as int) == last);
                lemma_group_info_bound(threshold, first, before);
                lemma_digits_bound_small(i as nat);
                assert(infobyte < 128);
                assert(infobyte << 1u8 == 2 * infobyte) by (bit_vector)
                    requires
                        infobyte < 128,
                ;
                assert(group_codes(threshold, first, now) == group_codes(
                    threshold,
                    first,
                    before,
                ).push(symbol_code(threshold, last, c)));
            }
            infobyte = infobyte << 1u8;
            if diff <= self.max_threshold {
                if last > c {
                    sink.push(128u8 - diff)
                } else {
                    sink.push(128u8.wrapping_add(diff))
                }
            } else {
                infobyte = infobyte + 1;
                sink.push(c)
            }
            self.last_byte = c;
            i += 1;
        }
        proof {
            assert(chunk@.take(i as int) == chunk@);
        }
        sink.push(infobyte);
    }
    /// Writes the full blocks of `source` and keeps the symbols behind
    /// them, in place of what was kept before. The result is the number
    /// of symbols in the blocks.
    fn process_blocks(&mut self, source: &[u8], sink: &mut Vec<u8>) -> (r: usize)
        ensures
            final(self)@ == (TelemetryEncoderState {
                max_threshold: old(self)@.max_threshold,
                remainder: source@.skip(8 * (source@.len() as int / 8)),
                last_byte: previous(old(self)@.last_byte, source@, 8 * (source@.len() as int / 8)),
            }),
            final(sink)@ == old(sink)@ + encode_blocks(
                old(self)@.max_threshold,
                old(self)@.last_byte,
                source@,
            ),
            r == 8 * (source@.len() / 8),
    {
        let ghost first = self.last_byte;
        let ghost threshold = self.max_threshold;
        let groups: usize = source.len() / 8;
        let mut k: usize = 0;
        while k < groups
            invariant
                k <= groups,
                groups == source@.len() / 8,
                8 * groups <= source@.len() <= usize::MAX,
                self.max_threshold == threshold,
                self.last_byte == previous(first, source@, 8 * k),
                sink@ == old(sink)@ + encode_blocks(threshold, first, source@.take(8 * k)),
            decreases groups - k,
        {
            let chunk = slice_subrange(source, 8 * k, 8 * k + 8);
            proof {
                let now = source@.take(8 * (k + 1));
                assert(now.len() / 8 == k + 1);
                assert(now.take(8 * k) == source@.take(8 * k));
                assert(now.subrange(8 * k, 8 * (k + 1)) == chunk@);
                assert(previous(first, now, 8 * k) == previous(first, source@, 8 * k));
                assert(last_of(self.last_byte, chunk@) == previous(first, source@, 8 * (k + 1)));
            }
            self.process_chunk(chunk, sink);
            k += 1;
        }
        let rest = slice_subrange(source, 8 * groups, source.len());
        proof {
            use_type_invariant(&*self);
            assert(rest@.len() < 8);
        }
        self.remainder = if rest.len() == 0 {
            None
        } else {
            Some(slice_to_vec(rest))
        };
        proof {
            let done = source@.take(8 * groups);
            if groups > 0 {
                assert(done.take(8 * (groups - 1)) == source@.take(8 * (groups - 1)));
                assert(done.subrange(8 * (groups - 1), 8 * groups) == source@.subrange(
                    8 * (groups - 1),
                    8 * groups,
                ));
                assert(previous(first, done, 8 * (groups - 1)) == previous(
                    first,
                    source@,
                    8 * (groups - 1),
                ));
            }
            assert(encode_blocks(threshold, first, done) == encode_blocks(threshold, first, source@));
            assert(rest@ == source@.skip(8 * groups));
            assert(self@.remainder =~= source@.skip(8 * groups));
            assert(self@.last_byte == previous(first, source@, 8 * groups));
            assert(self@.max_threshold == threshold);
        }
        groups * 8
    }

    /// The state as a text for a reader.
    pub fn to_string(&self) -> (r: String)
        ensures
            r@ == "TelemetryRleEncoder(max-threshold: "@ + decimal_text(self@.max_threshold as nat)
                + ", remainder: "@ + bytes_text(kept(self@.remainder)) + "), last_byte: "@
                + decimal_text(self@.last_byte as nat),
    {
        proof {
            use_type_invariant(self);
        }
        let mut text = String::from_str("TelemetryRleEncoder(max-threshold: ");
        append_decimal(&mut text, self.max_threshold as usize);
        text.append(", remainder: ");
        append_kept(&mut text, &self.remainder);
        text.append("), last_byte: ");
        append_decimal(&mut text, self.last_byte as usize);
        text
    }
}

impl Default for TelemetryRleEncoder {
    fn default() -> (r: Self)
        ensures
            r@ == Self::initial(TELEMETRY_RLE_MAX_THRESHOLD),
    {
        Self::new()
    }
}

impl Process for TelemetryRleEncoder {
    open spec fn inv(&self) -> bool {
        true
    }

    open spec fn next_state(state: TelemetryEncoderState, source: Seq<u8>) -> TelemetryEncoderState {
        let all = state.remainder + source;
        TelemetryEncoderState {
            max_threshold: state.max_threshold,
            remainder: all.skip(8 * (all.len() as int / 8)),
            last_byte: previous(state.last_byte, all, 8 * (all.len() as int / 8)),
        }
    }

    open spec fn output(state: TelemetryEncoderState, source: Seq<u8>) -> Seq<u8> {
        encode_blocks(state.max_threshold, state.last_byte, state.remainder + source)
    }

    open spec fn count(state: TelemetryEncoderState, source: Seq<u8>) -> nat {
        (8 * ((state.remainder + source).len() / 8)) as nat
    }

    open spec fn end_state(state: TelemetryEncoderState) -> TelemetryEncoderState {
        TelemetryEncoderState { last_byte: last_of(state.last_byte, state.remainder), ..state }
    }

    open spec fn end_output(state: TelemetryEncoderState) -> Seq<u8> {
        if state.remainder.len() == 0 {
            Seq::empty()
        } else {
            encode_group(state.max_threshold, state.last_byte, state.remainder)
        }
    }

    open spec fn end_count(state: TelemetryEncoderState) -> nat {
        state.remainder.len()
    }

    /// Writes the full blocks of what was kept and `source`, and keeps
    /// the symbols behind them. The result is the number of symbols in
    /// the blocks that were written.
    fn process(&mut self, source: &[u8], sink: &mut Vec<u8>) -> (r: Result<usize, std::io::Error>) {
        proof {
            use_type_invariant(&*self);
        }
        match &self.remainder {
            None => {
                proof {
                    assert(self@.remainder + source@ == source@);
                }
                let written: usize = self.process_blocks(source, sink);
                Ok(written)
            },
            Some(rest) => {
                let mut all: Vec<u8> = slice_to_vec(rest.as_slice());
                all.extend_from_slice(source);
                proof {
                    assert(all@ == self@.remainder + source@);
                }
                let written: usize = self.process_blocks(all.as_slice(), sink);
                Ok(written)
            },
        }
    }

    /// Writes the symbols that are kept as one shorter block.
    fn finish(&mut self, sink: &mut Vec<u8>) -> (r: Result<usize, std::io::Error>) {
        proof {
            use_type_invariant(&*self);
        }
        let data: Vec<u8> = match &self.remainder {
            None => {
                return Ok(0);
            },
            Some(rest) => slice_to_vec(rest.as_slice()),
        };
        self.process_chunk(data.as_slice(), sink);
        Ok(data.len())
    }
}

/// The abstract state of the telemetry decoder.
pub struct TelemetryDecoderState {
    /// The bytes behind the last full written block, which are kept.
    pub remainder: Seq<u8>,
    /// The last symbol that was recovered.
    pub last_byte: u8,
}

/// Telemetry with differences and infobytes following each byte block
pub struct TelemetryRleDecoder {
    remainder: Option<Vec<u8>>,
    last_byte: u8,
}

impl View for TelemetryRleDecoder {
    type V = TelemetryDecoderState;

    closed spec fn view(&self) -> TelemetryDecoderState {
        TelemetryDecoderState {
            remainder: match self.remainder {
                Some(v) => v@,
                None => Seq::empty(),
            },
            last_byte: self.last_byte,
        }
    }
}

impl TelemetryRleDecoder {
    /// A stored remainder is never empty and never a full written block.
    #[verifier::type_invariant]
    spec fn well_formed(self) -> bool {
        self.remainder matches Some(v) ==> 0 < v@.len() < 9
    }

    /// The state of a decoder that has seen nothing.
    pub open spec fn initial() -> TelemetryDecoderState {
        TelemetryDecoderState { remainder: Seq::empty(), last_byte: 0 }
    }

    /// A decoder that has seen nothing.
    pub fn new() -> (r: Self)
        ensures
            r@ == Self::initial(),
    {
        TelemetryRleDecoder { remainder: None, last_byte: 0 }
    }

    /// Recovers the symbols of one written block, whose last byte is the
    /// information byte.
    fn process_chunk(&mut self, chunk: &[u8], sink: &mut Vec<u8>)
        requires
            1 <= chunk@.len() <= 9,
        ensures
            final(self)@ == (TelemetryDecoderState {
                last_byte: last_of(
                    old(self)@.last_byte,
                    decode_group(old(self)@.last_byte, chunk@),
                ),
                ..old(self)@
            }),
            final(sink)@ == old(sink)@ + decode_group(old(self)@.last_byte, chunk@),
    {
        let ghost first = self.last_byte;
        let ghost data = chunk@.drop_last();
        let l: usize = chunk.len() - 1;
        let info: u8 = chunk[l];
        let mut i: usize = 0;
        while i < l
            invariant
                i <= l <= 8,
                l + 1 == chunk@.len(),
                info == chunk@[l as int],
                data == chunk@.drop_last(),
                self.remainder == old(self).remainder,
                self.last_byte == last_of(
                    first,
                    decode_symbols(
                        first,
                        data.take(i as int),
                        drop_digits(info as nat, (l - i) as nat),
                    ),
                ),
                sink@ == old(sink)@ + decode_symbols(
                    first,
                    data.take(i as int),
                    drop_digits(info as nat, (l - i) as nat),
                ),
            decreases l - i,
        {
            proof {
                use_type_invariant(&*self);
            }
            let byte: u8 = chunk[i];
            let shift: u8 = (l - 1 - i) as u8;
            let digit: u8 = (info >> shift) & 1u8;
            proof {
                let shifted: u8 = info >> shift;
                lemma_shift_drops_digits(info, shift);
                assert((shifted & 1u8 == 1u8) == (shifted % 2 == 1)) by (bit_vector);
                assert(data.take(i + 1).drop_last() == data.take(i as int));
                assert(data.take(i + 1).last() == byte);
                assert(drop_digits(info as nat, (l - i) as nat) == drop_digits(
                    info as nat,
                    (l - 1 - i) as nat,
                ) / 2);
            }
            if digit == 1u8 {
                sink.push(byte);
                self.last_byte = byte;
            } else {
                let symbol: u8 = if byte >= 128u8 {
                    self.last_byte.wrapping_add(byte - 128u8)
                } else {
                    self.last_byte.wrapping_sub(128u8 - byte)
                };
                sink.push(symbol);
                self.last_byte = symbol;
            }
            i += 1;
        }
        proof {
            assert(data.take(i as int) == data);
        }
    }
    /// Recovers the symbols of the full written blocks of `source` and
    /// keeps the bytes behind them, in place of what was kept before. The
    /// result is the number of bytes in the blocks.
    fn process_blocks(&mut self, source: &[u8], sink: &mut Vec<u8>) -> (r: usize)
        ensures
            final(self)@ == (TelemetryDecoderState {
                remainder: source@.skip(9 * (source@.len() as int / 9)),
                last_byte: last_of(old(self)@.last_byte, decode_blocks(old(self)@.last_byte, source@)),
            }),
            final(sink)@ == old(sink)@ + decode_blocks(old(self)@.last_byte, source@),
            r == 9 * (source@.len() / 9),
    {
        let ghost first = self.last_byte;
        let groups: usize = source.len() / 9;
        let mut k: usize = 0;
        while k < groups
            invariant
                k <= groups,
                groups == source@.len() / 9,
                9 * groups <= source@.len() <= usize::MAX,
                self.last_byte == last_of(first, decode_blocks(first, source@.take(9 * k))),
                sink@ == old(sink)@ + decode_blocks(first, source@.take(9 * k)),
            decreases groups - k,
        {
            let chunk = slice_subrange(source, 9 * k, 9 * k + 9);
            proof {
                let now = source@.take(9 * (k + 1));
                assert(now.len() / 9 == k + 1);
                assert(now.take(9 * k) == source@.take(9 * k));
                assert(now.subrange(9 * k, 9 * (k + 1)) == chunk@);
                lemma_last_of_append(
                    first,
                    decode_blocks(first, source@.take(9 * k)),
                    decode_group(self.last_byte, chunk@),
                );
            }
            self.process_chunk(chunk, sink);
            k += 1;
        }
        let rest = slice_subrange(source, 9 * groups, source.len());
        proof {
            use_type_invariant(&*self);
            assert(rest@.len() < 9);
        }
        self.remainder = if rest.len() == 0 {
            None
        } else {
            Some(slice_to_vec(rest))
        };
        proof {
            let done = source@.take(9 * groups);
            if groups > 0 {
                assert(done.take(9 * (groups - 1)) == source@.take(9 * (groups - 1)));
                assert(done.subrange(9 * (groups - 1), 9 * groups) == source@.subrange(
                    9 * (groups - 1),
                    9 * groups,
                ));
            }
            assert(decode_blocks(first, done) == decode_blocks(first, source@));
            assert(rest@ == source@.skip(9 * groups));
            assert(self@.remainder =~= source@.skip(9 * groups));
        }
        groups * 9
    }

    /// The state as a text for a reader.
    pub fn to_string(&self) -> (r: String)
        ensures
            r@ == "TelemetryRleDecoder(remainder: "@ + bytes_text(kept(self@.remainder))
                + "), last_byte: "@ + decimal_text(self@.last_byte as nat),
    {
        proof {
            use_type_invariant(self);
        }
        let mut text = String::from_str("TelemetryRleDecoder(remainder: ");
        append_kept(&mut text, &self.remainder);
        text.append("), last_byte: ");
        append_decimal(&mut text, self.last_byte as usize);
        text
    }
}

impl Default for TelemetryRleDecoder {
    fn default() -> (r: Self)
        ensures
            r@ == Self::initial(),
    {
        Self::new()
    }
}

impl Process for TelemetryRleDecoder {
    open spec fn inv(&self) -> bool {
        true
    }

    open spec fn next_state(state: TelemetryDecoderState, source: Seq<u8>) -> TelemetryDecoderState {
        let all = state.remainder + source;
        TelemetryDecoderState {
            remainder: all.skip(9 * (all.len() as int / 9)),
            last_byte: last_of(state.last_byte, decode_blocks(state.last_byte, all)),
        }
    }

    open spec fn output(state: TelemetryDecoderState, source: Seq<u8>) -> Seq<u8> {
        decode_blocks(state.last_byte, state.remainder + source)
    }

    open spec fn count(state: TelemetryDecoderState, source: Seq<u8>) -> nat {
        (9 * ((state.remainder + source).len() / 9)) as nat
    }

    open spec fn end_state(state: TelemetryDecoderState) -> TelemetryDecoderState {
        TelemetryDecoderState {
            last_byte: last_of(state.last_byte, decode_group(state.last_byte, state.remainder)),
            ..state
        }
    }

    open spec fn end_output(state: TelemetryDecoderState) -> Seq<u8> {
        decode_group(state.last_byte, state.remainder)
    }

    open spec fn end_count(state: TelemetryDecoderState) -> nat {
        state.remainder.len()
    }

    /// Recovers the symbols of the full written blocks of what was kept
    /// and `source`, and keeps the bytes behind them. The result is the
    /// number of bytes in the blocks that were read.
    fn process(&mut self, source: &[u8], sink: &mut Vec<u8>) -> (r: Result<usize, std::io::Error>) {
        proof {
            use_type_invariant(&*self);
        }
        match &self.remainder {
            None => {
                proof {
                    assert(self@.remainder + source@ == source@);
                }
                let read: usize = self.process_blocks(source, sink);
                Ok(read)
            },
            Some(rest) => {
                let mut all: Vec<u8> = slice_to_vec(rest.as_slice());
                all.extend_from_slice(source);
                proof {
                    assert(all@ == self@.remainder + source@);
                }
                let read: usize = self.process_blocks(all.as_slice(), sink);
                Ok(read)
            },
        }
    }

    /// Recovers the symbols of the shorter block that is kept.
    fn finish(&mut self, sink: &mut Vec<u8>) -> (r: Result<usize, std::io::Error>) {
        proof {
            use_type_invariant(&*self);
        }
        let data: Vec<u8> = match &self.remainder {
            None => {
                return Ok(0);
            },
            Some(rest) => slice_to_vec(rest.as_slice()),
        };
        self.process_chunk(data.as_slice(), sink);
        Ok(data.len())
    }
}

impl From<TelemetryRleDecoder> for TelemetryRleEncoder {
    /// An encoder with the default threshold that has seen nothing.
    fn from(_rle: TelemetryRleDecoder) -> (r: Self)
        ensures
            r@ == Self::initial(TELEMETRY_RLE_MAX_THRESHOLD),
    {
        let r = TelemetryRleEncoder::new();
        proof {
            use_type_invariant(&r);
        }
        r
    }
}

impl vstd::std_specs::convert::FromSpecImpl<TelemetryRleDecoder> for TelemetryRleEncoder {
    open spec fn obeys_from_spec() -> bool {
        true
    }

    closed spec fn from_spec(rle: TelemetryRleDecoder) -> Self {
        TelemetryRleEncoder {
            max_threshold: TELEMETRY_RLE_MAX_THRESHOLD,
            remainder: None,
            last_byte: 0,
        }
    }
}

impl From<TelemetryRleEncoder> for TelemetryRleDecoder {
    /// A decoder that has seen nothing.
    fn from(_rle: TelemetryRleEncoder) -> (r: Self)
        ensures
            r@ == Self::initial(),
    {
        let r = TelemetryRleDecoder::new();
        proof {
            use_type_invariant(&r);
        }
        r
    }
}

impl vstd::std_specs::convert::FromSpecImpl<TelemetryRleEncoder> for TelemetryRleDecoder {
    open spec fn obeys_from_spec() -> bool {
        true
    }

    closed spec fn from_spec(rle: TelemetryRleEncoder) -> Self {
        TelemetryRleDecoder { remainder: None, last_byte: 0 }
    }
}

/// All that an encoder which has seen nothing writes for `symbols`:
/// what `process` writes, then what `finish` writes.
pub open spec fn encode_telemetry(threshold: u8, symbols: Seq<u8>) -> Seq<u8> {
    let start = TelemetryRleEncoder::initial(threshold);
    TelemetryRleEncoder::output(start, symbols) + TelemetryRleEncoder::end_output(
        TelemetryRleEncoder::next_state(start, symbols),
    )
}

/// All that a decoder which has seen nothing recovers from `bytes`:
/// what `process` recovers, then what `finish` recovers.
pub open spec fn decode_telemetry(bytes: Seq<u8>) -> Seq<u8> {
    let start = TelemetryRleDecoder::initial();
    TelemetryRleDecoder::output(start, bytes) + TelemetryRleDecoder::end_output(
        TelemetryRleDecoder::next_state(start, bytes),
    )
}

/// A step that was written as a difference leads back to the symbol.
pub proof fn lemma_undelta_delta(last: u8, symbol: u8)
    ensures
        undelta_byte(last, delta_byte(last, symbol)) == symbol,
{
}

/// The symbols of a block are recovered from its bytes and its
/// information.
pub proof fn lemma_symbols_roundtrip(threshold: u8, last: u8, group: Seq<u8>)
    ensures
        decode_symbols(
            last,
            group_codes(threshold, last, group),
            group_info(threshold, last, group),
        ) == group,
    decreases group.len(),
{
    if group.len() > 0 {
        let front = group.drop_last();
        lemma_symbols_roundtrip(threshold, last, front);
        assert(group_codes(threshold, last, group).drop_last() == group_codes(threshold, last, front));
        let before = previous(last, group, group.len() - 1);
        assert(before == if front.len() == 0 {
            last
        } else {
            front.last()
        });
        lemma_undelta_delta(before, group.last());
        assert(front.push(group.last()) == group);
    }
}

/// A written block of at most eight symbols is recovered.
pub proof fn lemma_group_roundtrip(threshold: u8, last: u8, group: Seq<u8>)
    requires
        group.len() <= 8,
    ensures
        decode_group(last, encode_group(threshold, last, group)) == group,
{
    lemma_group_info_bound(threshold, last, group);
    lemma_digits_bound_small(group.len());
    lemma_symbols_roundtrip(threshold, last, group);
    let written = encode_group(threshold, last, group);
    assert(written.drop_last() == group_codes(threshold, last, group));
}

/// Each full block of eight symbols is written as nine bytes.
pub proof fn lemma_encode_blocks_len(threshold: u8, last: u8, source: Seq<u8>)
    ensures
        encode_blocks(threshold, last, source).len() == 9 * (source.len() / 8),
    decreases source.len(),
{
    let n: int = source.len() as int / 8;
    if n > 0 {
        lemma_encode_blocks_len(threshold, last, source.take(8 * (n - 1)));
    }
}

/// The full blocks of `source` are recovered from what was written for
/// them.
pub proof fn lemma_blocks_roundtrip(threshold: u8, last: u8, source: Seq<u8>)
    ensures
        decode_blocks(last, encode_blocks(threshold, last, source)) == source.take(
            8 * (source.len() as int / 8),
        ),
    decreases source.len(),
{
    let n: int = source.len() as int / 8;
    let written = encode_blocks(threshold, last, source);
    if n > 0 {
        let head = source.take(8 * (n - 1));
        let group = source.subrange(8 * (n - 1), 8 * n);
        let before = previous(last, source, 8 * (n - 1));
        let head_written = encode_blocks(threshold, last, head);
        let group_written = encode_group(threshold, before, group);
        lemma_blocks_roundtrip(threshold, last, head);
        lemma_encode_blocks_len(threshold, last, head);
        lemma_group_roundtrip(threshold, before, group);
        assert(written.len() / 9 == n);
        assert(written.take(9 * (n - 1)) == head_written);
        assert(written.subrange(9 * (n - 1), 9 * n) == group_written);
        assert(head.take(8 * (head.len() as int / 8)) == head);
        assert(last_of(last, head) == before);
        assert(head + group == source.take(8 * n));
    } else {
        assert(source.take(0) == Seq::<u8>::empty());
    }
}

/// Bytes behind the last full written block do not change what the full
/// written blocks stand for.
pub proof fn lemma_decode_blocks_ignores_rest(last: u8, blocks: Seq<u8>, rest: Seq<u8>)
    requires
        blocks.len() % 9 == 0,
        rest.len() < 9,
    ensures
        decode_blocks(last, blocks + rest) == decode_blocks(last, blocks),
{
    let n: int = blocks.len() as int / 9;
    let all = blocks + rest;
    assert(all.len() / 9 == n);
    if n > 0 {
        assert(all.take(9 * (n - 1)) == blocks.take(9 * (n - 1)));
        assert(all.subrange(9 * (n - 1), 9 * n) == blocks.subrange(9 * (n - 1), 9 * n));
    }
}

/// Encoding and then decoding gives back the symbols, whatever their
/// number and whatever the threshold.
pub proof fn lemma_telemetry_roundtrip(threshold: u8, symbols: Seq<u8>)
    ensures
        decode_telemetry(encode_telemetry(threshold, symbols)) == symbols,
{
    let n: int = symbols.len() as int / 8;
    let rest = symbols.skip(8 * n);
    let before = previous(0, symbols, 8 * n);
    let blocks = encode_blocks(threshold, 0, symbols);
    let tail = if rest.len() == 0 {
        Seq::<u8>::empty()
    } else {
        encode_group(threshold, before, rest)
    };
    let written = encode_telemetry(threshold, symbols);
    assert(written == blocks + tail);
    lemma_encode_blocks_len(threshold, 0, symbols);
    lemma_blocks_roundtrip(threshold, 0, symbols);
    lemma_decode_blocks_ignores_rest(0, blocks, tail);
    assert(written.len() as int / 9 == n);
    assert(written.skip(9 * n) == tail);
    let full = symbols.take(8 * n);
    assert(decode_blocks(0, written) == full);
    assert(last_of(0, full) == before);
    if rest.len() > 0 {
        lemma_group_roundtrip(threshold, before, rest);
    }
    assert(decode_group(before, tail) == rest);
    assert(full + rest == symbols);
}

/// Nothing in, nothing out: an empty chunk is written and read as
/// nothing in any state, and an empty source as nothing at all.
pub proof fn lemma_telemetry_empty(
    encoder: TelemetryEncoderState,
    decoder: TelemetryDecoderState,
    threshold: u8,
)
    requires
        encoder.remainder.len() < 8,
        decoder.remainder.len() < 9,
    ensures
        TelemetryRleEncoder::output(encoder, Seq::empty()) == Seq::<u8>::empty(),
        TelemetryRleDecoder::output(decoder, Seq::empty()) == Seq::<u8>::empty(),
        TelemetryRleEncoder::next_state(encoder, Seq::empty()) == encoder,
        TelemetryRleDecoder::next_state(decoder, Seq::empty()) == decoder,
        streamed::<TelemetryRleEncoder>(TelemetryRleEncoder::initial(threshold), Seq::empty())
            == Seq::<u8>::empty(),
        streamed::<TelemetryRleDecoder>(TelemetryRleDecoder::initial(), Seq::empty())
            == Seq::<u8>::empty(),
        encode_telemetry(threshold, Seq::empty()) == Seq::<u8>::empty(),
        decode_telemetry(Seq::empty()) == Seq::<u8>::empty(),
{
    let nothing = Seq::<u8>::empty();
    assert(nothing + nothing == nothing);
    assert(nothing.skip(0) == nothing);
    assert(encoder.remainder + nothing == encoder.remainder);
    assert(decoder.remainder + nothing == decoder.remainder);
    assert(encoder.remainder.skip(0) == encoder.remainder);
    assert(decoder.remainder.skip(0) == decoder.remainder);
}

/// Symbols behind the last full block do not change what is written for
/// the full blocks.
pub proof fn lemma_encode_blocks_ignores_rest(
    threshold: u8,
    last: u8,
    blocks: Seq<u8>,
    rest: Seq<u8>,
)
    requires
        blocks.len() % 8 == 0,
        rest.len() < 8,
    ensures
        encode_blocks(threshold, last, blocks + rest) == encode_blocks(threshold, last, blocks),
{
    let n: int = blocks.len() as int / 8;
    let all = blocks + rest;
    assert(all.len() / 8 == n);
    if n > 0 {
        assert(all.take(8 * (n - 1)) == blocks.take(8 * (n - 1)));
        assert(all.subrange(8 * (n - 1), 8 * n) == blocks.subrange(8 * (n - 1), 8 * n));
    }
}

/// What is written for full blocks and the symbols after them is what
/// is written for the full blocks, and then what is written for the
/// symbols after them.
pub proof fn lemma_encode_blocks_append(threshold: u8, last: u8, front: Seq<u8>, back: Seq<u8>)
    requires
        front.len() % 8 == 0,
    ensures
        encode_blocks(threshold, last, front + back) == encode_blocks(threshold, last, front)
            + encode_blocks(threshold, last_of(last, front), back),
    decreases back.len(),
{
    let m: int = back.len() as int / 8;
    let k: int = front.len() as int / 8;
    let all = front + back;
    if m == 0 {
        lemma_encode_blocks_ignores_rest(threshold, last, front, back);
    } else {
        let head = back.take(8 * (m - 1));
        lemma_encode_blocks_append(threshold, last, front, head);
        assert(all.len() / 8 == k + m);
        assert(all.take(8 * (k + m - 1)) == front + head);
        assert(all.subrange(8 * (k + m - 1), 8 * (k + m)) == back.subrange(8 * (m - 1), 8 * m));
        assert(previous(last, all, 8 * (k + m - 1)) == previous(
            last_of(last, front),
            back,
            8 * (m - 1),
        ));
        assert(head.len() / 8 == m - 1);
        lemma_encode_blocks_ignores_rest(
            threshold,
            last_of(last, front),
            head,
            Seq::<u8>::empty(),
        );
        assert(head + Seq::<u8>::empty() == head);
    }
}

/// The symbols of full written blocks and the bytes after them are the
/// symbols of the full written blocks, and then the symbols of the bytes
/// after them.
pub proof fn lemma_decode_blocks_append(last: u8, front: Seq<u8>, back: Seq<u8>)
    requires
        front.len() % 9 == 0,
    ensures
        decode_blocks(last, front + back) == decode_blocks(last, front) + decode_blocks(
            last_of(last, decode_blocks(last, front)),
            back,
        ),
    decreases back.len(),
{
    let m: int = back.len() as int / 9;
    let k: int = front.len() as int / 9;
    let all = front + back;
    let first = decode_blocks(last, front);
    let middle = last_of(last, first);
    if m == 0 {
        lemma_decode_blocks_ignores_rest(last, front, back);
        assert(first + Seq::<u8>::empty() == first);
    } else {
        let head = back.take(9 * (m - 1));
        lemma_decode_blocks_append(last, front, head);
        assert(all.len() / 9 == k + m);
        assert(all.take(9 * (k + m - 1)) == front + head);
        assert(all.subrange(9 * (k + m - 1), 9 * (k + m)) == back.subrange(9 * (m - 1), 9 * m));
        let second = decode_blocks(middle, head);
        lemma_last_of_append(last, first, second);
        assert(head.len() / 9 == m - 1);
        let group = decode_group(last_of(middle, second), back.subrange(9 * (m - 1), 9 * m));
        assert(decode_blocks(middle, back) == second + group);
        assert(first + second + group == first + (second + group));
    }
}

/// Where a source is cut into chunks makes no difference: an encoder
/// writes for two chunks, one after the other, what it writes for both in
/// one piece, and is in the same state after them.
pub proof fn lemma_encoder_chunks(state: TelemetryEncoderState, first: Seq<u8>, second: Seq<u8>)
    requires
        state.remainder.len() < 8,
    ensures
        TelemetryRleEncoder::output(state, first) + TelemetryRleEncoder::output(
            TelemetryRleEncoder::next_state(state, first),
            second,
        ) == TelemetryRleEncoder::output(state, first + second),
        TelemetryRleEncoder::next_state(TelemetryRleEncoder::next_state(state, first), second)
            == TelemetryRleEncoder::next_state(state, first + second),
{
    let threshold = state.max_threshold;
    let last = state.last_byte;
    let all = state.remainder + first;
    let n: int = all.len() as int / 8;
    let blocks = all.take(8 * n);
    let rest = all.skip(8 * n);
    let then = rest + second;
    let whole = state.remainder + (first + second);
    assert(all == blocks + rest);
    assert(whole == blocks + then);
    lemma_encode_blocks_ignores_rest(threshold, last, blocks, rest);
    lemma_encode_blocks_append(threshold, last, blocks, then);
    assert(last_of(last, blocks) == previous(last, all, 8 * n));
    let m: int = then.len() as int / 8;
    assert(whole.len() / 8 == n + m);
    assert(whole.skip(8 * (n + m)) == then.skip(8 * m));
    assert(previous(last, whole, 8 * (n + m)) == previous(last_of(last, blocks), then, 8 * m));
}

/// Where a source is cut into chunks makes no difference: a decoder
/// recovers from two chunks, one after the other, what it recovers from
/// both in one piece, and is in the same state after them.
pub proof fn lemma_decoder_chunks(state: TelemetryDecoderState, first: Seq<u8>, second: Seq<u8>)
    requires
        state.remainder.len() < 9,
    ensures
        TelemetryRleDecoder::output(state, first) + TelemetryRleDecoder::output(
            TelemetryRleDecoder::next_state(state, first),
            second,
        ) == TelemetryRleDecoder::output(state, first + second),
        TelemetryRleDecoder::next_state(TelemetryRleDecoder::next_state(state, first), second)
            == TelemetryRleDecoder::next_state(state, first + second),
{
    let last = state.last_byte;
    let all = state.remainder + first;
    let n: int = all.len() as int / 9;
    let blocks = all.take(9 * n);
    let rest = all.skip(9 * n);
    let then = rest + second;
    let whole = state.remainder + (first + second);
    assert(all == blocks + rest);
    assert(whole == blocks + then);
    lemma_decode_blocks_ignores_rest(last, blocks, rest);
    lemma_decode_blocks_append(last, blocks, then);
    let recovered = decode_blocks(last, blocks);
    lemma_last_of_append(last, recovered, decode_blocks(last_of(last, recovered), then));
    let m: int = then.len() as int / 9;
    assert(whole.len() / 9 == n + m);
    assert(whole.skip(9 * (n + m)) == then.skip(9 * m));
}

/// A stream through an encoder or a decoder that has seen nothing gives
/// what [`encode_telemetry`] and [`decode_telemetry`] say.
pub proof fn lemma_telemetry_streamed(threshold: u8, symbols: Seq<u8>)
    ensures
        streamed::<TelemetryRleEncoder>(TelemetryRleEncoder::initial(threshold), symbols)
            == encode_telemetry(threshold, symbols),
        streamed::<TelemetryRleDecoder>(TelemetryRleDecoder::initial(), symbols)
            == decode_telemetry(symbols),
{
    if symbols.len() == 0 {
        assert(symbols.skip(0) == symbols);
    }
}

/// A stream through an encoder and then a stream through a decoder give
/// back the source.
pub proof fn lemma_telemetry_stream_roundtrip(threshold: u8, symbols: Seq<u8>)
    ensures
        streamed::<TelemetryRleDecoder>(
            TelemetryRleDecoder::initial(),
            streamed::<TelemetryRleEncoder>(TelemetryRleEncoder::initial(threshold), symbols),
        ) == symbols,
{
    lemma_telemetry_streamed(threshold, symbols);
    lemma_telemetry_streamed(threshold, encode_telemetry(threshold, symbols));
    lemma_telemetry_roundtrip(threshold, symbols);
}

} // verus!
