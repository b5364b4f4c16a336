//! # Lossy RLE
//!
//! Every run is written as a pair: the symbol, then the number of symbols
//! that follow the first one. A run that ends below the threshold is not
//! written: its length is added to the run that follows, whose symbol
//! then stands for the symbols of both.
//!
//! A pair stands for at most 256 symbols. Where more have come together,
//! a pair is written for the first 256 and the count starts again.
use crate::streaming::process::{
    bytes_output, bytes_state, lemma_bytes_append, lemma_bytes_empty,
};
use crate::streaming::stream::streamed;
use crate::streaming::{Process, StreamProcess};
use crate::processors::rle::classic::{push_run, run};
use crate::text::{append_decimal, append_symbol, decimal_text, symbol_text};
use vstd::prelude::*;
use vstd::string::StringExecFns;

verus! {

/// The default threshold. Must be > 1
pub const LOSSY_RLE_THRESHOLD: usize = 2;

/// The abstract state of the lossy encoder.
pub struct LossyState {
    /// How often the last symbol has been seen in a row.
    pub repetition: nat,
    /// The length below which a run is merged into the next.
    pub threshold: nat,
    /// The symbol of the current run.
    pub last_symbol: Option<u8>,
    /// The number of symbols of merged runs that wait for the next pair.
    pub loss_count: nat,
}

/// The state in which nothing has been seen.
pub open spec fn initial(threshold: nat) -> LossyState {
    LossyState { repetition: 0, threshold, last_symbol: None, loss_count: 0 }
}

/// The most symbols that one pair stands for.
pub open spec fn pair_limit() -> nat {
    256
}

/// The number of symbols that the next pair stands for so far.
pub open spec fn held(state: LossyState) -> nat {
    state.repetition + state.loss_count
}

/// The pair for the current run and the merged runs before it.
pub open spec fn written_pair(state: LossyState) -> Seq<u8> {
    match state.last_symbol {
        None => Seq::empty(),
        Some(symbol) => seq![symbol, (held(state) - 1) as u8],
    }
}

/// The things that a symbol can do to the state of the encoder.
pub enum LossyStep {
    /// The symbol is the first one.
    Start,
    /// The current run gets longer.
    Extend,
    /// The current run ends below the threshold and is merged into the
    /// run that the symbol starts.
    Merge,
    /// A pair is written, and the symbol starts a new run.
    Write,
}

/// What `byte` does in `state`.
pub open spec fn lossy_step(state: LossyState, byte: u8) -> LossyStep {
    match state.last_symbol {
        None => LossyStep::Start,
        Some(symbol) => if held(state) >= pair_limit() {
            LossyStep::Write
        } else if symbol == byte {
            LossyStep::Extend
        } else if state.repetition < state.threshold {
            LossyStep::Merge
        } else {
            LossyStep::Write
        },
    }
}

/// Writes runs as pairs of symbol and count, and merges short runs into
/// the run that follows.
pub struct LossyRleEncoder {
    repetition: usize,
    threshold: usize,
    last_symbol: Option<u8>,
    loss_count: usize,
}

impl View for LossyRleEncoder {
    type V = LossyState;

    closed spec fn view(&self) -> LossyState {
        LossyState {
            repetition: self.repetition as nat,
            threshold: self.threshold as nat,
            last_symbol: self.last_symbol,
            loss_count: self.loss_count as nat,
        }
    }
}

impl LossyRleEncoder {
    /// The threshold is above 1, and a pair can be written for the
    /// symbols that are held: there is at least one where there is a
    /// symbol, and there are at most 256. Without a symbol nothing is
    /// held.
    #[verifier::type_invariant]
    spec fn well_formed(self) -> bool {
        &&& 1 < self.threshold
        &&& self.repetition + self.loss_count <= 256
        &&& self.last_symbol is Some ==> 1 <= self.repetition
        &&& self.last_symbol is None ==> self.loss_count == 0
    }

    /// An encoder with the default threshold that has seen nothing.
    pub fn new() -> (r: Self)
        ensures
            r@ == initial(LOSSY_RLE_THRESHOLD as nat),
    {
        LossyRleEncoder {
            repetition: 0,
            threshold: LOSSY_RLE_THRESHOLD,
            last_symbol: None,
            loss_count: 0,
        }
    }

    /// An encoder that has seen nothing and merges runs of fewer than
    /// `threshold` symbols.
    pub fn with_threshold(threshold: usize) -> (r: Self)
        requires
            threshold > 1,
        ensures
            r@ == initial(threshold as nat),
    {
        LossyRleEncoder { repetition: 0, threshold, last_symbol: None, loss_count: 0 }
    }

    /// Starts a run of `byte`. What is held of merged runs stays.
    fn new_symbol(&mut self, byte: u8)
        requires
            old(self)@.loss_count < pair_limit(),
        ensures
            final(self)@ == (LossyState { repetition: 1, last_symbol: Some(byte), ..old(self)@ }),
    {
        proof {
            use_type_invariant(&*self);
        }
        self.repetition = 1;
        self.last_symbol = Some(byte);
    }

    /// Forgets the current run.
    fn reset(&mut self)
        requires
            old(self)@.loss_count == 0,
        ensures
            final(self)@ == (LossyState { repetition: 0, last_symbol: None, ..old(self)@ }),
    {
        proof {
            use_type_invariant(&*self);
        }
        self.last_symbol = None;
        self.repetition = 0;
    }

    /// Writes the pair for all that is held. After it nothing is held of
    /// merged runs.
    fn write_to_sink(&mut self, sink: &mut Vec<u8>) -> (r: Result<usize, std::io::Error>)
        requires
            old(self)@.last_symbol is Some,
        ensures
            final(self)@ == (LossyState { loss_count: 0, ..old(self)@ }),
            final(sink)@ == old(sink)@ + written_pair(old(self)@),
            r matches Ok(n) && n == 1,
    {
        proof {
            use_type_invariant(&*self);
        }
        sink.push(self.last_symbol.unwrap());
        sink.push((self.repetition + self.loss_count - 1) as u8);
        self.loss_count = 0;
        Ok(1)
    }

    /// How often the last symbol has been seen in a row.
    pub fn repetition(&self) -> (r: usize)
        ensures
            r == self@.repetition,
    {
        self.repetition
    }

    /// The length below which a run is merged into the next.
    pub fn threshold(&self) -> (r: usize)
        ensures
            r == self@.threshold,
            r > 1,
    {
        proof {
            use_type_invariant(self);
        }
        self.threshold
    }

    /// The symbol of the current run.
    pub fn last_symbol(&self) -> (r: Option<u8>)
        ensures
            r == self@.last_symbol,
    {
        self.last_symbol
    }

    /// The number of symbols of merged runs that wait for the next pair.
    pub fn loss_count(&self) -> (r: usize)
        ensures
            r == self@.loss_count,
    {
        self.loss_count
    }
    /// The state as a text for a reader.
    pub fn to_string(&self) -> (r: String)
        ensures
            r@ == "LossyRLE<rep:"@ + decimal_text(self@.repetition) + ", min:"@ + decimal_text(
                self@.threshold,
            ) + ", sym:"@ + symbol_text(self@.last_symbol) + ", lcount:"@ + decimal_text(
                self@.loss_count,
            ) + ">"@,
    {
        let mut text = String::from_str("LossyRLE<rep:");
        append_decimal(&mut text, self.repetition);
        text.append(", min:");
        append_decimal(&mut text, self.threshold);
        text.append(", sym:");
        append_symbol(&mut text, self.last_symbol);
        text.append(", lcount:");
        append_decimal(&mut text, self.loss_count);
        text.append(">");
        text
    }
}

impl Default for LossyRleEncoder {
    fn default() -> (r: Self)
        ensures
            r@ == initial(LOSSY_RLE_THRESHOLD as nat),
    {
        Self::new()
    }
}

impl StreamProcess for LossyRleEncoder {
    open spec fn byte_inv(&self) -> bool {
        true
    }

    open spec fn byte_state(state: LossyState, byte: u8) -> LossyState {
        match lossy_step(state, byte) {
            LossyStep::Start => LossyState { repetition: 1, last_symbol: Some(byte), ..state },
            LossyStep::Extend => LossyState { repetition: state.repetition + 1, ..state },
            LossyStep::Merge => LossyState {
                repetition: 1,
                last_symbol: Some(byte),
                loss_count: held(state),
                ..state
            },
            LossyStep::Write => LossyState {
                repetition: 1,
                last_symbol: Some(byte),
                loss_count: 0,
                ..state
            },
        }
    }

    open spec fn byte_output(state: LossyState, byte: u8) -> Seq<u8> {
        match lossy_step(state, byte) {
            LossyStep::Write => written_pair(state),
            _ => Seq::empty(),
        }
    }

    open spec fn last_state(state: LossyState) -> LossyState {
        match state.last_symbol {
            None => state,
            Some(_) => LossyState { repetition: 0, last_symbol: None, loss_count: 0, ..state },
        }
    }

    open spec fn last_output(state: LossyState) -> Seq<u8> {
        written_pair(state)
    }

    open spec fn last_count(state: LossyState) -> nat {
        match state.last_symbol {
            None => 0,
            Some(_) => 1,
        }
    }

    fn process_byte(&mut self, byte: &u8, sink: &mut Vec<u8>) -> (r: Result<usize, std::io::Error>) {
        proof {
            use_type_invariant(&*self);
        }
        match self.last_symbol {
            None => self.new_symbol(*byte),
            Some(ls) => {
                if self.repetition + self.loss_count >= 256 {
                    self.write_to_sink(sink)?;
                    self.new_symbol(*byte);
                } else if ls == *byte {
                    self.repetition += 1;
                } else if self.repetition < self.threshold {
                    let merged: usize = self.repetition;
                    self.new_symbol(*byte);
                    self.loss_count += merged;
                } else {
                    self.write_to_sink(sink)?;
                    self.new_symbol(*byte);
                }
            },
        }
        Ok(1)
    }

    fn finish_byte(&mut self, sink: &mut Vec<u8>) -> (r: Result<usize, std::io::Error>) {
        match self.last_symbol {
            None => Ok(0),
            Some(_) => {
                self.write_to_sink(sink)?;
                self.reset();
                Ok(1)
            },
        }
    }
}

/// The abstract state of the lossy decoder.
pub struct LossyDecoderState {
    /// The symbol whose count is the next byte.
    pub last_symbol: Option<u8>,
}

/// Reads pairs of symbol and count.
pub struct LossyRleDecoder {
    last_symbol: Option<u8>,
}

impl View for LossyRleDecoder {
    type V = LossyDecoderState;

    closed spec fn view(&self) -> LossyDecoderState {
        LossyDecoderState { last_symbol: self.last_symbol }
    }
}

impl Default for LossyRleDecoder {
    fn default() -> (r: Self)
        ensures
            r@.last_symbol is None,
    {
        LossyRleDecoder::new()
    }
}

impl LossyRleDecoder {
    /// A decoder that has seen nothing.
    pub fn new() -> (r: Self)
        ensures
            r@.last_symbol is None,
    {
        LossyRleDecoder { last_symbol: None }
    }

    /// The symbol whose count is the next byte.
    pub fn last_symbol(&self) -> (r: Option<u8>)
        ensures
            r == self@.last_symbol,
    {
        self.last_symbol
    }
    /// The state as a text for a reader.
    pub fn to_string(&self) -> (r: String)
        ensures
            r@ == "LossyRLEDecoder<last_sym:"@ + symbol_text(self@.last_symbol) + ">"@,
    {
        let mut text = String::from_str("LossyRLEDecoder<last_sym:");
        append_symbol(&mut text, self.last_symbol);
        text.append(">");
        text
    }
}

impl StreamProcess for LossyRleDecoder {
    open spec fn byte_inv(&self) -> bool {
        true
    }

    open spec fn byte_state(state: LossyDecoderState, byte: u8) -> LossyDecoderState {
        match state.last_symbol {
            None => LossyDecoderState { last_symbol: Some(byte) },
            Some(_) => LossyDecoderState { last_symbol: None },
        }
    }

    open spec fn byte_output(state: LossyDecoderState, byte: u8) -> Seq<u8> {
        match state.last_symbol {
            None => Seq::empty(),
            Some(symbol) => run(symbol, byte as nat + 1),
        }
    }

    open spec fn last_state(state: LossyDecoderState) -> LossyDecoderState {
        state
    }

    open spec fn last_output(state: LossyDecoderState) -> Seq<u8> {
        match state.last_symbol {
            None => Seq::empty(),
            Some(symbol) => seq![symbol],
        }
    }

    open spec fn last_count(state: LossyDecoderState) -> nat {
        match state.last_symbol {
            None => 0,
            Some(_) => 1,
        }
    }

    /// The first byte of a pair is kept; the second is the number of
    /// symbols that follow the first one.
    fn process_byte(&mut self, byte: &u8, sink: &mut Vec<u8>) -> (r: Result<usize, std::io::Error>) {
        match self.last_symbol {
            None => {
                self.last_symbol = Some(*byte);
            },
            Some(ls) => {
                push_run(sink, ls, *byte as usize + 1);
                self.last_symbol = None;
            },
        }
        Ok(1)
    }

    /// A symbol without a count is written once.
    fn finish_byte(&mut self, sink: &mut Vec<u8>) -> (r: Result<usize, std::io::Error>) {
        match self.last_symbol {
            None => Ok(0),
            Some(ls) => {
                sink.push(ls);
                Ok(1)
            },
        }
    }
}

impl From<LossyRleEncoder> for LossyRleDecoder {
    /// A decoder that has seen nothing.
    fn from(_rle: LossyRleEncoder) -> (r: Self)
        ensures
            r@.last_symbol is None,
    {
        LossyRleDecoder { last_symbol: None }
    }
}

impl vstd::std_specs::convert::FromSpecImpl<LossyRleEncoder> for LossyRleDecoder {
    open spec fn obeys_from_spec() -> bool {
        true
    }

    closed spec fn from_spec(rle: LossyRleEncoder) -> Self {
        LossyRleDecoder { last_symbol: None }
    }
}

/// All that an encoder which has seen nothing writes for `symbols`:
/// what it writes symbol by symbol, then what it writes at the end.
pub open spec fn encode_lossy(symbols: Seq<u8>, threshold: nat) -> Seq<u8> {
    let start = initial(threshold);
    bytes_output::<LossyRleEncoder>(start, symbols) + LossyRleEncoder::last_output(
        bytes_state::<LossyRleEncoder>(start, symbols),
    )
}

/// All that a decoder which has seen nothing recovers from `bytes`.
pub open spec fn decode_lossy(bytes: Seq<u8>) -> Seq<u8> {
    let start = LossyDecoderState { last_symbol: None };
    bytes_output::<LossyRleDecoder>(start, bytes) + LossyRleDecoder::last_output(
        bytes_state::<LossyRleDecoder>(start, bytes),
    )
}

/// Nothing in, nothing out: an empty chunk is written and read as
/// nothing in any state, and an empty source as nothing at all.
pub proof fn lemma_lossy_empty(encoder: LossyState, decoder: LossyDecoderState, threshold: nat)
    ensures
        LossyRleEncoder::output(encoder, Seq::empty()) == Seq::<u8>::empty(),
        LossyRleDecoder::output(decoder, Seq::empty()) == Seq::<u8>::empty(),
        streamed::<LossyRleEncoder>(initial(threshold), Seq::empty()) == Seq::<u8>::empty(),
        streamed::<LossyRleDecoder>(LossyDecoderState { last_symbol: None }, Seq::empty())
            == Seq::<u8>::empty(),
        encode_lossy(Seq::empty(), threshold) == Seq::<u8>::empty(),
        decode_lossy(Seq::empty()) == Seq::<u8>::empty(),
{
    lemma_bytes_empty::<LossyRleEncoder>(encoder);
    lemma_bytes_empty::<LossyRleDecoder>(decoder);
    lemma_bytes_empty::<LossyRleEncoder>(initial(threshold));
    lemma_bytes_empty::<LossyRleDecoder>(LossyDecoderState { last_symbol: None });
}

/// A decoder between two pairs recovers from a pair as many copies of
/// its symbol as the count says and one more, and is between two pairs
/// again.
pub proof fn lemma_decoder_reads_pair(symbol: u8, count: u8)
    ensures
        bytes_output::<LossyRleDecoder>(
            LossyDecoderState { last_symbol: None },
            seq![symbol, count],
        ) == run(symbol, count as nat + 1),
        bytes_state::<LossyRleDecoder>(
            LossyDecoderState { last_symbol: None },
            seq![symbol, count],
        ) == (LossyDecoderState { last_symbol: None }),
{
    let start = LossyDecoderState { last_symbol: None };
    let pair = seq![symbol, count];
    let first = seq![symbol];
    assert(pair.drop_last() == first);
    assert(first.drop_last() == Seq::<u8>::empty());
    lemma_bytes_empty::<LossyRleDecoder>(start);
    assert(bytes_state::<LossyRleDecoder>(start, first) == (LossyDecoderState {
        last_symbol: Some(symbol),
    }));
    assert(bytes_output::<LossyRleDecoder>(start, first) == Seq::<u8>::empty());
}

/// What holds between an encoder and a decoder after any symbols: the
/// decoder is between two pairs, and has recovered from what was written
/// as many symbols as the encoder has seen and does not hold any more.
pub proof fn lemma_lossy_in_step(symbols: Seq<u8>, threshold: nat)
    ensures
        ({
            let encoder = bytes_state::<LossyRleEncoder>(initial(threshold), symbols);
            let written = bytes_output::<LossyRleEncoder>(initial(threshold), symbols);
            let start = LossyDecoderState { last_symbol: None };
            &&& encoder.threshold == threshold
            &&& held(encoder) <= pair_limit()
            &&& encoder.last_symbol is Some ==> 1 <= encoder.repetition
            &&& encoder.last_symbol is None ==> held(encoder) == 0
            &&& bytes_state::<LossyRleDecoder>(start, written) == start
            &&& bytes_output::<LossyRleDecoder>(start, written).len() + held(encoder)
                == symbols.len()
        }),
    decreases symbols.len(),
{
    let begin = initial(threshold);
    let start = LossyDecoderState { last_symbol: None };
    if symbols.len() == 0 {
        lemma_bytes_empty::<LossyRleEncoder>(begin);
        lemma_bytes_empty::<LossyRleDecoder>(start);
    } else {
        let front = symbols.drop_last();
        let byte = symbols.last();
        lemma_lossy_in_step(front, threshold);
        let encoder = bytes_state::<LossyRleEncoder>(begin, front);
        let written = bytes_output::<LossyRleEncoder>(begin, front);
        let now = bytes_output::<LossyRleEncoder>(begin, symbols);
        match lossy_step(encoder, byte) {
            LossyStep::Write => {
                let symbol = encoder.last_symbol->Some_0;
                let count = (held(encoder) - 1) as u8;
                assert(written_pair(encoder) == seq![symbol, count]);
                lemma_bytes_append::<LossyRleDecoder>(start, written, written_pair(encoder));
                lemma_decoder_reads_pair(symbol, count);
            },
            _ => {
                assert(now == written);
            },
        }
    }
}

/// What is lost is symbols, not their number: decoding what was encoded
/// gives as many symbols as there were.
pub proof fn lemma_lossy_keeps_length(symbols: Seq<u8>, threshold: nat)
    ensures
        decode_lossy(encode_lossy(symbols, threshold)).len() == symbols.len(),
{
    let begin = initial(threshold);
    let start = LossyDecoderState { last_symbol: None };
    let encoder = bytes_state::<LossyRleEncoder>(begin, symbols);
    let written = bytes_output::<LossyRleEncoder>(begin, symbols);
    lemma_lossy_in_step(symbols, threshold);
    lemma_bytes_append::<LossyRleDecoder>(start, written, written_pair(encoder));
    match encoder.last_symbol {
        Some(symbol) => {
            let count = (held(encoder) - 1) as u8;
            assert(written_pair(encoder) == seq![symbol, count]);
            lemma_decoder_reads_pair(symbol, count);
        },
        None => {
            lemma_bytes_empty::<LossyRleDecoder>(start);
            assert(written + written_pair(encoder) == written);
        },
    }
}

/// A stream through an encoder or a decoder that has seen nothing gives
/// what [`encode_lossy`] and [`decode_lossy`] say.
pub proof fn lemma_lossy_streamed(symbols: Seq<u8>, threshold: nat)
    ensures
        streamed::<LossyRleEncoder>(initial(threshold), symbols) == encode_lossy(
            symbols,
            threshold,
        ),
        streamed::<LossyRleDecoder>(LossyDecoderState { last_symbol: None }, symbols)
            == decode_lossy(symbols),
{
    lemma_bytes_empty::<LossyRleEncoder>(initial(threshold));
    lemma_bytes_empty::<LossyRleDecoder>(LossyDecoderState { last_symbol: None });
}

} // verus!
