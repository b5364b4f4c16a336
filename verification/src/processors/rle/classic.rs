//! # Classic RLE
//!
//! A run is written as its symbol, repeated up to a threshold. Where the
//! run reaches the threshold, one byte follows that counts the repetitions
//! beyond it. A run too long for one count byte is written as several
//! runs, each with a count byte of its own.
use crate::streaming::process::{
    bytes_output, bytes_state, lemma_bytes_append, lemma_bytes_empty,
};
use crate::streaming::stream::streamed;
use crate::streaming::{Process, StreamProcess};
use crate::text::{append_decimal, append_symbol_spread, decimal_text, symbol_text_spread};
use vstd::prelude::*;
use vstd::string::StringExecFns;

verus! {

/// Must be > 1
pub const CLASSIC_RLE_THRESHOLD: usize = 2;

/// The abstract state of the classic encoder and decoder.
pub struct ClassicState {
    /// How often the last symbol has been seen in a row.
    pub repetition: nat,
    /// How often a symbol is written before a count follows.
    pub max_threshold: nat,
    /// The symbol of the current run.
    pub last_symbol: Option<u8>,
}

/// The state in which nothing has been seen.
pub open spec fn initial(threshold: nat) -> ClassicState {
    ClassicState { repetition: 0, max_threshold: threshold, last_symbol: None }
}

/// `state` with the current run forgotten.
pub open spec fn reset_run(state: ClassicState) -> ClassicState {
    ClassicState { repetition: 0, last_symbol: None, ..state }
}

/// `state` at the first symbol of a new run.
pub open spec fn start_run(state: ClassicState, symbol: u8) -> ClassicState {
    ClassicState { repetition: 1, last_symbol: Some(symbol), ..state }
}

/// `state` with the current run one symbol longer.
pub open spec fn extend_run(state: ClassicState) -> ClassicState {
    ClassicState { repetition: state.repetition + 1, ..state }
}

/// `length` times the same symbol.
pub open spec fn run(symbol: u8, length: nat) -> Seq<u8> {
    Seq::new(length, |i: int| symbol)
}

/// The longest run that is written with one count byte: as long as the
/// threshold says and 255 symbols more. Where the machine cannot count
/// that far, the longest run is as long as it can count, and never
/// shorter than the threshold.
pub open spec fn longest_run(threshold: nat) -> nat {
    if threshold + 255 <= usize::MAX {
        threshold + 255
    } else if threshold <= usize::MAX {
        usize::MAX as nat
    } else {
        threshold
    }
}

/// The current run as it is written: below the threshold symbol by
/// symbol, else the symbol as often as the threshold says, then the count
/// of the repetitions beyond it.
pub open spec fn written_run(state: ClassicState) -> Seq<u8> {
    match state.last_symbol {
        None => Seq::empty(),
        Some(symbol) => if state.repetition >= state.max_threshold {
            run(symbol, state.max_threshold).push(
                (state.repetition - state.max_threshold) as u8,
            )
        } else {
            run(symbol, state.repetition)
        },
    }
}

/// Whether `byte` makes the current run of the encoder longer. A run
/// that is as long as one count byte allows ends there, and `byte` starts
/// the next one.
pub open spec fn continues_run(state: ClassicState, byte: u8) -> bool {
    state.last_symbol == Some(byte) && state.repetition < longest_run(state.max_threshold)
}

/// Appends `symbol` to `sink`, `length` times.
pub fn push_run(sink: &mut Vec<u8>, symbol: u8, length: usize)
    ensures
        final(sink)@ == old(sink)@ + run(symbol, length as nat),
{
    let mut i: usize = 0;
    while i < length
        invariant
            i <= length,
            sink@ == old(sink)@ + run(symbol, i as nat),
        decreases length - i,
    {
        sink.push(symbol);
        i += 1;
        proof {
            assert(run(symbol, i as nat) == run(symbol, (i - 1) as nat).push(symbol));
        }
    }
}

/// Classic RLE encoder implementation using special key defined by MNP5 algorithm
///
/// Classic RLE encoder with `repetition` representing the number of occurences
/// of the last seen symbol, `max_threshold` the number of repetition which will
/// be replaced by the encoder (must be at least 2; efficient encoding only happens
/// with max_threshold + 1 repetitions), and the last_symbol.
pub struct RleClassicEncoder {
    repetition: usize,
    max_threshold: usize,
    last_symbol: Option<u8>,
}

impl View for RleClassicEncoder {
    type V = ClassicState;

    closed spec fn view(&self) -> ClassicState {
        ClassicState {
            repetition: self.repetition as nat,
            max_threshold: self.max_threshold as nat,
            last_symbol: self.last_symbol,
        }
    }
}

impl RleClassicEncoder {
    /// The threshold is above 1, and the current run is not longer than
    /// one count byte allows.
    #[verifier::type_invariant]
    spec fn well_formed(self) -> bool {
        &&& 1 < self.max_threshold
        &&& self.repetition <= self.max_threshold + 255
    }

    /// Create a new classic RLE Encoder with default threshold
    pub fn new() -> (r: Self)
        ensures
            r@ == initial(CLASSIC_RLE_THRESHOLD as nat),
    {
        RleClassicEncoder {
            repetition: 0,
            max_threshold: CLASSIC_RLE_THRESHOLD,
            last_symbol: None,
        }
    }

    /// Create a new classic RLE Encoder with custom threshold
    pub fn with_threshold(max_threshold: usize) -> (r: Self)
        requires
            1 < max_threshold,
        ensures
            r@ == initial(max_threshold as nat),
    {
        RleClassicEncoder { repetition: 0, max_threshold, last_symbol: None }
    }

    /// Reset Encoder
    pub fn reset(&mut self)
        ensures
            final(self)@ == reset_run(old(self)@),
    {
        proof {
            use_type_invariant(&*self);
        }
        self.repetition = 0;
        self.last_symbol = None;
    }

    /// How often the last symbol has been seen in a row.
    pub fn repetition(&self) -> (r: usize)
        ensures
            r == self@.repetition,
    {
        self.repetition
    }

    /// How often a symbol is written before a count follows.
    pub fn max_threshold(&self) -> (r: usize)
        ensures
            r == self@.max_threshold,
            r > 1,
    {
        proof {
            use_type_invariant(self);
        }
        self.max_threshold
    }

    /// The symbol of the current run.
    pub fn last_symbol(&self) -> (r: Option<u8>)
        ensures
            r == self@.last_symbol,
    {
        self.last_symbol
    }

    /// The state as a text for a reader.
    pub fn to_string(&self) -> (r: String)
        ensures
            r@ == "ClassicRLE< reps:"@ + decimal_text(self@.repetition) + " max:"@ + decimal_text(
                self@.max_threshold,
            ) + " sym:"@ + symbol_text_spread(self@.last_symbol) + " >"@,
    {
        let mut text = String::from_str("ClassicRLE< reps:");
        append_decimal(&mut text, self.repetition);
        text.append(" max:");
        append_decimal(&mut text, self.max_threshold);
        text.append(" sym:");
        append_symbol_spread(&mut text, self.last_symbol);
        text.append(" >");
        text
    }

    /// Write last symbol and if necessary the number of occurences to sink
    fn write_to_sink(&mut self, sink: &mut Vec<u8>)
        requires
            old(self)@.last_symbol is Some,
        ensures
            final(self)@ == old(self)@,
            final(sink)@ == old(sink)@ + written_run(old(self)@),
    {
        proof {
            use_type_invariant(&*self);
        }
        let last_symbol: u8 = self.last_symbol.unwrap();
        if self.repetition >= self.max_threshold {
            let diff: usize = self.repetition - self.max_threshold;
            push_run(sink, last_symbol, self.max_threshold);
            sink.push(diff as u8);
        } else {
            push_run(sink, last_symbol, self.repetition);
        }
    }

    /// Setup new symbol
    fn new_symbol(&mut self, byte: u8)
        ensures
            final(self)@ == start_run(old(self)@, byte),
    {
        proof {
            use_type_invariant(&*self);
        }
        self.repetition = 1;
        self.last_symbol = Some(byte);
    }
}

impl Default for RleClassicEncoder {
    fn default() -> (r: Self)
        ensures
            r@ == initial(CLASSIC_RLE_THRESHOLD as nat),
    {
        Self::new()
    }
}

impl StreamProcess for RleClassicEncoder {
    open spec fn byte_inv(&self) -> bool {
        true
    }

    open spec fn byte_state(state: ClassicState, byte: u8) -> ClassicState {
        if continues_run(state, byte) {
            extend_run(state)
        } else {
            start_run(state, byte)
        }
    }

    open spec fn byte_output(state: ClassicState, byte: u8) -> Seq<u8> {
        if continues_run(state, byte) {
            Seq::empty()
        } else {
            written_run(state)
        }
    }

    open spec fn last_state(state: ClassicState) -> ClassicState {
        match state.last_symbol {
            Some(_) => reset_run(state),
            None => state,
        }
    }

    open spec fn last_output(state: ClassicState) -> Seq<u8> {
        written_run(state)
    }

    open spec fn last_count(state: ClassicState) -> nat {
        match state.last_symbol {
            Some(_) => 1,
            None => 0,
        }
    }

    fn process_byte(&mut self, byte: &u8, sink: &mut Vec<u8>) -> (r: Result<usize, std::io::Error>) {
        proof {
            use_type_invariant(&*self);
        }
        match self.last_symbol {
            Some(ls) => {
                if ls == *byte && self.repetition < self.max_threshold.saturating_add(255) {
                    self.repetition += 1;
                } else {
                    self.write_to_sink(sink);
                    self.new_symbol(*byte);
                }
            },
            None => self.new_symbol(*byte),
        }
        Ok(1)
    }

    fn finish_byte(&mut self, sink: &mut Vec<u8>) -> (r: Result<usize, std::io::Error>) {
        match self.last_symbol {
            Some(_) => {
                self.write_to_sink(sink);
                self.reset();
                Ok(1)
            },
            None => Ok(0),
        }
    }
}

/// Classic RLE decoder: the counterpart of [`RleClassicEncoder`].
pub struct RleClassicDecoder {
    repetition: usize,
    max_threshold: usize,
    last_symbol: Option<u8>,
}

impl View for RleClassicDecoder {
    type V = ClassicState;

    closed spec fn view(&self) -> ClassicState {
        ClassicState {
            repetition: self.repetition as nat,
            max_threshold: self.max_threshold as nat,
            last_symbol: self.last_symbol,
        }
    }
}

impl RleClassicDecoder {
    /// The threshold is above 1, and the decoder never counts beyond it.
    #[verifier::type_invariant]
    spec fn well_formed(self) -> bool {
        &&& 1 < self.max_threshold
        &&& self.repetition <= self.max_threshold
    }

    /// Create a new classic RLE Decoder with default threshold
    pub fn new() -> (r: Self)
        ensures
            r@ == initial(CLASSIC_RLE_THRESHOLD as nat),
    {
        RleClassicDecoder {
            repetition: 0,
            max_threshold: CLASSIC_RLE_THRESHOLD,
            last_symbol: None,
        }
    }

    /// Create a new classic RLE Decoder with custom threshold
    pub fn with_threshold(max_threshold: usize) -> (r: Self)
        requires
            1 < max_threshold,
        ensures
            r@ == initial(max_threshold as nat),
    {
        RleClassicDecoder { repetition: 0, max_threshold, last_symbol: None }
    }

    /// Reset Decoder
    pub fn reset(&mut self)
        ensures
            final(self)@ == reset_run(old(self)@),
    {
        proof {
            use_type_invariant(&*self);
        }
        self.repetition = 0;
        self.last_symbol = None;
    }

    /// How often the last symbol has been seen in a row.
    pub fn repetition(&self) -> (r: usize)
        ensures
            r == self@.repetition,
    {
        self.repetition
    }

    /// How often a symbol is read before a count follows.
    pub fn max_threshold(&self) -> (r: usize)
        ensures
            r == self@.max_threshold,
            r > 1,
    {
        proof {
            use_type_invariant(self);
        }
        self.max_threshold
    }

    /// The symbol of the current run.
    pub fn last_symbol(&self) -> (r: Option<u8>)
        ensures
            r == self@.last_symbol,
    {
        self.last_symbol
    }
    /// The state as a text for a reader.
    pub fn to_string(&self) -> (r: String)
        ensures
            r@ == "RLE Classic Decoder < reps:"@ + decimal_text(self@.repetition) + " max:"@
                + decimal_text(self@.max_threshold) + " sym:"@ + symbol_text_spread(
                self@.last_symbol,
            ) + " >"@,
    {
        let mut text = String::from_str("RLE Classic Decoder < reps:");
        append_decimal(&mut text, self.repetition);
        text.append(" max:");
        append_decimal(&mut text, self.max_threshold);
        text.append(" sym:");
        append_symbol_spread(&mut text, self.last_symbol);
        text.append(" >");
        text
    }
}

impl Default for RleClassicDecoder {
    fn default() -> (r: Self)
        ensures
            r@ == initial(CLASSIC_RLE_THRESHOLD as nat),
    {
        Self::new()
    }
}

impl StreamProcess for RleClassicDecoder {
    open spec fn byte_inv(&self) -> bool {
        true
    }

    open spec fn byte_state(state: ClassicState, byte: u8) -> ClassicState {
        match state.last_symbol {
            None => start_run(state, byte),
            Some(ls) => if state.repetition == state.max_threshold {
                reset_run(state)
            } else if byte == ls {
                extend_run(state)
            } else {
                start_run(state, byte)
            },
        }
    }

    open spec fn byte_output(state: ClassicState, byte: u8) -> Seq<u8> {
        match state.last_symbol {
            None => seq![byte],
            Some(ls) => if state.repetition == state.max_threshold {
                run(ls, byte as nat)
            } else {
                seq![byte]
            },
        }
    }

    open spec fn last_state(state: ClassicState) -> ClassicState {
        reset_run(state)
    }

    open spec fn last_output(state: ClassicState) -> Seq<u8> {
        Seq::empty()
    }

    open spec fn last_count(state: ClassicState) -> nat {
        0
    }

    /// A byte that follows a symbol which was read as often as the
    /// threshold says is the count of the symbols that follow; any other
    /// byte is a symbol.
    fn process_byte(&mut self, byte: &u8, sink: &mut Vec<u8>) -> (r: Result<usize, std::io::Error>) {
        proof {
            use_type_invariant(&*self);
        }
        match self.last_symbol {
            None => {
                self.repetition = 1;
                self.last_symbol = Some(*byte);
                sink.push(*byte);
                Ok(1)
            },
            Some(ls) => {
                if self.repetition == self.max_threshold {
                    push_run(sink, ls, *byte as usize);
                    self.reset();
                } else if *byte == ls {
                    self.repetition += 1;
                    sink.push(*byte);
                } else {
                    self.repetition = 1;
                    self.last_symbol = Some(*byte);
                    sink.push(*byte)
                }
                Ok(1)
            },
        }
    }

    fn finish_byte(&mut self, sink: &mut Vec<u8>) -> (r: Result<usize, std::io::Error>) {
        self.reset();
        Ok(0)
    }
}

impl From<RleClassicEncoder> for RleClassicDecoder {
    /// The decoder that reads what `rle` writes: it has the threshold of
    /// `rle` and has seen nothing.
    fn from(rle: RleClassicEncoder) -> (r: Self)
        ensures
            r@ == initial(rle@.max_threshold),
    {
        proof {
            use_type_invariant(&rle);
        }
        RleClassicDecoder::with_threshold(rle.max_threshold)
    }
}

impl vstd::std_specs::convert::FromSpecImpl<RleClassicEncoder> for RleClassicDecoder {
    open spec fn obeys_from_spec() -> bool {
        true
    }

    closed spec fn from_spec(rle: RleClassicEncoder) -> Self {
        RleClassicDecoder { repetition: 0, max_threshold: rle.max_threshold, last_symbol: None }
    }
}

impl From<RleClassicDecoder> for RleClassicEncoder {
    /// The encoder whose output `rle` reads: it has the threshold of
    /// `rle` and has seen nothing.
    fn from(rle: RleClassicDecoder) -> (r: Self)
        ensures
            r@ == initial(rle@.max_threshold),
    {
        proof {
            use_type_invariant(&rle);
        }
        RleClassicEncoder::with_threshold(rle.max_threshold)
    }
}

impl vstd::std_specs::convert::FromSpecImpl<RleClassicDecoder> for RleClassicEncoder {
    open spec fn obeys_from_spec() -> bool {
        true
    }

    closed spec fn from_spec(rle: RleClassicDecoder) -> Self {
        RleClassicEncoder { repetition: 0, max_threshold: rle.max_threshold, last_symbol: None }
    }
}

/// All that an encoder which has seen nothing writes for `symbols`:
/// what it writes symbol by symbol, then what it writes at the end.
pub open spec fn encode_classic(symbols: Seq<u8>, threshold: nat) -> Seq<u8> {
    let start = initial(threshold);
    bytes_output::<RleClassicEncoder>(start, symbols) + RleClassicEncoder::last_output(
        bytes_state::<RleClassicEncoder>(start, symbols),
    )
}

/// All that a decoder which has seen nothing recovers from `bytes`.
pub open spec fn decode_classic(bytes: Seq<u8>, threshold: nat) -> Seq<u8> {
    let start = initial(threshold);
    bytes_output::<RleClassicDecoder>(start, bytes) + RleClassicDecoder::last_output(
        bytes_state::<RleClassicDecoder>(start, bytes),
    )
}

/// The symbols of the current run of an encoder, which it has not
/// written yet.
pub open spec fn pending_run(state: ClassicState) -> Seq<u8> {
    match state.last_symbol {
        Some(symbol) => run(symbol, state.repetition),
        None => Seq::empty(),
    }
}

/// A decoder in `state` reads a following `symbol` as the first of a new
/// run.
pub open spec fn ready_for(state: ClassicState, symbol: u8) -> bool {
    state.last_symbol is None || (state.last_symbol != Some(symbol) && state.repetition
        < state.max_threshold)
}

/// A decoder that is ready for it reads up to threshold many copies of a
/// symbol as they are.
pub proof fn lemma_decoder_reads_symbols(state: ClassicState, symbol: u8, length: nat)
    requires
        1 <= length <= state.max_threshold,
        ready_for(state, symbol),
    ensures
        bytes_state::<RleClassicDecoder>(state, run(symbol, length)) == (ClassicState {
            repetition: length,
            last_symbol: Some(symbol),
            ..state
        }),
        bytes_output::<RleClassicDecoder>(state, run(symbol, length)) == run(symbol, length),
    decreases length,
{
    let symbols = run(symbol, length);
    let front = run(symbol, (length - 1) as nat);
    assert(symbols.drop_last() == front);
    assert(symbols.last() == symbol);
    if length > 1 {
        lemma_decoder_reads_symbols(state, symbol, (length - 1) as nat);
    } else {
        assert(front.len() == 0);
        assert(bytes_state::<RleClassicDecoder>(state, front) == state);
        assert(bytes_output::<RleClassicDecoder>(state, front) == Seq::<u8>::empty());
    }
    let before = bytes_state::<RleClassicDecoder>(state, front);
    assert(RleClassicDecoder::byte_output(before, symbol) == seq![symbol]);
    assert(bytes_output::<RleClassicDecoder>(state, symbols) == bytes_output::<RleClassicDecoder>(
        state,
        front,
    ) + seq![symbol]);
    assert(front + seq![symbol] == symbols);
}

/// A decoder that is ready for its symbol recovers a written run.
pub proof fn lemma_decoder_reads_run(state: ClassicState, written: ClassicState)
    requires
        written.last_symbol is Some,
        written.max_threshold > 1,
        1 <= written.repetition <= longest_run(written.max_threshold),
        written.max_threshold == state.max_threshold,
        ready_for(state, written.last_symbol->Some_0),
    ensures
        bytes_output::<RleClassicDecoder>(state, written_run(written)) == pending_run(written),
        bytes_state::<RleClassicDecoder>(state, written_run(written)) == (if written.repetition
            >= written.max_threshold {
            reset_run(state)
        } else {
            ClassicState { repetition: written.repetition, last_symbol: written.last_symbol, ..state }
        }),
{
    let symbol = written.last_symbol->Some_0;
    let threshold = written.max_threshold;
    if written.repetition >= threshold {
        let bytes = written_run(written);
        let beyond = (written.repetition - threshold) as nat;
        assert(bytes.drop_last() == run(symbol, threshold));
        assert(bytes.last() == beyond as u8);
        lemma_decoder_reads_symbols(state, symbol, threshold);
        assert(run(symbol, threshold) + run(symbol, beyond) == run(symbol, written.repetition));
    } else {
        lemma_decoder_reads_symbols(state, symbol, written.repetition);
    }
}

/// What holds between an encoder and a decoder after any symbols: the
/// decoder has recovered from what was written all symbols but those of
/// the encoder's current run, and will read the next symbol it gets as
/// the first of a run.
pub proof fn lemma_classic_in_step(symbols: Seq<u8>, threshold: nat)
    requires
        threshold > 1,
    ensures
        ({
            let start = initial(threshold);
            let encoder = bytes_state::<RleClassicEncoder>(start, symbols);
            let written = bytes_output::<RleClassicEncoder>(start, symbols);
            let decoder = bytes_state::<RleClassicDecoder>(start, written);
            &&& encoder.max_threshold == threshold
            &&& decoder.max_threshold == threshold
            &&& encoder.last_symbol is None ==> symbols.len() == 0 && written.len() == 0
            &&& encoder.last_symbol matches Some(symbol) ==> {
                &&& 1 <= encoder.repetition <= longest_run(threshold)
                &&& ready_for(decoder, symbol)
            }
            &&& bytes_output::<RleClassicDecoder>(start, written) + pending_run(encoder)
                == symbols
        }),
    decreases symbols.len(),
{
    let start = initial(threshold);
    if symbols.len() > 0 {
        let front = symbols.drop_last();
        let byte = symbols.last();
        lemma_classic_in_step(front, threshold);
        let encoder = bytes_state::<RleClassicEncoder>(start, front);
        let written = bytes_output::<RleClassicEncoder>(start, front);
        let decoder = bytes_state::<RleClassicDecoder>(start, written);
        let recovered = bytes_output::<RleClassicDecoder>(start, written);
        let now = bytes_output::<RleClassicEncoder>(start, symbols);
        assert(front.push(byte) == symbols);
        if continues_run(encoder, byte) {
            assert(now == written);
            assert(pending_run(extend_run(encoder)) == pending_run(encoder).push(byte));
            assert(recovered + pending_run(encoder).push(byte) == (recovered + pending_run(
                encoder,
            )).push(byte));
        } else {
            assert(pending_run(start_run(encoder, byte)) == seq![byte]);
            match encoder.last_symbol {
                None => {
                    assert(now == written);
                    assert(recovered + seq![byte] == (recovered + pending_run(encoder)).push(byte));
                },
                Some(symbol) => {
                    lemma_bytes_append::<RleClassicDecoder>(start, written, written_run(encoder));
                    lemma_decoder_reads_run(decoder, encoder);
                    assert(recovered + pending_run(encoder) + seq![byte] == front.push(byte));
                },
            }
        }
    }
}

/// Encoding and then decoding with the same threshold gives back the
/// symbols.
pub proof fn lemma_classic_roundtrip(symbols: Seq<u8>, threshold: nat)
    requires
        threshold > 1,
    ensures
        decode_classic(encode_classic(symbols, threshold), threshold) == symbols,
{
    let start = initial(threshold);
    let encoder = bytes_state::<RleClassicEncoder>(start, symbols);
    let written = bytes_output::<RleClassicEncoder>(start, symbols);
    let decoder = bytes_state::<RleClassicDecoder>(start, written);
    lemma_classic_in_step(symbols, threshold);
    lemma_bytes_append::<RleClassicDecoder>(start, written, written_run(encoder));
    if encoder.last_symbol is Some {
        lemma_decoder_reads_run(decoder, encoder);
    } else {
        assert(written + written_run(encoder) == written);
    }
}

/// Nothing in, nothing out: an empty chunk is written and read as
/// nothing in any state, and an empty source as nothing at all.
pub proof fn lemma_classic_empty(state: ClassicState, threshold: nat)
    ensures
        RleClassicEncoder::output(state, Seq::empty()) == Seq::<u8>::empty(),
        RleClassicDecoder::output(state, Seq::empty()) == Seq::<u8>::empty(),
        streamed::<RleClassicEncoder>(initial(threshold), Seq::empty()) == Seq::<u8>::empty(),
        streamed::<RleClassicDecoder>(initial(threshold), Seq::empty()) == Seq::<u8>::empty(),
        encode_classic(Seq::empty(), threshold) == Seq::<u8>::empty(),
        decode_classic(Seq::empty(), threshold) == Seq::<u8>::empty(),
{
    lemma_bytes_empty::<RleClassicEncoder>(state);
    lemma_bytes_empty::<RleClassicDecoder>(state);
    lemma_bytes_empty::<RleClassicEncoder>(initial(threshold));
    lemma_bytes_empty::<RleClassicDecoder>(initial(threshold));
}

/// A stream through an encoder or a decoder that has seen nothing gives
/// what [`encode_classic`] and [`decode_classic`] say.
pub proof fn lemma_classic_streamed(symbols: Seq<u8>, threshold: nat)
    ensures
        streamed::<RleClassicEncoder>(initial(threshold), symbols) == encode_classic(
            symbols,
            threshold,
        ),
        streamed::<RleClassicDecoder>(initial(threshold), symbols) == decode_classic(
            symbols,
            threshold,
        ),
{
    lemma_bytes_empty::<RleClassicEncoder>(initial(threshold));
    lemma_bytes_empty::<RleClassicDecoder>(initial(threshold));
}

/// A stream through an encoder and then a stream through a decoder with
/// the same threshold give back the source.
pub proof fn lemma_classic_stream_roundtrip(symbols: Seq<u8>, threshold: nat)
    requires
        threshold > 1,
    ensures
        streamed::<RleClassicDecoder>(
            initial(threshold),
            streamed::<RleClassicEncoder>(initial(threshold), symbols),
        ) == symbols,
{
    lemma_classic_streamed(symbols, threshold);
    lemma_classic_streamed(encode_classic(symbols, threshold), threshold);
    lemma_classic_roundtrip(symbols, threshold);
}

} // verus!
