//! # Conditional RLE
//!
//! A conditional RLE maps the symbols of the source to values that are
//! easier to compress. For every context, the symbols before a symbol, it
//! counts which symbols follow, and writes a symbol as the code of its
//! rank among them: the most frequent symbols of a context get the lowest
//! codes.
//!
//! A chunk is written with the counts as they were before the chunk. The
//! symbols of the chunk are counted when all of it has been written, so
//! that a decoder, which counts the symbols it has recovered, has the same
//! counts at every chunk.
use crate::stats::probtable::{lemma_position_of_rank, listed, rank_of};
use crate::streaming::process::{chunks_output, chunks_state};
use crate::streaming::stream::streamed;
use crate::streaming::Process;
use vstd::prelude::*;
use vstd::slice::slice_subrange;

pub mod codetable;
pub mod contexts;

use codetable::{code_of, lemma_code_limit, rank_of_code, CodeTable};
use contexts::{
    all_complete, all_updated, context_at, lemma_all_updated_complete, ContextTables, Tables,
};

verus! {

/// The abstract state of the conditional encoder and decoder.
pub struct ConditionalState {
    /// The number of symbols that make a context.
    pub order: nat,
    /// The bit width of the codes.
    pub bits: nat,
    /// The rank tables of the contexts that have been seen.
    pub tables: Tables,
}

/// The state in which nothing has been seen.
pub open spec fn initial(order: nat, bits: nat) -> ConditionalState {
    ConditionalState { order, bits, tables: Tables::empty() }
}

/// The byte written for `next` in the context `cx`: the code of its rank
/// in the table of the context. Where the context has no table, the table
/// does not hold the symbol, or the rank has no code, the symbol is
/// written as it is.
pub open spec fn encoded_symbol(state: ConditionalState, cx: Seq<u8>, next: u8) -> u8 {
    if state.tables.contains_key(cx) && listed(state.tables[cx], next) {
        match code_of(state.bits, rank_of(state.tables[cx], next) as nat) {
            Some(code) => code,
            None => next,
        }
    } else {
        next
    }
}

/// The bytes written for `source`: one for each symbol.
pub open spec fn encoded(state: ConditionalState, source: Seq<u8>) -> Seq<u8> {
    Seq::new(
        source.len(),
        |p: int| encoded_symbol(state, context_at(source, p, state.order), source[p]),
    )
}

/// The symbol that `val` stands for in the context `cx`: the symbol at
/// the rank whose code it is, in the table of the context. Where `val` is
/// no code, the context has no table, or the table has no such rank,
/// `val` is taken as the symbol.
pub open spec fn decoded_symbol(state: ConditionalState, cx: Seq<u8>, val: u8) -> u8 {
    match rank_of_code(state.bits, val) {
        None => val,
        Some(rank) => if state.tables.contains_key(cx) && rank < state.tables[cx].len() {
            state.tables[cx][rank as int].symbol
        } else {
            val
        },
    }
}

/// The symbols that the first `upto` bytes of `source` stand for. The
/// context of a byte is made of the symbols recovered before it.
pub open spec fn decoded(state: ConditionalState, source: Seq<u8>, upto: nat) -> Seq<u8>
    decreases upto,
{
    if upto == 0 {
        Seq::empty()
    } else {
        let front = decoded(state, source, (upto - 1) as nat);
        front.push(
            decoded_symbol(state, context_at(front, upto - 1, state.order), source[upto - 1]),
        )
    }
}

/// As many symbols are recovered as bytes were read.
pub proof fn lemma_decoded_len(state: ConditionalState, source: Seq<u8>, upto: nat)
    ensures
        decoded(state, source, upto).len() == upto,
    decreases upto,
{
    if upto > 0 {
        lemma_decoded_len(state, source, (upto - 1) as nat);
    }
}

/// Where the context of the position `p` begins.
fn context_start(p: usize, order: usize) -> (r: usize)
    ensures
        r == if p > order {
            p - order
        } else {
            0
        },
{
    if p > order {
        p - order
    } else {
        0
    }
}

/// Writes each symbol as the code of its rank in the table of its
/// context.
#[derive(Debug)]
pub struct ConditionalRleEncoder {
    order: usize,
    ctx_tables: ContextTables,
    code_table: CodeTable,
}

impl View for ConditionalRleEncoder {
    type V = ConditionalState;

    closed spec fn view(&self) -> ConditionalState {
        ConditionalState {
            order: self.order as nat,
            bits: self.code_table@,
            tables: self.ctx_tables@,
        }
    }
}

impl Default for ConditionalRleEncoder {
    fn default() -> (r: Self)
        ensures
            r.wf(),
            r@ == initial(1, 8),
    {
        Self::new()
    }
}

impl ConditionalRleEncoder {
    /// The invariant of the encoder: that of its tables.
    pub closed spec fn wf(&self) -> bool {
        self.ctx_tables.wf()
    }

    /// Create an empty `ConditionalRleEncoder`
    pub fn new() -> (r: Self)
        ensures
            r.wf(),
            r@ == initial(1, 8),
    {
        ConditionalRleEncoder {
            ctx_tables: ContextTables::new(),
            order: 1,
            code_table: CodeTable::new(),
        }
    }

    /// Create an empty `ConditionalRleEncoder` with fixed bit length
    pub fn with_bitlength(length: usize) -> (r: Self)
        requires
            0 < length <= 8,
        ensures
            r.wf(),
            r@ == initial(1, length as nat),
    {
        ConditionalRleEncoder {
            ctx_tables: ContextTables::new(),
            order: 1,
            code_table: CodeTable::with_bitlength(length),
        }
    }

    /// Create an empty `ConditionalRleEncoder` of fixed order
    pub fn with_order(order: usize) -> (r: Self)
        ensures
            r.wf(),
            r@ == initial(order as nat, 8),
    {
        ConditionalRleEncoder {
            ctx_tables: ContextTables::new(),
            order,
            code_table: CodeTable::new(),
        }
    }

    /// Create an empty `ConditionalRleEncoder` of fixed order and defined code length
    pub fn with_order_with_bitlength(order: usize, length: usize) -> (r: Self)
        requires
            0 < length <= 8,
        ensures
            r.wf(),
            r@ == initial(order as nat, length as nat),
    {
        ConditionalRleEncoder {
            ctx_tables: ContextTables::new(),
            order,
            code_table: CodeTable::with_bitlength(length),
        }
    }

    /// Return the code length of the `ConditionalRleEncoder`
    pub fn bitlength(&self) -> (r: usize)
        ensures
            r == self@.bits,
            1 <= r <= 8,
    {
        self.code_table.bitlength()
    }

    /// Return the capacity of the `ConditionalRleEncoder`
    pub fn capacity(&self) -> (r: usize)
        requires
            self.wf(),
        ensures
            r >= self@.tables.dom().len(),
    {
        self.ctx_tables.capacity()
    }

    /// Return the order of the `ConditionalRleEncoder`
    pub fn order(&self) -> (r: usize)
        ensures
            r == self@.order,
    {
        self.order
    }

    /// Return if `ConditionalRleEncoder` is empty
    pub fn is_empty(&self) -> (r: bool)
        requires
            self.wf(),
        ensures
            r == (self@.tables == Tables::empty()),
    {
        self.ctx_tables.is_empty()
    }

    /// Writes the byte for `next` in the context `cx`.
    pub fn encode(&mut self, cx: &[u8], next: u8, sink: &mut Vec<u8>) -> (r: Result<
        usize,
        std::io::Error,
    >)
        requires
            old(self).wf(),
        ensures
            final(self).wf(),
            final(self)@ == old(self)@,
            final(sink)@ == old(sink)@.push(encoded_symbol(old(self)@, cx@, next)),
            r matches Ok(n) && n == 1,
    {
        let encoded: u8 = match self.ctx_tables.get(cx) {
            Some(t) => match t.rank(&next) {
                Some(rank) => match self.code_table.encode(rank) {
                    Some(code) => code,
                    None => next,
                },
                None => next,
            },
            None => next,
        };
        sink.push(encoded);
        Ok(1)
    }

    /// Counts `val` in the table of the context `cx`.
    pub fn single_update(&mut self, cx: &[u8], val: u8) -> (r: Result<usize, std::io::Error>)
        requires
            old(self).wf(),
        ensures
            final(self).wf(),
            final(self)@ == (ConditionalState {
                tables: contexts::updated(old(self)@.tables, cx@, val),
                ..old(self)@
            }),
            r matches Ok(n) && n == 1,
    {
        self.ctx_tables.single_update(cx, val);
        Ok(1)
    }

    /// Counts each symbol of `bytes` in the table of its context.
    fn full_update(&mut self, bytes: &[u8]) -> (r: Result<usize, std::io::Error>)
        requires
            old(self).wf(),
        ensures
            final(self).wf(),
            final(self)@ == (ConditionalState {
                tables: all_updated(
                    old(self)@.tables,
                    bytes@,
                    old(self)@.order,
                    bytes@.len(),
                ),
                ..old(self)@
            }),
            r matches Ok(n) && n == bytes@.len(),
    {
        self.ctx_tables.full_update(bytes, self.order);
        Ok(bytes.len())
    }
}

impl Process for ConditionalRleEncoder {
    open spec fn inv(&self) -> bool {
        self.wf()
    }

    open spec fn next_state(state: ConditionalState, source: Seq<u8>) -> ConditionalState {
        ConditionalState {
            tables: all_updated(state.tables, source, state.order, source.len()),
            ..state
        }
    }

    open spec fn output(state: ConditionalState, source: Seq<u8>) -> Seq<u8> {
        encoded(state, source)
    }

    open spec fn count(state: ConditionalState, source: Seq<u8>) -> nat {
        source.len()
    }

    open spec fn end_state(state: ConditionalState) -> ConditionalState {
        state
    }

    open spec fn end_output(state: ConditionalState) -> Seq<u8> {
        Seq::empty()
    }

    open spec fn end_count(state: ConditionalState) -> nat {
        0
    }

    fn process(&mut self, bytes: &[u8], sink: &mut Vec<u8>) -> (r: Result<usize, std::io::Error>) {
        let ghost state = self@;
        let mut p: usize = 0;
        while p < bytes.len()
            invariant
                p <= bytes@.len(),
                self.wf(),
                self@ == state,
                sink@ == old(sink)@ + encoded(state, bytes@).take(p as int),
            decreases bytes.len() - p,
        {
            let cx = slice_subrange(bytes, context_start(p, self.order), p);
            self.encode(cx, bytes[p], sink)?;
            p += 1;
            proof {
                let all = encoded(state, bytes@);
                assert(all.take(p as int) == all.take(p - 1).push(all[p - 1]));
            }
        }
        proof {
            let all = encoded(state, bytes@);
            assert(all.take(p as int) == all);
        }
        self.full_update(bytes)?;
        Ok(bytes.len())
    }

    fn finish(&mut self, _sink: &mut Vec<u8>) -> (r: Result<usize, std::io::Error>) {
        Ok(0)
    }
}

/// Reads each byte as the code of a rank in the table of its context.
#[derive(Debug)]
pub struct ConditionalRleDecoder {
    tables: ContextTables,
    order: usize,
    code: CodeTable,
}

impl View for ConditionalRleDecoder {
    type V = ConditionalState;

    closed spec fn view(&self) -> ConditionalState {
        ConditionalState { order: self.order as nat, bits: self.code@, tables: self.tables@ }
    }
}

impl Default for ConditionalRleDecoder {
    fn default() -> (r: Self)
        ensures
            r.wf(),
            r@ == initial(1, 8),
    {
        Self::new()
    }
}

impl ConditionalRleDecoder {
    /// The invariant of the decoder: that of its tables.
    pub closed spec fn wf(&self) -> bool {
        self.tables.wf()
    }

    /// Create an empty `ConditionalRleDecoder`
    pub fn new() -> (r: Self)
        ensures
            r.wf(),
            r@ == initial(1, 8),
    {
        ConditionalRleDecoder { tables: ContextTables::new(), order: 1, code: CodeTable::new() }
    }

    /// Create an empty `ConditionalRleDecoder` with fixed bit length
    pub fn with_bitlength(length: usize) -> (r: Self)
        requires
            0 < length <= 8,
        ensures
            r.wf(),
            r@ == initial(1, length as nat),
    {
        ConditionalRleDecoder {
            tables: ContextTables::new(),
            order: 1,
            code: CodeTable::with_bitlength(length),
        }
    }

    /// Create an empty `ConditionalRleDecoder` of fixed order
    pub fn with_order(order: usize) -> (r: Self)
        ensures
            r.wf(),
            r@ == initial(order as nat, 8),
    {
        ConditionalRleDecoder { tables: ContextTables::new(), order, code: CodeTable::new() }
    }

    /// Create an empty `ConditionalRleDecoder` of fixed order and defined code length
    pub fn with_order_with_bitlength(order: usize, length: usize) -> (r: Self)
        requires
            0 < length <= 8,
        ensures
            r.wf(),
            r@ == initial(order as nat, length as nat),
    {
        ConditionalRleDecoder {
            tables: ContextTables::new(),
            order,
            code: CodeTable::with_bitlength(length),
        }
    }

    /// Return the code length of the `ConditionalRleDecoder`
    pub fn bitlength(&self) -> (r: usize)
        ensures
            r == self@.bits,
            1 <= r <= 8,
    {
        self.code.bitlength()
    }

    /// Return the capacity of the `ConditionalRleDecoder`
    pub fn capacity(&self) -> (r: usize)
        requires
            self.wf(),
        ensures
            r >= self@.tables.dom().len(),
    {
        self.tables.capacity()
    }

    /// Return the order of the `ConditionalRleDecoder`
    pub fn order(&self) -> (r: usize)
        ensures
            r == self@.order,
    {
        self.order
    }

    /// Return if `ConditionalRleDecoder` is empty
    pub fn is_empty(&self) -> (r: bool)
        requires
            self.wf(),
        ensures
            r == (self@.tables == Tables::empty()),
    {
        self.tables.is_empty()
    }

    /// Decode a value based on context and write to sink
    ///
    /// 1. Get the rank of the code, 2. get the table of the context, and
    /// 3. get the symbol at the rank
    pub fn decode(&mut self, cx: &[u8], val: u8, sink: &mut Vec<u8>) -> (r: Result<
        u8,
        std::io::Error,
    >)
        requires
            old(self).wf(),
        ensures
            final(self).wf(),
            final(self)@ == old(self)@,
            final(sink)@ == old(sink)@.push(decoded_symbol(old(self)@, cx@, val)),
            r matches Ok(symbol) && symbol == decoded_symbol(old(self)@, cx@, val),
    {
        let decoded: u8 = match self.code.decode(val) {
            None => val,
            Some(rank) => {
                let fallback: u8 = match self.code.encode(rank) {
                    Some(code) => code,
                    None => val,
                };
                match self.tables.get(cx) {
                    Some(t) => match t.position(rank) {
                        Some(symbol) => symbol,
                        None => fallback,
                    },
                    None => fallback,
                }
            },
        };
        sink.push(decoded);
        Ok(decoded)
    }

    /// Counts `val` in the table of the context `cx`.
    pub fn single_update(&mut self, cx: &[u8], val: u8) -> (r: Result<usize, std::io::Error>)
        requires
            old(self).wf(),
        ensures
            final(self).wf(),
            final(self)@ == (ConditionalState {
                tables: contexts::updated(old(self)@.tables, cx@, val),
                ..old(self)@
            }),
            r matches Ok(n) && n == 1,
    {
        self.tables.single_update(cx, val);
        Ok(1)
    }

    /// Counts each symbol of `bytes` in the table of its context.
    fn full_update(&mut self, bytes: &[u8]) -> (r: Result<usize, std::io::Error>)
        requires
            old(self).wf(),
        ensures
            final(self).wf(),
            final(self)@ == (ConditionalState {
                tables: all_updated(
                    old(self)@.tables,
                    bytes@,
                    old(self)@.order,
                    bytes@.len(),
                ),
                ..old(self)@
            }),
            r matches Ok(n) && n == bytes@.len(),
    {
        self.tables.full_update(bytes, self.order);
        Ok(bytes.len())
    }
}

impl Process for ConditionalRleDecoder {
    open spec fn inv(&self) -> bool {
        self.wf()
    }

    open spec fn next_state(state: ConditionalState, source: Seq<u8>) -> ConditionalState {
        ConditionalState {
            tables: all_updated(
                state.tables,
                decoded(state, source, source.len()),
                state.order,
                source.len(),
            ),
            ..state
        }
    }

    open spec fn output(state: ConditionalState, source: Seq<u8>) -> Seq<u8> {
        decoded(state, source, source.len())
    }

    open spec fn count(state: ConditionalState, source: Seq<u8>) -> nat {
        source.len()
    }

    open spec fn end_state(state: ConditionalState) -> ConditionalState {
        state
    }

    open spec fn end_output(state: ConditionalState) -> Seq<u8> {
        Seq::empty()
    }

    open spec fn end_count(state: ConditionalState) -> nat {
        0
    }

    fn process(&mut self, byte: &[u8], sink: &mut Vec<u8>) -> (r: Result<usize, std::io::Error>) {
        let ghost state = self@;
        let mut update_vector: Vec<u8> = Vec::new();
        let mut p: usize = 0;
        while p < byte.len()
            invariant
                p <= byte@.len(),
                self.wf(),
                self@ == state,
                update_vector@ == decoded(state, byte@, p as nat),
                sink@ == old(sink)@ + update_vector@,
            decreases byte.len() - p,
        {
            proof {
                lemma_decoded_len(state, byte@, p as nat);
            }
            let cx = slice_subrange(
                update_vector.as_slice(),
                context_start(p, self.order),
                p,
            );
            let symbol: u8 = self.decode(cx, byte[p], sink)?;
            update_vector.push(symbol);
            p += 1;
        }
        proof {
            lemma_decoded_len(state, byte@, p as nat);
        }
        self.full_update(update_vector.as_slice())?;
        Ok(byte.len())
    }

    fn finish(&mut self, _sink: &mut Vec<u8>) -> (r: Result<usize, std::io::Error>) {
        Ok(0)
    }
}

/// An encoder that has seen nothing writes a chunk as it is: no context
/// has a table, so that no symbol is written as a code.
pub proof fn lemma_first_chunk_unchanged(order: nat, bits: nat, source: Seq<u8>)
    ensures
        ConditionalRleEncoder::output(initial(order, bits), source) == source,
{
}

/// Nothing in, nothing out: an empty chunk is written and read as
/// nothing in any state, and leaves the tables as they are.
pub proof fn lemma_conditional_empty(state: ConditionalState)
    ensures
        ConditionalRleEncoder::output(state, Seq::empty()) == Seq::<u8>::empty(),
        ConditionalRleDecoder::output(state, Seq::empty()) == Seq::<u8>::empty(),
        ConditionalRleEncoder::next_state(state, Seq::empty()) == state,
        ConditionalRleDecoder::next_state(state, Seq::empty()) == state,
        streamed::<ConditionalRleEncoder>(state, Seq::empty()) == Seq::<u8>::empty(),
        streamed::<ConditionalRleDecoder>(state, Seq::empty()) == Seq::<u8>::empty(),
{
}

/// With codes of the full width and tables that hold every byte, a
/// symbol is recovered from the byte that was written for it in the same
/// context.
pub proof fn lemma_symbol_roundtrip(state: ConditionalState, cx: Seq<u8>, next: u8)
    requires
        state.bits == 8,
        all_complete(state.tables),
    ensures
        decoded_symbol(state, cx, encoded_symbol(state, cx, next)) == next,
{
    lemma_code_limit(8);
    if state.tables.contains_key(cx) {
        lemma_position_of_rank(state.tables[cx], next);
    }
}

/// With codes of the full width and tables that hold every byte, the
/// first symbols of a chunk are recovered from its first bytes.
pub proof fn lemma_decoded_prefix(state: ConditionalState, source: Seq<u8>, upto: nat)
    requires
        state.bits == 8,
        all_complete(state.tables),
        upto <= source.len(),
    ensures
        decoded(state, encoded(state, source), upto) == source.take(upto as int),
    decreases upto,
{
    if upto > 0 {
        lemma_decoded_prefix(state, source, (upto - 1) as nat);
        let front = source.take(upto - 1);
        let cx = context_at(source, upto - 1, state.order);
        assert(context_at(front, upto - 1, state.order) == cx);
        lemma_symbol_roundtrip(state, cx, source[upto - 1]);
        assert(front.push(source[upto - 1]) == source.take(upto as int));
    }
}

/// Encoder and decoder stay in step. Where both have the same tables,
/// each of which holds every byte, and codes of the full width, the
/// decoder recovers a chunk from what the encoder wrote for it, and both
/// have the same tables after the chunk, each of which holds every byte
/// again. This is so at the start, where there are no tables, and
/// therefore after any number of chunks.
pub proof fn lemma_conditional_roundtrip(state: ConditionalState, source: Seq<u8>)
    requires
        state.bits == 8,
        all_complete(state.tables),
    ensures
        ConditionalRleDecoder::output(state, ConditionalRleEncoder::output(state, source))
            == source,
        ConditionalRleDecoder::next_state(state, ConditionalRleEncoder::output(state, source))
            == ConditionalRleEncoder::next_state(state, source),
        all_complete(ConditionalRleEncoder::next_state(state, source).tables),
        all_complete(initial(state.order, 8).tables),
{
    lemma_decoded_prefix(state, source, source.len());
    assert(source.take(source.len() as int) == source);
    lemma_all_updated_complete(state.tables, source, state.order, source.len());
}

/// Encoder and decoder stay in step over any number of chunks. Where
/// both start without tables and with codes of the full width, and the
/// decoder is given what the encoder wrote chunk by chunk, the decoder
/// recovers every chunk, and after the chunks both have the same tables.
pub proof fn lemma_conditional_chunks(order: nat, chunks: Seq<Seq<u8>>)
    ensures
        chunks_output::<ConditionalRleDecoder>(
            initial(order, 8),
            chunks_output::<ConditionalRleEncoder>(initial(order, 8), chunks),
        ) == chunks,
        chunks_state::<ConditionalRleDecoder>(
            initial(order, 8),
            chunks_output::<ConditionalRleEncoder>(initial(order, 8), chunks),
        ) == chunks_state::<ConditionalRleEncoder>(initial(order, 8), chunks),
        chunks_state::<ConditionalRleEncoder>(initial(order, 8), chunks).bits == 8,
        chunks_state::<ConditionalRleEncoder>(initial(order, 8), chunks).order == order,
        all_complete(chunks_state::<ConditionalRleEncoder>(initial(order, 8), chunks).tables),
    decreases chunks.len(),
{
    let start = initial(order, 8);
    if chunks.len() > 0 {
        let front = chunks.drop_last();
        let written = chunks_output::<ConditionalRleEncoder>(start, chunks);
        let written_front = chunks_output::<ConditionalRleEncoder>(start, front);
        lemma_conditional_chunks(order, front);
        let state = chunks_state::<ConditionalRleEncoder>(start, front);
        lemma_conditional_roundtrip(state, chunks.last());
        assert(written.drop_last() == written_front);
        assert(front.push(chunks.last()) == chunks);
    }
}

} // verus!
