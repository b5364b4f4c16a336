//! # Process
//!
//! The processing unit of the crate: what a processor does to a chunk of
//! bytes, stated over an abstract view of the processor's state.
use vstd::prelude::*;

verus! {

/// The error of `std::io`, which the processing interface can carry.
#[verifier::external_type_specification]
#[verifier::external_body]
pub struct ExIoError(std::io::Error);

/// A processor folds chunks of source bytes into sink bytes.
///
/// The view of a processor is its abstract state. What a call emits, what
/// it returns and the state it leaves behind are functions of the state
/// before the call and of the bytes handed in.
pub trait Process: View {
    /// The invariant of the executable state.
    spec fn inv(&self) -> bool;

    /// The state after `source` has been processed in `state`.
    spec fn next_state(state: Self::V, source: Seq<u8>) -> Self::V;

    /// The bytes emitted while `source` is processed in `state`.
    spec fn output(state: Self::V, source: Seq<u8>) -> Seq<u8>;

    /// The number of bytes of `source` that were encoded or decoded.
    spec fn count(state: Self::V, source: Seq<u8>) -> nat;

    /// The state after the final flush in `state`.
    spec fn end_state(state: Self::V) -> Self::V;

    /// The bytes emitted by the final flush in `state`.
    spec fn end_output(state: Self::V) -> Seq<u8>;

    /// The number that the final flush reports in `state`.
    spec fn end_count(state: Self::V) -> nat;

    /// Process the data from the source and append the output to the sink.
    fn process(&mut self, source: &[u8], sink: &mut Vec<u8>) -> (r: Result<usize, std::io::Error>)
        requires
            old(self).inv(),
        ensures
            final(self).inv(),
            final(self)@ == Self::next_state(old(self)@, source@),
            final(sink)@ == old(sink)@ + Self::output(old(self)@, source@),
            r matches Ok(n) && n == Self::count(old(self)@, source@),
    ;

    /// Finish the processing by appending what is still held back.
    fn finish(&mut self, sink: &mut Vec<u8>) -> (r: Result<usize, std::io::Error>)
        requires
            old(self).inv(),
        ensures
            final(self).inv(),
            final(self)@ == Self::end_state(old(self)@),
            final(sink)@ == old(sink)@ + Self::end_output(old(self)@),
            r matches Ok(n) && n == Self::end_count(old(self)@),
    ;
}

/// The state of a processor after it has processed `chunks`, one after
/// the other.
pub open spec fn chunks_state<P: Process>(state: P::V, chunks: Seq<Seq<u8>>) -> P::V
    decreases chunks.len(),
{
    if chunks.len() == 0 {
        state
    } else {
        P::next_state(chunks_state::<P>(state, chunks.drop_last()), chunks.last())
    }
}

/// What a processor emits for each of `chunks`, which it processes one
/// after the other.
pub open spec fn chunks_output<P: Process>(state: P::V, chunks: Seq<Seq<u8>>) -> Seq<Seq<u8>>
    decreases chunks.len(),
{
    if chunks.len() == 0 {
        Seq::empty()
    } else {
        chunks_output::<P>(state, chunks.drop_last()).push(
            P::output(chunks_state::<P>(state, chunks.drop_last()), chunks.last()),
        )
    }
}

/// A processor that is defined by what it does to a single byte.
pub trait StreamProcess: View {
    /// The invariant of the executable state.
    spec fn byte_inv(&self) -> bool;

    /// The state after `byte` has been processed in `state`.
    spec fn byte_state(state: Self::V, byte: u8) -> Self::V;

    /// The bytes emitted when `byte` is processed in `state`.
    spec fn byte_output(state: Self::V, byte: u8) -> Seq<u8>;

    /// The state after the final flush in `state`.
    spec fn last_state(state: Self::V) -> Self::V;

    /// The bytes emitted by the final flush in `state`.
    spec fn last_output(state: Self::V) -> Seq<u8>;

    /// The number that the final flush reports in `state`.
    spec fn last_count(state: Self::V) -> nat;

    fn process_byte(&mut self, byte: &u8, sink: &mut Vec<u8>) -> (r: Result<usize, std::io::Error>)
        requires
            old(self).byte_inv(),
        ensures
            final(self).byte_inv(),
            final(self)@ == Self::byte_state(old(self)@, *byte),
            final(sink)@ == old(sink)@ + Self::byte_output(old(self)@, *byte),
            r matches Ok(n) && n == 1,
    ;

    fn finish_byte(&mut self, sink: &mut Vec<u8>) -> (r: Result<usize, std::io::Error>)
        requires
            old(self).byte_inv(),
        ensures
            final(self).byte_inv(),
            final(self)@ == Self::last_state(old(self)@),
            final(sink)@ == old(sink)@ + Self::last_output(old(self)@),
            r matches Ok(n) && n == Self::last_count(old(self)@),
    ;
}

/// The state that a byte-wise processor reaches from `state` over `source`.
pub open spec fn bytes_state<S: StreamProcess>(state: S::V, source: Seq<u8>) -> S::V
    decreases source.len(),
{
    if source.len() == 0 {
        state
    } else {
        S::byte_state(bytes_state::<S>(state, source.drop_last()), source.last())
    }
}

/// The bytes that a byte-wise processor emits from `state` over `source`.
pub open spec fn bytes_output<S: StreamProcess>(state: S::V, source: Seq<u8>) -> Seq<u8>
    decreases source.len(),
{
    if source.len() == 0 {
        Seq::empty()
    } else {
        bytes_output::<S>(state, source.drop_last()) + S::byte_output(
            bytes_state::<S>(state, source.drop_last()),
            source.last(),
        )
    }
}

/// A byte-wise processor emits nothing for an empty chunk and stays as
/// it is.
pub proof fn lemma_bytes_empty<S: StreamProcess>(state: S::V)
    ensures
        bytes_state::<S>(state, Seq::empty()) == state,
        bytes_output::<S>(state, Seq::empty()) == Seq::<u8>::empty(),
{
}

/// A byte-wise processor does to a chunk what it does to its two halves,
/// one after the other: where the input is cut makes no difference.
pub proof fn lemma_bytes_append<S: StreamProcess>(state: S::V, front: Seq<u8>, back: Seq<u8>)
    ensures
        bytes_state::<S>(state, front + back) == bytes_state::<S>(
            bytes_state::<S>(state, front),
            back,
        ),
        bytes_output::<S>(state, front + back) == bytes_output::<S>(state, front)
            + bytes_output::<S>(bytes_state::<S>(state, front), back),
    decreases back.len(),
{
    if back.len() == 0 {
        assert(front + back == front);
    } else {
        lemma_bytes_append::<S>(state, front, back.drop_last());
        assert((front + back).drop_last() == front + back.drop_last());
    }
}

/// Every byte-wise processor is a processor: a chunk is processed byte
/// by byte, and the outputs are concatenated.
impl<S: StreamProcess> Process for S {
    open spec fn inv(&self) -> bool {
        self.byte_inv()
    }

    open spec fn next_state(state: Self::V, source: Seq<u8>) -> Self::V {
        bytes_state::<S>(state, source)
    }

    open spec fn output(state: Self::V, source: Seq<u8>) -> Seq<u8> {
        bytes_output::<S>(state, source)
    }

    open spec fn count(state: Self::V, source: Seq<u8>) -> nat {
        source.len()
    }

    open spec fn end_state(state: Self::V) -> Self::V {
        S::last_state(state)
    }

    open spec fn end_output(state: Self::V) -> Seq<u8> {
        S::last_output(state)
    }

    open spec fn end_count(state: Self::V) -> nat {
        S::last_count(state)
    }

    fn process(&mut self, source: &[u8], sink: &mut Vec<u8>) -> (r: Result<usize, std::io::Error>) {
        let mut i: usize = 0;
        while i < source.len()
            invariant
                i <= source.len(),
                self.byte_inv(),
                self@ == bytes_state::<S>(old(self)@, source@.take(i as int)),
                sink@ == old(sink)@ + bytes_output::<S>(old(self)@, source@.take(i as int)),
            decreases source.len() - i,
        {
            proof {
                assert(source@.take(i + 1).drop_last() == source@.take(i as int));
            }
            self.process_byte(&source[i], sink)?;
            i += 1;
        }
        proof {
            assert(source@.take(i as int) == source@);
        }
        Ok(source.len())
    }

    fn finish(&mut self, sink: &mut Vec<u8>) -> (r: Result<usize, std::io::Error>) {
        self.finish_byte(sink)
    }
}

} // verus!
