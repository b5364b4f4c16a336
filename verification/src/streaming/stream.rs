//! # Stream
//!
//! The driver of a processor. It hands the processor what the source has
//! filled, chunk by chunk, and holds what the processor emitted until it
//! is written to the sink. When the source is exhausted, it lets the
//! processor flush.
use super::process::Process;
use vstd::prelude::*;

verus! {

/// Default buffer size for the write buffer
pub const WRITE_BUFFER_SIZE: usize = 4_096;

/// All that a processor in `state` emits for a source that is filled in
/// one piece: the output for `source`, then the final flush. For an empty
/// source there is the final flush alone.
pub open spec fn streamed<P: Process>(state: P::V, source: Seq<u8>) -> Seq<u8> {
    if source.len() > 0 {
        P::output(state, source) + P::end_output(P::next_state(state, source))
    } else {
        P::end_output(state)
    }
}

/// The state in which a processor in `state` leaves a source that is
/// filled in one piece.
pub open spec fn streamed_state<P: Process>(state: P::V, source: Seq<u8>) -> P::V {
    if source.len() > 0 {
        P::end_state(P::next_state(state, source))
    } else {
        P::end_state(state)
    }
}

/// Stream consumes the source and writes the output of the
/// processor to the sink.
///
/// The main task of the `Stream` is to consume the source. The only deciding
/// property is the buffer size. After that no property is being changed. The
/// `consume` method **fully** consumes the source.
pub struct Stream<P> {
    processor: P,
    buffer: Vec<u8>,
}

impl<P: Process> Stream<P> {
    /// The invariant of the stream: that of its processor.
    pub closed spec fn wf(&self) -> bool {
        self.processor.inv()
    }

    /// The abstract state of the processor.
    pub closed spec fn state(&self) -> P::V {
        self.processor@
    }

    /// The bytes that wait to be written to the sink.
    pub closed spec fn pending(&self) -> Seq<u8> {
        self.buffer@
    }

    /// Create a new Stream object with default buffer size
    pub fn new(processor: P) -> (r: Self)
        requires
            processor.inv(),
        ensures
            r.wf(),
            r.state() == processor@,
            r.pending() == Seq::<u8>::empty(),
    {
        let buffer = Vec::with_capacity(WRITE_BUFFER_SIZE);
        Stream { processor, buffer }
    }

    /// Create a new Stream object with custom buffer size
    pub fn with_capacity(processor: P, capacity: usize) -> (r: Self)
        requires
            processor.inv(),
        ensures
            r.wf(),
            r.state() == processor@,
            r.pending() == Seq::<u8>::empty(),
    {
        let buffer = Vec::with_capacity(capacity);
        Stream { processor, buffer }
    }

    /// One turn of the loop. `data` is what the source has filled. Where
    /// it holds bytes, they are processed; where it is empty, the source
    /// is exhausted and the processor flushes. What is to be written to
    /// the sink replaces what was pending. The result tells whether the
    /// stream has ended.
    pub fn step(&mut self, data: &[u8]) -> (r: Result<bool, std::io::Error>)
        requires
            old(self).wf(),
        ensures
            final(self).wf(),
            r matches Ok(ended) && ended == (data@.len() == 0),
            data@.len() > 0 ==> final(self).state() == P::next_state(old(self).state(), data@)
                && final(self).pending() == P::output(old(self).state(), data@),
            data@.len() == 0 ==> final(self).state() == P::end_state(old(self).state())
                && final(self).pending() == P::end_output(old(self).state()),
    {
        self.buffer.clear();
        if data.len() > 0 {
            self.processor.process(data, &mut self.buffer)?;
            Ok(false)
        } else {
            self.processor.finish(&mut self.buffer)?;
            Ok(true)
        }
    }

    /// The bytes that wait to be written to the sink.
    pub fn output(&self) -> (r: &[u8])
        ensures
            r@ == self.pending(),
    {
        self.buffer.as_slice()
    }

    /// Consume the source and fill the sink
    ///
    /// The source is one filled piece: it is processed where it holds
    /// bytes, and then the processor flushes. The result is the number of
    /// bytes of the source.
    pub fn consume(&mut self, source: &[u8], sink: &mut Vec<u8>) -> (r: Result<
        usize,
        std::io::Error,
    >)
        requires
            old(self).wf(),
        ensures
            final(self).wf(),
            final(self).state() == streamed_state::<P>(old(self).state(), source@),
            final(sink)@ == old(sink)@ + streamed::<P>(old(self).state(), source@),
            r matches Ok(n) && n == source@.len(),
    {
        if source.len() > 0 {
            self.step(source)?;
            sink.extend_from_slice(self.buffer.as_slice());
        }
        let ghost written = sink@;
        self.step(slice_empty(source))?;
        sink.extend_from_slice(self.buffer.as_slice());
        proof {
            assert(sink@ == written + self.pending());
        }
        Ok(source.len())
    }
}

/// What is left of a source that has been consumed: nothing.
fn slice_empty(source: &[u8]) -> (r: &[u8])
    ensures
        r@.len() == 0,
{
    vstd::slice::slice_subrange(source, 0, 0)
}

} // verus!
