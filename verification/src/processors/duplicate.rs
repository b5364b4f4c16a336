use crate::streaming::stream::streamed;
use crate::streaming::Process;
use vstd::prelude::*;

verus! {

/// Duplicate all data from the source to the sink (copy).
pub struct Duplicate {}

impl View for Duplicate {
    type V = ();

    open spec fn view(&self) -> () {
        ()
    }
}

impl Duplicate {
    /// A processor that copies.
    pub fn new() -> (r: Self)
        ensures
            r.inv(),
    {
        Duplicate {  }
    }
}

impl Default for Duplicate {
    fn default() -> (r: Self)
        ensures
            r.inv(),
    {
        Self::new()
    }
}

impl Process for Duplicate {
    open spec fn inv(&self) -> bool {
        true
    }

    open spec fn next_state(state: (), source: Seq<u8>) -> () {
        ()
    }

    open spec fn output(state: (), source: Seq<u8>) -> Seq<u8> {
        source
    }

    open spec fn count(state: (), source: Seq<u8>) -> nat {
        source.len()
    }

    open spec fn end_state(state: ()) -> () {
        ()
    }

    open spec fn end_output(state: ()) -> Seq<u8> {
        Seq::empty()
    }

    open spec fn end_count(state: ()) -> nat {
        0
    }

    fn process(&mut self, source: &[u8], sink: &mut Vec<u8>) -> (r: Result<usize, std::io::Error>) {
        sink.extend_from_slice(source);
        Ok(source.len())
    }

    fn finish(&mut self, sink: &mut Vec<u8>) -> (r: Result<usize, std::io::Error>) {
        Ok(0)
    }
}

/// Nothing in, nothing out: neither for an empty chunk nor at the end of
/// an empty source.
pub proof fn lemma_duplicate_empty()
    ensures
        Duplicate::output((), Seq::empty()) == Seq::<u8>::empty(),
        streamed::<Duplicate>((), Seq::empty()) == Seq::<u8>::empty(),
{
}

} // verus!
