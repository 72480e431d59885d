use vstd::prelude::*;

use crate::primitives::elem::{borrowed_stream, Elem};

pub mod accum;
pub mod broadcast;
pub mod bufferize;
pub mod dynstreamify;
pub mod eager_merge;
pub mod expand;
pub mod flatmap;
pub mod flatten;
pub mod map;
pub mod map_accum;
pub mod parallelize;
pub mod partition;
pub mod promote;
pub mod reassemble;
pub mod repeat;
pub mod reshape;
pub mod round_trip;
pub mod streamify;

pub use self::broadcast::{
    all_targets, broadcast_stream, lemma_broadcast_reaches_all, lemma_fan_reaches_all, BroadcastContext,
};

verus! {

/// A value-less entry streamed directly between compute units.
#[derive(Debug, Clone, Copy, PartialEq, PartialOrd, Default)]
pub struct ActEntry {}

impl ActEntry {
    /// The size that a channel accounts for one entry.
    pub fn dam_size(&self) -> (n: usize)
        ensures
            n == 1,
    {
        1
    }
}

/// What a stream can do against the stop-token protocol.
#[derive(Debug, Clone, Copy, PartialEq, Eq)]
pub enum ProtocolError {
    /// Two streams that are read in step disagree in their stop markers.
    ShapeMismatch,
    /// One of the streams that are read in step ended before the other.
    ClosedEarly,
    /// A stop marker stands where only bare values are allowed.
    UnexpectedStop,
    /// A stop level is above the rank that the operator was made for.
    LevelAboveRank,
    /// A selector stop has no matching stop in the data stream.
    SelectorMismatch,
    /// A group has to be padded and no pad value was given.
    MissingPad,
    /// The operator's parameters do not fit the streams.
    BadConfig,
}

/// The outcome of running an operator over whole streams: what it sent, and
/// the violation that ended the run, if one did.
pub struct Run<T> {
    pub out: Seq<Elem<T>>,
    pub err: Option<ProtocolError>,
}

impl<T> Run<T> {
    /// A run that sent nothing more and ended in order.
    pub open spec fn done() -> Run<T> {
        Run { out: Seq::empty(), err: None }
    }

    /// A run that sent nothing more and ended on `e`.
    pub open spec fn fail(e: ProtocolError) -> Run<T> {
        Run { out: Seq::empty(), err: Some(e) }
    }

    /// The run that first sends `pre` and then goes on as `self`.
    pub open spec fn after(self, pre: Seq<Elem<T>>) -> Run<T> {
        Run { out: pre + self.out, err: self.err }
    }

    /// Whether a result over borrowed payloads says what the run says: the
    /// stream sent on success, the violation otherwise.
    pub open spec fn is_result(self, r: Result<Vec<Elem<&T>>, ProtocolError>) -> bool {
        match r {
            Ok(v) => self.err is None && borrowed_stream(v@) == self.out,
            Err(e) => self.err == Some(e),
        }
    }
}

/// Sending `a`, then `b`, then going on is sending `a + b` and going on.
pub proof fn lemma_after_after<T>(r: Run<T>, a: Seq<Elem<T>>, b: Seq<Elem<T>>)
    ensures
        r.after(b).after(a) == r.after(a + b),
{
    assert(a + (b + r.out) =~= (a + b) + r.out);
}

/// Going on after having sent nothing is going on.
pub proof fn lemma_after_nothing<T>(r: Run<T>)
    ensures
        r.after(Seq::empty()) == r,
{
    assert(Seq::<Elem<T>>::empty() + r.out =~= r.out);
}

/// The stream behind `v` extended by one borrowed element.
pub proof fn lemma_borrowed_push<T>(v: Seq<Elem<&T>>, e: Elem<&T>)
    ensures
        borrowed_stream(v.push(e)) == borrowed_stream(v).push(crate::primitives::elem::borrowed(e)),
{
    assert(borrowed_stream(v.push(e)) =~= borrowed_stream(v).push(crate::primitives::elem::borrowed(e)));
}

} // verus!
