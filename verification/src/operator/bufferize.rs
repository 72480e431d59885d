use vstd::prelude::*;

use super::{ProtocolError, Run};
use crate::primitives::buffer::{
    borrowed_result_matches,
    group_end,
    group_outcome,
    pointee_buffer,
    Buffer,
    BufferBuilder,
    BufferView,
    BufferizeError,
    GroupOutcome,
};
use crate::primitives::elem::{Elem, StopType};

verus! {

/// What to do with the outcome of gathering one buffer: the element to send,
/// or that the input has ended in order, or the violation.
pub open spec fn bufferize_emit<T>(outcome: GroupOutcome<T>) -> Result<Option<Elem<BufferView<T>>>, ProtocolError> {
    match outcome {
        GroupOutcome::Finished => Ok(None),
        GroupOutcome::Incomplete => Err(ProtocolError::ClosedEarly),
        GroupOutcome::Irregular => Err(ProtocolError::ShapeMismatch),
        GroupOutcome::Complete(b, residual) => Ok(Some(Elem::with_level(b, residual))),
    }
}

/// The run of a bufferize from position `i` of the stream on. The entries
/// arrive back to back from cycle `t0` on, one per cycle.
pub open spec fn bufferize_from<T>(s: Seq<Elem<T>>, i: int, rank: nat, t0: u64) -> Run<BufferView<T>>
    decreases s.len() - i,
{
    match bufferize_emit(group_outcome(s, i, rank, (t0 + i) as u64)) {
        Ok(None) => Run::done(),
        Err(e) => Run::fail(e),
        Ok(Some(e)) => {
            let next = group_end(s, i, rank) + 1;
            if next <= i || i < 0 {
                Run { out: seq![e], err: None }
            } else {
                bufferize_from(s, next, rank, t0).after(seq![e])
            }
        },
    }
}

/// The element that an element over a buffer of references stands for.
pub open spec fn buffer_elem_view<T>(e: Elem<Buffer<&T>>) -> Elem<BufferView<T>> {
    match e {
        Elem::Val(b) => Elem::Val(pointee_buffer(b@)),
        Elem::ValStop(b, s) => Elem::ValStop(pointee_buffer(b@), s),
    }
}

/// The stream that a stream over buffers of references stands for.
pub open spec fn buffer_stream_view<T>(s: Seq<Elem<Buffer<&T>>>) -> Seq<Elem<BufferView<T>>> {
    Seq::new(s.len(), |i: int| buffer_elem_view(s[i]))
}

/// Gathers a stream into buffers of rank `rank`, one per group that a stop
/// of that level closes. A higher stop is sent on with the buffer, lowered
/// by `rank`.
pub struct Bufferize {
    rank: StopType,
}

impl Bufferize {
    /// The rank of the buffers.
    pub closed spec fn rank(&self) -> nat {
        self.rank as nat
    }

    pub fn new(rank: StopType) -> (b: Self)
        ensures
            b.rank() == rank,
    {
        Bufferize { rank }
    }

    /// A builder for the next buffer.
    pub fn builder<T>(&self) -> (b: BufferBuilder<T>)
        ensures
            b.wf(),
            b@.rank == self.rank(),
            b@.data.len() == 0,
            b@.info == seq![0usize],
            b@.creation_time is None,
            b@.closing is None,
    {
        BufferBuilder::new(self.rank as usize)
    }

    /// What to send for the result of gathering one buffer: an element,
    /// nothing when the input has ended in order, or the violation.
    pub fn emit<T>(&self, gathered: Result<Buffer<T>, BufferizeError<T>>) -> (r: Result<
        Option<Elem<Buffer<T>>>,
        ProtocolError,
    >)
        ensures
            match gathered {
                Ok(b) => r == Ok::<Option<Elem<Buffer<T>>>, ProtocolError>(Some(Elem::Val(b))),
                Err(BufferizeError::StopToken(b, l)) => r == Ok::<Option<Elem<Buffer<T>>>, ProtocolError>(
                    Some(Elem::ValStop(b, l)),
                ),
                Err(BufferizeError::Finished) => r == Ok::<Option<Elem<Buffer<T>>>, ProtocolError>(None),
                Err(BufferizeError::Incomplete) => r == Err::<Option<Elem<Buffer<T>>>, ProtocolError>(
                    ProtocolError::ClosedEarly,
                ),
                Err(BufferizeError::Irregular) => r == Err::<Option<Elem<Buffer<T>>>, ProtocolError>(
                    ProtocolError::ShapeMismatch,
                ),
            },
    {
        match gathered {
            Ok(b) => Ok(Some(Elem::Val(b))),
            Err(BufferizeError::StopToken(b, l)) => Ok(Some(Elem::ValStop(b, l))),
            Err(BufferizeError::Finished) => Ok(None),
            Err(BufferizeError::Incomplete) => Err(ProtocolError::ClosedEarly),
            Err(BufferizeError::Irregular) => Err(ProtocolError::ShapeMismatch),
        }
    }

    /// The whole output stream for the whole input stream, whose entries
    /// arrive back to back from cycle `t0` on.
    pub fn run<'a, T>(&self, input: &'a Vec<Elem<T>>, t0: u64) -> (r: Result<Vec<Elem<Buffer<&'a T>>>, ProtocolError>)
        requires
            t0 + input.len() <= u64::MAX,
        ensures
            match r {
                Ok(v) => bufferize_from(input@, 0, self.rank(), t0).err is None && buffer_stream_view(v@)
                    == bufferize_from(input@, 0, self.rank(), t0).out,
                Err(e) => bufferize_from(input@, 0, self.rank(), t0).err == Some(e),
            },
    {
        let mut out: Vec<Elem<Buffer<&'a T>>> = Vec::new();
        let mut i: usize = 0;
        let ghost total = bufferize_from(input@, 0, self.rank(), t0);
        proof {
            super::lemma_after_nothing(total);
            assert(buffer_stream_view(out@) =~= Seq::<Elem<BufferView<T>>>::empty());
        }
        loop
            invariant
                i <= input.len(),
                t0 + input.len() <= u64::MAX,
                total == bufferize_from(input@, 0, self.rank(), t0),
                total == bufferize_from(input@, i as int, self.rank(), t0).after(buffer_stream_view(out@)),
            decreases input.len() - i,
        {
            let ghost rest = bufferize_from(input@, i as int, self.rank(), t0);
            let ghost outcome = group_outcome(input@, i as int, self.rank(), (t0 + i) as u64);
            let (gathered, next) = Buffer::from_stream(input, i, self.rank as usize, t0 + i as u64);
            assert(borrowed_result_matches(gathered, outcome));
            match self.emit(gathered) {
                Ok(Some(e)) => {
                    let ghost before = buffer_stream_view(out@);
                    let ghost ev = buffer_elem_view(e);
                    proof {
                        assert(bufferize_emit(outcome) == Ok::<Option<Elem<BufferView<T>>>, ProtocolError>(Some(ev)));
                        assert(i < input.len());
                        crate::primitives::buffer::lemma_group_end_bounds(input@, i as int, self.rank());
                        assert(next > i);
                        let nx = bufferize_from(input@, next as int, self.rank(), t0);
                        assert(rest == nx.after(seq![ev]));
                        assert(buffer_stream_view(out@.push(e)) =~= before + seq![ev]);
                        super::lemma_after_after(nx, before, seq![ev]);
                    }
                    out.push(e);
                    i = next;
                },
                Ok(None) => {
                    proof {
                        assert(rest == Run::<BufferView<T>>::done());
                        assert(buffer_stream_view(out@) + Seq::<Elem<BufferView<T>>>::empty() =~= buffer_stream_view(
                            out@,
                        ));
                    }
                    return Ok(out);
                },
                Err(e) => {
                    assert(rest == Run::<BufferView<T>>::fail(e));
                    return Err(e);
                },
            }
        }
    }
}

} // verus!
