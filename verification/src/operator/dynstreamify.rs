use vstd::prelude::*;

use super::streamify::{buffer_views, raise_at, traversal};
use super::{lemma_after_after, lemma_after_nothing, ProtocolError, Run};
use crate::primitives::buffer::{Buffer, BufferView};
use crate::primitives::elem::{borrowed, borrowed_stream, Elem, StopType};

verus! {

/// Some stop marker of the stream is above `rank`.
pub open spec fn above_rank<T>(s: Seq<Elem<T>>, rank: nat) -> bool {
    exists|i: int| 0 <= i < s.len() && (#[trigger] s[i]).level() > rank
}

/// The stream to send for the current buffer when the reference stream
/// gives an element with marker `ref_stop`. A bare reference value reads
/// the buffer as it is; a reference stop raises the stop that ends the
/// buffer by its level.
pub open spec fn dyn_emit<T>(rank: nat, b: BufferView<T>, ref_stop: Option<StopType>) -> Result<
    Seq<Elem<T>>,
    ProtocolError,
> {
    match ref_stop {
        None => Ok(b.to_stream()),
        Some(rs) => if above_rank(b.to_stream(), rank) {
            Err(ProtocolError::LevelAboveRank)
        } else {
            Ok(traversal(b, rank, rs as nat))
        },
    }
}

/// Whether the reference element with marker `ref_stop` ends the readings
/// of the current buffer.
pub open spec fn dyn_advance(repeat_rank: nat, ref_stop: Option<StopType>) -> bool {
    match ref_stop {
        None => false,
        Some(rs) => rs >= repeat_rank + 1,
    }
}

/// The run from buffer `i` and reference position `j` on.
pub open spec fn dyn_from<T, R>(
    rank: nat,
    repeat_rank: nat,
    bufs: Seq<Elem<BufferView<T>>>,
    refs: Seq<Elem<R>>,
    i: int,
    j: int,
) -> Run<T>
    decreases bufs.len() - i, refs.len() - j,
{
    if i < 0 || i >= bufs.len() {
        Run::done()
    } else if j < 0 || j >= refs.len() {
        if bufs[i] is ValStop {
            dyn_from(rank, repeat_rank, bufs, refs, i + 1, j)
        } else {
            Run::done()
        }
    } else {
        match dyn_emit(rank, bufs[i].value(), refs[j].stop()) {
            Ok(part) => dyn_from(
                rank,
                repeat_rank,
                bufs,
                refs,
                if dyn_advance(repeat_rank, refs[j].stop()) {
                    i + 1
                } else {
                    i
                },
                j + 1,
            ).after(part),
            Err(e) => Run::fail(e),
        }
    }
}

/// Reads buffers out as streams, each once per element of a reference
/// stream, until a reference stop above `repeat_rank` moves on to the next
/// buffer.
pub struct DynStreamify {
    bufferized_rank: StopType,
    repeat_rank: StopType,
}

impl DynStreamify {
    /// The stop level that ends a buffer.
    pub closed spec fn rank(&self) -> nat {
        self.bufferized_rank as nat
    }

    /// The outermost rank that the reference stream repeats.
    pub closed spec fn repeat_rank(&self) -> nat {
        self.repeat_rank as nat
    }

    pub fn new(bufferized_rank: StopType, repeat_rank: StopType) -> (d: Self)
        ensures
            d.rank() == bufferized_rank,
            d.repeat_rank() == repeat_rank,
    {
        DynStreamify { bufferized_rank, repeat_rank }
    }

    /// Whether the reference element ends the readings of the current
    /// buffer.
    pub fn advance(&self, ref_stop: Option<StopType>) -> (a: bool)
        ensures
            a == dyn_advance(self.repeat_rank(), ref_stop),
    {
        match ref_stop {
            None => false,
            Some(rs) => rs > self.repeat_rank,
        }
    }

    /// The stream to send for the current buffer and one reference element;
    /// every entry costs one cycle.
    pub fn emit<'a, T>(&self, buff: &'a Buffer<T>, ref_stop: Option<StopType>) -> (r: Result<
        Vec<Elem<&'a T>>,
        ProtocolError,
    >)
        requires
            buff.wf(),
            ref_stop matches Some(rs) ==> self.rank() + rs <= u32::MAX,
        ensures
            match r {
                Ok(v) => dyn_emit(self.rank(), buff@, ref_stop) == Ok::<
                    Seq<Elem<T>>,
                    ProtocolError,
                >(borrowed_stream(v@)),
                Err(e) => dyn_emit(self.rank(), buff@, ref_stop) == Err::<
                    Seq<Elem<T>>,
                    ProtocolError,
                >(e),
            },
    {
        let base = buff.to_elem_iter();
        let rs = match ref_stop {
            None => {
                return Ok(base);
            },
            Some(rs) => rs,
        };
        let ghost src = buff@.to_stream();
        let ghost one = traversal(buff@, self.rank(), rs as nat);
        let mut out: Vec<Elem<&'a T>> = Vec::with_capacity(base.len());
        let mut i: usize = 0;
        assert(borrowed_stream(base@).len() == base.len());
        while i < base.len()
            invariant
                i <= base.len(),
                ref_stop == Some(rs),
                self.rank() + rs <= u32::MAX,
                borrowed_stream(base@) == src,
                src == buff@.to_stream(),
                base.len() == buff@.data.len(),
                one == traversal(buff@, self.rank(), rs as nat),
                out.len() == i,
                forall|j: int| 0 <= j < i ==> (#[trigger] src[j]).level() <= self.rank(),
                forall|j: int| 0 <= j < i ==> borrowed(#[trigger] out[j]) == one[j],
            decreases base.len() - i,
        {
            assert(src[i as int] == borrowed(base[i as int]));
            let e = match base[i] {
                Elem::Val(x) => Elem::Val(x),
                Elem::ValStop(x, l) => {
                    if l == self.bufferized_rank {
                        Elem::ValStop(x, l + rs)
                    } else if l < self.bufferized_rank {
                        Elem::ValStop(x, l)
                    } else {
                        assert(src[i as int].level() > self.rank());
                        return Err(ProtocolError::LevelAboveRank);
                    }
                },
            };
            assert(borrowed(e) == raise_at(src[i as int], self.rank(), rs as nat));
            out.push(e);
            i += 1;
        }
        assert(borrowed_stream(out@) =~= one);
        Ok(out)
    }

    /// The whole output stream for whole streams of buffers and references.
    pub fn run<'a, T, R>(&self, input: &'a Vec<Elem<Buffer<T>>>, refs: &Vec<Elem<R>>) -> (r: Result<
        Vec<Elem<&'a T>>,
        ProtocolError,
    >)
        requires
            forall|i: int| 0 <= i < input.len() ==> (#[trigger] input[i]).value().wf(),
            forall|j: int| 0 <= j < refs.len() ==> self.rank() + (#[trigger] refs[j]).level() <= u32::MAX,
        ensures
            dyn_from(self.rank(), self.repeat_rank(), buffer_views(input@), refs@, 0, 0).is_result(r),
    {
        let mut out: Vec<Elem<&'a T>> = Vec::new();
        let mut i: usize = 0;
        let mut j: usize = 0;
        let ghost views = buffer_views(input@);
        let ghost total = dyn_from(self.rank(), self.repeat_rank(), views, refs@, 0, 0);
        proof {
            lemma_after_nothing(total);
            assert(borrowed_stream(out@) =~= Seq::<Elem<T>>::empty());
        }
        while i < input.len()
            invariant
                i <= input.len(),
                j <= refs.len(),
                views == buffer_views(input@),
                forall|k: int| 0 <= k < input.len() ==> (#[trigger] input[k]).value().wf(),
                forall|k: int| 0 <= k < refs.len() ==> self.rank() + (#[trigger] refs[k]).level() <= u32::MAX,
                total == dyn_from(self.rank(), self.repeat_rank(), views, refs@, 0, 0),
                total == dyn_from(self.rank(), self.repeat_rank(), views, refs@, i as int, j as int).after(
                    borrowed_stream(out@),
                ),
            decreases input.len() - i + refs.len() - j,
        {
            let ghost rest = dyn_from(self.rank(), self.repeat_rank(), views, refs@, i as int, j as int);
            let buffer_is_stop = input[i].stop_marker().is_some();
            assert(views[i as int].value() == input[i as int].value()@);
            assert((views[i as int] is ValStop) == buffer_is_stop);
            if j >= refs.len() {
                if buffer_is_stop {
                    i += 1;
                    continue ;
                } else {
                    proof {
                        assert(rest == Run::<T>::done());
                        assert(borrowed_stream(out@) + Seq::<Elem<T>>::empty() =~= borrowed_stream(out@));
                    }
                    return Ok(out);
                }
            }
            let ref_stop = refs[j].stop_marker();
            assert(input[i as int].value().wf());
            assert(self.rank() + refs[j as int].level() <= u32::MAX);
            match self.emit(input[i].data(), ref_stop) {
                Ok(part) => {
                    let mut part = part;
                    let advance = self.advance(ref_stop);
                    proof {
                        let before = borrowed_stream(out@);
                        let em = borrowed_stream(part@);
                        let next = dyn_from(
                            self.rank(),
                            self.repeat_rank(),
                            views,
                            refs@,
                            if advance {
                                i + 1
                            } else {
                                i as int
                            },
                            j + 1,
                        );
                        assert(rest == next.after(em));
                        assert(borrowed_stream(out@ + part@) =~= before + em);
                        lemma_after_after(next, before, em);
                    }
                    out.append(&mut part);
                    if advance {
                        i += 1;
                    }
                    j += 1;
                },
                Err(e) => {
                    assert(rest == Run::<T>::fail(e));
                    return Err(e);
                },
            }
        }
        proof {
            let rest = dyn_from(self.rank(), self.repeat_rank(), views, refs@, i as int, j as int);
            assert(rest == Run::<T>::done());
            assert(borrowed_stream(out@) + Seq::<Elem<T>>::empty() =~= borrowed_stream(out@));
        }
        Ok(out)
    }
}

} // verus!
